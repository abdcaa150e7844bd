//! Decimal rendering of integers into `String`s, specified character by
//! character.

use vstd::prelude::*;

verus! {

/// The ASCII character of the decimal digit `d`.
pub open spec fn digit_char(d: int) -> char {
    (48 + d) as char
}

/// The shortest decimal representation of `n`.
pub open spec fn digits(n: nat) -> Seq<char>
    decreases n,
{
    if n < 10 {
        seq![digit_char(n as int)]
    } else {
        digits(n / 10).push(digit_char((n % 10) as int))
    }
}

/// `k` copies of the character `0`.
pub open spec fn zeros(k: nat) -> Seq<char> {
    Seq::new(k, |i: int| '0')
}

/// `n` in decimal, left-padded with zeros to at least `width` characters.
pub open spec fn padded(n: nat, width: int) -> Seq<char> {
    let ds = digits(n);
    if ds.len() < width {
        zeros((width - ds.len()) as nat) + ds
    } else {
        ds
    }
}

/// What `format!("{n:0width$}")` prints: a minus sign for negative numbers,
/// then the magnitude zero-padded so that the whole text has at least
/// `width` characters.
pub open spec fn int_text(n: int, width: int) -> Seq<char> {
    if n < 0 {
        seq!['-'] + padded((-n) as nat, width - 1)
    } else {
        padded(n as nat, width)
    }
}

pub proof fn lemma_digits_nonempty(n: nat)
    ensures
        digits(n).len() >= 1,
    decreases n,
{
    if n >= 10 {
        lemma_digits_nonempty(n / 10);
    }
}

fn digit_str(d: u8) -> (s: &'static str)
    requires
        d < 10,
    ensures
        s@ == seq![digit_char(d as int)],
{
    match d {
        0 => {
            proof { reveal_strlit("0"); }
            "0"
        },
        1 => {
            proof { reveal_strlit("1"); }
            "1"
        },
        2 => {
            proof { reveal_strlit("2"); }
            "2"
        },
        3 => {
            proof { reveal_strlit("3"); }
            "3"
        },
        4 => {
            proof { reveal_strlit("4"); }
            "4"
        },
        5 => {
            proof { reveal_strlit("5"); }
            "5"
        },
        6 => {
            proof { reveal_strlit("6"); }
            "6"
        },
        7 => {
            proof { reveal_strlit("7"); }
            "7"
        },
        8 => {
            proof { reveal_strlit("8"); }
            "8"
        },
        _ => {
            proof { reveal_strlit("9"); }
            "9"
        },
    }
}

fn append_digits(s: &mut String, n: u128)
    ensures
        final(s)@ == old(s)@ + digits(n as nat),
    decreases n,
{
    if n >= 10 {
        append_digits(s, n / 10);
    }
    let d: u8 = (n % 10) as u8;
    s.append(digit_str(d));
    proof {
        assert(digits(n as nat) == if n < 10 {
            seq![digit_char(n as int)]
        } else {
            digits((n / 10) as nat).push(digit_char((n % 10) as int))
        });
    }
}

/// `10` to the power `k`.
pub open spec fn pow10(k: nat) -> nat
    decreases k,
{
    if k == 0 {
        1
    } else {
        10 * pow10((k - 1) as nat)
    }
}

/// A number below `10^k` has at most `k` digits.
pub proof fn lemma_digits_len(n: nat, k: nat)
    requires
        n < pow10(k),
        k >= 1,
    ensures
        digits(n).len() <= k,
        digits(n).len() >= 1,
    decreases k,
{
    if n >= 10 {
        assert(k >= 2) by {
            if k == 1 {
                assert(pow10(1) == 10 * pow10(0));
            }
        }
        assert(pow10(k) == 10 * pow10((k - 1) as nat));
        lemma_digits_len(n / 10, (k - 1) as nat);
    }
}

proof fn lemma_u128_digits(n: u128)
    ensures
        1 <= digits(n as nat).len() <= 39,
{
    reveal_with_fuel(pow10, 40);
    assert(pow10(39) == 1000000000000000000000000000000000000000nat);
    lemma_digits_len(n as nat, 39);
}

fn digit_count(n: u128) -> (c: usize)
    ensures
        c == digits(n as nat).len(),
    decreases n,
{
    if n >= 10 {
        let c: usize = digit_count(n / 10);
        proof { lemma_u128_digits(n / 10); }
        c + 1
    } else {
        1
    }
}

/// Appends `n` in decimal, zero-padded to `width` characters as `int_text`
/// describes.
pub fn append_int(s: &mut String, n: i128, width: usize)
    ensures
        final(s)@ == old(s)@ + int_text(n as int, width as int),
{
    let neg = n < 0;
    let mag: u128 = if neg {
        ((-(n + 1)) as u128) + 1
    } else {
        n as u128
    };
    let w: usize = if neg && width > 0 {
        width - 1
    } else if neg {
        0
    } else {
        width
    };
    let ghost prefix = s@;
    if neg {
        s.append("-");
    }
    let count = digit_count(mag);
    let mut i: usize = count;
    proof {
        reveal_strlit("-");
        reveal_strlit("0");
        assert(zeros(0) =~= Seq::<char>::empty());
        assert(s@ =~= (if neg { prefix + seq!['-'] } else { prefix }) + zeros(0));
    }
    while i < w
        invariant
            count <= i,
            i <= w || i == count,
            s@ == (if neg { prefix + seq!['-'] } else { prefix }) + zeros((i - count) as nat),
        decreases w - i,
    {
        s.append("0");
        proof {
            reveal_strlit("0");
            assert(zeros((i + 1 - count) as nat) =~= zeros((i - count) as nat) + seq!['0']);
        }
        i = i + 1;
    }
    append_digits(s, mag);
    proof {
        let z = zeros((i - count) as nat);
        let ds = digits(mag as nat);
        assert(padded(mag as nat, w as int) =~= z + ds);
        if neg {
            assert(mag == -n);
            assert(w == width - 1 || (width == 0 && w == 0));
            assert(padded(mag as nat, width - 1) == padded(mag as nat, w as int));
            assert(s@ =~= prefix + (seq!['-'] + (z + ds)));
        } else {
            assert(s@ =~= prefix + (z + ds));
        }
    }
}

/// The number that the decimal digit characters `t` write.
pub open spec fn digits_value(t: Seq<char>) -> int
    decreases t.len(),
{
    if t.len() == 0 {
        0
    } else {
        digits_value(t.drop_last()) * 10 + (t.last() as int - 48)
    }
}

/// Every character of `t` is a decimal digit.
pub open spec fn all_digits(t: Seq<char>) -> bool {
    forall|i: int| 0 <= i < t.len() ==> 48 <= #[trigger] t[i] as int <= 57
}

/// The digits of `n` read back as `n`.
pub proof fn lemma_digits_value(n: nat)
    ensures
        digits_value(digits(n)) == n,
        all_digits(digits(n)),
    decreases n,
{
    let r = (n % 10) as int;
    assert(digit_char(r) as int == 48 + r);
    let t = digits(n);
    assert(digits_value(t) == digits_value(t.drop_last()) * 10 + (t.last() as int - 48));
    if n >= 10 {
        lemma_digits_value(n / 10);
        assert(t.drop_last() =~= digits(n / 10));
        assert(t.last() == digit_char(r));
        assert(n == (n / 10) * 10 + n % 10);
    } else {
        assert(t.drop_last() =~= Seq::<char>::empty());
        assert(digits_value(Seq::<char>::empty()) == 0);
        assert(t.last() == digit_char(n as int));
        assert(digit_char(n as int) as int == 48 + n);
    }
}

/// The shortest representation has no leading zero.
pub proof fn lemma_digits_leading(n: nat)
    ensures
        digits(n).len() >= 1,
        digits(n).len() == 1 || digits(n)[0] != '0',
    decreases n,
{
    lemma_digits_nonempty(n);
    if n >= 10 {
        lemma_digits_leading(n / 10);
        assert(digits(n)[0] == digits(n / 10)[0]);
        if n / 10 < 10 {
            let k = (n / 10) as int;
            assert(digits(n / 10) == seq![digit_char(k)]);
            assert(digit_char(k) as int == 48 + k);
            assert(digits(n)[0] as int != 48);
            assert('0' as int == 48);
        } else {
            lemma_digits_nonempty(n / 10 / 10);
            assert(digits(n / 10).len() >= 2);
        }
    }
}

proof fn lemma_zeros_value(k: nat)
    ensures
        digits_value(zeros(k)) == 0,
        all_digits(zeros(k)),
    decreases k,
{
    if k > 0 {
        lemma_zeros_value((k - 1) as nat);
        assert(zeros(k).drop_last() =~= zeros((k - 1) as nat));
    }
}

proof fn lemma_zeros_prefix(k: nat, t: Seq<char>)
    ensures
        digits_value(zeros(k) + t) == digits_value(t),
        all_digits(t) ==> all_digits(zeros(k) + t),
    decreases t.len(),
{
    lemma_zeros_value(k);
    if t.len() > 0 {
        lemma_zeros_prefix(k, t.drop_last());
        assert((zeros(k) + t).drop_last() =~= zeros(k) + t.drop_last());
    } else {
        assert(zeros(k) + t =~= zeros(k));
    }
}

/// `n` written with `width` digits reads back as `n`.
pub proof fn lemma_padded_value(n: nat, width: nat)
    requires
        1 <= width,
        n < pow10(width),
    ensures
        padded(n, width as int).len() == width,
        digits_value(padded(n, width as int)) == n,
        all_digits(padded(n, width as int)),
{
    lemma_digits_len(n, width);
    lemma_digits_value(n);
    let ds = digits(n);
    if ds.len() < width {
        lemma_zeros_prefix((width - ds.len()) as nat, ds);
    }
}

} // verus!
