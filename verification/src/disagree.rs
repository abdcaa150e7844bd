//! Enumerating the date pairs where two conventions give different fractions,
//! and searching for failures of additivity.

use vstd::prelude::*;

use crate::convention::{
    fraction_of, in_calendar, modest, period_error, terms_error, year_fraction, Branch, Context,
    Convention, Trace, YearFraction,
};
use crate::rational::{frac_add, same_value};
use crate::{Date, Error, Rational};

verus! {

/// Which date pairs to examine: every `from <= start < end <= to`, optionally
/// limited to `end - start <= max_days`.
#[derive(Clone, Copy, Debug)]
pub struct Window {
    pub from: Date,
    pub to: Date,
    pub max_days: Option<i64>,
}

#[derive(Clone, Copy, PartialEq, Eq, Structural, Debug)]
pub struct Example {
    pub start: Date,
    pub end: Date,
    pub a: Rational,
    pub b: Rational,
}

/// Differing pairs that share the same branches taken by only one side.
#[derive(Clone, Copy, PartialEq, Eq, Structural, Debug)]
pub struct Group {
    /// Branches convention A took and B did not.
    pub only_a: Trace,
    /// Branches convention B took and A did not.
    pub only_b: Trace,
    pub count: u64,
    /// The shortest differing period in the group, earliest start on ties.
    pub example: Example,
}

#[derive(Clone, PartialEq, Eq, Debug)]
pub struct Report {
    pub a: Convention,
    pub b: Convention,
    pub pairs_checked: u64,
    pub differing: u64,
    /// Sorted by descending count, then by branch sets.
    pub groups: Vec<Group>,
}

// ---------------------------------------------------------------------------
// The model: periods as pairs of serial day numbers

/// The date whose serial day number is `n`.
pub open spec fn date_at(n: int) -> Date {
    choose|d: Date| d.valid() && d.spec_serial() == n
}

pub proof fn lemma_date_at(d: Date)
    requires
        d.valid(),
    ensures
        date_at(d.spec_serial()) == d,
{
    let x = date_at(d.spec_serial());
    assert(x.valid() && x.spec_serial() == d.spec_serial());
    Date::lemma_serial_determines(x, d);
}

/// The last end serial paired with the start serial `s`.
pub open spec fn last_end(w: Window, s: int) -> int {
    let t = w.to.spec_serial();
    match w.max_days {
        Some(m) => if s + m < t {
            s + m
        } else {
            t
        },
        None => t,
    }
}

/// The serials `s < e` are the start and end of one of the window's periods.
pub open spec fn in_window(w: Window, s: int, e: int) -> bool {
    w.from.spec_serial() <= s < e <= last_end(w, s)
}

/// The window holds at least one period.
pub open spec fn has_periods(w: Window) -> bool {
    w.from.spec_serial() < w.to.spec_serial() && match w.max_days {
        Some(m) => m >= 1,
        None => true,
    }
}

/// The value and the branches of convention `c` over the non-empty period
/// from serial `s` to serial `e`.
pub open spec fn outcome(c: Convention, ctx: Context, s: int, e: int) -> ((int, int), Set<Branch>) {
    fraction_of(c, date_at(s), date_at(e), ctx)
}

/// The two conventions give different values.
pub open spec fn differs(a: Convention, b: Convention, ctx: Context, s: int, e: int) -> bool {
    !same_value(outcome(a, ctx, s, e).0, outcome(b, ctx, s, e).0)
}

/// The branches only `a` took and the branches only `b` took.
pub open spec fn split_key(a: Convention, b: Convention, ctx: Context, s: int, e: int) -> (
    Set<Branch>,
    Set<Branch>,
) {
    let ta = outcome(a, ctx, s, e).1;
    let tb = outcome(b, ctx, s, e).1;
    (ta.difference(tb), tb.difference(ta))
}

/// Which periods a count takes in.
pub enum Tally {
    /// Every period.
    All,
    /// The periods where the conventions differ.
    Differing,
    /// The differing periods with the given group key.
    Keyed(Set<Branch>, Set<Branch>),
}

pub open spec fn counted(a: Convention, b: Convention, ctx: Context, t: Tally, s: int, e: int) -> bool {
    match t {
        Tally::All => true,
        Tally::Differing => differs(a, b, ctx, s, e),
        Tally::Keyed(ka, kb) => differs(a, b, ctx, s, e) && split_key(a, b, ctx, s, e) == (ka, kb),
    }
}

/// The ends `s < e <= hi` whose period from `s` is counted by `t`.
pub open spec fn row_tally(a: Convention, b: Convention, ctx: Context, t: Tally, s: int, hi: int) -> nat
    decreases hi - s,
{
    if hi <= s {
        0
    } else {
        row_tally(a, b, ctx, t, s, hi - 1) + if counted(a, b, ctx, t, s, hi) {
            1nat
        } else {
            0nat
        }
    }
}

/// The periods of the window that start before `s_hi` and are counted by `t`.
pub open spec fn tally(a: Convention, b: Convention, ctx: Context, w: Window, t: Tally, s_hi: int) -> nat
    decreases s_hi - w.from.spec_serial(),
{
    if s_hi <= w.from.spec_serial() {
        0
    } else {
        tally(a, b, ctx, w, t, s_hi - 1) + row_tally(a, b, ctx, t, s_hi - 1, last_end(w, s_hi - 1))
    }
}

/// The period `(s, e)` comes first in the example order: shorter, or as long
/// and starting earlier.
pub open spec fn earlier(s: int, e: int, s0: int, e0: int) -> bool {
    e - s < e0 - s0 || (e - s == e0 - s0 && s < s0)
}

/// Of the window's periods, those up to `(sc, ed)` in scan order: starts
/// before `sc`, then ends up to `ed` from `sc`.
pub open spec fn scanned(w: Window, sc: int, ed: int, s: int, e: int) -> bool {
    in_window(w, s, e) && (s < sc || (s == sc && e <= ed))
}

pub open spec fn group_key(g: Group) -> (Set<Branch>, Set<Branch>) {
    (g.only_a@, g.only_b@)
}

/// `g` is the group of its key over the periods scanned up to `(sc, ed)`: its
/// count, and its example, the first of them in the example order.
pub open spec fn group_holds(
    a: Convention,
    b: Convention,
    ctx: Context,
    w: Window,
    g: Group,
    sc: int,
    ed: int,
) -> bool {
    let t = Tally::Keyed(g.only_a@, g.only_b@);
    let x = g.example;
    let xs = x.start.spec_serial();
    let xe = x.end.spec_serial();
    &&& g.count == tally(a, b, ctx, w, t, sc) + row_tally(a, b, ctx, t, sc, ed)
    &&& scanned(w, sc, ed, xs, xe)
    &&& counted(a, b, ctx, t, xs, xe)
    &&& x.start == date_at(xs)
    &&& x.end == date_at(xe)
    &&& x.a.equals_fraction(outcome(a, ctx, xs, xe).0.0, outcome(a, ctx, xs, xe).0.1)
    &&& x.b.equals_fraction(outcome(b, ctx, xs, xe).0.0, outcome(b, ctx, xs, xe).0.1)
    &&& x.a.in_lowest_terms()
    &&& x.b.in_lowest_terms()
    &&& forall|s: int, e: int|
        scanned(w, sc, ed, s, e) && #[trigger] counted(a, b, ctx, t, s, e) ==> !earlier(s, e, xs, xe)
}

/// The report order: more pairs first, then by the bits of the branch sets.
pub open spec fn group_before(x: Group, y: Group) -> bool {
    x.count > y.count || (x.count == y.count && (x.only_a.bits() < y.only_a.bits() || (
    x.only_a.bits() == y.only_a.bits() && x.only_b.bits() < y.only_b.bits())))
}

pub open spec fn same_key(x: Group, y: Group) -> bool {
    x.only_a == y.only_a && x.only_b == y.only_b
}

/// `g`'s pairs added to `x`, which has the same key.
pub open spec fn combined(x: Group, g: Group) -> Group {
    Group {
        count: (x.count + g.count) as u64,
        example: if earlier(
            g.example.start.spec_serial(),
            g.example.end.spec_serial(),
            x.example.start.spec_serial(),
            x.example.end.spec_serial(),
        ) {
            g.example
        } else {
            x.example
        },
        ..x
    }
}

/// `new` is `old` with `g` merged in: added to the group of its key, or
/// appended when there is none.
pub open spec fn merged(old: Seq<Group>, g: Group, new: Seq<Group>) -> bool {
    if exists|i: int| 0 <= i < old.len() && same_key(#[trigger] old[i], g) {
        &&& new.len() == old.len()
        &&& forall|i: int|
            0 <= i < old.len() ==> #[trigger] new[i] == if same_key(old[i], g) {
                combined(old[i], g)
            } else {
                old[i]
            }
    } else {
        new == old.push(g)
    }
}

/// No two groups share a key.
pub open spec fn distinct_keys(groups: Seq<Group>) -> bool {
    forall|i: int, j: int|
        0 <= i < groups.len() && 0 <= j < groups.len() && i != j ==> !same_key(
            #[trigger] groups[i],
            #[trigger] groups[j],
        )
}

/// The total of the groups' counts.
#[verifier::opaque]
pub open spec fn sum_counts(groups: Seq<Group>) -> int
    decreases groups.len(),
{
    if groups.len() == 0 {
        0
    } else {
        sum_counts(groups.drop_last()) + groups.last().count
    }
}

proof fn lemma_sum_push(groups: Seq<Group>, x: Group)
    ensures
        sum_counts(groups.push(x)) == sum_counts(groups) + x.count,
{
    reveal(sum_counts);
    assert(groups.push(x).drop_last() =~= groups);
}

proof fn lemma_sum_update(groups: Seq<Group>, j: int, x: Group)
    requires
        0 <= j < groups.len(),
    ensures
        sum_counts(groups.update(j, x)) == sum_counts(groups) - groups[j].count + x.count,
    decreases groups.len(),
{
    reveal(sum_counts);
    let u = groups.update(j, x);
    if j < groups.len() - 1 {
        assert(u.drop_last() =~= groups.drop_last().update(j, x));
        lemma_sum_update(groups.drop_last(), j, x);
    } else {
        assert(u.drop_last() =~= groups.drop_last());
    }
}

proof fn lemma_sum_insert(groups: Seq<Group>, pos: int, x: Group)
    requires
        0 <= pos <= groups.len(),
    ensures
        sum_counts(groups.insert(pos, x)) == sum_counts(groups) + x.count,
    decreases groups.len(),
{
    reveal(sum_counts);
    let u = groups.insert(pos, x);
    if pos == groups.len() {
        assert(u.drop_last() =~= groups);
    } else {
        assert(u.drop_last() =~= groups.drop_last().insert(pos, x));
        lemma_sum_insert(groups.drop_last(), pos, x);
    }
}

/// What the scan has built after the periods up to `(sc, ed)`.
#[verifier::opaque]
pub open spec fn scan_state(
    a: Convention,
    b: Convention,
    ctx: Context,
    w: Window,
    groups: Seq<Group>,
    sc: int,
    ed: int,
    checked: int,
    differing: int,
) -> bool {
    &&& checked == tally(a, b, ctx, w, Tally::All, sc) + row_tally(a, b, ctx, Tally::All, sc, ed)
    &&& differing == tally(a, b, ctx, w, Tally::Differing, sc) + row_tally(
        a,
        b,
        ctx,
        Tally::Differing,
        sc,
        ed,
    )
    &&& forall|i: int| 0 <= i < groups.len() ==> group_holds(a, b, ctx, w, #[trigger] groups[i], sc, ed)
    &&& forall|i: int|
        0 <= i < groups.len() ==> (#[trigger] groups[i]).count <= checked && groups[i].only_a.bits()
            < 0x40_0000_0000 && groups[i].only_b.bits() < 0x40_0000_0000
    &&& distinct_keys(groups)
    &&& differing == sum_counts(groups)
    &&& forall|s: int, e: int|
        scanned(w, sc, ed, s, e) && #[trigger] differs(a, b, ctx, s, e) ==> exists|i: int|
            0 <= i < groups.len() && group_key(#[trigger] groups[i]) == split_key(a, b, ctx, s, e)
}

proof fn lemma_row_zero(a: Convention, b: Convention, ctx: Context, t: Tally, s: int, hi: int)
    requires
        forall|e: int| s < e <= hi ==> !#[trigger] counted(a, b, ctx, t, s, e),
    ensures
        row_tally(a, b, ctx, t, s, hi) == 0,
    decreases hi - s,
{
    if hi > s {
        lemma_row_zero(a, b, ctx, t, s, hi - 1);
    }
}

/// Nothing scanned up to `(sc, ed)` is counted, so the count is zero.
proof fn lemma_seen_zero(a: Convention, b: Convention, ctx: Context, w: Window, t: Tally, sc: int, ed: int)
    requires
        w.from.spec_serial() <= sc,
        ed <= last_end(w, sc) || ed <= sc,
        forall|s: int, e: int| scanned(w, sc, ed, s, e) ==> !#[trigger] counted(a, b, ctx, t, s, e),
    ensures
        tally(a, b, ctx, w, t, sc) + row_tally(a, b, ctx, t, sc, ed) == 0,
    decreases sc - w.from.spec_serial(),
{
    assert forall|e: int| sc < e <= ed implies !#[trigger] counted(a, b, ctx, t, sc, e) by {
        assert(scanned(w, sc, ed, sc, e));
    }
    lemma_row_zero(a, b, ctx, t, sc, ed);
    if sc > w.from.spec_serial() {
        let prev = sc - 1;
        let last = last_end(w, prev);
        assert forall|s: int, e: int| scanned(w, prev, last, s, e) implies !#[trigger] counted(
            a,
            b,
            ctx,
            t,
            s,
            e,
        ) by {
            assert(scanned(w, sc, ed, s, e));
        }
        lemma_seen_zero(a, b, ctx, w, t, prev, last);
    }
}

/// Scanning starts with nothing seen.
proof fn lemma_scan_start(a: Convention, b: Convention, ctx: Context, w: Window)
    ensures
        scan_state(a, b, ctx, w, Seq::<Group>::empty(), w.from.spec_serial(), w.from.spec_serial(), 0, 0),
{
    reveal(scan_state);
    reveal(sum_counts);
    let f = w.from.spec_serial();
    assert(tally(a, b, ctx, w, Tally::All, f) == 0);
    assert(tally(a, b, ctx, w, Tally::Differing, f) == 0);
    assert(row_tally(a, b, ctx, Tally::All, f, f) == 0);
    assert(row_tally(a, b, ctx, Tally::Differing, f, f) == 0);
}

/// A group whose key the next period does not have is unchanged by it.
proof fn lemma_group_untouched(a: Convention, b: Convention, ctx: Context, w: Window, x: Group, sc: int, ed: int)
    requires
        group_holds(a, b, ctx, w, x, sc, ed),
        in_window(w, sc, ed + 1),
        !counted(a, b, ctx, Tally::Keyed(x.only_a@, x.only_b@), sc, ed + 1),
    ensures
        group_holds(a, b, ctx, w, x, sc, ed + 1),
{
    let t = Tally::Keyed(x.only_a@, x.only_b@);
    let xs = x.example.start.spec_serial();
    let xe = x.example.end.spec_serial();
    assert(row_tally(a, b, ctx, t, sc, ed + 1) == row_tally(a, b, ctx, t, sc, ed));
    assert forall|s: int, e: int|
        scanned(w, sc, ed + 1, s, e) && #[trigger] counted(a, b, ctx, t, s, e) implies !earlier(
        s,
        e,
        xs,
        xe,
    ) by {
        assert(scanned(w, sc, ed, s, e));
    }
}

/// The next period joins the group of its key.
proof fn lemma_group_extended(
    a: Convention,
    b: Convention,
    ctx: Context,
    w: Window,
    x: Group,
    g: Group,
    sc: int,
    ed: int,
)
    requires
        group_holds(a, b, ctx, w, x, sc, ed),
        in_window(w, sc, ed + 1),
        same_key(x, g),
        counted(a, b, ctx, Tally::Keyed(x.only_a@, x.only_b@), sc, ed + 1),
        g.count == 1,
        x.count + 1 <= u64::MAX,
        g.example.start == date_at(sc),
        g.example.end == date_at(ed + 1),
        g.example.start.spec_serial() == sc,
        g.example.end.spec_serial() == ed + 1,
        g.example.a.equals_fraction(outcome(a, ctx, sc, ed + 1).0.0, outcome(a, ctx, sc, ed + 1).0.1),
        g.example.b.equals_fraction(outcome(b, ctx, sc, ed + 1).0.0, outcome(b, ctx, sc, ed + 1).0.1),
        g.example.a.in_lowest_terms(),
        g.example.b.in_lowest_terms(),
    ensures
        group_holds(a, b, ctx, w, combined(x, g), sc, ed + 1),
{
    let t = Tally::Keyed(x.only_a@, x.only_b@);
    let y = combined(x, g);
    let xs = x.example.start.spec_serial();
    let xe = x.example.end.spec_serial();
    let ys = y.example.start.spec_serial();
    let ye = y.example.end.spec_serial();
    assert(row_tally(a, b, ctx, t, sc, ed + 1) == row_tally(a, b, ctx, t, sc, ed) + 1);
    assert forall|s: int, e: int|
        scanned(w, sc, ed + 1, s, e) && #[trigger] counted(a, b, ctx, t, s, e) implies !earlier(
        s,
        e,
        ys,
        ye,
    ) by {
        if scanned(w, sc, ed, s, e) {
            assert(!earlier(s, e, xs, xe));
        }
    }
}

/// The next period opens a group of its own.
proof fn lemma_group_new(a: Convention, b: Convention, ctx: Context, w: Window, g: Group, sc: int, ed: int)
    requires
        w.from.spec_serial() <= sc,
        in_window(w, sc, ed + 1),
        counted(a, b, ctx, Tally::Keyed(g.only_a@, g.only_b@), sc, ed + 1),
        forall|s: int, e: int|
            scanned(w, sc, ed, s, e) ==> !#[trigger] counted(
                a,
                b,
                ctx,
                Tally::Keyed(g.only_a@, g.only_b@),
                s,
                e,
            ),
        g.count == 1,
        g.example.start == date_at(sc),
        g.example.end == date_at(ed + 1),
        g.example.start.spec_serial() == sc,
        g.example.end.spec_serial() == ed + 1,
        g.example.a.equals_fraction(outcome(a, ctx, sc, ed + 1).0.0, outcome(a, ctx, sc, ed + 1).0.1),
        g.example.b.equals_fraction(outcome(b, ctx, sc, ed + 1).0.0, outcome(b, ctx, sc, ed + 1).0.1),
        g.example.a.in_lowest_terms(),
        g.example.b.in_lowest_terms(),
    ensures
        group_holds(a, b, ctx, w, g, sc, ed + 1),
{
    let t = Tally::Keyed(g.only_a@, g.only_b@);
    lemma_seen_zero(a, b, ctx, w, t, sc, ed);
    assert(row_tally(a, b, ctx, t, sc, ed + 1) == row_tally(a, b, ctx, t, sc, ed) + 1);
    assert forall|s: int, e: int|
        scanned(w, sc, ed + 1, s, e) && #[trigger] counted(a, b, ctx, t, s, e) implies !earlier(
        s,
        e,
        sc,
        ed + 1,
    ) by {
        if scanned(w, sc, ed, s, e) {
        }
    }
}

/// A period where the conventions agree only adds to the count of periods.
proof fn lemma_scan_same(
    a: Convention,
    b: Convention,
    ctx: Context,
    w: Window,
    groups: Seq<Group>,
    sc: int,
    ed: int,
    checked: int,
    differing: int,
)
    requires
        scan_state(a, b, ctx, w, groups, sc, ed, checked, differing),
        in_window(w, sc, ed + 1),
        !differs(a, b, ctx, sc, ed + 1),
    ensures
        scan_state(a, b, ctx, w, groups, sc, ed + 1, checked + 1, differing),
{
    reveal(scan_state);
    assert(row_tally(a, b, ctx, Tally::All, sc, ed + 1) == row_tally(a, b, ctx, Tally::All, sc, ed) + 1);
    assert(row_tally(a, b, ctx, Tally::Differing, sc, ed + 1) == row_tally(
        a,
        b,
        ctx,
        Tally::Differing,
        sc,
        ed,
    ));
    assert forall|i: int| 0 <= i < groups.len() implies group_holds(
        a,
        b,
        ctx,
        w,
        #[trigger] groups[i],
        sc,
        ed + 1,
    ) by {
        lemma_group_untouched(a, b, ctx, w, groups[i], sc, ed);
    }
    assert forall|s: int, e: int|
        scanned(w, sc, ed + 1, s, e) && #[trigger] differs(a, b, ctx, s, e) implies exists|i: int|
        0 <= i < groups.len() && group_key(#[trigger] groups[i]) == split_key(a, b, ctx, s, e) by {
        assert(scanned(w, sc, ed, s, e));
    }
}

/// A period where the conventions differ is counted in the group of its key.
proof fn lemma_scan_merge(
    a: Convention,
    b: Convention,
    ctx: Context,
    w: Window,
    old: Seq<Group>,
    new: Seq<Group>,
    g: Group,
    sc: int,
    ed: int,
    checked: int,
    differing: int,
)
    requires
        scan_state(a, b, ctx, w, old, sc, ed, checked, differing),
        checked < u64::MAX,
        in_window(w, sc, ed + 1),
        differs(a, b, ctx, sc, ed + 1),
        group_key(g) == split_key(a, b, ctx, sc, ed + 1),
        g.count == 1,
        g.only_a.bits() < 0x40_0000_0000,
        g.only_b.bits() < 0x40_0000_0000,
        g.example.start == date_at(sc),
        g.example.end == date_at(ed + 1),
        g.example.start.spec_serial() == sc,
        g.example.end.spec_serial() == ed + 1,
        g.example.a.equals_fraction(outcome(a, ctx, sc, ed + 1).0.0, outcome(a, ctx, sc, ed + 1).0.1),
        g.example.b.equals_fraction(outcome(b, ctx, sc, ed + 1).0.0, outcome(b, ctx, sc, ed + 1).0.1),
        g.example.a.in_lowest_terms(),
        g.example.b.in_lowest_terms(),
        merged(old, g, new),
    ensures
        scan_state(a, b, ctx, w, new, sc, ed + 1, checked + 1, differing + 1),
{
    reveal(scan_state);
    let kt = Tally::Keyed(g.only_a@, g.only_b@);
    assert(row_tally(a, b, ctx, Tally::All, sc, ed + 1) == row_tally(a, b, ctx, Tally::All, sc, ed) + 1);
    assert(row_tally(a, b, ctx, Tally::Differing, sc, ed + 1) == row_tally(
        a,
        b,
        ctx,
        Tally::Differing,
        sc,
        ed,
    ) + 1);
    assert forall|i: int| 0 <= i < old.len() implies (same_key(#[trigger] old[i], g) <==> group_key(
        old[i],
    ) == group_key(g)) by {
        if group_key(old[i]) == group_key(g) {
            Trace::lemma_view_injective(old[i].only_a, g.only_a);
            Trace::lemma_view_injective(old[i].only_b, g.only_b);
        }
    }
    // Every old group's state after the new period.
    assert forall|i: int| 0 <= i < old.len() implies group_holds(
        a,
        b,
        ctx,
        w,
        #[trigger] new[i],
        sc,
        ed + 1,
    ) by {
        if same_key(old[i], g) {
            lemma_group_extended(a, b, ctx, w, old[i], g, sc, ed);
        } else {
            lemma_group_untouched(a, b, ctx, w, old[i], sc, ed);
        }
    }
    if exists|i: int| 0 <= i < old.len() && same_key(#[trigger] old[i], g) {
        let j = choose|i: int| 0 <= i < old.len() && same_key(#[trigger] old[i], g);
        assert(new =~= old.update(j, combined(old[j], g))) by {
            assert forall|i: int| 0 <= i < old.len() && i != j implies !same_key(#[trigger] old[i], g) by {
                assert(!same_key(old[i], old[j]));
            }
        }
        lemma_sum_update(old, j, combined(old[j], g));
        assert(distinct_keys(new)) by {
            assert forall|i: int, k: int|
                0 <= i < new.len() && 0 <= k < new.len() && i != k implies !same_key(
                #[trigger] new[i],
                #[trigger] new[k],
            ) by {
                assert(!same_key(old[i], old[k]));
            }
        }
        assert forall|s: int, e: int|
            scanned(w, sc, ed + 1, s, e) && #[trigger] differs(a, b, ctx, s, e) implies exists|i: int|
            0 <= i < new.len() && group_key(#[trigger] new[i]) == split_key(a, b, ctx, s, e) by {
            if scanned(w, sc, ed, s, e) {
                let i = choose|i: int|
                    0 <= i < old.len() && group_key(#[trigger] old[i]) == split_key(a, b, ctx, s, e);
                assert(group_key(new[i]) == group_key(old[i]));
            } else {
                assert(group_key(new[j]) == group_key(old[j]));
            }
        }
    } else {
        assert(new == old.push(g));
        lemma_sum_push(old, g);
        // No scanned period has the new key: it would have a group.
        assert forall|s: int, e: int| scanned(w, sc, ed, s, e) implies !#[trigger] counted(
            a,
            b,
            ctx,
            kt,
            s,
            e,
        ) by {
            if counted(a, b, ctx, kt, s, e) {
                let i = choose|i: int|
                    0 <= i < old.len() && group_key(#[trigger] old[i]) == split_key(a, b, ctx, s, e);
                assert(same_key(old[i], g));
            }
        }
        lemma_group_new(a, b, ctx, w, g, sc, ed);
        assert(new[old.len() as int] == g);
        assert(distinct_keys(new)) by {
            assert forall|i: int, k: int|
                0 <= i < new.len() && 0 <= k < new.len() && i != k implies !same_key(
                #[trigger] new[i],
                #[trigger] new[k],
            ) by {
                if i < old.len() && k < old.len() {
                    assert(!same_key(old[i], old[k]));
                } else if i < old.len() {
                    assert(!same_key(old[i], g));
                } else {
                    assert(!same_key(old[k], g));
                }
            }
        }
        assert forall|s: int, e: int|
            scanned(w, sc, ed + 1, s, e) && #[trigger] differs(a, b, ctx, s, e) implies exists|i: int|
            0 <= i < new.len() && group_key(#[trigger] new[i]) == split_key(a, b, ctx, s, e) by {
            if scanned(w, sc, ed, s, e) {
                let i = choose|i: int|
                    0 <= i < old.len() && group_key(#[trigger] old[i]) == split_key(a, b, ctx, s, e);
                assert(new[i] == old[i]);
            } else {
                assert(group_key(new[old.len() as int]) == split_key(a, b, ctx, s, e));
            }
        }
    }
}

/// Moving from the end of row `sc` to the start of row `sc + 1`.
proof fn lemma_scan_next_row(
    a: Convention,
    b: Convention,
    ctx: Context,
    w: Window,
    groups: Seq<Group>,
    sc: int,
    last: int,
    checked: int,
    differing: int,
)
    requires
        scan_state(a, b, ctx, w, groups, sc, last, checked, differing),
        w.from.spec_serial() <= sc,
        last == if last_end(w, sc) > sc {
            last_end(w, sc)
        } else {
            sc
        },
    ensures
        scan_state(a, b, ctx, w, groups, sc + 1, sc + 1, checked, differing),
{
    reveal(scan_state);
    assert forall|t: Tally|
        #![trigger tally(a, b, ctx, w, t, sc + 1)]
        tally(a, b, ctx, w, t, sc + 1) + row_tally(a, b, ctx, t, sc + 1, sc + 1) == tally(
            a,
            b,
            ctx,
            w,
            t,
            sc,
        ) + row_tally(a, b, ctx, t, sc, last) by {
        assert(row_tally(a, b, ctx, t, sc + 1, sc + 1) == 0);
        if last_end(w, sc) <= sc {
            assert(row_tally(a, b, ctx, t, sc, last_end(w, sc)) == 0);
            assert(row_tally(a, b, ctx, t, sc, last) == 0);
        }
    }
    assert(forall|s: int, e: int| scanned(w, sc + 1, sc + 1, s, e) == scanned(w, sc, last, s, e));
    assert forall|i: int| 0 <= i < groups.len() implies group_holds(
        a,
        b,
        ctx,
        w,
        #[trigger] groups[i],
        sc + 1,
        sc + 1,
    ) by {
        let t = Tally::Keyed(groups[i].only_a@, groups[i].only_b@);
        assert(tally(a, b, ctx, w, t, sc + 1) + row_tally(a, b, ctx, t, sc + 1, sc + 1) == tally(
            a,
            b,
            ctx,
            w,
            t,
            sc,
        ) + row_tally(a, b, ctx, t, sc, last));
    }
    assert(tally(a, b, ctx, w, Tally::All, sc + 1) + row_tally(a, b, ctx, Tally::All, sc + 1, sc + 1)
        == tally(a, b, ctx, w, Tally::All, sc) + row_tally(a, b, ctx, Tally::All, sc, last));
    assert(tally(a, b, ctx, w, Tally::Differing, sc + 1) + row_tally(
        a,
        b,
        ctx,
        Tally::Differing,
        sc + 1,
        sc + 1,
    ) == tally(a, b, ctx, w, Tally::Differing, sc) + row_tally(a, b, ctx, Tally::Differing, sc, last));
}

// ---------------------------------------------------------------------------
// Building the groups

impl Example {
    /// The example order: period length, then start.
    fn sort_key(&self) -> (k: (i64, i64))
        ensures
            k.0 == self.end.spec_serial() - self.start.spec_serial(),
            k.1 == self.start.spec_serial(),
    {
        (self.start.days_until(self.end), self.start.serial())
    }
}

/// Adds `group` to the group of its key, or appends it if there is none.
fn merge_into(groups: &mut Vec<Group>, group: Group)
    requires
        distinct_keys(old(groups)@),
        forall|i: int| 0 <= i < old(groups)@.len() ==> #[trigger] old(groups)@[i].count + group.count <= u64::MAX,
    ensures
        merged(old(groups)@, group, final(groups)@),
{
    let ghost orig = groups@;
    let mut i: usize = 0;
    while i < groups.len()
        invariant
            i <= groups@.len(),
            groups@ == orig,
            orig == old(groups)@,
            distinct_keys(orig),
            forall|j: int| 0 <= j < orig.len() ==> #[trigger] orig[j].count + group.count <= u64::MAX,
            forall|j: int| 0 <= j < i ==> !same_key(#[trigger] orig[j], group),
        decreases groups@.len() - i,
    {
        let g = groups[i];
        if g.only_a == group.only_a && g.only_b == group.only_b {
            let ng = group.example.sort_key();
            let og = g.example.sort_key();
            let example = if ng.0 < og.0 || (ng.0 == og.0 && ng.1 < og.1) {
                group.example
            } else {
                g.example
            };
            let updated = Group {
                only_a: g.only_a,
                only_b: g.only_b,
                count: g.count + group.count,
                example,
            };
            groups.set(i, updated);
            proof {
                assert(same_key(orig[i as int], group));
                assert(updated == combined(orig[i as int], group));
                assert forall|j: int| 0 <= j < orig.len() implies #[trigger] groups@[j] == if same_key(
                    orig[j],
                    group,
                ) {
                    combined(orig[j], group)
                } else {
                    orig[j]
                } by {
                    if j != i {
                        assert(!same_key(orig[j], orig[i as int]));
                    }
                }
            }
            return;
        }
        i = i + 1;
    }
    groups.push(group);
}

/// `x` comes before `y` in the report.
fn group_first(x: &Group, y: &Group) -> (r: bool)
    ensures
        r == group_before(*x, *y),
{
    if x.count != y.count {
        return x.count > y.count;
    }
    let xa = x.only_a.key();
    let ya = y.only_a.key();
    if xa != ya {
        return xa < ya;
    }
    x.only_b.key() < y.only_b.key()
}

/// Groups with different keys are ordered one way or the other.
proof fn lemma_order_total(x: Group, y: Group)
    requires
        !same_key(x, y),
    ensures
        group_before(x, y) || group_before(y, x),
{
    Trace::lemma_bits_determine(x.only_a, y.only_a);
    Trace::lemma_bits_determine(x.only_b, y.only_b);
}

/// Every group of `out` is one of the first `i` of `groups`, and each of
/// those is in `out`.
#[verifier::opaque]
pub open spec fn holds_first(out: Seq<Group>, groups: Seq<Group>, i: int) -> bool {
    &&& forall|j: int| 0 <= j < out.len() ==> exists|k: int| 0 <= k < i && #[trigger] out[j] == groups[k]
    &&& forall|k: int| 0 <= k < i ==> exists|j: int| 0 <= j < out.len() && out[j] == #[trigger] groups[k]
}

#[verifier::opaque]
pub open spec fn in_report_order(out: Seq<Group>) -> bool {
    forall|j1: int, j2: int| 0 <= j1 < j2 < out.len() ==> group_before(#[trigger] out[j1], #[trigger] out[j2])
}

proof fn lemma_insert_in_order(before: Seq<Group>, g: Group, pos: int)
    requires
        0 <= pos <= before.len(),
        in_report_order(before),
        forall|j: int| 0 <= j < pos ==> !group_before(g, #[trigger] before[j]),
        pos < before.len() ==> group_before(g, before[pos]),
        forall|j: int| 0 <= j < before.len() ==> !same_key(#[trigger] before[j], g),
    ensures
        in_report_order(before.insert(pos, g)),
{
    reveal(in_report_order);
    let out = before.insert(pos, g);
    assert forall|j: int| 0 <= j < pos implies group_before(#[trigger] before[j], g) by {
        lemma_order_total(before[j], g);
    }
    assert forall|j1: int, j2: int|
        0 <= j1 < j2 < out.len() implies group_before(#[trigger] out[j1], #[trigger] out[j2]) by {
        if j2 < pos {
            assert(group_before(before[j1], before[j2]));
        } else if j2 == pos {
            assert(group_before(before[j1], g));
        } else if j1 < pos {
            assert(group_before(before[j1], before[j2 - 1]));
        } else if j1 == pos {
            if j2 - 1 > pos {
                assert(group_before(before[pos], before[j2 - 1]));
            }
        } else {
            assert(group_before(before[j1 - 1], before[j2 - 1]));
        }
    }
}

proof fn lemma_insert_members(before: Seq<Group>, groups: Seq<Group>, i: int, pos: int)
    requires
        0 <= i < groups.len(),
        0 <= pos <= before.len(),
        holds_first(before, groups, i),
    ensures
        holds_first(before.insert(pos, groups[i]), groups, i + 1),
{
    reveal(holds_first);
    let out = before.insert(pos, groups[i]);
    assert forall|j: int| 0 <= j < out.len() implies exists|k: int|
        0 <= k < i + 1 && #[trigger] out[j] == groups[k] by {
        if j < pos {
            let k = choose|k: int| 0 <= k < i && #[trigger] before[j] == groups[k];
            assert(out[j] == groups[k]);
        } else if j == pos {
            assert(out[j] == groups[i]);
        } else {
            let k = choose|k: int| 0 <= k < i && #[trigger] before[j - 1] == groups[k];
            assert(out[j] == groups[k]);
        }
    }
    assert forall|k: int| 0 <= k < i + 1 implies exists|j: int|
        0 <= j < out.len() && out[j] == #[trigger] groups[k] by {
        if k == i {
            assert(out[pos] == groups[k]);
        } else {
            let j = choose|j: int| 0 <= j < before.len() && before[j] == #[trigger] groups[k];
            if j < pos {
                assert(out[j] == groups[k]);
            } else {
                assert(out[j + 1] == groups[k]);
            }
        }
    }
}

/// Where `g` goes in `out`: after the groups that come before it.
fn insert_position(out: &Vec<Group>, g: &Group) -> (pos: usize)
    ensures
        pos <= out@.len(),
        forall|j: int| 0 <= j < pos ==> !group_before(*g, #[trigger] out@[j]),
        pos < out@.len() ==> group_before(*g, out@[pos as int]),
{
    let mut pos: usize = 0;
    while pos < out.len()
        invariant
            pos <= out@.len(),
            forall|j: int| 0 <= j < pos ==> !group_before(*g, #[trigger] out@[j]),
        decreases out@.len() - pos,
    {
        if group_first(g, &out[pos]) {
            return pos;
        }
        pos = pos + 1;
    }
    pos
}

/// The groups in report order.
fn sort_groups(groups: Vec<Group>) -> (out: Vec<Group>)
    requires
        distinct_keys(groups@),
    ensures
        out@.len() == groups@.len(),
        holds_first(out@, groups@, groups@.len() as int),
        in_report_order(out@),
        sum_counts(out@) == sum_counts(groups@),
{
    let mut out: Vec<Group> = Vec::new();
    let mut i: usize = 0;
    proof {
        reveal(holds_first);
        reveal(in_report_order);
        assert(groups@.take(0) =~= Seq::<Group>::empty());
        reveal(sum_counts);
    }
    while i < groups.len()
        invariant
            i <= groups@.len(),
            out@.len() == i,
            distinct_keys(groups@),
            holds_first(out@, groups@, i as int),
            in_report_order(out@),
            sum_counts(out@) == sum_counts(groups@.take(i as int)),
        decreases groups@.len() - i,
    {
        let g = groups[i];
        let pos = insert_position(&out, &g);
        let ghost before = out@;
        proof {
            reveal(holds_first);
            assert forall|j: int| 0 <= j < before.len() implies !same_key(#[trigger] before[j], g) by {
                let k = choose|k: int| 0 <= k < i && #[trigger] before[j] == groups@[k];
                assert(!same_key(groups@[k], groups@[i as int]));
            }
            lemma_insert_in_order(before, g, pos as int);
            lemma_insert_members(before, groups@, i as int, pos as int);
            lemma_sum_insert(before, pos as int, g);
            assert(groups@.take(i + 1) =~= groups@.take(i as int).push(g));
            lemma_sum_push(groups@.take(i as int), g);
        }
        out.insert(pos, g);
        i = i + 1;
    }
    proof {
        assert(groups@.take(groups@.len() as int) =~= groups@);
    }
    out
}

// ---------------------------------------------------------------------------
// The enumeration

/// What a report states: the two conventions, how many periods the window
/// holds and in how many the conventions differ, and one group per key of
/// the differing periods, with its count and first example, in report order.
pub open spec fn report_holds(a: Convention, b: Convention, ctx: Context, w: Window, rep: Report) -> bool {
    let t = w.to.spec_serial();
    let groups = rep.groups@;
    &&& rep.a == a
    &&& rep.b == b
    &&& rep.pairs_checked == tally(a, b, ctx, w, Tally::All, t)
    &&& rep.differing == tally(a, b, ctx, w, Tally::Differing, t)
    &&& rep.differing == sum_counts(groups)
    &&& forall|i: int| 0 <= i < groups.len() ==> group_holds(a, b, ctx, w, #[trigger] groups[i], t, t)
    &&& forall|s: int, e: int|
        in_window(w, s, e) && #[trigger] differs(a, b, ctx, s, e) ==> exists|i: int|
            0 <= i < groups.len() && group_key(#[trigger] groups[i]) == split_key(a, b, ctx, s, e)
    &&& forall|i: int, j: int|
        0 <= i < j < groups.len() ==> group_before(#[trigger] groups[i], #[trigger] groups[j])
    &&& forall|i: int|
        0 <= i < groups.len() ==> (#[trigger] groups[i]).only_a.bits() < 0x40_0000_0000
            && groups[i].only_b.bits() < 0x40_0000_0000
}

/// What `disagree` gives: a window that ends before it starts, then the first
/// convention's missing or invalid terms, then the second's, as errors;
/// otherwise the report.
pub open spec fn disagree_result(a: Convention, b: Convention, ctx: Context, w: Window, r: Result<Report, Error>) -> bool {
    if w.from.spec_serial() > w.to.spec_serial() {
        r == Err::<Report, Error>(Error::StartAfterEnd { start: w.from, end: w.to })
    } else if terms_error(a, ctx) is Some {
        r == Err::<Report, Error>(terms_error(a, ctx).unwrap())
    } else if terms_error(b, ctx) is Some {
        r == Err::<Report, Error>(terms_error(b, ctx).unwrap())
    } else if has_periods(w) && period_error(a, ctx) is Some {
        r == Err::<Report, Error>(period_error(a, ctx).unwrap())
    } else if has_periods(w) && period_error(b, ctx) is Some {
        r == Err::<Report, Error>(period_error(b, ctx).unwrap())
    } else {
        r matches Ok(rep) && report_holds(a, b, ctx, w, rep)
    }
}

/// Checks the deal terms before any period is scanned: the errors that
/// `disagree` reports after a window that ends before it starts.
pub fn check_terms(a: Convention, b: Convention, context: &Context, window: Window) -> (r: Result<(), Error>)
    requires
        in_calendar(window.from),
        in_calendar(window.to),
        window.from.spec_serial() <= window.to.spec_serial(),
    ensures
        r matches Err(e) ==> disagree_result(a, b, *context, window, Err(e)),
        r is Ok ==> {
            &&& terms_error(a, *context) is None
            &&& terms_error(b, *context) is None
            &&& has_periods(window) ==> period_error(a, *context) is None && period_error(
                b,
                *context,
            ) is None
        },
{
    match year_fraction(a, window.from, window.from, context) {
        Err(e) => return Err(e),
        Ok(_) => {},
    }
    match year_fraction(b, window.from, window.from, context) {
        Err(e) => return Err(e),
        Ok(_) => {},
    }
    let from = window.from.serial();
    let to = window.to.serial();
    proof {
        crate::date::lemma_calendar_serial_range(window.from);
        crate::date::lemma_calendar_serial_range(window.to);
    }
    let has = from < to && match window.max_days {
        Some(m) => m >= 1,
        None => true,
    };
    if has {
        // The window's first period shows the errors of non-empty periods.
        let next = match Date::from_serial(from + 1) {
            Ok(d) => d,
            Err(e) => {
                proof {
                    assert(false);
                }
                return Err(e);
            },
        };
        match year_fraction(a, window.from, next, context) {
            Err(e) => return Err(e),
            Ok(_) => {},
        }
        match year_fraction(b, window.from, next, context) {
            Err(e) => return Err(e),
            Ok(_) => {},
        }
    }
    Ok(())
}

/// The values of both conventions over one period of the window, and
/// whether they differ.
fn outcomes(
    a: Convention,
    b: Convention,
    context: &Context,
    window: Window,
    start: Date,
    end: Date,
) -> (r: (YearFraction, YearFraction, bool))
    requires
        in_calendar(start),
        in_calendar(end),
        start == date_at(start.spec_serial()),
        end == date_at(end.spec_serial()),
        in_window(window, start.spec_serial(), end.spec_serial()),
        terms_error(a, *context) is None,
        terms_error(b, *context) is None,
        has_periods(window) ==> period_error(a, *context) is None && period_error(b, *context) is None,
    ensures
        ({
            let (fa, fb, differ) = r;
            let s = start.spec_serial();
            let e = end.spec_serial();
            &&& fa.value.equals_fraction(
                outcome(a, *context, s, e).0.0,
                outcome(a, *context, s, e).0.1,
            )
            &&& fb.value.equals_fraction(
                outcome(b, *context, s, e).0.0,
                outcome(b, *context, s, e).0.1,
            )
            &&& fa.trace@ == outcome(a, *context, s, e).1
            &&& fb.trace@ == outcome(b, *context, s, e).1
            &&& differ == differs(a, b, *context, s, e)
        }),
{
    let ghost s = start.spec_serial();
    let ghost e = end.spec_serial();
    proof {
        assert(has_periods(window));
    }
    let fa = match year_fraction(a, start, end, context) {
        Ok(y) => y,
        Err(_) => {
            proof {
                assert(false);
            }
            return (
                YearFraction { value: Rational::zero(), trace: Trace::new() },
                YearFraction { value: Rational::zero(), trace: Trace::new() },
                false,
            );
        },
    };
    let fb = match year_fraction(b, start, end, context) {
        Ok(y) => y,
        Err(_) => {
            proof {
                assert(false);
            }
            return (fa, fa, false);
        },
    };
    let c = fa.value.compare(&fb.value);
    proof {
        lemma_same_value_iff(
            (fa.value.numer() as int, fa.value.denom() as int),
            outcome(a, *context, s, e).0,
            (fb.value.numer() as int, fb.value.denom() as int),
            outcome(b, *context, s, e).0,
        );
    }
    (fa, fb, c != 0)
}

/// Scans the periods of the window that start before `until`, start by
/// start, counting the periods and the differing ones and merging each
/// differing one into its group.
fn scan_starts(a: Convention, b: Convention, context: &Context, window: Window, until: i64) -> (r: (
    Vec<Group>,
    u64,
    u64,
))
    requires
        in_calendar(window.from),
        in_calendar(window.to),
        window.from.spec_serial() <= until <= window.to.spec_serial(),
        terms_error(a, *context) is None,
        terms_error(b, *context) is None,
        has_periods(window) ==> period_error(a, *context) is None && period_error(b, *context) is None,
    ensures
        scan_state(a, b, *context, window, r.0@, until as int, until as int, r.1 as int, r.2 as int),
        r.1 <= (until - window.from.spec_serial()) * 4_000_000,
        r.2 <= r.1,
{
    let ghost ctx = *context;
    let from = window.from.serial();
    let to = window.to.serial();
    proof {
        crate::date::lemma_calendar_serial_range(window.from);
        crate::date::lemma_calendar_serial_range(window.to);
    }
    let mut groups: Vec<Group> = Vec::new();
    let mut checked: u64 = 0;
    let mut differing: u64 = 0;
    let mut s: i64 = from;
    proof {
        lemma_scan_start(a, b, ctx, window);
    }
    while s < until
        invariant
            from == window.from.spec_serial(),
            to == window.to.spec_serial(),
            crate::date::min_serial() <= from <= s <= until <= to <= crate::date::max_serial(),
            ctx == *context,
            terms_error(a, ctx) is None,
            terms_error(b, ctx) is None,
            has_periods(window) ==> period_error(a, ctx) is None && period_error(b, ctx) is None,
            scan_state(a, b, ctx, window, groups@, s as int, s as int, checked as int, differing as int),
            checked <= (s - from) * 4_000_000,
            differing <= checked,
        decreases until - s,
    {
        let start = match Date::from_serial(s) {
            Ok(d) => d,
            Err(_) => {
                proof {
                    assert(false);
                }
                return (groups, checked, differing);
            },
        };
        // The call brings the date's validity into the proof.
        let _ = start.serial();
        proof {
            lemma_date_at(start);
        }
        let last: i64 = match window.max_days {
            Some(m) => if m < to - s {
                if m < 1 {
                    s
                } else {
                    s + m
                }
            } else {
                to
            },
            None => to,
        };
        let mut e: i64 = s + 1;
        while e <= last
            invariant
                from == window.from.spec_serial(),
                to == window.to.spec_serial(),
                crate::date::min_serial() <= from <= s < to <= crate::date::max_serial(),
                s + 1 <= e <= last + 1,
                last == if last_end(window, s as int) > s {
                    last_end(window, s as int)
                } else {
                    s as int
                },
                last <= to,
                start == date_at(s as int),
                start.spec_serial() == s,
                in_calendar(start),
                ctx == *context,
                terms_error(a, ctx) is None,
                terms_error(b, ctx) is None,
                has_periods(window) ==> period_error(a, ctx) is None && period_error(b, ctx) is None,
                scan_state(a, b, ctx, window, groups@, s as int, e - 1, checked as int, differing as int),
                checked <= (s - from) * 4_000_000 + (e - 1 - s),
                differing <= checked,
            decreases last + 1 - e,
        {
            let end = match Date::from_serial(e) {
                Ok(d) => d,
                Err(_) => {
                    proof {
                        assert(false);
                    }
                    return (groups, checked, differing);
                },
            };
            let _ = end.serial();
            proof {
                lemma_date_at(end);
            }
            let (fa, fb, differ) = outcomes(a, b, context, window, start, end);
            if differ {
                let only_a = fa.trace.difference(fb.trace);
                let only_b = fb.trace.difference(fa.trace);
                // The calls bring the values' lowest terms into the proof.
                let _ = fa.value.denom();
                let _ = fb.value.denom();
                let group = Group {
                    only_a,
                    only_b,
                    count: 1,
                    example: Example { start, end, a: fa.value, b: fb.value },
                };
                let ghost old_groups = groups@;
                proof {
                    reveal(scan_state);
                }
                merge_into(&mut groups, group);
                proof {
                    lemma_scan_merge(
                        a,
                        b,
                        ctx,
                        window,
                        old_groups,
                        groups@,
                        group,
                        s as int,
                        e - 1,
                        checked as int,
                        differing as int,
                    );
                }
                checked = checked + 1;
                differing = differing + 1;
            } else {
                proof {
                    lemma_scan_same(
                        a,
                        b,
                        ctx,
                        window,
                        groups@,
                        s as int,
                        e - 1,
                        checked as int,
                        differing as int,
                    );
                }
                checked = checked + 1;
            }
            e = e + 1;
        }
        proof {
            lemma_scan_next_row(a, b, ctx, window, groups@, s as int, last as int, checked as int, differing as int);
        }
        s = s + 1;
    }
    (groups, checked, differing)
}

/// The sorted groups of a finished scan make the report.
proof fn lemma_report(
    a: Convention,
    b: Convention,
    ctx: Context,
    w: Window,
    groups: Seq<Group>,
    sorted: Seq<Group>,
    checked: int,
    differing: int,
    rep: Report,
)
    requires
        scan_state(a, b, ctx, w, groups, w.to.spec_serial(), w.to.spec_serial(), checked, differing),
        sorted.len() == groups.len(),
        holds_first(sorted, groups, groups.len() as int),
        in_report_order(sorted),
        sum_counts(sorted) == sum_counts(groups),
        rep.a == a,
        rep.b == b,
        rep.pairs_checked == checked,
        rep.differing == differing,
        rep.groups@ == sorted,
    ensures
        report_holds(a, b, ctx, w, rep),
{
    reveal(scan_state);
    reveal(holds_first);
    reveal(in_report_order);
    let t = w.to.spec_serial();
    assert(row_tally(a, b, ctx, Tally::All, t, t) == 0);
    assert(row_tally(a, b, ctx, Tally::Differing, t, t) == 0);
    assert forall|i: int| 0 <= i < sorted.len() implies group_holds(
        a,
        b,
        ctx,
        w,
        #[trigger] sorted[i],
        t,
        t,
    ) by {
        let k = choose|k: int| 0 <= k < groups.len() && #[trigger] sorted[i] == groups[k];
        assert(group_holds(a, b, ctx, w, groups[k], t, t));
    }
    assert forall|s1: int, e1: int| in_window(w, s1, e1) && #[trigger] differs(a, b, ctx, s1, e1) implies exists|i: int|
        0 <= i < sorted.len() && group_key(#[trigger] sorted[i]) == split_key(a, b, ctx, s1, e1) by {
        assert(scanned(w, t, t, s1, e1));
        let k = choose|k: int|
            0 <= k < groups.len() && group_key(#[trigger] groups[k]) == split_key(a, b, ctx, s1, e1);
        let j = choose|j: int| 0 <= j < sorted.len() && sorted[j] == #[trigger] groups[k];
        assert(group_key(sorted[j]) == split_key(a, b, ctx, s1, e1));
    }
}

// ---------------------------------------------------------------------------
// Scans over consecutive ranges of start dates

/// `later` is `earlier` from a later first start: same last date, same
/// length limit.
pub open spec fn continues(earlier: Window, later: Window) -> bool {
    &&& earlier.to == later.to
    &&& earlier.max_days == later.max_days
    &&& earlier.from.spec_serial() <= later.from.spec_serial()
}

/// Counting over the starts before `s_hi` splits at the later window's
/// first start.
proof fn lemma_tally_split(
    a: Convention,
    b: Convention,
    ctx: Context,
    w1: Window,
    w2: Window,
    t: Tally,
    s_hi: int,
)
    requires
        continues(w1, w2),
        w2.from.spec_serial() <= s_hi,
    ensures
        tally(a, b, ctx, w1, t, s_hi) == tally(a, b, ctx, w1, t, w2.from.spec_serial()) + tally(
            a,
            b,
            ctx,
            w2,
            t,
            s_hi,
        ),
    decreases s_hi - w2.from.spec_serial(),
{
    if s_hi > w2.from.spec_serial() {
        lemma_tally_split(a, b, ctx, w1, w2, t, s_hi - 1);
        assert(last_end(w1, s_hi - 1) == last_end(w2, s_hi - 1));
    }
}

/// The periods scanned by two consecutive scans are those of one scan over
/// both ranges of starts.
proof fn lemma_scanned_split(w1: Window, w2: Window, c2: int)
    requires
        continues(w1, w2),
        w2.from.spec_serial() <= c2,
    ensures
        forall|s: int, e: int|
            #[trigger] scanned(w1, c2, c2, s, e) == (scanned(
                w1,
                w2.from.spec_serial(),
                w2.from.spec_serial(),
                s,
                e,
            ) || scanned(w2, c2, c2, s, e)),
{
    assert forall|s: int, e: int|
        #[trigger] scanned(w1, c2, c2, s, e) == (scanned(
            w1,
            w2.from.spec_serial(),
            w2.from.spec_serial(),
            s,
            e,
        ) || scanned(w2, c2, c2, s, e)) by {
        assert(last_end(w1, s) == last_end(w2, s));
    }
}

/// The group of a key found by both scans.
proof fn lemma_group_joined(
    a: Convention,
    b: Convention,
    ctx: Context,
    w1: Window,
    w2: Window,
    x: Group,
    g: Group,
    c2: int,
)
    requires
        continues(w1, w2),
        w2.from.spec_serial() <= c2,
        group_holds(a, b, ctx, w1, x, w2.from.spec_serial(), w2.from.spec_serial()),
        group_holds(a, b, ctx, w2, g, c2, c2),
        same_key(x, g),
        x.count + g.count <= u64::MAX,
    ensures
        group_holds(a, b, ctx, w1, combined(x, g), c2, c2),
{
    let c = w2.from.spec_serial();
    let t = Tally::Keyed(x.only_a@, x.only_b@);
    lemma_tally_split(a, b, ctx, w1, w2, t, c2);
    lemma_scanned_split(w1, w2, c2);
    assert(row_tally(a, b, ctx, t, c, c) == 0);
    assert(row_tally(a, b, ctx, t, c2, c2) == 0);
    let y = combined(x, g);
    let (xs, xe) = (x.example.start.spec_serial(), x.example.end.spec_serial());
    let (gs, ge) = (g.example.start.spec_serial(), g.example.end.spec_serial());
    let (ys, ye) = (y.example.start.spec_serial(), y.example.end.spec_serial());
    assert forall|s: int, e: int|
        scanned(w1, c2, c2, s, e) && #[trigger] counted(a, b, ctx, t, s, e) implies !earlier(
        s,
        e,
        ys,
        ye,
    ) by {
        if scanned(w1, c, c, s, e) {
            assert(!earlier(s, e, xs, xe));
        } else {
            assert(!earlier(s, e, gs, ge));
        }
    }
}

/// The group of a key found only by the first scan.
proof fn lemma_group_first_only(
    a: Convention,
    b: Convention,
    ctx: Context,
    w1: Window,
    w2: Window,
    x: Group,
    c2: int,
)
    requires
        continues(w1, w2),
        w2.from.spec_serial() <= c2,
        group_holds(a, b, ctx, w1, x, w2.from.spec_serial(), w2.from.spec_serial()),
        forall|s: int, e: int|
            scanned(w2, c2, c2, s, e) ==> !#[trigger] counted(
                a,
                b,
                ctx,
                Tally::Keyed(x.only_a@, x.only_b@),
                s,
                e,
            ),
    ensures
        group_holds(a, b, ctx, w1, x, c2, c2),
{
    let c = w2.from.spec_serial();
    let t = Tally::Keyed(x.only_a@, x.only_b@);
    lemma_tally_split(a, b, ctx, w1, w2, t, c2);
    lemma_scanned_split(w1, w2, c2);
    lemma_seen_zero(a, b, ctx, w2, t, c2, c2);
    assert(row_tally(a, b, ctx, t, c, c) == 0);
    assert(row_tally(a, b, ctx, t, c2, c2) == 0);
}

/// The group of a key found only by the second scan.
proof fn lemma_group_second_only(
    a: Convention,
    b: Convention,
    ctx: Context,
    w1: Window,
    w2: Window,
    g: Group,
    c2: int,
)
    requires
        continues(w1, w2),
        w2.from.spec_serial() <= c2,
        group_holds(a, b, ctx, w2, g, c2, c2),
        forall|s: int, e: int|
            scanned(w1, w2.from.spec_serial(), w2.from.spec_serial(), s, e) ==> !#[trigger] counted(
                a,
                b,
                ctx,
                Tally::Keyed(g.only_a@, g.only_b@),
                s,
                e,
            ),
    ensures
        group_holds(a, b, ctx, w1, g, c2, c2),
{
    let c = w2.from.spec_serial();
    let t = Tally::Keyed(g.only_a@, g.only_b@);
    lemma_tally_split(a, b, ctx, w1, w2, t, c2);
    lemma_scanned_split(w1, w2, c2);
    lemma_seen_zero(a, b, ctx, w1, t, c, c);
    assert(row_tally(a, b, ctx, t, c, c) == 0);
    assert(row_tally(a, b, ctx, t, c2, c2) == 0);
}

/// How far merging the second scan's groups `ys` into the first scan's
/// groups `xs` has come: the first `j` of `ys` are merged into `m`.
#[verifier::opaque]
pub open spec fn merge_progress(
    a: Convention,
    b: Convention,
    ctx: Context,
    w1: Window,
    w2: Window,
    c2: int,
    xs: Seq<Group>,
    ys: Seq<Group>,
    m: Seq<Group>,
    j: int,
    bound: int,
) -> bool {
    let c = w2.from.spec_serial();
    &&& 0 <= j <= ys.len()
    &&& distinct_keys(m)
    &&& xs.len() <= m.len()
    &&& forall|i: int| 0 <= i < xs.len() ==> same_key(#[trigger] m[i], xs[i])
    &&& forall|i: int|
        0 <= i < m.len() ==> {
            &&& (#[trigger] m[i]).count <= bound
            &&& m[i].only_a.bits() < 0x40_0000_0000
            &&& m[i].only_b.bits() < 0x40_0000_0000
        }
    &&& forall|i: int|
        0 <= i < m.len() ==> if exists|k: int| 0 <= k < j && same_key(#[trigger] ys[k], m[i]) {
            group_holds(a, b, ctx, w1, #[trigger] m[i], c2, c2)
        } else {
            i < xs.len() && m[i] == xs[i]
        }
    &&& forall|k: int| 0 <= k < j ==> exists|i: int| 0 <= i < m.len() && same_key(#[trigger] ys[k], m[i])
    &&& sum_counts(m) == sum_counts(xs) + sum_counts(ys.take(j))
}

proof fn lemma_merge_start(xs: Seq<Group>, ys: Seq<Group>, bound: int, a: Convention, b: Convention, ctx: Context, w1: Window, w2: Window, c2: int)
    requires
        distinct_keys(xs),
        forall|i: int|
            0 <= i < xs.len() ==> (#[trigger] xs[i]).count <= bound && xs[i].only_a.bits()
                < 0x40_0000_0000 && xs[i].only_b.bits() < 0x40_0000_0000,
    ensures
        merge_progress(a, b, ctx, w1, w2, c2, xs, ys, xs, 0, bound),
{
    reveal(merge_progress);
    reveal(sum_counts);
    assert(ys.take(0) =~= Seq::<Group>::empty());
}

/// Keys are equal when the branch sets are.
proof fn lemma_same_key_views(x: Group, y: Group)
    requires
        x.only_a.bits() < 0x40_0000_0000,
        x.only_b.bits() < 0x40_0000_0000,
        y.only_a.bits() < 0x40_0000_0000,
        y.only_b.bits() < 0x40_0000_0000,
    ensures
        same_key(x, y) == (group_key(x) == group_key(y)),
{
    if group_key(x) == group_key(y) {
        Trace::lemma_view_injective(x.only_a, y.only_a);
        Trace::lemma_view_injective(x.only_b, y.only_b);
    }
}

/// A group of the second scan merged into the first scan's group of its key.
proof fn lemma_merge_into_existing(
    a: Convention,
    b: Convention,
    ctx: Context,
    w1: Window,
    w2: Window,
    c2: int,
    xs: Seq<Group>,
    ys: Seq<Group>,
    m: Seq<Group>,
    m2: Seq<Group>,
    j: int,
    cx: int,
    cy: int,
)
    requires
        continues(w1, w2),
        w2.from.spec_serial() <= c2,
        forall|i: int|
            0 <= i < xs.len() ==> group_holds(
                a,
                b,
                ctx,
                w1,
                #[trigger] xs[i],
                w2.from.spec_serial(),
                w2.from.spec_serial(),
            ),
        forall|i: int| 0 <= i < xs.len() ==> (#[trigger] xs[i]).count <= cx,
        0 <= j < ys.len(),
        group_holds(a, b, ctx, w2, ys[j], c2, c2),
        ys[j].count <= cy,
        distinct_keys(ys),
        cx + cy <= u64::MAX,
        merge_progress(a, b, ctx, w1, w2, c2, xs, ys, m, j, cx + cy),
        merged(m, ys[j], m2),
        exists|i: int| 0 <= i < m.len() && same_key(#[trigger] m[i], ys[j]),
    ensures
        merge_progress(a, b, ctx, w1, w2, c2, xs, ys, m2, j + 1, cx + cy),
{
    let g = ys[j];
    let bound = cx + cy;
    let i0 = choose|i: int| 0 <= i < m.len() && same_key(#[trigger] m[i], g);
    assert(i0 < xs.len() && m[i0] == xs[i0] && distinct_keys(m)) by {
        reveal(merge_progress);
        assert(!exists|k: int| 0 <= k < j && same_key(#[trigger] ys[k], m[i0])) by {
            if exists|k: int| 0 <= k < j && same_key(#[trigger] ys[k], m[i0]) {
                let k = choose|k: int| 0 <= k < j && same_key(#[trigger] ys[k], m[i0]);
                assert(same_key(ys[k], ys[j]));
            }
        }
    }
    lemma_group_joined(a, b, ctx, w1, w2, xs[i0], g, c2);
    assert forall|i: int| 0 <= i < m.len() && i != i0 implies !same_key(#[trigger] m[i], g) by {
        assert(!same_key(m[i], m[i0]));
    }
    assert(m2 =~= m.update(i0, combined(m[i0], g)));
    assert(ys.take(j + 1) =~= ys.take(j).push(g));
    lemma_sum_push(ys.take(j), g);
    lemma_sum_update(m, i0, combined(m[i0], g));
    assert(distinct_keys(m2)) by {
        assert forall|i: int, k: int|
            0 <= i < m2.len() && 0 <= k < m2.len() && i != k implies !same_key(
            #[trigger] m2[i],
            #[trigger] m2[k],
        ) by {
            assert(!same_key(m[i], m[k]));
        }
    }
    assert(xs.len() <= m2.len() && forall|i: int| 0 <= i < xs.len() ==> same_key(#[trigger] m2[i], xs[i])) by {
        reveal(merge_progress);
        assert forall|i: int| 0 <= i < xs.len() implies same_key(#[trigger] m2[i], xs[i]) by {
            assert(same_key(m[i], xs[i]));
        }
    }
    assert(forall|i: int|
        0 <= i < m2.len() ==> {
            &&& (#[trigger] m2[i]).count <= bound
            &&& m2[i].only_a.bits() < 0x40_0000_0000
            &&& m2[i].only_b.bits() < 0x40_0000_0000
        }) by {
        reveal(merge_progress);
        assert forall|i: int| 0 <= i < m2.len() implies {
            &&& (#[trigger] m2[i]).count <= bound
            &&& m2[i].only_a.bits() < 0x40_0000_0000
            &&& m2[i].only_b.bits() < 0x40_0000_0000
        } by {
            if i != i0 {
                assert(m2[i] == m[i]);
            } else {
                assert(xs[i0].count <= cx);
            }
        }
    }
    assert(forall|i: int|
        0 <= i < m2.len() ==> if exists|k: int| 0 <= k < j + 1 && same_key(#[trigger] ys[k], m2[i]) {
            group_holds(a, b, ctx, w1, #[trigger] m2[i], c2, c2)
        } else {
            i < xs.len() && m2[i] == xs[i]
        }) by {
        reveal(merge_progress);
        assert forall|i: int| 0 <= i < m2.len() implies if exists|k: int|
            0 <= k < j + 1 && same_key(#[trigger] ys[k], m2[i]) {
            group_holds(a, b, ctx, w1, #[trigger] m2[i], c2, c2)
        } else {
            i < xs.len() && m2[i] == xs[i]
        } by {
            if i == i0 {
                assert(same_key(ys[j], m2[i]));
            } else {
                assert(m2[i] == m[i]);
                assert(!same_key(ys[j], m2[i]));
                if exists|k: int| 0 <= k < j + 1 && same_key(#[trigger] ys[k], m2[i]) {
                    let k = choose|k: int| 0 <= k < j + 1 && same_key(#[trigger] ys[k], m2[i]);
                    assert(k < j);
                }
            }
        }
    }
    assert(forall|k: int| 0 <= k < j + 1 ==> exists|i: int| 0 <= i < m2.len() && same_key(#[trigger] ys[k], m2[i])) by {
        reveal(merge_progress);
        assert forall|k: int| 0 <= k < j + 1 implies exists|i: int|
            0 <= i < m2.len() && same_key(#[trigger] ys[k], m2[i]) by {
            if k == j {
                assert(same_key(ys[k], m2[i0]));
            } else {
                let i = choose|i: int| 0 <= i < m.len() && same_key(#[trigger] ys[k], m[i]);
                assert(same_key(ys[k], m2[i]));
            }
        }
    }
    assert(sum_counts(m2) == sum_counts(xs) + sum_counts(ys.take(j + 1))) by {
        reveal(merge_progress);
    }
    reveal(merge_progress);
}

/// A key that no group of the first scan has is the key of none of its
/// periods.
proof fn lemma_key_not_in_first(
    a: Convention,
    b: Convention,
    ctx: Context,
    w1: Window,
    c: int,
    xs: Seq<Group>,
    m: Seq<Group>,
    g: Group,
)
    requires
        forall|s: int, e: int|
            scanned(w1, c, c, s, e) && #[trigger] differs(a, b, ctx, s, e) ==> exists|i: int|
                0 <= i < xs.len() && group_key(#[trigger] xs[i]) == split_key(a, b, ctx, s, e),
        xs.len() <= m.len(),
        forall|i: int| 0 <= i < xs.len() ==> same_key(#[trigger] m[i], xs[i]),
        forall|i: int|
            0 <= i < m.len() ==> (#[trigger] m[i]).only_a.bits() < 0x40_0000_0000 && m[i].only_b.bits()
                < 0x40_0000_0000,
        g.only_a.bits() < 0x40_0000_0000,
        g.only_b.bits() < 0x40_0000_0000,
        !exists|i: int| 0 <= i < m.len() && same_key(#[trigger] m[i], g),
    ensures
        forall|s: int, e: int|
            scanned(w1, c, c, s, e) ==> !#[trigger] counted(a, b, ctx, Tally::Keyed(g.only_a@, g.only_b@), s, e),
{
    assert forall|s: int, e: int| scanned(w1, c, c, s, e) implies !#[trigger] counted(
        a,
        b,
        ctx,
        Tally::Keyed(g.only_a@, g.only_b@),
        s,
        e,
    ) by {
        if counted(a, b, ctx, Tally::Keyed(g.only_a@, g.only_b@), s, e) {
            let i1 = choose|i: int| 0 <= i < xs.len() && group_key(#[trigger] xs[i]) == split_key(a, b, ctx, s, e);
            assert(same_key(m[i1], xs[i1]));
            lemma_same_key_views(m[i1], g);
        }
    }
}

/// A group of the second scan whose key the first scan does not have.
proof fn lemma_merge_as_new(
    a: Convention,
    b: Convention,
    ctx: Context,
    w1: Window,
    w2: Window,
    c2: int,
    xs: Seq<Group>,
    ys: Seq<Group>,
    m: Seq<Group>,
    m2: Seq<Group>,
    j: int,
    cx: int,
    cy: int,
)
    requires
        continues(w1, w2),
        w2.from.spec_serial() <= c2,
        forall|s: int, e: int|
            scanned(w1, w2.from.spec_serial(), w2.from.spec_serial(), s, e) && #[trigger] differs(
                a,
                b,
                ctx,
                s,
                e,
            ) ==> exists|i: int| 0 <= i < xs.len() && group_key(#[trigger] xs[i]) == split_key(a, b, ctx, s, e),
        0 <= j < ys.len(),
        group_holds(a, b, ctx, w2, ys[j], c2, c2),
        0 <= cx,
        ys[j].count <= cy,
        ys[j].only_a.bits() < 0x40_0000_0000,
        ys[j].only_b.bits() < 0x40_0000_0000,
        merge_progress(a, b, ctx, w1, w2, c2, xs, ys, m, j, cx + cy),
        merged(m, ys[j], m2),
        !exists|i: int| 0 <= i < m.len() && same_key(#[trigger] m[i], ys[j]),
    ensures
        merge_progress(a, b, ctx, w1, w2, c2, xs, ys, m2, j + 1, cx + cy),
{
    let g = ys[j];
    let c = w2.from.spec_serial();
    assert({
        &&& xs.len() <= m.len()
        &&& forall|i: int| 0 <= i < xs.len() ==> same_key(#[trigger] m[i], xs[i])
        &&& forall|i: int|
            0 <= i < m.len() ==> (#[trigger] m[i]).only_a.bits() < 0x40_0000_0000 && m[i].only_b.bits()
                < 0x40_0000_0000
    }) by {
        reveal(merge_progress);
    }
    lemma_key_not_in_first(a, b, ctx, w1, c, xs, m, g);
    lemma_group_second_only(a, b, ctx, w1, w2, g, c2);
    assert(ys.take(j + 1) =~= ys.take(j).push(g));
    lemma_sum_push(ys.take(j), g);
    assert(m2 == m.push(g));
    lemma_sum_push(m, g);
    let bound = cx + cy;
    assert(distinct_keys(m2)) by {
        reveal(merge_progress);
        assert forall|i: int, k: int|
            0 <= i < m2.len() && 0 <= k < m2.len() && i != k implies !same_key(
            #[trigger] m2[i],
            #[trigger] m2[k],
        ) by {
            if i < m.len() && k < m.len() {
                assert(!same_key(m[i], m[k]));
            } else if i < m.len() {
                assert(!same_key(m[i], g));
            } else {
                assert(!same_key(m[k], g));
            }
        }
    }
    assert(forall|i: int| 0 <= i < xs.len() ==> same_key(#[trigger] m2[i], xs[i])) by {
        assert forall|i: int| 0 <= i < xs.len() implies same_key(#[trigger] m2[i], xs[i]) by {
            assert(same_key(m[i], xs[i]));
        }
    }
    assert(forall|i: int|
        0 <= i < m2.len() ==> {
            &&& (#[trigger] m2[i]).count <= bound
            &&& m2[i].only_a.bits() < 0x40_0000_0000
            &&& m2[i].only_b.bits() < 0x40_0000_0000
        }) by {
        reveal(merge_progress);
        assert forall|i: int| 0 <= i < m2.len() implies {
            &&& (#[trigger] m2[i]).count <= bound
            &&& m2[i].only_a.bits() < 0x40_0000_0000
            &&& m2[i].only_b.bits() < 0x40_0000_0000
        } by {
            if i < m.len() {
                assert(m2[i] == m[i]);
            }
        }
    }
    assert(forall|i: int|
        0 <= i < m2.len() ==> if exists|k: int| 0 <= k < j + 1 && same_key(#[trigger] ys[k], m2[i]) {
            group_holds(a, b, ctx, w1, #[trigger] m2[i], c2, c2)
        } else {
            i < xs.len() && m2[i] == xs[i]
        }) by {
        reveal(merge_progress);
        assert forall|i: int| 0 <= i < m2.len() implies if exists|k: int|
            0 <= k < j + 1 && same_key(#[trigger] ys[k], m2[i]) {
            group_holds(a, b, ctx, w1, #[trigger] m2[i], c2, c2)
        } else {
            i < xs.len() && m2[i] == xs[i]
        } by {
            if i == m.len() {
                assert(same_key(ys[j], m2[i]));
            } else {
                assert(m2[i] == m[i]);
                assert(!same_key(ys[j], m2[i]));
                if exists|k: int| 0 <= k < j + 1 && same_key(#[trigger] ys[k], m2[i]) {
                    let k = choose|k: int| 0 <= k < j + 1 && same_key(#[trigger] ys[k], m2[i]);
                    assert(k < j);
                }
            }
        }
    }
    assert(forall|k: int| 0 <= k < j + 1 ==> exists|i: int| 0 <= i < m2.len() && same_key(#[trigger] ys[k], m2[i])) by {
        reveal(merge_progress);
        assert forall|k: int| 0 <= k < j + 1 implies exists|i: int|
            0 <= i < m2.len() && same_key(#[trigger] ys[k], m2[i]) by {
            if k == j {
                assert(same_key(ys[k], m2[m.len() as int]));
            } else {
                let i = choose|i: int| 0 <= i < m.len() && same_key(#[trigger] ys[k], m[i]);
                assert(same_key(ys[k], m2[i]));
            }
        }
    }
    assert(sum_counts(m2) == sum_counts(xs) + sum_counts(ys.take(j + 1))) by {
        reveal(merge_progress);
    }
    reveal(merge_progress);
}

/// One more group of the second scan merged in.
proof fn lemma_merge_step(
    a: Convention,
    b: Convention,
    ctx: Context,
    w1: Window,
    w2: Window,
    c2: int,
    xs: Seq<Group>,
    ys: Seq<Group>,
    m: Seq<Group>,
    m2: Seq<Group>,
    j: int,
    cx: int,
    cy: int,
)
    requires
        continues(w1, w2),
        w2.from.spec_serial() <= c2,
        forall|i: int|
            0 <= i < xs.len() ==> group_holds(
                a,
                b,
                ctx,
                w1,
                #[trigger] xs[i],
                w2.from.spec_serial(),
                w2.from.spec_serial(),
            ),
        forall|i: int| 0 <= i < xs.len() ==> (#[trigger] xs[i]).count <= cx,
        forall|s: int, e: int|
            scanned(w1, w2.from.spec_serial(), w2.from.spec_serial(), s, e) && #[trigger] differs(
                a,
                b,
                ctx,
                s,
                e,
            ) ==> exists|i: int| 0 <= i < xs.len() && group_key(#[trigger] xs[i]) == split_key(a, b, ctx, s, e),
        forall|k: int| 0 <= k < ys.len() ==> group_holds(a, b, ctx, w2, #[trigger] ys[k], c2, c2),
        forall|k: int|
            0 <= k < ys.len() ==> (#[trigger] ys[k]).count <= cy && ys[k].only_a.bits()
                < 0x40_0000_0000 && ys[k].only_b.bits() < 0x40_0000_0000,
        distinct_keys(ys),
        cx + cy <= u64::MAX,
        0 <= cx,
        0 <= j < ys.len(),
        merge_progress(a, b, ctx, w1, w2, c2, xs, ys, m, j, cx + cy),
        merged(m, ys[j], m2),
    ensures
        merge_progress(a, b, ctx, w1, w2, c2, xs, ys, m2, j + 1, cx + cy),
{
    if exists|i: int| 0 <= i < m.len() && same_key(#[trigger] m[i], ys[j]) {
        lemma_merge_into_existing(a, b, ctx, w1, w2, c2, xs, ys, m, m2, j, cx, cy);
    } else {
        lemma_merge_as_new(a, b, ctx, w1, w2, c2, xs, ys, m, m2, j, cx, cy);
    }
}

/// Once every group of the second scan is merged in, the groups are those
/// of one scan over both ranges of starts.
proof fn lemma_merge_finish(
    a: Convention,
    b: Convention,
    ctx: Context,
    w1: Window,
    w2: Window,
    c2: int,
    xs: Seq<Group>,
    ys: Seq<Group>,
    m: Seq<Group>,
    cx: int,
    dx: int,
    cy: int,
    dy: int,
)
    requires
        continues(w1, w2),
        w2.from.spec_serial() <= c2,
        scan_state(a, b, ctx, w1, xs, w2.from.spec_serial(), w2.from.spec_serial(), cx, dx),
        scan_state(a, b, ctx, w2, ys, c2, c2, cy, dy),
        merge_progress(a, b, ctx, w1, w2, c2, xs, ys, m, ys.len() as int, cx + cy),
    ensures
        scan_state(a, b, ctx, w1, m, c2, c2, cx + cy, dx + dy),
{
    reveal(scan_state);
    reveal(merge_progress);
    let c = w2.from.spec_serial();
    lemma_tally_split(a, b, ctx, w1, w2, Tally::All, c2);
    lemma_tally_split(a, b, ctx, w1, w2, Tally::Differing, c2);
    lemma_scanned_split(w1, w2, c2);
    assert(row_tally(a, b, ctx, Tally::All, c, c) == 0);
    assert(row_tally(a, b, ctx, Tally::Differing, c, c) == 0);
    assert(row_tally(a, b, ctx, Tally::All, c2, c2) == 0);
    assert(row_tally(a, b, ctx, Tally::Differing, c2, c2) == 0);
    assert(ys.take(ys.len() as int) =~= ys);
    assert forall|i: int| 0 <= i < m.len() implies group_holds(a, b, ctx, w1, #[trigger] m[i], c2, c2) by {
        let j = ys.len() as int;
        assert(if exists|k: int| 0 <= k < j && same_key(#[trigger] ys[k], m[i]) {
            group_holds(a, b, ctx, w1, m[i], c2, c2)
        } else {
            i < xs.len() && m[i] == xs[i]
        });
        if !exists|k: int| 0 <= k < j && same_key(#[trigger] ys[k], m[i]) {
            assert(i < xs.len() && m[i] == xs[i]);
            let t = Tally::Keyed(m[i].only_a@, m[i].only_b@);
            assert forall|s: int, e: int| scanned(w2, c2, c2, s, e) implies !#[trigger] counted(
                a,
                b,
                ctx,
                t,
                s,
                e,
            ) by {
                if counted(a, b, ctx, t, s, e) {
                    let k = choose|k: int| 0 <= k < ys.len() && group_key(#[trigger] ys[k]) == split_key(a, b, ctx, s, e);
                    lemma_same_key_views(ys[k], m[i]);
                }
            }
            lemma_group_first_only(a, b, ctx, w1, w2, m[i], c2);
        }
    }
    assert forall|s: int, e: int|
        scanned(w1, c2, c2, s, e) && #[trigger] differs(a, b, ctx, s, e) implies exists|i: int|
        0 <= i < m.len() && group_key(#[trigger] m[i]) == split_key(a, b, ctx, s, e) by {
        if scanned(w1, c, c, s, e) {
            let i = choose|i: int| 0 <= i < xs.len() && group_key(#[trigger] xs[i]) == split_key(a, b, ctx, s, e);
            assert(same_key(m[i], xs[i]));
            assert(group_key(m[i]) == group_key(xs[i]));
        } else {
            let k = choose|k: int| 0 <= k < ys.len() && group_key(#[trigger] ys[k]) == split_key(a, b, ctx, s, e);
            let i = choose|i: int| 0 <= i < m.len() && same_key(#[trigger] ys[k], m[i]);
            assert(group_key(m[i]) == group_key(ys[k]));
        }
    }
}

/// `merge_progress` with the two scans' states: the step of the merge.
proof fn lemma_merge_next(
    a: Convention,
    b: Convention,
    ctx: Context,
    w1: Window,
    w2: Window,
    c2: int,
    xs: Seq<Group>,
    ys: Seq<Group>,
    m: Seq<Group>,
    m2: Seq<Group>,
    j: int,
    cx: int,
    dx: int,
    cy: int,
    dy: int,
)
    requires
        continues(w1, w2),
        w2.from.spec_serial() <= c2,
        scan_state(a, b, ctx, w1, xs, w2.from.spec_serial(), w2.from.spec_serial(), cx, dx),
        scan_state(a, b, ctx, w2, ys, c2, c2, cy, dy),
        0 <= cx,
        cx + cy <= u64::MAX,
        0 <= j < ys.len(),
        merge_progress(a, b, ctx, w1, w2, c2, xs, ys, m, j, cx + cy),
        merged(m, ys[j], m2),
    ensures
        merge_progress(a, b, ctx, w1, w2, c2, xs, ys, m2, j + 1, cx + cy),
{
    reveal(scan_state);
    lemma_merge_step(a, b, ctx, w1, w2, c2, xs, ys, m, m2, j, cx, cy);
}

/// What merging the next group needs: distinct keys and room in the counts.
proof fn lemma_merge_ready(
    a: Convention,
    b: Convention,
    ctx: Context,
    w1: Window,
    w2: Window,
    c2: int,
    xs: Seq<Group>,
    ys: Seq<Group>,
    m: Seq<Group>,
    j: int,
    cy: int,
    dy: int,
    bound: int,
)
    requires
        scan_state(a, b, ctx, w2, ys, c2, c2, cy, dy),
        merge_progress(a, b, ctx, w1, w2, c2, xs, ys, m, j, bound),
        0 <= j < ys.len(),
        bound + cy <= u64::MAX,
    ensures
        distinct_keys(m),
        forall|i: int| 0 <= i < m.len() ==> #[trigger] m[i].count + ys[j].count <= u64::MAX,
{
    reveal(scan_state);
    reveal(merge_progress);
    assert(ys[j].count <= cy);
}

/// The groups found over the periods of a window that start in a range of
/// its dates: from the window's first date to just before `until`. Scans of
/// consecutive ranges merge into the scan of both, and a scan up to the
/// window's last date makes the report.
pub struct Scan {
    a: Convention,
    b: Convention,
    context: Context,
    window: Window,
    until: i64,
    groups: Vec<Group>,
    checked: u64,
    differing: u64,
}

impl Scan {
    #[verifier::type_invariant]
    spec fn consistent(self) -> bool {
        &&& in_calendar(self.window.from)
        &&& in_calendar(self.window.to)
        &&& self.window.from.spec_serial() <= self.until <= self.window.to.spec_serial()
        &&& scan_state(
            self.a,
            self.b,
            self.context,
            self.window,
            self.groups@,
            self.until as int,
            self.until as int,
            self.checked as int,
            self.differing as int,
        )
        &&& self.checked <= (self.until - self.window.from.spec_serial()) * 4_000_000
        &&& self.differing <= self.checked
    }

    pub closed spec fn conventions(self) -> (Convention, Convention) {
        (self.a, self.b)
    }

    pub closed spec fn context(self) -> Context {
        self.context
    }

    /// The window, from the first start of this scan.
    pub closed spec fn window(self) -> Window {
        self.window
    }

    /// The scan covers the starts before this serial.
    pub closed spec fn until(self) -> int {
        self.until as int
    }

    /// Scans the periods of `window` whose start serial lies in
    /// `first..until`; the deal terms must have passed [`check_terms`].
    pub fn new(
        a: Convention,
        b: Convention,
        context: &Context,
        window: Window,
        first: i64,
        until: i64,
    ) -> (r: Scan)
        requires
            in_calendar(window.from),
            in_calendar(window.to),
            window.from.spec_serial() <= first <= until <= window.to.spec_serial(),
            terms_error(a, *context) is None,
            terms_error(b, *context) is None,
            has_periods(window) ==> period_error(a, *context) is None && period_error(
                b,
                *context,
            ) is None,
        ensures
            r.conventions() == (a, b),
            r.context() == *context,
            r.window().from.spec_serial() == first,
            r.window().to == window.to,
            r.window().max_days == window.max_days,
            r.until() == until,
            first == window.from.spec_serial() ==> r.window() == window,
    {
        // The calls bring the dates' validity into the proof.
        let _ = window.from.serial();
        let _ = window.to.serial();
        proof {
            crate::date::lemma_calendar_serial_range(window.from);
            crate::date::lemma_calendar_serial_range(window.to);
        }
        let from = match Date::from_serial(first) {
            Ok(d) => d,
            Err(_) => {
                proof {
                    assert(false);
                }
                window.from
            },
        };
        proof {
            Date::lemma_serial_determines(from, window.from);
        }
        let part = Window { from, to: window.to, max_days: window.max_days };
        let (groups, checked, differing) = scan_starts(a, b, context, part, until);
        Scan { a, b, context: *context, window: part, until, groups, checked, differing }
    }

    /// This scan followed by the scan of the next range of starts.
    pub fn merge(self, later: Scan) -> (r: Scan)
        requires
            self.conventions() == later.conventions(),
            self.context() == later.context(),
            self.window().to == later.window().to,
            self.window().max_days == later.window().max_days,
            self.until() == later.window().from.spec_serial(),
        ensures
            r.conventions() == self.conventions(),
            r.context() == self.context(),
            r.window() == self.window(),
            r.until() == later.until(),
    {
        proof {
            use_type_invariant(&self);
            use_type_invariant(&later);
        }
        let ghost w1 = self.window;
        let ghost w2 = later.window;
        let ghost c2 = later.until as int;
        let ghost xs = self.groups@;
        let ghost ys = later.groups@;
        let ghost cx = self.checked as int;
        let ghost dx = self.differing as int;
        let ghost cy = later.checked as int;
        let ghost dy = later.differing as int;
        let ghost ctx = self.context;
        let a = self.a;
        let b = self.b;
        // The calls bring the dates' validity into the proof.
        let _ = self.window.from.serial();
        let _ = self.window.to.serial();
        proof {
            crate::date::lemma_calendar_serial_range(self.window.from);
            crate::date::lemma_calendar_serial_range(self.window.to);
        }
        let checked = self.checked + later.checked;
        let differing = self.differing + later.differing;
        proof {
            reveal(scan_state);
            lemma_merge_start(xs, ys, cx + cy, a, b, ctx, w1, w2, c2);
        }
        let mut groups = self.groups;
        let rest = later.groups;
        let mut j: usize = 0;
        while j < rest.len()
            invariant
                rest@ == ys,
                j <= ys.len(),
                continues(w1, w2),
                w2.from.spec_serial() <= c2,
                scan_state(a, b, ctx, w1, xs, w2.from.spec_serial(), w2.from.spec_serial(), cx, dx),
                scan_state(a, b, ctx, w2, ys, c2, c2, cy, dy),
                0 <= cx <= 0x10_0000_0000_0000,
                0 <= cy <= 0x10_0000_0000_0000,
                merge_progress(a, b, ctx, w1, w2, c2, xs, ys, groups@, j as int, cx + cy),
            decreases ys.len() - j,
        {
            let g = rest[j];
            proof {
                lemma_merge_ready(a, b, ctx, w1, w2, c2, xs, ys, groups@, j as int, cy, dy, cx + cy);
            }
            let ghost before = groups@;
            merge_into(&mut groups, g);
            proof {
                lemma_merge_next(a, b, ctx, w1, w2, c2, xs, ys, before, groups@, j as int, cx, dx, cy, dy);
            }
            j = j + 1;
        }
        proof {
            lemma_merge_finish(a, b, ctx, w1, w2, c2, xs, ys, groups@, cx, dx, cy, dy);
        }
        Scan {
            a,
            b,
            context: self.context,
            window: self.window,
            until: later.until,
            groups,
            checked,
            differing,
        }
    }

    /// The report of a scan that covers every start of its window.
    pub fn finish(self) -> (r: Report)
        requires
            self.until() == self.window().to.spec_serial(),
        ensures
            report_holds(self.conventions().0, self.conventions().1, self.context(), self.window(), r),
    {
        proof {
            use_type_invariant(&self);
            reveal(scan_state);
        }
        let ghost groups = self.groups@;
        let sorted = sort_groups(self.groups);
        let report = Report {
            a: self.a,
            b: self.b,
            pairs_checked: self.checked,
            differing: self.differing,
            groups: sorted,
        };
        proof {
            lemma_report(
                self.a,
                self.b,
                self.context,
                self.window,
                groups,
                sorted@,
                self.checked as int,
                self.differing as int,
                report,
            );
        }
        report
    }
}

/// Compares conventions `a` and `b` on every period of `window`. The periods
/// are scanned in one pass, so the result does not depend on `threads`;
/// callers that spread the work over threads scan ranges of start dates with
/// [`Scan`] and merge them, which gives the same report.
pub fn disagree(a: Convention, b: Convention, context: &Context, window: Window, threads: usize) -> (r:
    Result<Report, Error>)
    requires
        in_calendar(window.from),
        in_calendar(window.to),
    ensures
        disagree_result(a, b, *context, window, r),
{
    if window.from.serial() > window.to.serial() {
        return Err(Error::StartAfterEnd { start: window.from, end: window.to });
    }
    match check_terms(a, b, context, window) {
        Err(e) => return Err(e),
        Ok(()) => {},
    }
    let scan = Scan::new(a, b, context, window, window.from.serial(), window.to.serial());
    Ok(scan.finish())
}

/// Equal values stay equal when each fraction is replaced by an equal one.
proof fn lemma_same_value_iff(x: (int, int), x2: (int, int), y: (int, int), y2: (int, int))
    requires
        x.1 > 0,
        x2.1 > 0,
        y.1 > 0,
        y2.1 > 0,
        same_value(x, x2),
        same_value(y, y2),
    ensures
        same_value(x, y) == same_value(x2, y2),
{
    if same_value(x, y) {
        crate::rational::lemma_same_value_trans(x2, x, y);
        crate::rational::lemma_same_value_trans(x2, y, y2);
    }
    if same_value(x2, y2) {
        crate::rational::lemma_same_value_trans(x, x2, y2);
        crate::rational::lemma_same_value_trans(x, y2, y);
    }
}

// ---------------------------------------------------------------------------
// Additivity

/// A triple `a <= b <= c` with `f(a, c) != f(a, b) + f(b, c)`.
#[derive(Clone, Copy, PartialEq, Eq, Structural, Debug)]
pub struct AdditivityCounterexample {
    pub a: Date,
    pub b: Date,
    pub c: Date,
    pub whole: Rational,
    pub sum_of_parts: Rational,
}

/// The value of convention `c` from serial `s` to serial `e`: zero for an
/// empty period.
pub open spec fn value_at(c: Convention, ctx: Context, s: int, e: int) -> (int, int) {
    if s == e {
        (0, 1)
    } else {
        outcome(c, ctx, s, e).0
    }
}

/// `f(x, z) == f(x, y) + f(y, z)` in value.
pub open spec fn additive_at(c: Convention, ctx: Context, x: int, y: int, z: int) -> bool {
    same_value(value_at(c, ctx, x, z), frac_add(value_at(c, ctx, x, y), value_at(c, ctx, y, z)))
}

/// The longest `c - a` searched.
pub open spec fn max_span(w: Window) -> int {
    let full = w.to.spec_serial() - w.from.spec_serial();
    match w.max_days {
        Some(m) => if m < full {
            m as int
        } else {
            full
        },
        None => full,
    }
}

/// The serials `x <= y <= x + span` are a triple of the search.
pub open spec fn in_search(w: Window, span: int, x: int, y: int) -> bool {
    &&& 0 <= span <= max_span(w)
    &&& w.from.spec_serial() <= x
    &&& x + span <= w.to.spec_serial()
    &&& x <= y <= x + span
}

/// The search order: shorter `c - a` first, then earlier `a`, then earlier `b`.
pub open spec fn searched_before(sp1: int, x1: int, y1: int, sp2: int, x2: int, y2: int) -> bool {
    sp1 < sp2 || (sp1 == sp2 && (x1 < x2 || (x1 == x2 && y1 < y2)))
}

/// Every triple searched before `(span, x, y)` is additive.
pub open spec fn additive_before(c: Convention, ctx: Context, w: Window, span: int, x: int, y: int) -> bool {
    forall|sp: int, x2: int, y2: int|
        #![trigger additive_at(c, ctx, x2, y2, x2 + sp)]
        in_search(w, sp, x2, y2) && searched_before(sp, x2, y2, span, x, y) ==> additive_at(
            c,
            ctx,
            x2,
            y2,
            x2 + sp,
        )
}

/// `cx` is the first triple of the search that is not additive, with its
/// whole value and the sum of its parts.
pub open spec fn counterexample_holds(c: Convention, ctx: Context, w: Window, cx: AdditivityCounterexample) -> bool {
    let x = cx.a.spec_serial();
    let y = cx.b.spec_serial();
    let z = cx.c.spec_serial();
    let whole = value_at(c, ctx, x, z);
    let parts = frac_add(value_at(c, ctx, x, y), value_at(c, ctx, y, z));
    &&& in_search(w, z - x, x, y)
    &&& cx.a == date_at(x)
    &&& cx.b == date_at(y)
    &&& cx.c == date_at(z)
    &&& cx.whole.equals_fraction(whole.0, whole.1)
    &&& cx.sum_of_parts.equals_fraction(parts.0, parts.1)
    &&& !additive_at(c, ctx, x, y, z)
    &&& additive_before(c, ctx, w, z - x, x, y)
}

/// What the search gives: nothing to search, then missing or invalid deal
/// terms, then the first triple that is not additive, if any.
pub open spec fn additivity_result(
    c: Convention,
    ctx: Context,
    w: Window,
    r: Result<Option<AdditivityCounterexample>, Error>,
) -> bool {
    if max_span(w) < 0 {
        r == Ok::<Option<AdditivityCounterexample>, Error>(None)
    } else if terms_error(c, ctx) is Some {
        r == Err::<Option<AdditivityCounterexample>, Error>(terms_error(c, ctx).unwrap())
    } else if max_span(w) >= 1 && period_error(c, ctx) is Some {
        r == Err::<Option<AdditivityCounterexample>, Error>(period_error(c, ctx).unwrap())
    } else if exists|sp: int, x: int, y: int| in_search(w, sp, x, y) && !additive_at(c, ctx, x, y, x + sp) {
        r matches Ok(Some(cx)) && counterexample_holds(c, ctx, w, cx)
    } else {
        r == Ok::<Option<AdditivityCounterexample>, Error>(None)
    }
}

/// The value of `c` over a period whose deal terms are in order.
fn value_over(c: Convention, context: &Context, start: Date, end: Date) -> (v: Rational)
    requires
        in_calendar(start),
        in_calendar(end),
        start == date_at(start.spec_serial()),
        end == date_at(end.spec_serial()),
        start.spec_serial() <= end.spec_serial(),
        terms_error(c, *context) is None,
        start.spec_serial() < end.spec_serial() ==> period_error(c, *context) is None,
    ensures
        v.equals_fraction(
            value_at(c, *context, start.spec_serial(), end.spec_serial()).0,
            value_at(c, *context, start.spec_serial(), end.spec_serial()).1,
        ),
        value_at(c, *context, start.spec_serial(), end.spec_serial()).1 > 0,
        modest(v),
{
    match year_fraction(c, start, end, context) {
        Ok(y) => y.value,
        Err(_) => {
            proof {
                assert(false);
            }
            Rational::zero()
        },
    }
}

/// The exact sum of two values of the conventions: it always fits.
fn sum_of(x: Rational, y: Rational) -> (r: Rational)
    requires
        modest(x),
        modest(y),
    ensures
        r.equals_fraction(
            frac_add((x.numer() as int, x.denom() as int), (y.numer() as int, y.denom() as int)).0,
            frac_add((x.numer() as int, x.denom() as int), (y.numer() as int, y.denom() as int)).1,
        ),
{
    let ghost n = x.numer() * y.denom() + y.numer() * x.denom();
    let ghost d = x.denom() * y.denom();
    proof {
        assert(-0x4000_0000_0000_0000 <= n <= 0x4000_0000_0000_0000 && 0 < d <= 0x400_0000_0000) by (nonlinear_arith)
            requires
                n == x.numer() * y.denom() + y.numer() * x.denom(),
                d == x.denom() * y.denom(),
                0 < x.denom() <= 0x20_0000,
                0 < y.denom() <= 0x20_0000,
                -0x100_0000_0000 <= x.numer() <= 0x100_0000_0000,
                -0x100_0000_0000 <= y.numer() <= 0x100_0000_0000,
        ;
        crate::rational::lemma_fits_when_small(n, d);
    }
    let r = x.checked_add(y);
    proof {
        crate::rational::lemma_result_value(n, d, r);
    }
    match r {
        Ok(v) => v,
        Err(_) => {
            proof {
                assert(false);
            }
            Rational::zero()
        },
    }
}

/// Checks one triple of the search: the whole value, the sum of the parts,
/// and whether they agree.
fn check_triple(
    convention: Convention,
    context: &Context,
    a: Date,
    b: Date,
    c: Date,
    whole: Rational,
) -> (r: (Rational, bool))
    requires
        in_calendar(a),
        in_calendar(b),
        in_calendar(c),
        a == date_at(a.spec_serial()),
        b == date_at(b.spec_serial()),
        c == date_at(c.spec_serial()),
        a.spec_serial() <= b.spec_serial() <= c.spec_serial(),
        terms_error(convention, *context) is None,
        a.spec_serial() < c.spec_serial() ==> period_error(convention, *context) is None,
        whole.equals_fraction(
            value_at(convention, *context, a.spec_serial(), c.spec_serial()).0,
            value_at(convention, *context, a.spec_serial(), c.spec_serial()).1,
        ),
        value_at(convention, *context, a.spec_serial(), c.spec_serial()).1 > 0,
    ensures
        ({
            let x = a.spec_serial();
            let y = b.spec_serial();
            let z = c.spec_serial();
            let parts = frac_add(value_at(convention, *context, x, y), value_at(convention, *context, y, z));
            &&& r.0.equals_fraction(parts.0, parts.1)
            &&& r.1 == additive_at(convention, *context, x, y, z)
        }),
{
    let ghost ctx = *context;
    let ghost x = a.spec_serial();
    let ghost y = b.spec_serial();
    let ghost z = c.spec_serial();
    let first = value_over(convention, context, a, b);
    let second = value_over(convention, context, b, c);
    let sum = sum_of(first, second);
    let agree = sum.compare(&whole) == 0;
    proof {
        let fp = (first.numer() as int, first.denom() as int);
        let sp = (second.numer() as int, second.denom() as int);
        let vp = value_at(convention, ctx, x, y);
        let vq = value_at(convention, ctx, y, z);
        crate::rational::lemma_frac_add_congruent(fp, vp, sp, vq);
        crate::rational::lemma_den_positive(fp.1, sp.1);
        crate::rational::lemma_den_positive(vp.1, vq.1);
        crate::rational::lemma_same_value_trans(
            (sum.numer() as int, sum.denom() as int),
            frac_add(fp, sp),
            frac_add(vp, vq),
        );
        lemma_same_value_iff(
            (sum.numer() as int, sum.denom() as int),
            frac_add(vp, vq),
            (whole.numer() as int, whole.denom() as int),
            value_at(convention, ctx, x, z),
        );
    }
    (sum, agree)
}

/// Searches triples inside `window` (with `c - a <= max_days` if given) for a
/// failure of additivity, shortest `c - a` first. `None` means the convention
/// is additive on every triple examined.
pub fn find_additivity_counterexample(convention: Convention, context: &Context, window: Window) -> (r:
    Result<Option<AdditivityCounterexample>, Error>)
    requires
        in_calendar(window.from),
        in_calendar(window.to),
    ensures
        additivity_result(convention, *context, window, r),
{
    let ghost ctx = *context;
    let from = window.from.serial();
    let to = window.to.serial();
    proof {
        crate::date::lemma_calendar_serial_range(window.from);
        crate::date::lemma_calendar_serial_range(window.to);
    }
    let full = to - from;
    let longest: i64 = match window.max_days {
        Some(m) => if m < full {
            m
        } else {
            full
        },
        None => full,
    };
    if longest < 0 {
        return Ok(None);
    }
    match year_fraction(convention, window.from, window.from, context) {
        Err(e) => return Err(e),
        Ok(_) => {},
    }
    if longest >= 1 {
        let next = match Date::from_serial(from + 1) {
            Ok(d) => d,
            Err(e) => {
                proof {
                    assert(false);
                }
                return Err(e);
            },
        };
        match year_fraction(convention, window.from, next, context) {
            Err(e) => return Err(e),
            Ok(_) => {},
        }
    }
    let mut span: i64 = 0;
    while span <= longest
        invariant
            from == window.from.spec_serial(),
            to == window.to.spec_serial(),
            crate::date::min_serial() <= from <= to <= crate::date::max_serial(),
            longest == max_span(window),
            0 <= longest <= to - from,
            0 <= span <= longest + 1,
            ctx == *context,
            terms_error(convention, ctx) is None,
            longest >= 1 ==> period_error(convention, ctx) is None,
            additive_before(convention, ctx, window, span as int, from as int, from as int),
        decreases longest + 1 - span,
    {
        let mut x: i64 = from;
        while x <= to - span
            invariant
                from == window.from.spec_serial(),
                to == window.to.spec_serial(),
                crate::date::min_serial() <= from <= to <= crate::date::max_serial(),
                longest == max_span(window),
                0 <= span <= longest <= to - from,
                from <= x <= to - span + 1,
                ctx == *context,
                terms_error(convention, ctx) is None,
                longest >= 1 ==> period_error(convention, ctx) is None,
                additive_before(convention, ctx, window, span as int, x as int, x as int),
            decreases to - span + 1 - x,
        {
            let z = x + span;
            let a = match Date::from_serial(x) {
                Ok(d) => d,
                Err(e) => {
                    proof {
                        assert(false);
                    }
                    return Err(e);
                },
            };
            let c = match Date::from_serial(z) {
                Ok(d) => d,
                Err(e) => {
                    proof {
                        assert(false);
                    }
                    return Err(e);
                },
            };
            // The calls bring the dates' validity into the proof.
            let _ = a.serial();
            let _ = c.serial();
            proof {
                lemma_date_at(a);
                lemma_date_at(c);
            }
            let whole = value_over(convention, context, a, c);
            let mut y: i64 = x;
            while y <= z
                invariant
                    from == window.from.spec_serial(),
                    to == window.to.spec_serial(),
                    crate::date::min_serial() <= from <= to <= crate::date::max_serial(),
                    longest == max_span(window),
                    0 <= span <= longest <= to - from,
                    from <= x <= to - span,
                    z == x + span,
                    x <= y <= z + 1,
                    a == date_at(x as int),
                    c == date_at(z as int),
                    a.spec_serial() == x,
                    c.spec_serial() == z,
                    in_calendar(a),
                    in_calendar(c),
                    whole.equals_fraction(
                        value_at(convention, ctx, x as int, z as int).0,
                        value_at(convention, ctx, x as int, z as int).1,
                    ),
                    value_at(convention, ctx, x as int, z as int).1 > 0,
                    ctx == *context,
                    terms_error(convention, ctx) is None,
                    longest >= 1 ==> period_error(convention, ctx) is None,
                    additive_before(convention, ctx, window, span as int, x as int, y as int),
                decreases z + 1 - y,
            {
                let b = match Date::from_serial(y) {
                    Ok(d) => d,
                    Err(e) => {
                        proof {
                            assert(false);
                        }
                        return Err(e);
                    },
                };
                let _ = b.serial();
                proof {
                    lemma_date_at(b);
                }
                let (sum_of_parts, agree) = check_triple(convention, context, a, b, c, whole);
                if !agree {
                    let cx = AdditivityCounterexample { a, b, c, whole, sum_of_parts };
                    proof {
                        assert(in_search(window, span as int, x as int, y as int));
                    }
                    return Ok(Some(cx));
                }
                proof {
                    assert(additive_before(convention, ctx, window, span as int, x as int, y + 1)) by {
                        assert(additive_at(convention, ctx, x as int, y as int, x + span));
                    }
                }
                y = y + 1;
            }
            proof {
                assert(additive_before(convention, ctx, window, span as int, x + 1, x + 1)) by {
                    assert forall|sp: int, x2: int, y2: int|
                        in_search(window, sp, x2, y2) && searched_before(sp, x2, y2, span as int, x + 1, x + 1)
                        implies #[trigger] additive_at(convention, ctx, x2, y2, x2 + sp) by {
                        assert(searched_before(sp, x2, y2, span as int, x as int, y as int));
                    }
                }
            }
            x = x + 1;
        }
        proof {
            assert(additive_before(convention, ctx, window, span + 1, from as int, from as int)) by {
                assert forall|sp: int, x2: int, y2: int|
                    in_search(window, sp, x2, y2) && searched_before(sp, x2, y2, span + 1, from as int, from as int)
                    implies #[trigger] additive_at(convention, ctx, x2, y2, x2 + sp) by {
                    assert(searched_before(sp, x2, y2, span as int, x as int, x as int));
                }
            }
        }
        span = span + 1;
    }
    proof {
        assert forall|sp: int, x: int, y: int| in_search(window, sp, x, y) implies additive_at(
            convention,
            ctx,
            x,
            y,
            x + sp,
        ) by {
            assert(searched_before(sp, x, y, span as int, from as int, from as int));
        }
    }
    Ok(None)
}

// ---------------------------------------------------------------------------
// Laws

/// A convention never disagrees with itself: comparing it with itself finds
/// no differing period and no group.
pub proof fn lemma_identical_conventions_agree(c: Convention, ctx: Context, w: Window, rep: Report)
    requires
        report_holds(c, c, ctx, w, rep),
    ensures
        rep.differing == 0,
        rep.groups@.len() == 0,
{
    let t = w.to.spec_serial();
    assert forall|s: int, e: int| scanned(w, t, t, s, e) implies !#[trigger] counted(
        c,
        c,
        ctx,
        Tally::Differing,
        s,
        e,
    ) by {
        let v = outcome(c, ctx, s, e).0;
        assert(same_value(v, v));
    }
    if w.from.spec_serial() <= t {
        lemma_seen_zero(c, c, ctx, w, Tally::Differing, t, t);
    }
    if rep.groups@.len() > 0 {
        let g = rep.groups@[0];
        assert(group_holds(c, c, ctx, w, g, t, t));
        let xs = g.example.start.spec_serial();
        let xe = g.example.end.spec_serial();
        let v = outcome(c, ctx, xs, xe).0;
        assert(same_value(v, v));
    }
}

/// The example values of two groups of one key are the same rational: both
/// equal the value of the same period, which is a real fraction because the
/// conventions differ on it.
proof fn lemma_same_example_value(x: Rational, y: Rational, o: (int, int), other: (int, int))
    requires
        x.in_lowest_terms(),
        y.in_lowest_terms(),
        x.equals_fraction(o.0, o.1),
        y.equals_fraction(o.0, o.1),
        !same_value(o, other) || !same_value(other, o),
    ensures
        x == y,
{
    let (xn, xd) = (x.numer() as int, x.denom() as int);
    let (yn, yd) = (y.numer() as int, y.denom() as int);
    if o.1 == 0 {
        assert(o.0 == 0) by (nonlinear_arith)
            requires
                xn * o.1 == o.0 * xd,
                o.1 == 0,
                xd > 0,
        ;
        assert(same_value(o, other) && same_value(other, o));
    }
    assert(xn * yd == yn * xd) by (nonlinear_arith)
        requires
            xn * o.1 == o.0 * xd,
            yn * o.1 == o.0 * yd,
            o.1 != 0,
    ;
    crate::rational::lemma_value_determines(x, y);
}

/// In a finished scan, the group of a key is determined by the key: its
/// count, and its example, the first of its periods in the example order.
proof fn lemma_group_determined(a: Convention, b: Convention, ctx: Context, w: Window, x: Group, y: Group)
    requires
        group_holds(a, b, ctx, w, x, w.to.spec_serial(), w.to.spec_serial()),
        group_holds(a, b, ctx, w, y, w.to.spec_serial(), w.to.spec_serial()),
        group_key(x) == group_key(y),
        x.only_a.bits() < 0x40_0000_0000,
        x.only_b.bits() < 0x40_0000_0000,
        y.only_a.bits() < 0x40_0000_0000,
        y.only_b.bits() < 0x40_0000_0000,
    ensures
        x == y,
{
    let t = w.to.spec_serial();
    let k = Tally::Keyed(x.only_a@, x.only_b@);
    Trace::lemma_view_injective(x.only_a, y.only_a);
    Trace::lemma_view_injective(x.only_b, y.only_b);
    let (xs, xe) = (x.example.start.spec_serial(), x.example.end.spec_serial());
    let (ys, ye) = (y.example.start.spec_serial(), y.example.end.spec_serial());
    assert(counted(a, b, ctx, k, ys, ye));
    assert(counted(a, b, ctx, k, xs, xe));
    assert(!earlier(ys, ye, xs, xe));
    assert(!earlier(xs, xe, ys, ye));
    assert(xs == ys && xe == ye);
    lemma_same_example_value(
        x.example.a,
        y.example.a,
        outcome(a, ctx, xs, xe).0,
        outcome(b, ctx, xs, xe).0,
    );
    lemma_same_example_value(
        x.example.b,
        y.example.b,
        outcome(b, ctx, xs, xe).0,
        outcome(a, ctx, xs, xe).0,
    );
    assert(x.example == y.example);
}

/// Two sequences in strict report order with the same groups are the same
/// sequence.
proof fn lemma_same_order(g1: Seq<Group>, g2: Seq<Group>, i: int)
    requires
        0 <= i <= g1.len(),
        i <= g2.len(),
        forall|p: int, q: int| 0 <= p < q < g1.len() ==> group_before(#[trigger] g1[p], #[trigger] g1[q]),
        forall|p: int, q: int| 0 <= p < q < g2.len() ==> group_before(#[trigger] g2[p], #[trigger] g2[q]),
        forall|p: int| 0 <= p < g1.len() ==> g2.contains(#[trigger] g1[p]),
        forall|q: int| 0 <= q < g2.len() ==> g1.contains(#[trigger] g2[q]),
        forall|k: int| 0 <= k < i ==> g1[k] == g2[k],
    ensures
        g1 == g2,
    decreases g1.len() + g2.len() - 2 * i,
{
    if i < g1.len() && i < g2.len() {
        let x = g1[i];
        let y = g2[i];
        assert(g2.contains(g1[i]) && g1.contains(g2[i]));
        let j = choose|q: int| 0 <= q < g2.len() && g2[q] == #[trigger] g1[i];
        let j2 = choose|p: int| 0 <= p < g1.len() && g1[p] == #[trigger] g2[i];
        if j < i {
            assert(g1[j] == g2[j]);
            assert(group_before(g1[j], g1[i]));
        }
        if j2 < i {
            assert(g1[j2] == g2[j2]);
            assert(group_before(g2[j2], g2[i]));
        }
        if j > i && j2 > i {
            assert(group_before(g2[i], g2[j]));
            assert(group_before(g1[i], g1[j2]));
        }
        assert(x == y);
        lemma_same_order(g1, g2, i + 1);
    } else if i < g1.len() {
        assert(g2.contains(g1[i]));
        let j = choose|q: int| 0 <= q < g2.len() && g2[q] == #[trigger] g1[i];
        assert(g1[j] == g2[j]);
        assert(group_before(g1[j], g1[i]));
    } else if i < g2.len() {
        assert(g1.contains(g2[i]));
        let j = choose|p: int| 0 <= p < g1.len() && g1[p] == #[trigger] g2[i];
        assert(g1[j] == g2[j]);
        assert(group_before(g2[j], g2[i]));
    } else {
        assert(g1 =~= g2);
    }
}

/// A report is determined by what it compares: two reports that hold for
/// the same conventions, deal terms and window have the same counts and the
/// same groups, in the same order, with the same examples. So the report
/// does not depend on how the window's start dates were split into scans,
/// nor on the order in which the scans were merged.
pub proof fn lemma_report_determined(a: Convention, b: Convention, ctx: Context, w: Window, r1: Report, r2: Report)
    requires
        report_holds(a, b, ctx, w, r1),
        report_holds(a, b, ctx, w, r2),
    ensures
        r1.a == r2.a,
        r1.b == r2.b,
        r1.pairs_checked == r2.pairs_checked,
        r1.differing == r2.differing,
        r1.groups@ == r2.groups@,
{
    let t = w.to.spec_serial();
    let (g1, g2) = (r1.groups@, r2.groups@);
    assert forall|p: int| 0 <= p < g1.len() implies g2.contains(#[trigger] g1[p]) by {
        let x = g1[p];
        assert(group_holds(a, b, ctx, w, x, t, t));
        let (s, e) = (x.example.start.spec_serial(), x.example.end.spec_serial());
        assert(counted(a, b, ctx, Tally::Keyed(x.only_a@, x.only_b@), s, e));
        assert(in_window(w, s, e) && differs(a, b, ctx, s, e));
        let q = choose|q: int| 0 <= q < g2.len() && group_key(#[trigger] g2[q]) == split_key(a, b, ctx, s, e);
        assert(group_holds(a, b, ctx, w, g2[q], t, t));
        lemma_group_determined(a, b, ctx, w, x, g2[q]);
        assert(0 <= q < g2.len() && g2[q] == g1[p]);
    }
    assert forall|q: int| 0 <= q < g2.len() implies g1.contains(#[trigger] g2[q]) by {
        let y = g2[q];
        assert(group_holds(a, b, ctx, w, y, t, t));
        let (s, e) = (y.example.start.spec_serial(), y.example.end.spec_serial());
        assert(counted(a, b, ctx, Tally::Keyed(y.only_a@, y.only_b@), s, e));
        assert(in_window(w, s, e) && differs(a, b, ctx, s, e));
        let p = choose|p: int| 0 <= p < g1.len() && group_key(#[trigger] g1[p]) == split_key(a, b, ctx, s, e);
        assert(group_holds(a, b, ctx, w, g1[p], t, t));
        lemma_group_determined(a, b, ctx, w, y, g1[p]);
        assert(0 <= p < g1.len() && g1[p] == g2[q]);
    }
    lemma_same_order(g1, g2, 0);
}

proof fn lemma_row_all(a: Convention, b: Convention, ctx: Context, s: int, hi: int)
    requires
        s <= hi,
    ensures
        row_tally(a, b, ctx, Tally::All, s, hi) == hi - s,
    decreases hi - s,
{
    if hi > s {
        lemma_row_all(a, b, ctx, s, hi - 1);
    }
}

/// Without a length limit, a window of `n` days past its first date holds
/// every pair `from <= start < end <= to`: `n * (n + 1) / 2` periods.
pub proof fn lemma_pair_count(a: Convention, b: Convention, ctx: Context, w: Window, s_hi: int)
    requires
        w.max_days is None,
        w.from.spec_serial() <= s_hi <= w.to.spec_serial(),
    ensures
        ({
            let n = w.to.spec_serial() - w.from.spec_serial();
            let m = s_hi - w.from.spec_serial();
            2 * tally(a, b, ctx, w, Tally::All, s_hi) == m * (2 * n + 1 - m)
        }),
    decreases s_hi - w.from.spec_serial(),
{
    let f = w.from.spec_serial();
    let t = w.to.spec_serial();
    if s_hi == f {
        assert(0 * (2 * (t - f) + 1 - 0) == 0) by (nonlinear_arith);
    } else {
        lemma_pair_count(a, b, ctx, w, s_hi - 1);
        assert(last_end(w, s_hi - 1) == t);
        assert(tally(a, b, ctx, w, Tally::All, s_hi) == tally(a, b, ctx, w, Tally::All, s_hi - 1) + row_tally(
            a,
            b,
            ctx,
            Tally::All,
            s_hi - 1,
            t,
        ));
        lemma_row_all(a, b, ctx, s_hi - 1, t);
        let n = t - f;
        let m = s_hi - f;
        assert(m * (2 * n + 1 - m) == (m - 1) * (2 * n + 1 - (m - 1)) + 2 * (t - (s_hi - 1)))
            by (nonlinear_arith)
            requires
                n == t - f,
                m == s_hi - f,
        ;
    }
}

} // verus!
