# stubfrac

Day-count year fractions as exact rationals, with a trace of the rule
branches each result took, ICMA and Canadian reference periods, and an
enumerator of the date pairs where two conventions disagree. The library is
written in Verus: every function under `src/` carries a contract that Verus
proves.

## Layout

- `src/rational.rs`: `Rational`, an `i64` fraction always in lowest terms;
  exact addition and subtraction that report `Overflow`; decimal rendering.
- `src/date.rs`: proleptic Gregorian dates, serial day numbers, parsing and
  formatting of `YYYY-MM-DD`.
- `src/schedule.rs`: coupon schedules in closed form (roll date `k` from one
  anchor), the period holding a date, and the pieces of an accrual period.
- `src/convention.rs`: the twelve conventions, `Trace`, `year_fraction`, and
  the laws the conventions obey (additivity, whole periods, stubs, signs).
- `src/disagree.rs`: the disagreement map between two conventions, scans over
  ranges of start dates that merge, and the search for failures of
  additivity.
- `src/text.rs`: decimal rendering of integers.
- `app/main.rs`: the command line (`list`, `frac`, `disagree`, `additive`);
  it runs the scans of `disagree` on worker threads.
- `tests/`: scenarios from the published examples, the exhaustive run over
  2019 to 2021, and checks of each law on concrete values.

## What the contracts say

`year_fraction` returns exactly the value and branches of a specification
written per convention, or the first failed check as an error. `disagree`
returns, for every key of branches taken by one side only, the number of
differing periods and the first of them by length then start, sorted by
count; `find_additivity_counterexample` returns the first triple that fails
additivity in search order. The proof functions named `lemma_*` in
`convention.rs`, `schedule.rs`, `date.rs` and `disagree.rs` state the laws:
among them, ACT/360, ACT/365F, NL/365, 30E/360, ACT/ACT ISDA and ACT/ACT
ICMA are additive; `n` whole reference periods are worth `n/f`; a stub
inside one reference period follows the ICMA and Canadian formulas; periods
in order never have negative values; ACT/ACT ISDA equals a day-by-day
count; 30/360 Bond Basis and 30E/360 differ exactly on periods that end
on a 31st and start before the 30th; formatting and parsing of dates, and of convention ids and names,
undo each other; a `Rational` value has one lowest-terms form; and a
disagreement report is determined by what it compares, so it does not depend
on how the start dates were split into scans.
