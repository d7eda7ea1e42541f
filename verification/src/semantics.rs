//! What a plan means: the results and asserted triples that running it
//! yields, stated over the models of its indexes and slots.

use vstd::prelude::*;
use crate::order::value_lt;
use crate::plan::{ConstraintView, Function, LoHi};
use crate::value::ValueView;

verus! {

/// What a run emits: the values of the result rows, one after the other, and
/// the asserted triples.
pub struct Output {
    pub results: Seq<ValueView>,
    pub asserts: Seq<(ValueView, ValueView, ValueView)>,
}

/// Why a run is abandoned.
pub enum Fault {
    /// A sum was asked of two values that are not both integers.
    TypeError(ValueView, ValueView),
}

/// The output of a branch that yields nothing.
pub open spec fn nothing() -> Output {
    Output { results: Seq::empty(), asserts: Seq::empty() }
}

/// The output of `first` followed by that of `rest`; the first fault wins.
pub open spec fn then(first: Result<Output, Fault>, rest: Result<Output, Fault>) -> Result<
    Output,
    Fault,
> {
    match first {
        Err(e) => Err(e),
        Ok(a) => match rest {
            Err(e) => Err(e),
            Ok(b) => Ok(
                Output { results: a.results + b.results, asserts: a.asserts + b.asserts },
            ),
        },
    }
}

/// `x` lies before the probe value `v`: strictly, or allowing equality.
pub open spec fn before(x: ValueView, v: ValueView, strict: bool) -> bool {
    if strict {
        value_lt(x, v)
    } else {
        value_lt(x, v) || x == v
    }
}

/// The first position in `lo..hi` whose value does not lie before `v`, or
/// `hi` if there is none (`lo` where the range is empty).
pub open spec fn first_fail(col: Seq<ValueView>, lo: int, hi: int, v: ValueView, strict: bool) -> int
    decreases hi - lo,
{
    if lo >= hi {
        lo
    } else if !before(col[lo], v, strict) {
        lo
    } else {
        first_fail(col, lo + 1, hi, v, strict)
    }
}

/// The part of `range` in which a sorted column holds `v`.
pub open spec fn narrow(col: Seq<ValueView>, range: LoHi, v: ValueView) -> (int, int) {
    let lo = first_fail(col, range.0 as int, range.1 as int, v, true);
    let hi = first_fail(col, lo, range.1 as int, v, false);
    (lo, hi)
}

/// `first_fail` stays within the range it searches.
pub proof fn lemma_first_fail_bounds(col: Seq<ValueView>, lo: int, hi: int, v: ValueView, strict: bool)
    ensures
        lo <= first_fail(col, lo, hi, v, strict),
        lo <= hi ==> first_fail(col, lo, hi, v, strict) <= hi,
        lo >= hi ==> first_fail(col, lo, hi, v, strict) == lo,
    decreases hi - lo,
{
    if lo < hi && before(col[lo], v, strict) {
        lemma_first_fail_bounds(col, lo + 1, hi, v, strict);
    }
}

/// What a built-in function yields on the current slots.
pub open spec fn apply_spec(function: Function, vars: Seq<ValueView>) -> Result<ValueView, Fault> {
    match function {
        Function::Add(a, b) => match (vars[a as int], vars[b as int]) {
            (ValueView::Integer(x), ValueView::Integer(y)) => Ok(
                ValueView::Integer(x.wrapping_add(y)),
            ),
            (x, y) => Err(Fault::TypeError(x, y)),
        },
    }
}

/// The values of the named slots, in order.
pub open spec fn row_of(named: Seq<(Seq<char>, usize)>, vars: Seq<ValueView>) -> Seq<ValueView> {
    named.map_values(|n: (Seq<char>, usize)| vars[n.1 as int])
}

/// What running the program `cs` yields from the given indexes, ranges and
/// slot values.
pub open spec fn run_spec(
    cs: Seq<ConstraintView>,
    idx: Seq<Seq<Seq<ValueView>>>,
    ranges: Seq<LoHi>,
    vars: Seq<ValueView>,
) -> Result<Output, Fault>
    decreases cs.len(), 2int, 0int,
{
    if cs.len() == 0 {
        Ok(nothing())
    } else {
        let rest = cs.drop_first();
        match cs[0] {
            ConstraintView::Narrow((row, col), slot) => {
                let (lo, hi) = narrow(idx[row as int][col as int], ranges[row as int], vars[slot as int]);
                if lo < hi {
                    run_spec(rest, idx, ranges.update(row as int, (lo as usize, hi as usize)), vars)
                } else {
                    Ok(nothing())
                }
            },
            ConstraintView::Join(rowcols, slot) => join_spec(
                cs,
                idx,
                ranges,
                vars,
                ranges[rowcols[0].0 as int].0 as int,
            ),
            ConstraintView::Apply(slot, fixed, function) => match apply_spec(function, vars) {
                Err(e) => Err(e),
                Ok(r) => if !fixed {
                    run_spec(rest, idx, ranges, vars.update(slot as int, r))
                } else if vars[slot as int] == r {
                    run_spec(rest, idx, ranges, vars)
                } else {
                    Ok(nothing())
                },
            },
            ConstraintView::Assert(a, b, c) => then(
                Ok(
                    Output {
                        results: Seq::empty(),
                        asserts: seq![(vars[a as int], vars[b as int], vars[c as int])],
                    },
                ),
                run_spec(rest, idx, ranges, vars),
            ),
            ConstraintView::Debug(named) => then(
                Ok(Output { results: row_of(named, vars), asserts: Seq::empty() }),
                run_spec(rest, idx, ranges, vars),
            ),
        }
    }
}

/// What a join at the head of `cs` yields from position `lo` of its leading
/// column on: the branch of the value found there, then those of the
/// greater values.
pub open spec fn join_spec(
    cs: Seq<ConstraintView>,
    idx: Seq<Seq<Seq<ValueView>>>,
    ranges: Seq<LoHi>,
    vars: Seq<ValueView>,
    lo: int,
) -> Result<Output, Fault>
    decreases cs.len(), 1int, join_end(cs, ranges) - lo,
{
    if cs.len() > 0 && cs[0] is Join && lo < join_end(cs, ranges) {
        let (row, col) = cs[0]->Join_0[0];
        let column = idx[row as int][col as int];
        let v = column[lo];
        let hi = first_fail(column, lo + 1, join_end(cs, ranges), v, false);
        proof {
            lemma_first_fail_bounds(column, lo + 1, join_end(cs, ranges), v, false);
        }
        then(
            probe_spec(cs, idx, ranges.update(row as int, (lo as usize, hi as usize)), vars, 1, v),
            join_spec(cs, idx, ranges, vars, hi),
        )
    } else {
        Ok(nothing())
    }
}

/// Where the range of the leading row of the join at the head of `cs` ends.
pub open spec fn join_end(cs: Seq<ConstraintView>, ranges: Seq<LoHi>) -> int {
    ranges[cs[0]->Join_0[0].0 as int].1 as int
}

/// What the branch of a join yields for the value `v`, once the first `i`
/// of its columns are known to hold it: the other columns are probed in
/// turn, and if all hold `v` the slot takes it and the rest of the program
/// runs.
pub open spec fn probe_spec(
    cs: Seq<ConstraintView>,
    idx: Seq<Seq<Seq<ValueView>>>,
    ranges: Seq<LoHi>,
    vars: Seq<ValueView>,
    i: int,
    v: ValueView,
) -> Result<Output, Fault>
    decreases cs.len(), 0int, cs[0]->Join_0.len() - i,
{
    if cs.len() > 0 && cs[0] is Join {
        let rowcols = cs[0]->Join_0;
        if i >= rowcols.len() {
            run_spec(cs.drop_first(), idx, ranges, vars.update(cs[0]->Join_1 as int, v))
        } else {
            let (row, col) = rowcols[i];
            let (lo, hi) = narrow(idx[row as int][col as int], ranges[row as int], v);
            if lo < hi {
                probe_spec(
                    cs,
                    idx,
                    ranges.update(row as int, (lo as usize, hi as usize)),
                    vars,
                    i + 1,
                    v,
                )
            } else {
                Ok(nothing())
            }
        }
    } else {
        Ok(nothing())
    }
}

} // verus!
