//! The executor: a backtracking run of a plan over sorted indexes.

use vstd::prelude::*;
use vstd::slice::slice_subrange;
use crate::gallop::{computes, gallop, monotone, parts};
use crate::order::{value_lt, Order};
use crate::bag::Bag;
use crate::index::{build_index, index_spec, is_ordering, lemma_index_rows, lift, Triple};
use crate::plan::{
    constraints_view, values_view, Block, BlockView, Constraint, ConstraintView, Function, LoHi,
    RowCol,
};
use crate::semantics::{
    apply_spec, before, first_fail, join_spec, narrow, nothing, probe_spec, row_of, run_spec, then,
    Fault, Output,
};
use crate::shape::{
    aligned, lemma_sorted_prefix, ascending, cols_of, constraint_ok, lemma_first_fail_is_part,
    lemma_first_fail_parts, lemma_narrow_exact, lemma_ready_step, lemma_sorted_ascending, probes,
    program_ok, ready, sorted_on, state_ok,
};
use crate::value::{clone_value, compare_values, Value, ValueView};

verus! {

/// Why a run was abandoned.
#[derive(Debug)]
pub enum RunError {
    /// A sum was asked of two values that are not both integers.
    TypeError(Value, Value),
}

impl View for RunError {
    type V = Fault;

    open spec fn view(&self) -> Fault {
        match *self {
            RunError::TypeError(a, b) => Fault::TypeError(a@, b@),
        }
    }
}

/// The sorted columns of one row: column `c` holds, at each position, the
/// value that the triple there has in column `c`.
pub type Index = [Vec<Value>; 3];

/// The model of one index.
pub open spec fn index_view(index: Index) -> Seq<Seq<ValueView>> {
    index@.map_values(|c: Vec<Value>| values_view(c@))
}

/// The models of the indexes of all rows.
pub open spec fn indexes_view(indexes: Seq<Index>) -> Seq<Seq<Seq<ValueView>>> {
    indexes.map_values(|x: Index| index_view(x))
}

/// The models of a list of triples.
pub open spec fn triples_view(ts: Seq<[Value; 3]>) -> Seq<(ValueView, ValueView, ValueView)> {
    ts.map_values(|t: [Value; 3]| (t[0]@, t[1]@, t[2]@))
}

/// How a call that was to yield `outcome` leaves its caller: on success
/// the ranges and slots are as before and the output has been appended; on
/// a fault the error tells it.
pub open spec fn effect(
    outcome: Result<Output, Fault>,
    r: Result<(), RunError>,
    ranges0: Seq<LoHi>,
    ranges1: Seq<LoHi>,
    vars0: Seq<Value>,
    vars1: Seq<Value>,
    results0: Seq<Value>,
    results1: Seq<Value>,
    asserts0: Seq<[Value; 3]>,
    asserts1: Seq<[Value; 3]>,
) -> bool {
    match outcome {
        Ok(out) => {
            &&& r is Ok
            &&& ranges1 == ranges0
            &&& vars1.len() == vars0.len()
            &&& values_view(vars1) == values_view(vars0)
            &&& values_view(results1) == values_view(results0) + out.results
            &&& triples_view(asserts1) == triples_view(asserts0) + out.asserts
        },
        Err(fault) => r matches Err(e) && e@ == fault,
    }
}

impl Function {
    /// Computes the function on the current values of the slots.
    pub fn apply(&self, variables: &Vec<Value>) -> (r: Result<Value, RunError>)
        requires
            match *self {
                Function::Add(a, b) => a < variables@.len() && b < variables@.len(),
            },
        ensures
            match apply_spec(*self, values_view(variables@)) {
                Ok(v) => r matches Ok(x) && x@ == v,
                Err(fault) => r matches Err(e) && e@ == fault,
            },
    {
        match self {
            Function::Add(a, b) => {
                match (&variables[*a], &variables[*b]) {
                    (Value::Integer(x), Value::Integer(y)) => Ok(Value::Integer(x.wrapping_add(*y))),
                    (x, y) => Err(RunError::TypeError(clone_value(x), clone_value(y))),
                }
            },
        }
    }
}

/// Finds the first position in `lo..hi` of an ascending column whose value
/// does not lie before `value`.
pub fn seek(column: &Vec<Value>, lo: usize, hi: usize, value: &Value, strict: bool) -> (r: usize)
    requires
        lo < hi ==> hi <= column@.len(),
        ascending(values_view(column@), lo as int, hi as int),
    ensures
        r == first_fail(values_view(column@), lo as int, hi as int, value@, strict),
{
    let f = |x: &Value| -> (b: bool)
        ensures
            b == before(x@, value@, strict),
        {
            match compare_values(x, value) {
                Order::Less => true,
                Order::Equal => !strict,
                Order::Greater => false,
            }
        };
    let r = gallop(column.as_slice(), lo, hi, f);
    proof {
        let col = values_view(column@);
        let p = |x: Value| before(x@, value@, strict);
        assert(computes(f, p));
        crate::shape::lemma_before_monotone(col, lo as int, hi as int, value@, strict);
        assert(monotone(p, column@, lo as int, hi as int)) by {
            assert forall|i: int, j: int|
                lo <= i <= j < hi && #[trigger] p(column@[j]) implies #[trigger] p(column@[i]) by {
                assert(before(col[j], value@, strict));
                assert(before(col[i], value@, strict));
            }
        }
        assert(parts(p, column@, lo as int, hi as int, r as int));
        assert forall|i: int| lo <= i < r implies before(#[trigger] col[i], value@, strict) by {
            assert(p(column@[i]));
        }
        if r < hi {
            assert(!p(column@[r as int]));
        }
        lemma_first_fail_is_part(col, lo as int, hi as int, value@, strict, r as int);
    }
    r
}

/// Finds the part of `lo..hi` in which an ascending column holds `value`.
pub fn equal_range(column: &Vec<Value>, lo: usize, hi: usize, value: &Value) -> (r: LoHi)
    requires
        lo < hi ==> hi <= column@.len(),
        ascending(values_view(column@), lo as int, hi as int),
    ensures
        (r.0 as int, r.1 as int) == narrow(values_view(column@), (lo, hi), value@),
{
    let from = seek(column, lo, hi, value, true);
    proof {
        lemma_first_fail_parts(values_view(column@), lo as int, hi as int, value@, true);
    }
    let to = seek(column, from, hi, value, false);
    (from, to)
}

/// The columns still to be searched once the join at the head of `cs` has
/// searched the first `i` of its own.
pub open spec fn pending_at(cs: Seq<ConstraintView>, i: int) -> Seq<RowCol> {
    cs[0]->Join_0.skip(i) + probes(cs.drop_first())
}

/// Appending nothing changes nothing.
pub proof fn lemma_then_nothing(x: Result<Output, Fault>)
    ensures
        then(Ok(nothing()), x) == x,
        then(x, Ok(nothing())) == x,
{
    if let Ok(out) = x {
        assert(Seq::<ValueView>::empty() + out.results =~= out.results);
        assert(Seq::<(ValueView, ValueView, ValueView)>::empty() + out.asserts =~= out.asserts);
        assert(out.results + Seq::<ValueView>::empty() =~= out.results);
        assert(out.asserts + Seq::<(ValueView, ValueView, ValueView)>::empty() =~= out.asserts);
    }
}

/// Outputs are appended associatively.
pub proof fn lemma_then_assoc(a: Output, b: Output, x: Result<Output, Fault>)
    ensures
        then(Ok(a), then(Ok(b), x)) == then(
            Ok(Output { results: a.results + b.results, asserts: a.asserts + b.asserts }),
            x,
        ),
{
    if let Ok(c) = x {
        assert(a.results + (b.results + c.results) =~= (a.results + b.results) + c.results);
        assert(a.asserts + (b.asserts + c.asserts) =~= (a.asserts + b.asserts) + c.asserts);
    }
}

/// The model of the column `col` of row `row`.
pub proof fn lemma_column_view(indexes: Seq<Index>, row: int, col: int)
    requires
        0 <= row < indexes.len(),
        0 <= col < 3,
    ensures
        indexes_view(indexes)[row][col] == values_view(indexes[row]@[col]@),
        indexes_view(indexes)[row].len() == 3,
{
}

/// Runs the program `constraints` from the current ranges and slot values,
/// appending the result rows to `results` and the asserted triples to
/// `asserts`. Each branch restores the ranges and slots it changed, so on
/// success both are as they were. A fault ends the run at once; what has
/// been appended by then is of no use.
pub fn constrain(
    constraints: &[Constraint],
    indexes: &Vec<Index>,
    ranges: &mut Vec<LoHi>,
    variables: &mut Vec<Value>,
    results: &mut Vec<Value>,
    asserts: &mut Vec<[Value; 3]>,
) -> (r: Result<(), RunError>)
    requires
        program_ok(
            constraints_view(constraints@),
            indexes@.len() as int,
            old(variables)@.len() as int,
        ),
        state_ok(indexes_view(indexes@), old(ranges)@),
        ready(probes(constraints_view(constraints@)), indexes_view(indexes@), old(ranges)@),
    ensures
        effect(
            run_spec(
                constraints_view(constraints@),
                indexes_view(indexes@),
                old(ranges)@,
                values_view(old(variables)@),
            ),
            r,
            old(ranges)@,
            final(ranges)@,
            old(variables)@,
            final(variables)@,
            old(results)@,
            final(results)@,
            old(asserts)@,
            final(asserts)@,
        ),
    decreases constraints@.len(), 1int, 0int,
{
    let ghost cs = constraints_view(constraints@);
    let ghost idx = indexes_view(indexes@);
    let ghost ranges0 = ranges@;
    let ghost vars0 = values_view(variables@);
    let ghost total = run_spec(cs, idx, ranges0, vars0);
    if constraints.len() == 0 {
        proof {
            lemma_then_nothing(total);
            assert(values_view(results@) + nothing().results =~= values_view(results@));
            assert(triples_view(asserts@) + nothing().asserts =~= triples_view(asserts@));
        }
        return Ok(());
    }
    let rest = slice_subrange(constraints, 1, constraints.len());
    proof {
        assert(constraints_view(rest@) =~= cs.drop_first());
        assert(constraint_ok(cs[0], indexes@.len() as int, variables@.len() as int));
        assert forall|i: int| 0 <= i < cs.drop_first().len() implies constraint_ok(
            #[trigger] cs.drop_first()[i],
            indexes@.len() as int,
            variables@.len() as int,
        ) by {
            assert(cs.drop_first()[i] == cs[i + 1]);
        }
        assert(values_view(results@) + nothing().results =~= values_view(results@));
        assert(triples_view(asserts@) + nothing().asserts =~= triples_view(asserts@));
    }
    match &constraints[0] {
        Constraint::Narrow((row, col), slot) => {
            let row = *row;
            let col = *col;
            let (old_lo, old_hi) = ranges[row];
            let column = &indexes[row][col];
            proof {
                lemma_column_view(indexes@, row as int, col as int);
                assert(probes(cs)[0] == (row, col));
                assert(sorted_on(
                    idx[row as int],
                    cols_of(probes(cs), row as int),
                    old_lo as int,
                    old_hi as int,
                ));
                lemma_sorted_ascending(
                    idx[row as int],
                    cols_of(probes(cs), row as int),
                    old_lo as int,
                    old_hi as int,
                );
                lemma_narrow_exact(idx[row as int][col as int], (old_lo, old_hi), vars0[*slot as int]);
            }
            let (lo, hi) = equal_range(column, old_lo, old_hi, &variables[*slot]);
            if lo < hi {
                proof {
                    lemma_ready_step(probes(cs), idx, ranges0, lo, hi);
                    assert(probes(cs).drop_first() =~= probes(cs.drop_first()));
                }
                ranges.set(row, (lo, hi));
                match constrain(rest, indexes, ranges, variables, results, asserts) {
                    Err(e) => {
                        return Err(e);
                    },
                    Ok(()) => {},
                }
                ranges.set(row, (old_lo, old_hi));
                assert(ranges@ =~= ranges0);
            }
            Ok(())
        },
        Constraint::Join(rowcols, slot) => {
            let (row, col) = rowcols[0];
            let (old_lo, old_hi) = ranges[row];
            let column = &indexes[row][col];
            let ghost mut done = nothing();
            proof {
                lemma_column_view(indexes@, row as int, col as int);
                assert(probes(cs)[0] == (row, col));
                assert(sorted_on(
                    idx[row as int],
                    cols_of(probes(cs), row as int),
                    old_lo as int,
                    old_hi as int,
                ));
                lemma_sorted_ascending(
                    idx[row as int],
                    cols_of(probes(cs), row as int),
                    old_lo as int,
                    old_hi as int,
                );
                lemma_then_nothing(total);
            }
            let mut lo = old_lo;
            while lo < old_hi
                invariant
                    constraints@.len() > 0,
                    cs == constraints_view(constraints@),
                    idx == indexes_view(indexes@),
                    cs[0] == ConstraintView::Join(rowcols@, *slot),
                    rowcols@.len() > 0,
                    rowcols@[0] == (row, col),
                    row < indexes@.len(),
                    col < 3,
                    program_ok(cs, indexes@.len() as int, variables@.len() as int),
                    state_ok(idx, ranges0),
                    ready(probes(cs), idx, ranges0),
                    ranges0[row as int] == (old_lo, old_hi),
                    ranges@ == ranges0,
                    old_lo <= lo,
                    old_hi <= column@.len(),
                    idx[row as int][col as int] == values_view(column@),
                    ascending(values_view(column@), old_lo as int, old_hi as int),
                    values_view(variables@) == vars0,
                    variables@.len() == old(variables)@.len(),
                    ranges0 == old(ranges)@,
                    vars0 == values_view(old(variables)@),
                    total == run_spec(cs, idx, ranges0, vars0),
                    total == then(Ok(done), join_spec(cs, idx, ranges0, vars0, lo as int)),
                    values_view(results@) == values_view(old(results)@) + done.results,
                    triples_view(asserts@) == triples_view(old(asserts)@) + done.asserts,
                decreases old_hi - lo,
            {
                let value = &column[lo];
                let ghost colv = values_view(column@);
                proof {
                    lemma_first_fail_parts(colv, lo + 1, old_hi as int, value@, false);
                }
                let hi = seek(column, lo + 1, old_hi, value, false);
                proof {
                    assert forall|i: int| lo <= i < hi implies #[trigger] idx[row as int][col as int][i]
                        == idx[row as int][col as int][lo as int] by {
                        if i > lo {
                            assert(before(colv[i], value@, false));
                            assert(!value_lt(colv[i], colv[lo as int]));
                        }
                    }
                    lemma_ready_step(probes(cs), idx, ranges0, lo, hi);
                    assert(probes(cs).drop_first() =~= pending_at(cs, 1));
                }
                ranges.set(row, (lo, hi));
                let ghost first = probe_spec(cs, idx, ranges@, vars0, 1, value@);
                proof {
                    assert(join_spec(cs, idx, ranges0, vars0, lo as int) == then(
                        first,
                        join_spec(cs, idx, ranges0, vars0, hi as int),
                    ));
                }
                match join_rest(constraints, indexes, ranges, variables, results, asserts, 1, value) {
                    Err(e) => {
                        proof {
                            assert(first is Err);
                            assert(total == Err::<Output, Fault>(first->Err_0));
                        }
                        return Err(e);
                    },
                    Ok(()) => {},
                }
                ranges.set(row, (old_lo, old_hi));
                proof {
                    assert(ranges@ =~= ranges0);
                    lemma_then_assoc(
                        done,
                        first->Ok_0,
                        join_spec(cs, idx, ranges0, vars0, hi as int),
                    );
                    done =
                    Output {
                        results: done.results + first->Ok_0.results,
                        asserts: done.asserts + first->Ok_0.asserts,
                    };
                    assert(values_view(results@) =~= values_view(old(results)@) + done.results);
                    assert(triples_view(asserts@) =~= triples_view(old(asserts)@) + done.asserts);
                }
                lo = hi;
            }
            proof {
                lemma_then_nothing(Ok(done));
            }
            Ok(())
        },
        Constraint::Apply(slot, fixed, function) => {
            let value = match function.apply(variables) {
                Err(e) => {
                    return Err(e);
                },
                Ok(v) => v,
            };
            if *fixed {
                let same = match compare_values(&variables[*slot], &value) {
                    Order::Equal => true,
                    _ => false,
                };
                proof {
                    crate::order::lemma_value_lt_irreflexive(value@);
                }
                if same {
                    constrain(rest, indexes, ranges, variables, results, asserts)
                } else {
                    Ok(())
                }
            } else {
                let saved = clone_value(&variables[*slot]);
                let ghost before_set = variables@;
                variables.set(*slot, value);
                proof {
                    assert(values_view(variables@) =~= vars0.update(*slot as int, value@));
                }
                match constrain(rest, indexes, ranges, variables, results, asserts) {
                    Err(e) => {
                        return Err(e);
                    },
                    Ok(()) => {},
                }
                let ghost mid = variables@;
                variables.set(*slot, saved);
                proof {
                    assert forall|k: int| 0 <= k < vars0.len() implies values_view(variables@)[k]
                        == vars0[k] by {
                        assert(values_view(mid)[k] == mid[k]@);
                    }
                    assert(values_view(variables@) =~= vars0);
                }
                Ok(())
            }
        },
        Constraint::Assert(slots) => {
            let triple = [
                clone_value(&variables[slots[0]]),
                clone_value(&variables[slots[1]]),
                clone_value(&variables[slots[2]]),
            ];
            let ghost head = Output {
                results: Seq::empty(),
                asserts: seq![
                    (vars0[slots[0] as int], vars0[slots[1] as int], vars0[slots[2] as int]),
                ],
            };
            asserts.push(triple);
            proof {
                assert(triples_view(asserts@) =~= triples_view(old(asserts)@) + head.asserts);
                assert(values_view(results@) =~= values_view(old(results)@) + head.results);
            }
            let ghost tail = run_spec(cs.drop_first(), idx, ranges0, vars0);
            match constrain(rest, indexes, ranges, variables, results, asserts) {
                Err(e) => {
                    return Err(e);
                },
                Ok(()) => {},
            }
            proof {
                let out = tail->Ok_0;
                assert(values_view(results@) =~= values_view(old(results)@) + (head.results
                    + out.results));
                assert(triples_view(asserts@) =~= triples_view(old(asserts)@) + (head.asserts
                    + out.asserts));
            }
            Ok(())
        },
        Constraint::Debug(named) => {
            let ghost row = row_of(crate::plan::named_view(named@), vars0);
            proof {
                assert forall|k: int| 0 <= k < named@.len() implies (#[trigger] named@[k]).1
                    < variables@.len() by {
                    assert(crate::plan::named_view(named@)[k].1 == named@[k].1);
                }
            }
            let mut i: usize = 0;
            while i < named.len()
                invariant
                    i <= named.len(),
                    values_view(variables@) == vars0,
                    row == row_of(crate::plan::named_view(named@), vars0),
                    forall|k: int| 0 <= k < named@.len() ==> (#[trigger] named@[k]).1 < variables@.len(),
                    values_view(results@) == values_view(old(results)@) + row.take(i as int),
                decreases named.len() - i,
            {
                let ghost prev = values_view(results@);
                let v = clone_value(&variables[named[i].1]);
                results.push(v);
                proof {
                    assert(vars0[named@[i as int].1 as int] == variables@[named@[i as int].1 as int]@);
                    assert(row.take(i + 1) =~= row.take(i as int).push(row[i as int]));
                    assert(values_view(results@) =~= prev.push(v@));
                    assert(values_view(results@) =~= values_view(old(results)@) + row.take(i + 1));
                }
                i += 1;
            }
            proof {
                assert(row.take(i as int) =~= row);
            }
            let ghost head = Output { results: row, asserts: Seq::empty() };
            let ghost tail = run_spec(cs.drop_first(), idx, ranges0, vars0);
            proof {
                assert(triples_view(asserts@) =~= triples_view(old(asserts)@) + head.asserts);
            }
            match constrain(rest, indexes, ranges, variables, results, asserts) {
                Err(e) => {
                    return Err(e);
                },
                Ok(()) => {},
            }
            proof {
                let out = tail->Ok_0;
                assert(values_view(results@) =~= values_view(old(results)@) + (head.results
                    + out.results));
                assert(triples_view(asserts@) =~= triples_view(old(asserts)@) + (head.asserts
                    + out.asserts));
            }
            Ok(())
        },
    }
}

/// Continues the branch of the join at the head of `constraints` for the
/// value `value`: searches the columns of the join from the `i`-th on, and
/// if all of them hold the value lets the slot take it and runs the rest of
/// the program.
pub fn join_rest(
    constraints: &[Constraint],
    indexes: &Vec<Index>,
    ranges: &mut Vec<LoHi>,
    variables: &mut Vec<Value>,
    results: &mut Vec<Value>,
    asserts: &mut Vec<[Value; 3]>,
    i: usize,
    value: &Value,
) -> (r: Result<(), RunError>)
    requires
        constraints@.len() > 0,
        constraints@[0] is Join,
        i <= constraints@[0]->Join_0@.len(),
        program_ok(
            constraints_view(constraints@),
            indexes@.len() as int,
            old(variables)@.len() as int,
        ),
        state_ok(indexes_view(indexes@), old(ranges)@),
        ready(
            pending_at(constraints_view(constraints@), i as int),
            indexes_view(indexes@),
            old(ranges)@,
        ),
    ensures
        effect(
            probe_spec(
                constraints_view(constraints@),
                indexes_view(indexes@),
                old(ranges)@,
                values_view(old(variables)@),
                i as int,
                value@,
            ),
            r,
            old(ranges)@,
            final(ranges)@,
            old(variables)@,
            final(variables)@,
            old(results)@,
            final(results)@,
            old(asserts)@,
            final(asserts)@,
        ),
    decreases constraints@.len(), 0int, constraints@[0]->Join_0@.len() - i,
{
    let ghost cs = constraints_view(constraints@);
    let ghost idx = indexes_view(indexes@);
    let ghost ranges0 = ranges@;
    let ghost vars0 = values_view(variables@);
    proof {
        assert(constraint_ok(cs[0], indexes@.len() as int, variables@.len() as int));
        assert(values_view(results@) + nothing().results =~= values_view(results@));
        assert(triples_view(asserts@) + nothing().asserts =~= triples_view(asserts@));
    }
    match &constraints[0] {
        Constraint::Join(rowcols, slot) => {
            if i >= rowcols.len() {
                let rest = slice_subrange(constraints, 1, constraints.len());
                proof {
                    assert(constraints_view(rest@) =~= cs.drop_first());
                    assert forall|k: int| 0 <= k < cs.drop_first().len() implies constraint_ok(
                        #[trigger] cs.drop_first()[k],
                        indexes@.len() as int,
                        variables@.len() as int,
                    ) by {
                        assert(cs.drop_first()[k] == cs[k + 1]);
                    }
                    assert(pending_at(cs, i as int) =~= probes(cs.drop_first()));
                }
                let saved = clone_value(&variables[*slot]);
                variables.set(*slot, clone_value(value));
                proof {
                    assert(values_view(variables@) =~= vars0.update(*slot as int, value@));
                }
                match constrain(rest, indexes, ranges, variables, results, asserts) {
                    Err(e) => {
                        return Err(e);
                    },
                    Ok(()) => {},
                }
                let ghost mid = variables@;
                variables.set(*slot, saved);
                proof {
                    assert forall|k: int| 0 <= k < vars0.len() implies values_view(variables@)[k]
                        == vars0[k] by {
                        assert(values_view(mid)[k] == mid[k]@);
                    }
                    assert(values_view(variables@) =~= vars0);
                }
                Ok(())
            } else {
                let (row, col) = rowcols[i];
                let (old_lo, old_hi) = ranges[row];
                let column = &indexes[row][col];
                proof {
                    let pending = pending_at(cs, i as int);
                    lemma_column_view(indexes@, row as int, col as int);
                    assert(pending[0] == (row, col));
                    assert(sorted_on(
                        idx[row as int],
                        cols_of(pending, row as int),
                        old_lo as int,
                        old_hi as int,
                    ));
                    lemma_sorted_ascending(
                        idx[row as int],
                        cols_of(pending, row as int),
                        old_lo as int,
                        old_hi as int,
                    );
                    lemma_narrow_exact(idx[row as int][col as int], (old_lo, old_hi), value@);
                }
                let (lo, hi) = equal_range(column, old_lo, old_hi, value);
                if lo < hi {
                    proof {
                        let pending = pending_at(cs, i as int);
                        lemma_ready_step(pending, idx, ranges0, lo, hi);
                        assert(pending.drop_first() =~= pending_at(cs, i + 1));
                    }
                    ranges.set(row, (lo, hi));
                    match join_rest(
                        constraints,
                        indexes,
                        ranges,
                        variables,
                        results,
                        asserts,
                        i + 1,
                        value,
                    ) {
                        Err(e) => {
                            return Err(e);
                        },
                        Ok(()) => {},
                    }
                    ranges.set(row, (old_lo, old_hi));
                    assert(ranges@ =~= ranges0);
                }
                Ok(())
            }
        },
        _ => Ok(()),
    }
}

/// The indexes of the triples for the column orders of all rows.
pub open spec fn indexes_spec(triples: Seq<Triple>, orderings: Seq<Seq<usize>>) -> Seq<
    Seq<Seq<ValueView>>,
> {
    orderings.map_values(|p: Seq<usize>| index_spec(triples, p))
}

/// The whole of every index.
pub open spec fn full_ranges(rows: nat, n: usize) -> Seq<LoHi> {
    Seq::new(rows, |r: int| (0usize, n))
}

/// What running a block on the given triples yields.
pub open spec fn block_spec(block: BlockView, triples: Seq<Triple>) -> Result<Output, Fault> {
    run_spec(
        block.constraints,
        indexes_spec(triples, block.row_orderings),
        full_ranges(block.row_orderings.len(), triples.len() as usize),
        block.variables,
    )
}

impl Block {
    /// The block can be run: its constraints name rows, columns and slots
    /// that exist, every row's column order is one, and the constraints
    /// search the columns of every row in that order.
    pub open spec fn wf(&self) -> bool {
        &&& program_ok(
            self@.constraints,
            self@.row_orderings.len() as int,
            self@.variables.len() as int,
        )
        &&& forall|r: int|
            0 <= r < self@.row_orderings.len() ==> is_ordering(#[trigger] self@.row_orderings[r])
        &&& aligned(self@.constraints, self@.row_orderings)
    }

    /// Runs the block against the bag: builds the index of every row, then
    /// runs the constraints from the whole of each index and the initial
    /// slot values. Returns the values of all result rows, one row after
    /// the other, and the asserted triples; or the fault that ended the
    /// run, in which case nothing else is kept.
    pub fn run(&self, bag: &Bag) -> (r: Result<(Vec<Value>, Vec<[Value; 3]>), RunError>)
        requires
            self.wf(),
        ensures
            outcome_view(r) == block_spec(self@, bag.triples()),
    {
        let eavs = lift(bag);
        let ghost triples = bag.triples();
        let ghost orderings = self@.row_orderings;
        let mut indexes: Vec<Index> = Vec::new();
        let mut ranges: Vec<LoHi> = Vec::new();
        let mut row: usize = 0;
        while row < self.row_orderings.len()
            invariant
                row <= self.row_orderings@.len(),
                indexes@.len() == row,
                ranges@.len() == row,
                triples == triples_view(eavs@),
                triples.len() == eavs@.len(),
                orderings == self@.row_orderings,
                forall|r: int| 0 <= r < orderings.len() ==> is_ordering(#[trigger] orderings[r]),
                forall|r: int|
                    0 <= r < row ==> index_view(#[trigger] indexes@[r]) == index_spec(
                        triples,
                        orderings[r],
                    ),
                forall|r: int| 0 <= r < row ==> #[trigger] ranges@[r] == (0usize, eavs@.len() as usize),
            decreases self.row_orderings@.len() - row,
        {
            assert(orderings[row as int] == self.row_orderings@[row as int]@);
            let index = build_index(&eavs, &self.row_orderings[row]);
            indexes.push(index);
            ranges.push((0, eavs.len()));
            row += 1;
        }
        let mut variables: Vec<Value> = Vec::new();
        let mut slot: usize = 0;
        while slot < self.variables.len()
            invariant
                slot <= self.variables@.len(),
                variables@.len() == slot,
                forall|k: int| 0 <= k < slot ==> (#[trigger] variables@[k])@ == self.variables@[k]@,
            decreases self.variables@.len() - slot,
        {
            variables.push(clone_value(&self.variables[slot]));
            slot += 1;
        }
        let mut results: Vec<Value> = Vec::new();
        let mut asserts: Vec<[Value; 3]> = Vec::new();
        proof {
            let idx = indexes_view(indexes@);
            let cs = constraints_view(self.constraints@);
            assert(idx =~= indexes_spec(triples, orderings));
            assert(ranges@ =~= full_ranges(orderings.len(), triples.len() as usize));
            assert(values_view(variables@) =~= self@.variables);
            assert forall|r: int| 0 <= r < idx.len() implies crate::shape::index_ok(
                #[trigger] idx[r],
            ) && ranges@[r].1 <= idx[r][0].len() && crate::shape::sorted_on(
                idx[r],
                cols_of(probes(cs), r),
                ranges@[r].0 as int,
                ranges@[r].1 as int,
            ) by {
                lemma_index_rows(triples, orderings[r]);
                let cols = cols_of(probes(cs), r);
                lemma_sorted_prefix(
                    idx[r],
                    orderings[r],
                    cols.len() as int,
                    0,
                    triples.len() as int,
                );
            }
            assert(values_view(results@) =~= Seq::<ValueView>::empty());
            assert(triples_view(asserts@) =~= Seq::<(ValueView, ValueView, ValueView)>::empty());
        }
        match constrain(
            self.constraints.as_slice(),
            &indexes,
            &mut ranges,
            &mut variables,
            &mut results,
            &mut asserts,
        ) {
            Err(e) => Err(e),
            Ok(()) => {
                proof {
                    let out = block_spec(self@, bag.triples())->Ok_0;
                    assert(Seq::<ValueView>::empty() + out.results =~= out.results);
                    assert(Seq::<(ValueView, ValueView, ValueView)>::empty() + out.asserts
                        =~= out.asserts);
                }
                Ok((results, asserts))
            },
        }
    }
}

/// The model of what a run returns.
pub open spec fn outcome_view(r: Result<(Vec<Value>, Vec<[Value; 3]>), RunError>) -> Result<
    Output,
    Fault,
> {
    match r {
        Ok(pair) => Ok(Output { results: values_view(pair.0@), asserts: triples_view(pair.1@) }),
        Err(e) => Err(e@),
    }
}

/// Running a block on a bag twice gives the same results and the same
/// asserted triples, or the same fault: what a run returns is what the
/// block means on the triples of the bag.
pub proof fn lemma_run_deterministic(
    block: Block,
    bag: Bag,
    first: Result<(Vec<Value>, Vec<[Value; 3]>), RunError>,
    second: Result<(Vec<Value>, Vec<[Value; 3]>), RunError>,
)
    requires
        outcome_view(first) == block_spec(block@, bag.triples()),
        outcome_view(second) == block_spec(block@, bag.triples()),
    ensures
        outcome_view(first) == outcome_view(second),
{
}

/// A run does not depend on the order in which the bag holds its triples:
/// two lists of the same triples give the same indexes, and so the same
/// results.
pub proof fn lemma_run_order_free(block: BlockView, first: Seq<Triple>, second: Seq<Triple>)
    requires
        first.to_multiset() == second.to_multiset(),
        first.len() <= usize::MAX,
        forall|r: int|
            0 <= r < block.row_orderings.len() ==> is_ordering(#[trigger] block.row_orderings[r]),
    ensures
        block_spec(block, first) == block_spec(block, second),
{
    vstd::seq_lib::to_multiset_len(first);
    vstd::seq_lib::to_multiset_len(second);
    assert forall|r: int| 0 <= r < block.row_orderings.len() implies index_spec(
        first,
        #[trigger] block.row_orderings[r],
    ) == index_spec(second, block.row_orderings[r]) by {
        crate::index::lemma_index_order_free(first, second, block.row_orderings[r]);
    }
    assert(indexes_spec(first, block.row_orderings) =~= indexes_spec(second, block.row_orderings));
}

} // verus!
