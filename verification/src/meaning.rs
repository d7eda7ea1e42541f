//! What the results of a plan are: the assignments of values to slots that
//! agree, row by row, with a triple of the row's index.

use vstd::prelude::*;
use crate::order::{lemma_value_lt_irreflexive, value_lt};
use crate::plan::{ConstraintView, Function, LoHi, RowCol};
use crate::semantics::{
    apply_spec, first_fail, join_end, join_spec, narrow, nothing, probe_spec, row_of, run_spec,
    then, Fault, Output,
};
use crate::shape::{
    ascending, cols_of, constraint_ok, head_probes, lemma_first_fail_parts, lemma_narrow_exact,
    lemma_ready_step, lemma_sorted_ascending, probes, program_ok, ready, sorted_on, state_ok,
};
use crate::value::ValueView;

verus! {

/// A program that only searches: every constraint is a `Narrow`, a `Join`
/// or an `Apply`.
pub open spec fn searching(cs: Seq<ConstraintView>) -> bool {
    forall|i: int|
        0 <= i < cs.len() ==> (#[trigger] cs[i]) is Narrow || cs[i] is Join || cs[i] is Apply
}

/// The assignments with which the program reaches its end: for each branch
/// of the search that gets through all constraints, the values of the slots
/// at the end of it, in the order in which the branches are searched.
pub open spec fn solutions(
    cs: Seq<ConstraintView>,
    idx: Seq<Seq<Seq<ValueView>>>,
    ranges: Seq<LoHi>,
    vars: Seq<ValueView>,
) -> Seq<Seq<ValueView>>
    decreases cs.len(), 2int, 0int,
{
    if cs.len() == 0 {
        seq![vars]
    } else {
        let rest = cs.drop_first();
        match cs[0] {
            ConstraintView::Narrow((row, col), slot) => {
                let (lo, hi) = narrow(idx[row as int][col as int], ranges[row as int], vars[slot as int]);
                if lo < hi {
                    solutions(rest, idx, ranges.update(row as int, (lo as usize, hi as usize)), vars)
                } else {
                    Seq::empty()
                }
            },
            ConstraintView::Join(rowcols, slot) => join_solutions(
                cs,
                idx,
                ranges,
                vars,
                ranges[rowcols[0].0 as int].0 as int,
            ),
            ConstraintView::Apply(slot, fixed, function) => match apply_spec(function, vars) {
                Err(_) => Seq::empty(),
                Ok(r) => if !fixed {
                    solutions(rest, idx, ranges, vars.update(slot as int, r))
                } else if vars[slot as int] == r {
                    solutions(rest, idx, ranges, vars)
                } else {
                    Seq::empty()
                },
            },
            _ => solutions(rest, idx, ranges, vars),
        }
    }
}

/// The assignments that a join at the head of `cs` gives from position
/// `lo` of its leading column on.
pub open spec fn join_solutions(
    cs: Seq<ConstraintView>,
    idx: Seq<Seq<Seq<ValueView>>>,
    ranges: Seq<LoHi>,
    vars: Seq<ValueView>,
    lo: int,
) -> Seq<Seq<ValueView>>
    decreases cs.len(), 1int, crate::semantics::join_end(cs, ranges) - lo,
{
    let end = crate::semantics::join_end(cs, ranges);
    if cs.len() > 0 && cs[0] is Join && lo < end {
        let (row, col) = cs[0]->Join_0[0];
        let column = idx[row as int][col as int];
        let v = column[lo];
        let hi = first_fail(column, lo + 1, end, v, false);
        proof {
            crate::semantics::lemma_first_fail_bounds(column, lo + 1, end, v, false);
        }
        probe_solutions(cs, idx, ranges.update(row as int, (lo as usize, hi as usize)), vars, 1, v)
            + join_solutions(cs, idx, ranges, vars, hi)
    } else {
        Seq::empty()
    }
}

/// The assignments that the branch of a join gives for the value `v`, once
/// the first `i` of its columns are known to hold it.
pub open spec fn probe_solutions(
    cs: Seq<ConstraintView>,
    idx: Seq<Seq<Seq<ValueView>>>,
    ranges: Seq<LoHi>,
    vars: Seq<ValueView>,
    i: int,
    v: ValueView,
) -> Seq<Seq<ValueView>>
    decreases cs.len(), 0int, cs[0]->Join_0.len() - i,
{
    if cs.len() > 0 && cs[0] is Join {
        let rowcols = cs[0]->Join_0;
        if i >= rowcols.len() {
            solutions(cs.drop_first(), idx, ranges, vars.update(cs[0]->Join_1 as int, v))
        } else {
            let (row, col) = rowcols[i];
            let (lo, hi) = narrow(idx[row as int][col as int], ranges[row as int], v);
            if lo < hi {
                probe_solutions(
                    cs,
                    idx,
                    ranges.update(row as int, (lo as usize, hi as usize)),
                    vars,
                    i + 1,
                    v,
                )
            } else {
                Seq::empty()
            }
        }
    } else {
        Seq::empty()
    }
}

/// The slot to which a constraint gives a value: the slot of a join, and
/// the slot of a function that is the first to fix its slot.
pub open spec fn written_slot(c: ConstraintView) -> Option<usize> {
    match c {
        ConstraintView::Join(_, slot) => Some(slot),
        ConstraintView::Apply(slot, fixed, _) => if fixed {
            None
        } else {
            Some(slot)
        },
        _ => None,
    }
}

/// The program gives slot `s` a value.
pub open spec fn written(cs: Seq<ConstraintView>, s: int) -> bool {
    exists|j: int|
        0 <= j < cs.len() && written_slot(#[trigger] cs[j]) is Some && written_slot(
            cs[j],
        )->Some_0 == s
}

/// The constraint reads slot `s`: it searches for its value, computes with
/// it or checks it.
pub open spec fn reads(c: ConstraintView, s: int) -> bool {
    match c {
        ConstraintView::Narrow(_, slot) => slot == s,
        ConstraintView::Join(_, slot) => slot == s,
        ConstraintView::Apply(slot, _, Function::Add(a, b)) => slot == s || a == s || b == s,
        _ => false,
    }
}

/// No slot is given a value after it has been read, and no function
/// computes the value of its slot from that slot.
pub open spec fn settled(cs: Seq<ConstraintView>) -> bool {
    &&& forall|i: int, j: int|
        0 <= i < j < cs.len() && written_slot(#[trigger] cs[j]) is Some ==> !reads(
            #[trigger] cs[i],
            written_slot(cs[j])->Some_0 as int,
        )
    &&& forall|j: int|
        0 <= j < cs.len() && (#[trigger] cs[j]) is Apply && written_slot(cs[j]) is Some
            ==> cs[j]->Apply_2->Add_0 != cs[j]->Apply_0 && cs[j]->Apply_2->Add_1
            != cs[j]->Apply_0
}

/// The assignment gives the slot of a function what the function computes
/// from the values that the assignment gives to its arguments.
pub open spec fn sum_holds(c: ConstraintView, sigma: Seq<ValueView>) -> bool {
    match c {
        ConstraintView::Apply(slot, _, function) => apply_spec(function, sigma) == Ok::<
            ValueView,
            Fault,
        >(sigma[slot as int]),
        _ => true,
    }
}

/// The columns that one constraint searches, each with the slot whose
/// value is sought in it.
pub open spec fn head_tagged(c: ConstraintView) -> Seq<(RowCol, usize)> {
    match c {
        ConstraintView::Narrow(rc, slot) => seq![(rc, slot)],
        ConstraintView::Join(rowcols, slot) => rowcols.map_values(|rc: RowCol| (rc, slot)),
        _ => Seq::empty(),
    }
}

/// The columns that the program searches, each with the slot whose value
/// is sought in it.
pub open spec fn tagged(cs: Seq<ConstraintView>) -> Seq<(RowCol, usize)>
    decreases cs.len(),
{
    if cs.len() == 0 {
        Seq::empty()
    } else {
        head_tagged(cs[0]) + tagged(cs.drop_first())
    }
}

/// At position `k` of the index of row `r`, every column of that row among
/// `pending` holds the value that `sigma` gives to the column's slot.
pub open spec fn fits(
    ix: Seq<Seq<ValueView>>,
    r: int,
    k: int,
    pending: Seq<(RowCol, usize)>,
    sigma: Seq<ValueView>,
) -> bool {
    forall|i: int|
        0 <= i < pending.len() && (#[trigger] pending[i]).0.0 == r ==> ix[pending[i].0.1 as int][k]
            == sigma[pending[i].1 as int]
}

/// Row `r` is searched by `pending`.
pub open spec fn searched(pending: Seq<(RowCol, usize)>, r: int) -> bool {
    exists|i: int| 0 <= i < pending.len() && (#[trigger] pending[i]).0.0 == r
}

/// Some position in the range of row `r` fits `sigma`.
pub open spec fn witnessed(
    idx: Seq<Seq<Seq<ValueView>>>,
    ranges: Seq<LoHi>,
    r: int,
    pending: Seq<(RowCol, usize)>,
    sigma: Seq<ValueView>,
) -> bool {
    exists|k: int| ranges[r].0 <= k < ranges[r].1 && #[trigger] fits(idx[r], r, k, pending, sigma)
}

/// The assignment `sigma` satisfies what is left of a search: it gives
/// every slot that is given no value later the value that `base` gives
/// it; it gives the slot of every function that is applied later what the
/// function computes; and for every row that is searched, some triple in
/// the row's range holds, in every column that is searched, what `sigma`
/// gives to the column's slot.
pub open spec fn satisfies(
    pending: Seq<(RowCol, usize)>,
    later: Seq<ConstraintView>,
    idx: Seq<Seq<Seq<ValueView>>>,
    ranges: Seq<LoHi>,
    base: Seq<ValueView>,
    sigma: Seq<ValueView>,
) -> bool {
    &&& sigma.len() == base.len()
    &&& forall|s: int| 0 <= s < base.len() && !written(later, s) ==> #[trigger] sigma[s] == base[s]
    &&& forall|j: int| 0 <= j < later.len() ==> sum_holds(#[trigger] later[j], sigma)
    &&& forall|r: int|
        0 <= r < idx.len() && #[trigger] searched(pending, r) ==> witnessed(
            idx,
            ranges,
            r,
            pending,
            sigma,
        )
}

/// One step of a search: where the first pending column is searched for
/// the value that `base` gives to its slot, an assignment satisfies the
/// whole search exactly if the value is found and the assignment satisfies
/// the rest of the search on what was found.
pub proof fn lemma_satisfies_step(
    head: (RowCol, usize),
    rest: Seq<(RowCol, usize)>,
    later: Seq<ConstraintView>,
    idx: Seq<Seq<Seq<ValueView>>>,
    ranges: Seq<LoHi>,
    base: Seq<ValueView>,
    sigma: Seq<ValueView>,
)
    requires
        head.0.0 < idx.len(),
        head.1 < base.len(),
        ranges.len() == idx.len(),
        !written(later, head.1 as int),
        ascending(
            idx[head.0.0 as int][head.0.1 as int],
            ranges[head.0.0 as int].0 as int,
            ranges[head.0.0 as int].1 as int,
        ),
    ensures
        ({
            let row = head.0.0 as int;
            let found = narrow(idx[row][head.0.1 as int], ranges[row], base[head.1 as int]);
            satisfies(seq![head] + rest, later, idx, ranges, base, sigma) <==> (found.0 < found.1
                && satisfies(
                rest,
                later,
                idx,
                ranges.update(row, (found.0 as usize, found.1 as usize)),
                base,
                sigma,
            ))
        }),
{
    let row = head.0.0 as int;
    let col = idx[row][head.0.1 as int];
    let v = base[head.1 as int];
    let found = narrow(col, ranges[row], v);
    let lo = found.0;
    let hi = found.1;
    let all = seq![head] + rest;
    let next = ranges.update(row, (lo as usize, hi as usize));
    lemma_narrow_exact(col, ranges[row], v);
    assert(all[0] == head);
    assert(searched(all, row));
    assert forall|i: int| 0 <= i < rest.len() implies #[trigger] all[i + 1] == rest[i] by {}
    if satisfies(all, later, idx, ranges, base, sigma) {
        assert(sigma[head.1 as int] == v);
        assert(witnessed(idx, ranges, row, all, sigma));
        let k0 = choose|k: int|
            ranges[row].0 <= k < ranges[row].1 && #[trigger] fits(idx[row], row, k, all, sigma);
        assert(col[k0] == sigma[all[0].1 as int]);
        assert(lo <= k0 < hi);
        assert forall|r: int| 0 <= r < idx.len() && #[trigger] searched(rest, r) implies witnessed(
            idx,
            next,
            r,
            rest,
            sigma,
        ) by {
            let i = choose|i: int| 0 <= i < rest.len() && (#[trigger] rest[i]).0.0 == r;
            assert(all[i + 1].0.0 == r);
            assert(searched(all, r));
            assert(witnessed(idx, ranges, r, all, sigma));
            let k = choose|k: int|
                ranges[r].0 <= k < ranges[r].1 && #[trigger] fits(idx[r], r, k, all, sigma);
            assert forall|j: int| 0 <= j < rest.len() && (#[trigger] rest[j]).0.0 == r implies idx[r][rest[j].0.1 as int][k]
                == sigma[rest[j].1 as int] by {
                assert(all[j + 1] == rest[j]);
            }
            assert(fits(idx[r], r, k, rest, sigma));
            if r == row {
                assert(col[k] == sigma[all[0].1 as int]);
                assert(lo <= k < hi);
            }
        }
    }
    if lo < hi && satisfies(rest, later, idx, next, base, sigma) {
        assert(sigma[head.1 as int] == v);
        assert forall|r: int| 0 <= r < idx.len() && #[trigger] searched(all, r) implies witnessed(
            idx,
            ranges,
            r,
            all,
            sigma,
        ) by {
            if searched(rest, r) {
                assert(witnessed(idx, next, r, rest, sigma));
                let k = choose|k: int|
                    next[r].0 <= k < next[r].1 && #[trigger] fits(idx[r], r, k, rest, sigma);
                assert forall|j: int| 0 <= j < all.len() && (#[trigger] all[j]).0.0 == r implies idx[r][all[j].0.1 as int][k]
                    == sigma[all[j].1 as int] by {
                    if j > 0 {
                        assert(all[j] == rest[j - 1]);
                    } else {
                        assert(col[k] == v);
                    }
                }
                assert(fits(idx[r], r, k, all, sigma));
            } else {
                let i = choose|i: int| 0 <= i < all.len() && (#[trigger] all[i]).0.0 == r;
                if i > 0 {
                    assert(rest[i - 1].0.0 == r);
                }
                assert(r == row);
                assert forall|j: int| 0 <= j < all.len() && (#[trigger] all[j]).0.0 == r implies idx[r][all[j].0.1 as int][lo]
                    == sigma[all[j].1 as int] by {
                    if j > 0 {
                        assert(rest[j - 1].0.0 == r);
                    } else {
                        assert(col[lo] == v);
                    }
                }
                assert(fits(idx[r], r, lo, all, sigma));
            }
        }
    }
}

/// What is still to be searched once the join at the head of `cs` has
/// searched the first `i` of its columns: the other columns of the join,
/// then what the rest of the program searches.
pub open spec fn pending_tagged(cs: Seq<ConstraintView>, i: int) -> Seq<(RowCol, usize)> {
    cs[0]->Join_0.skip(i).map_values(|rc: RowCol| (rc, cs[0]->Join_1)) + tagged(cs.drop_first())
}

/// The list holds, each once, the assignments that satisfy the search.
pub open spec fn lists(
    list: Seq<Seq<ValueView>>,
    pending: Seq<(RowCol, usize)>,
    later: Seq<ConstraintView>,
    idx: Seq<Seq<Seq<ValueView>>>,
    ranges: Seq<LoHi>,
    base: Seq<ValueView>,
) -> bool {
    &&& list.no_duplicates()
    &&& forall|sigma: Seq<ValueView>|
        #![trigger list.contains(sigma)]
        #![trigger satisfies(pending, later, idx, ranges, base, sigma)]
        list.contains(sigma) <==> satisfies(pending, later, idx, ranges, base, sigma)
}

/// The columns with their slots are the columns that the program searches.
pub proof fn lemma_tagged_probes(cs: Seq<ConstraintView>)
    ensures
        tagged(cs).len() == probes(cs).len(),
        forall|i: int| 0 <= i < tagged(cs).len() ==> (#[trigger] tagged(cs)[i]).0 == probes(cs)[i],
    decreases cs.len(),
{
    if cs.len() > 0 {
        lemma_tagged_probes(cs.drop_first());
        let head = head_tagged(cs[0]);
        assert(head.len() == head_probes(cs[0]).len());
        assert forall|i: int| 0 <= i < tagged(cs).len() implies (#[trigger] tagged(cs)[i]).0
            == probes(cs)[i] by {
            if i < head.len() {
                assert(tagged(cs)[i] == head[i]);
                assert(probes(cs)[i] == head_probes(cs[0])[i]);
            } else {
                assert(tagged(cs)[i] == tagged(cs.drop_first())[i - head.len()]);
                assert(probes(cs)[i] == probes(cs.drop_first())[i - head.len()]);
            }
        }
    }
}

/// What the rest of a program lets take values, the program does too; and
/// it lets nothing else take values but the slot of a join at its head.
pub proof fn lemma_written_rest(cs: Seq<ConstraintView>, s: int)
    requires
        cs.len() > 0,
    ensures
        written(cs, s) <==> (written(cs.drop_first(), s) || (written_slot(cs[0]) is Some
            && written_slot(cs[0])->Some_0 == s)),
{
    let rest = cs.drop_first();
    if written(rest, s) {
        let j = choose|j: int|
            0 <= j < rest.len() && written_slot(#[trigger] rest[j]) is Some && written_slot(
                rest[j],
            )->Some_0 == s;
        assert(cs[j + 1] == rest[j]);
    }
    if written(cs, s) {
        let j = choose|j: int|
            0 <= j < cs.len() && written_slot(#[trigger] cs[j]) is Some && written_slot(
                cs[j],
            )->Some_0 == s;
        if j > 0 {
            assert(rest[j - 1] == cs[j]);
        }
    }
}

/// The rest of a program that is in bounds, only searches and is settled
/// is so too, and it gives no value to a slot that the head reads.
pub proof fn lemma_rest_ok(cs: Seq<ConstraintView>, rows: int, slots: int)
    requires
        cs.len() > 0,
        searching(cs),
        settled(cs),
        program_ok(cs, rows, slots),
    ensures
        searching(cs.drop_first()),
        settled(cs.drop_first()),
        program_ok(cs.drop_first(), rows, slots),
        constraint_ok(cs[0], rows, slots),
        forall|s: int| reads(cs[0], s) ==> !written(cs.drop_first(), s),
{
    let rest = cs.drop_first();
    assert forall|i: int| 0 <= i < rest.len() implies ((#[trigger] rest[i]) is Narrow
        || rest[i] is Join || rest[i] is Apply) && constraint_ok(rest[i], rows, slots) by {
        assert(rest[i] == cs[i + 1]);
    }
    assert forall|i: int, j: int|
        0 <= i < j < rest.len() && written_slot(#[trigger] rest[j]) is Some implies !reads(
        #[trigger] rest[i],
        written_slot(rest[j])->Some_0 as int,
    ) by {
        assert(rest[i] == cs[i + 1]);
        assert(rest[j] == cs[j + 1]);
    }
    assert forall|j: int|
        0 <= j < rest.len() && (#[trigger] rest[j]) is Apply && written_slot(
            rest[j],
        ) is Some implies rest[j]->Apply_2->Add_0 != rest[j]->Apply_0 && rest[j]->Apply_2->Add_1
        != rest[j]->Apply_0 by {
        assert(rest[j] == cs[j + 1]);
    }
    assert forall|s: int| reads(cs[0], s) implies !written(rest, s) by {
        if written(rest, s) {
            let j = choose|j: int|
                0 <= j < rest.len() && written_slot(#[trigger] rest[j]) is Some && written_slot(
                    rest[j],
                )->Some_0 == s;
            assert(rest[j] == cs[j + 1]);
            assert(!reads(cs[0], written_slot(cs[j + 1])->Some_0 as int));
        }
    }
}

/// Two lists without duplicates that share nothing make a list without
/// duplicates.
pub proof fn lemma_no_duplicates_add(a: Seq<Seq<ValueView>>, b: Seq<Seq<ValueView>>)
    requires
        a.no_duplicates(),
        b.no_duplicates(),
        forall|x: Seq<ValueView>| !(a.contains(x) && b.contains(x)),
    ensures
        (a + b).no_duplicates(),
        forall|x: Seq<ValueView>| (a + b).contains(x) <==> (a.contains(x) || b.contains(x)),
{
    let c = a + b;
    assert forall|i: int, j: int| 0 <= i < c.len() && 0 <= j < c.len() && i != j implies c[i]
        != c[j] by {
        if i < a.len() && j >= a.len() {
            assert(a.contains(a[i]));
            assert(b.contains(b[j - a.len()]));
        } else if j < a.len() && i >= a.len() {
            assert(a.contains(a[j]));
            assert(b.contains(b[i - a.len()]));
        }
    }
    assert forall|x: Seq<ValueView>| c.contains(x) <==> (a.contains(x) || b.contains(x)) by {
        if c.contains(x) {
            let i = choose|i: int| 0 <= i < c.len() && c[i] == x;
            if i < a.len() {
                assert(a[i] == x);
            } else {
                assert(b[i - a.len()] == x);
            }
        }
        if a.contains(x) {
            let i = choose|i: int| 0 <= i < a.len() && a[i] == x;
            assert(c[i] == x);
        }
        if b.contains(x) {
            let i = choose|i: int| 0 <= i < b.len() && b[i] == x;
            assert(c[i + a.len()] == x);
        }
    }
}

/// What a function computes depends on the values of its two arguments
/// only.
pub proof fn lemma_apply_same(function: Function, first: Seq<ValueView>, second: Seq<ValueView>)
    requires
        first[function->Add_0 as int] == second[function->Add_0 as int],
        first[function->Add_1 as int] == second[function->Add_1 as int],
    ensures
        apply_spec(function, first) == apply_spec(function, second),
{
}

/// The sums that a program asks for are those that its head asks for and
/// those that its rest asks for.
pub proof fn lemma_sums_rest(cs: Seq<ConstraintView>, sigma: Seq<ValueView>)
    requires
        cs.len() > 0,
    ensures
        (forall|j: int| 0 <= j < cs.len() ==> sum_holds(#[trigger] cs[j], sigma)) <==> (sum_holds(
            cs[0],
            sigma,
        ) && forall|j: int|
            0 <= j < cs.drop_first().len() ==> sum_holds(#[trigger] cs.drop_first()[j], sigma)),
{
    let rest = cs.drop_first();
    if forall|j: int| 0 <= j < cs.len() ==> sum_holds(#[trigger] cs[j], sigma) {
        assert forall|j: int| 0 <= j < rest.len() implies sum_holds(#[trigger] rest[j], sigma) by {
            assert(rest[j] == cs[j + 1]);
        }
    }
    if sum_holds(cs[0], sigma) && forall|j: int|
        0 <= j < rest.len() ==> sum_holds(#[trigger] rest[j], sigma) {
        assert forall|j: int| 0 <= j < cs.len() implies sum_holds(#[trigger] cs[j], sigma) by {
            if j > 0 {
                assert(cs[j] == rest[j - 1]);
            }
        }
    }
}

/// A `Narrow` at the head of a program gives no slot a value and asks
/// for no sum: an assignment satisfies with the program what it satisfies
/// with the rest of the program.
pub proof fn lemma_satisfies_rest(
    pending: Seq<(RowCol, usize)>,
    cs: Seq<ConstraintView>,
    idx: Seq<Seq<Seq<ValueView>>>,
    ranges: Seq<LoHi>,
    base: Seq<ValueView>,
    sigma: Seq<ValueView>,
)
    requires
        cs.len() > 0,
        cs[0] is Narrow,
    ensures
        satisfies(pending, cs, idx, ranges, base, sigma) <==> satisfies(
            pending,
            cs.drop_first(),
            idx,
            ranges,
            base,
            sigma,
        ),
{
    assert forall|s: int| written(cs, s) <==> written(cs.drop_first(), s) by {
        lemma_written_rest(cs, s);
    }
    lemma_sums_rest(cs, sigma);
}

/// A function at the head of a program: an assignment satisfies the
/// program exactly if the function can be computed from the values at
/// hand, its slot holds or comes to hold what it computes, and the
/// assignment satisfies the rest of the program.
pub proof fn lemma_satisfies_apply(
    pending: Seq<(RowCol, usize)>,
    cs: Seq<ConstraintView>,
    idx: Seq<Seq<Seq<ValueView>>>,
    ranges: Seq<LoHi>,
    base: Seq<ValueView>,
    sigma: Seq<ValueView>,
)
    requires
        cs.len() > 0,
        cs[0] is Apply,
        settled(cs),
        constraint_ok(cs[0], idx.len() as int, base.len() as int),
        forall|s: int| reads(cs[0], s) ==> !written(cs.drop_first(), s),
    ensures
        ({
            let slot = cs[0]->Apply_0 as int;
            let fixed = cs[0]->Apply_1;
            let computed = apply_spec(cs[0]->Apply_2, base);
            satisfies(pending, cs, idx, ranges, base, sigma) <==> (computed is Ok && (if fixed {
                base[slot] == computed->Ok_0 && satisfies(
                    pending,
                    cs.drop_first(),
                    idx,
                    ranges,
                    base,
                    sigma,
                )
            } else {
                satisfies(
                    pending,
                    cs.drop_first(),
                    idx,
                    ranges,
                    base.update(slot, computed->Ok_0),
                    sigma,
                )
            }))
        }),
{
    let rest = cs.drop_first();
    let slot = cs[0]->Apply_0 as int;
    let fixed = cs[0]->Apply_1;
    let function = cs[0]->Apply_2;
    let computed = apply_spec(function, base);
    let a = function->Add_0 as int;
    let b = function->Add_1 as int;
    assert(reads(cs[0], slot) && reads(cs[0], a) && reads(cs[0], b));
    assert forall|s: int| written(cs, s) <==> (written(rest, s) || (!fixed && s == slot)) by {
        lemma_written_rest(cs, s);
    }
    lemma_sums_rest(cs, sigma);
    if fixed {
        if satisfies(pending, cs, idx, ranges, base, sigma) {
            assert(sigma[slot] == base[slot] && sigma[a] == base[a] && sigma[b] == base[b]);
            lemma_apply_same(function, sigma, base);
        }
        if computed is Ok && base[slot] == computed->Ok_0 && satisfies(
            pending,
            rest,
            idx,
            ranges,
            base,
            sigma,
        ) {
            assert(sigma[slot] == base[slot] && sigma[a] == base[a] && sigma[b] == base[b]);
            lemma_apply_same(function, sigma, base);
        }
    } else {
        assert(a != slot && b != slot);
        let moved = base.update(slot, computed->Ok_0);
        if satisfies(pending, cs, idx, ranges, base, sigma) {
            assert(sigma[a] == base[a] && sigma[b] == base[b]);
            lemma_apply_same(function, sigma, base);
            assert forall|s: int| 0 <= s < moved.len() && !written(rest, s) implies #[trigger] sigma[s]
                == moved[s] by {
                if s != slot {
                    assert(!written(cs, s));
                }
            }
        }
        if computed is Ok && satisfies(pending, rest, idx, ranges, moved, sigma) {
            assert(sigma[a] == moved[a] && sigma[b] == moved[b] && sigma[slot] == moved[slot]);
            lemma_apply_same(function, sigma, base);
            assert forall|s: int| 0 <= s < base.len() && !written(cs, s) implies #[trigger] sigma[s]
                == base[s] by {
                assert(sigma[s] == moved[s]);
            }
        }
    }
}

/// One round of a join: an assignment satisfies the join from position
/// `lo` of its leading column on exactly if it takes the value found there
/// and satisfies the rest of the search on the positions that hold that
/// value, or satisfies the join from behind those positions on; and never
/// both.
pub proof fn lemma_leader_split(
    cs: Seq<ConstraintView>,
    idx: Seq<Seq<Seq<ValueView>>>,
    ranges: Seq<LoHi>,
    vars: Seq<ValueView>,
    lo: int,
    sigma: Seq<ValueView>,
)
    requires
        cs.len() > 0,
        cs[0] is Join,
        cs[0]->Join_0.len() > 0,
        cs[0]->Join_0[0].0 < idx.len(),
        cs[0]->Join_1 < vars.len(),
        ranges.len() == idx.len(),
        !written(cs.drop_first(), cs[0]->Join_1 as int),
        0 <= lo < ranges[cs[0]->Join_0[0].0 as int].1,
        ascending(
            idx[cs[0]->Join_0[0].0 as int][cs[0]->Join_0[0].1 as int],
            lo,
            ranges[cs[0]->Join_0[0].0 as int].1 as int,
        ),
    ensures
        ({
            let row = cs[0]->Join_0[0].0 as int;
            let slot = cs[0]->Join_1 as int;
            let col = idx[row][cs[0]->Join_0[0].1 as int];
            let end = ranges[row].1;
            let hi = first_fail(col, lo + 1, end as int, col[lo], false);
            let whole = satisfies(
                tagged(cs),
                cs,
                idx,
                ranges.update(row, (lo as usize, end)),
                vars,
                sigma,
            );
            let first = satisfies(
                pending_tagged(cs, 1),
                cs.drop_first(),
                idx,
                ranges.update(row, (lo as usize, hi as usize)),
                vars.update(slot, col[lo]),
                sigma,
            );
            let second = satisfies(
                tagged(cs),
                cs,
                idx,
                ranges.update(row, (hi as usize, end)),
                vars,
                sigma,
            );
            &&& whole <==> (first || second)
            &&& !(first && second)
            &&& lo < hi <= end
        }),
{
    let rowcols = cs[0]->Join_0;
    let row = rowcols[0].0 as int;
    let slot = cs[0]->Join_1 as int;
    let col = idx[row][rowcols[0].1 as int];
    let end = ranges[row].1;
    let v = col[lo];
    let hi = first_fail(col, lo + 1, end as int, v, false);
    let rest = cs.drop_first();
    let all = tagged(cs);
    let tail = pending_tagged(cs, 1);
    let r_whole = ranges.update(row, (lo as usize, end));
    let r_first = ranges.update(row, (lo as usize, hi as usize));
    let r_second = ranges.update(row, (hi as usize, end));
    let moved = vars.update(slot, v);
    lemma_first_fail_parts(col, lo + 1, end as int, v, false);
    lemma_value_lt_irreflexive(v);
    assert forall|k: int| lo <= k < hi implies #[trigger] col[k] == v by {
        if k > lo {
            assert(crate::semantics::before(col[k], v, false));
            assert(!value_lt(col[k], col[lo]));
        }
    }
    assert forall|k: int| hi <= k < end implies #[trigger] col[k] != v by {
        assert(!crate::semantics::before(col[hi], v, false));
        crate::order::lemma_value_lt_total(col[hi], v);
        assert(!value_lt(col[k], col[hi]));
    }
    let head = (rowcols[0], cs[0]->Join_1);
    assert(all =~= seq![head] + tail) by {
        let tags = rowcols.map_values(|rc: RowCol| (rc, cs[0]->Join_1));
        assert(tags =~= seq![head] + rowcols.skip(1).map_values(|rc: RowCol| (rc, cs[0]->Join_1)));
    }
    assert(all[0] == head);
    assert(searched(all, row));
    assert forall|i: int| 0 <= i < tail.len() implies #[trigger] all[i + 1] == tail[i] by {}
    assert forall|x: int| written(cs, x) <==> (written(rest, x) || x == slot) by {
        lemma_written_rest(cs, x);
    }
    lemma_sums_rest(cs, sigma);
    let whole = satisfies(all, cs, idx, r_whole, vars, sigma);
    let first = satisfies(tail, rest, idx, r_first, moved, sigma);
    let second = satisfies(all, cs, idx, r_second, vars, sigma);
    if whole {
        assert(witnessed(idx, r_whole, row, all, sigma));
        let k0 = choose|k: int|
            r_whole[row].0 <= k < r_whole[row].1 && #[trigger] fits(idx[row], row, k, all, sigma);
        assert(col[k0] == sigma[all[0].1 as int]);
        if k0 < hi {
            assert(sigma[slot] == v);
            assert forall|x: int| 0 <= x < moved.len() && !written(rest, x) implies #[trigger] sigma[x]
                == moved[x] by {
                if x != slot {
                    assert(!written(cs, x));
                }
            }
            assert forall|r: int| 0 <= r < idx.len() && #[trigger] searched(tail, r) implies witnessed(
                idx,
                r_first,
                r,
                tail,
                sigma,
            ) by {
                let i = choose|i: int| 0 <= i < tail.len() && (#[trigger] tail[i]).0.0 == r;
                assert(all[i + 1].0.0 == r);
                assert(searched(all, r));
                assert(witnessed(idx, r_whole, r, all, sigma));
                let k = choose|k: int|
                    r_whole[r].0 <= k < r_whole[r].1 && #[trigger] fits(idx[r], r, k, all, sigma);
                assert forall|j: int| 0 <= j < tail.len() && (#[trigger] tail[j]).0.0 == r implies idx[r][tail[j].0.1 as int][k]
                    == sigma[tail[j].1 as int] by {
                    assert(all[j + 1] == tail[j]);
                }
                assert(fits(idx[r], r, k, tail, sigma));
                if r == row {
                    assert(col[k] == sigma[all[0].1 as int]);
                    if k >= hi {
                        assert(col[k] != v);
                    }
                }
            }
            assert(first);
        } else {
            assert forall|r: int| 0 <= r < idx.len() && #[trigger] searched(all, r) implies witnessed(
                idx,
                r_second,
                r,
                all,
                sigma,
            ) by {
                assert(witnessed(idx, r_whole, r, all, sigma));
                if r == row {
                    assert(fits(idx[r], r, k0, all, sigma));
                } else {
                    let k = choose|k: int|
                        r_whole[r].0 <= k < r_whole[r].1 && #[trigger] fits(
                            idx[r],
                            r,
                            k,
                            all,
                            sigma,
                        );
                    assert(fits(idx[r], r, k, all, sigma));
                }
            }
            assert(second);
        }
    }
    if first {
        assert(sigma[slot] == moved[slot]);
        assert forall|x: int| 0 <= x < vars.len() && !written(cs, x) implies #[trigger] sigma[x]
            == vars[x] by {
            assert(sigma[x] == moved[x]);
        }
        assert forall|r: int| 0 <= r < idx.len() && #[trigger] searched(all, r) implies witnessed(
            idx,
            r_whole,
            r,
            all,
            sigma,
        ) by {
            if searched(tail, r) {
                assert(witnessed(idx, r_first, r, tail, sigma));
                let k = choose|k: int|
                    r_first[r].0 <= k < r_first[r].1 && #[trigger] fits(idx[r], r, k, tail, sigma);
                assert forall|j: int| 0 <= j < all.len() && (#[trigger] all[j]).0.0 == r implies idx[r][all[j].0.1 as int][k]
                    == sigma[all[j].1 as int] by {
                    if j > 0 {
                        assert(all[j] == tail[j - 1]);
                    } else {
                        assert(col[k] == v);
                    }
                }
                assert(fits(idx[r], r, k, all, sigma));
            } else {
                let i = choose|i: int| 0 <= i < all.len() && (#[trigger] all[i]).0.0 == r;
                if i > 0 {
                    assert(tail[i - 1].0.0 == r);
                }
                assert forall|j: int| 0 <= j < all.len() && (#[trigger] all[j]).0.0 == r implies idx[r][all[j].0.1 as int][lo]
                    == sigma[all[j].1 as int] by {
                    if j > 0 {
                        assert(tail[j - 1].0.0 == r);
                    }
                }
                assert(fits(idx[r], r, lo, all, sigma));
            }
        }
        assert(whole);
        if second {
            assert(witnessed(idx, r_second, row, all, sigma));
            let k = choose|k: int|
                r_second[row].0 <= k < r_second[row].1 && #[trigger] fits(
                    idx[row],
                    row,
                    k,
                    all,
                    sigma,
                );
            assert(col[k] == sigma[all[0].1 as int]);
            assert(col[k] != v);
        }
    }
    if second {
        assert forall|r: int| 0 <= r < idx.len() && #[trigger] searched(all, r) implies witnessed(
            idx,
            r_whole,
            r,
            all,
            sigma,
        ) by {
            assert(witnessed(idx, r_second, r, all, sigma));
            let k = choose|k: int|
                r_second[r].0 <= k < r_second[r].1 && #[trigger] fits(idx[r], r, k, all, sigma);
            assert(fits(idx[r], r, k, all, sigma));
        }
        assert(whole);
    }
}

/// What is left to search after the first `i` columns of the join at the
/// head of `cs`, as columns without their slots.
pub open spec fn pending_probes(cs: Seq<ConstraintView>, i: int) -> Seq<RowCol> {
    cs[0]->Join_0.skip(i) + probes(cs.drop_first())
}

/// The columns of `pending_tagged` are those of `pending_probes`.
pub proof fn lemma_pending_tagged(cs: Seq<ConstraintView>, i: int)
    requires
        cs.len() > 0,
        cs[0] is Join,
        0 <= i <= cs[0]->Join_0.len(),
    ensures
        pending_tagged(cs, i).len() == pending_probes(cs, i).len(),
        forall|j: int|
            0 <= j < pending_tagged(cs, i).len() ==> (#[trigger] pending_tagged(cs, i)[j]).0
                == pending_probes(cs, i)[j],
        i < cs[0]->Join_0.len() ==> pending_tagged(cs, i) == seq![
            (cs[0]->Join_0[i], cs[0]->Join_1),
        ] + pending_tagged(cs, i + 1),
        i < cs[0]->Join_0.len() ==> pending_probes(cs, i).drop_first() == pending_probes(
            cs,
            i + 1,
        ),
        i == cs[0]->Join_0.len() ==> pending_tagged(cs, i) == tagged(cs.drop_first()),
        i == cs[0]->Join_0.len() ==> pending_probes(cs, i) == probes(cs.drop_first()),
{
    let rowcols = cs[0]->Join_0;
    let slot = cs[0]->Join_1;
    let rest = cs.drop_first();
    lemma_tagged_probes(rest);
    let tags = rowcols.skip(i).map_values(|rc: RowCol| (rc, slot));
    assert forall|j: int| 0 <= j < pending_tagged(cs, i).len() implies (#[trigger] pending_tagged(
        cs,
        i,
    )[j]).0 == pending_probes(cs, i)[j] by {
        if j < tags.len() {
            assert(pending_tagged(cs, i)[j] == tags[j]);
        } else {
            assert(pending_tagged(cs, i)[j] == tagged(rest)[j - tags.len()]);
        }
    }
    if i < rowcols.len() {
        let next = rowcols.skip(i + 1).map_values(|rc: RowCol| (rc, slot));
        assert(tags =~= seq![(rowcols[i], slot)] + next);
        assert(pending_tagged(cs, i) =~= seq![(rowcols[i], slot)] + pending_tagged(cs, i + 1));
        assert(pending_probes(cs, i).drop_first() =~= pending_probes(cs, i + 1));
    } else {
        assert(pending_tagged(cs, i) =~= tagged(rest));
        assert(pending_probes(cs, i) =~= probes(rest));
    }
}

/// The first pending column of a row is ascending within the row's range.
pub proof fn lemma_pending_ascending(
    pending: Seq<RowCol>,
    idx: Seq<Seq<Seq<ValueView>>>,
    ranges: Seq<LoHi>,
)
    requires
        pending.len() > 0,
        pending[0].0 < idx.len(),
        ready(pending, idx, ranges),
    ensures
        ascending(
            idx[pending[0].0 as int][pending[0].1 as int],
            ranges[pending[0].0 as int].0 as int,
            ranges[pending[0].0 as int].1 as int,
        ),
{
    let row = pending[0].0 as int;
    assert(sorted_on(idx[row], cols_of(pending, row), ranges[row].0 as int, ranges[row].1 as int));
    lemma_sorted_ascending(
        idx[row],
        cols_of(pending, row),
        ranges[row].0 as int,
        ranges[row].1 as int,
    );
}

/// Only one assignment satisfies a search with nothing left to search:
/// the one at hand.
pub proof fn lemma_satisfies_none(
    idx: Seq<Seq<Seq<ValueView>>>,
    ranges: Seq<LoHi>,
    base: Seq<ValueView>,
    sigma: Seq<ValueView>,
)
    ensures
        satisfies(Seq::empty(), Seq::empty(), idx, ranges, base, sigma) <==> sigma == base,
{
    let none = Seq::<(RowCol, usize)>::empty();
    let nothing = Seq::<ConstraintView>::empty();
    assert forall|s: int| !written(nothing, s) by {}
    assert forall|r: int| !searched(none, r) by {}
    if satisfies(none, nothing, idx, ranges, base, sigma) {
        assert(sigma =~= base);
    }
}

/// The results of a search are exactly the assignments that satisfy it,
/// each once: the search finds every assignment that gives, for every row,
/// the values of some triple of the row to the slots of the row's columns,
/// and finds nothing else.
pub proof fn lemma_solutions(
    cs: Seq<ConstraintView>,
    idx: Seq<Seq<Seq<ValueView>>>,
    ranges: Seq<LoHi>,
    vars: Seq<ValueView>,
)
    requires
        searching(cs),
        settled(cs),
        program_ok(cs, idx.len() as int, vars.len() as int),
        state_ok(idx, ranges),
        ready(probes(cs), idx, ranges),
    ensures
        lists(solutions(cs, idx, ranges, vars), tagged(cs), cs, idx, ranges, vars),
    decreases cs.len(), 2int, 0int,
{
    let list = solutions(cs, idx, ranges, vars);
    if cs.len() == 0 {
        assert(tagged(cs) =~= Seq::<(RowCol, usize)>::empty());
        assert(cs =~= Seq::<ConstraintView>::empty());
        assert forall|sigma: Seq<ValueView>|
            #![trigger list.contains(sigma)]
            #![trigger satisfies(tagged(cs), cs, idx, ranges, vars, sigma)]
            list.contains(sigma) <==> satisfies(tagged(cs), cs, idx, ranges, vars, sigma) by {
            lemma_satisfies_none(idx, ranges, vars, sigma);
            if sigma == vars {
                assert(list[0] == sigma);
            }
        }
    } else {
        let rest = cs.drop_first();
        lemma_rest_ok(cs, idx.len() as int, vars.len() as int);
        lemma_tagged_probes(cs);
        match cs[0] {
            ConstraintView::Narrow((row, col), slot) => {
                let head = ((row, col), slot);
                let found = narrow(idx[row as int][col as int], ranges[row as int], vars[slot as int]);
                let next = ranges.update(row as int, (found.0 as usize, found.1 as usize));
                assert(reads(cs[0], slot as int));
                assert(probes(cs)[0] == (row, col));
                lemma_pending_ascending(probes(cs), idx, ranges);
                lemma_narrow_exact(idx[row as int][col as int], ranges[row as int], vars[slot as int]);
                assert(tagged(cs) =~= seq![head] + tagged(rest));
                if found.0 < found.1 {
                    lemma_ready_step(probes(cs), idx, ranges, found.0 as usize, found.1 as usize);
                    assert(probes(cs).drop_first() =~= probes(rest));
                    lemma_solutions(rest, idx, next, vars);
                }
                assert forall|sigma: Seq<ValueView>|
                    #![trigger list.contains(sigma)]
                    #![trigger satisfies(tagged(cs), cs, idx, ranges, vars, sigma)]
                    list.contains(sigma) <==> satisfies(tagged(cs), cs, idx, ranges, vars, sigma) by {
                    lemma_satisfies_rest(tagged(cs), cs, idx, ranges, vars, sigma);
                    lemma_satisfies_step(head, tagged(rest), rest, idx, ranges, vars, sigma);
                }
            },
            ConstraintView::Join(rowcols, slot) => {
                let row = rowcols[0].0 as int;
                assert(probes(cs)[0] == rowcols[0]);
                lemma_join_solutions(cs, idx, ranges, vars, ranges[row].0 as int);
                assert(ranges.update(row, (ranges[row].0, ranges[row].1)) =~= ranges);
            },
            ConstraintView::Apply(slot, fixed, function) => {
                assert(tagged(cs) =~= tagged(rest));
                assert(probes(cs) =~= probes(rest));
                let computed = apply_spec(function, vars);
                if computed is Ok {
                    if !fixed {
                        lemma_solutions(rest, idx, ranges, vars.update(slot as int, computed->Ok_0));
                    } else if vars[slot as int] == computed->Ok_0 {
                        lemma_solutions(rest, idx, ranges, vars);
                    }
                }
                assert forall|sigma: Seq<ValueView>|
                    #![trigger list.contains(sigma)]
                    #![trigger satisfies(tagged(cs), cs, idx, ranges, vars, sigma)]
                    list.contains(sigma) <==> satisfies(tagged(cs), cs, idx, ranges, vars, sigma) by {
                    lemma_satisfies_apply(tagged(cs), cs, idx, ranges, vars, sigma);
                }
            },
            _ => {},
        }
    }
}

/// The results of a join from position `lo` of its leading column on are
/// exactly the assignments that satisfy the search with the leading row
/// cut down to the positions from `lo` on, each once.
pub proof fn lemma_join_solutions(
    cs: Seq<ConstraintView>,
    idx: Seq<Seq<Seq<ValueView>>>,
    ranges: Seq<LoHi>,
    vars: Seq<ValueView>,
    lo: int,
)
    requires
        cs.len() > 0,
        cs[0] is Join,
        searching(cs),
        settled(cs),
        program_ok(cs, idx.len() as int, vars.len() as int),
        state_ok(idx, ranges),
        ready(probes(cs), idx, ranges),
        ranges[cs[0]->Join_0[0].0 as int].0 <= lo,
    ensures
        lists(
            join_solutions(cs, idx, ranges, vars, lo),
            tagged(cs),
            cs,
            idx,
            ranges.update(
                cs[0]->Join_0[0].0 as int,
                (
                    (if lo < ranges[cs[0]->Join_0[0].0 as int].1 {
                        lo
                    } else {
                        ranges[cs[0]->Join_0[0].0 as int].1 as int
                    }) as usize,
                    ranges[cs[0]->Join_0[0].0 as int].1,
                ),
            ),
            vars,
        ),
    decreases cs.len(), 1int, ranges[cs[0]->Join_0[0].0 as int].1 - lo,
{
    let rowcols = cs[0]->Join_0;
    let slot = cs[0]->Join_1;
    let row = rowcols[0].0 as int;
    let col = idx[row][rowcols[0].1 as int];
    let end = ranges[row].1;
    let rest = cs.drop_first();
    let list = join_solutions(cs, idx, ranges, vars, lo);
    lemma_rest_ok(cs, idx.len() as int, vars.len() as int);
    assert(reads(cs[0], slot as int));
    lemma_tagged_probes(cs);
    assert(probes(cs)[0] == rowcols[0]);
    assert(tagged(cs)[0] == (rowcols[0], slot)) by {
        assert(head_tagged(cs[0])[0] == (rowcols[0], slot));
    }
    if lo >= end {
        let cut = ranges.update(row, (end, end));
        assert forall|sigma: Seq<ValueView>|
            #![trigger list.contains(sigma)]
            #![trigger satisfies(tagged(cs), cs, idx, cut, vars, sigma)]
            list.contains(sigma) <==> satisfies(tagged(cs), cs, idx, cut, vars, sigma) by {
            if satisfies(tagged(cs), cs, idx, cut, vars, sigma) {
                assert(searched(tagged(cs), row));
                assert(witnessed(idx, cut, row, tagged(cs), sigma));
            }
        }
    } else {
        let v = col[lo];
        let hi = first_fail(col, lo + 1, end as int, v, false);
        let whole = ranges.update(row, (lo as usize, end));
        let first = ranges.update(row, (lo as usize, hi as usize));
        let second = ranges.update(row, (hi as usize, end));
        lemma_pending_ascending(probes(cs), idx, ranges);
        lemma_first_fail_parts(col, lo + 1, end as int, v, false);
        lemma_value_lt_irreflexive(v);
        assert forall|k: int| lo <= k < hi implies #[trigger] col[k] == col[lo] by {
            if k > lo {
                assert(crate::semantics::before(col[k], v, false));
                assert(!value_lt(col[k], col[lo]));
            }
        }
        lemma_ready_step(probes(cs), idx, ranges, lo as usize, hi as usize);
        lemma_pending_tagged(cs, 0);
        assert(pending_probes(cs, 0) =~= probes(cs));
        lemma_probe_solutions(cs, idx, first, vars, 1, v);
        lemma_join_solutions(cs, idx, ranges, vars, hi);
        let a = probe_solutions(cs, idx, first, vars, 1, v);
        let b = join_solutions(cs, idx, ranges, vars, hi);
        let cut = ranges.update(row, ((if hi < end { hi } else { end as int }) as usize, end));
        assert(cut =~= second);
        assert forall|sigma: Seq<ValueView>| !(a.contains(sigma) && b.contains(sigma)) by {
            lemma_leader_split(cs, idx, ranges, vars, lo, sigma);
        }
        lemma_no_duplicates_add(a, b);
        assert forall|sigma: Seq<ValueView>|
            #![trigger list.contains(sigma)]
            #![trigger satisfies(tagged(cs), cs, idx, whole, vars, sigma)]
            list.contains(sigma) <==> satisfies(tagged(cs), cs, idx, whole, vars, sigma) by {
            lemma_leader_split(cs, idx, ranges, vars, lo, sigma);
        }
    }
}

/// The results of the branch of a join for the value `v`, once the first
/// `i` columns of the join are known to hold it, are exactly the
/// assignments that give `v` to the slot of the join and satisfy what is
/// left to search, each once.
pub proof fn lemma_probe_solutions(
    cs: Seq<ConstraintView>,
    idx: Seq<Seq<Seq<ValueView>>>,
    ranges: Seq<LoHi>,
    vars: Seq<ValueView>,
    i: int,
    v: ValueView,
)
    requires
        cs.len() > 0,
        cs[0] is Join,
        0 <= i <= cs[0]->Join_0.len(),
        searching(cs),
        settled(cs),
        program_ok(cs, idx.len() as int, vars.len() as int),
        state_ok(idx, ranges),
        ready(pending_probes(cs, i), idx, ranges),
    ensures
        lists(
            probe_solutions(cs, idx, ranges, vars, i, v),
            pending_tagged(cs, i),
            cs.drop_first(),
            idx,
            ranges,
            vars.update(cs[0]->Join_1 as int, v),
        ),
    decreases cs.len(), 0int, cs[0]->Join_0.len() - i,
{
    let rowcols = cs[0]->Join_0;
    let slot = cs[0]->Join_1;
    let rest = cs.drop_first();
    let moved = vars.update(slot as int, v);
    let list = probe_solutions(cs, idx, ranges, vars, i, v);
    lemma_rest_ok(cs, idx.len() as int, vars.len() as int);
    assert(reads(cs[0], slot as int));
    lemma_pending_tagged(cs, i);
    if i >= rowcols.len() {
        lemma_solutions(rest, idx, ranges, moved);
    } else {
        let row = rowcols[i].0;
        let col = rowcols[i].1;
        let head = (rowcols[i], slot);
        let found = narrow(idx[row as int][col as int], ranges[row as int], v);
        let next = ranges.update(row as int, (found.0 as usize, found.1 as usize));
        assert(pending_probes(cs, i)[0] == rowcols[i]);
        lemma_pending_ascending(pending_probes(cs, i), idx, ranges);
        lemma_narrow_exact(idx[row as int][col as int], ranges[row as int], v);
        if found.0 < found.1 {
            lemma_ready_step(pending_probes(cs, i), idx, ranges, found.0 as usize, found.1 as usize);
            lemma_probe_solutions(cs, idx, next, vars, i + 1, v);
        }
        assert forall|sigma: Seq<ValueView>|
            #![trigger list.contains(sigma)]
            #![trigger satisfies(pending_tagged(cs, i), rest, idx, ranges, moved, sigma)]
            list.contains(sigma) <==> satisfies(
                pending_tagged(cs, i),
                rest,
                idx,
                ranges,
                moved,
                sigma,
            ) by {
            lemma_satisfies_step(head, pending_tagged(cs, i + 1), rest, idx, ranges, moved, sigma);
        }
    }
}

/// A program that only reports: every constraint is an `Assert` or a
/// `Debug`.
pub open spec fn reporting(cs: Seq<ConstraintView>) -> bool {
    forall|i: int| 0 <= i < cs.len() ==> (#[trigger] cs[i]) is Assert || cs[i] is Debug
}

/// What a program that only reports emits for one assignment.
pub open spec fn emitted(cs: Seq<ConstraintView>, sigma: Seq<ValueView>) -> Output
    decreases cs.len(),
{
    if cs.len() == 0 {
        nothing()
    } else {
        let more = emitted(cs.drop_first(), sigma);
        match cs[0] {
            ConstraintView::Assert(a, b, c) => Output {
                results: more.results,
                asserts: seq![(sigma[a as int], sigma[b as int], sigma[c as int])] + more.asserts,
            },
            ConstraintView::Debug(named) => Output {
                results: row_of(named, sigma) + more.results,
                asserts: more.asserts,
            },
            _ => more,
        }
    }
}

/// What a program that only reports emits for the assignments of a list,
/// one after the other.
pub open spec fn gathered(list: Seq<Seq<ValueView>>, tail: Seq<ConstraintView>) -> Output
    decreases list.len(),
{
    if list.len() == 0 {
        nothing()
    } else {
        let first = emitted(tail, list[0]);
        let more = gathered(list.drop_first(), tail);
        Output { results: first.results + more.results, asserts: first.asserts + more.asserts }
    }
}

/// A program that only reports emits, whatever the indexes and ranges,
/// what `emitted` tells.
pub proof fn lemma_reporting(
    tail: Seq<ConstraintView>,
    idx: Seq<Seq<Seq<ValueView>>>,
    ranges: Seq<LoHi>,
    sigma: Seq<ValueView>,
)
    requires
        reporting(tail),
    ensures
        run_spec(tail, idx, ranges, sigma) == Ok::<Output, Fault>(emitted(tail, sigma)),
    decreases tail.len(),
{
    if tail.len() > 0 {
        let rest = tail.drop_first();
        assert forall|i: int| 0 <= i < rest.len() implies (#[trigger] rest[i]) is Assert
            || rest[i] is Debug by {
            assert(rest[i] == tail[i + 1]);
        }
        lemma_reporting(rest, idx, ranges, sigma);
        let more = emitted(rest, sigma);
        match tail[0] {
            ConstraintView::Assert(a, b, c) => {
                assert(Seq::<ValueView>::empty() + more.results =~= more.results);
            },
            ConstraintView::Debug(named) => {
                assert(Seq::<(ValueView, ValueView, ValueView)>::empty() + more.asserts
                    =~= more.asserts);
            },
            _ => {},
        }
    }
}

/// What is emitted for two lists of assignments put together.
pub proof fn lemma_gathered_add(
    a: Seq<Seq<ValueView>>,
    b: Seq<Seq<ValueView>>,
    tail: Seq<ConstraintView>,
)
    ensures
        then(Ok(gathered(a, tail)), Ok(gathered(b, tail))) == Ok::<Output, Fault>(
            gathered(a + b, tail),
        ),
    decreases a.len(),
{
    let ga = gathered(a, tail);
    let gb = gathered(b, tail);
    if a.len() == 0 {
        assert(a + b =~= b);
        assert(Seq::<ValueView>::empty() + gb.results =~= gb.results);
        assert(Seq::<(ValueView, ValueView, ValueView)>::empty() + gb.asserts =~= gb.asserts);
    } else {
        lemma_gathered_add(a.drop_first(), b, tail);
        assert((a + b).drop_first() =~= a.drop_first() + b);
        let first = emitted(tail, a[0]);
        let ra = gathered(a.drop_first(), tail);
        assert((first.results + ra.results) + gb.results =~= first.results + (ra.results
            + gb.results));
        assert((first.asserts + ra.asserts) + gb.asserts =~= first.asserts + (ra.asserts
            + gb.asserts));
    }
}

/// A search followed by a report emits the report for every assignment
/// that the search finds, in the order in which it finds them.
pub proof fn lemma_run_gathers(
    cs: Seq<ConstraintView>,
    tail: Seq<ConstraintView>,
    idx: Seq<Seq<Seq<ValueView>>>,
    ranges: Seq<LoHi>,
    vars: Seq<ValueView>,
)
    requires
        searching(cs),
        reporting(tail),
        run_spec(cs + tail, idx, ranges, vars) is Ok,
    ensures
        run_spec(cs + tail, idx, ranges, vars) == Ok::<Output, Fault>(
            gathered(solutions(cs, idx, ranges, vars), tail),
        ),
    decreases cs.len(), 2int, 0int,
{
    if cs.len() == 0 {
        assert(cs + tail =~= tail);
        lemma_reporting(tail, idx, ranges, vars);
        let one = solutions(cs, idx, ranges, vars);
        assert(one == seq![vars]);
        assert(one.drop_first() =~= Seq::<Seq<ValueView>>::empty());
        assert(gathered(one.drop_first(), tail) == nothing());
        let first = emitted(tail, vars);
        assert(first.results + nothing().results =~= first.results);
        assert(first.asserts + nothing().asserts =~= first.asserts);
        assert(gathered(one, tail) == first);
    } else {
        let rest = cs.drop_first();
        assert((cs + tail).drop_first() =~= rest + tail);
        assert((cs + tail)[0] == cs[0]);
        assert forall|i: int| 0 <= i < rest.len() implies (#[trigger] rest[i]) is Narrow
            || rest[i] is Join || rest[i] is Apply by {
            assert(rest[i] == cs[i + 1]);
        }
        match cs[0] {
            ConstraintView::Narrow((row, col), slot) => {
                let found = narrow(idx[row as int][col as int], ranges[row as int], vars[slot as int]);
                if found.0 < found.1 {
                    lemma_run_gathers(
                        rest,
                        tail,
                        idx,
                        ranges.update(row as int, (found.0 as usize, found.1 as usize)),
                        vars,
                    );
                }
            },
            ConstraintView::Join(rowcols, slot) => {
                lemma_join_gathers(cs, tail, idx, ranges, vars, ranges[rowcols[0].0 as int].0 as int);
            },
            ConstraintView::Apply(slot, fixed, function) => {
                let computed = apply_spec(function, vars);
                if !fixed {
                    lemma_run_gathers(rest, tail, idx, ranges, vars.update(slot as int, computed->Ok_0));
                } else if vars[slot as int] == computed->Ok_0 {
                    lemma_run_gathers(rest, tail, idx, ranges, vars);
                }
            },
            _ => {},
        }
    }
}

/// The rounds of a join followed by a report emit the report for every
/// assignment that the rounds find.
pub proof fn lemma_join_gathers(
    cs: Seq<ConstraintView>,
    tail: Seq<ConstraintView>,
    idx: Seq<Seq<Seq<ValueView>>>,
    ranges: Seq<LoHi>,
    vars: Seq<ValueView>,
    lo: int,
)
    requires
        cs.len() > 0,
        cs[0] is Join,
        searching(cs),
        reporting(tail),
        join_spec(cs + tail, idx, ranges, vars, lo) is Ok,
    ensures
        join_spec(cs + tail, idx, ranges, vars, lo) == Ok::<Output, Fault>(
            gathered(join_solutions(cs, idx, ranges, vars, lo), tail),
        ),
    decreases cs.len(), 1int, join_end(cs, ranges) - lo,
{
    let all = cs + tail;
    assert(all[0] == cs[0]);
    let end = join_end(cs, ranges);
    assert(join_end(all, ranges) == end);
    if lo < end {
        let (row, col) = cs[0]->Join_0[0];
        let column = idx[row as int][col as int];
        let v = column[lo];
        let hi = first_fail(column, lo + 1, end, v, false);
        crate::semantics::lemma_first_fail_bounds(column, lo + 1, end, v, false);
        let first = ranges.update(row as int, (lo as usize, hi as usize));
        lemma_probe_gathers(cs, tail, idx, first, vars, 1, v);
        lemma_join_gathers(cs, tail, idx, ranges, vars, hi);
        lemma_gathered_add(
            probe_solutions(cs, idx, first, vars, 1, v),
            join_solutions(cs, idx, ranges, vars, hi),
            tail,
        );
    }
}

/// The branch of a join followed by a report emits the report for every
/// assignment that the branch finds.
pub proof fn lemma_probe_gathers(
    cs: Seq<ConstraintView>,
    tail: Seq<ConstraintView>,
    idx: Seq<Seq<Seq<ValueView>>>,
    ranges: Seq<LoHi>,
    vars: Seq<ValueView>,
    i: int,
    v: ValueView,
)
    requires
        cs.len() > 0,
        cs[0] is Join,
        0 <= i,
        searching(cs),
        reporting(tail),
        probe_spec(cs + tail, idx, ranges, vars, i, v) is Ok,
    ensures
        probe_spec(cs + tail, idx, ranges, vars, i, v) == Ok::<Output, Fault>(
            gathered(probe_solutions(cs, idx, ranges, vars, i, v), tail),
        ),
    decreases cs.len(), 0int, cs[0]->Join_0.len() - i,
{
    let all = cs + tail;
    let rest = cs.drop_first();
    assert(all[0] == cs[0]);
    assert(all.drop_first() =~= rest + tail);
    assert forall|j: int| 0 <= j < rest.len() implies (#[trigger] rest[j]) is Narrow
        || rest[j] is Join || rest[j] is Apply by {
        assert(rest[j] == cs[j + 1]);
    }
    let rowcols = cs[0]->Join_0;
    if i >= rowcols.len() {
        lemma_run_gathers(rest, tail, idx, ranges, vars.update(cs[0]->Join_1 as int, v));
    } else {
        let (row, col) = rowcols[i];
        let found = narrow(idx[row as int][col as int], ranges[row as int], v);
        if found.0 < found.1 {
            lemma_probe_gathers(
                cs,
                tail,
                idx,
                ranges.update(row as int, (found.0 as usize, found.1 as usize)),
                vars,
                i + 1,
                v,
            );
        }
    }
}

} // verus!
