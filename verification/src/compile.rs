//! The compiler: from the syntax tree of a block to its plan.

use vstd::prelude::*;
use crate::aligned::rows_ok;
use crate::ast::{BlockAst, StatementAst};
use crate::ir::{ir_ok, irs_view, translate, ExprIr, IrView};
use crate::order::Order;
use crate::plan::{
    constraints_view, named_view, values_view, Block, Constraint, ConstraintView, Function, RowCol,
};
use crate::value::{clone_value, compare_values, Value, ValueView};
use crate::planner::{
    applies, assert_constraints, compile_spec, const_only, constants_of, covered, emit_slot,
    emit_slots, expr_slots, find_slot, first_conflict, first_named, first_variable, flatten_block,
    functions_of, gather, hits, holds_expr, initial_group, initial_groups, keep, known, merge,
    merge_all, named_of, narrows, ordering_of, orderings_of, partition, promote, row_hits,
    rowcols_of, rows_of, slot_index, slots_of, CompileFault, Flat,
};

verus! {

/// The flat form of a block, as the compiler holds it.
pub struct FlatBlock {
    pub exprs: Vec<ExprIr>,
    pub patterns: Vec<(usize, usize)>,
    pub asserts: Vec<(usize, usize, usize)>,
}

impl View for FlatBlock {
    type V = Flat;

    open spec fn view(&self) -> Flat {
        Flat { exprs: irs_view(self.exprs@), patterns: self.patterns@, asserts: self.asserts@ }
    }
}

/// Flattens the statements of a block, skipping those that did not parse.
pub fn flatten_statements(block: &BlockAst) -> (flat: FlatBlock)
    ensures
        flat@ == flatten_block(block@),
        ir_ok(flat@.exprs),
        forall|k: int|
            0 <= k < flat@.patterns.len() ==> (#[trigger] flat@.patterns[k]).0 < flat@.exprs.len()
                && flat@.patterns[k].1 < flat@.exprs.len(),
        forall|k: int|
            0 <= k < flat@.asserts.len() ==> (#[trigger] flat@.asserts[k]).0 < flat@.exprs.len()
                && flat@.asserts[k].1 < flat@.exprs.len() && flat@.asserts[k].2
                < flat@.exprs.len(),
{
    let mut exprs: Vec<ExprIr> = Vec::new();
    let mut patterns: Vec<(usize, usize)> = Vec::new();
    let mut asserts: Vec<(usize, usize, usize)> = Vec::new();
    let mut i: usize = 0;
    proof {
        assert(irs_view(exprs@) =~= Seq::<IrView>::empty());
        assert(block@.take(0).len() == 0);
    }
    while i < block.statements.len()
        invariant
            i <= block.statements@.len(),
            (Flat { exprs: irs_view(exprs@), patterns: patterns@, asserts: asserts@ })
                == flatten_block(block@.take(i as int)),
            ir_ok(irs_view(exprs@)),
            forall|k: int|
                0 <= k < patterns@.len() ==> (#[trigger] patterns@[k]).0 < exprs@.len()
                    && patterns@[k].1 < exprs@.len(),
            forall|k: int|
                0 <= k < asserts@.len() ==> (#[trigger] asserts@[k]).0 < exprs@.len()
                    && asserts@[k].1 < exprs@.len() && asserts@[k].2 < exprs@.len(),
        decreases block.statements@.len() - i,
    {
        let ghost before = flatten_block(block@.take(i as int));
        proof {
            assert(block@.take(i + 1).drop_last() =~= block@.take(i as int));
            assert(block@.take(i + 1).last() == block@[i as int]);
        }
        match &block.statements[i] {
            Ok(StatementAst::Pattern(es)) => {
                let a = translate(&es[0], &mut exprs);
                let b = translate(&es[1], &mut exprs);
                patterns.push((a, b));
                proof {
                    let after = flatten_block(block@.take(i + 1));
                    assert(irs_view(exprs@) =~= after.exprs);
                }
            },
            Ok(StatementAst::Assert(es)) => {
                let e = translate(&es[0], &mut exprs);
                let a = translate(&es[1], &mut exprs);
                let v = translate(&es[2], &mut exprs);
                asserts.push((e, a, v));
                proof {
                    let after = flatten_block(block@.take(i + 1));
                    assert(irs_view(exprs@) =~= after.exprs);
                }
            },
            Err(_) => {},
        }
        i += 1;
    }
    proof {
        assert(block@.take(i as int) =~= block@);
    }
    FlatBlock { exprs, patterns, asserts }
}

/// Puts every expression in its first group: a variable with the first
/// expression that is the same variable, anything else alone.
pub fn group_variables(exprs: &Vec<ExprIr>) -> (groups: Vec<usize>)
    ensures
        groups@ == initial_groups(irs_view(exprs@)),
        forall|k: int| 0 <= k < groups@.len() ==> #[trigger] groups@[k] < groups@.len(),
{
    let ghost irs = irs_view(exprs@);
    let mut groups: Vec<usize> = Vec::new();
    let mut i: usize = 0;
    while i < exprs.len()
        invariant
            i <= exprs@.len(),
            irs == irs_view(exprs@),
            groups@.len() == i,
            forall|k: int| 0 <= k < i ==> #[trigger] groups@[k] == initial_group(irs, k),
            forall|k: int| 0 <= k < i ==> #[trigger] groups@[k] <= k,
        decreases exprs@.len() - i,
    {
        let group = match &exprs[i] {
            ExprIr::Variable(name) => {
                let mut j: usize = 0;
                let mut first = i;
                while j < i
                    invariant_except_break
                        first == i,
                        first_named(irs, name@, j as int) == j,
                    invariant
                        j <= i <= exprs@.len(),
                        irs == irs_view(exprs@),
                    ensures
                        first == first_named(irs, name@, i as int),
                        first <= i,
                    decreases i - j,
                {
                    let same = match &exprs[j] {
                        ExprIr::Variable(other) => *other == *name,
                        _ => false,
                    };
                    if same {
                        first = j;
                        proof {
                            lemma_first_named_found(irs, name@, j as int, i as int);
                        }
                        break ;
                    }
                    j += 1;
                }
                first
            },
            _ => i,
        };
        groups.push(group);
        i += 1;
    }
    assert(groups@ =~= initial_groups(irs));
    groups
}

/// Once the variable has been found at `j`, that is where it first stands
/// below any later bound.
pub proof fn lemma_first_named_found(exprs: Seq<IrView>, name: Seq<char>, j: int, upto: int)
    requires
        0 <= j < upto,
        first_named(exprs, name, j) == j,
        exprs[j] == IrView::Variable(name),
    ensures
        first_named(exprs, name, upto) == j,
    decreases upto - j,
{
    if upto > j + 1 {
        lemma_first_named_found(exprs, name, j, upto - 1);
    }
}

/// Makes the two sides of every pattern equal: renames, pattern by
/// pattern, the group of the right side to that of the left.
pub fn merge_patterns(groups: &mut Vec<usize>, patterns: &Vec<(usize, usize)>)
    requires
        forall|k: int|
            0 <= k < patterns@.len() ==> (#[trigger] patterns@[k]).0 < old(groups)@.len()
                && patterns@[k].1 < old(groups)@.len(),
    ensures
        final(groups)@ == merge_all(old(groups)@, patterns@),
        final(groups)@.len() == old(groups)@.len(),
        (forall|k: int| 0 <= k < old(groups)@.len() ==> #[trigger] old(groups)@[k] < old(
            groups,
        )@.len()) ==> (forall|k: int|
            0 <= k < final(groups)@.len() ==> #[trigger] final(groups)@[k] < final(groups)@.len()),
{
    let ghost start = groups@;
    let mut i: usize = 0;
    while i < patterns.len()
        invariant
            i <= patterns@.len(),
            groups@.len() == start.len(),
            groups@ == merge_all(start, patterns@.take(i as int)),
            forall|k: int|
                0 <= k < patterns@.len() ==> (#[trigger] patterns@[k]).0 < start.len()
                    && patterns@[k].1 < start.len(),
            (forall|k: int| 0 <= k < start.len() ==> #[trigger] start[k] < start.len()) ==> (
            forall|k: int| 0 <= k < groups@.len() ==> #[trigger] groups@[k] < groups@.len()),
        decreases patterns@.len() - i,
    {
        let ghost before = groups@;
        let (expr1, expr2) = patterns[i];
        let group1 = groups[expr1];
        let group2 = groups[expr2];
        let mut k: usize = 0;
        while k < groups.len()
            invariant
                k <= groups@.len(),
                groups@.len() == before.len(),
                expr1 < before.len(),
                expr2 < before.len(),
                group1 == before[expr1 as int],
                group2 == before[expr2 as int],
                forall|j: int| 0 <= j < k ==> #[trigger] groups@[j] == merge(before, (expr1, expr2))[j],
                forall|j: int| k <= j < groups@.len() ==> #[trigger] groups@[j] == before[j],
                (forall|j: int| 0 <= j < before.len() ==> #[trigger] before[j] < before.len())
                    ==> (forall|j: int|
                    0 <= j < groups@.len() ==> #[trigger] groups@[j] < groups@.len()),
            decreases groups@.len() - k,
        {
            if groups[k] == group2 {
                groups.set(k, group1);
            }
            k += 1;
        }
        proof {
            assert(groups@ =~= merge(before, (expr1, expr2)));
            assert(patterns@.take(i + 1).drop_last() =~= patterns@.take(i as int));
        }
        i += 1;
    }
    proof {
        assert(patterns@.take(i as int) =~= patterns@);
    }
}

/// The models of a list of slots.
pub open spec fn slots_view(slots: Seq<Vec<usize>>) -> Seq<Seq<usize>> {
    slots.map_values(|s: Vec<usize>| s@)
}

/// Gathers the expressions into slots: one slot for each group, in the
/// order in which the groups first appear.
pub fn gather_slots(groups: &Vec<usize>) -> (slots: Vec<Vec<usize>>)
    ensures
        slots_view(slots@) == gather(groups@, groups@.len() as int),
        partition(slots_view(slots@), groups@.len() as int),
{
    let mut slots: Vec<Vec<usize>> = Vec::new();
    let mut i: usize = 0;
    while i < groups.len()
        invariant
            i <= groups@.len(),
            slots_view(slots@) == gather(groups@, i as int),
            forall|s: int|
                0 <= s < slots@.len() ==> (#[trigger] slots@[s])@.len() > 0 && slots@[s]@[0]
                    < groups@.len(),
            partition(slots_view(slots@), i as int),
        decreases groups@.len() - i,
    {
        let ghost before = slots_view(slots@);
        let group = groups[i];
        let mut s: usize = 0;
        while s < slots.len() && groups[slots[s][0]] != group
            invariant
                s <= slots@.len(),
                before == slots_view(slots@),
                forall|t: int|
                    0 <= t < slots@.len() ==> (#[trigger] slots@[t])@.len() > 0 && slots@[t]@[0]
                        < groups@.len(),
                find_slot(before, groups@, group, 0) == find_slot(before, groups@, group, s as int),
            decreases slots@.len() - s,
        {
            assert(before[s as int] == slots@[s as int]@);
            s += 1;
        }
        proof {
            if s < slots@.len() {
                assert(before[s as int] == slots@[s as int]@);
            }
        }
        if s < slots.len() {
            let mut members = Vec::new();
            let mut k: usize = 0;
            while k < slots[s].len()
                invariant
                    s < slots@.len(),
                    k <= slots@[s as int]@.len(),
                    members@ == slots@[s as int]@.take(k as int),
                decreases slots@[s as int]@.len() - k,
            {
                members.push(slots[s][k]);
                assert(slots@[s as int]@.take(k + 1) =~= slots@[s as int]@.take(k as int).push(
                    slots@[s as int]@[k as int],
                ));
                k += 1;
            }
            assert(slots@[s as int]@.take(k as int) =~= slots@[s as int]@);
            members.push(i);
            slots.set(s, members);
            proof {
                let after = slots_view(slots@);
                assert(after =~= before.update(s as int, before[s as int].push(i)));
                lemma_partition_grow(before, after, i as int, s as int);
            }
        } else {
            let mut members = Vec::new();
            members.push(i);
            slots.push(members);
            proof {
                let after = slots_view(slots@);
                assert(after =~= before.push(seq![i]));
                lemma_partition_grow(before, after, i as int, before.len() as int);
            }
        }
        i += 1;
    }
    slots
}

/// Tells whether a slot holds a constant and no function.
pub fn is_const_only(slot: &Vec<usize>, exprs: &Vec<ExprIr>) -> (r: bool)
    requires
        forall|k: int| 0 <= k < slot@.len() ==> #[trigger] slot@[k] < exprs@.len(),
    ensures
        r == const_only(slot@, irs_view(exprs@)),
{
    let ghost irs = irs_view(exprs@);
    let mut any_constant = false;
    let mut no_function = true;
    let mut k: usize = 0;
    while k < slot.len()
        invariant
            k <= slot@.len(),
            irs == irs_view(exprs@),
            forall|j: int| 0 <= j < slot@.len() ==> #[trigger] slot@[j] < exprs@.len(),
            any_constant == exists|j: int|
                0 <= j < k && irs[#[trigger] slot@[j] as int] is Constant,
            no_function == forall|j: int|
                0 <= j < k ==> !(irs[#[trigger] slot@[j] as int] is Function),
        decreases slot@.len() - k,
    {
        if exprs[slot[k]].is_constant() {
            any_constant = true;
        }
        if exprs[slot[k]].is_function() {
            no_function = false;
        }
        k += 1;
    }
    any_constant && no_function
}

/// Copies a list of indices.
pub fn copy_indices(from: &Vec<usize>) -> (to: Vec<usize>)
    ensures
        to@ == from@,
{
    let mut to: Vec<usize> = Vec::new();
    let mut k: usize = 0;
    while k < from.len()
        invariant
            k <= from@.len(),
            to@ == from@.take(k as int),
        decreases from@.len() - k,
    {
        to.push(from[k]);
        assert(from@.take(k + 1) =~= from@.take(k as int).push(from@[k as int]));
        k += 1;
    }
    assert(from@.take(k as int) =~= from@);
    to
}

/// Moves the slots that hold a constant and no function to the front, and
/// keeps the order otherwise.
pub fn promote_slots(slots: &Vec<Vec<usize>>, exprs: &Vec<ExprIr>) -> (out: Vec<Vec<usize>>)
    requires
        forall|s: int, k: int|
            0 <= s < slots@.len() && 0 <= k < slots@[s]@.len() ==> #[trigger] slots@[s]@[k]
                < exprs@.len(),
    ensures
        slots_view(out@) == promote(slots_view(slots@), irs_view(exprs@)),
        partition(slots_view(slots@), exprs@.len() as int) ==> partition(
            slots_view(out@),
            exprs@.len() as int,
        ),
        promoted(slots_view(out@), irs_view(exprs@)),
{
    let ghost irs = irs_view(exprs@);
    let ghost views = slots_view(slots@);
    let ghost mut src = Seq::<int>::empty();
    let mut out: Vec<Vec<usize>> = Vec::new();
    let mut s: usize = 0;
    assert(slots_view(out@) =~= keep(views, irs, true, 0));
    while s < slots.len()
        invariant
            s <= slots@.len(),
            irs == irs_view(exprs@),
            views == slots_view(slots@),
            forall|t: int, k: int|
                0 <= t < slots@.len() && 0 <= k < slots@[t]@.len() ==> #[trigger] slots@[t]@[k]
                    < exprs@.len(),
            slots_view(out@) == keep(views, irs, true, s as int),
            src.len() == out@.len(),
            forall|j: int|
                0 <= j < src.len() ==> 0 <= #[trigger] src[j] < s && slots_view(out@)[j]
                    == views[src[j]] && const_only(views[src[j]], irs),
            forall|i: int, j: int| 0 <= i < j < src.len() ==> src[i] < src[j],
            forall|t: int|
                0 <= t < s && const_only(#[trigger] views[t], irs) ==> exists|j: int|
                    0 <= j < src.len() && src[j] == t,
        decreases slots@.len() - s,
    {
        assert(views[s as int] == slots@[s as int]@);
        if is_const_only(&slots[s], exprs) {
            let ghost before = slots_view(out@);
            let ghost src0 = src;
            out.push(copy_indices(&slots[s]));
            proof {
                src = src.push(s as int);
                assert(slots_view(out@) =~= before.push(views[s as int]));
                assert forall|t: int|
                    0 <= t < s + 1 && const_only(#[trigger] views[t], irs) implies exists|j: int|
                    0 <= j < src.len() && src[j] == t by {
                    if t < s {
                        let j = choose|j: int| 0 <= j < src0.len() && src0[j] == t;
                        assert(src[j] == t);
                    } else {
                        assert(src[src.len() - 1] == t);
                    }
                }
            }
        }
        s += 1;
    }
    let ghost front = slots_view(out@);
    let ghost split = src.len();
    let mut s: usize = 0;
    assert(slots_view(out@) =~= front + keep(views, irs, false, 0));
    while s < slots.len()
        invariant
            s <= slots@.len(),
            irs == irs_view(exprs@),
            views == slots_view(slots@),
            forall|t: int, k: int|
                0 <= t < slots@.len() && 0 <= k < slots@[t]@.len() ==> #[trigger] slots@[t]@[k]
                    < exprs@.len(),
            front == keep(views, irs, true, slots@.len() as int),
            slots_view(out@) == front + keep(views, irs, false, s as int),
            src.len() == out@.len(),
            split <= src.len(),
            forall|j: int|
                0 <= j < src.len() ==> 0 <= #[trigger] src[j] < slots@.len() && slots_view(out@)[j]
                    == views[src[j]] && (const_only(views[src[j]], irs) <==> j < split),
            forall|j: int| split <= j < src.len() ==> #[trigger] src[j] < s,
            forall|i: int, j: int| 0 <= i < j < split ==> src[i] < src[j],
            forall|i: int, j: int| split <= i < j < src.len() ==> src[i] < src[j],
            forall|t: int|
                0 <= t < slots@.len() && const_only(#[trigger] views[t], irs) ==> exists|j: int|
                    0 <= j < src.len() && src[j] == t,
            forall|t: int|
                0 <= t < s && !const_only(#[trigger] views[t], irs) ==> exists|j: int|
                    0 <= j < src.len() && src[j] == t,
        decreases slots@.len() - s,
    {
        assert(views[s as int] == slots@[s as int]@);
        let ghost src0 = src;
        if !is_const_only(&slots[s], exprs) {
            let ghost before = slots_view(out@);
            out.push(copy_indices(&slots[s]));
            proof {
                src = src.push(s as int);
                assert(slots_view(out@) =~= before.push(views[s as int]));
                assert(slots_view(out@) =~= front + keep(views, irs, false, s + 1));
            }
        }
        proof {
            assert forall|t: int|
                0 <= t < slots@.len() && const_only(#[trigger] views[t], irs) implies exists|j: int|
                0 <= j < src.len() && src[j] == t by {
                let j = choose|j: int| 0 <= j < src0.len() && src0[j] == t;
                assert(src[j] == t);
            }
            assert forall|t: int|
                0 <= t < s + 1 && !const_only(#[trigger] views[t], irs) implies exists|j: int|
                0 <= j < src.len() && src[j] == t by {
                if t < s {
                    let j = choose|j: int| 0 <= j < src0.len() && src0[j] == t;
                    assert(src[j] == t);
                } else {
                    assert(src[src.len() - 1] == t);
                }
            }
        }
        s += 1;
    }
    proof {
        assert forall|t: int| 0 <= t < views.len() implies #[trigger] sourced(src, t) by {
            if const_only(views[t], irs) {
                let j = choose|j: int| 0 <= j < src.len() && src[j] == t;
                assert(src[j] == t);
            } else {
                let j = choose|j: int| 0 <= j < src.len() && src[j] == t;
                assert(src[j] == t);
            }
        }
        assert forall|i: int, j: int| 0 <= i < j < src.len() implies src[i] != src[j] by {
            if i < split && j >= split {
                assert(const_only(views[src[i]], irs));
                assert(!const_only(views[src[j]], irs));
            }
        }
        if partition(views, exprs@.len() as int) {
            lemma_partition_permuted(views, slots_view(out@), src, exprs@.len() as int);
        }
        assert(promoted(slots_view(out@), irs)) by {
            let o = slots_view(out@);
            assert forall|i: int, j: int|
                0 <= i < j < o.len() && const_only(#[trigger] o[j], irs) implies const_only(
                #[trigger] o[i],
                irs,
            ) by {
                assert(o[j] == views[src[j]]);
                assert(o[i] == views[src[i]]);
            }
        }
    }
    out
}

/// The constant-only slots come first: no slot stands before a
/// constant-only slot unless it is one itself.
pub open spec fn promoted(slots: Seq<Seq<usize>>, exprs: Seq<IrView>) -> bool {
    forall|i: int, j: int|
        0 <= i < j < slots.len() && const_only(#[trigger] slots[j], exprs) ==> const_only(
            #[trigger] slots[i],
            exprs,
        )
}

/// Some slot of the new order comes from slot `t` of the old.
pub open spec fn sourced(src: Seq<int>, t: int) -> bool {
    exists|j: int| 0 <= j < src.len() && #[trigger] src[j] == t
}

/// Slots that part the expressions still part them in another order.
pub proof fn lemma_partition_permuted(
    slots: Seq<Seq<usize>>,
    out: Seq<Seq<usize>>,
    src: Seq<int>,
    n: int,
)
    requires
        partition(slots, n),
        src.len() == out.len(),
        forall|j: int|
            0 <= j < src.len() ==> 0 <= #[trigger] src[j] < slots.len() && out[j] == slots[src[j]],
        forall|i: int, j: int| 0 <= i < j < src.len() ==> src[i] != src[j],
        forall|t: int| 0 <= t < slots.len() ==> #[trigger] sourced(src, t),
    ensures
        partition(out, n),
{
    assert forall|s: int| 0 <= s < out.len() implies (#[trigger] out[s]).len() > 0 by {
        assert(out[s] == slots[src[s]]);
    }
    assert forall|s: int, k: int| 0 <= s < out.len() && 0 <= k < out[s].len() implies #[trigger] out[s][k]
        < n by {
        assert(out[s][k] == slots[src[s]][k]);
    }
    assert forall|s: int, j: int, k: int|
        0 <= s < out.len() && 0 <= j < k < out[s].len() implies #[trigger] out[s][j]
        < #[trigger] out[s][k] by {
        assert(slots[src[s]][j] < slots[src[s]][k]);
    }
    assert forall|e: int| 0 <= e < n implies #[trigger] covered(out, e) by {
        assert(covered(slots, e));
        let t = choose|t: int| holds_expr(slots, t, e);
        let k = choose|k: int| 0 <= k < slots[t].len() && #[trigger] slots[t][k] == e;
        assert(sourced(src, t));
        let j = choose|j: int| 0 <= j < src.len() && #[trigger] src[j] == t;
        assert(out[j][k] == e);
        assert(holds_expr(out, j, e));
    }
    assert forall|s: int, t: int, j: int, k: int|
        0 <= s < out.len() && 0 <= t < out.len() && 0 <= j < out[s].len() && 0 <= k
            < out[t].len() && #[trigger] out[s][j] == #[trigger] out[t][k] implies s == t by {
        assert(slots[src[s]][j] == slots[src[t]][k]);
        assert(src[s] == src[t]);
    }
}

/// Finds, for every expression, the slot that holds it.
pub fn index_slots(slots: &Vec<Vec<usize>>, n: usize) -> (expr_slot: Vec<usize>)
    requires
        forall|s: int, k: int|
            0 <= s < slots@.len() && 0 <= k < slots@[s]@.len() ==> #[trigger] slots@[s]@[k] < n,
    ensures
        expr_slot@ == expr_slots(slots_view(slots@), n as nat),
{
    let ghost views = slots_view(slots@);
    let mut expr_slot: Vec<usize> = Vec::new();
    let mut e: usize = 0;
    while e < n
        invariant
            e <= n,
            expr_slot@.len() == e,
            forall|k: int| 0 <= k < e ==> #[trigger] expr_slot@[k] == k,
        decreases n - e,
    {
        expr_slot.push(e);
        e += 1;
    }
    let mut s: usize = 0;
    while s < slots.len()
        invariant
            s <= slots@.len(),
            views == slots_view(slots@),
            expr_slot@.len() == n,
            forall|t: int, k: int|
                0 <= t < slots@.len() && 0 <= k < slots@[t]@.len() ==> #[trigger] slots@[t]@[k]
                    < n,
            forall|k: int|
                0 <= k < n ==> #[trigger] expr_slot@[k] == slot_index(views, k as usize, s as int),
        decreases slots@.len() - s,
    {
        let ghost before = expr_slot@;
        let slot = &slots[s];
        assert(views[s as int] == slot@);
        let mut k: usize = 0;
        while k < slot.len()
            invariant
                k <= slot@.len(),
                expr_slot@.len() == n,
                before.len() == n,
                forall|j: int| 0 <= j < slot@.len() ==> #[trigger] slot@[j] < n,
                forall|x: int|
                    0 <= x < n ==> #[trigger] expr_slot@[x] == (if slot@.take(k as int).contains(
                        x as usize,
                    ) {
                        s
                    } else {
                        before[x]
                    }),
            decreases slot@.len() - k,
        {
            let ghost mid = expr_slot@;
            expr_slot.set(slot[k], s);
            proof {
                let short = slot@.take(k as int);
                let long = slot@.take(k + 1);
                assert(long =~= short.push(slot@[k as int]));
                assert forall|x: int| 0 <= x < n implies #[trigger] expr_slot@[x] == (if long.contains(
                    x as usize,
                ) {
                    s
                } else {
                    before[x]
                }) by {
                    if short.contains(x as usize) {
                        let j = choose|j: int| 0 <= j < short.len() && short[j] == x as usize;
                        assert(long[j] == x as usize);
                    }
                    if x == slot@[k as int] {
                        assert(long[k as int] == x as usize);
                    }
                    if long.contains(x as usize) {
                        let j = choose|j: int| 0 <= j < long.len() && long[j] == x as usize;
                        if j < k {
                            assert(short[j] == x as usize);
                        }
                    }
                    assert(mid[x] == (if short.contains(x as usize) {
                        s
                    } else {
                        before[x]
                    }));
                }
            }
            k += 1;
        }
        assert(slot@.take(k as int) =~= slot@);
        s += 1;
    }
    assert(expr_slot@ =~= expr_slots(views, n as nat));
    expr_slot
}

/// Collects the rows: for every `Dot`, the indices of its entity, its
/// attribute and itself.
pub fn collect_rows(exprs: &Vec<ExprIr>) -> (rows: Vec<(usize, usize, usize)>)
    ensures
        rows@ == rows_of(irs_view(exprs@), exprs@.len() as int),
        ir_ok(irs_view(exprs@)) ==> rows_ok(rows@, exprs@.len() as int),
{
    let mut rows: Vec<(usize, usize, usize)> = Vec::new();
    let mut v: usize = 0;
    while v < exprs.len()
        invariant
            v <= exprs@.len(),
            rows@ == rows_of(irs_view(exprs@), v as int),
            ir_ok(irs_view(exprs@)) ==> rows_ok(rows@, exprs@.len() as int),
        decreases exprs@.len() - v,
    {
        match &exprs[v] {
            ExprIr::Dot(e, a) => {
                proof {
                    if ir_ok(irs_view(exprs@)) {
                        assert(crate::ir::node_ok(irs_view(exprs@)[v as int], v as int));
                    }
                }
                rows.push((*e, *a, v));
            },
            _ => {},
        }
        v += 1;
    }
    rows
}

/// Orders the columns of every row by the slots of their expressions,
/// columns of one slot in their natural order.
pub fn order_rows(rows: &Vec<(usize, usize, usize)>, expr_slot: &Vec<usize>) -> (orderings: Vec<
    [usize; 3],
>)
    requires
        forall|r: int|
            0 <= r < rows@.len() ==> (#[trigger] rows@[r]).0 < expr_slot@.len() && rows@[r].1
                < expr_slot@.len() && rows@[r].2 < expr_slot@.len(),
    ensures
        orderings@.map_values(|o: [usize; 3]| o@) == orderings_of(rows@, expr_slot@),
{
    let mut orderings: Vec<[usize; 3]> = Vec::new();
    let mut r: usize = 0;
    while r < rows.len()
        invariant
            r <= rows@.len(),
            orderings@.len() == r,
            forall|k: int|
                0 <= k < rows@.len() ==> (#[trigger] rows@[k]).0 < expr_slot@.len() && rows@[k].1
                    < expr_slot@.len() && rows@[k].2 < expr_slot@.len(),
            forall|k: int|
                0 <= k < r ==> (#[trigger] orderings@[k])@ == ordering_of(
                    expr_slot@[rows@[k].0 as int],
                    expr_slot@[rows@[k].1 as int],
                    expr_slot@[rows@[k].2 as int],
                ),
        decreases rows@.len() - r,
    {
        let (e, a, v) = rows[r];
        let k0 = expr_slot[e];
        let k1 = expr_slot[a];
        let k2 = expr_slot[v];
        let ordering: [usize; 3] = if k0 <= k1 {
            if k1 <= k2 {
                [0, 1, 2]
            } else if k0 <= k2 {
                [0, 2, 1]
            } else {
                [2, 0, 1]
            }
        } else {
            if k0 <= k2 {
                [1, 0, 2]
            } else if k1 <= k2 {
                [1, 2, 0]
            } else {
                [2, 1, 0]
            }
        };
        assert(ordering@ =~= ordering_of(k0, k1, k2));
        orderings.push(ordering);
        r += 1;
    }
    assert(orderings@.map_values(|o: [usize; 3]| o@) =~= orderings_of(rows@, expr_slot@));
    orderings
}

/// Why a block could not be compiled.
#[derive(Debug)]
pub enum CompileError {
    /// A slot holds two constants that differ.
    Impossible(Value, Value),
    /// Nothing tells what the slot holds.
    NoConstraints(usize),
    /// No function has this name and number of arguments.
    UnknownFunction(String, usize),
}

impl View for CompileError {
    type V = CompileFault;

    open spec fn view(&self) -> CompileFault {
        match *self {
            CompileError::Impossible(a, b) => CompileFault::Impossible(a@, b@),
            CompileError::NoConstraints(slot) => CompileFault::NoConstraints(slot),
            CompileError::UnknownFunction(name, arity) => CompileFault::UnknownFunction(
                name@,
                arity,
            ),
        }
    }
}

/// Lists the columns that are an expression of the slot: for every
/// expression of the slot in turn, row by row and column by column.
pub fn slot_rowcols(slot: &Vec<usize>, rows: &Vec<(usize, usize, usize)>) -> (rowcols: Vec<RowCol>)
    ensures
        rowcols@ == rowcols_of(slot@, rows@, slot@.len() as int),
{
    let mut rowcols: Vec<RowCol> = Vec::new();
    let mut k: usize = 0;
    while k < slot.len()
        invariant
            k <= slot@.len(),
            rowcols@ == rowcols_of(slot@, rows@, k as int),
        decreases slot@.len() - k,
    {
        let expr = slot[k];
        let ghost before = rowcols@;
        let mut r: usize = 0;
        assert(rowcols@ =~= before + hits(rows@, expr, 0));
        while r < rows.len()
            invariant
                r <= rows@.len(),
                rowcols@ == before + hits(rows@, expr, r as int),
            decreases rows@.len() - r,
        {
            let ghost start = rowcols@;
            let row = rows[r];
            if row.0 == expr {
                rowcols.push((r, 0));
            }
            if row.1 == expr {
                rowcols.push((r, 1));
            }
            if row.2 == expr {
                rowcols.push((r, 2));
            }
            assert(rowcols@ =~= start + row_hits(row, expr, r));
            assert(rowcols@ =~= before + hits(rows@, expr, r + 1));
            r += 1;
        }
        k += 1;
    }
    rowcols
}

/// Emits the constraints of slot `s` and returns its initial value.
#[verifier::loop_isolation(false)]
pub fn emit_one(
    s: usize,
    slot: &Vec<usize>,
    exprs: &Vec<ExprIr>,
    rows: &Vec<(usize, usize, usize)>,
    expr_slot: &Vec<usize>,
    constraints: &mut Vec<Constraint>,
) -> (r: Result<Value, CompileError>)
    requires
        ir_ok(irs_view(exprs@)),
        expr_slot@.len() == exprs@.len(),
        forall|k: int| 0 <= k < slot@.len() ==> #[trigger] slot@[k] < exprs@.len(),
    ensures
        match emit_slot(s, slot@, irs_view(exprs@), rows@, expr_slot@) {
            Ok((value, more)) => r matches Ok(v) && v@ == value && constraints_view(
                final(constraints)@,
            ) == constraints_view(old(constraints)@) + more,
            Err(fault) => r matches Err(e) && e@ == fault,
        },
{
    let ghost irs = irs_view(exprs@);
    let ghost start = constraints_view(constraints@);
    let mut constants: Vec<usize> = Vec::new();
    let mut functions: Vec<usize> = Vec::new();
    let mut k: usize = 0;
    while k < slot.len()
        invariant
            k <= slot@.len(),
            irs == irs_view(exprs@),
            forall|j: int| 0 <= j < slot@.len() ==> #[trigger] slot@[j] < exprs@.len(),
            constants@.len() == constants_of(slot@, irs, k as int).len(),
            forall|j: int|
                0 <= j < constants@.len() ==> #[trigger] constants@[j] < exprs@.len()
                    && irs[constants@[j] as int] == IrView::Constant(
                    constants_of(slot@, irs, k as int)[j],
                ),
            functions@.len() == functions_of(slot@, irs, k as int).len(),
            forall|j: int|
                0 <= j < functions@.len() ==> #[trigger] functions@[j] < exprs@.len()
                    && irs[functions@[j] as int] == IrView::Function(
                    functions_of(slot@, irs, k as int)[j].0,
                    functions_of(slot@, irs, k as int)[j].1,
                ),
        decreases slot@.len() - k,
    {
        if exprs[slot[k]].is_constant() {
            constants.push(slot[k]);
        }
        if exprs[slot[k]].is_function() {
            functions.push(slot[k]);
        }
        k += 1;
    }
    let rowcols = slot_rowcols(slot, rows);
    let ghost cs = constants_of(slot@, irs, slot@.len() as int);
    let ghost fs = functions_of(slot@, irs, slot@.len() as int);
    let mut i: usize = 1;
    while i < constants.len()
        invariant
            1 <= i,
            irs == irs_view(exprs@),
            constants@.len() == cs.len(),
            forall|j: int|
                0 <= j < constants@.len() ==> #[trigger] constants@[j] < exprs@.len()
                    && irs[constants@[j] as int] == IrView::Constant(cs[j]),
            i <= cs.len() ==> first_conflict(cs, i as int) == i,
            i <= cs.len() || i == 1,
        decreases constants@.len() - i,
    {
        match (&exprs[constants[i]], &exprs[constants[0]]) {
            (ExprIr::Constant(a), ExprIr::Constant(b)) => {
                proof {
                    crate::order::lemma_value_lt_irreflexive(a@);
                    assert(irs[constants@[i as int] as int] == exprs@[constants@[i as int] as int]@);
                    assert(irs[constants@[0] as int] == exprs@[constants@[0] as int]@);
                    assert(a@ == cs[i as int]);
                    assert(b@ == cs[0]);
                }
                match compare_values(a, b) {
                    Order::Equal => {},
                    _ => {
                        proof {
                            lemma_first_conflict_found(cs, i as int, cs.len() as int);
                        }
                        return Err(CompileError::Impossible(clone_value(a), clone_value(b)));
                    },
                }
            },
            _ => {
                assert(irs[constants@[i as int] as int] == exprs@[constants@[i as int] as int]@);
                assert(irs[constants@[0] as int] == exprs@[constants@[0] as int]@);
                assert(false);
            },
        }
        i += 1;
    }
    if constants.len() == 0 && functions.len() == 0 && rowcols.len() == 0 {
        return Err(CompileError::NoConstraints(s));
    }
    let had_constant = constants.len() > 0;
    let value = if had_constant {
        assert(irs[constants@[0] as int] == exprs@[constants@[0] as int]@);
        match &exprs[constants[0]] {
            ExprIr::Constant(v) => clone_value(v),
            _ => Value::Boolean(false),
        }
    } else {
        Value::Boolean(false)
    };
    let plus = "+".to_owned();
    let mut f: usize = 0;
    let ghost mut apps = Seq::<ConstraintView>::empty();
    assert(constraints_view(constraints@) =~= start + apps);
    while f < functions.len()
        invariant
            f <= functions@.len(),
            irs == irs_view(exprs@),
            ir_ok(irs),
            plus@ == "+"@,
            expr_slot@.len() == exprs@.len(),
            functions@.len() == fs.len(),
            forall|j: int|
                0 <= j < functions@.len() ==> #[trigger] functions@[j] < exprs@.len()
                    && irs[functions@[j] as int] == IrView::Function(fs[j].0, fs[j].1),
            applies(fs, s, had_constant, expr_slot@, f as int) == Ok::<
                Seq<ConstraintView>,
                CompileFault,
            >(apps),
            constraints_view(constraints@) == start + apps,
        decreases functions@.len() - f,
    {
        match &exprs[functions[f]] {
            ExprIr::Function(function) => {
                proof {
                    let at = functions@[f as int] as int;
                    assert(irs[at] == exprs@[at]@);
                    assert(crate::ir::node_ok(irs[at], at));
                    assert(function.name@ == fs[f as int].0);
                    assert(function.args@ == fs[f as int].1);
                }
                if function.name == plus && function.args.len() == 2 {
                    proof {
                        let at = functions@[f as int] as int;
                        let args = irs[at]->Function_1;
                        assert(args[0] < at);
                        assert(args[1] < at);
                    }
                    let a = function.args[0];
                    let b = function.args[1];
                    let c = Constraint::Apply(
                        s,
                        had_constant || f > 0,
                        Function::Add(expr_slot[a], expr_slot[b]),
                    );
                    let ghost prev = constraints_view(constraints@);
                    let ghost cv = c@;
                    constraints.push(c);
                    proof {
                        assert(constraints_view(constraints@) =~= prev.push(cv));
                        apps = apps.push(cv);
                        assert(constraints_view(constraints@) =~= start + apps);
                    }
                } else {
                    proof {
                        lemma_applies_fault(fs, s, had_constant, expr_slot@, f + 1, fs.len() as int);
                    }
                    return Err(
                        CompileError::UnknownFunction(function.name.clone(), function.args.len()),
                    );
                }
            },
            _ => {
                let ghost at = functions@[f as int] as int;
                assert(irs[at] == exprs@[at]@);
                assert(false);
            },
        }
        f += 1;
    }
    if had_constant || functions.len() > 0 {
        let mut k: usize = 0;
        let ghost base = constraints_view(constraints@);
        assert(constraints_view(constraints@) =~= base + narrows(rowcols@, s).take(0));
        while k < rowcols.len()
            invariant
                k <= rowcols@.len(),
                constraints_view(constraints@) == base + narrows(rowcols@, s).take(k as int),
            decreases rowcols@.len() - k,
        {
            let ghost prev = constraints_view(constraints@);
            constraints.push(Constraint::Narrow(rowcols[k], s));
            assert(constraints_view(constraints@) =~= prev.push(
                ConstraintView::Narrow(rowcols@[k as int], s),
            ));
            assert(constraints_view(constraints@) =~= base + narrows(rowcols@, s).take(k + 1));
            k += 1;
        }
        assert(narrows(rowcols@, s).take(k as int) =~= narrows(rowcols@, s));
        assert(constraints_view(constraints@) =~= start + (apps + narrows(rowcols@, s)));
    } else {
        let ghost base = constraints_view(constraints@);
        let ghost rc = rowcols@;
        constraints.push(Constraint::Join(rowcols, s));
        assert(constraints_view(constraints@) =~= base.push(ConstraintView::Join(rc, s)));
        assert(constraints_view(constraints@) =~= start + apps.push(ConstraintView::Join(rc, s)));
    }
    Ok(value)
}

/// Once a constant that differs from the first has been found at `i`,
/// that is where the first conflict below any later bound is.
pub proof fn lemma_first_conflict_found(constants: Seq<ValueView>, i: int, upto: int)
    requires
        1 <= i < upto,
        first_conflict(constants, i) == i,
        constants[i] != constants[0],
    ensures
        first_conflict(constants, upto) == i,
    decreases upto - i,
{
    if upto > i + 1 {
        lemma_first_conflict_found(constants, i, upto - 1);
    }
}

/// A function that is not known gives the fault, whatever follows it.
pub proof fn lemma_applies_fault(
    functions: Seq<(Seq<char>, Seq<usize>)>,
    slot: usize,
    fixed: bool,
    expr_slot: Seq<usize>,
    k: int,
    upto: int,
)
    requires
        0 < k <= upto,
        applies(functions, slot, fixed, expr_slot, k) is Err,
    ensures
        applies(functions, slot, fixed, expr_slot, upto) == applies(
            functions,
            slot,
            fixed,
            expr_slot,
            k,
        ),
    decreases upto - k,
{
    if upto > k {
        lemma_applies_fault(functions, slot, fixed, expr_slot, k, upto - 1);
    }
}

/// Slots that part the first `i` expressions part the first `i + 1` once
/// `i` has been added at the end of one of them, or as a slot of its own at
/// the end.
pub proof fn lemma_partition_grow(before: Seq<Seq<usize>>, after: Seq<Seq<usize>>, i: int, s: int)
    requires
        partition(before, i),
        0 <= i <= usize::MAX,
        0 <= s <= before.len(),
        s < before.len() ==> after == before.update(s, before[s].push(i as usize)),
        s == before.len() ==> after == before.push(seq![i as usize]),
    ensures
        partition(after, i + 1),
{
    assert forall|e: int| 0 <= e < i + 1 implies #[trigger] covered(after, e) by {
        if e < i {
            assert(covered(before, e));
            let t = choose|t: int| holds_expr(before, t, e);
            let k = choose|k: int| 0 <= k < before[t].len() && #[trigger] before[t][k] == e;
            assert(after[t][k] == e);
            assert(holds_expr(after, t, e));
        } else {
            let k = after[s].len() - 1;
            assert(after[s][k] == e);
            assert(holds_expr(after, s, e));
        }
    }
    assert forall|t: int, j: int, k: int|
        0 <= t < after.len() && 0 <= j < k < after[t].len() implies #[trigger] after[t][j]
        < #[trigger] after[t][k] by {
        if t == s && k == after[t].len() - 1 {
            assert(before[t][j] < i);
        } else {
            assert(before[t][j] < before[t][k]);
        }
    }
    assert forall|t: int, u: int, j: int, k: int|
        0 <= t < after.len() && 0 <= u < after.len() && 0 <= j < after[t].len() && 0 <= k
            < after[u].len() && #[trigger] after[t][j] == #[trigger] after[u][k] implies t == u by {
        let last_t = t == s && j == after[t].len() - 1;
        let last_u = u == s && k == after[u].len() - 1;
        if !last_t && !last_u {
            assert(before[t][j] == before[u][k]);
        } else if last_t && !last_u {
            assert(before[u][k] < i);
        } else if !last_t && last_u {
            assert(before[t][j] < i);
        }
    }
    assert forall|t: int, k: int| 0 <= t < after.len() && 0 <= k < after[t].len() implies #[trigger] after[t][k]
        < i + 1 by {
        if !(t == s && k == after[t].len() - 1) {
            assert(before[t][k] < i);
        }
    }
}

/// A slot that cannot be compiled gives the fault, whatever follows it.
pub proof fn lemma_emit_fault(
    slots: Seq<Seq<usize>>,
    exprs: Seq<IrView>,
    rows: Seq<(usize, usize, usize)>,
    expr_slot: Seq<usize>,
    k: int,
    upto: int,
)
    requires
        0 < k <= upto,
        emit_slots(slots, exprs, rows, expr_slot, k) is Err,
    ensures
        emit_slots(slots, exprs, rows, expr_slot, upto) == emit_slots(
            slots,
            exprs,
            rows,
            expr_slot,
            k,
        ),
    decreases upto - k,
{
    if upto > k {
        lemma_emit_fault(slots, exprs, rows, expr_slot, k, upto - 1);
    }
}

/// Lists the slots that hold a variable, each under the name of its first.
pub fn name_slots(slots: &Vec<Vec<usize>>, exprs: &Vec<ExprIr>) -> (named: Vec<(String, usize)>)
    requires
        forall|s: int, k: int|
            0 <= s < slots@.len() && 0 <= k < slots@[s]@.len() ==> #[trigger] slots@[s]@[k]
                < exprs@.len(),
    ensures
        named_view(named@) == named_of(slots_view(slots@), irs_view(exprs@), slots@.len() as int),
{
    let ghost irs = irs_view(exprs@);
    let ghost views = slots_view(slots@);
    let mut named: Vec<(String, usize)> = Vec::new();
    let mut s: usize = 0;
    assert(named_view(named@) =~= named_of(views, irs, 0));
    while s < slots.len()
        invariant
            s <= slots@.len(),
            irs == irs_view(exprs@),
            views == slots_view(slots@),
            forall|t: int, k: int|
                0 <= t < slots@.len() && 0 <= k < slots@[t]@.len() ==> #[trigger] slots@[t]@[k]
                    < exprs@.len(),
            named_view(named@) == named_of(views, irs, s as int),
        decreases slots@.len() - s,
    {
        let slot = &slots[s];
        assert(views[s as int] == slot@);
        let mut k: usize = 0;
        while k < slot.len() && !exprs[slot[k]].is_variable()
            invariant
                k <= slot@.len(),
                irs == irs_view(exprs@),
                forall|j: int| 0 <= j < slot@.len() ==> #[trigger] slot@[j] < exprs@.len(),
                first_variable(slot@, irs, 0) == first_variable(slot@, irs, k as int),
            decreases slot@.len() - k,
        {
            k += 1;
        }
        if k < slot.len() {
            match &exprs[slot[k]] {
                ExprIr::Variable(name) => {
                    let ghost before = named_view(named@);
                    named.push((name.clone(), s));
                    assert(named_view(named@) =~= before.push((name@, s)));
                },
                _ => {},
            }
        }
        s += 1;
    }
    named
}

/// Compiles a block into its plan: flattens its expressions, gathers them
/// into slots, orders the slots and the columns of every row, and emits
/// the constraints slot by slot, then one `Assert` for each assert
/// statement and one `Debug` for the named slots. A plan that comes back
/// can be run.
pub fn compile(block: &BlockAst) -> (r: Result<Block, CompileError>)
    ensures
        match compile_spec(block@) {
            Ok(plan) => r matches Ok(b) && b@ == plan && b.wf(),
            Err(fault) => r matches Err(e) && e@ == fault,
        },
{
    let flat = flatten_statements(block);
    let ghost irs = irs_view(flat.exprs@);
    let mut groups = group_variables(&flat.exprs);
    merge_patterns(&mut groups, &flat.patterns);
    let gathered = gather_slots(&groups);
    proof {
        let parts = slots_view(gathered@);
        assert forall|s: int, k: int|
            0 <= s < gathered@.len() && 0 <= k < gathered@[s]@.len() implies #[trigger] gathered@[s]@[k]
            < flat.exprs@.len() by {
            assert(parts[s][k] < flat.exprs@.len());
        }
    }
    let slots = promote_slots(&gathered, &flat.exprs);
    let ghost views = slots_view(slots@);
    assert(views == slots_of(flat@));
    proof {
        assert forall|s: int, k: int|
            0 <= s < slots@.len() && 0 <= k < slots@[s]@.len() implies #[trigger] slots@[s]@[k]
            < flat.exprs@.len() by {
            assert(views[s][k] < flat.exprs@.len());
        }
    }
    let expr_slot = index_slots(&slots, flat.exprs.len());
    let rows = collect_rows(&flat.exprs);
    let row_count = rows.len();
    let expr_count = flat.exprs.len();
    let row_orderings = order_rows(&rows, &expr_slot);
    let mut values: Vec<Value> = Vec::new();
    let mut constraints: Vec<Constraint> = Vec::new();
    let mut s: usize = 0;
    proof {
        assert(values_view(values@) =~= Seq::<ValueView>::empty());
        assert(constraints_view(constraints@) =~= Seq::<ConstraintView>::empty());
    }
    while s < slots.len()
        invariant
            s <= slots@.len(),
            irs == irs_view(flat.exprs@),
            views == slots_view(slots@),
            ir_ok(irs),
            expr_slot@.len() == flat.exprs@.len(),
            forall|t: int, k: int|
                0 <= t < slots@.len() && 0 <= k < slots@[t]@.len() ==> #[trigger] slots@[t]@[k]
                    < flat.exprs@.len(),
            emit_slots(views, irs, rows@, expr_slot@, s as int) == Ok::<
                (Seq<ValueView>, Seq<ConstraintView>),
                CompileFault,
            >((values_view(values@), constraints_view(constraints@))),
            views == slots_of(flat@),
            flat@ == flatten_block(block@),
            expr_slot@ == expr_slots(views, irs.len()),
            rows@ == rows_of(irs, irs.len() as int),
        decreases slots@.len() - s,
    {
        assert(views[s as int] == slots@[s as int]@);
        let ghost before_values = values_view(values@);
        match emit_one(s, &slots[s], &flat.exprs, &rows, &expr_slot, &mut constraints) {
            Err(e) => {
                proof {
                    lemma_emit_fault(views, irs, rows@, expr_slot@, s + 1, views.len() as int);
                }
                return Err(e);
            },
            Ok(value) => {
                values.push(value);
                assert(values_view(values@) =~= before_values.push(value@));
            },
        }
        s += 1;
    }
    let ghost slot_constraints = constraints_view(constraints@);
    let mut a: usize = 0;
    assert(constraints_view(constraints@) =~= slot_constraints + assert_constraints(
        flat.asserts@,
        expr_slot@,
    ).take(0));
    while a < flat.asserts.len()
        invariant
            a <= flat.asserts@.len(),
            expr_slot@.len() == flat.exprs@.len(),
            forall|k: int|
                0 <= k < flat.asserts@.len() ==> (#[trigger] flat.asserts@[k]).0
                    < flat.exprs@.len() && flat.asserts@[k].1 < flat.exprs@.len()
                    && flat.asserts@[k].2 < flat.exprs@.len(),
            constraints_view(constraints@) == slot_constraints + assert_constraints(
                flat.asserts@,
                expr_slot@,
            ).take(a as int),
        decreases flat.asserts@.len() - a,
    {
        let (e, at, v) = flat.asserts[a];
        let ghost prev = constraints_view(constraints@);
        constraints.push(Constraint::Assert([expr_slot[e], expr_slot[at], expr_slot[v]]));
        proof {
            let all = assert_constraints(flat.asserts@, expr_slot@);
            assert(constraints_view(constraints@) =~= prev.push(all[a as int]));
            assert(all.take(a + 1) =~= all.take(a as int).push(all[a as int]));
            assert(constraints_view(constraints@) =~= slot_constraints + all.take(a + 1));
        }
        a += 1;
    }
    let named = name_slots(&slots, &flat.exprs);
    let ghost prev = constraints_view(constraints@);
    constraints.push(Constraint::Debug(named));
    let plan = Block { row_orderings, variables: values, constraints };
    proof {
        let all = assert_constraints(flat.asserts@, expr_slot@);
        assert(all.take(a as int) =~= all);
        assert(constraints_view(plan.constraints@) =~= prev.push(
            ConstraintView::Debug(named_of(views, irs, views.len() as int)),
        ));
        assert(rows@.len() == row_count && irs.len() == expr_count);
        crate::aligned::lemma_plan_runs(views, irs, rows@, flat.asserts@);
        assert(plan@.constraints == compile_spec(block@)->Ok_0.constraints);
        assert(plan@.variables == compile_spec(block@)->Ok_0.variables);
        assert(plan@.row_orderings == compile_spec(block@)->Ok_0.row_orderings);
    }
    Ok(plan)
}

} // verus!
