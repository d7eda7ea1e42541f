//! What holds of the slots of a block: expressions that have to be equal
//! share a slot, and the slots whose value is known before the run come
//! first.

use vstd::prelude::*;
use crate::aligned::{lemma_applies_shape, lemma_partition_size, lemma_slot_index};
use crate::compile::{lemma_partition_grow, lemma_partition_permuted, promoted, sourced};
use crate::ast::{ExprView, StatementView};
use crate::ir::{flatten, IrView};
use crate::planner::{assert_constraints, compile_spec, flatten_block, rows_of, slots_of};
use crate::plan::ConstraintView;
use crate::planner::{
    applies, const_only, constants_of, emit_slot, emit_slots, expr_slots, find_slot, first_named,
    functions_of, gather, initial_groups, keep, merge, merge_all, narrows, partition, promote,
    rowcols_of, slot_index,
};

verus! {

/// The groups name expressions that exist.
pub open spec fn groups_ok(groups: Seq<usize>) -> bool {
    forall|i: int| 0 <= i < groups.len() ==> #[trigger] groups[i] < groups.len()
}

/// Where the first variable of a name stands, below a bound: at or below
/// the bound, and at a variable of that name if below it.
pub proof fn lemma_first_named(exprs: Seq<IrView>, name: Seq<char>, upto: int)
    requires
        0 <= upto <= exprs.len(),
    ensures
        0 <= first_named(exprs, name, upto) <= upto,
        first_named(exprs, name, upto) < upto ==> exprs[first_named(exprs, name, upto)]
            == IrView::Variable(name),
        forall|j: int|
            0 <= j < first_named(exprs, name, upto) ==> #[trigger] exprs[j] != IrView::Variable(
                name,
            ),
    decreases upto,
{
    if upto > 0 {
        lemma_first_named(exprs, name, upto - 1);
    }
}

/// The first variable of a name below a bound is also the first below any
/// greater bound.
pub proof fn lemma_first_named_stays(exprs: Seq<IrView>, name: Seq<char>, i: int, j: int)
    requires
        0 <= i <= j <= exprs.len(),
        first_named(exprs, name, i) < i,
    ensures
        first_named(exprs, name, j) == first_named(exprs, name, i),
    decreases j - i,
{
    if j > i {
        lemma_first_named_stays(exprs, name, i, j - 1);
    }
}

/// Two expressions that are the same variable start in the same group.
pub proof fn lemma_same_variable_same_group(exprs: Seq<IrView>, i: int, j: int)
    requires
        0 <= i <= j < exprs.len() <= usize::MAX,
        exprs[i] is Variable,
        exprs[i] == exprs[j],
    ensures
        initial_groups(exprs)[i] == initial_groups(exprs)[j],
        groups_ok(initial_groups(exprs)),
{
    let name = exprs[i]->Variable_0;
    lemma_first_named(exprs, name, i);
    lemma_first_named(exprs, name, j);
    if i < j {
        lemma_first_named(exprs, name, i + 1);
        if first_named(exprs, name, i) < i {
            lemma_first_named_stays(exprs, name, i, j);
        } else {
            assert(first_named(exprs, name, i + 1) == i);
            lemma_first_named_stays(exprs, name, i + 1, j);
        }
    }
    assert forall|k: int| 0 <= k < exprs.len() implies #[trigger] initial_groups(exprs)[k]
        < exprs.len() by {
        if exprs[k] is Variable {
            lemma_first_named(exprs, exprs[k]->Variable_0, k);
        }
    }
}

/// The patterns leave in one group what was in one group, and put the two
/// sides of every pattern into one group.
pub proof fn lemma_merge_all(groups: Seq<usize>, patterns: Seq<(usize, usize)>)
    requires
        groups_ok(groups),
        forall|k: int|
            0 <= k < patterns.len() ==> (#[trigger] patterns[k]).0 < groups.len() && patterns[k].1
                < groups.len(),
    ensures
        merge_all(groups, patterns).len() == groups.len(),
        groups_ok(merge_all(groups, patterns)),
        forall|i: int, j: int|
            0 <= i < groups.len() && 0 <= j < groups.len() && groups[i] == groups[j]
                ==> #[trigger] merge_all(groups, patterns)[i] == #[trigger] merge_all(
                groups,
                patterns,
            )[j],
        forall|k: int|
            0 <= k < patterns.len() ==> merge_all(groups, patterns)[(#[trigger] patterns[k]).0 as int]
                == merge_all(groups, patterns)[patterns[k].1 as int],
    decreases patterns.len(),
{
    if patterns.len() > 0 {
        let before = merge_all(groups, patterns.drop_last());
        let last = patterns.last();
        assert forall|k: int| 0 <= k < patterns.drop_last().len() implies (
        #[trigger] patterns.drop_last()[k]).0 < groups.len() && patterns.drop_last()[k].1
            < groups.len() by {
            assert(patterns.drop_last()[k] == patterns[k]);
        }
        lemma_merge_all(groups, patterns.drop_last());
        let after = merge(before, last);
        assert(after == merge_all(groups, patterns));
        assert forall|k: int| 0 <= k < patterns.len() implies after[(#[trigger] patterns[k]).0 as int]
            == after[patterns[k].1 as int] by {
            if k < patterns.len() - 1 {
                assert(patterns.drop_last()[k] == patterns[k]);
            }
        }
        assert(groups_ok(after));
    }
}

/// Every slot holds the expressions of one group, and two slots hold those
/// of two groups.
pub open spec fn grouped(slots: Seq<Seq<usize>>, groups: Seq<usize>) -> bool {
    &&& forall|s: int, k: int|
        0 <= s < slots.len() && 0 <= k < slots[s].len() ==> groups[#[trigger] slots[s][k] as int]
            == groups[slots[s][0] as int]
    &&& forall|s: int, t: int|
        0 <= s < slots.len() && 0 <= t < slots.len() && groups[(#[trigger] slots[s])[0] as int]
            == groups[(#[trigger] slots[t])[0] as int] ==> s == t
}

/// Where `find_slot` finds a slot, the slot is of the group sought; where
/// it finds none, no slot is.
pub proof fn lemma_find_slot(slots: Seq<Seq<usize>>, groups: Seq<usize>, g: usize, from: int)
    requires
        0 <= from <= slots.len(),
    ensures
        from <= find_slot(slots, groups, g, from) <= slots.len(),
        find_slot(slots, groups, g, from) < slots.len() ==> groups[slots[find_slot(
            slots,
            groups,
            g,
            from,
        )][0] as int] == g,
        forall|s: int|
            from <= s < find_slot(slots, groups, g, from) ==> groups[(#[trigger] slots[s])[0] as int]
                != g,
    decreases slots.len() - from,
{
    if from < slots.len() && groups[slots[from][0] as int] != g {
        lemma_find_slot(slots, groups, g, from + 1);
    }
}

/// Gathering parts the expressions into slots by their groups.
pub proof fn lemma_gather(groups: Seq<usize>, upto: int)
    requires
        0 <= upto <= groups.len() <= usize::MAX,
        groups_ok(groups),
    ensures
        partition(gather(groups, upto), upto),
        grouped(gather(groups, upto), groups),
    decreases upto,
{
    if upto > 0 {
        lemma_gather(groups, upto - 1);
        let before = gather(groups, upto - 1);
        let after = gather(groups, upto);
        let g = groups[upto - 1];
        let s = find_slot(before, groups, g, 0);
        lemma_find_slot(before, groups, g, 0);
        lemma_partition_grow(before, after, upto - 1, s);
        assert forall|t: int, k: int|
            0 <= t < after.len() && 0 <= k < after[t].len() implies groups[#[trigger] after[t][k] as int]
            == groups[after[t][0] as int] by {
            if t == s && k == after[t].len() - 1 {
                if s < before.len() {
                    assert(after[t][0] == before[t][0]);
                }
            } else {
                assert(after[t][k] == before[t][k]);
                assert(after[t][0] == before[t][0]);
            }
        }
        assert forall|t: int, u: int|
            0 <= t < after.len() && 0 <= u < after.len() && groups[(#[trigger] after[t])[0] as int]
                == groups[(#[trigger] after[u])[0] as int] implies t == u by {
            if t < before.len() {
                assert(after[t][0] == before[t][0]);
            }
            if u < before.len() {
                assert(after[u][0] == before[u][0]);
            }
        }
    }
}

/// A slot kept by `keep` is a slot of the kind asked for, and the slots
/// kept stand in the order in which they stood.
pub proof fn lemma_keep(slots: Seq<Seq<usize>>, exprs: Seq<IrView>, want: bool, upto: int) -> (src:
    Seq<int>)
    requires
        0 <= upto <= slots.len(),
    ensures
        src.len() == keep(slots, exprs, want, upto).len(),
        forall|j: int|
            0 <= j < src.len() ==> 0 <= #[trigger] src[j] < upto && keep(
                slots,
                exprs,
                want,
                upto,
            )[j] == slots[src[j]] && const_only(slots[src[j]], exprs) == want,
        forall|i: int, j: int| 0 <= i < j < src.len() ==> src[i] < src[j],
        forall|t: int|
            0 <= t < upto && const_only(#[trigger] slots[t], exprs) == want ==> sourced(src, t),
    decreases upto,
{
    if upto == 0 {
        Seq::empty()
    } else {
        let before = lemma_keep(slots, exprs, want, upto - 1);
        if const_only(slots[upto - 1], exprs) == want {
            let src = before.push(upto - 1);
            assert forall|t: int|
                0 <= t < upto && const_only(#[trigger] slots[t], exprs) == want implies sourced(
                src,
                t,
            ) by {
                if t < upto - 1 {
                    assert(sourced(before, t));
                    let j = choose|j: int| 0 <= j < before.len() && #[trigger] before[j] == t;
                    assert(src[j] == t);
                } else {
                    assert(src[src.len() - 1] == t);
                }
            }
            src
        } else {
            before
        }
    }
}

/// Promotion keeps the slots and puts the constant-only ones first.
pub proof fn lemma_promote(slots: Seq<Seq<usize>>, exprs: Seq<IrView>, groups: Seq<usize>)
    requires
        partition(slots, exprs.len() as int),
        grouped(slots, groups),
    ensures
        partition(promote(slots, exprs), exprs.len() as int),
        grouped(promote(slots, exprs), groups),
        promoted(promote(slots, exprs), exprs),
        promote(slots, exprs).len() == slots.len(),
{
    let front = lemma_keep(slots, exprs, true, slots.len() as int);
    let back = lemma_keep(slots, exprs, false, slots.len() as int);
    let src = front + back;
    let out = promote(slots, exprs);
    assert forall|j: int| 0 <= j < src.len() implies 0 <= #[trigger] src[j] < slots.len() && out[j]
        == slots[src[j]] && (const_only(slots[src[j]], exprs) <==> j < front.len()) by {
        if j < front.len() {
            assert(src[j] == front[j]);
        } else {
            assert(src[j] == back[j - front.len()]);
        }
    }
    assert forall|i: int, j: int| 0 <= i < j < src.len() implies src[i] != src[j] by {
        if j < front.len() {
            assert(front[i] < front[j]);
        } else if i >= front.len() {
            assert(back[i - front.len()] < back[j - front.len()]);
        }
    }
    assert forall|t: int| 0 <= t < slots.len() implies #[trigger] sourced(src, t) by {
        if const_only(slots[t], exprs) {
            assert(sourced(front, t));
            let j = choose|j: int| 0 <= j < front.len() && #[trigger] front[j] == t;
            assert(src[j] == t);
        } else {
            assert(sourced(back, t));
            let j = choose|j: int| 0 <= j < back.len() && #[trigger] back[j] == t;
            assert(src[j + front.len()] == t);
        }
    }
    lemma_partition_permuted(slots, out, src, exprs.len() as int);
    assert forall|s: int, k: int| 0 <= s < out.len() && 0 <= k < out[s].len() implies groups[
    #[trigger] out[s][k] as int] == groups[out[s][0] as int] by {
        assert(out[s] == slots[src[s]]);
        assert(groups[slots[src[s]][k] as int] == groups[slots[src[s]][0] as int]);
    }
    assert forall|s: int, t: int|
        0 <= s < out.len() && 0 <= t < out.len() && groups[(#[trigger] out[s])[0] as int]
            == groups[(#[trigger] out[t])[0] as int] implies s == t by {
        assert(out[s] == slots[src[s]]);
        assert(out[t] == slots[src[t]]);
        assert(src[s] == src[t]);
    }
    assert forall|i: int, j: int|
        0 <= i < j < out.len() && const_only(#[trigger] out[j], exprs) implies const_only(
        #[trigger] out[i],
        exprs,
    ) by {
        assert(out[j] == slots[src[j]]);
        assert(out[i] == slots[src[i]]);
    }
    lemma_partition_size(slots, exprs.len() as int);
    lemma_distinct_count(src, slots.len() as int);
}

/// A list that holds each of the numbers below `n` once has `n` of them.
pub proof fn lemma_distinct_count(src: Seq<int>, n: int)
    requires
        0 <= n,
        forall|j: int| 0 <= j < src.len() ==> 0 <= #[trigger] src[j] < n,
        forall|i: int, j: int| 0 <= i < j < src.len() ==> src[i] != src[j],
        forall|t: int| 0 <= t < n ==> #[trigger] sourced(src, t),
    ensures
        src.len() == n,
    decreases n,
{
    crate::aligned::lemma_distinct_below(src, n);
    if n > 0 {
        assert(sourced(src, n - 1));
        let at = choose|j: int| 0 <= j < src.len() && #[trigger] src[j] == n - 1;
        let rest = src.remove(at);
        assert forall|j: int| 0 <= j < rest.len() implies 0 <= #[trigger] rest[j] < n - 1 by {
            let a = if j < at { j } else { j + 1 };
            assert(rest[j] == src[a]);
        }
        assert forall|i: int, j: int| 0 <= i < j < rest.len() implies rest[i] != rest[j] by {
            let a = if i < at { i } else { i + 1 };
            let b = if j < at { j } else { j + 1 };
            assert(rest[i] == src[a]);
            assert(rest[j] == src[b]);
        }
        assert forall|t: int| 0 <= t < n - 1 implies #[trigger] sourced(rest, t) by {
            assert(sourced(src, t));
            let j = choose|j: int| 0 <= j < src.len() && #[trigger] src[j] == t;
            let b = if j < at { j } else { j - 1 };
            assert(rest[b] == t);
        }
        lemma_distinct_count(rest, n - 1);
    }
}

/// Two expressions have the same slot exactly when they are in the same
/// group.
pub proof fn lemma_slot_is_group(
    slots: Seq<Seq<usize>>,
    groups: Seq<usize>,
    n: int,
    i: int,
    j: int,
)
    requires
        partition(slots, n),
        grouped(slots, groups),
        0 <= i < n,
        0 <= j < n,
        n <= usize::MAX,
    ensures
        (expr_slots(slots, n as nat)[i] == expr_slots(slots, n as nat)[j]) <==> groups[i]
            == groups[j],
{
    lemma_slot_index(slots, n, i);
    lemma_slot_index(slots, n, j);
    let s = slot_index(slots, i as usize, slots.len() as int) as int;
    let t = slot_index(slots, j as usize, slots.len() as int) as int;
    let a = choose|a: int| 0 <= a < slots[s].len() && #[trigger] slots[s][a] == i;
    let b = choose|b: int| 0 <= b < slots[t].len() && #[trigger] slots[t][b] == j;
    assert(groups[slots[s][a] as int] == groups[slots[s][0] as int]);
    assert(groups[slots[t][b] as int] == groups[slots[t][0] as int]);
}

/// An expression gives at least one flat expression: itself.
pub proof fn lemma_flatten_len(e: ExprView, base: int)
    ensures
        flatten(e, base).len() >= 1,
{
}

/// The statements of a block name, as their operands, expressions of the
/// block.
pub proof fn lemma_flat_bounds(statements: Seq<Result<StatementView, Seq<char>>>)
    requires
        flatten_block(statements).exprs.len() <= usize::MAX,
    ensures
        forall|k: int|
            0 <= k < flatten_block(statements).patterns.len() ==> (#[trigger] flatten_block(
                statements,
            ).patterns[k]).0 < flatten_block(statements).exprs.len() && flatten_block(
                statements,
            ).patterns[k].1 < flatten_block(statements).exprs.len(),
        forall|k: int|
            0 <= k < flatten_block(statements).asserts.len() ==> (#[trigger] flatten_block(
                statements,
            ).asserts[k]).0 < flatten_block(statements).exprs.len() && flatten_block(
                statements,
            ).asserts[k].1 < flatten_block(statements).exprs.len() && flatten_block(
                statements,
            ).asserts[k].2 < flatten_block(statements).exprs.len(),
        statements.len() > 0 ==> flatten_block(statements.drop_last()).exprs.len()
            <= flatten_block(statements).exprs.len(),
    decreases statements.len(),
{
    if statements.len() > 0 {
        let before = flatten_block(statements.drop_last());
        let after = flatten_block(statements);
        let n = before.exprs.len() as int;
        match statements.last() {
            Err(_) => {
                lemma_flat_bounds(statements.drop_last());
            },
            Ok(StatementView::Pattern(a, b)) => {
                let fa = flatten(a, n);
                let fb = flatten(b, n + fa.len());
                lemma_flatten_len(a, n);
                lemma_flatten_len(b, n + fa.len());
                assert(after.exprs.len() == n + fa.len() + fb.len());
                lemma_flat_bounds(statements.drop_last());
                assert forall|k: int| 0 <= k < after.patterns.len() implies (
                #[trigger] after.patterns[k]).0 < after.exprs.len() && after.patterns[k].1
                    < after.exprs.len() by {
                    if k < before.patterns.len() {
                        assert(after.patterns[k] == before.patterns[k]);
                    }
                }
            },
            Ok(StatementView::Assert(e, a, v)) => {
                let fe = flatten(e, n);
                let fa = flatten(a, n + fe.len());
                let fv = flatten(v, n + fe.len() + fa.len());
                lemma_flatten_len(e, n);
                lemma_flatten_len(a, n + fe.len());
                lemma_flatten_len(v, n + fe.len() + fa.len());
                assert(after.exprs.len() == n + fe.len() + fa.len() + fv.len());
                lemma_flat_bounds(statements.drop_last());
                assert forall|k: int| 0 <= k < after.asserts.len() implies (
                #[trigger] after.asserts[k]).0 < after.exprs.len() && after.asserts[k].1
                    < after.exprs.len() && after.asserts[k].2 < after.exprs.len() by {
                    if k < before.asserts.len() {
                        assert(after.asserts[k] == before.asserts[k]);
                    }
                }
            },
        }
    }
}

/// The slots of a block part its expressions by their groups, with the
/// constant-only slots first.
pub proof fn lemma_slots_of(statements: Seq<Result<StatementView, Seq<char>>>)
    requires
        flatten_block(statements).exprs.len() <= usize::MAX,
    ensures
        ({
            let flat = flatten_block(statements);
            let groups = merge_all(initial_groups(flat.exprs), flat.patterns);
            &&& partition(slots_of(flat), flat.exprs.len() as int)
            &&& grouped(slots_of(flat), groups)
            &&& promoted(slots_of(flat), flat.exprs)
            &&& groups.len() == flat.exprs.len()
        }),
{
    let flat = flatten_block(statements);
    let start = initial_groups(flat.exprs);
    lemma_flat_bounds(statements);
    assert forall|k: int| 0 <= k < flat.exprs.len() implies #[trigger] start[k] < flat.exprs.len() by {
        if flat.exprs[k] is Variable {
            lemma_first_named(flat.exprs, flat.exprs[k]->Variable_0, k);
        }
    }
    lemma_merge_all(start, flat.patterns);
    let groups = merge_all(start, flat.patterns);
    lemma_gather(groups, groups.len() as int);
    lemma_promote(gather(groups, groups.len() as int), flat.exprs, groups);
}

/// Expressions that have to be equal share a slot: two expressions that
/// are the same variable are in one slot, and so are the two sides of
/// every pattern. A slot has one value in a run, so every result gives
/// such expressions the same value.
pub proof fn lemma_equal_share_slot(statements: Seq<Result<StatementView, Seq<char>>>)
    requires
        flatten_block(statements).exprs.len() <= usize::MAX,
    ensures
        ({
            let flat = flatten_block(statements);
            let expr_slot = expr_slots(slots_of(flat), flat.exprs.len());
            &&& forall|i: int, j: int|
                0 <= i < flat.exprs.len() && 0 <= j < flat.exprs.len() && flat.exprs[i] is Variable
                    && flat.exprs[i] == flat.exprs[j] ==> #[trigger] expr_slot[i]
                    == #[trigger] expr_slot[j]
            &&& forall|k: int|
                0 <= k < flat.patterns.len() ==> expr_slot[(#[trigger] flat.patterns[k]).0 as int]
                    == expr_slot[flat.patterns[k].1 as int]
        }),
{
    let flat = flatten_block(statements);
    let n = flat.exprs.len() as int;
    let start = initial_groups(flat.exprs);
    let groups = merge_all(start, flat.patterns);
    let slots = slots_of(flat);
    let expr_slot = expr_slots(slots, flat.exprs.len());
    lemma_slots_of(statements);
    lemma_flat_bounds(statements);
    assert forall|k: int| 0 <= k < flat.exprs.len() implies #[trigger] start[k] < flat.exprs.len() by {
        if flat.exprs[k] is Variable {
            lemma_first_named(flat.exprs, flat.exprs[k]->Variable_0, k);
        }
    }
    lemma_merge_all(start, flat.patterns);
    assert forall|i: int, j: int|
        0 <= i < n && 0 <= j < n && flat.exprs[i] is Variable && flat.exprs[i]
            == flat.exprs[j] implies #[trigger] expr_slot[i] == #[trigger] expr_slot[j] by {
        if i <= j {
            lemma_same_variable_same_group(flat.exprs, i, j);
        } else {
            lemma_same_variable_same_group(flat.exprs, j, i);
        }
        assert(groups[i] == groups[j]);
        lemma_slot_is_group(slots, groups, n, i, j);
    }
    assert forall|k: int| 0 <= k < flat.patterns.len() implies expr_slot[(
    #[trigger] flat.patterns[k]).0 as int] == expr_slot[flat.patterns[k].1 as int] by {
        lemma_slot_is_group(
            slots,
            groups,
            n,
            flat.patterns[k].0 as int,
            flat.patterns[k].1 as int,
        );
    }
}

/// The slot that a constraint fixes or searches.
pub open spec fn constraint_slot(c: ConstraintView) -> Option<usize> {
    match c {
        ConstraintView::Narrow(_, slot) => Some(slot),
        ConstraintView::Join(_, slot) => Some(slot),
        ConstraintView::Apply(slot, _, _) => Some(slot),
        _ => None,
    }
}

/// A slot has no constant among its first `upto` expressions exactly when
/// it has no constants.
pub proof fn lemma_constants_none(slot: Seq<usize>, exprs: Seq<IrView>, upto: int)
    requires
        0 <= upto <= slot.len(),
    ensures
        constants_of(slot, exprs, upto).len() == 0 <==> forall|k: int|
            0 <= k < upto ==> !(exprs[#[trigger] slot[k] as int] is Constant),
    decreases upto,
{
    if upto > 0 {
        lemma_constants_none(slot, exprs, upto - 1);
    }
}

/// The constraints of one slot are about that slot, and there is a join
/// among them only if the slot holds no constant.
pub proof fn lemma_slot_constraints(
    s: usize,
    slot: Seq<usize>,
    exprs: Seq<IrView>,
    rows: Seq<(usize, usize, usize)>,
    expr_slot: Seq<usize>,
)
    requires
        emit_slot(s, slot, exprs, rows, expr_slot) is Ok,
    ensures
        forall|i: int|
            0 <= i < emit_slot(s, slot, exprs, rows, expr_slot)->Ok_0.1.len() ==> constraint_slot(
                #[trigger] emit_slot(s, slot, exprs, rows, expr_slot)->Ok_0.1[i],
            ) == Some(s) && (emit_slot(s, slot, exprs, rows, expr_slot)->Ok_0.1[i] is Join
                ==> !const_only(slot, exprs)),
{
    let constants = constants_of(slot, exprs, slot.len() as int);
    let functions = functions_of(slot, exprs, slot.len() as int);
    let rowcols = rowcols_of(slot, rows, slot.len() as int);
    let apps = applies(functions, s, constants.len() > 0, expr_slot, functions.len() as int)->Ok_0;
    let more = emit_slot(s, slot, exprs, rows, expr_slot)->Ok_0.1;
    lemma_applies_shape(functions, s, constants.len() > 0, expr_slot, functions.len() as int);
    lemma_constants_none(slot, exprs, slot.len() as int);
    assert forall|i: int| 0 <= i < more.len() implies constraint_slot(#[trigger] more[i]) == Some(s)
        && (more[i] is Join ==> !const_only(slot, exprs)) by {
        if i < apps.len() {
            assert(more[i] == apps[i]);
        } else if constants.len() > 0 || functions.len() > 0 {
            assert(more[i] == narrows(rowcols, s)[i - apps.len()]);
        } else {
            assert(more[i] == ConstraintView::Join(rowcols, s));
        }
    }
}

/// The constraints of the slots come slot by slot, and there is a join
/// only for a slot that holds no constant.
pub proof fn lemma_slots_constraints(
    slots: Seq<Seq<usize>>,
    exprs: Seq<IrView>,
    rows: Seq<(usize, usize, usize)>,
    expr_slot: Seq<usize>,
    upto: int,
)
    requires
        0 <= upto <= slots.len() <= usize::MAX,
        emit_slots(slots, exprs, rows, expr_slot, upto) is Ok,
    ensures
        ({
            let cs = emit_slots(slots, exprs, rows, expr_slot, upto)->Ok_0.1;
            &&& forall|i: int|
                0 <= i < cs.len() ==> constraint_slot(#[trigger] cs[i]) is Some && constraint_slot(
                    cs[i],
                )->Some_0 < upto && (cs[i] is Join ==> !const_only(
                    slots[constraint_slot(cs[i])->Some_0 as int],
                    exprs,
                ))
            &&& forall|i: int, j: int|
                0 <= i < j < cs.len() ==> constraint_slot(#[trigger] cs[i])->Some_0
                    <= constraint_slot(#[trigger] cs[j])->Some_0
        }),
    decreases upto,
{
    if upto > 0 {
        lemma_slots_constraints(slots, exprs, rows, expr_slot, upto - 1);
        let before = emit_slots(slots, exprs, rows, expr_slot, upto - 1)->Ok_0.1;
        let more = emit_slot((upto - 1) as usize, slots[upto - 1], exprs, rows, expr_slot)->Ok_0.1;
        let cs = emit_slots(slots, exprs, rows, expr_slot, upto)->Ok_0.1;
        lemma_slot_constraints((upto - 1) as usize, slots[upto - 1], exprs, rows, expr_slot);
        assert forall|i: int| 0 <= i < cs.len() implies constraint_slot(#[trigger] cs[i]) is Some
            && constraint_slot(cs[i])->Some_0 < upto && (cs[i] is Join ==> !const_only(
            slots[constraint_slot(cs[i])->Some_0 as int],
            exprs,
        )) by {
            if i < before.len() {
                assert(cs[i] == before[i]);
            } else {
                assert(cs[i] == more[i - before.len()]);
            }
        }
        assert forall|i: int, j: int| 0 <= i < j < cs.len() implies constraint_slot(
            #[trigger] cs[i],
        )->Some_0 <= constraint_slot(#[trigger] cs[j])->Some_0 by {
            if j < before.len() {
                assert(cs[i] == before[i]);
                assert(cs[j] == before[j]);
            } else if i < before.len() {
                assert(cs[i] == before[i]);
                assert(cs[j] == more[j - before.len()]);
            } else {
                assert(cs[i] == more[i - before.len()]);
                assert(cs[j] == more[j - before.len()]);
            }
        }
    }
}

/// In a plan, the constraints of a constant-only slot come before every
/// join, and no join is on a constant-only slot: the columns of such a slot
/// are narrowed.
pub proof fn lemma_constants_first(statements: Seq<Result<StatementView, Seq<char>>>)
    requires
        flatten_block(statements).exprs.len() <= usize::MAX,
        compile_spec(statements) is Ok,
    ensures
        ({
            let flat = flatten_block(statements);
            let slots = slots_of(flat);
            let cs = compile_spec(statements)->Ok_0.constraints;
            &&& forall|j: int|
                0 <= j < cs.len() && (#[trigger] cs[j]) is Join ==> constraint_slot(cs[j])->Some_0
                    < slots.len() && !const_only(
                    slots[constraint_slot(cs[j])->Some_0 as int],
                    flat.exprs,
                )
            &&& forall|i: int, j: int|
                0 <= i < cs.len() && 0 <= j < cs.len() && (#[trigger] cs[j]) is Join
                    && constraint_slot(#[trigger] cs[i]) is Some && constraint_slot(cs[i])->Some_0
                    < slots.len() && const_only(
                    slots[constraint_slot(cs[i])->Some_0 as int],
                    flat.exprs,
                ) ==> i < j
        }),
{
    let flat = flatten_block(statements);
    let slots = slots_of(flat);
    let expr_slot = expr_slots(slots, flat.exprs.len());
    let rows = rows_of(flat.exprs, flat.exprs.len() as int);
    let emitted = emit_slots(slots, flat.exprs, rows, expr_slot, slots.len() as int)->Ok_0.1;
    let tail = assert_constraints(flat.asserts, expr_slot);
    let cs = compile_spec(statements)->Ok_0.constraints;
    lemma_slots_of(statements);
    lemma_partition_size(slots, flat.exprs.len() as int);
    lemma_slots_constraints(slots, flat.exprs, rows, expr_slot, slots.len() as int);
    assert forall|j: int| 0 <= j < cs.len() && (#[trigger] cs[j]) is Join implies j < emitted.len()
        && cs[j] == emitted[j] by {
        if j >= emitted.len() {
            if j < emitted.len() + tail.len() {
                assert(cs[j] == tail[j - emitted.len()]);
            }
        }
    }
    assert forall|i: int, j: int|
        0 <= i < cs.len() && 0 <= j < cs.len() && (#[trigger] cs[j]) is Join && constraint_slot(
            #[trigger] cs[i],
        ) is Some && constraint_slot(cs[i])->Some_0 < slots.len() && const_only(
            slots[constraint_slot(cs[i])->Some_0 as int],
            flat.exprs,
        ) implies i < j by {
        assert(cs[j] == emitted[j]);
        let c = constraint_slot(cs[i])->Some_0 as int;
        let s = constraint_slot(cs[j])->Some_0 as int;
        if i >= emitted.len() {
            if i < emitted.len() + tail.len() {
                assert(cs[i] == tail[i - emitted.len()]);
            }
        } else {
            assert(cs[i] == emitted[i]);
            if s <= c {
                if s < c {
                    assert(const_only(slots[s], flat.exprs));
                }
            }
            if j < i {
                assert(constraint_slot(emitted[j])->Some_0 <= constraint_slot(emitted[i])->Some_0);
            }
        }
    }
}

} // verus!
