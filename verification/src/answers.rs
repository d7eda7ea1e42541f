//! What a block means: its results are the assignments that give every
//! constant its value, make every `Dot` a triple of the bag and every sum
//! the sum of its arguments.

use vstd::prelude::*;
use crate::aligned::{
    lemma_applies_shape, lemma_partition_size, lemma_plan_runs, lemma_slot_index, rows_ok,
};
use crate::ast::StatementView;
use crate::index::{index_spec, is_ordering, lemma_index_rows, row_at, Triple};
use crate::ir::{flatten, ir_ok, lemma_flatten_ok, node_ok, IrView};
use crate::meaning::{
    fits, gathered, lemma_run_gathers, lemma_solutions, satisfies, searched, searching, settled,
    solutions, sum_holds, tagged, witnessed, written, written_slot,
};
use crate::plan::{ConstraintView, Function, RowCol};
use crate::planner::{
    applies, assert_constraints, compile_spec, constants_of, emit_slot, emit_slots, expr_slots,
    first_conflict, flatten_block, functions_of, hits, named_of, narrows, partition, row_hits,
    rowcols_of, rows_of, slots_of,
};
use crate::semantics::{Fault, Output};
use crate::shape::{aligned, probes};
use crate::slots::{lemma_flat_bounds, lemma_slots_of};
use crate::solve::{block_spec, full_ranges, indexes_spec};
use crate::value::ValueView;

verus! {

/// In the flat form of a block every expression has its operands before
/// it.
pub proof fn lemma_flat_ok(statements: Seq<Result<StatementView, Seq<char>>>)
    requires
        flatten_block(statements).exprs.len() <= usize::MAX,
    ensures
        ir_ok(flatten_block(statements).exprs),
    decreases statements.len(),
{
    if statements.len() > 0 {
        let before = flatten_block(statements.drop_last());
        let after = flatten_block(statements);
        let n = before.exprs.len() as int;
        lemma_flat_bounds(statements);
        lemma_flat_ok(statements.drop_last());
        match statements.last() {
            Err(_) => {},
            Ok(StatementView::Pattern(a, b)) => {
                let fa = flatten(a, n);
                let fb = flatten(b, n + fa.len());
                assert(after.exprs.len() == n + fa.len() + fb.len());
                lemma_flatten_ok(a, n);
                lemma_flatten_ok(b, n + fa.len());
                assert forall|i: int| 0 <= i < after.exprs.len() implies node_ok(
                    #[trigger] after.exprs[i],
                    i,
                ) by {
                    if i < n {
                        assert(after.exprs[i] == before.exprs[i]);
                    } else if i < n + fa.len() {
                        assert(after.exprs[i] == fa[i - n]);
                    } else {
                        assert(after.exprs[i] == fb[i - n - fa.len()]);
                    }
                }
            },
            Ok(StatementView::Assert(e, a, v)) => {
                let fe = flatten(e, n);
                let fa = flatten(a, n + fe.len());
                let fv = flatten(v, n + fe.len() + fa.len());
                assert(after.exprs.len() == n + fe.len() + fa.len() + fv.len());
                lemma_flatten_ok(e, n);
                lemma_flatten_ok(a, n + fe.len());
                lemma_flatten_ok(v, n + fe.len() + fa.len());
                assert forall|i: int| 0 <= i < after.exprs.len() implies node_ok(
                    #[trigger] after.exprs[i],
                    i,
                ) by {
                    if i < n {
                        assert(after.exprs[i] == before.exprs[i]);
                    } else if i < n + fe.len() {
                        assert(after.exprs[i] == fe[i - n]);
                    } else if i < n + fe.len() + fa.len() {
                        assert(after.exprs[i] == fa[i - n - fe.len()]);
                    } else {
                        assert(after.exprs[i] == fv[i - n - fe.len() - fa.len()]);
                    }
                }
            },
        }
    }
}

/// Expression `i` is the `Dot` that makes some row.
pub open spec fn has_row(rows: Seq<(usize, usize, usize)>, i: int) -> bool {
    exists|r: int| 0 <= r < rows.len() && (#[trigger] rows[r]).2 == i
}

/// The rows are the `Dot` expressions: every row is made of a `Dot` and its
/// two operands, which stand before it in the order entity, attribute; and
/// every `Dot` makes a row.
pub proof fn lemma_rows_of(exprs: Seq<IrView>, upto: int)
    requires
        ir_ok(exprs),
        0 <= upto <= exprs.len() <= usize::MAX,
    ensures
        rows_ok(rows_of(exprs, upto), upto),
        rows_of(exprs, upto).len() <= upto,
        forall|r: int|
            0 <= r < rows_of(exprs, upto).len() ==> exprs[(#[trigger] rows_of(exprs, upto)[r]).2 as int]
                == IrView::Dot(rows_of(exprs, upto)[r].0, rows_of(exprs, upto)[r].1),
        forall|i: int|
            0 <= i < upto && (#[trigger] exprs[i]) is Dot ==> has_row(rows_of(exprs, upto), i),
    decreases upto,
{
    if upto > 0 {
        lemma_rows_of(exprs, upto - 1);
        let before = rows_of(exprs, upto - 1);
        let after = rows_of(exprs, upto);
        assert(node_ok(exprs[upto - 1], upto - 1));
        assert forall|r: int| 0 <= r < after.len() implies (#[trigger] after[r]).0 < after[r].1
            < after[r].2 < upto && exprs[after[r].2 as int] == IrView::Dot(after[r].0, after[r].1) by {
            if r < before.len() {
                assert(after[r] == before[r]);
            }
        }
        assert forall|i: int| 0 <= i < upto && (#[trigger] exprs[i]) is Dot implies has_row(
            after,
            i,
        ) by {
            if i < upto - 1 {
                assert(has_row(before, i));
                let r = choose|r: int| 0 <= r < before.len() && (#[trigger] before[r]).2 == i;
                assert(after[r] == before[r]);
            } else {
                assert(after[after.len() - 1].2 == i);
            }
        }
    }
}

/// Every function takes its arguments from slots that come before its
/// own.
pub open spec fn ordered(exprs: Seq<IrView>, expr_slot: Seq<usize>) -> bool {
    forall|i: int, j: int|
        0 <= i < exprs.len() && (#[trigger] exprs[i]) is Function && 0 <= j
            < exprs[i]->Function_1.len() ==> expr_slot[#[trigger] exprs[i]->Function_1[j] as int]
            < expr_slot[i]
}

/// Where no constant conflicts with the first, all constants are the
/// first.
pub proof fn lemma_no_conflict(constants: Seq<ValueView>, upto: int)
    requires
        0 <= upto <= constants.len(),
        first_conflict(constants, upto) >= upto,
    ensures
        forall|i: int| 0 <= i < upto ==> #[trigger] constants[i] == constants[0],
    decreases upto,
{
    if upto > 1 {
        lemma_no_conflict(constants, upto - 1);
    }
}

/// The constants of a slot are the values of its constant expressions.
pub proof fn lemma_constants_from(slot: Seq<usize>, exprs: Seq<IrView>, upto: int)
    requires
        0 <= upto <= slot.len(),
    ensures
        forall|j: int|
            0 <= j < upto && exprs[#[trigger] slot[j] as int] is Constant ==> exists|i: int|
                0 <= i < constants_of(slot, exprs, upto).len() && #[trigger] constants_of(
                    slot,
                    exprs,
                    upto,
                )[i] == exprs[slot[j] as int]->Constant_0,
        constants_of(slot, exprs, upto).len() > 0 ==> exists|j: int|
            0 <= j < upto && exprs[#[trigger] slot[j] as int] is Constant,
    decreases upto,
{
    if upto > 0 {
        lemma_constants_from(slot, exprs, upto - 1);
        let before = constants_of(slot, exprs, upto - 1);
        let after = constants_of(slot, exprs, upto);
        assert forall|j: int|
            0 <= j < upto && exprs[#[trigger] slot[j] as int] is Constant implies exists|i: int|
            0 <= i < after.len() && #[trigger] after[i] == exprs[slot[j] as int]->Constant_0 by {
            if j < upto - 1 {
                let i = choose|i: int|
                    0 <= i < before.len() && #[trigger] before[i]
                        == exprs[slot[j] as int]->Constant_0;
                assert(after[i] == before[i]);
            } else {
                assert(after[after.len() - 1] == exprs[slot[j] as int]->Constant_0);
            }
        }
        if after.len() > 0 {
            if before.len() > 0 {
                let j = choose|j: int| 0 <= j < upto - 1 && exprs[#[trigger] slot[j] as int] is Constant;
                assert(exprs[slot[j] as int] is Constant);
            } else {
                assert(exprs[slot[upto - 1] as int] is Constant);
            }
        }
    }
}

/// The functions of a slot are its function expressions, and every
/// function expression of the slot is among them.
pub proof fn lemma_functions_both(slot: Seq<usize>, exprs: Seq<IrView>, upto: int)
    requires
        0 <= upto <= slot.len(),
    ensures
        forall|i: int|
            0 <= i < functions_of(slot, exprs, upto).len() ==> exists|j: int|
                0 <= j < upto && exprs[#[trigger] slot[j] as int] == IrView::Function(
                    (#[trigger] functions_of(slot, exprs, upto)[i]).0,
                    functions_of(slot, exprs, upto)[i].1,
                ),
        forall|j: int|
            0 <= j < upto && exprs[#[trigger] slot[j] as int] is Function ==> exists|i: int|
                0 <= i < functions_of(slot, exprs, upto).len() && #[trigger] functions_of(
                    slot,
                    exprs,
                    upto,
                )[i] == (exprs[slot[j] as int]->Function_0, exprs[slot[j] as int]->Function_1),
    decreases upto,
{
    crate::aligned::lemma_functions_from(slot, exprs, upto);
    if upto > 0 {
        lemma_functions_both(slot, exprs, upto - 1);
        let before = functions_of(slot, exprs, upto - 1);
        let after = functions_of(slot, exprs, upto);
        assert forall|j: int|
            0 <= j < upto && exprs[#[trigger] slot[j] as int] is Function implies exists|i: int|
            0 <= i < after.len() && #[trigger] after[i] == (
                exprs[slot[j] as int]->Function_0,
                exprs[slot[j] as int]->Function_1,
            ) by {
            if j < upto - 1 {
                let i = choose|i: int|
                    0 <= i < before.len() && #[trigger] before[i] == (
                        exprs[slot[j] as int]->Function_0,
                        exprs[slot[j] as int]->Function_1,
                    );
                assert(after[i] == before[i]);
            } else {
                assert(after[after.len() - 1] == (
                    exprs[slot[j] as int]->Function_0,
                    exprs[slot[j] as int]->Function_1,
                ));
            }
        }
    }
}

/// A program of functions searches no column.
pub proof fn lemma_tagged_none(cs: Seq<ConstraintView>)
    requires
        forall|i: int| 0 <= i < cs.len() ==> (#[trigger] cs[i]) is Apply,
    ensures
        tagged(cs) == Seq::<(RowCol, usize)>::empty(),
    decreases cs.len(),
{
    if cs.len() > 0 {
        assert forall|i: int| 0 <= i < cs.drop_first().len() implies (
        #[trigger] cs.drop_first()[i]) is Apply by {
            assert(cs.drop_first()[i] == cs[i + 1]);
        }
        lemma_tagged_none(cs.drop_first());
        assert(tagged(cs) =~= Seq::<(RowCol, usize)>::empty());
    }
}

/// One `Narrow` for each column searches each column for the slot.
pub proof fn lemma_tagged_narrows(rowcols: Seq<RowCol>, s: usize)
    ensures
        tagged(narrows(rowcols, s)) == rowcols.map_values(|rc: RowCol| (rc, s)),
    decreases rowcols.len(),
{
    let cs = narrows(rowcols, s);
    let tags = rowcols.map_values(|rc: RowCol| (rc, s));
    if rowcols.len() > 0 {
        lemma_tagged_narrows(rowcols.drop_first(), s);
        assert(cs.drop_first() =~= narrows(rowcols.drop_first(), s));
        assert(tagged(cs) =~= tags);
    } else {
        assert(tagged(cs) =~= tags);
    }
}

/// The columns searched by two programs run one after the other, with
/// their slots.
pub proof fn lemma_tagged_add(a: Seq<ConstraintView>, b: Seq<ConstraintView>)
    ensures
        tagged(a + b) == tagged(a) + tagged(b),
    decreases a.len(),
{
    if a.len() == 0 {
        assert(a + b =~= b);
        assert(tagged(a) + tagged(b) =~= tagged(b));
    } else {
        lemma_tagged_add(a.drop_first(), b);
        assert((a + b).drop_first() =~= a.drop_first() + b);
        assert(tagged(a + b) =~= tagged(a) + tagged(b));
    }
}

/// The slot that a constraint of a search is about.
pub open spec fn owner(c: ConstraintView) -> usize {
    match c {
        ConstraintView::Narrow(_, slot) => slot,
        ConstraintView::Join(_, slot) => slot,
        ConstraintView::Apply(slot, _, _) => slot,
        _ => 0,
    }
}

/// Constraint `c` applies the function of the expression `e` to the slots
/// of its two arguments, for the slot `s`.
pub open spec fn applies_expr(c: ConstraintView, e: IrView, expr_slot: Seq<usize>, s: usize) -> bool {
    &&& c is Apply
    &&& e is Function
    &&& e->Function_1.len() == 2
    &&& c->Apply_0 == s
    &&& c->Apply_2 == Function::Add(
        expr_slot[e->Function_1[0] as int],
        expr_slot[e->Function_1[1] as int],
    )
}

/// What the compiler emits for one slot: first one `Apply` for each
/// function of the slot, then one `Narrow` for each column if a constant
/// or a function fixes the slot, one `Join` of all columns otherwise. Only
/// the first of these constraints can give the slot a value, and it does
/// exactly if the slot holds no constant. A slot that holds constants
/// starts with their value.
pub proof fn lemma_emit_shape(
    s: usize,
    slot: Seq<usize>,
    exprs: Seq<IrView>,
    rows: Seq<(usize, usize, usize)>,
    expr_slot: Seq<usize>,
)
    requires
        emit_slot(s, slot, exprs, rows, expr_slot) is Ok,
    ensures
        ({
            let constants = constants_of(slot, exprs, slot.len() as int);
            let functions = functions_of(slot, exprs, slot.len() as int);
            let rowcols = rowcols_of(slot, rows, slot.len() as int);
            let found = emit_slot(s, slot, exprs, rows, expr_slot)->Ok_0;
            let more = found.1;
            &&& tagged(more) == rowcols.map_values(|rc: RowCol| (rc, s))
            &&& more.len() >= functions.len()
            &&& forall|i: int|
                0 <= i < more.len() ==> ((#[trigger] more[i]) is Narrow || more[i] is Join
                    || more[i] is Apply) && owner(more[i]) == s && (written_slot(more[i]) is Some
                    ==> i == 0 && constants.len() == 0) && (more[i] is Apply <==> i
                    < functions.len())
            &&& forall|i: int|
                0 <= i < functions.len() ==> applies_expr(
                    #[trigger] more[i],
                    IrView::Function(functions[i].0, functions[i].1),
                    expr_slot,
                    s,
                )
            &&& constants.len() == 0 ==> more.len() > 0 && written_slot(more[0]) == Some(s)
            &&& forall|j: int|
                0 <= j < slot.len() && exprs[#[trigger] slot[j] as int] is Constant ==> found.0
                    == exprs[slot[j] as int]->Constant_0
        }),
{
    let constants = constants_of(slot, exprs, slot.len() as int);
    let functions = functions_of(slot, exprs, slot.len() as int);
    let rowcols = rowcols_of(slot, rows, slot.len() as int);
    let found = emit_slot(s, slot, exprs, rows, expr_slot)->Ok_0;
    let more = found.1;
    let tags = rowcols.map_values(|rc: RowCol| (rc, s));
    let apps = applies(functions, s, constants.len() > 0, expr_slot, functions.len() as int)->Ok_0;
    lemma_no_conflict(constants, constants.len() as int);
    lemma_constants_from(slot, exprs, slot.len() as int);
    lemma_applies_shape(functions, s, constants.len() > 0, expr_slot, functions.len() as int);
    lemma_tagged_none(apps);
    if constants.len() > 0 || functions.len() > 0 {
        lemma_tagged_add(apps, narrows(rowcols, s));
        lemma_tagged_narrows(rowcols, s);
        assert(tagged(apps) + tags =~= tags);
        assert forall|i: int| 0 <= i < more.len() implies ((#[trigger] more[i]) is Narrow
            || more[i] is Join || more[i] is Apply) && owner(more[i]) == s && (written_slot(
            more[i],
        ) is Some ==> i == 0 && constants.len() == 0) && (more[i] is Apply <==> i
            < functions.len()) by {
            if i < apps.len() {
                assert(more[i] == apps[i]);
            } else {
                assert(more[i] == narrows(rowcols, s)[i - apps.len()]);
            }
        }
        assert forall|i: int| 0 <= i < functions.len() implies applies_expr(
            #[trigger] more[i],
            IrView::Function(functions[i].0, functions[i].1),
            expr_slot,
            s,
        ) by {
            assert(more[i] == apps[i]);
        }
        if constants.len() == 0 {
            assert(more[0] == apps[0]);
        }
    } else {
        let one = seq![ConstraintView::Join(rowcols, s)];
        assert(apps =~= Seq::<ConstraintView>::empty());
        assert(more =~= one);
        assert(one.drop_first() =~= Seq::<ConstraintView>::empty());
        assert(tagged(one.drop_first()) =~= Seq::<(RowCol, usize)>::empty());
        assert(tagged(one) =~= tags);
    }
}

/// The columns of the expressions of the first `upto` slots, each with its
/// slot.
pub open spec fn all_tagged(slots: Seq<Seq<usize>>, rows: Seq<(usize, usize, usize)>, upto: int) -> Seq<
    (RowCol, usize),
>
    decreases upto,
{
    if upto <= 0 {
        Seq::empty()
    } else {
        all_tagged(slots, rows, upto - 1) + rowcols_of(
            slots[upto - 1],
            rows,
            slots[upto - 1].len() as int,
        ).map_values(|rc: RowCol| (rc, (upto - 1) as usize))
    }
}

/// Some constraint of the program applies the function of expression `e`
/// for slot `s`.
pub open spec fn applied(body: Seq<ConstraintView>, e: IrView, expr_slot: Seq<usize>, s: usize) -> bool {
    exists|j: int| 0 <= j < body.len() && applies_expr(#[trigger] body[j], e, expr_slot, s)
}

/// Some function expression of slot `s` is what the constraint `c` applies.
pub open spec fn applies_some(
    c: ConstraintView,
    slot: Seq<usize>,
    exprs: Seq<IrView>,
    expr_slot: Seq<usize>,
    s: usize,
) -> bool {
    exists|k: int| 0 <= k < slot.len() && applies_expr(c, exprs[#[trigger] slot[k] as int], expr_slot, s)
}

/// The search part of a plan, as far as it comes from the first `upto`
/// slots: it searches each column of a slot's expressions for that slot;
/// its constraints come slot by slot; only the first constraint of a slot
/// can give the slot a value, and it does exactly if the slot holds no
/// constant; a slot that holds constants starts with their value; and its
/// applications of functions are the function expressions of the slots.
pub proof fn lemma_body(
    slots: Seq<Seq<usize>>,
    exprs: Seq<IrView>,
    rows: Seq<(usize, usize, usize)>,
    expr_slot: Seq<usize>,
    upto: int,
)
    requires
        0 <= upto <= slots.len() <= usize::MAX,
        emit_slots(slots, exprs, rows, expr_slot, upto) is Ok,
    ensures
        ({
            let found = emit_slots(slots, exprs, rows, expr_slot, upto)->Ok_0;
            let body = found.1;
            &&& found.0.len() == upto
            &&& searching(body)
            &&& tagged(body) == all_tagged(slots, rows, upto)
            &&& forall|i: int| 0 <= i < body.len() ==> owner(#[trigger] body[i]) < upto
            &&& forall|i: int, j: int|
                0 <= i < j < body.len() ==> owner(#[trigger] body[i]) <= owner(#[trigger] body[j])
            &&& forall|i: int, j: int|
                0 <= i < j < body.len() && written_slot(#[trigger] body[j]) is Some ==> owner(
                    #[trigger] body[i],
                ) < owner(body[j])
            &&& forall|s: int|
                0 <= s < upto ==> (written(body, s) <==> constants_of(
                    #[trigger] slots[s],
                    exprs,
                    slots[s].len() as int,
                ).len() == 0)
            &&& forall|s: int, j: int|
                0 <= s < upto && 0 <= j < slots[s].len() && exprs[#[trigger] slots[s][j] as int] is Constant
                    ==> found.0[s] == exprs[slots[s][j] as int]->Constant_0
            &&& forall|j: int|
                0 <= j < body.len() && (#[trigger] body[j]) is Apply ==> applies_some(
                    body[j],
                    slots[owner(body[j]) as int],
                    exprs,
                    expr_slot,
                    owner(body[j]),
                )
            &&& forall|s: int, k: int|
                0 <= s < upto && 0 <= k < slots[s].len() && exprs[#[trigger] slots[s][k] as int] is Function
                    ==> applied(body, exprs[slots[s][k] as int], expr_slot, s as usize)
        }),
    decreases upto,
{
    if upto > 0 {
        lemma_body(slots, exprs, rows, expr_slot, upto - 1);
        let s = (upto - 1) as usize;
        let slot = slots[upto - 1];
        let before = emit_slots(slots, exprs, rows, expr_slot, upto - 1)->Ok_0;
        let one = emit_slot(s, slot, exprs, rows, expr_slot)->Ok_0;
        let found = emit_slots(slots, exprs, rows, expr_slot, upto)->Ok_0;
        let body = found.1;
        let constants = constants_of(slot, exprs, slot.len() as int);
        let functions = functions_of(slot, exprs, slot.len() as int);
        let n0 = before.1.len() as int;
        lemma_emit_shape(s, slot, exprs, rows, expr_slot);
        lemma_functions_both(slot, exprs, slot.len() as int);
        lemma_tagged_add(before.1, one.1);
        assert(body == before.1 + one.1);
        assert forall|i: int| 0 <= i < body.len() implies ((#[trigger] body[i]) is Narrow
            || body[i] is Join || body[i] is Apply) && owner(body[i]) < upto && (i >= n0
            ==> owner(body[i]) == s) && (i < n0 ==> owner(body[i]) < s) by {
            if i < n0 {
                assert(body[i] == before.1[i]);
            } else {
                assert(body[i] == one.1[i - n0]);
            }
        }
        assert forall|i: int, j: int| 0 <= i < j < body.len() implies owner(#[trigger] body[i])
            <= owner(#[trigger] body[j]) by {
            if j < n0 {
                assert(body[i] == before.1[i]);
                assert(body[j] == before.1[j]);
            }
        }
        assert forall|i: int, j: int|
            0 <= i < j < body.len() && written_slot(#[trigger] body[j]) is Some implies owner(
            #[trigger] body[i],
        ) < owner(body[j]) by {
            if j < n0 {
                assert(body[i] == before.1[i]);
                assert(body[j] == before.1[j]);
            } else {
                assert(body[j] == one.1[j - n0]);
                assert(j == n0);
            }
        }
        assert forall|t: int| 0 <= t < upto implies (written(body, t) <==> constants_of(
            #[trigger] slots[t],
            exprs,
            slots[t].len() as int,
        ).len() == 0) by {
            if written(body, t) {
                let j = choose|j: int|
                    0 <= j < body.len() && written_slot(#[trigger] body[j]) is Some
                        && written_slot(body[j])->Some_0 == t;
                if j < n0 {
                    assert(body[j] == before.1[j]);
                    assert(written(before.1, t));
                } else {
                    assert(body[j] == one.1[j - n0]);
                }
            }
            if constants_of(slots[t], exprs, slots[t].len() as int).len() == 0 {
                if t < upto - 1 {
                    assert(written(before.1, t));
                    let j = choose|j: int|
                        0 <= j < n0 && written_slot(#[trigger] before.1[j]) is Some
                            && written_slot(before.1[j])->Some_0 == t;
                    assert(body[j] == before.1[j]);
                } else {
                    assert(body[n0] == one.1[0]);
                }
            }
        }
        assert forall|t: int, j: int|
            0 <= t < upto && 0 <= j < slots[t].len() && exprs[#[trigger] slots[t][j] as int] is Constant implies found.0[t]
            == exprs[slots[t][j] as int]->Constant_0 by {
            if t < upto - 1 {
                assert(found.0[t] == before.0[t]);
            } else {
                assert(slot[j] == slots[t][j]);
            }
        }
        assert forall|j: int| 0 <= j < body.len() && (#[trigger] body[j]) is Apply implies applies_some(
            body[j],
            slots[owner(body[j]) as int],
            exprs,
            expr_slot,
            owner(body[j]),
        ) by {
            if j < n0 {
                assert(body[j] == before.1[j]);
            } else {
                let i = j - n0;
                assert(body[j] == one.1[i]);
                assert(i < functions.len());
                let k = choose|k: int|
                    0 <= k < slot.len() && exprs[#[trigger] slot[k] as int] == IrView::Function(
                        functions[i].0,
                        functions[i].1,
                    );
                assert(applies_expr(one.1[i], exprs[slot[k] as int], expr_slot, s));
            }
        }
        assert forall|t: int, k: int|
            0 <= t < upto && 0 <= k < slots[t].len() && exprs[#[trigger] slots[t][k] as int] is Function implies applied(
            body,
            exprs[slots[t][k] as int],
            expr_slot,
            t as usize,
        ) by {
            let e = exprs[slots[t][k] as int];
            if t < upto - 1 {
                assert(applied(before.1, e, expr_slot, t as usize));
                let j = choose|j: int|
                    0 <= j < n0 && applies_expr(#[trigger] before.1[j], e, expr_slot, t as usize);
                assert(body[j] == before.1[j]);
            } else {
                assert(slot[k] == slots[t][k]);
                let i = choose|i: int|
                    0 <= i < functions.len() && #[trigger] functions[i] == (
                        e->Function_0,
                        e->Function_1,
                    );
                assert(applies_expr(
                    one.1[i],
                    IrView::Function(functions[i].0, functions[i].1),
                    expr_slot,
                    s,
                ));
                assert(body[n0 + i] == one.1[i]);
            }
        }
    } else {
        assert(tagged(Seq::<ConstraintView>::empty()) =~= Seq::<(RowCol, usize)>::empty());
    }
}

/// The search part of a plan whose functions take their arguments from
/// earlier slots is settled.
pub proof fn lemma_body_settled(
    slots: Seq<Seq<usize>>,
    exprs: Seq<IrView>,
    rows: Seq<(usize, usize, usize)>,
    n: int,
)
    requires
        partition(slots, n),
        n == exprs.len(),
        n <= usize::MAX,
        ordered(exprs, expr_slots(slots, n as nat)),
        emit_slots(slots, exprs, rows, expr_slots(slots, n as nat), slots.len() as int) is Ok,
    ensures
        settled(emit_slots(slots, exprs, rows, expr_slots(slots, n as nat), slots.len() as int)->Ok_0.1),
{
    let expr_slot = expr_slots(slots, n as nat);
    let body = emit_slots(slots, exprs, rows, expr_slot, slots.len() as int)->Ok_0.1;
    lemma_partition_size(slots, n);
    lemma_body(slots, exprs, rows, expr_slot, slots.len() as int);
    // The slots of the arguments of every application come before its own.
    assert forall|j: int| 0 <= j < body.len() && (#[trigger] body[j]) is Apply implies body[j]->Apply_2->Add_0
        < owner(body[j]) && body[j]->Apply_2->Add_1 < owner(body[j]) by {
        let s = owner(body[j]);
        let slot = slots[s as int];
        assert(applies_some(body[j], slot, exprs, expr_slot, s));
        let k = choose|k: int|
            0 <= k < slot.len() && applies_expr(body[j], exprs[#[trigger] slot[k] as int], expr_slot, s);
        let i = slot[k] as int;
        assert(slots[s as int][k] < n);
        assert(slot.contains(i as usize));
        lemma_slot_index(slots, n, i);
        assert(expr_slot[i] == s);
        assert(expr_slot[exprs[i]->Function_1[0] as int] < expr_slot[i]);
        assert(expr_slot[exprs[i]->Function_1[1] as int] < expr_slot[i]);
    }
    assert forall|i: int, j: int|
        0 <= i < j < body.len() && written_slot(#[trigger] body[j]) is Some implies !crate::meaning::reads(
        #[trigger] body[i],
        written_slot(body[j])->Some_0 as int,
    ) by {
        assert(owner(body[i]) < owner(body[j]));
    }
}

/// The expression in column `c` of a row.
pub open spec fn row_expr(row: (usize, usize, usize), c: int) -> usize {
    if c == 0 {
        row.0
    } else if c == 1 {
        row.1
    } else {
        row.2
    }
}

/// `list` holds the column `rc`.
pub open spec fn has_rowcol(list: Seq<RowCol>, rc: RowCol) -> bool {
    exists|i: int| 0 <= i < list.len() && #[trigger] list[i] == rc
}

/// The columns that are the expression `e` are exactly the columns of the
/// rows in which `e` stands.
pub proof fn lemma_hits_members(rows: Seq<(usize, usize, usize)>, e: usize, upto: int)
    requires
        0 <= upto <= rows.len() <= usize::MAX,
    ensures
        forall|i: int|
            0 <= i < hits(rows, e, upto).len() ==> (#[trigger] hits(rows, e, upto)[i]).0 < upto
                && hits(rows, e, upto)[i].1 < 3 && row_expr(
                rows[hits(rows, e, upto)[i].0 as int],
                hits(rows, e, upto)[i].1 as int,
            ) == e,
        forall|r: int, c: int|
            0 <= r < upto && 0 <= c < 3 && row_expr(rows[r], c) == e ==> #[trigger] has_rowcol(
                hits(rows, e, upto),
                (r as usize, c as usize),
            ),
    decreases upto,
{
    if upto > 0 {
        lemma_hits_members(rows, e, upto - 1);
        let before = hits(rows, e, upto - 1);
        let last = row_hits(rows[upto - 1], e, (upto - 1) as usize);
        let all = hits(rows, e, upto);
        assert forall|i: int| 0 <= i < all.len() implies (#[trigger] all[i]).0 < upto && all[i].1
            < 3 && row_expr(rows[all[i].0 as int], all[i].1 as int) == e by {
            if i < before.len() {
                assert(all[i] == before[i]);
            } else {
                assert(all[i] == last[i - before.len()]);
            }
        }
        assert forall|r: int, c: int|
            0 <= r < upto && 0 <= c < 3 && row_expr(rows[r], c) == e implies #[trigger] has_rowcol(
            all,
            (r as usize, c as usize),
        ) by {
            if r < upto - 1 {
                assert(has_rowcol(before, (r as usize, c as usize)));
                let i = choose|i: int|
                    0 <= i < before.len() && #[trigger] before[i] == (r as usize, c as usize);
                assert(all[i] == before[i]);
            } else {
                let row = rows[upto - 1];
                let a = if row.0 == e { 1int } else { 0int };
                let b = if row.1 == e { 1int } else { 0int };
                let at = if c == 0 { 0int } else if c == 1 { a } else { a + b };
                assert(last[at] == (r as usize, c as usize));
                assert(all[before.len() + at] == last[at]);
            }
        }
    }
}

/// The columns of the expressions of a slot are exactly the columns in
/// which an expression of the slot stands.
pub proof fn lemma_rowcols_members(slot: Seq<usize>, rows: Seq<(usize, usize, usize)>, k: int)
    requires
        0 <= k <= slot.len(),
        rows.len() <= usize::MAX,
    ensures
        forall|i: int|
            0 <= i < rowcols_of(slot, rows, k).len() ==> (#[trigger] rowcols_of(slot, rows, k)[i]).0
                < rows.len() && rowcols_of(slot, rows, k)[i].1 < 3 && slot.take(k).contains(
                row_expr(
                    rows[rowcols_of(slot, rows, k)[i].0 as int],
                    rowcols_of(slot, rows, k)[i].1 as int,
                ),
            ),
        forall|r: int, c: int, j: int|
            0 <= r < rows.len() && 0 <= c < 3 && 0 <= j < k && row_expr(rows[r], c) == #[trigger] slot[j]
                ==> #[trigger] has_rowcol(rowcols_of(slot, rows, k), (r as usize, c as usize)),
    decreases k,
{
    if k > 0 {
        lemma_rowcols_members(slot, rows, k - 1);
        lemma_hits_members(rows, slot[k - 1], rows.len() as int);
        let before = rowcols_of(slot, rows, k - 1);
        let last = hits(rows, slot[k - 1], rows.len() as int);
        let all = rowcols_of(slot, rows, k);
        assert forall|i: int| 0 <= i < all.len() implies (#[trigger] all[i]).0 < rows.len()
            && all[i].1 < 3 && slot.take(k).contains(
            row_expr(rows[all[i].0 as int], all[i].1 as int),
        ) by {
            if i < before.len() {
                assert(all[i] == before[i]);
                let e = row_expr(rows[all[i].0 as int], all[i].1 as int);
                let short = slot.take(k - 1);
                let j = choose|j: int| 0 <= j < short.len() && #[trigger] short[j] == e;
                assert(slot.take(k)[j] == e);
            } else {
                assert(all[i] == last[i - before.len()]);
                assert(slot.take(k)[k - 1] == slot[k - 1]);
            }
        }
        assert forall|r: int, c: int, j: int|
            0 <= r < rows.len() && 0 <= c < 3 && 0 <= j < k && row_expr(rows[r], c) == #[trigger] slot[j] implies #[trigger] has_rowcol(
            all,
            (r as usize, c as usize),
        ) by {
            if j < k - 1 {
                assert(has_rowcol(before, (r as usize, c as usize)));
                let i = choose|i: int|
                    0 <= i < before.len() && #[trigger] before[i] == (r as usize, c as usize);
                assert(all[i] == before[i]);
            } else {
                assert(has_rowcol(last, (r as usize, c as usize)));
                let i = choose|i: int|
                    0 <= i < last.len() && #[trigger] last[i] == (r as usize, c as usize);
                assert(all[before.len() + i] == last[i]);
            }
        }
    }
}

/// `list` holds the column `rc` with the slot `s`.
pub open spec fn has_tagged(list: Seq<(RowCol, usize)>, rc: RowCol, s: usize) -> bool {
    exists|i: int| 0 <= i < list.len() && #[trigger] list[i] == (rc, s)
}

/// The plan searches every column of every row, each for the slot of the
/// expression that stands in it, and nothing else.
pub proof fn lemma_all_tagged(
    slots: Seq<Seq<usize>>,
    rows: Seq<(usize, usize, usize)>,
    n: int,
    upto: int,
)
    requires
        partition(slots, n),
        0 <= n <= usize::MAX,
        rows_ok(rows, n),
        rows.len() <= usize::MAX,
        0 <= upto <= slots.len(),
    ensures
        forall|i: int|
            0 <= i < all_tagged(slots, rows, upto).len() ==> (#[trigger] all_tagged(
                slots,
                rows,
                upto,
            )[i]).0.0 < rows.len() && all_tagged(slots, rows, upto)[i].0.1 < 3 && all_tagged(
                slots,
                rows,
                upto,
            )[i].1 == expr_slots(slots, n as nat)[row_expr(
                rows[all_tagged(slots, rows, upto)[i].0.0 as int],
                all_tagged(slots, rows, upto)[i].0.1 as int,
            ) as int],
        forall|r: int, c: int|
            0 <= r < rows.len() && 0 <= c < 3 && expr_slots(slots, n as nat)[row_expr(rows[r], c) as int]
                < upto ==> #[trigger] has_tagged(
                all_tagged(slots, rows, upto),
                (r as usize, c as usize),
                expr_slots(slots, n as nat)[row_expr(rows[r], c) as int],
            ),
    decreases upto,
{
    if upto > 0 {
        lemma_all_tagged(slots, rows, n, upto - 1);
        lemma_partition_size(slots, n);
        let slot = slots[upto - 1];
        let s = (upto - 1) as usize;
        let before = all_tagged(slots, rows, upto - 1);
        let rowcols = rowcols_of(slot, rows, slot.len() as int);
        let last = rowcols.map_values(|rc: RowCol| (rc, s));
        let all = all_tagged(slots, rows, upto);
        let expr_slot = expr_slots(slots, n as nat);
        lemma_rowcols_members(slot, rows, slot.len() as int);
        assert(slot.take(slot.len() as int) =~= slot);
        assert forall|i: int| 0 <= i < all.len() implies (#[trigger] all[i]).0.0 < rows.len()
            && all[i].0.1 < 3 && all[i].1 == expr_slot[row_expr(
            rows[all[i].0.0 as int],
            all[i].0.1 as int,
        ) as int] by {
            if i < before.len() {
                assert(all[i] == before[i]);
            } else {
                let rc = rowcols[i - before.len()];
                assert(all[i] == last[i - before.len()]);
                let e = row_expr(rows[rc.0 as int], rc.1 as int);
                assert(slot.contains(e));
                assert(rows[rc.0 as int].0 < rows[rc.0 as int].1 < rows[rc.0 as int].2 < n);
                lemma_slot_index(slots, n, e as int);
            }
        }
        assert forall|r: int, c: int|
            0 <= r < rows.len() && 0 <= c < 3 && expr_slot[row_expr(rows[r], c) as int]
                < upto implies #[trigger] has_tagged(
            all,
            (r as usize, c as usize),
            expr_slot[row_expr(rows[r], c) as int],
        ) by {
            let e = row_expr(rows[r], c);
            assert(rows[r].0 < rows[r].1 < rows[r].2 < n);
            lemma_slot_index(slots, n, e as int);
            if expr_slot[e as int] < upto - 1 {
                assert(has_tagged(before, (r as usize, c as usize), expr_slot[e as int]));
                let i = choose|i: int|
                    0 <= i < before.len() && #[trigger] before[i] == (
                        (r as usize, c as usize),
                        expr_slot[e as int],
                    );
                assert(all[i] == before[i]);
            } else {
                assert(slot.contains(e));
                let j = choose|j: int| 0 <= j < slot.len() && slot[j] == e;
                assert(row_expr(rows[r], c) == slot[j]);
                assert(has_rowcol(rowcols, (r as usize, c as usize)));
                let i = choose|i: int|
                    0 <= i < rowcols.len() && #[trigger] rowcols[i] == (r as usize, c as usize);
                assert(last[i] == ((r as usize, c as usize), s));
                assert(all[before.len() + i] == last[i]);
            }
        }
    }
}

/// The assignment gives expression `i` a value that it can have: a
/// constant its own value, a `Dot` the value that the bag holds for the
/// entity and the attribute that the assignment gives to its operands, and
/// a sum the sum of the integers that the assignment gives to its two
/// arguments.
pub open spec fn holds_at(
    exprs: Seq<IrView>,
    expr_slot: Seq<usize>,
    triples: Seq<Triple>,
    sigma: Seq<ValueView>,
    i: int,
) -> bool {
    match exprs[i] {
        IrView::Constant(v) => sigma[expr_slot[i] as int] == v,
        IrView::Dot(e, a) => triples.contains(
            (sigma[expr_slot[e as int] as int], sigma[expr_slot[a as int] as int], sigma[expr_slot[i] as int]),
        ),
        IrView::Function(_, args) => args.len() == 2 && crate::semantics::apply_spec(
            Function::Add(expr_slot[args[0] as int], expr_slot[args[1] as int]),
            sigma,
        ) == Ok::<ValueView, Fault>(sigma[expr_slot[i] as int]),
        _ => true,
    }
}

/// The assignment answers the block: it gives a value to every slot, and
/// with it to every expression of the slot, such that every constant has
/// its own value, every `Dot` is a triple of the bag, and every sum is the
/// sum of its arguments.
pub open spec fn answers(
    exprs: Seq<IrView>,
    expr_slot: Seq<usize>,
    count: nat,
    triples: Seq<Triple>,
    sigma: Seq<ValueView>,
) -> bool {
    &&& sigma.len() == count
    &&& forall|i: int|
        0 <= i < exprs.len() ==> #[trigger] holds_at(exprs, expr_slot, triples, sigma, i)
}

/// The positions of an index hold the triples it was built from.
pub proof fn lemma_index_holds(triples: Seq<Triple>, p: Seq<usize>, t: Triple)
    requires
        is_ordering(p),
    ensures
        triples.contains(t) <==> exists|k: int|
            0 <= k < triples.len() && #[trigger] row_at(index_spec(triples, p), k) == t,
{
    let ix = index_spec(triples, p);
    let back = Seq::new(triples.len(), |k: int| row_at(index_spec(triples, p), k));
    lemma_index_rows(triples, p);
    back.to_multiset_ensures();
    triples.to_multiset_ensures();
    assert(back.to_multiset().count(t) == triples.to_multiset().count(t));
    if triples.contains(t) {
        assert(triples.to_multiset().count(t) > 0);
        assert(back.contains(t));
        let k = choose|k: int| 0 <= k < back.len() && back[k] == t;
        assert(row_at(ix, k) == t);
    }
    if exists|k: int| 0 <= k < triples.len() && #[trigger] row_at(ix, k) == t {
        let k = choose|k: int| 0 <= k < triples.len() && #[trigger] row_at(ix, k) == t;
        assert(back[k] == t);
        assert(back.contains(t));
        assert(back.to_multiset().count(t) > 0);
    }
}

/// The search part of a plan: the constraints of its slots.
pub open spec fn body_of(statements: Seq<Result<StatementView, Seq<char>>>) -> Seq<ConstraintView> {
    let flat = flatten_block(statements);
    let slots = slots_of(flat);
    emit_slots(
        slots,
        flat.exprs,
        rows_of(flat.exprs, flat.exprs.len() as int),
        expr_slots(slots, flat.exprs.len()),
        slots.len() as int,
    )->Ok_0.1
}

/// The report part of a plan: its asserts and its `Debug`.
pub open spec fn tail_of(statements: Seq<Result<StatementView, Seq<char>>>) -> Seq<ConstraintView> {
    let flat = flatten_block(statements);
    let slots = slots_of(flat);
    assert_constraints(flat.asserts, expr_slots(slots, flat.exprs.len())).push(
        ConstraintView::Debug(named_of(slots, flat.exprs, slots.len() as int)),
    )
}

/// The assignments that running the plan of a block finds on the triples
/// of a bag.
pub open spec fn found(statements: Seq<Result<StatementView, Seq<char>>>, triples: Seq<Triple>) -> Seq<
    Seq<ValueView>,
> {
    let plan = compile_spec(statements)->Ok_0;
    solutions(
        body_of(statements),
        indexes_spec(triples, plan.row_orderings),
        full_ranges(plan.row_orderings.len(), triples.len() as usize),
        plan.variables,
    )
}

/// Running a block is filtering: where every function of the block takes
/// its arguments from earlier slots and the run ends without a fault, the
/// run finds, each once, exactly the assignments of values to slots that
/// give every constant its value, make every `Dot` a triple of the bag and
/// every sum the sum of its arguments; and it emits, for each assignment
/// found and in the order in which they are found, the asserted triples
/// and the values of the named slots.
pub proof fn lemma_block_answers(
    statements: Seq<Result<StatementView, Seq<char>>>,
    triples: Seq<Triple>,
)
    requires
        flatten_block(statements).exprs.len() <= usize::MAX,
        triples.len() <= usize::MAX,
        compile_spec(statements) is Ok,
        ordered(
            flatten_block(statements).exprs,
            expr_slots(slots_of(flatten_block(statements)), flatten_block(statements).exprs.len()),
        ),
        block_spec(compile_spec(statements)->Ok_0, triples) is Ok,
    ensures
        block_spec(compile_spec(statements)->Ok_0, triples) == Ok::<Output, Fault>(
            gathered(found(statements, triples), tail_of(statements)),
        ),
        found(statements, triples).no_duplicates(),
        forall|sigma: Seq<ValueView>|
            #![trigger found(statements, triples).contains(sigma)]
            found(statements, triples).contains(sigma) <==> answers(
                flatten_block(statements).exprs,
                expr_slots(
                    slots_of(flatten_block(statements)),
                    flatten_block(statements).exprs.len(),
                ),
                slots_of(flatten_block(statements)).len(),
                triples,
                sigma,
            ),
{
    let flat = flatten_block(statements);
    let exprs = flat.exprs;
    let n = exprs.len() as int;
    let slots = slots_of(flat);
    let count = slots.len() as int;
    let expr_slot = expr_slots(slots, exprs.len());
    let rows = rows_of(exprs, n);
    let emitted = emit_slots(slots, exprs, rows, expr_slot, count)->Ok_0;
    let body = body_of(statements);
    let tail = tail_of(statements);
    let plan = compile_spec(statements)->Ok_0;
    let orderings = plan.row_orderings;
    let idx = indexes_spec(triples, orderings);
    let ranges = full_ranges(orderings.len(), triples.len() as usize);
    let vars = plan.variables;
    let list = found(statements, triples);
    lemma_slots_of(statements);
    lemma_flat_ok(statements);
    lemma_flat_bounds(statements);
    lemma_rows_of(exprs, n);
    lemma_partition_size(slots, n);
    lemma_plan_runs(slots, exprs, rows, flat.asserts);
    lemma_body(slots, exprs, rows, expr_slot, count);
    lemma_body_settled(slots, exprs, rows, n);
    lemma_all_tagged(slots, rows, n, count);
    assert(plan.constraints =~= body + tail);
    assert forall|i: int| 0 <= i < body.len() implies crate::shape::constraint_ok(
        #[trigger] body[i],
        rows.len() as int,
        count,
    ) by {
        assert(plan.constraints[i] == body[i]);
    }
    assert forall|i: int| 0 <= i < tail.len() implies (#[trigger] tail[i]) is Assert
        || tail[i] is Debug by {
        let asserts = assert_constraints(flat.asserts, expr_slot);
        if i < asserts.len() {
            assert(tail[i] == asserts[i]);
        }
    }
    crate::aligned::lemma_probes_add(body, tail);
    assert forall|i: int| 0 <= i < tail.len() implies crate::shape::head_probes(
        #[trigger] tail[i],
    ).len() == 0 by {}
    crate::aligned::lemma_probes_none(tail);
    assert(probes(plan.constraints) =~= probes(body));
    assert forall|r: int| 0 <= r < idx.len() implies crate::shape::index_ok(#[trigger] idx[r])
        && ranges[r].1 <= idx[r][0].len() && crate::shape::sorted_on(
        idx[r],
        crate::shape::cols_of(probes(body), r),
        ranges[r].0 as int,
        ranges[r].1 as int,
    ) by {
        lemma_index_rows(triples, orderings[r]);
        let cols = crate::shape::cols_of(probes(body), r);
        crate::shape::lemma_sorted_prefix(
            idx[r],
            orderings[r],
            cols.len() as int,
            0,
            triples.len() as int,
        );
    }
    lemma_solutions(body, idx, ranges, vars);
    lemma_run_gathers(body, tail, idx, ranges, vars);
    assert forall|sigma: Seq<ValueView>|
        #![trigger list.contains(sigma)]
        list.contains(sigma) <==> answers(exprs, expr_slot, slots.len(), triples, sigma) by {
        lemma_answers_satisfy(statements, triples, sigma);
    }
}

/// For the plan of a block without functions, an assignment satisfies the
/// search of the plan exactly if it answers the block.
pub proof fn lemma_answers_satisfy(
    statements: Seq<Result<StatementView, Seq<char>>>,
    triples: Seq<Triple>,
    sigma: Seq<ValueView>,
)
    requires
        flatten_block(statements).exprs.len() <= usize::MAX,
        triples.len() <= usize::MAX,
        compile_spec(statements) is Ok,
    ensures
        ({
            let flat = flatten_block(statements);
            let slots = slots_of(flat);
            let plan = compile_spec(statements)->Ok_0;
            satisfies(
                tagged(body_of(statements)),
                body_of(statements),
                indexes_spec(triples, plan.row_orderings),
                full_ranges(plan.row_orderings.len(), triples.len() as usize),
                plan.variables,
                sigma,
            ) <==> answers(
                flat.exprs,
                expr_slots(slots, flat.exprs.len()),
                slots.len(),
                triples,
                sigma,
            )
        }),
{
    let flat = flatten_block(statements);
    let exprs = flat.exprs;
    let n = exprs.len() as int;
    let slots = slots_of(flat);
    let count = slots.len() as int;
    let expr_slot = expr_slots(slots, exprs.len());
    let rows = rows_of(exprs, n);
    let body = body_of(statements);
    let pending = tagged(body);
    let plan = compile_spec(statements)->Ok_0;
    let orderings = plan.row_orderings;
    let idx = indexes_spec(triples, orderings);
    let ranges = full_ranges(orderings.len(), triples.len() as usize);
    let vars = plan.variables;
    lemma_slots_of(statements);
    lemma_flat_ok(statements);
    lemma_flat_bounds(statements);
    lemma_rows_of(exprs, n);
    lemma_partition_size(slots, n);
    lemma_plan_runs(slots, exprs, rows, flat.asserts);
    lemma_body(slots, exprs, rows, expr_slot, count);
    lemma_all_tagged(slots, rows, n, count);
    assert(pending == all_tagged(slots, rows, count));
    assert forall|e: int| 0 <= e < n implies #[trigger] expr_slot[e] < count by {
        lemma_slot_index(slots, n, e);
    }
    assert forall|r: int, c: int| 0 <= r < rows.len() && 0 <= c < 3 implies #[trigger] has_tagged(
        pending,
        (r as usize, c as usize),
        expr_slot[row_expr(rows[r], c) as int],
    ) by {
        assert(rows[r].0 < rows[r].1 < rows[r].2 < n);
        assert(expr_slot[row_expr(rows[r], c) as int] < count);
    }
    // What fitting a position of a row's index means: the triple there is
    // the triple of the values of the row's three slots.
    assert forall|r: int, k: int| 0 <= r < rows.len() && 0 <= k < triples.len() implies (#[trigger] fits(
        idx[r],
        r,
        k,
        pending,
        sigma,
    ) <==> row_at(idx[r], k) == (
        sigma[expr_slot[rows[r].0 as int] as int],
        sigma[expr_slot[rows[r].1 as int] as int],
        sigma[expr_slot[rows[r].2 as int] as int],
    )) by {
        let want = (
            sigma[expr_slot[rows[r].0 as int] as int],
            sigma[expr_slot[rows[r].1 as int] as int],
            sigma[expr_slot[rows[r].2 as int] as int],
        );
        if fits(idx[r], r, k, pending, sigma) {
            assert(has_tagged(pending, (r as usize, 0int as usize), expr_slot[row_expr(rows[r], 0) as int]));
            let i0 = choose|i: int|
                0 <= i < pending.len() && #[trigger] pending[i] == (
                    (r as usize, 0usize),
                    expr_slot[row_expr(rows[r], 0) as int],
                );
            assert(pending[i0].0.0 == r);
            assert(has_tagged(pending, (r as usize, 1int as usize), expr_slot[row_expr(rows[r], 1) as int]));
            let i1 = choose|i: int|
                0 <= i < pending.len() && #[trigger] pending[i] == (
                    (r as usize, 1usize),
                    expr_slot[row_expr(rows[r], 1) as int],
                );
            assert(pending[i1].0.0 == r);
            assert(has_tagged(pending, (r as usize, 2int as usize), expr_slot[row_expr(rows[r], 2) as int]));
            let i2 = choose|i: int|
                0 <= i < pending.len() && #[trigger] pending[i] == (
                    (r as usize, 2usize),
                    expr_slot[row_expr(rows[r], 2) as int],
                );
            assert(pending[i2].0.0 == r);
            assert(row_at(idx[r], k) == want);
        }
        if row_at(idx[r], k) == want {
            assert forall|i: int| 0 <= i < pending.len() && (#[trigger] pending[i]).0.0 == r implies idx[r][pending[i].0.1 as int][k]
                == sigma[pending[i].1 as int] by {
                let c = pending[i].0.1 as int;
                assert(pending[i].1 == expr_slot[row_expr(rows[r], c) as int]);
            }
        }
    }
    assert forall|r: int| 0 <= r < rows.len() implies #[trigger] searched(pending, r) by {
        assert(has_tagged(pending, (r as usize, 0int as usize), expr_slot[row_expr(rows[r], 0) as int]));
        let i0 = choose|i: int|
            0 <= i < pending.len() && #[trigger] pending[i] == (
                (r as usize, 0usize),
                expr_slot[row_expr(rows[r], 0) as int],
            );
        assert(pending[i0].0.0 == r);
    }
    let left = satisfies(pending, body, idx, ranges, vars, sigma);
    let right = answers(exprs, expr_slot, slots.len(), triples, sigma);
    if left {
        assert forall|i: int| 0 <= i < n implies #[trigger] holds_at(
            exprs,
            expr_slot,
            triples,
            sigma,
            i,
        ) by {
            lemma_slot_index(slots, n, i);
            let s = expr_slot[i] as int;
            match exprs[i] {
                IrView::Constant(v) => {
                    let j = choose|j: int| 0 <= j < slots[s].len() && #[trigger] slots[s][j] == i;
                    lemma_constants_from(slots[s], exprs, slots[s].len() as int);
                    assert(exprs[slots[s][j] as int] is Constant);
                    assert(!written(body, s));
                    assert(sigma[s] == vars[s]);
                },
                IrView::Dot(e, a) => {
                    assert(has_row(rows, i));
                    let r = choose|r: int| 0 <= r < rows.len() && (#[trigger] rows[r]).2 == i;
                    assert(exprs[rows[r].2 as int] == IrView::Dot(rows[r].0, rows[r].1));
                    assert(searched(pending, r));
                    assert(witnessed(idx, ranges, r, pending, sigma));
                    let k = choose|k: int|
                        ranges[r].0 <= k < ranges[r].1 && #[trigger] fits(
                            idx[r],
                            r,
                            k,
                            pending,
                            sigma,
                        );
                    let t = (
                        sigma[expr_slot[e as int] as int],
                        sigma[expr_slot[a as int] as int],
                        sigma[expr_slot[i] as int],
                    );
                    assert(row_at(idx[r], k) == t);
                    lemma_index_holds(triples, orderings[r], t);
                },
                IrView::Function(name, args) => {
                    let k = choose|k: int| 0 <= k < slots[s].len() && #[trigger] slots[s][k] == i;
                    assert(exprs[slots[s][k] as int] is Function);
                    assert(applied(body, exprs[slots[s][k] as int], expr_slot, s as usize));
                    let j = choose|j: int|
                        0 <= j < body.len() && applies_expr(
                            #[trigger] body[j],
                            exprs[i],
                            expr_slot,
                            s as usize,
                        );
                    assert(sum_holds(body[j], sigma));
                },
                _ => {},
            }
        }
    }
    if right {
        assert forall|j: int| 0 <= j < body.len() implies sum_holds(#[trigger] body[j], sigma) by {
            if body[j] is Apply {
                let t = owner(body[j]);
                assert(applies_some(body[j], slots[t as int], exprs, expr_slot, t));
                let k = choose|k: int|
                    0 <= k < slots[t as int].len() && applies_expr(
                        body[j],
                        exprs[#[trigger] slots[t as int][k] as int],
                        expr_slot,
                        t,
                    );
                let i = slots[t as int][k] as int;
                assert(slots[t as int].contains(i as usize));
                lemma_slot_index(slots, n, i);
                assert(holds_at(exprs, expr_slot, triples, sigma, i));
            }
        }
        assert forall|s: int| 0 <= s < vars.len() && !written(body, s) implies #[trigger] sigma[s]
            == vars[s] by {
            lemma_constants_from(slots[s], exprs, slots[s].len() as int);
            let j = choose|j: int| 0 <= j < slots[s].len() && exprs[#[trigger] slots[s][j] as int] is Constant;
            let i = slots[s][j] as int;
            assert(slots[s].contains(i as usize));
            lemma_slot_index(slots, n, i);
            assert(holds_at(exprs, expr_slot, triples, sigma, i));
        }
        assert forall|r: int| 0 <= r < idx.len() && #[trigger] searched(pending, r) implies witnessed(
            idx,
            ranges,
            r,
            pending,
            sigma,
        ) by {
            let i = rows[r].2 as int;
            assert(exprs[i] == IrView::Dot(rows[r].0, rows[r].1));
            assert(holds_at(exprs, expr_slot, triples, sigma, i));
            let t = (
                sigma[expr_slot[rows[r].0 as int] as int],
                sigma[expr_slot[rows[r].1 as int] as int],
                sigma[expr_slot[rows[r].2 as int] as int],
            );
            lemma_index_holds(triples, orderings[r], t);
            let k = choose|k: int|
                0 <= k < triples.len() && #[trigger] row_at(index_spec(triples, orderings[r]), k)
                    == t;
            assert(fits(idx[r], r, k, pending, sigma));
        }
    }
}

} // verus!
