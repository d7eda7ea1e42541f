//! What the compiler computes, stage by stage: the flat expressions of a
//! block, their grouping into slots, the order of the slots, the column
//! order of every row, and the constraints.

use vstd::prelude::*;
use crate::ast::StatementView;
use crate::ir::{flatten, IrView};
use crate::plan::{BlockView, ConstraintView, Function, RowCol};
use crate::value::ValueView;

verus! {

/// The flat form of a block: its expressions, and for every statement the
/// indices of its operands.
pub struct Flat {
    pub exprs: Seq<IrView>,
    pub patterns: Seq<(usize, usize)>,
    pub asserts: Seq<(usize, usize, usize)>,
}

/// The flat form of the statements, taken in order; a statement that did
/// not parse gives nothing.
pub open spec fn flatten_block(statements: Seq<Result<StatementView, Seq<char>>>) -> Flat
    decreases statements.len(),
{
    if statements.len() == 0 {
        Flat { exprs: Seq::empty(), patterns: Seq::empty(), asserts: Seq::empty() }
    } else {
        let flat = flatten_block(statements.drop_last());
        let n = flat.exprs.len() as int;
        match statements.last() {
            Err(_) => flat,
            Ok(StatementView::Pattern(a, b)) => {
                let fa = flatten(a, n);
                let fb = flatten(b, n + fa.len());
                Flat {
                    exprs: flat.exprs + fa + fb,
                    patterns: flat.patterns.push(
                        ((n + fa.len() - 1) as usize, (n + fa.len() + fb.len() - 1) as usize),
                    ),
                    asserts: flat.asserts,
                }
            },
            Ok(StatementView::Assert(e, a, v)) => {
                let fe = flatten(e, n);
                let fa = flatten(a, n + fe.len());
                let fv = flatten(v, n + fe.len() + fa.len());
                Flat {
                    exprs: flat.exprs + fe + fa + fv,
                    patterns: flat.patterns,
                    asserts: flat.asserts.push(
                        (
                            (n + fe.len() - 1) as usize,
                            (n + fe.len() + fa.len() - 1) as usize,
                            (n + fe.len() + fa.len() + fv.len() - 1) as usize,
                        ),
                    ),
                }
            },
        }
    }
}

/// The first index below `upto` at which the variable `name` stands, or
/// `upto` if it stands at none.
pub open spec fn first_named(exprs: Seq<IrView>, name: Seq<char>, upto: int) -> int
    decreases upto,
{
    if upto <= 0 {
        0
    } else {
        let before = first_named(exprs, name, upto - 1);
        if before < upto - 1 {
            before
        } else if exprs[upto - 1] == IrView::Variable(name) {
            upto - 1
        } else {
            upto
        }
    }
}

/// The group in which an expression starts: a variable joins the first
/// expression that is the same variable, anything else stands alone.
pub open spec fn initial_group(exprs: Seq<IrView>, i: int) -> usize {
    match exprs[i] {
        IrView::Variable(name) => first_named(exprs, name, i) as usize,
        _ => i as usize,
    }
}

/// The groups in which the expressions start.
pub open spec fn initial_groups(exprs: Seq<IrView>) -> Seq<usize> {
    Seq::new(exprs.len(), |i: int| initial_group(exprs, i))
}

/// The groups after the two sides of a pattern have been made equal: the
/// group of the right side is renamed to that of the left.
pub open spec fn merge(groups: Seq<usize>, pattern: (usize, usize)) -> Seq<usize> {
    groups.map_values(
        |g: usize|
            if g == groups[pattern.1 as int] {
                groups[pattern.0 as int]
            } else {
                g
            },
    )
}

/// The groups after all patterns, taken in order.
pub open spec fn merge_all(groups: Seq<usize>, patterns: Seq<(usize, usize)>) -> Seq<usize>
    decreases patterns.len(),
{
    if patterns.len() == 0 {
        groups
    } else {
        merge(merge_all(groups, patterns.drop_last()), patterns.last())
    }
}

/// The first slot from `from` on whose expressions are of group `g`, or
/// the number of slots if there is none.
pub open spec fn find_slot(slots: Seq<Seq<usize>>, groups: Seq<usize>, g: usize, from: int) -> int
    decreases slots.len() - from,
{
    if from >= slots.len() {
        slots.len() as int
    } else if groups[slots[from][0] as int] == g {
        from
    } else {
        find_slot(slots, groups, g, from + 1)
    }
}

/// The slots that the first `upto` expressions make: one for each group,
/// in the order in which the groups first appear, each holding the
/// expressions of its group in ascending order.
pub open spec fn gather(groups: Seq<usize>, upto: int) -> Seq<Seq<usize>>
    decreases upto,
{
    if upto <= 0 {
        Seq::empty()
    } else {
        let slots = gather(groups, upto - 1);
        let s = find_slot(slots, groups, groups[upto - 1], 0);
        if s < slots.len() {
            slots.update(s, slots[s].push((upto - 1) as usize))
        } else {
            slots.push(seq![(upto - 1) as usize])
        }
    }
}

/// The slots part the first `n` expressions: every slot holds at least
/// one, in ascending order, and every expression is in exactly one slot.
pub open spec fn partition(slots: Seq<Seq<usize>>, n: int) -> bool {
    &&& forall|s: int| 0 <= s < slots.len() ==> (#[trigger] slots[s]).len() > 0
    &&& forall|s: int, k: int|
        0 <= s < slots.len() && 0 <= k < slots[s].len() ==> #[trigger] slots[s][k] < n
    &&& forall|s: int, j: int, k: int|
        0 <= s < slots.len() && 0 <= j < k < slots[s].len() ==> #[trigger] slots[s][j]
            < #[trigger] slots[s][k]
    &&& forall|e: int| 0 <= e < n ==> #[trigger] covered(slots, e)
    &&& forall|s: int, t: int, j: int, k: int|
        0 <= s < slots.len() && 0 <= t < slots.len() && 0 <= j < slots[s].len() && 0 <= k
            < slots[t].len() && #[trigger] slots[s][j] == #[trigger] slots[t][k] ==> s == t
}

/// Some slot holds expression `e`.
pub open spec fn covered(slots: Seq<Seq<usize>>, e: int) -> bool {
    exists|s: int| holds_expr(slots, s, e)
}

/// Slot `s` holds expression `e`.
pub open spec fn holds_expr(slots: Seq<Seq<usize>>, s: int, e: int) -> bool {
    0 <= s < slots.len() && exists|k: int| 0 <= k < slots[s].len() && #[trigger] slots[s][k] == e
}

/// A slot that holds a constant and no function: its value is known
/// before the run.
pub open spec fn const_only(slot: Seq<usize>, exprs: Seq<IrView>) -> bool {
    &&& exists|k: int| 0 <= k < slot.len() && exprs[#[trigger] slot[k] as int] is Constant
    &&& forall|k: int| 0 <= k < slot.len() ==> !(exprs[#[trigger] slot[k] as int] is Function)
}

/// Those of the first `upto` slots that are constant-only, or those that
/// are not, in order.
pub open spec fn keep(slots: Seq<Seq<usize>>, exprs: Seq<IrView>, want: bool, upto: int) -> Seq<
    Seq<usize>,
>
    decreases upto,
{
    if upto <= 0 {
        Seq::empty()
    } else if const_only(slots[upto - 1], exprs) == want {
        keep(slots, exprs, want, upto - 1).push(slots[upto - 1])
    } else {
        keep(slots, exprs, want, upto - 1)
    }
}

/// The slots with the constant-only ones moved to the front; within the
/// two parts the order stays.
pub open spec fn promote(slots: Seq<Seq<usize>>, exprs: Seq<IrView>) -> Seq<Seq<usize>> {
    keep(slots, exprs, true, slots.len() as int) + keep(slots, exprs, false, slots.len() as int)
}

/// The slot of expression `e` among the first `upto` slots: the last that
/// holds it, and `e` itself where none does.
pub open spec fn slot_index(slots: Seq<Seq<usize>>, e: usize, upto: int) -> usize
    decreases upto,
{
    if upto <= 0 {
        e
    } else if slots[upto - 1].contains(e) {
        (upto - 1) as usize
    } else {
        slot_index(slots, e, upto - 1)
    }
}

/// The slot of every expression.
pub open spec fn expr_slots(slots: Seq<Seq<usize>>, n: nat) -> Seq<usize> {
    Seq::new(n, |e: int| slot_index(slots, e as usize, slots.len() as int))
}

/// The rows among the first `upto` expressions: for every `Dot`, the
/// indices of its entity, its attribute and itself.
pub open spec fn rows_of(exprs: Seq<IrView>, upto: int) -> Seq<(usize, usize, usize)>
    decreases upto,
{
    if upto <= 0 {
        Seq::empty()
    } else {
        match exprs[upto - 1] {
            IrView::Dot(e, a) => rows_of(exprs, upto - 1).push((e, a, (upto - 1) as usize)),
            _ => rows_of(exprs, upto - 1),
        }
    }
}

/// The columns 0, 1 and 2 in ascending order of their keys, columns with
/// equal keys in their natural order.
pub open spec fn ordering_of(k0: usize, k1: usize, k2: usize) -> Seq<usize> {
    if k0 <= k1 {
        if k1 <= k2 {
            seq![0usize, 1usize, 2usize]
        } else if k0 <= k2 {
            seq![0usize, 2usize, 1usize]
        } else {
            seq![2usize, 0usize, 1usize]
        }
    } else {
        if k0 <= k2 {
            seq![1usize, 0usize, 2usize]
        } else if k1 <= k2 {
            seq![1usize, 2usize, 0usize]
        } else {
            seq![2usize, 1usize, 0usize]
        }
    }
}

/// The column order of every row: its columns in the order of the slots of
/// their expressions.
pub open spec fn orderings_of(rows: Seq<(usize, usize, usize)>, expr_slot: Seq<usize>) -> Seq<
    Seq<usize>,
> {
    rows.map_values(
        |row: (usize, usize, usize)|
            ordering_of(expr_slot[row.0 as int], expr_slot[row.1 as int], expr_slot[row.2 as int]),
    )
}

/// Why a block cannot be compiled.
pub enum CompileFault {
    /// A slot holds two constants that differ.
    Impossible(ValueView, ValueView),
    /// Nothing tells what the slot holds.
    NoConstraints(usize),
    /// No function has this name and number of arguments.
    UnknownFunction(Seq<char>, usize),
}

/// The constants among the first `upto` expressions of a slot.
pub open spec fn constants_of(slot: Seq<usize>, exprs: Seq<IrView>, upto: int) -> Seq<ValueView>
    decreases upto,
{
    if upto <= 0 {
        Seq::empty()
    } else {
        match exprs[slot[upto - 1] as int] {
            IrView::Constant(v) => constants_of(slot, exprs, upto - 1).push(v),
            _ => constants_of(slot, exprs, upto - 1),
        }
    }
}

/// The function applications among the first `upto` expressions of a slot.
pub open spec fn functions_of(slot: Seq<usize>, exprs: Seq<IrView>, upto: int) -> Seq<
    (Seq<char>, Seq<usize>),
>
    decreases upto,
{
    if upto <= 0 {
        Seq::empty()
    } else {
        match exprs[slot[upto - 1] as int] {
            IrView::Function(name, args) => functions_of(slot, exprs, upto - 1).push((name, args)),
            _ => functions_of(slot, exprs, upto - 1),
        }
    }
}

/// The columns of row `r` that are the expression `e`.
pub open spec fn row_hits(row: (usize, usize, usize), e: usize, r: usize) -> Seq<RowCol> {
    (if row.0 == e {
        seq![(r, 0usize)]
    } else {
        Seq::empty()
    }) + (if row.1 == e {
        seq![(r, 1usize)]
    } else {
        Seq::empty()
    }) + (if row.2 == e {
        seq![(r, 2usize)]
    } else {
        Seq::empty()
    })
}

/// The columns of the first `upto` rows that are the expression `e`.
pub open spec fn hits(rows: Seq<(usize, usize, usize)>, e: usize, upto: int) -> Seq<RowCol>
    decreases upto,
{
    if upto <= 0 {
        Seq::empty()
    } else {
        hits(rows, e, upto - 1) + row_hits(rows[upto - 1], e, (upto - 1) as usize)
    }
}

/// The columns that are one of the first `upto` expressions of a slot,
/// expression by expression.
pub open spec fn rowcols_of(slot: Seq<usize>, rows: Seq<(usize, usize, usize)>, upto: int) -> Seq<
    RowCol,
>
    decreases upto,
{
    if upto <= 0 {
        Seq::empty()
    } else {
        rowcols_of(slot, rows, upto - 1) + hits(rows, slot[upto - 1], rows.len() as int)
    }
}

/// The first of the constants below `upto`, after the first, that differs
/// from the first; `upto` if there is none.
pub open spec fn first_conflict(constants: Seq<ValueView>, upto: int) -> int
    decreases upto,
{
    if upto <= 1 {
        upto
    } else {
        let before = first_conflict(constants, upto - 1);
        if before < upto - 1 {
            before
        } else if constants[upto - 1] != constants[0] {
            upto - 1
        } else {
            upto
        }
    }
}

/// The functions that the compiler knows: `+` with two arguments.
pub open spec fn known(name: Seq<char>, args: Seq<usize>) -> bool {
    name == "+"@ && args.len() == 2
}

/// The constraints for the first `upto` functions of a slot: the first
/// fixes the slot unless a constant has, the others check it.
pub open spec fn applies(
    functions: Seq<(Seq<char>, Seq<usize>)>,
    slot: usize,
    fixed: bool,
    expr_slot: Seq<usize>,
    upto: int,
) -> Result<Seq<ConstraintView>, CompileFault>
    decreases upto,
{
    if upto <= 0 {
        Ok(Seq::empty())
    } else {
        match applies(functions, slot, fixed, expr_slot, upto - 1) {
            Err(fault) => Err(fault),
            Ok(constraints) => {
                let (name, args) = functions[upto - 1];
                if known(name, args) {
                    Ok(
                        constraints.push(
                            ConstraintView::Apply(
                                slot,
                                fixed || upto > 1,
                                Function::Add(
                                    expr_slot[args[0] as int],
                                    expr_slot[args[1] as int],
                                ),
                            ),
                        ),
                    )
                } else {
                    Err(CompileFault::UnknownFunction(name, args.len() as usize))
                }
            },
        }
    }
}

/// One `Narrow` for each column.
pub open spec fn narrows(rowcols: Seq<RowCol>, slot: usize) -> Seq<ConstraintView> {
    rowcols.map_values(|rc: RowCol| ConstraintView::Narrow(rc, slot))
}

/// The initial value and the constraints of one slot. A constant, if the
/// slot has one, is its initial value; then come its functions; then its
/// columns, narrowed one by one where a constant or function has fixed the
/// slot, joined otherwise.
pub open spec fn emit_slot(
    s: usize,
    slot: Seq<usize>,
    exprs: Seq<IrView>,
    rows: Seq<(usize, usize, usize)>,
    expr_slot: Seq<usize>,
) -> Result<(ValueView, Seq<ConstraintView>), CompileFault> {
    let constants = constants_of(slot, exprs, slot.len() as int);
    let functions = functions_of(slot, exprs, slot.len() as int);
    let rowcols = rowcols_of(slot, rows, slot.len() as int);
    let conflict = first_conflict(constants, constants.len() as int);
    if conflict < constants.len() {
        Err(CompileFault::Impossible(constants[conflict], constants[0]))
    } else if constants.len() == 0 && functions.len() == 0 && rowcols.len() == 0 {
        Err(CompileFault::NoConstraints(s))
    } else {
        match applies(functions, s, constants.len() > 0, expr_slot, functions.len() as int) {
            Err(fault) => Err(fault),
            Ok(apps) => Ok(
                (
                    if constants.len() > 0 {
                        constants[0]
                    } else {
                        ValueView::Boolean(false)
                    },
                    if constants.len() > 0 || functions.len() > 0 {
                        apps + narrows(rowcols, s)
                    } else {
                        apps.push(ConstraintView::Join(rowcols, s))
                    },
                ),
            ),
        }
    }
}

/// The initial values and the constraints of the first `upto` slots; the
/// first slot that cannot be compiled gives the fault.
pub open spec fn emit_slots(
    slots: Seq<Seq<usize>>,
    exprs: Seq<IrView>,
    rows: Seq<(usize, usize, usize)>,
    expr_slot: Seq<usize>,
    upto: int,
) -> Result<(Seq<ValueView>, Seq<ConstraintView>), CompileFault>
    decreases upto,
{
    if upto <= 0 {
        Ok((Seq::empty(), Seq::empty()))
    } else {
        match emit_slots(slots, exprs, rows, expr_slot, upto - 1) {
            Err(fault) => Err(fault),
            Ok((values, constraints)) => match emit_slot(
                (upto - 1) as usize,
                slots[upto - 1],
                exprs,
                rows,
                expr_slot,
            ) {
                Err(fault) => Err(fault),
                Ok((value, more)) => Ok((values.push(value), constraints + more)),
            },
        }
    }
}

/// One `Assert` for each assert statement, over the slots of its operands.
pub open spec fn assert_constraints(asserts: Seq<(usize, usize, usize)>, expr_slot: Seq<usize>) -> Seq<
    ConstraintView,
> {
    asserts.map_values(
        |a: (usize, usize, usize)|
            ConstraintView::Assert(
                expr_slot[a.0 as int],
                expr_slot[a.1 as int],
                expr_slot[a.2 as int],
            ),
    )
}

/// The place in a slot, from `from` on, of its first variable, or the
/// length of the slot if it has none.
pub open spec fn first_variable(slot: Seq<usize>, exprs: Seq<IrView>, from: int) -> int
    decreases slot.len() - from,
{
    if from >= slot.len() {
        slot.len() as int
    } else if exprs[slot[from] as int] is Variable {
        from
    } else {
        first_variable(slot, exprs, from + 1)
    }
}

/// The named slots among the first `upto`: every slot that holds a
/// variable, under the name of its first.
pub open spec fn named_of(slots: Seq<Seq<usize>>, exprs: Seq<IrView>, upto: int) -> Seq<
    (Seq<char>, usize),
>
    decreases upto,
{
    if upto <= 0 {
        Seq::empty()
    } else {
        let slot = slots[upto - 1];
        let at = first_variable(slot, exprs, 0);
        if at < slot.len() {
            named_of(slots, exprs, upto - 1).push(
                (exprs[slot[at] as int]->Variable_0, (upto - 1) as usize),
            )
        } else {
            named_of(slots, exprs, upto - 1)
        }
    }
}

/// The slots of a block, in the order in which the plan fixes them.
pub open spec fn slots_of(flat: Flat) -> Seq<Seq<usize>> {
    let groups = merge_all(initial_groups(flat.exprs), flat.patterns);
    promote(gather(groups, groups.len() as int), flat.exprs)
}

/// The plan of a block, or why it has none.
pub open spec fn compile_spec(statements: Seq<Result<StatementView, Seq<char>>>) -> Result<
    BlockView,
    CompileFault,
> {
    let flat = flatten_block(statements);
    let slots = slots_of(flat);
    let expr_slot = expr_slots(slots, flat.exprs.len());
    let rows = rows_of(flat.exprs, flat.exprs.len() as int);
    match emit_slots(slots, flat.exprs, rows, expr_slot, slots.len() as int) {
        Err(fault) => Err(fault),
        Ok((values, constraints)) => Ok(
            BlockView {
                row_orderings: orderings_of(rows, expr_slot),
                variables: values,
                constraints: (constraints + assert_constraints(flat.asserts, expr_slot)).push(
                    ConstraintView::Debug(named_of(slots, flat.exprs, slots.len() as int)),
                ),
            },
        ),
    }
}

} // verus!
