//! Why a compiled plan can be run: its constraints search the columns of
//! every row in the order in which the row's index is sorted.

use vstd::prelude::*;
use crate::ir::IrView;
use crate::plan::{ConstraintView, RowCol};
use crate::ir::{ir_ok, node_ok};
use crate::planner::{
    applies, assert_constraints, constants_of, covered, emit_slot, emit_slots, expr_slots,
    functions_of, hits, holds_expr, named_of, narrows, ordering_of, orderings_of, partition,
    row_hits, rowcols_of, slot_index,
};
use crate::shape::{aligned, cols_of, constraint_ok, head_probes, is_prefix, probes, program_ok};

verus! {

/// The columns searched by two programs run one after the other.
pub proof fn lemma_probes_add(a: Seq<ConstraintView>, b: Seq<ConstraintView>)
    ensures
        probes(a + b) == probes(a) + probes(b),
    decreases a.len(),
{
    if a.len() == 0 {
        assert(a + b =~= b);
        assert(probes(a) + probes(b) =~= probes(b));
    } else {
        lemma_probes_add(a.drop_first(), b);
        assert((a + b).drop_first() =~= a.drop_first() + b);
        assert(probes(a + b) =~= probes(a) + probes(b));
    }
}

/// The columns of a row among two lists of columns put together.
pub proof fn lemma_cols_add(a: Seq<RowCol>, b: Seq<RowCol>, row: int)
    ensures
        cols_of(a + b, row) == cols_of(a, row) + cols_of(b, row),
    decreases a.len(),
{
    if a.len() == 0 {
        assert(a + b =~= b);
        assert(cols_of(a, row) + cols_of(b, row) =~= cols_of(b, row));
    } else {
        lemma_cols_add(a.drop_first(), b, row);
        assert((a + b).drop_first() =~= a.drop_first() + b);
        assert(cols_of(a + b, row) =~= cols_of(a, row) + cols_of(b, row));
    }
}

/// A program none of whose constraints searches a column searches none.
pub proof fn lemma_probes_none(cs: Seq<ConstraintView>)
    requires
        forall|i: int| 0 <= i < cs.len() ==> head_probes(#[trigger] cs[i]).len() == 0,
    ensures
        probes(cs) == Seq::<RowCol>::empty(),
    decreases cs.len(),
{
    if cs.len() > 0 {
        assert forall|i: int| 0 <= i < cs.drop_first().len() implies head_probes(
            #[trigger] cs.drop_first()[i],
        ).len() == 0 by {
            assert(cs.drop_first()[i] == cs[i + 1]);
        }
        lemma_probes_none(cs.drop_first());
        assert(head_probes(cs[0]) =~= Seq::<RowCol>::empty());
        assert(probes(cs) =~= Seq::<RowCol>::empty());
    }
}

/// One `Narrow` for each column searches those columns, in order.
pub proof fn lemma_probes_narrows(rowcols: Seq<RowCol>, slot: usize)
    ensures
        probes(narrows(rowcols, slot)) == rowcols,
    decreases rowcols.len(),
{
    let cs = narrows(rowcols, slot);
    if rowcols.len() > 0 {
        lemma_probes_narrows(rowcols.drop_first(), slot);
        assert(cs.drop_first() =~= narrows(rowcols.drop_first(), slot));
        assert(probes(cs) =~= rowcols);
    } else {
        assert(probes(cs) =~= rowcols);
    }
}

/// The constraints for the functions of a slot are all `Apply`.
pub proof fn lemma_applies_shape(
    functions: Seq<(Seq<char>, Seq<usize>)>,
    slot: usize,
    fixed: bool,
    expr_slot: Seq<usize>,
    upto: int,
)
    requires
        0 <= upto,
        applies(functions, slot, fixed, expr_slot, upto) is Ok,
    ensures
        applies(functions, slot, fixed, expr_slot, upto)->Ok_0.len() == upto,
        forall|i: int|
            0 <= i < upto ==> (#[trigger] applies(functions, slot, fixed, expr_slot, upto)->Ok_0[i])
                == ConstraintView::Apply(
                slot,
                fixed || i > 0,
                crate::plan::Function::Add(
                    expr_slot[functions[i].1[0] as int],
                    expr_slot[functions[i].1[1] as int],
                ),
            ) && functions[i].1.len() == 2,
    decreases upto,
{
    if upto > 0 {
        lemma_applies_shape(functions, slot, fixed, expr_slot, upto - 1);
    }
}

/// The columns that the constraints of one slot search are the columns of
/// the slot's expressions.
pub proof fn lemma_probes_slot(
    s: usize,
    slot: Seq<usize>,
    exprs: Seq<IrView>,
    rows: Seq<(usize, usize, usize)>,
    expr_slot: Seq<usize>,
)
    requires
        emit_slot(s, slot, exprs, rows, expr_slot) is Ok,
    ensures
        probes(emit_slot(s, slot, exprs, rows, expr_slot)->Ok_0.1) == rowcols_of(
            slot,
            rows,
            slot.len() as int,
        ),
{
    let constants = crate::planner::constants_of(slot, exprs, slot.len() as int);
    let functions = crate::planner::functions_of(slot, exprs, slot.len() as int);
    let rowcols = rowcols_of(slot, rows, slot.len() as int);
    let apps = applies(functions, s, constants.len() > 0, expr_slot, functions.len() as int)->Ok_0;
    lemma_applies_shape(functions, s, constants.len() > 0, expr_slot, functions.len() as int);
    lemma_probes_none(apps);
    if constants.len() > 0 || functions.len() > 0 {
        lemma_probes_add(apps, narrows(rowcols, s));
        lemma_probes_narrows(rowcols, s);
        assert(probes(apps) + rowcols =~= rowcols);
    } else {
        let join = seq![ConstraintView::Join(rowcols, s)];
        assert(apps.push(ConstraintView::Join(rowcols, s)) =~= apps + join);
        lemma_probes_add(apps, join);
        assert(join.drop_first() =~= Seq::<ConstraintView>::empty());
        assert(probes(join) =~= rowcols);
        assert(probes(apps) + rowcols =~= rowcols);
    }
}

/// The columns of the expressions of the first `upto` slots, slot by slot.
pub open spec fn all_rowcols(slots: Seq<Seq<usize>>, rows: Seq<(usize, usize, usize)>, upto: int) -> Seq<
    RowCol,
>
    decreases upto,
{
    if upto <= 0 {
        Seq::empty()
    } else {
        all_rowcols(slots, rows, upto - 1) + rowcols_of(
            slots[upto - 1],
            rows,
            slots[upto - 1].len() as int,
        )
    }
}

/// The constraints of the slots search the columns of the slots'
/// expressions, slot by slot, and there is one initial value for each slot.
pub proof fn lemma_probes_slots(
    slots: Seq<Seq<usize>>,
    exprs: Seq<IrView>,
    rows: Seq<(usize, usize, usize)>,
    expr_slot: Seq<usize>,
    upto: int,
)
    requires
        0 <= upto <= slots.len(),
        emit_slots(slots, exprs, rows, expr_slot, upto) is Ok,
    ensures
        probes(emit_slots(slots, exprs, rows, expr_slot, upto)->Ok_0.1) == all_rowcols(
            slots,
            rows,
            upto,
        ),
        emit_slots(slots, exprs, rows, expr_slot, upto)->Ok_0.0.len() == upto,
    decreases upto,
{
    if upto > 0 {
        lemma_probes_slots(slots, exprs, rows, expr_slot, upto - 1);
        let before = emit_slots(slots, exprs, rows, expr_slot, upto - 1)->Ok_0.1;
        let more = emit_slot((upto - 1) as usize, slots[upto - 1], exprs, rows, expr_slot)->Ok_0.1;
        lemma_probes_slot((upto - 1) as usize, slots[upto - 1], exprs, rows, expr_slot);
        lemma_probes_add(before, more);
    }
}

/// The columns of `row` that are the expression `e`.
pub open spec fn hit_cols(row: (usize, usize, usize), e: usize) -> Seq<usize> {
    (if row.0 == e {
        seq![0usize]
    } else {
        Seq::empty()
    }) + (if row.1 == e {
        seq![1usize]
    } else {
        Seq::empty()
    }) + (if row.2 == e {
        seq![2usize]
    } else {
        Seq::empty()
    })
}

/// Among the columns that are the expression `e`, those of row `r` are the
/// columns of that row that are `e`.
pub proof fn lemma_cols_hits(rows: Seq<(usize, usize, usize)>, e: usize, upto: int, r: int)
    requires
        0 <= upto <= rows.len() <= usize::MAX,
        0 <= r,
    ensures
        cols_of(hits(rows, e, upto), r) == if r < upto {
            hit_cols(rows[r], e)
        } else {
            Seq::<usize>::empty()
        },
    decreases upto,
{
    if upto > 0 {
        lemma_cols_hits(rows, e, upto - 1, r);
        let last = row_hits(rows[upto - 1], e, (upto - 1) as usize);
        lemma_cols_add(hits(rows, e, upto - 1), last, r);
        lemma_cols_row_hits(rows[upto - 1], e, (upto - 1) as usize, r);
        if r == upto - 1 {
            assert(Seq::<usize>::empty() + hit_cols(rows[r], e) =~= hit_cols(rows[r], e));
        } else if r < upto - 1 {
            assert(hit_cols(rows[r], e) + Seq::<usize>::empty() =~= hit_cols(rows[r], e));
        } else {
            assert(Seq::<usize>::empty() + Seq::<usize>::empty() =~= Seq::<usize>::empty());
        }
    }
}

/// The columns that one row contributes belong to that row.
pub proof fn lemma_cols_row_hits(row: (usize, usize, usize), e: usize, k: usize, r: int)
    ensures
        cols_of(row_hits(row, e, k), r) == if r == k {
            hit_cols(row, e)
        } else {
            Seq::<usize>::empty()
        },
{
    let a = if row.0 == e {
        seq![(k, 0usize)]
    } else {
        Seq::empty()
    };
    let b = if row.1 == e {
        seq![(k, 1usize)]
    } else {
        Seq::empty()
    };
    let c = if row.2 == e {
        seq![(k, 2usize)]
    } else {
        Seq::empty()
    };
    lemma_cols_add(a + b, c, r);
    lemma_cols_add(a, b, r);
    lemma_cols_single(a, r);
    lemma_cols_single(b, r);
    lemma_cols_single(c, r);
    if r != k {
        assert(cols_of(row_hits(row, e, k), r) =~= Seq::<usize>::empty());
    } else {
        assert(cols_of(row_hits(row, e, k), r) =~= hit_cols(row, e));
    }
}

/// The columns of a row among at most one column.
pub proof fn lemma_cols_single(a: Seq<RowCol>, r: int)
    requires
        a.len() <= 1,
    ensures
        cols_of(a, r) == if a.len() == 1 && a[0].0 == r {
            seq![a[0].1]
        } else {
            Seq::<usize>::empty()
        },
{
    if a.len() == 1 {
        assert(a.drop_first() =~= Seq::<RowCol>::empty());
        assert(cols_of(a.drop_first(), r) =~= Seq::<usize>::empty());
        if a[0].0 == r {
            assert(cols_of(a, r) =~= seq![a[0].1]);
        }
    }
}

/// The columns of `row` whose expression is among the first `k` of a slot.
pub open spec fn member_cols(row: (usize, usize, usize), slot: Seq<usize>, k: int) -> Seq<usize> {
    (if slot.take(k).contains(row.0) {
        seq![0usize]
    } else {
        Seq::empty()
    }) + (if slot.take(k).contains(row.1) {
        seq![1usize]
    } else {
        Seq::empty()
    }) + (if slot.take(k).contains(row.2) {
        seq![2usize]
    } else {
        Seq::empty()
    })
}

/// What `take(k + 1)` holds: what `take(k)` holds, and the element at `k`.
pub proof fn lemma_take_contains(slot: Seq<usize>, k: int, x: usize)
    requires
        0 <= k < slot.len(),
    ensures
        slot.take(k + 1).contains(x) == (slot.take(k).contains(x) || slot[k] == x),
{
    let short = slot.take(k);
    let long = slot.take(k + 1);
    if short.contains(x) {
        let j = choose|j: int| 0 <= j < short.len() && short[j] == x;
        assert(long[j] == x);
    }
    if slot[k] == x {
        assert(long[k] == x);
    }
    if long.contains(x) {
        let j = choose|j: int| 0 <= j < long.len() && long[j] == x;
        if j < k {
            assert(short[j] == x);
        }
    }
}

/// A slot in ascending order holds nothing, among its first `k`, that is
/// as great as its element at `k` or greater.
pub proof fn lemma_take_below(slot: Seq<usize>, k: int, x: usize)
    requires
        0 <= k < slot.len(),
        forall|i: int, j: int| 0 <= i < j < slot.len() ==> #[trigger] slot[i] < #[trigger] slot[j],
        slot[k] <= x,
    ensures
        !slot.take(k).contains(x),
{
    let short = slot.take(k);
    if short.contains(x) {
        let j = choose|j: int| 0 <= j < short.len() && short[j] == x;
        assert(slot[j] < slot[k]);
    }
}

/// The constraints of a slot search the columns of a row, as far as they
/// belong to the slot, in ascending order.
pub proof fn lemma_cols_slot(
    slot: Seq<usize>,
    rows: Seq<(usize, usize, usize)>,
    k: int,
    r: int,
)
    requires
        0 <= k <= slot.len(),
        0 <= r < rows.len() <= usize::MAX,
        rows[r].0 < rows[r].1 < rows[r].2,
        forall|i: int, j: int| 0 <= i < j < slot.len() ==> #[trigger] slot[i] < #[trigger] slot[j],
    ensures
        cols_of(rowcols_of(slot, rows, k), r) == member_cols(rows[r], slot, k),
    decreases k,
{
    let row = rows[r];
    if k > 0 {
        lemma_cols_slot(slot, rows, k - 1, r);
        let x = slot[k - 1];
        lemma_cols_add(rowcols_of(slot, rows, k - 1), hits(rows, x, rows.len() as int), r);
        lemma_cols_hits(rows, x, rows.len() as int, r);
        lemma_take_contains(slot, k - 1, row.0);
        lemma_take_contains(slot, k - 1, row.1);
        lemma_take_contains(slot, k - 1, row.2);
        if x == row.0 {
            lemma_take_below(slot, k - 1, row.0);
            lemma_take_below(slot, k - 1, row.1);
            lemma_take_below(slot, k - 1, row.2);
        } else if x == row.1 {
            lemma_take_below(slot, k - 1, row.1);
            lemma_take_below(slot, k - 1, row.2);
        } else if x == row.2 {
            lemma_take_below(slot, k - 1, row.2);
        }
        assert(member_cols(row, slot, k - 1) + hit_cols(row, x) =~= member_cols(row, slot, k));
    } else {
        assert(slot.take(0) =~= Seq::<usize>::empty());
        assert(member_cols(row, slot, 0) =~= Seq::<usize>::empty());
    }
}

/// Where slots part the expressions, every expression has one slot, which
/// is the slot that `expr_slots` gives it.
pub proof fn lemma_slot_index(slots: Seq<Seq<usize>>, n: int, e: int)
    requires
        partition(slots, n),
        0 <= e < n,
        n <= usize::MAX,
    ensures
        slot_index(slots, e as usize, slots.len() as int) < slots.len(),
        holds_expr(slots, slot_index(slots, e as usize, slots.len() as int) as int, e),
        forall|s: int|
            0 <= s < slots.len() ==> ((#[trigger] slots[s]).contains(e as usize) <==> s
                == slot_index(slots, e as usize, slots.len() as int)),
{
    assert(covered(slots, e));
    let t = choose|t: int| holds_expr(slots, t, e);
    let k = choose|k: int| 0 <= k < slots[t].len() && #[trigger] slots[t][k] == e;
    assert(slots[t].contains(e as usize));
    assert forall|s: int| 0 <= s < slots.len() && (#[trigger] slots[s]).contains(e as usize) implies s
        == t by {
        let j = choose|j: int| 0 <= j < slots[s].len() && slots[s][j] == e as usize;
        assert(slots[s][j] == slots[t][k]);
    }
    lemma_partition_size(slots, n);
    lemma_slot_index_at(slots, e as usize, slots.len() as int, t);
}

/// Where only slot `t` holds `e` among the first `upto`, `slot_index` finds
/// `t`.
pub proof fn lemma_slot_index_at(slots: Seq<Seq<usize>>, e: usize, upto: int, t: int)
    requires
        0 <= t < upto <= slots.len() <= usize::MAX,
        slots[t].contains(e),
        forall|s: int| 0 <= s < slots.len() && (#[trigger] slots[s]).contains(e) ==> s == t,
    ensures
        slot_index(slots, e, upto) == t,
    decreases upto,
{
    if upto - 1 > t {
        lemma_slot_index_at(slots, e, upto - 1, t);
    }
}

/// The columns 0, 1 and 2 whose key is `s`, in ascending order.
pub open spec fn key_cols(k0: usize, k1: usize, k2: usize, s: int) -> Seq<usize> {
    (if k0 == s {
        seq![0usize]
    } else {
        Seq::empty()
    }) + (if k1 == s {
        seq![1usize]
    } else {
        Seq::empty()
    }) + (if k2 == s {
        seq![2usize]
    } else {
        Seq::empty()
    })
}

/// The key of column `c`.
pub open spec fn key_at(k0: usize, k1: usize, k2: usize, c: usize) -> usize {
    if c == 0 {
        k0
    } else if c == 1 {
        k1
    } else {
        k2
    }
}

/// The columns whose key is below `t`, in the order of their keys.
pub open spec fn ordered_below(k0: usize, k1: usize, k2: usize, t: int) -> Seq<usize> {
    let p = ordering_of(k0, k1, k2);
    (if key_at(k0, k1, k2, p[0]) < t {
        seq![p[0]]
    } else {
        Seq::empty()
    }) + (if key_at(k0, k1, k2, p[1]) < t {
        seq![p[1]]
    } else {
        Seq::empty()
    }) + (if key_at(k0, k1, k2, p[2]) < t {
        seq![p[2]]
    } else {
        Seq::empty()
    })
}

/// The columns of a row that the first `t` slots search, slot by slot.
pub open spec fn cols_below(k0: usize, k1: usize, k2: usize, t: int) -> Seq<usize>
    decreases t,
{
    if t <= 0 {
        Seq::empty()
    } else {
        cols_below(k0, k1, k2, t - 1) + key_cols(k0, k1, k2, t - 1)
    }
}

/// Searching slot by slot, and within a slot in ascending order of the
/// columns, is searching in the order of the keys.
pub proof fn lemma_cols_below(k0: usize, k1: usize, k2: usize, t: int)
    requires
        0 <= t,
    ensures
        cols_below(k0, k1, k2, t) == ordered_below(k0, k1, k2, t),
    decreases t,
{
    if t > 0 {
        lemma_cols_below(k0, k1, k2, t - 1);
        assert(ordered_below(k0, k1, k2, t - 1) + key_cols(k0, k1, k2, t - 1) =~= ordered_below(
            k0,
            k1,
            k2,
            t,
        ));
    } else {
        assert(ordered_below(k0, k1, k2, 0) =~= Seq::<usize>::empty());
    }
}

/// Slots that part `n` expressions are at most `n`.
pub proof fn lemma_partition_size(slots: Seq<Seq<usize>>, n: int)
    requires
        partition(slots, n),
        0 <= n,
    ensures
        slots.len() <= n,
{
    let firsts = Seq::new(slots.len(), |s: int| slots[s][0] as int);
    assert forall|i: int, j: int| 0 <= i < j < firsts.len() implies firsts[i] != firsts[j] by {
        if slots[i][0] == slots[j][0] {
            assert(i == j);
        }
    }
    lemma_distinct_below(firsts, n);
}

/// A list of distinct numbers below `n` has at most `n` of them.
pub proof fn lemma_distinct_below(s: Seq<int>, n: int)
    requires
        0 <= n,
        forall|i: int| 0 <= i < s.len() ==> 0 <= #[trigger] s[i] < n,
        forall|i: int, j: int| 0 <= i < j < s.len() ==> s[i] != s[j],
    ensures
        s.len() <= n,
    decreases n,
{
    if s.len() > 0 {
        if n == 0 {
            let x = s[0];
            assert(0 <= x && x < n);
        } else {
            // Remove the occurrence of n - 1, if any, and recurse below n - 1.
            let at = choose|i: int| 0 <= i < s.len() && #[trigger] s[i] == n - 1;
            if exists|i: int| 0 <= i < s.len() && #[trigger] s[i] == n - 1 {
                let rest = s.remove(at);
                assert forall|i: int| 0 <= i < rest.len() implies 0 <= #[trigger] rest[i] < n - 1 by {
                    if i < at {
                        assert(rest[i] == s[i]);
                    } else {
                        assert(rest[i] == s[i + 1]);
                    }
                }
                assert forall|i: int, j: int| 0 <= i < j < rest.len() implies rest[i] != rest[j] by {
                    let a = if i < at { i } else { i + 1 };
                    let b = if j < at { j } else { j + 1 };
                    assert(rest[i] == s[a]);
                    assert(rest[j] == s[b]);
                }
                lemma_distinct_below(rest, n - 1);
            } else {
                lemma_distinct_below(s, n - 1);
            }
        }
    }
}

/// The three expressions of every row stand in the order entity,
/// attribute, row, below `n`.
pub open spec fn rows_ok(rows: Seq<(usize, usize, usize)>, n: int) -> bool {
    forall|r: int|
        0 <= r < rows.len() ==> (#[trigger] rows[r]).0 < rows[r].1 < rows[r].2 < n
}

/// The first `t` slots search the columns of row `r` slot by slot, and
/// within a slot in ascending order.
pub proof fn lemma_cols_all(
    slots: Seq<Seq<usize>>,
    rows: Seq<(usize, usize, usize)>,
    n: int,
    t: int,
    r: int,
)
    requires
        partition(slots, n),
        n <= usize::MAX,
        rows_ok(rows, n),
        rows.len() <= usize::MAX,
        0 <= t <= slots.len(),
        0 <= r < rows.len(),
    ensures
        cols_of(all_rowcols(slots, rows, t), r) == cols_below(
            expr_slots(slots, n as nat)[rows[r].0 as int],
            expr_slots(slots, n as nat)[rows[r].1 as int],
            expr_slots(slots, n as nat)[rows[r].2 as int],
            t,
        ),
    decreases t,
{
    let row = rows[r];
    let k0 = expr_slots(slots, n as nat)[row.0 as int];
    let k1 = expr_slots(slots, n as nat)[row.1 as int];
    let k2 = expr_slots(slots, n as nat)[row.2 as int];
    if t > 0 {
        lemma_cols_all(slots, rows, n, t - 1, r);
        let slot = slots[t - 1];
        lemma_cols_add(
            all_rowcols(slots, rows, t - 1),
            rowcols_of(slot, rows, slot.len() as int),
            r,
        );
        assert forall|i: int, j: int| 0 <= i < j < slot.len() implies #[trigger] slot[i]
            < #[trigger] slot[j] by {
            assert(slots[t - 1][i] < slots[t - 1][j]);
        }
        lemma_cols_slot(slot, rows, slot.len() as int, r);
        assert(slot.take(slot.len() as int) =~= slot);
        lemma_slot_index(slots, n, row.0 as int);
        lemma_slot_index(slots, n, row.1 as int);
        lemma_slot_index(slots, n, row.2 as int);
        assert(slots[t - 1].contains(row.0) <==> t - 1 == k0);
        assert(slots[t - 1].contains(row.1) <==> t - 1 == k1);
        assert(slots[t - 1].contains(row.2) <==> t - 1 == k2);
        assert(member_cols(row, slot, slot.len() as int) =~= key_cols(k0, k1, k2, t - 1));
    }
}

/// The columns that are an expression are columns of rows that exist.
pub proof fn lemma_hits_bounds(rows: Seq<(usize, usize, usize)>, e: usize, upto: int)
    requires
        0 <= upto <= rows.len() <= usize::MAX,
    ensures
        forall|i: int|
            0 <= i < hits(rows, e, upto).len() ==> (#[trigger] hits(rows, e, upto)[i]).0 < upto
                && hits(rows, e, upto)[i].1 < 3,
    decreases upto,
{
    if upto > 0 {
        lemma_hits_bounds(rows, e, upto - 1);
        let before = hits(rows, e, upto - 1);
        let last = row_hits(rows[upto - 1], e, (upto - 1) as usize);
        let all = hits(rows, e, upto);
        assert forall|i: int| 0 <= i < all.len() implies (#[trigger] all[i]).0 < upto && all[i].1
            < 3 by {
            if i < before.len() {
                assert(all[i] == before[i]);
            } else {
                assert(all[i] == last[i - before.len()]);
            }
        }
    }
}

/// The columns of the expressions of a slot are columns of rows that
/// exist.
pub proof fn lemma_rowcols_bounds(slot: Seq<usize>, rows: Seq<(usize, usize, usize)>, k: int)
    requires
        0 <= k <= slot.len(),
        rows.len() <= usize::MAX,
    ensures
        forall|i: int|
            0 <= i < rowcols_of(slot, rows, k).len() ==> (#[trigger] rowcols_of(slot, rows, k)[i]).0
                < rows.len() && rowcols_of(slot, rows, k)[i].1 < 3,
    decreases k,
{
    if k > 0 {
        lemma_rowcols_bounds(slot, rows, k - 1);
        lemma_hits_bounds(rows, slot[k - 1], rows.len() as int);
        let before = rowcols_of(slot, rows, k - 1);
        let last = hits(rows, slot[k - 1], rows.len() as int);
        let all = rowcols_of(slot, rows, k);
        assert forall|i: int| 0 <= i < all.len() implies (#[trigger] all[i]).0 < rows.len()
            && all[i].1 < 3 by {
            if i < before.len() {
                assert(all[i] == before[i]);
            } else {
                assert(all[i] == last[i - before.len()]);
            }
        }
    }
}

/// Every function of a slot is one of the slot's expressions.
pub proof fn lemma_functions_from(slot: Seq<usize>, exprs: Seq<IrView>, k: int)
    requires
        0 <= k <= slot.len(),
    ensures
        forall|i: int|
            0 <= i < functions_of(slot, exprs, k).len() ==> exists|j: int|
                0 <= j < k && exprs[slot[j] as int] == IrView::Function(
                    (#[trigger] functions_of(slot, exprs, k)[i]).0,
                    functions_of(slot, exprs, k)[i].1,
                ),
    decreases k,
{
    if k > 0 {
        lemma_functions_from(slot, exprs, k - 1);
        let fs = functions_of(slot, exprs, k);
        let before = functions_of(slot, exprs, k - 1);
        assert forall|i: int| 0 <= i < fs.len() implies exists|j: int|
            0 <= j < k && exprs[slot[j] as int] == IrView::Function((#[trigger] fs[i]).0, fs[i].1) by {
            if i < before.len() {
                let j = choose|j: int|
                    0 <= j < k - 1 && exprs[slot[j] as int] == IrView::Function(
                        before[i].0,
                        before[i].1,
                    );
                assert(fs[i] == before[i]);
                assert(exprs[slot[j] as int] == IrView::Function(fs[i].0, fs[i].1));
            } else {
                assert(exprs[slot[k - 1] as int] == IrView::Function(fs[i].0, fs[i].1));
            }
        }
    }
}

/// The constraints of one slot name only what exists.
pub proof fn lemma_slot_ok(
    s: usize,
    slot: Seq<usize>,
    exprs: Seq<IrView>,
    rows: Seq<(usize, usize, usize)>,
    expr_slot: Seq<usize>,
    count: int,
)
    requires
        s < count,
        ir_ok(exprs),
        expr_slot.len() == exprs.len(),
        rows.len() <= usize::MAX,
        forall|k: int| 0 <= k < slot.len() ==> #[trigger] slot[k] < exprs.len(),
        forall|e: int| 0 <= e < expr_slot.len() ==> #[trigger] expr_slot[e] < count,
        emit_slot(s, slot, exprs, rows, expr_slot) is Ok,
    ensures
        program_ok(emit_slot(s, slot, exprs, rows, expr_slot)->Ok_0.1, rows.len() as int, count),
{
    let constants = constants_of(slot, exprs, slot.len() as int);
    let functions = functions_of(slot, exprs, slot.len() as int);
    let rowcols = rowcols_of(slot, rows, slot.len() as int);
    let apps = applies(functions, s, constants.len() > 0, expr_slot, functions.len() as int)->Ok_0;
    let more = emit_slot(s, slot, exprs, rows, expr_slot)->Ok_0.1;
    lemma_applies_shape(functions, s, constants.len() > 0, expr_slot, functions.len() as int);
    lemma_functions_from(slot, exprs, slot.len() as int);
    lemma_rowcols_bounds(slot, rows, slot.len() as int);
    assert forall|i: int| 0 <= i < more.len() implies constraint_ok(
        #[trigger] more[i],
        rows.len() as int,
        count,
    ) by {
        if i < apps.len() {
            assert(more[i] == apps[i]);
            let j = choose|j: int|
                0 <= j < slot.len() && exprs[slot[j] as int] == IrView::Function(
                    functions[i].0,
                    functions[i].1,
                );
            assert(node_ok(exprs[slot[j] as int], slot[j] as int));
            let args = functions[i].1;
            assert(args[0] < slot[j]);
            assert(args[1] < slot[j]);
            assert(expr_slot[args[0] as int] < count);
            assert(expr_slot[args[1] as int] < count);
        } else if constants.len() > 0 || functions.len() > 0 {
            assert(more[i] == narrows(rowcols, s)[i - apps.len()]);
            let rc = rowcols[i - apps.len()];
            assert(rc.0 < rows.len() && rc.1 < 3);
        } else {
            assert(more[i] == ConstraintView::Join(rowcols, s));
        }
    }
}

/// The constraints of the slots name only what exists.
pub proof fn lemma_slots_ok(
    slots: Seq<Seq<usize>>,
    exprs: Seq<IrView>,
    rows: Seq<(usize, usize, usize)>,
    expr_slot: Seq<usize>,
    upto: int,
)
    requires
        0 <= upto <= slots.len() <= usize::MAX,
        ir_ok(exprs),
        expr_slot.len() == exprs.len(),
        rows.len() <= usize::MAX,
        forall|s: int, k: int|
            0 <= s < slots.len() && 0 <= k < slots[s].len() ==> #[trigger] slots[s][k]
                < exprs.len(),
        forall|e: int| 0 <= e < expr_slot.len() ==> #[trigger] expr_slot[e] < slots.len(),
        emit_slots(slots, exprs, rows, expr_slot, upto) is Ok,
    ensures
        program_ok(
            emit_slots(slots, exprs, rows, expr_slot, upto)->Ok_0.1,
            rows.len() as int,
            slots.len() as int,
        ),
    decreases upto,
{
    if upto > 0 {
        lemma_slots_ok(slots, exprs, rows, expr_slot, upto - 1);
        let before = emit_slots(slots, exprs, rows, expr_slot, upto - 1)->Ok_0.1;
        let more = emit_slot((upto - 1) as usize, slots[upto - 1], exprs, rows, expr_slot)->Ok_0.1;
        assert forall|k: int| 0 <= k < slots[upto - 1].len() implies #[trigger] slots[upto - 1][k]
            < exprs.len() by {}
        lemma_slot_ok(
            (upto - 1) as usize,
            slots[upto - 1],
            exprs,
            rows,
            expr_slot,
            slots.len() as int,
        );
        let all = emit_slots(slots, exprs, rows, expr_slot, upto)->Ok_0.1;
        assert forall|i: int| 0 <= i < all.len() implies constraint_ok(
            #[trigger] all[i],
            rows.len() as int,
            slots.len() as int,
        ) by {
            if i < before.len() {
                assert(all[i] == before[i]);
            } else {
                assert(all[i] == more[i - before.len()]);
            }
        }
    }
}

/// The named slots exist.
pub proof fn lemma_named_bounds(slots: Seq<Seq<usize>>, exprs: Seq<IrView>, upto: int)
    requires
        0 <= upto <= slots.len() <= usize::MAX,
    ensures
        forall|i: int|
            0 <= i < named_of(slots, exprs, upto).len() ==> (#[trigger] named_of(
                slots,
                exprs,
                upto,
            )[i]).1 < upto,
    decreases upto,
{
    if upto > 0 {
        lemma_named_bounds(slots, exprs, upto - 1);
        let before = named_of(slots, exprs, upto - 1);
        let all = named_of(slots, exprs, upto);
        assert forall|i: int| 0 <= i < all.len() implies (#[trigger] all[i]).1 < upto by {
            if i < before.len() {
                assert(all[i] == before[i]);
            }
        }
    }
}

/// A plan put together as the compiler does can be run: it names only what
/// exists, every column order is one, and the plan searches the columns of
/// every row in the row's column order.
pub proof fn lemma_plan_runs(
    slots: Seq<Seq<usize>>,
    exprs: Seq<IrView>,
    rows: Seq<(usize, usize, usize)>,
    asserts: Seq<(usize, usize, usize)>,
)
    requires
        exprs.len() <= usize::MAX,
        rows.len() <= usize::MAX,
        ir_ok(exprs),
        partition(slots, exprs.len() as int),
        rows_ok(rows, exprs.len() as int),
        forall|k: int|
            0 <= k < asserts.len() ==> (#[trigger] asserts[k]).0 < exprs.len() && asserts[k].1
                < exprs.len() && asserts[k].2 < exprs.len(),
        emit_slots(
            slots,
            exprs,
            rows,
            expr_slots(slots, exprs.len()),
            slots.len() as int,
        ) is Ok,
    ensures
        ({
            let expr_slot = expr_slots(slots, exprs.len());
            let emitted = emit_slots(slots, exprs, rows, expr_slot, slots.len() as int)->Ok_0;
            let constraints = (emitted.1 + assert_constraints(asserts, expr_slot)).push(
                ConstraintView::Debug(named_of(slots, exprs, slots.len() as int)),
            );
            let orderings = orderings_of(rows, expr_slot);
            &&& emitted.0.len() == slots.len()
            &&& program_ok(constraints, rows.len() as int, slots.len() as int)
            &&& forall|r: int|
                0 <= r < orderings.len() ==> crate::index::is_ordering(#[trigger] orderings[r])
            &&& aligned(constraints, orderings)
        }),
{
    let n = exprs.len() as int;
    let expr_slot = expr_slots(slots, exprs.len());
    let emitted = emit_slots(slots, exprs, rows, expr_slot, slots.len() as int)->Ok_0;
    let tail = assert_constraints(asserts, expr_slot);
    let debug = seq![ConstraintView::Debug(named_of(slots, exprs, slots.len() as int))];
    let constraints = (emitted.1 + tail).push(
        ConstraintView::Debug(named_of(slots, exprs, slots.len() as int)),
    );
    let orderings = orderings_of(rows, expr_slot);
    lemma_partition_size(slots, n);
    assert forall|e: int| 0 <= e < expr_slot.len() implies #[trigger] expr_slot[e] < slots.len() by {
        lemma_slot_index(slots, n, e);
    }
    lemma_probes_slots(slots, exprs, rows, expr_slot, slots.len() as int);
    lemma_slots_ok(slots, exprs, rows, expr_slot, slots.len() as int);
    lemma_named_bounds(slots, exprs, slots.len() as int);
    assert forall|i: int| 0 <= i < constraints.len() implies constraint_ok(
        #[trigger] constraints[i],
        rows.len() as int,
        slots.len() as int,
    ) by {
        if i < emitted.1.len() {
            assert(constraints[i] == emitted.1[i]);
        } else if i < emitted.1.len() + tail.len() {
            let a = asserts[i - emitted.1.len()];
            assert(constraints[i] == tail[i - emitted.1.len()]);
            assert(expr_slot[a.0 as int] < slots.len());
            assert(expr_slot[a.1 as int] < slots.len());
            assert(expr_slot[a.2 as int] < slots.len());
        }
    }
    assert(constraints =~= emitted.1 + (tail + debug));
    lemma_probes_add(emitted.1, tail + debug);
    assert forall|i: int| 0 <= i < (tail + debug).len() implies head_probes(
        #[trigger] (tail + debug)[i],
    ).len() == 0 by {
        if i < tail.len() {
            assert((tail + debug)[i] == tail[i]);
        }
    }
    lemma_probes_none(tail + debug);
    assert(probes(constraints) =~= all_rowcols(slots, rows, slots.len() as int));
    assert forall|r: int| 0 <= r < orderings.len() implies crate::index::is_ordering(
        #[trigger] orderings[r],
    ) && is_prefix(cols_of(probes(constraints), r), orderings[r]) by {
        let row = rows[r];
        let k0 = expr_slot[row.0 as int];
        let k1 = expr_slot[row.1 as int];
        let k2 = expr_slot[row.2 as int];
        lemma_cols_all(slots, rows, n, slots.len() as int, r);
        lemma_cols_below(k0, k1, k2, slots.len() as int);
        assert(k0 < slots.len() && k1 < slots.len() && k2 < slots.len());
        assert(ordered_below(k0, k1, k2, slots.len() as int) =~= ordering_of(k0, k1, k2));
        assert(orderings[r] == ordering_of(k0, k1, k2));
        assert(orderings[r].take(3) =~= orderings[r]);
    }
}

} // verus!
