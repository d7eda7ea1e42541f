//! Index building: the triples of a bag, sorted in a chosen column order
//! and stored column by column.

use vstd::prelude::*;
use vstd::relations::{sorted_by, total_ordering};
use crate::gallop::{computes, gallop, monotone, parts};
use crate::order::{
    lemma_value_lt_asymmetric, lemma_value_lt_irreflexive, lemma_value_lt_total,
    lemma_value_lt_transitive, value_lt, Order,
};
use crate::plan::values_view;
use crate::shape::{index_ok, lex_le, sorted_on};
use crate::solve::{index_view, triples_view, Index};
use crate::bag::Bag;
use crate::value::{clone_pairs, clone_value, compare_values, Entity, Value, ValueView};

verus! {

/// The model of a triple: its entity, attribute and value, or the same
/// three in another column order.
pub type Triple = (ValueView, ValueView, ValueView);

/// The lexicographic order on triples, equality included.
pub open spec fn triple_le(a: Triple, b: Triple) -> bool {
    value_lt(a.0, b.0) || (a.0 == b.0 && (value_lt(a.1, b.1) || (a.1 == b.1 && (value_lt(
        a.2,
        b.2,
    ) || a.2 == b.2))))
}

/// `triple_le` as a relation.
pub open spec fn triple_order() -> spec_fn(Triple, Triple) -> bool {
    |a: Triple, b: Triple| triple_le(a, b)
}

/// The lexicographic order on triples is a total order.
pub proof fn lemma_triple_order_total()
    ensures
        total_ordering(triple_order()),
{
    let r = triple_order();
    assert forall|x: Triple| #[trigger] r(x, x) by {}
    assert forall|x: Triple, y: Triple| #[trigger] r(x, y) && #[trigger] r(y, x) implies x == y by {
        lemma_value_lt_irreflexive(x.0);
        lemma_value_lt_irreflexive(x.1);
        lemma_value_lt_irreflexive(x.2);
        if value_lt(x.0, y.0) {
            lemma_value_lt_asymmetric(x.0, y.0);
        }
        if value_lt(x.1, y.1) {
            lemma_value_lt_asymmetric(x.1, y.1);
        }
        if value_lt(x.2, y.2) {
            lemma_value_lt_asymmetric(x.2, y.2);
        }
    }
    assert forall|x: Triple, y: Triple, z: Triple| #[trigger] r(x, y) && #[trigger] r(y, z) implies r(
        x,
        z,
    ) by {
        if value_lt(x.0, y.0) && value_lt(y.0, z.0) {
            lemma_value_lt_transitive(x.0, y.0, z.0);
        }
        if value_lt(x.1, y.1) && value_lt(y.1, z.1) {
            lemma_value_lt_transitive(x.1, y.1, z.1);
        }
        if value_lt(x.2, y.2) && value_lt(y.2, z.2) {
            lemma_value_lt_transitive(x.2, y.2, z.2);
        }
    }
    assert forall|x: Triple, y: Triple| #[trigger] r(x, y) || #[trigger] r(y, x) by {
        lemma_value_lt_total(x.0, y.0);
        lemma_value_lt_total(x.1, y.1);
        lemma_value_lt_total(x.2, y.2);
    }
}

/// The model of one executable triple.
pub open spec fn triple_view(t: [Value; 3]) -> Triple {
    (t[0]@, t[1]@, t[2]@)
}

/// Tells whether triple `a` comes before `b` or equals it.
pub fn triple_le_exec(a: &[Value; 3], b: &[Value; 3]) -> (r: bool)
    ensures
        r == triple_le(triple_view(*a), triple_view(*b)),
{
    proof {
        lemma_value_lt_irreflexive(a[0]@);
        lemma_value_lt_irreflexive(a[1]@);
        lemma_value_lt_irreflexive(a[2]@);
    }
    match compare_values(&a[0], &b[0]) {
        Order::Less => true,
        Order::Greater => false,
        Order::Equal => match compare_values(&a[1], &b[1]) {
            Order::Less => true,
            Order::Greater => false,
            Order::Equal => match compare_values(&a[2], &b[2]) {
                Order::Greater => false,
                _ => true,
            },
        },
    }
}

/// Sorts triples lexicographically: each is placed, by a galloping search,
/// behind those already placed that do not come after it.
pub fn sort_triples(triples: Vec<[Value; 3]>) -> (out: Vec<[Value; 3]>)
    ensures
        triples_view(out@) == triples_view(triples@).sort_by(triple_order()),
{
    let ghost all = triples_view(triples@);
    let mut src = triples;
    let mut out: Vec<[Value; 3]> = Vec::new();
    proof {
        lemma_triple_order_total();
        assert(triples_view(out@) =~= Seq::<Triple>::empty());
        vstd::seq_lib::lemma_multiset_commutative(triples_view(out@), triples_view(src@));
        assert(triples_view(out@) + triples_view(src@) =~= all);
    }
    while src.len() > 0
        invariant
            total_ordering(triple_order()),
            sorted_by(triples_view(out@), triple_order()),
            triples_view(out@).to_multiset().add(triples_view(src@).to_multiset())
                == all.to_multiset(),
        decreases src.len(),
    {
        let ghost src0 = triples_view(src@);
        let ghost out0 = triples_view(out@);
        let x = src.pop().unwrap();
        let ghost xv = triple_view(x);
        let probe = &x;
        let f = |t: &[Value; 3]| -> (b: bool)
            ensures
                b == triple_le(triple_view(*t), triple_view(*probe)),
            { triple_le_exec(t, probe) };
        let pos = gallop(out.as_slice(), 0, out.len(), f);
        proof {
            let p = |t: [Value; 3]| triple_le(triple_view(t), xv);
            assert(computes(f, p));
            assert(monotone(p, out@, 0, out@.len() as int)) by {
                assert forall|i: int, j: int|
                    0 <= i <= j < out@.len() && #[trigger] p(out@[j]) implies #[trigger] p(
                    out@[i],
                ) by {
                    let r = triple_order();
                    assert(out0[i] == triple_view(out@[i]));
                    assert(out0[j] == triple_view(out@[j]));
                    if i < j {
                        assert(r(out0[i], out0[j]));
                    } else {
                        assert(r(out0[i], out0[j]));
                    }
                    assert(r(out0[j], xv));
                    assert(r(out0[i], xv));
                }
            }
            assert(parts(p, out@, 0, out@.len() as int, pos as int));
            let r = triple_order();
            assert forall|i: int| 0 <= i < pos implies r(#[trigger] out0[i], xv) by {
                assert(p(out@[i]));
            }
            assert forall|i: int| pos <= i < out0.len() implies r(xv, #[trigger] out0[i]) by {
                assert(!p(out@[i]));
                assert(r(out0[i], xv) || r(xv, out0[i]));
            }
        }
        out.insert(pos, x);
        proof {
            let r = triple_order();
            let out1 = triples_view(out@);
            assert(out1 =~= out0.insert(pos as int, xv));
            assert(src0 =~= triples_view(src@).push(xv));
            vstd::seq_lib::to_multiset_insert(out0, pos as int, xv);
            vstd::seq_lib::to_multiset_build(triples_view(src@), xv);
            assert(out1.to_multiset().add(triples_view(src@).to_multiset())
                =~= out0.to_multiset().add(src0.to_multiset()));
            assert forall|i: int, j: int| 0 <= i < j < out1.len() implies #[trigger] r(
                out1[i],
                out1[j],
            ) by {
                if j == pos {
                    assert(r(out0[i], xv));
                } else if i == pos {
                    assert(r(xv, out0[j - 1]));
                } else {
                    let a = if i < pos { i } else { i - 1 };
                    let b = if j < pos { j } else { j - 1 };
                    assert(r(out0[a], out0[b]));
                }
            }
        }
    }
    proof {
        assert(triples_view(src@) =~= Seq::<Triple>::empty());
        assert(triples_view(out@).to_multiset() =~= all.to_multiset());
        all.lemma_sort_by_ensures(triple_order());
        vstd::seq_lib::lemma_sorted_unique(
            triples_view(out@),
            all.sort_by(triple_order()),
            triple_order(),
        );
    }
    out
}

/// Column `c` of a triple.
pub open spec fn pick(t: Triple, c: int) -> ValueView {
    if c == 0 {
        t.0
    } else if c == 1 {
        t.1
    } else {
        t.2
    }
}

/// A column order: the columns 0, 1 and 2, each once.
pub open spec fn is_ordering(p: Seq<usize>) -> bool {
    &&& p.len() == 3
    &&& p[0] < 3 && p[1] < 3 && p[2] < 3
    &&& p[0] != p[1] && p[0] != p[2] && p[1] != p[2]
}

/// The triple with its columns in the order `p`.
pub open spec fn permute(t: Triple, p: Seq<usize>) -> Triple {
    (pick(t, p[0] as int), pick(t, p[1] as int), pick(t, p[2] as int))
}

/// The place of column `c` in the order `p`: the inverse of `p`.
pub open spec fn place(p: Seq<usize>, c: int) -> int {
    if p[0] == c {
        0
    } else if p[1] == c {
        1
    } else {
        2
    }
}

/// The triples with their columns in the order `p`, sorted.
pub open spec fn sorted_rows(triples: Seq<Triple>, p: Seq<usize>) -> Seq<Triple> {
    triples.map_values(|t: Triple| permute(t, p)).sort_by(triple_order())
}

/// The index of the triples for the column order `p`: position `k` of
/// column `c` holds what the `k`-th of the sorted triples has in its
/// own column `c`.
pub open spec fn index_spec(triples: Seq<Triple>, p: Seq<usize>) -> Seq<Seq<ValueView>> {
    let rows = sorted_rows(triples, p);
    Seq::new(3, |c: int| Seq::new(rows.len(), |k: int| pick(rows[k], place(p, c))))
}

/// The triple at position `k` of an index, with its columns in their own
/// order.
pub open spec fn row_at(ix: Seq<Seq<ValueView>>, k: int) -> Triple {
    (ix[0][k], ix[1][k], ix[2][k])
}

/// An index holds the triples it was built from, no more and no fewer; read
/// in the column order it was built for, its rows are those triples sorted.
pub proof fn lemma_index_rows(triples: Seq<Triple>, p: Seq<usize>)
    requires
        is_ordering(p),
    ensures
        index_ok(index_spec(triples, p)),
        index_spec(triples, p)[0].len() == triples.len(),
        forall|k: int|
            0 <= k < triples.len() ==> permute(#[trigger] row_at(index_spec(triples, p), k), p)
                == sorted_rows(triples, p)[k],
        Seq::new(triples.len(), |k: int| row_at(index_spec(triples, p), k)).to_multiset()
            == triples.to_multiset(),
        sorted_on(index_spec(triples, p), p, 0, triples.len() as int),
{
    let permuted = triples.map_values(|t: Triple| permute(t, p));
    let rows = sorted_rows(triples, p);
    let ix = index_spec(triples, p);
    lemma_triple_order_total();
    permuted.lemma_sort_by_ensures(triple_order());
    vstd::seq_lib::to_multiset_len(permuted);
    vstd::seq_lib::to_multiset_len(rows);
    assert(rows.len() == triples.len());
    assert forall|k: int| 0 <= k < triples.len() implies permute(#[trigger] row_at(ix, k), p)
        == rows[k] by {}
    assert forall|i: int, j: int| 0 <= i <= j < triples.len() implies #[trigger] lex_le(
        ix,
        p,
        i,
        j,
    ) by {
        let r = triple_order();
        if i < j {
            assert(r(rows[i], rows[j]));
        } else {
            assert(r(rows[i], rows[j]));
        }
        lemma_lex_le_three(ix, p, i, j);
    }
    let back = Seq::new(triples.len(), |k: int| row_at(ix, k));
    assert(back.map_values(|t: Triple| permute(t, p)) =~= rows);
    lemma_permute_multiset(back, triples, p);
}

/// Comparing two positions by three columns is comparing the triples made
/// of those columns.
pub proof fn lemma_lex_le_three(ix: Seq<Seq<ValueView>>, p: Seq<usize>, i: int, j: int)
    requires
        p.len() == 3,
    ensures
        lex_le(ix, p, i, j) == triple_le(
            (ix[p[0] as int][i], ix[p[1] as int][i], ix[p[2] as int][i]),
            (ix[p[0] as int][j], ix[p[1] as int][j], ix[p[2] as int][j]),
        ),
{
    let p1 = p.drop_first();
    let p2 = p1.drop_first();
    let p3 = p2.drop_first();
    assert(p1[0] == p[1]);
    assert(p2[0] == p[2]);
    assert(p3.len() == 0);
    assert(lex_le(ix, p3, i, j));
    assert(lex_le(ix, p2, i, j) == (value_lt(ix[p[2] as int][i], ix[p[2] as int][j]) || (
    ix[p[2] as int][i] == ix[p[2] as int][j] && lex_le(ix, p3, i, j))));
    assert(lex_le(ix, p1, i, j) == (value_lt(ix[p[1] as int][i], ix[p[1] as int][j]) || (
    ix[p[1] as int][i] == ix[p[1] as int][j] && lex_le(ix, p2, i, j))));
}

/// Putting the columns of every triple in the order `p` loses nothing: two
/// lists whose permuted triples are the same up to order are themselves the
/// same up to order.
pub proof fn lemma_permute_multiset(a: Seq<Triple>, b: Seq<Triple>, p: Seq<usize>)
    requires
        is_ordering(p),
        a.map_values(|t: Triple| permute(t, p)).to_multiset() == b.map_values(
            |t: Triple| permute(t, p),
        ).to_multiset(),
    ensures
        a.to_multiset() == b.to_multiset(),
{
    let f = |t: Triple| permute(t, p);
    let g = |t: Triple| unpermute(t, p);
    lemma_map_multiset(a.map_values(f), b.map_values(f), g);
    assert(a.map_values(f).map_values(g) =~= a);
    assert(b.map_values(f).map_values(g) =~= b);
}

/// The triple whose columns, put in the order `p`, give `t`.
pub open spec fn unpermute(t: Triple, p: Seq<usize>) -> Triple {
    (pick(t, place(p, 0)), pick(t, place(p, 1)), pick(t, place(p, 2)))
}

/// Mapping two lists that are the same up to order gives lists that are the
/// same up to order.
pub proof fn lemma_map_multiset<A, B>(a: Seq<A>, b: Seq<A>, f: spec_fn(A) -> B)
    requires
        a.to_multiset() == b.to_multiset(),
    ensures
        a.map_values(f).to_multiset() == b.map_values(f).to_multiset(),
    decreases a.len(),
{
    broadcast use vstd::seq_lib::group_to_multiset_ensures;

    vstd::seq_lib::to_multiset_len(a);
    vstd::seq_lib::to_multiset_len(b);
    if a.len() == 0 {
        assert(a.map_values(f) =~= b.map_values(f));
    } else {
        let x = a.last();
        assert(a.contains(x));
        assert(b.to_multiset().count(x) > 0);
        assert(b.contains(x));
        let i = choose|i: int| 0 <= i < b.len() && b[i] == x;
        let a1 = a.drop_last();
        let b1 = b.remove(i);
        assert(a =~= a1.push(x));
        assert(a1.to_multiset() =~= a.to_multiset().remove(x)) by {
            assert(a1 =~= a.remove(a.len() - 1));
        }
        assert(b1.to_multiset() =~= b.to_multiset().remove(x));
        lemma_map_multiset(a1, b1, f);
        assert(a.map_values(f) =~= a1.map_values(f).push(f(x)));
        assert(b1.map_values(f) =~= b.map_values(f).remove(i));
        assert(b.map_values(f)[i] == f(x));
        assert(b.map_values(f).to_multiset() =~= b1.map_values(f).to_multiset().insert(f(x))) by {
            assert(b.map_values(f) =~= b1.map_values(f).insert(i, f(x)));
            vstd::seq_lib::to_multiset_insert(b1.map_values(f), i, f(x));
        }
    }
}

/// Lifts the entries of a bag into triples of values: the entity, the
/// attribute as a string, and the value.
pub fn lift(bag: &Bag) -> (eavs: Vec<[Value; 3]>)
    ensures
        triples_view(eavs@) == bag.triples(),
{
    let mut eavs: Vec<[Value; 3]> = Vec::new();
    let mut i: usize = 0;
    while i < bag.eavs.len()
        invariant
            i <= bag.eavs@.len(),
            eavs@.len() == i,
            forall|k: int| 0 <= k < i ==> triple_view(#[trigger] eavs@[k]) == bag.triples()[k],
        decreases bag.eavs@.len() - i,
    {
        let entry = &bag.eavs[i];
        let entity = Value::Entity(Entity { avs: clone_pairs(&entry.0.0.avs) });
        let attribute = Value::String(entry.0.1.clone());
        let value = clone_value(&entry.1);
        eavs.push([entity, attribute, value]);
        i += 1;
    }
    assert(triples_view(eavs@) =~= bag.triples());
    eavs
}

/// The place of column `c` in a column order.
fn place_exec(ordering: &[usize; 3], c: usize) -> (r: usize)
    ensures
        r == place(ordering@, c as int),
        r < 3,
{
    if ordering[0] == c {
        0
    } else if ordering[1] == c {
        1
    } else {
        2
    }
}

/// Reads one column out of a list of triples.
fn column_of(rows: &Vec<[Value; 3]>, at: usize) -> (column: Vec<Value>)
    requires
        at < 3,
    ensures
        values_view(column@) == Seq::new(
            rows@.len(),
            |k: int| pick(triples_view(rows@)[k], at as int),
        ),
{
    let mut column: Vec<Value> = Vec::new();
    let mut k: usize = 0;
    while k < rows.len()
        invariant
            at < 3,
            k <= rows@.len(),
            column@.len() == k,
            forall|j: int| 0 <= j < k ==> (#[trigger] column@[j])@ == pick(triple_view(rows@[j]), at as int),
        decreases rows@.len() - k,
    {
        column.push(clone_value(&rows[k][at]));
        k += 1;
    }
    assert(values_view(column@) =~= Seq::new(
        rows@.len(),
        |k: int| pick(triples_view(rows@)[k], at as int),
    ));
    column
}

/// Builds the index of the triples `eavs` for one row: puts the columns of
/// every triple in the order `ordering`, sorts the triples, and stores them
/// column by column under their own column numbers.
pub fn build_index(eavs: &Vec<[Value; 3]>, ordering: &[usize; 3]) -> (index: Index)
    requires
        is_ordering(ordering@),
    ensures
        index_view(index) == index_spec(triples_view(eavs@), ordering@),
{
    let mut permuted: Vec<[Value; 3]> = Vec::new();
    let mut i: usize = 0;
    while i < eavs.len()
        invariant
            is_ordering(ordering@),
            i <= eavs@.len(),
            permuted@.len() == i,
            forall|k: int|
                0 <= k < i ==> triple_view(#[trigger] permuted@[k]) == permute(
                    triple_view(eavs@[k]),
                    ordering@,
                ),
        decreases eavs@.len() - i,
    {
        let eav = &eavs[i];
        permuted.push(
            [
                clone_value(&eav[ordering[0]]),
                clone_value(&eav[ordering[1]]),
                clone_value(&eav[ordering[2]]),
            ],
        );
        i += 1;
    }
    assert(triples_view(permuted@) =~= triples_view(eavs@).map_values(
        |t: Triple| permute(t, ordering@),
    ));
    let sorted = sort_triples(permuted);
    let first = column_of(&sorted, place_exec(ordering, 0));
    let second = column_of(&sorted, place_exec(ordering, 1));
    let third = column_of(&sorted, place_exec(ordering, 2));
    let index = [first, second, third];
    proof {
        let want = index_spec(triples_view(eavs@), ordering@);
        let got = index_view(index);
        assert(got.len() == 3);
        assert(got[0] =~= want[0]);
        assert(got[1] =~= want[1]);
        assert(got[2] =~= want[2]);
        assert(got =~= want);
    }
    index
}

/// The index does not depend on the order of the triples it is built
/// from.
pub proof fn lemma_index_order_free(first: Seq<Triple>, second: Seq<Triple>, p: Seq<usize>)
    requires
        first.to_multiset() == second.to_multiset(),
    ensures
        index_spec(first, p) == index_spec(second, p),
{
    let f = |t: Triple| permute(t, p);
    lemma_map_multiset(first, second, f);
    lemma_triple_order_total();
    first.map_values(f).lemma_sort_by_ensures(triple_order());
    second.map_values(f).lemma_sort_by_ensures(triple_order());
    vstd::seq_lib::lemma_sorted_unique(
        sorted_rows(first, p),
        sorted_rows(second, p),
        triple_order(),
    );
}

} // verus!
