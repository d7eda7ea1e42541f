//! The total order on values, and the laws that make it one.

use vstd::prelude::*;
use crate::value::ValueView;

verus! {

/// The result of comparing two values.
#[derive(Debug, Clone, Copy, PartialEq, Eq, Structural)]
pub enum Order {
    Less,
    Equal,
    Greater,
}

/// Lexicographic order on byte sequences, a proper prefix coming first.
pub open spec fn bytes_lt(a: Seq<u8>, b: Seq<u8>) -> bool
    decreases a.len(),
{
    if b.len() == 0 {
        false
    } else if a.len() == 0 {
        true
    } else if a[0] == b[0] {
        bytes_lt(a.drop_first(), b.drop_first())
    } else {
        a[0] < b[0]
    }
}

/// The order on text: lexicographic on the bytes of its UTF-8 encoding.
pub open spec fn str_lt(a: Seq<char>, b: Seq<char>) -> bool {
    bytes_lt(vstd::utf8::encode_utf8(a), vstd::utf8::encode_utf8(b))
}

/// The rank of a value's variant: variants are ordered as they are listed.
pub open spec fn tag(v: ValueView) -> int {
    match v {
        ValueView::Boolean(_) => 0,
        ValueView::Integer(_) => 1,
        ValueView::String(_) => 2,
        ValueView::Entity(_) => 3,
    }
}

/// The strict total order on values: by variant first, then by payload.
pub open spec fn value_lt(a: ValueView, b: ValueView) -> bool
    decreases a,
{
    match (a, b) {
        (ValueView::Boolean(x), ValueView::Boolean(y)) => !x && y,
        (ValueView::Integer(x), ValueView::Integer(y)) => x < y,
        (ValueView::String(x), ValueView::String(y)) => str_lt(x, y),
        (ValueView::Entity(x), ValueView::Entity(y)) => avs_lt(x, y),
        _ => tag(a) < tag(b),
    }
}

/// The order on attribute-value pairs: by attribute, then by value.
pub open spec fn pair_lt(a: (Seq<char>, ValueView), b: (Seq<char>, ValueView)) -> bool
    decreases a, 0int,
{
    str_lt(a.0, b.0) || (a.0 == b.0 && value_lt(a.1, b.1))
}

/// Lexicographic order on lists of attribute-value pairs.
pub open spec fn avs_lt(a: Seq<(Seq<char>, ValueView)>, b: Seq<(Seq<char>, ValueView)>) -> bool
    decreases a, 1int,
{
    if b.len() == 0 {
        false
    } else if a.len() == 0 {
        true
    } else {
        pair_lt(a[0], b[0]) || (a[0] == b[0] && avs_lt(a.drop_first(), b.drop_first()))
    }
}

/// How `a` stands to `b` in the total order.
pub open spec fn order_of(a: ValueView, b: ValueView) -> Order {
    if value_lt(a, b) {
        Order::Less
    } else if a == b {
        Order::Equal
    } else {
        Order::Greater
    }
}

/// How byte sequence `a` stands to `b`.
pub open spec fn bytes_order(a: Seq<u8>, b: Seq<u8>) -> Order {
    if bytes_lt(a, b) {
        Order::Less
    } else if a == b {
        Order::Equal
    } else {
        Order::Greater
    }
}

/// How text `a` stands to `b`.
pub open spec fn str_order(a: Seq<char>, b: Seq<char>) -> Order {
    if str_lt(a, b) {
        Order::Less
    } else if a == b {
        Order::Equal
    } else {
        Order::Greater
    }
}

/// How the list of pairs `a` stands to `b`.
pub open spec fn avs_order(a: Seq<(Seq<char>, ValueView)>, b: Seq<(Seq<char>, ValueView)>) -> Order {
    if avs_lt(a, b) {
        Order::Less
    } else if a == b {
        Order::Equal
    } else {
        Order::Greater
    }
}

/// Two byte sequences that agree on their first `i` bytes compare as their
/// remainders do.
pub proof fn lemma_bytes_lt_skip(a: Seq<u8>, b: Seq<u8>, i: int)
    requires
        0 <= i <= a.len(),
        i <= b.len(),
        forall|j: int| 0 <= j < i ==> a[j] == b[j],
    ensures
        bytes_lt(a, b) == bytes_lt(a.skip(i), b.skip(i)),
        (a == b) == (a.skip(i) == b.skip(i)),
    decreases i,
{
    if i == 0 {
        assert(a.skip(0) =~= a);
        assert(b.skip(0) =~= b);
    } else {
        lemma_bytes_lt_skip(a.drop_first(), b.drop_first(), i - 1);
        assert(a.drop_first().skip(i - 1) =~= a.skip(i));
        assert(b.drop_first().skip(i - 1) =~= b.skip(i));
        assert(a =~= seq![a[0]] + a.drop_first());
        assert(b =~= seq![b[0]] + b.drop_first());
    }
}

/// Two lists of pairs that agree on their first `i` pairs compare as their
/// remainders do.
pub proof fn lemma_avs_lt_skip(
    a: Seq<(Seq<char>, ValueView)>,
    b: Seq<(Seq<char>, ValueView)>,
    i: int,
)
    requires
        0 <= i <= a.len(),
        i <= b.len(),
        forall|j: int| 0 <= j < i ==> a[j] == b[j],
    ensures
        avs_lt(a, b) == avs_lt(a.skip(i), b.skip(i)),
        (a == b) == (a.skip(i) == b.skip(i)),
    decreases i,
{
    if i == 0 {
        assert(a.skip(0) =~= a);
        assert(b.skip(0) =~= b);
    } else {
        lemma_avs_lt_skip(a.drop_first(), b.drop_first(), i - 1);
        assert(a.drop_first().skip(i - 1) =~= a.skip(i));
        assert(b.drop_first().skip(i - 1) =~= b.skip(i));
        assert(a =~= seq![a[0]] + a.drop_first());
        assert(b =~= seq![b[0]] + b.drop_first());
        lemma_bytes_lt_irreflexive(vstd::utf8::encode_utf8(a[0].0));
        lemma_value_lt_irreflexive(a[0].1);
        assert(!pair_lt(a[0], a[0]));
    }
}

/// No byte sequence comes before itself.
pub proof fn lemma_bytes_lt_irreflexive(a: Seq<u8>)
    ensures
        !bytes_lt(a, a),
    decreases a.len(),
{
    if a.len() > 0 {
        lemma_bytes_lt_irreflexive(a.drop_first());
    }
}

/// The order on byte sequences is transitive.
pub proof fn lemma_bytes_lt_transitive(a: Seq<u8>, b: Seq<u8>, c: Seq<u8>)
    requires
        bytes_lt(a, b),
        bytes_lt(b, c),
    ensures
        bytes_lt(a, c),
    decreases a.len(),
{
    if a.len() > 0 && a[0] == b[0] && b[0] == c[0] {
        lemma_bytes_lt_transitive(a.drop_first(), b.drop_first(), c.drop_first());
    }
}

/// Two byte sequences are equal or one comes before the other.
pub proof fn lemma_bytes_lt_total(a: Seq<u8>, b: Seq<u8>)
    ensures
        bytes_lt(a, b) || a == b || bytes_lt(b, a),
    decreases a.len(),
{
    if a.len() > 0 && b.len() > 0 && a[0] == b[0] {
        lemma_bytes_lt_total(a.drop_first(), b.drop_first());
        if a.drop_first() == b.drop_first() {
            assert(a =~= seq![a[0]] + a.drop_first());
            assert(b =~= seq![b[0]] + b.drop_first());
        }
    } else if a.len() == 0 && b.len() == 0 {
        assert(a =~= b);
    }
}

/// Two texts are equal or one comes before the other.
pub proof fn lemma_str_lt_total(a: Seq<char>, b: Seq<char>)
    ensures
        str_lt(a, b) || a == b || str_lt(b, a),
{
    lemma_bytes_lt_total(vstd::utf8::encode_utf8(a), vstd::utf8::encode_utf8(b));
    vstd::utf8::encode_utf8_decode_utf8(a);
    vstd::utf8::encode_utf8_decode_utf8(b);
}

/// No value comes before itself.
pub proof fn lemma_value_lt_irreflexive(a: ValueView)
    ensures
        !value_lt(a, a),
    decreases a,
{
    match a {
        ValueView::String(x) => lemma_bytes_lt_irreflexive(vstd::utf8::encode_utf8(x)),
        ValueView::Entity(x) => lemma_avs_lt_irreflexive(x),
        _ => {},
    }
}

/// No list of pairs comes before itself.
pub proof fn lemma_avs_lt_irreflexive(a: Seq<(Seq<char>, ValueView)>)
    ensures
        !avs_lt(a, a),
    decreases a,
{
    if a.len() > 0 {
        lemma_bytes_lt_irreflexive(vstd::utf8::encode_utf8(a[0].0));
        lemma_value_lt_irreflexive(a[0].1);
        lemma_avs_lt_irreflexive(a.drop_first());
        assert(!pair_lt(a[0], a[0]));
    }
}

/// The order on values is transitive.
pub proof fn lemma_value_lt_transitive(a: ValueView, b: ValueView, c: ValueView)
    requires
        value_lt(a, b),
        value_lt(b, c),
    ensures
        value_lt(a, c),
    decreases a,
{
    match (a, b, c) {
        (ValueView::String(x), ValueView::String(y), ValueView::String(z)) => {
            lemma_bytes_lt_transitive(
                vstd::utf8::encode_utf8(x),
                vstd::utf8::encode_utf8(y),
                vstd::utf8::encode_utf8(z),
            );
        },
        (ValueView::Entity(x), ValueView::Entity(y), ValueView::Entity(z)) => {
            lemma_avs_lt_transitive(x, y, z);
        },
        _ => {},
    }
}

/// The order on pairs is transitive.
pub proof fn lemma_pair_lt_transitive(
    a: (Seq<char>, ValueView),
    b: (Seq<char>, ValueView),
    c: (Seq<char>, ValueView),
)
    requires
        pair_lt(a, b),
        pair_lt(b, c),
    ensures
        pair_lt(a, c),
    decreases a, 0int,
{
    if str_lt(a.0, b.0) && str_lt(b.0, c.0) {
        lemma_bytes_lt_transitive(
            vstd::utf8::encode_utf8(a.0),
            vstd::utf8::encode_utf8(b.0),
            vstd::utf8::encode_utf8(c.0),
        );
    } else if a.0 == b.0 && b.0 == c.0 {
        lemma_value_lt_transitive(a.1, b.1, c.1);
    }
}

/// The order on lists of pairs is transitive.
pub proof fn lemma_avs_lt_transitive(
    a: Seq<(Seq<char>, ValueView)>,
    b: Seq<(Seq<char>, ValueView)>,
    c: Seq<(Seq<char>, ValueView)>,
)
    requires
        avs_lt(a, b),
        avs_lt(b, c),
    ensures
        avs_lt(a, c),
    decreases a, 1int,
{
    if a.len() > 0 {
        if pair_lt(a[0], b[0]) && pair_lt(b[0], c[0]) {
            lemma_pair_lt_transitive(a[0], b[0], c[0]);
        } else if a[0] == b[0] && b[0] == c[0] {
            lemma_avs_lt_transitive(a.drop_first(), b.drop_first(), c.drop_first());
        }
    }
}

/// Two values are equal or one comes before the other.
pub proof fn lemma_value_lt_total(a: ValueView, b: ValueView)
    ensures
        value_lt(a, b) || a == b || value_lt(b, a),
    decreases a,
{
    match (a, b) {
        (ValueView::String(x), ValueView::String(y)) => lemma_str_lt_total(x, y),
        (ValueView::Entity(x), ValueView::Entity(y)) => lemma_avs_lt_total(x, y),
        _ => {},
    }
}

/// Two lists of pairs are equal or one comes before the other.
pub proof fn lemma_avs_lt_total(a: Seq<(Seq<char>, ValueView)>, b: Seq<(Seq<char>, ValueView)>)
    ensures
        avs_lt(a, b) || a == b || avs_lt(b, a),
    decreases a,
{
    if a.len() > 0 && b.len() > 0 {
        lemma_str_lt_total(a[0].0, b[0].0);
        lemma_value_lt_total(a[0].1, b[0].1);
        lemma_avs_lt_total(a.drop_first(), b.drop_first());
        assert(pair_lt(a[0], b[0]) || a[0] == b[0] || pair_lt(b[0], a[0]));
        if a[0] == b[0] && a.drop_first() == b.drop_first() {
            assert(a =~= seq![a[0]] + a.drop_first());
            assert(b =~= seq![b[0]] + b.drop_first());
        }
    } else if a.len() == 0 && b.len() == 0 {
        assert(a =~= b);
    }
}

/// Of two lists of pairs, never both come before the other.
pub proof fn lemma_avs_lt_asymmetric(a: Seq<(Seq<char>, ValueView)>, b: Seq<(Seq<char>, ValueView)>)
    requires
        avs_lt(a, b),
    ensures
        !avs_lt(b, a),
        a != b,
{
    lemma_avs_lt_irreflexive(a);
    if avs_lt(b, a) {
        lemma_avs_lt_transitive(a, b, a);
    }
}

/// Of two values, never both come before the other.
pub proof fn lemma_value_lt_asymmetric(a: ValueView, b: ValueView)
    requires
        value_lt(a, b),
    ensures
        !value_lt(b, a),
        a != b,
{
    lemma_value_lt_irreflexive(a);
    if value_lt(b, a) {
        lemma_value_lt_transitive(a, b, a);
    }
}

} // verus!
