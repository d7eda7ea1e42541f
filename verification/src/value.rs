//! Values, entities and their total order.

use vstd::prelude::*;
use crate::order::{
    avs_order, bytes_order, lemma_avs_lt_asymmetric, lemma_avs_lt_irreflexive, lemma_avs_lt_skip,
    lemma_bytes_lt_irreflexive, lemma_bytes_lt_skip, lemma_str_lt_total,
    lemma_value_lt_irreflexive, lemma_value_lt_total, order_of, pair_lt, str_lt, str_order, tag,
    value_lt, Order,
};

verus! {

/// The name of an attribute of an entity.
pub type Attribute = String;

/// An entity: the ordered list of its attribute-value pairs.
#[derive(Debug)]
pub struct Entity {
    pub avs: Vec<(Attribute, Value)>,
}

/// A value of the store: a scalar or an entity.
#[derive(Debug)]
pub enum Value {
    Boolean(bool),
    Integer(i64),
    String(String),
    Entity(Entity),
}

/// The mathematical model of a [`Value`].
pub enum ValueView {
    Boolean(bool),
    Integer(i64),
    String(Seq<char>),
    Entity(Seq<(Seq<char>, ValueView)>),
}

/// The model of one value.
pub open spec fn value_view(v: Value) -> ValueView
    decreases v,
{
    match v {
        Value::Boolean(b) => ValueView::Boolean(b),
        Value::Integer(i) => ValueView::Integer(i),
        Value::String(s) => ValueView::String(s@),
        Value::Entity(e) => ValueView::Entity(avs_view(e.avs@)),
    }
}

/// The model of a list of attribute-value pairs.
pub open spec fn avs_view(avs: Seq<(Attribute, Value)>) -> Seq<(Seq<char>, ValueView)>
    decreases avs,
{
    if avs.len() == 0 {
        Seq::empty()
    } else {
        avs_view(avs.drop_last()).push((avs.last().0@, value_view(avs.last().1)))
    }
}

impl View for Value {
    type V = ValueView;

    open spec fn view(&self) -> ValueView {
        value_view(*self)
    }
}

impl View for Entity {
    type V = Seq<(Seq<char>, ValueView)>;

    open spec fn view(&self) -> Seq<(Seq<char>, ValueView)> {
        avs_view(self.avs@)
    }
}

/// `avs_view` maps the pairs one by one.
pub proof fn lemma_avs_view(avs: Seq<(Attribute, Value)>)
    ensures
        avs_view(avs).len() == avs.len(),
        forall|i: int| 0 <= i < avs.len() ==> #[trigger] avs_view(avs)[i] == (avs[i].0@, avs[i].1@),
    decreases avs.len(),
{
    if avs.len() > 0 {
        lemma_avs_view(avs.drop_last());
    }
}

/// Compares two byte strings lexicographically.
pub fn compare_bytes(a: &[u8], b: &[u8]) -> (r: Order)
    ensures
        r == bytes_order(a@, b@),
{
    let mut i: usize = 0;
    while i < a.len() && i < b.len()
        invariant
            i <= a.len(),
            i <= b.len(),
            forall|j: int| 0 <= j < i ==> a@[j] == b@[j],
        decreases a.len() - i,
    {
        if a[i] < b[i] {
            proof {
                lemma_bytes_lt_skip(a@, b@, i as int);
            }
            return Order::Less;
        }
        if a[i] > b[i] {
            proof {
                lemma_bytes_lt_skip(a@, b@, i as int);
            }
            return Order::Greater;
        }
        i += 1;
    }
    proof {
        lemma_bytes_lt_skip(a@, b@, i as int);
        if i == a.len() && i == b.len() {
            assert(a@.skip(i as int) =~= b@.skip(i as int));
            lemma_bytes_lt_irreflexive(a@);
        }
    }
    if i < b.len() {
        Order::Less
    } else if i < a.len() {
        Order::Greater
    } else {
        Order::Equal
    }
}

/// Compares two texts by the bytes of their UTF-8 encoding.
pub fn compare_text(a: &String, b: &String) -> (r: Order)
    ensures
        r == str_order(a@, b@),
{
    proof {
        vstd::utf8::encode_utf8_decode_utf8(a@);
        vstd::utf8::encode_utf8_decode_utf8(b@);
    }
    compare_bytes(a.as_str().as_bytes(), b.as_str().as_bytes())
}

/// The rank of a value's variant.
fn rank(v: &Value) -> (r: u8)
    ensures
        r == tag(v@),
{
    match v {
        Value::Boolean(_) => 0,
        Value::Integer(_) => 1,
        Value::String(_) => 2,
        Value::Entity(_) => 3,
    }
}

/// Compares two values in the total order.
pub fn compare_values(a: &Value, b: &Value) -> (r: Order)
    ensures
        r == order_of(a@, b@),
    decreases a,
{
    match (a, b) {
        (Value::Boolean(x), Value::Boolean(y)) => {
            if !*x && *y {
                Order::Less
            } else if *x == *y {
                Order::Equal
            } else {
                Order::Greater
            }
        },
        (Value::Integer(x), Value::Integer(y)) => {
            if *x < *y {
                Order::Less
            } else if *x == *y {
                Order::Equal
            } else {
                Order::Greater
            }
        },
        (Value::String(x), Value::String(y)) => compare_text(x, y),
        (Value::Entity(x), Value::Entity(y)) => compare_pairs(&x.avs, &y.avs),
        _ => {
            if rank(a) < rank(b) {
                Order::Less
            } else {
                Order::Greater
            }
        },
    }
}

/// Compares two lists of attribute-value pairs lexicographically.
pub fn compare_pairs(a: &Vec<(Attribute, Value)>, b: &Vec<(Attribute, Value)>) -> (r: Order)
    ensures
        r == avs_order(avs_view(a@), avs_view(b@)),
    decreases a,
{
    proof {
        lemma_avs_view(a@);
        lemma_avs_view(b@);
    }
    let ghost av = avs_view(a@);
    let ghost bv = avs_view(b@);
    let mut i: usize = 0;
    while i < a.len() && i < b.len()
        invariant
            i <= a.len(),
            i <= b.len(),
            av == avs_view(a@),
            bv == avs_view(b@),
            av.len() == a.len(),
            bv.len() == b.len(),
            forall|j: int| 0 <= j < a.len() ==> #[trigger] av[j] == (a@[j].0@, a@[j].1@),
            forall|j: int| 0 <= j < b.len() ==> #[trigger] bv[j] == (b@[j].0@, b@[j].1@),
            forall|j: int| 0 <= j < i ==> av[j] == bv[j],
        decreases a.len() - i,
    {
        let by_name = compare_text(&a[i].0, &b[i].0);
        let here = match by_name {
            Order::Equal => compare_values(&a[i].1, &b[i].1),
            _ => by_name,
        };
        proof {
            lemma_avs_lt_skip(av, bv, i as int);
            let x = av[i as int];
            let y = bv[i as int];
            assert(av.skip(i as int)[0] == x);
            assert(bv.skip(i as int)[0] == y);
            assert(pair_lt(x, y) == (str_lt(x.0, y.0) || (x.0 == y.0 && value_lt(x.1, y.1))));
            assert(pair_lt(y, x) == (str_lt(y.0, x.0) || (x.0 == y.0 && value_lt(y.1, x.1))));
            lemma_bytes_lt_irreflexive(vstd::utf8::encode_utf8(x.0));
            lemma_value_lt_irreflexive(x.1);
            if here == Order::Greater {
                if str_lt(x.0, y.0) {
                } else if x.0 == y.0 {
                    lemma_value_lt_total(x.1, y.1);
                } else {
                    lemma_str_lt_total(x.0, y.0);
                }
                assert(pair_lt(y, x));
                lemma_avs_lt_asymmetric(bv.skip(i as int), av.skip(i as int));
            }
        }
        match here {
            Order::Equal => {},
            _ => {
                return here;
            },
        }
        i += 1;
    }
    proof {
        lemma_avs_lt_skip(av, bv, i as int);
        if i == a.len() && i == b.len() {
            assert(av.skip(i as int) =~= bv.skip(i as int));
            lemma_avs_lt_irreflexive(av);
        }
    }
    if i < b.len() {
        Order::Less
    } else if i < a.len() {
        Order::Greater
    } else {
        Order::Equal
    }
}

/// Copies a list of attribute-value pairs.
pub fn clone_pairs(avs: &Vec<(Attribute, Value)>) -> (r: Vec<(Attribute, Value)>)
    ensures
        avs_view(r@) == avs_view(avs@),
    decreases avs,
{
    let mut out: Vec<(Attribute, Value)> = Vec::new();
    let mut i: usize = 0;
    while i < avs.len()
        invariant
            i <= avs.len(),
            out.len() == i,
            forall|j: int| 0 <= j < i ==> out@[j].0@ == avs@[j].0@ && out@[j].1@ == avs@[j].1@,
        decreases avs.len() - i,
    {
        let name = avs[i].0.clone();
        let value = clone_value(&avs[i].1);
        out.push((name, value));
        i += 1;
    }
    proof {
        lemma_avs_view(out@);
        lemma_avs_view(avs@);
        assert(avs_view(out@) =~= avs_view(avs@));
    }
    out
}

/// Copies a value.
pub fn clone_value(v: &Value) -> (r: Value)
    ensures
        r@ == v@,
    decreases v,
{
    match v {
        Value::Boolean(b) => Value::Boolean(*b),
        Value::Integer(i) => Value::Integer(*i),
        Value::String(s) => Value::String(s.clone()),
        Value::Entity(e) => Value::Entity(Entity { avs: clone_pairs(&e.avs) }),
    }
}

impl Clone for Value {
    fn clone(&self) -> (r: Self)
        ensures
            r@ == self@,
    {
        clone_value(self)
    }
}

impl Clone for Entity {
    fn clone(&self) -> (r: Self)
        ensures
            r@ == self@,
    {
        Entity { avs: clone_pairs(&self.avs) }
    }
}

impl PartialEq for Value {
    fn eq(&self, other: &Value) -> (r: bool) {
        proof {
            lemma_value_lt_irreflexive(self@);
        }
        match compare_values(self, other) {
            Order::Equal => true,
            _ => false,
        }
    }
}

impl vstd::std_specs::cmp::PartialEqSpecImpl for Value {
    open spec fn obeys_eq_spec() -> bool {
        true
    }

    open spec fn eq_spec(&self, other: &Value) -> bool {
        self@ == other@
    }
}

impl Eq for Value {

}

impl PartialEq for Entity {
    fn eq(&self, other: &Entity) -> (r: bool) {
        proof {
            lemma_avs_lt_irreflexive(self@);
        }
        match compare_pairs(&self.avs, &other.avs) {
            Order::Equal => true,
            _ => false,
        }
    }
}

impl vstd::std_specs::cmp::PartialEqSpecImpl for Entity {
    open spec fn obeys_eq_spec() -> bool {
        true
    }

    open spec fn eq_spec(&self, other: &Entity) -> bool {
        self@ == other@
    }
}

impl Eq for Entity {

}

impl Value {
    /// The text of the value, if it is one.
    pub fn as_str(&self) -> (r: Option<&str>)
        ensures
            match self@ {
                ValueView::String(s) => r matches Some(t) && t@ == s,
                _ => r is None,
            },
    {
        match self {
            Value::String(this) => Some(this.as_str()),
            _ => None,
        }
    }

    /// The integer of the value, if it is one.
    pub fn as_i64(&self) -> (r: Option<i64>)
        ensures
            match self@ {
                ValueView::Integer(i) => r == Some(i),
                _ => r is None,
            },
    {
        match self {
            Value::Integer(this) => Some(*this),
            _ => None,
        }
    }

    /// The boolean of the value, if it is one.
    pub fn as_bool(&self) -> (r: Option<bool>)
        ensures
            match self@ {
                ValueView::Boolean(b) => r == Some(b),
                _ => r is None,
            },
    {
        match self {
            Value::Boolean(this) => Some(*this),
            _ => None,
        }
    }
}

impl From<bool> for Value {
    fn from(value: bool) -> (r: Value) {
        Value::Boolean(value)
    }
}

impl vstd::std_specs::convert::FromSpecImpl<bool> for Value {
    open spec fn obeys_from_spec() -> bool {
        true
    }

    open spec fn from_spec(value: bool) -> Value {
        Value::Boolean(value)
    }
}

impl From<i64> for Value {
    fn from(value: i64) -> (r: Value) {
        Value::Integer(value)
    }
}

impl vstd::std_specs::convert::FromSpecImpl<i64> for Value {
    open spec fn obeys_from_spec() -> bool {
        true
    }

    open spec fn from_spec(value: i64) -> Value {
        Value::Integer(value)
    }
}

impl From<String> for Value {
    fn from(value: String) -> (r: Value) {
        Value::String(value)
    }
}

impl vstd::std_specs::convert::FromSpecImpl<String> for Value {
    open spec fn obeys_from_spec() -> bool {
        true
    }

    open spec fn from_spec(value: String) -> Value {
        Value::String(value)
    }
}

impl<'a> From<&'a str> for Value {
    fn from(value: &'a str) -> (r: Value) {
        Value::String(value.to_owned())
    }
}

impl<'a> vstd::std_specs::convert::FromSpecImpl<&'a str> for Value {
    open spec fn obeys_from_spec() -> bool {
        false
    }

    open spec fn from_spec(value: &'a str) -> Value {
        Value::Boolean(false)
    }
}

impl PartialEq<str> for Value {
    fn eq(&self, other: &str) -> (r: bool) {
        match self {
            Value::String(this) => {
                proof {
                    lemma_bytes_lt_irreflexive(vstd::utf8::encode_utf8(other@));
                    vstd::utf8::encode_utf8_decode_utf8(this@);
                    vstd::utf8::encode_utf8_decode_utf8(other@);
                }
                match compare_bytes(this.as_str().as_bytes(), other.as_bytes()) {
                    Order::Equal => true,
                    _ => false,
                }
            },
            _ => false,
        }
    }
}

impl vstd::std_specs::cmp::PartialEqSpecImpl<str> for Value {
    open spec fn obeys_eq_spec() -> bool {
        true
    }

    open spec fn eq_spec(&self, other: &str) -> bool {
        self@ == ValueView::String(other@)
    }
}

impl PartialEq<bool> for Value {
    fn eq(&self, other: &bool) -> (r: bool) {
        match self {
            Value::Boolean(this) => *this == *other,
            _ => false,
        }
    }
}

impl vstd::std_specs::cmp::PartialEqSpecImpl<bool> for Value {
    open spec fn obeys_eq_spec() -> bool {
        true
    }

    open spec fn eq_spec(&self, other: &bool) -> bool {
        self@ == ValueView::Boolean(*other)
    }
}

impl PartialEq<i64> for Value {
    fn eq(&self, other: &i64) -> (r: bool) {
        match self {
            Value::Integer(this) => *this == *other,
            _ => false,
        }
    }
}

impl vstd::std_specs::cmp::PartialEqSpecImpl<i64> for Value {
    open spec fn obeys_eq_spec() -> bool {
        true
    }

    open spec fn eq_spec(&self, other: &i64) -> bool {
        self@ == ValueView::Integer(*other)
    }
}

impl PartialEq<Entity> for Value {
    fn eq(&self, other: &Entity) -> (r: bool) {
        proof {
            lemma_avs_lt_irreflexive(other@);
        }
        match self {
            Value::Entity(this) => match compare_pairs(&this.avs, &other.avs) {
                Order::Equal => true,
                _ => false,
            },
            _ => false,
        }
    }
}

impl vstd::std_specs::cmp::PartialEqSpecImpl<Entity> for Value {
    open spec fn obeys_eq_spec() -> bool {
        true
    }

    open spec fn eq_spec(&self, other: &Entity) -> bool {
        self@ == ValueView::Entity(other@)
    }
}

} // verus!
