//! The bag: a store of triples that holds at most one value for each
//! entity and attribute.

use vstd::prelude::*;
use crate::index::Triple;
use crate::order::{
    avs_lt, lemma_avs_lt_irreflexive, lemma_avs_lt_total, lemma_avs_lt_transitive,
    lemma_bytes_lt_irreflexive, lemma_bytes_lt_transitive, lemma_str_lt_total, str_lt, Order,
};
use crate::value::{
    clone_pairs, clone_value, compare_pairs, compare_text, Attribute, Entity, Value, ValueView,
};

verus! {

/// The model of a key of the bag: an entity and one of its attributes.
pub type Key = (Seq<(Seq<char>, ValueView)>, Seq<char>);

/// The order on keys: by entity, then by attribute.
pub open spec fn key_lt(a: Key, b: Key) -> bool {
    avs_lt(a.0, b.0) || (a.0 == b.0 && str_lt(a.1, b.1))
}

/// The model of the key of one entry.
pub open spec fn key_of(entry: ((Entity, Attribute), Value)) -> Key {
    (entry.0.0@, entry.0.1@)
}

/// The bag. Its entries are kept in ascending order of their keys.
#[derive(Debug)]
pub struct Bag {
    pub eavs: Vec<((Entity, Attribute), Value)>,
}

impl Bag {
    /// The keys of the entries, in order.
    pub open spec fn keys(&self) -> Seq<Key> {
        self.eavs@.map_values(|e: ((Entity, Attribute), Value)| key_of(e))
    }

    /// The entries are in strictly ascending order of their keys, so no key
    /// occurs twice.
    pub open spec fn wf(&self) -> bool {
        forall|i: int, j: int|
            0 <= i < j < self.eavs@.len() ==> key_lt(
                #[trigger] key_of(self.eavs@[i]),
                #[trigger] key_of(self.eavs@[j]),
            )
    }

    /// Whether the bag holds a value for `key`.
    pub open spec fn has(&self, key: Key) -> bool {
        exists|i: int| 0 <= i < self.eavs@.len() && #[trigger] key_of(self.eavs@[i]) == key
    }

    /// The place of `key` among the entries.
    pub open spec fn place_of(&self, key: Key) -> int {
        choose|i: int| 0 <= i < self.eavs@.len() && #[trigger] key_of(self.eavs@[i]) == key
    }

    /// The triples of the bag: each entry with its entity and attribute
    /// lifted into values.
    pub open spec fn triples(&self) -> Seq<Triple> {
        self.eavs@.map_values(
            |e: ((Entity, Attribute), Value)|
                (ValueView::Entity(e.0.0@), ValueView::String(e.0.1@), e.1@),
        )
    }

    /// An empty bag.
    pub fn new() -> (bag: Bag)
        ensures
            bag.wf(),
            bag@ == Map::<Key, ValueView>::empty(),
    {
        let bag = Bag { eavs: Vec::new() };
        assert(bag@ =~= Map::<Key, ValueView>::empty());
        bag
    }
}

impl View for Bag {
    type V = Map<Key, ValueView>;

    open spec fn view(&self) -> Map<Key, ValueView> {
        Map::new(|key: Key| self.has(key), |key: Key| self.eavs@[self.place_of(key)].1@)
    }
}

/// No key comes before itself, and of two keys never both come before the
/// other.
pub proof fn lemma_key_lt_strict(a: Key, b: Key)
    ensures
        !key_lt(a, a),
        key_lt(a, b) ==> !key_lt(b, a) && a != b,
{
    lemma_avs_lt_irreflexive(a.0);
    lemma_bytes_lt_irreflexive(vstd::utf8::encode_utf8(a.1));
    if key_lt(a, b) && key_lt(b, a) {
        lemma_key_lt_transitive(a, b, a);
    }
}

/// The order on keys is transitive.
pub proof fn lemma_key_lt_transitive(a: Key, b: Key, c: Key)
    requires
        key_lt(a, b),
        key_lt(b, c),
    ensures
        key_lt(a, c),
{
    if avs_lt(a.0, b.0) && avs_lt(b.0, c.0) {
        lemma_avs_lt_transitive(a.0, b.0, c.0);
    }
    lemma_avs_lt_irreflexive(a.0);
    lemma_avs_lt_irreflexive(b.0);
    if a.0 == b.0 && b.0 == c.0 {
        lemma_bytes_lt_transitive(
            vstd::utf8::encode_utf8(a.1),
            vstd::utf8::encode_utf8(b.1),
            vstd::utf8::encode_utf8(c.1),
        );
    }
}

/// Two keys are equal or one comes before the other.
pub proof fn lemma_key_lt_total(a: Key, b: Key)
    ensures
        key_lt(a, b) || a == b || key_lt(b, a),
{
    lemma_avs_lt_total(a.0, b.0);
    lemma_str_lt_total(a.1, b.1);
}

/// In a well-formed bag each key stands at one place only, and the bag
/// maps it to the value there.
pub proof fn lemma_bag_entry(bag: Bag, i: int)
    requires
        bag.wf(),
        0 <= i < bag.eavs@.len(),
    ensures
        bag.has(key_of(bag.eavs@[i])),
        bag.place_of(key_of(bag.eavs@[i])) == i,
        bag@.dom().contains(key_of(bag.eavs@[i])),
        bag@[key_of(bag.eavs@[i])] == bag.eavs@[i].1@,
{
    let key = key_of(bag.eavs@[i]);
    let j = bag.place_of(key);
    lemma_key_lt_strict(key, key);
    if j < i {
        assert(key_lt(key_of(bag.eavs@[j]), key_of(bag.eavs@[i])));
    } else if i < j {
        assert(key_lt(key_of(bag.eavs@[i]), key_of(bag.eavs@[j])));
    }
}

/// How the key of an entity and attribute stands to another.
pub open spec fn key_order(a: Key, b: Key) -> Order {
    if key_lt(a, b) {
        Order::Less
    } else if a == b {
        Order::Equal
    } else {
        Order::Greater
    }
}

/// Compares two keys.
pub fn compare_keys(e1: &Entity, a1: &Attribute, e2: &Entity, a2: &Attribute) -> (r: Order)
    ensures
        r == key_order((e1@, a1@), (e2@, a2@)),
{
    proof {
        lemma_key_lt_strict((e1@, a1@), (e2@, a2@));
        lemma_avs_lt_irreflexive(e1@);
        if avs_lt(e1@, e2@) {
            crate::order::lemma_avs_lt_asymmetric(e1@, e2@);
        }
    }
    match compare_pairs(&e1.avs, &e2.avs) {
        Order::Less => Order::Less,
        Order::Greater => Order::Greater,
        Order::Equal => compare_text(a1, a2),
    }
}

impl Bag {
    /// Sets the value of `attribute` on `entity`, replacing the value that
    /// the bag held for the two, if any.
    pub fn insert(&mut self, entity: Entity, attribute: Attribute, value: Value)
        requires
            old(self).wf(),
        ensures
            final(self).wf(),
            final(self)@ == old(self)@.insert((entity@, attribute@), value@),
    {
        let ghost key = (entity@, attribute@);
        let ghost before = *self;
        let mut i: usize = 0;
        let mut found = false;
        while i < self.eavs.len()
            invariant_except_break
                !found,
            invariant
                *self == before,
                before.wf(),
                key == (entity@, attribute@),
                i <= self.eavs@.len(),
                forall|j: int| 0 <= j < i ==> key_lt(#[trigger] key_of(self.eavs@[j]), key),
            ensures
                i <= self.eavs@.len(),
                found ==> i < self.eavs@.len() && key_of(self.eavs@[i as int]) == key,
                !found ==> forall|j: int|
                    i <= j < self.eavs@.len() ==> key_lt(key, #[trigger] key_of(self.eavs@[j])),
            decreases self.eavs@.len() - i,
        {
            let here = compare_keys(&self.eavs[i].0.0, &self.eavs[i].0.1, &entity, &attribute);
            proof {
                lemma_key_lt_total(key_of(self.eavs@[i as int]), key);
            }
            match here {
                Order::Less => {
                    i += 1;
                },
                Order::Equal => {
                    found = true;
                    break ;
                },
                Order::Greater => {
                    proof {
                        assert forall|j: int| i <= j < self.eavs@.len() implies key_lt(
                            key,
                            #[trigger] key_of(self.eavs@[j]),
                        ) by {
                            if i < j {
                                assert(key_lt(key_of(self.eavs@[i as int]), key_of(self.eavs@[j])));
                                lemma_key_lt_transitive(
                                    key,
                                    key_of(self.eavs@[i as int]),
                                    key_of(self.eavs@[j]),
                                );
                            }
                        }
                    }
                    break ;
                },
            }
        }
        if found {
            self.eavs.set(i, ((entity, attribute), value));
        } else {
            self.eavs.insert(i, ((entity, attribute), value));
        }
        proof {
            let after = *self;
            let entry = after.eavs@[i as int];
            assert(key_of(entry) == key);
            assert forall|a: int, b: int| 0 <= a < b < after.eavs@.len() implies key_lt(
                #[trigger] key_of(after.eavs@[a]),
                #[trigger] key_of(after.eavs@[b]),
            ) by {
                if found {
                    assert(key_of(after.eavs@[a]) == key_of(before.eavs@[a]));
                    assert(key_of(after.eavs@[b]) == key_of(before.eavs@[b]));
                } else {
                    let a0 = if a < i { a } else { a - 1 };
                    let b0 = if b < i { b } else { b - 1 };
                    if a != i && b != i {
                        assert(key_of(after.eavs@[a]) == key_of(before.eavs@[a0]));
                        assert(key_of(after.eavs@[b]) == key_of(before.eavs@[b0]));
                    } else if a == i {
                        assert(key_of(after.eavs@[b]) == key_of(before.eavs@[b0]));
                    } else {
                        assert(key_of(after.eavs@[a]) == key_of(before.eavs@[a0]));
                    }
                }
            }
            assert forall|k: Key| after.has(k) == (k == key || before.has(k)) by {
                if after.has(k) {
                    let a = after.place_of(k);
                    if a != i {
                        let a0 = if found || a < i { a } else { a - 1 };
                        assert(key_of(before.eavs@[a0]) == k);
                    }
                }
                if k == key {
                    assert(key_of(after.eavs@[i as int]) == k);
                } else if before.has(k) {
                    let b = before.place_of(k);
                    let b1 = if found || b < i { b } else { b + 1 };
                    assert(key_of(after.eavs@[b1]) == k);
                }
            }
            assert forall|k: Key| after.has(k) implies #[trigger] after@[k] == before@.insert(
                key,
                value@,
            )[k] by {
                let a = after.place_of(k);
                lemma_bag_entry(after, a);
                if a != i {
                    let a0 = if found || a < i { a } else { a - 1 };
                    assert(key_of(before.eavs@[a0]) == k);
                    lemma_bag_entry(before, a0);
                    lemma_bag_entry(after, i as int);
                }
            }
            assert(after@ =~= before@.insert(key, value@));
        }
    }
}

/// The bag after the pairs of `avs` have been set, one after the other, on
/// `entity`.
pub open spec fn created(
    map: Map<Key, ValueView>,
    entity: Seq<(Seq<char>, ValueView)>,
    avs: Seq<(Seq<char>, ValueView)>,
) -> Map<Key, ValueView>
    decreases avs.len(),
{
    if avs.len() == 0 {
        map
    } else {
        created(map, entity, avs.drop_last()).insert((entity, avs.last().0), avs.last().1)
    }
}

impl Bag {
    /// Makes the entity that has the given attributes and values, and sets
    /// each of them on it in the bag. Returns the entity.
    pub fn create(&mut self, avs: Vec<(Attribute, Value)>) -> (entity: Entity)
        requires
            old(self).wf(),
        ensures
            final(self).wf(),
            entity@ == crate::value::avs_view(avs@),
            final(self)@ == created(old(self)@, entity@, entity@),
    {
        let entity = Entity { avs: clone_pairs(&avs) };
        let ghost pairs = crate::value::avs_view(avs@);
        proof {
            crate::value::lemma_avs_view(avs@);
        }
        let ghost start = self@;
        let mut i: usize = 0;
        while i < avs.len()
            invariant
                i <= avs@.len(),
                self.wf(),
                entity@ == pairs,
                pairs.len() == avs@.len(),
                forall|k: int| 0 <= k < avs@.len() ==> #[trigger] pairs[k] == (avs@[k].0@, avs@[k].1@),
                self@ == created(start, pairs, pairs.take(i as int)),
            decreases avs@.len() - i,
        {
            let copy = Entity { avs: clone_pairs(&entity.avs) };
            let attribute = avs[i].0.clone();
            let value = clone_value(&avs[i].1);
            self.insert(copy, attribute, value);
            proof {
                assert(pairs.take(i + 1).drop_last() =~= pairs.take(i as int));
                assert(pairs.take(i + 1).last() == pairs[i as int]);
            }
            i += 1;
        }
        proof {
            assert(pairs.take(i as int) =~= pairs);
        }
        entity
    }
}

} // verus!
