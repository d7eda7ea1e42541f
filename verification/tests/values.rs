use imp::bag::Bag;
use imp::index::{build_index, lift, sort_triples, triple_le_exec};
use imp::order::Order;
use imp::value::{compare_bytes, compare_text, compare_values, Entity, Value};

fn text(s: &str) -> Value {
    Value::String(s.to_string())
}

fn entity(avs: Vec<(&str, Value)>) -> Entity {
    Entity { avs: avs.into_iter().map(|(a, v)| (a.to_string(), v)).collect() }
}

#[test]
fn values_are_ordered_by_variant_first() {
    let ladder = vec![
        Value::Boolean(false),
        Value::Boolean(true),
        Value::Integer(i64::MIN),
        Value::Integer(-1),
        Value::Integer(0),
        Value::Integer(i64::MAX),
        text(""),
        text("a"),
        text("ab"),
        text("b"),
        Value::Entity(entity(vec![])),
        Value::Entity(entity(vec![("a", Value::Boolean(true))])),
        Value::Entity(entity(vec![("a", Value::Integer(0))])),
        Value::Entity(entity(vec![("a", Value::Integer(0)), ("b", Value::Integer(0))])),
        Value::Entity(entity(vec![("b", Value::Boolean(false))])),
    ];
    for i in 0..ladder.len() {
        for j in 0..ladder.len() {
            let expected = if i < j {
                Order::Less
            } else if i == j {
                Order::Equal
            } else {
                Order::Greater
            };
            assert_eq!(compare_values(&ladder[i], &ladder[j]), expected, "{} {}", i, j);
            assert_eq!(ladder[i] == ladder[j], i == j);
        }
    }
}

#[test]
fn texts_are_ordered_by_their_bytes() {
    assert_eq!(compare_text(&"Z".to_string(), &"a".to_string()), Order::Less);
    assert_eq!(compare_text(&"a".to_string(), &"é".to_string()), Order::Less);
    assert_eq!(compare_text(&"é".to_string(), &"z".to_string()), Order::Greater);
    assert_eq!(compare_text(&"abc".to_string(), &"abc".to_string()), Order::Equal);
    assert_eq!(compare_bytes(&[1, 2], &[1, 2, 0]), Order::Less);
    assert_eq!(compare_bytes(&[2], &[1, 2, 0]), Order::Greater);
    assert_eq!(compare_bytes(&[], &[]), Order::Equal);
}

#[test]
fn values_are_written_out() {
    assert_eq!(Value::Boolean(true).to_string(), "true");
    assert_eq!(Value::Boolean(false).to_string(), "false");
    assert_eq!(Value::Integer(0).to_string(), "0");
    assert_eq!(Value::Integer(30).to_string(), "30");
    assert_eq!(Value::Integer(-7).to_string(), "-7");
    assert_eq!(Value::Integer(i64::MAX).to_string(), "9223372036854775807");
    assert_eq!(Value::Integer(i64::MIN).to_string(), "-9223372036854775808");
    assert_eq!(text("a").to_string(), "\"a\"");
    assert_eq!(text("say \"hi\"\n").to_string(), "\"say \\\"hi\\\"\\n\"");
    assert_eq!(Value::Entity(entity(vec![])).to_string(), "{}");
    assert_eq!(
        Value::Entity(entity(vec![("name", text("a")), ("age", Value::Integer(30))])).to_string(),
        "{name=\"a\", age=30}"
    );
    assert_eq!(
        Value::Entity(entity(vec![("in", Value::Entity(entity(vec![("k", Value::Boolean(true))])))]))
            .to_string(),
        "{in={k=true}}"
    );
}

#[test]
fn values_give_up_their_payload() {
    assert_eq!(text("a").as_str(), Some("a"));
    assert_eq!(Value::Integer(1).as_str(), None);
    assert_eq!(Value::Integer(1).as_i64(), Some(1));
    assert_eq!(text("a").as_i64(), None);
    assert_eq!(Value::Boolean(true).as_bool(), Some(true));
    assert_eq!(Value::Integer(1).as_bool(), None);
    assert_eq!(Value::from(true), Value::Boolean(true));
    assert_eq!(Value::from(3i64), Value::Integer(3));
    assert_eq!(Value::from("a".to_string()), text("a"));
    assert_eq!(Value::from("a"), text("a"));
    assert!(Value::Boolean(true) == true);
    assert!(Value::Integer(3) == 3i64);
    assert!(!(Value::Integer(3) == 4i64));
    assert!(text("a") == *"a");
    assert!(Value::Entity(entity(vec![])) == entity(vec![]));
    assert!(!(text("a") == entity(vec![])));
}

#[test]
fn clones_are_equal() {
    let v = Value::Entity(entity(vec![("name", text("a")), ("age", Value::Integer(30))]));
    assert_eq!(v.clone(), v);
    let e = entity(vec![("name", text("a"))]);
    assert_eq!(e.clone(), e);
}

#[test]
fn bag_keeps_one_value_for_each_entity_and_attribute() {
    let e = entity(vec![("name", text("a"))]);
    let f = entity(vec![("name", text("b"))]);
    let mut bag = Bag::new();
    bag.insert(f.clone(), "name".to_string(), text("b"));
    bag.insert(e.clone(), "name".to_string(), text("a"));
    bag.insert(e.clone(), "age".to_string(), Value::Integer(1));
    bag.insert(e.clone(), "age".to_string(), Value::Integer(2));
    assert_eq!(bag.eavs.len(), 3);
    assert_eq!(bag.eavs[0], ((e.clone(), "age".to_string()), Value::Integer(2)));
    assert_eq!(bag.eavs[1], ((e.clone(), "name".to_string()), text("a")));
    assert_eq!(bag.eavs[2], ((f.clone(), "name".to_string()), text("b")));
}

#[test]
fn create_sets_every_pair_on_the_new_entity() {
    let mut bag = Bag::new();
    let made = bag.create(vec![("name".to_string(), text("a")), ("age".to_string(), Value::Integer(30))]);
    assert_eq!(made, entity(vec![("name", text("a")), ("age", Value::Integer(30))]));
    assert_eq!(bag.eavs.len(), 2);
    assert_eq!(bag.eavs[0], ((made.clone(), "age".to_string()), Value::Integer(30)));
    assert_eq!(bag.eavs[1], ((made.clone(), "name".to_string()), text("a")));
    let twice = bag.create(vec![("k".to_string(), Value::Integer(1)), ("k".to_string(), Value::Integer(2))]);
    assert_eq!(bag.eavs.len(), 3);
    assert!(bag.eavs.contains(&((twice, "k".to_string()), Value::Integer(2))));
}

#[test]
fn triples_are_sorted_lexicographically() {
    let sorted = sort_triples(vec![
        [Value::Integer(2), text("b"), Value::Boolean(true)],
        [Value::Integer(1), text("z"), Value::Boolean(true)],
        [Value::Integer(2), text("a"), Value::Boolean(true)],
        [Value::Integer(2), text("a"), Value::Boolean(false)],
        [Value::Integer(1), text("z"), Value::Boolean(true)],
    ]);
    assert_eq!(
        sorted,
        vec![
            [Value::Integer(1), text("z"), Value::Boolean(true)],
            [Value::Integer(1), text("z"), Value::Boolean(true)],
            [Value::Integer(2), text("a"), Value::Boolean(false)],
            [Value::Integer(2), text("a"), Value::Boolean(true)],
            [Value::Integer(2), text("b"), Value::Boolean(true)],
        ]
    );
    assert!(triple_le_exec(&sorted[0], &sorted[1]));
    assert!(triple_le_exec(&sorted[1], &sorted[2]));
    assert!(!triple_le_exec(&sorted[2], &sorted[1]));
    assert_eq!(sort_triples(vec![]).len(), 0);
}

#[test]
fn index_holds_the_sorted_triples_under_their_own_columns() {
    let mut bag = Bag::new();
    let e = bag.create(vec![("name".to_string(), text("a")), ("age".to_string(), Value::Integer(30))]);
    let f = bag.create(vec![("name".to_string(), text("b")), ("age".to_string(), Value::Integer(40))]);
    let eavs = lift(&bag);
    assert_eq!(eavs.len(), 4);
    for ordering in [[0, 1, 2], [0, 2, 1], [1, 0, 2], [1, 2, 0], [2, 0, 1], [2, 1, 0]] {
        let index = build_index(&eavs, &ordering);
        let mut permuted: Vec<[Value; 3]> = eavs
            .iter()
            .map(|t| [t[ordering[0]].clone(), t[ordering[1]].clone(), t[ordering[2]].clone()])
            .collect();
        permuted.sort_by(|a, b| {
            if triple_le_exec(a, b) && triple_le_exec(b, a) {
                std::cmp::Ordering::Equal
            } else if triple_le_exec(a, b) {
                std::cmp::Ordering::Less
            } else {
                std::cmp::Ordering::Greater
            }
        });
        for k in 0..4 {
            assert_eq!(index[0].len(), 4);
            let row = [index[0][k].clone(), index[1][k].clone(), index[2][k].clone()];
            let back = [row[ordering[0]].clone(), row[ordering[1]].clone(), row[ordering[2]].clone()];
            assert_eq!(back, permuted[k]);
        }
    }
    let by_attribute = build_index(&eavs, &[1, 2, 0]);
    assert_eq!(by_attribute[1], vec![text("age"), text("age"), text("name"), text("name")]);
    assert_eq!(
        by_attribute[2],
        vec![Value::Integer(30), Value::Integer(40), text("a"), text("b")]
    );
    assert_eq!(
        by_attribute[0],
        vec![
            Value::Entity(e.clone()),
            Value::Entity(f.clone()),
            Value::Entity(e.clone()),
            Value::Entity(f.clone())
        ]
    );
}
