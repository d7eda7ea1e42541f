use imp::ast::BlockAst;
use imp::bag::Bag;
use imp::compile::{compile, CompileError};
use imp::parse::read_statement;
use imp::plan::{Block, Constraint, Function};
use imp::program::block_ast;
use imp::runner::run_code;
use imp::solve::RunError;
use imp::value::{Entity, Value};

fn text(s: &str) -> Value {
    Value::String(s.to_string())
}

fn e1() -> Entity {
    Entity { avs: vec![("name".to_string(), text("a")), ("age".to_string(), Value::Integer(30))] }
}

fn e2() -> Entity {
    Entity { avs: vec![("name".to_string(), text("b")), ("age".to_string(), Value::Integer(40))] }
}

fn bag() -> Bag {
    let mut bag = Bag::new();
    bag.create(vec![("name".to_string(), text("a")), ("age".to_string(), Value::Integer(30))]);
    bag.create(vec![("name".to_string(), text("b")), ("age".to_string(), Value::Integer(40))]);
    bag
}

fn plan_of(source: &str) -> Block {
    let block = block_ast(source.as_bytes());
    for statement in block.statements.iter() {
        assert!(statement.is_ok(), "{:?}", statement);
    }
    compile(&block).unwrap()
}

fn names(plan: &Block) -> Vec<String> {
    match plan.constraints.last() {
        Some(Constraint::Debug(named)) => named.iter().map(|n| n.0.clone()).collect(),
        other => panic!("no debug at the end: {:?}", other),
    }
}

/// The result rows of a plan, each as its values in the order of `wanted`.
fn rows(plan: &Block, results: &Vec<Value>, wanted: &[&str]) -> Vec<Vec<Value>> {
    let names = names(plan);
    assert_eq!(names.len(), wanted.len());
    assert_eq!(results.len() % names.len(), 0);
    results
        .chunks(names.len())
        .map(|row| {
            wanted
                .iter()
                .map(|w| row[names.iter().position(|n| n == w).unwrap()].clone())
                .collect()
        })
        .collect()
}

#[test]
fn name_equals_constant_finds_the_entity() {
    let plan = plan_of("x.name = \"a\"");
    let (results, asserts) = plan.run(&bag()).unwrap();
    assert_eq!(names(&plan), vec!["x".to_string()]);
    assert_eq!(results, vec![Value::Entity(e1())]);
    assert_eq!(results[0].to_string(), "{name=\"a\", age=30}");
    assert_eq!(asserts.len(), 0);
}

#[test]
fn name_equals_variable_lists_both_in_order() {
    let plan = plan_of("x.name = y");
    let (results, asserts) = plan.run(&bag()).unwrap();
    assert_eq!(names(&plan), vec!["x".to_string(), "y".to_string()]);
    assert_eq!(results, vec![Value::Entity(e1()), text("a"), Value::Entity(e2()), text("b")]);
    assert_eq!(asserts.len(), 0);
}

#[test]
fn sum_with_an_unbound_variable_does_not_compile() {
    let block = block_ast("x.age = 30 + z".as_bytes());
    match compile(&block) {
        Err(CompileError::NoConstraints(slot)) => {
            assert_eq!(slot, 4);
            assert_eq!(CompileError::NoConstraints(slot).message(), "No constraints on slot 4");
        },
        other => panic!("unexpected: {:?}", other),
    }
    assert_eq!(
        run_code(&bag(), "x.age = 30 + z", 0),
        "Compile error: No constraints on slot 4\n\n"
    );
}

#[test]
fn age_equals_variable_and_variable_equals_constant() {
    let plan = plan_of("x.age = y\ny = 30");
    let (results, asserts) = plan.run(&bag()).unwrap();
    assert_eq!(
        rows(&plan, &results, &["x", "y"]),
        vec![vec![Value::Entity(e1()), Value::Integer(30)]]
    );
    assert_eq!(asserts.len(), 0);
}

#[test]
fn assert_statement_emits_one_triple() {
    let plan = plan_of("x.name = \"a\"\n+ x.nick = \"a\"");
    let (results, asserts) = plan.run(&bag()).unwrap();
    assert_eq!(results, vec![Value::Entity(e1())]);
    assert_eq!(asserts, vec![[Value::Entity(e1()), text("nick"), text("a")]]);
}

#[test]
fn sum_of_a_string_is_fatal() {
    let plan = plan_of("x.name = y\nz = y + 1");
    match plan.run(&bag()) {
        Err(RunError::TypeError(a, b)) => {
            assert_eq!(a, text("a"));
            assert_eq!(b, Value::Integer(1));
            assert_eq!(RunError::TypeError(a, b).message(), "Type error: \"a\" + 1");
        },
        other => panic!("unexpected: {:?}", other),
    }
    assert_eq!(
        run_code(&bag(), "x.name = y\nz = y + 1", 3),
        "Run error: Type error: \"a\" + 1\n\n"
    );
}

#[test]
fn sum_of_integers_is_computed_and_checked() {
    let plan = plan_of("x.age = y\nz = y + 1");
    let (results, _) = plan.run(&bag()).unwrap();
    assert_eq!(
        rows(&plan, &results, &["x", "y", "z"]),
        vec![
            vec![Value::Entity(e1()), Value::Integer(30), Value::Integer(31)],
            vec![Value::Entity(e2()), Value::Integer(40), Value::Integer(41)],
        ]
    );
    let plan = plan_of("x.age = y\n40 = y + 10");
    let (results, _) = plan.run(&bag()).unwrap();
    assert_eq!(
        rows(&plan, &results, &["x", "y"]),
        vec![vec![Value::Entity(e1()), Value::Integer(30)]]
    );
}

#[test]
fn sum_wraps_around() {
    let plan = plan_of("x = 9223372036854775807 + 1");
    let (results, _) = plan.run(&bag()).unwrap();
    assert_eq!(results, vec![Value::Integer(i64::MIN)]);
}

#[test]
fn constant_slots_come_before_joins() {
    let plan = plan_of("x.name = \"a\"");
    let first_join = plan.constraints.iter().position(|c| matches!(c, Constraint::Join(_, _)));
    let last_narrow = plan.constraints.iter().rposition(|c| matches!(c, Constraint::Narrow(_, _)));
    assert!(first_join.is_some());
    assert!(last_narrow.unwrap() < first_join.unwrap());
    assert_eq!(plan.variables[0], text("name"));
    assert_eq!(plan.variables[1], text("a"));
    assert_eq!(plan.row_orderings, vec![[1, 2, 0]]);
    match &plan.constraints[..] {
        [Constraint::Narrow((0, 1), 0), Constraint::Narrow((0, 2), 1), Constraint::Join(rowcols, 2), Constraint::Debug(named)] => {
            assert_eq!(rowcols, &vec![(0, 0)]);
            assert_eq!(named, &vec![("x".to_string(), 2)]);
        },
        other => panic!("unexpected plan: {:?}", other),
    }
}

#[test]
fn conflicting_constants_do_not_compile() {
    let block = block_ast("x = 1\nx = 2".as_bytes());
    match compile(&block) {
        Err(CompileError::Impossible(a, b)) => {
            assert_eq!(a, Value::Integer(2));
            assert_eq!(b, Value::Integer(1));
            assert_eq!(CompileError::Impossible(a, b).message(), "Impossible constraint: 2 = 1");
        },
        other => panic!("unexpected: {:?}", other),
    }
    let same = block_ast("x = 1\nx = 1".as_bytes());
    assert!(compile(&same).is_ok());
}

#[test]
fn unknown_functions_do_not_compile() {
    let block = block_ast("x = f(1, 2)".as_bytes());
    match compile(&block) {
        Err(CompileError::UnknownFunction(name, arity)) => {
            assert_eq!(name, "f");
            assert_eq!(arity, 2);
            assert_eq!(
                CompileError::UnknownFunction(name, arity).message(),
                "I don't know any function called \"f\" with 2 arguments"
            );
        },
        other => panic!("unexpected: {:?}", other),
    }
    let block = block_ast("x = +(1, 2, 3)".as_bytes());
    assert!(block.statements[0].is_err());
}

#[test]
fn statements_that_did_not_parse_are_skipped_by_the_compiler() {
    let (pattern, _) = read_statement("x.name = \"a\"".as_bytes()).unwrap();
    let block = BlockAst { statements: vec![Err("nothing".to_string()), Ok(pattern)] };
    let plan = compile(&block).unwrap();
    let (results, _) = plan.run(&bag()).unwrap();
    assert_eq!(results, vec![Value::Entity(e1())]);
}

#[test]
fn running_twice_gives_the_same() {
    let plan = plan_of("x.name = y\n+ x.seen = true");
    let first = plan.run(&bag()).unwrap();
    let second = plan.run(&bag()).unwrap();
    assert_eq!(first, second);
    assert_eq!(first.0.len(), 4);
    assert_eq!(first.1.len(), 2);
}

#[test]
fn join_finds_what_a_scan_of_all_pairs_finds() {
    let mut bag = bag();
    bag.create(vec![("name".to_string(), text("a")), ("age".to_string(), Value::Integer(50))]);
    bag.create(vec![("nick".to_string(), text("b"))]);
    let plan = plan_of("x.name = y.name\nx.age = a\ny.age = b");
    let (results, _) = plan.run(&bag).unwrap();
    let mut found = rows(&plan, &results, &["x", "y", "a", "b"]);
    let mut wanted: Vec<Vec<Value>> = vec![];
    for ((ex, ax), vx) in bag.eavs.iter().map(|((e, a), v)| ((e, a), v)) {
        for ((ey, ay), vy) in bag.eavs.iter().map(|((e, a), v)| ((e, a), v)) {
            if ax == "name" && ay == "name" && vx == vy {
                for ((ea, aa), va) in bag.eavs.iter().map(|((e, a), v)| ((e, a), v)) {
                    for ((eb, ab), vb) in bag.eavs.iter().map(|((e, a), v)| ((e, a), v)) {
                        if ea == ex && aa == "age" && eb == ey && ab == "age" {
                            wanted.push(vec![
                                Value::Entity(ex.clone()),
                                Value::Entity(ey.clone()),
                                va.clone(),
                                vb.clone(),
                            ]);
                        }
                    }
                }
            }
        }
    }
    let key = |row: &Vec<Value>| row.iter().map(|v| v.to_string()).collect::<Vec<_>>();
    found.sort_by_key(key);
    wanted.sort_by_key(key);
    assert_eq!(wanted.len(), 5);
    assert_eq!(found, wanted);
}

#[test]
fn variables_of_one_name_take_one_value() {
    let plan = plan_of("x.name = y\nz.name = y");
    let (results, _) = plan.run(&bag()).unwrap();
    for row in rows(&plan, &results, &["x", "y", "z"]) {
        assert_eq!(row[0], row[2]);
    }
    assert_eq!(results.len(), 6);
}

#[test]
fn asserts_of_a_branch_that_fails_later_are_kept() {
    let plan = Block {
        row_orderings: vec![[1, 0, 2]],
        variables: vec![text("age"), Value::Boolean(false), Value::Boolean(false)],
        constraints: vec![
            Constraint::Narrow((0, 1), 0),
            Constraint::Join(vec![(0, 0)], 1),
            Constraint::Join(vec![(0, 2)], 2),
            Constraint::Assert([1, 0, 2]),
            Constraint::Apply(2, true, Function::Add(2, 2)),
            Constraint::Debug(vec![("x".to_string(), 1), ("y".to_string(), 2)]),
        ],
    };
    let (results, asserts) = plan.run(&bag()).unwrap();
    assert_eq!(results.len(), 0);
    assert_eq!(
        asserts,
        vec![
            [Value::Entity(e1()), text("age"), Value::Integer(30)],
            [Value::Entity(e2()), text("age"), Value::Integer(40)],
        ]
    );
}

#[test]
fn a_join_over_two_columns_keeps_the_values_that_both_hold() {
    let mut bag = bag();
    bag.create(vec![("name".to_string(), text("c")), ("nick".to_string(), text("a"))]);
    let plan = plan_of("x.name = y.nick");
    let (results, _) = plan.run(&bag).unwrap();
    let found = rows(&plan, &results, &["x", "y"]);
    assert_eq!(found.len(), 1);
    assert_eq!(found[0][0], Value::Entity(e1()));
    assert_eq!(found[0][1].to_string(), "{name=\"c\", nick=\"a\"}");
}

#[test]
fn a_sum_is_computed_from_what_is_fixed_before_it() {
    let plan = plan_of("z = y + 1\nx.age = y");
    match plan.run(&bag()) {
        Err(RunError::TypeError(a, b)) => {
            assert_eq!(a, Value::Boolean(false));
            assert_eq!(b, Value::Integer(1));
        },
        other => panic!("unexpected: {:?}", other),
    }
}

#[test]
fn constants_and_dots_hold_in_every_result() {
    let plan = plan_of("x.name = n\nx.age = 40\ny.name = n");
    let (results, _) = plan.run(&bag()).unwrap();
    let found = rows(&plan, &results, &["x", "n", "y"]);
    assert_eq!(found, vec![vec![Value::Entity(e2()), text("b"), Value::Entity(e2())]]);
}
