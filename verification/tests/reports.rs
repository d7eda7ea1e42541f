use imp::bag::Bag;
use imp::runner::run_code;
use imp::value::Value;

fn text(s: &str) -> Value {
    Value::String(s.to_string())
}

fn bag() -> Bag {
    let mut bag = Bag::new();
    bag.create(vec![("name".to_string(), text("a")), ("age".to_string(), Value::Integer(30))]);
    bag.create(vec![("name".to_string(), text("b")), ("age".to_string(), Value::Integer(40))]);
    bag
}

#[test]
fn results_are_reported_row_by_row() {
    assert_eq!(
        run_code(&bag(), "x.name = y", 0),
        "Ok: 4 results, 0 asserts\n\n\
         x={name=\"a\", age=30}\ty=\"a\"\t\n\
         x={name=\"b\", age=40}\ty=\"b\"\t\n\
         \n\n"
    );
}

#[test]
fn asserts_are_reported() {
    assert_eq!(
        run_code(&bag(), "x.name = \"a\"\n+ x.nick = \"a\"", 0),
        "Ok: 1 results, 1 asserts\n\n\
         x={name=\"a\", age=30}\t\n\
         \n\
         + {name=\"a\", age=30}.nick = \"a\"\n\
         \n"
    );
}

#[test]
fn no_results_are_reported_as_none() {
    assert_eq!(run_code(&bag(), "x.name = \"c\"", 0), "Ok: 0 results, 0 asserts\n\n\n\n");
    assert_eq!(run_code(&bag(), "1 = 1", 0), "Ok: 0 results, 0 asserts\n\n\n");
}

#[test]
fn only_the_block_at_the_cursor_is_reported() {
    let source = "x.age = 30\n\nnonsense\n\nx.age = 40";
    assert_eq!(
        run_code(&bag(), source, 0),
        "Ok: 1 results, 0 asserts\n\nx={name=\"a\", age=30}\t\n\n\n"
    );
    assert_eq!(run_code(&bag(), source, 14), "Parse error: Not a statement\n\n");
    assert_eq!(
        run_code(&bag(), source, 25),
        "Ok: 1 results, 0 asserts\n\nx={name=\"b\", age=40}\t\n\n\n"
    );
    assert_eq!(run_code(&bag(), source, 11), "Nothing focused\n\n");
    assert_eq!(run_code(&bag(), source, 1000), "Nothing focused\n\n");
}

#[test]
fn errors_are_reported_by_kind() {
    assert_eq!(run_code(&bag(), "x = 1 2", 0), "Parse error: Remaining:  2\n\n");
    assert_eq!(
        run_code(&bag(), "x = 1\nx = 2", 0),
        "Compile error: Impossible constraint: 2 = 1\n\n"
    );
    assert_eq!(
        run_code(&bag(), "x = f(1)", 0),
        "Compile error: I don't know any function called \"f\" with 1 arguments\n\n"
    );
    assert_eq!(
        run_code(&bag(), "x.name = y\n1 = y + 1", 0),
        "Run error: Type error: \"a\" + 1\n\n"
    );
}
