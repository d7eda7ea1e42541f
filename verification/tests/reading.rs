use imp::ast::{ExprAst, FunctionAst, StatementAst};
use imp::lex::{read_boolean, read_integer, read_string, read_symbol, skip_digits, skip_spaces};
use imp::parse::{read_expr, read_statement};
use imp::program::{block_ast, code_ast};
use imp::value::Value;

fn var(name: &str) -> ExprAst {
    ExprAst::Variable(name.to_string())
}

fn text(s: &str) -> ExprAst {
    ExprAst::Constant(Value::String(s.to_string()))
}

fn number(i: i64) -> ExprAst {
    ExprAst::Constant(Value::Integer(i))
}

fn dot(e: ExprAst, a: &str) -> ExprAst {
    ExprAst::Dot(Box::new(e), Box::new(text(a)))
}

fn call(name: &str, args: Vec<ExprAst>) -> ExprAst {
    ExprAst::Function(FunctionAst { name: name.to_string(), args })
}

fn shown(e: &ExprAst) -> String {
    format!("{:?}", e)
}

fn expr(source: &str) -> ExprAst {
    let (e, end) = read_expr(source.as_bytes(), 0).unwrap();
    assert_eq!(end, source.len());
    e
}

#[test]
fn runs_of_spaces_and_digits_are_skipped() {
    assert_eq!(skip_spaces(b" \t x", 0), 3);
    assert_eq!(skip_spaces(b" \t x", 3), 3);
    assert_eq!(skip_spaces(b"  ", 0), 2);
    assert_eq!(skip_spaces(b"  ", 2), 2);
    assert_eq!(skip_spaces(b"\n ", 0), 0);
    assert_eq!(skip_digits(b"123a", 0), 3);
    assert_eq!(skip_digits(b"123a", 1), 3);
    assert_eq!(skip_digits(b"a123", 0), 0);
    assert_eq!(skip_digits(b"", 0), 0);
}

#[test]
fn symbols_begin_with_a_letter() {
    assert_eq!(read_symbol(b"name", 0), Some(("name".to_string(), 4)));
    assert_eq!(read_symbol(b"a-b2 c", 0), Some(("a-b2".to_string(), 4)));
    assert_eq!(read_symbol(b"x.y", 0), Some(("x".to_string(), 1)));
    assert_eq!(read_symbol(b"x.y", 2), Some(("y".to_string(), 3)));
    assert_eq!(read_symbol(b"2a", 0), None);
    assert_eq!(read_symbol(b"-a", 0), None);
    assert_eq!(read_symbol(b"", 0), None);
    assert_eq!(read_symbol(b"_a", 0), None);
}

#[test]
fn literals_are_read() {
    assert_eq!(read_integer(b"30", 0), Some((30, 2)));
    assert_eq!(read_integer(b"007x", 0), Some((7, 3)));
    assert_eq!(read_integer(b"9223372036854775807", 0), Some((i64::MAX, 19)));
    assert_eq!(read_integer(b"9223372036854775808", 0), None);
    assert_eq!(read_integer(b"x", 0), None);
    assert_eq!(read_boolean(b"true", 0), Some((true, 4)));
    assert_eq!(read_boolean(b"false!", 0), Some((false, 5)));
    assert_eq!(read_boolean(b"tru", 0), None);
    assert_eq!(read_string(b"\"a b\" c", 0), Some(("a b".to_string(), 5)));
    assert_eq!(read_string(b"\"\"", 0), Some(("".to_string(), 2)));
    assert_eq!(read_string("\"é\"".as_bytes(), 0), Some(("é".to_string(), 4)));
    assert_eq!(read_string(b"\"abc", 0), None);
    assert_eq!(read_string(b"abc\"", 0), None);
    assert_eq!(read_string(&[0x22, 0xff, 0x22], 0), None);
}

#[test]
fn expressions_are_read() {
    assert_eq!(shown(&expr("x")), shown(&var("x")));
    assert_eq!(shown(&expr("30")), shown(&number(30)));
    assert_eq!(shown(&expr("\"a\"")), shown(&text("a")));
    assert_eq!(shown(&expr("true")), shown(&ExprAst::Constant(Value::Boolean(true))));
    assert_eq!(shown(&expr("x.name")), shown(&dot(var("x"), "name")));
    assert_eq!(shown(&expr("x.a.b")), shown(&dot(dot(var("x"), "a"), "b")));
    assert_eq!(shown(&expr("x + 1")), shown(&call("+", vec![var("x"), number(1)])));
    assert_eq!(shown(&expr("x+1")), shown(&call("+", vec![var("x"), number(1)])));
    assert_eq!(
        shown(&expr("x.a + y.b + 1")),
        shown(&call("+", vec![dot(var("x"), "a"), call("+", vec![dot(var("y"), "b"), number(1)])]))
    );
    assert_eq!(shown(&expr("f(x)")), shown(&call("f", vec![var("x")])));
    assert_eq!(shown(&expr("f(x, 1,y)")), shown(&call("f", vec![var("x"), number(1), var("y")])));
    assert_eq!(shown(&expr("( x )")), shown(&var("x")));
    assert_eq!(shown(&expr("(x + 1).a")), shown(&dot(call("+", vec![var("x"), number(1)]), "a")));
    assert_eq!(shown(&expr("f(g(1)).k")), shown(&dot(call("f", vec![call("g", vec![number(1)])]), "k")));
    assert!(read_expr(b"", 0).is_none());
    assert!(read_expr(b"=", 0).is_none());
    assert_eq!(read_expr(b"f()", 0).map(|r| r.1), Some(1));
    assert_eq!(read_expr(b"f(1,)", 0).map(|r| r.1), Some(1));
    assert_eq!(read_expr(b"x.", 0).map(|r| r.1), Some(1));
    assert_eq!(read_expr(b"x +", 0).map(|r| r.1), Some(1));
    assert_eq!(read_expr(b"truex", 0).map(|r| r.1), Some(4));
}

#[test]
fn statements_are_read() {
    match read_statement(b"x.name = \"a\"") {
        Some((StatementAst::Pattern([left, right]), 12)) => {
            assert_eq!(shown(&left), shown(&dot(var("x"), "name")));
            assert_eq!(shown(&right), shown(&text("a")));
        },
        other => panic!("unexpected: {:?}", other),
    }
    match read_statement(b"x=y") {
        Some((StatementAst::Pattern([left, right]), 3)) => {
            assert_eq!(shown(&left), shown(&var("x")));
            assert_eq!(shown(&right), shown(&var("y")));
        },
        other => panic!("unexpected: {:?}", other),
    }
    match read_statement(b"+ x.nick = \"a\"") {
        Some((StatementAst::Assert([e, a, v]), 14)) => {
            assert_eq!(shown(&e), shown(&var("x")));
            assert_eq!(shown(&a), shown(&text("nick")));
            assert_eq!(shown(&v), shown(&text("a")));
        },
        other => panic!("unexpected: {:?}", other),
    }
    assert!(read_statement(b"+x.nick = 1").is_none());
    assert!(read_statement(b"+ x = 1").is_none());
    assert!(read_statement(b"x").is_none());
    assert!(read_statement(b"x = ").is_none());
    assert!(read_statement(b"").is_none());
    assert_eq!(read_statement(b"x = 1 2").map(|r| r.1), Some(5));
}

#[test]
fn blocks_are_read_line_by_line() {
    let block = block_ast(b"x.name = y\nnonsense\ny = 1 2\n");
    assert_eq!(block.statements.len(), 4);
    assert!(block.statements[0].is_ok());
    assert_eq!(*block.statements[1].as_ref().err().unwrap(), "Not a statement");
    assert_eq!(*block.statements[2].as_ref().err().unwrap(), "Remaining:  2");
    assert_eq!(*block.statements[3].as_ref().err().unwrap(), "Not a statement");
    assert_eq!(block_ast(b"").statements.len(), 1);
    assert_eq!(block_ast(b"x = 1").statements.len(), 1);
    assert!(block_ast(b"x = 1").statements[0].is_ok());
}

#[test]
fn the_cursor_picks_a_block() {
    let source = "x = 1\n\ny = 2\n\n\nz = 3";
    let lengths: Vec<usize> =
        code_ast(source, 0).blocks.iter().map(|b| b.statements.len()).collect();
    assert_eq!(lengths, vec![1, 1, 2]);
    let focus = |cursor: i64| code_ast(source, cursor).focused;
    assert_eq!(focus(-5), Some(0));
    assert_eq!(focus(0), Some(0));
    assert_eq!(focus(5), Some(0));
    assert_eq!(focus(6), None);
    assert_eq!(focus(7), Some(1));
    assert_eq!(focus(12), Some(1));
    assert_eq!(focus(13), None);
    assert_eq!(focus(14), Some(2));
    assert_eq!(focus(20), Some(2));
    assert_eq!(focus(21), None);
    assert_eq!(focus(i64::MAX), None);
    assert_eq!(focus(i64::MIN), Some(0));
    assert_eq!(code_ast("", 0).blocks.len(), 1);
    assert_eq!(code_ast("", 0).focused, Some(0));
    assert_eq!(code_ast("", 1).focused, None);
}
