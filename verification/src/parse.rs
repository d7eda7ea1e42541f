//! The grammar of the surface language: statements, expressions and
//! values, read from the bytes of one line.

use vstd::prelude::*;
use crate::ast::{lemma_exprs_view, exprs_view, ExprAst, ExprView, FunctionAst, StatementAst, StatementView};
use crate::lex::{
    at, boolean, integer, is_at, read_boolean, read_integer, read_string, read_symbol, skip_spaces,
    space_run, string, symbol,
};
use crate::value::{Value, ValueView};

verus! {

/// The value literal at `pos`: an integer, a boolean or a text.
pub open spec fn value(input: Seq<u8>, pos: int) -> Option<(ValueView, int)> {
    match integer(input, pos) {
        Some((i, p)) => Some((ValueView::Integer(i), p)),
        None => match boolean(input, pos) {
            Some((b, p)) => Some((ValueView::Boolean(b), p)),
            None => match string(input, pos) {
                Some((s, p)) => Some((ValueView::String(s), p)),
                None => None,
            },
        },
    }
}

/// The expression `e`, followed by the attributes that are taken of it at
/// `pos`: each `.symbol` makes a `Dot` of what stands before it.
pub open spec fn dots(input: Seq<u8>, pos: int, e: ExprView) -> (ExprView, int)
    decreases input.len() - pos,
{
    if at(input, pos, 0x2E) {
        match symbol(input, pos + 1) {
            Some((a, q)) => if pos < q <= input.len() {
                dots(
                    input,
                    q,
                    ExprView::Dot(
                        Box::new(e),
                        Box::new(ExprView::Constant(ValueView::String(a))),
                    ),
                )
            } else {
                (e, pos)
            },
            None => (e, pos),
        }
    } else {
        (e, pos)
    }
}

/// The expression at `pos`: a simple expression, the attributes taken of
/// it, and at most one `+` with the expression that follows it.
pub open spec fn expr(input: Seq<u8>, pos: int) -> Option<(ExprView, int)>
    decreases input.len() - pos, 3int,
{
    match simple(input, pos) {
        None => None,
        Some((e, p)) => if pos < p <= input.len() {
            let (left, p2) = dots(input, p, e);
            if p <= p2 <= input.len() {
                match infix(input, p2) {
                    Some((right, q)) => Some((ExprView::Function("+"@, seq![left, right]), q)),
                    None => Some((left, p2)),
                }
            } else {
                None
            }
        } else {
            None
        },
    }
}

/// What follows an infix `+` at `pos`: optional spaces, the sign, optional
/// spaces and an expression.
pub open spec fn infix(input: Seq<u8>, pos: int) -> Option<(ExprView, int)>
    decreases input.len() - pos, 0int,
{
    let p = pos + space_run(input, pos);
    if p >= pos && at(input, p, 0x2B) {
        let q = p + 1 + space_run(input, p + 1);
        if p < q <= input.len() {
            expr(input, q)
        } else {
            None
        }
    } else {
        None
    }
}

/// The simple expression at `pos`: a function call, a value, a variable or
/// an expression in parentheses, whichever is found first in this order.
pub open spec fn simple(input: Seq<u8>, pos: int) -> Option<(ExprView, int)>
    decreases input.len() - pos, 2int,
{
    match call(input, pos) {
        Some(found) => Some(found),
        None => match value(input, pos) {
            Some((v, p)) => Some((ExprView::Constant(v), p)),
            None => match symbol(input, pos) {
                Some((name, p)) => Some((ExprView::Variable(name), p)),
                None => paren(input, pos),
            },
        },
    }
}

/// The function call at `pos`: a symbol, and between parentheses one or
/// more expressions with commas between them.
pub open spec fn call(input: Seq<u8>, pos: int) -> Option<(ExprView, int)>
    decreases input.len() - pos, 1int,
{
    match symbol(input, pos) {
        Some((name, p)) => if p > pos && at(input, p, 0x28) {
            match expr(input, p + 1) {
                Some((first, q)) => if p < q <= input.len() {
                    let (list, end) = more_args(input, q, seq![first]);
                    if at(input, end, 0x29) {
                        Some((ExprView::Function(name, list), end + 1))
                    } else {
                        None
                    }
                } else {
                    None
                },
                None => None,
            }
        } else {
            None
        },
        None => None,
    }
}

/// The arguments `list`, followed by those that stand at `pos`: each after
/// a comma and optional spaces. A comma that no expression follows is not
/// taken.
pub open spec fn more_args(input: Seq<u8>, pos: int, list: Seq<ExprView>) -> (Seq<ExprView>, int)
    decreases input.len() - pos, 0int,
{
    if at(input, pos, 0x2C) {
        let p = pos + 1 + space_run(input, pos + 1);
        if pos < p <= input.len() {
            match expr(input, p) {
                Some((e, q)) => if p < q <= input.len() {
                    more_args(input, q, list.push(e))
                } else {
                    (list, pos)
                },
                None => (list, pos),
            }
        } else {
            (list, pos)
        }
    } else {
        (list, pos)
    }
}

/// The expression in parentheses at `pos`, with optional spaces inside the
/// parentheses.
pub open spec fn paren(input: Seq<u8>, pos: int) -> Option<(ExprView, int)>
    decreases input.len() - pos, 1int,
{
    if at(input, pos, 0x28) {
        let p = pos + 1 + space_run(input, pos + 1);
        if pos < p <= input.len() {
            match expr(input, p) {
                Some((e, q)) => {
                    let end = q + space_run(input, q);
                    if at(input, end, 0x29) {
                        Some((e, end + 1))
                    } else {
                        None
                    }
                },
                None => None,
            }
        } else {
            None
        }
    } else {
        None
    }
}

/// An equals sign at `pos` with optional spaces around it; gives the
/// position behind it.
pub open spec fn equals(input: Seq<u8>, pos: int) -> Option<int> {
    let p = pos + space_run(input, pos);
    if at(input, p, 0x3D) {
        Some(p + 1 + space_run(input, p + 1))
    } else {
        None
    }
}

/// The assert statement with which the input begins: a plus sign, spaces,
/// a simple expression, a dot and a symbol, an equals sign and an
/// expression.
pub open spec fn assert_statement(input: Seq<u8>) -> Option<(StatementView, int)> {
    if at(input, 0, 0x2B) && space_run(input, 1) > 0 {
        match simple(input, 1 + space_run(input, 1)) {
            Some((e, p)) => if at(input, p, 0x2E) {
                match symbol(input, p + 1) {
                    Some((a, q)) => match equals(input, q) {
                        Some(r) => match expr(input, r) {
                            Some((v, end)) => Some(
                                (
                                    StatementView::Assert(
                                        e,
                                        ExprView::Constant(ValueView::String(a)),
                                        v,
                                    ),
                                    end,
                                ),
                            ),
                            None => None,
                        },
                        None => None,
                    },
                    None => None,
                }
            } else {
                None
            },
            None => None,
        }
    } else {
        None
    }
}

/// The pattern statement with which the input begins: an expression, an
/// equals sign and an expression.
pub open spec fn pattern_statement(input: Seq<u8>) -> Option<(StatementView, int)> {
    match expr(input, 0) {
        Some((left, p)) => match equals(input, p) {
            Some(q) => match expr(input, q) {
                Some((right, end)) => Some((StatementView::Pattern(left, right), end)),
                None => None,
            },
            None => None,
        },
        None => None,
    }
}

/// The statement with which the input begins: an assert statement, or else
/// a pattern statement.
pub open spec fn statement(input: Seq<u8>) -> Option<(StatementView, int)> {
    match assert_statement(input) {
        Some(found) => Some(found),
        None => pattern_statement(input),
    }
}

/// Reads the value literal at `pos`.
pub fn read_value(input: &[u8], pos: usize) -> (r: Option<(Value, usize)>)
    requires
        pos <= input@.len(),
    ensures
        match value(input@, pos as int) {
            Some((v, p)) => r matches Some((x, q)) && x@ == v && q == p && pos < q <= input@.len(),
            None => r is None,
        },
{
    match read_integer(input, pos) {
        Some((i, p)) => {
            let v = Value::Integer(i);
            assert(v@ == ValueView::Integer(i));
            Some((v, p))
        },
        None => match read_boolean(input, pos) {
            Some((b, p)) => {
                let v = Value::Boolean(b);
                assert(v@ == ValueView::Boolean(b));
                Some((v, p))
            },
            None => match read_string(input, pos) {
                Some((s, p)) => {
                    let v = Value::String(s);
                    assert(v@ == ValueView::String(s@));
                    Some((v, p))
                },
                None => None,
            },
        },
    }
}

/// Reads the attributes taken of `e` at `pos`.
pub fn read_dots(input: &[u8], pos: usize, e: ExprAst) -> (r: (ExprAst, usize))
    requires
        pos <= input@.len(),
    ensures
        r.0@ == dots(input@, pos as int, e@).0,
        r.1 == dots(input@, pos as int, e@).1,
        pos <= r.1 <= input@.len(),
    decreases input@.len() - pos,
{
    if is_at(input, pos, 0x2E) {
        match read_symbol(input, pos + 1) {
            Some((a, q)) => {
                let ghost ev = e@;
                let text = Value::String(a);
                assert(text@ == ValueView::String(a@));
                let attribute = ExprAst::Constant(text);
                assert(attribute@ == ExprView::Constant(ValueView::String(a@)));
                let whole = ExprAst::Dot(Box::new(e), Box::new(attribute));
                assert(whole@ == ExprView::Dot(
                    Box::new(ev),
                    Box::new(ExprView::Constant(ValueView::String(a@))),
                ));
                read_dots(input, q, whole)
            },
            None => (e, pos),
        }
    } else {
        (e, pos)
    }
}

/// Reads the expression at `pos`.
pub fn read_expr(input: &[u8], pos: usize) -> (r: Option<(ExprAst, usize)>)
    requires
        pos <= input@.len(),
    ensures
        match expr(input@, pos as int) {
            Some((e, p)) => r matches Some((x, q)) && x@ == e && q == p && pos < q <= input@.len(),
            None => r is None,
        },
    decreases input@.len() - pos, 3int,
{
    match read_simple(input, pos) {
        None => None,
        Some((e, p)) => {
            let (left, p2) = read_dots(input, p, e);
            match read_infix(input, p2) {
                Some((right, q)) => {
                    let mut args: Vec<ExprAst> = Vec::new();
                    let ghost lv = left@;
                    let ghost rv = right@;
                    args.push(left);
                    args.push(right);
                    proof {
                        lemma_exprs_view(args@);
                        assert(exprs_view(args@) =~= seq![lv, rv]);
                    }
                    Some((ExprAst::Function(FunctionAst { name: "+".to_owned(), args }), q))
                },
                None => Some((left, p2)),
            }
        },
    }
}

/// Reads what follows an infix `+` at `pos`.
pub fn read_infix(input: &[u8], pos: usize) -> (r: Option<(ExprAst, usize)>)
    requires
        pos <= input@.len(),
    ensures
        match infix(input@, pos as int) {
            Some((e, p)) => r matches Some((x, q)) && x@ == e && q == p && pos < q <= input@.len(),
            None => r is None,
        },
    decreases input@.len() - pos, 0int,
{
    let p = skip_spaces(input, pos);
    if is_at(input, p, 0x2B) {
        let q = skip_spaces(input, p + 1);
        read_expr(input, q)
    } else {
        None
    }
}

/// Reads the simple expression at `pos`.
pub fn read_simple(input: &[u8], pos: usize) -> (r: Option<(ExprAst, usize)>)
    requires
        pos <= input@.len(),
    ensures
        match simple(input@, pos as int) {
            Some((e, p)) => r matches Some((x, q)) && x@ == e && q == p && pos < q <= input@.len(),
            None => r is None,
        },
    decreases input@.len() - pos, 2int,
{
    match read_call(input, pos) {
        Some(found) => Some(found),
        None => match read_value(input, pos) {
            Some((v, p)) => Some((ExprAst::Constant(v), p)),
            None => match read_symbol(input, pos) {
                Some((name, p)) => Some((ExprAst::Variable(name), p)),
                None => read_paren(input, pos),
            },
        },
    }
}

/// Reads the function call at `pos`.
pub fn read_call(input: &[u8], pos: usize) -> (r: Option<(ExprAst, usize)>)
    requires
        pos <= input@.len(),
    ensures
        match call(input@, pos as int) {
            Some((e, p)) => r matches Some((x, q)) && x@ == e && q == p && pos < q <= input@.len(),
            None => r is None,
        },
    decreases input@.len() - pos, 1int,
{
    match read_symbol(input, pos) {
        Some((name, p)) => {
            if !is_at(input, p, 0x28) {
                return None;
            }
            match read_expr(input, p + 1) {
                Some((first, q)) => {
                    let mut args: Vec<ExprAst> = Vec::new();
                    let ghost fv = first@;
                    args.push(first);
                    proof {
                        lemma_exprs_view(args@);
                        assert(exprs_view(args@) =~= seq![fv]);
                    }
                    let end = read_more_args(input, q, &mut args);
                    if is_at(input, end, 0x29) {
                        Some((ExprAst::Function(FunctionAst { name, args }), end + 1))
                    } else {
                        None
                    }
                },
                None => None,
            }
        },
        None => None,
    }
}

/// Reads the arguments that follow those in `args` at `pos`, appends them
/// and returns the position behind the last.
pub fn read_more_args(input: &[u8], pos: usize, args: &mut Vec<ExprAst>) -> (end: usize)
    requires
        pos <= input@.len(),
    ensures
        exprs_view(final(args)@) == more_args(input@, pos as int, exprs_view(old(args)@)).0,
        end == more_args(input@, pos as int, exprs_view(old(args)@)).1,
        pos <= end <= input@.len(),
    decreases input@.len() - pos, 0int,
{
    if is_at(input, pos, 0x2C) {
        let p = skip_spaces(input, pos + 1);
        match read_expr(input, p) {
            Some((e, q)) => {
                let ghost before = exprs_view(args@);
                let ghost ev = e@;
                proof {
                    lemma_exprs_view(args@);
                }
                args.push(e);
                proof {
                    lemma_exprs_view(args@);
                    assert(exprs_view(args@) =~= before.push(ev));
                }
                read_more_args(input, q, args)
            },
            None => pos,
        }
    } else {
        pos
    }
}

/// Reads the expression in parentheses at `pos`.
pub fn read_paren(input: &[u8], pos: usize) -> (r: Option<(ExprAst, usize)>)
    requires
        pos <= input@.len(),
    ensures
        match paren(input@, pos as int) {
            Some((e, p)) => r matches Some((x, q)) && x@ == e && q == p && pos < q <= input@.len(),
            None => r is None,
        },
    decreases input@.len() - pos, 1int,
{
    if !is_at(input, pos, 0x28) {
        return None;
    }
    let p = skip_spaces(input, pos + 1);
    match read_expr(input, p) {
        Some((e, q)) => {
            let end = skip_spaces(input, q);
            if is_at(input, end, 0x29) {
                Some((e, end + 1))
            } else {
                None
            }
        },
        None => None,
    }
}

/// Reads an equals sign with optional spaces around it.
pub fn read_equals(input: &[u8], pos: usize) -> (r: Option<usize>)
    requires
        pos <= input@.len(),
    ensures
        match equals(input@, pos as int) {
            Some(p) => r matches Some(q) && q == p && pos < q <= input@.len(),
            None => r is None,
        },
{
    let p = skip_spaces(input, pos);
    if is_at(input, p, 0x3D) {
        Some(skip_spaces(input, p + 1))
    } else {
        None
    }
}

/// Reads the statement with which the input begins, and returns it with
/// the position behind it.
pub fn read_statement(input: &[u8]) -> (r: Option<(StatementAst, usize)>)
    ensures
        match statement(input@) {
            Some((s, p)) => r matches Some((x, q)) && x@ == s && q == p && q <= input@.len(),
            None => r is None,
        },
{
    match read_assert(input) {
        Some(found) => Some(found),
        None => match read_expr(input, 0) {
            Some((left, p)) => match read_equals(input, p) {
                Some(q) => match read_expr(input, q) {
                    Some((right, end)) => Some((StatementAst::Pattern([left, right]), end)),
                    None => None,
                },
                None => None,
            },
            None => None,
        },
    }
}

/// Reads the assert statement with which the input begins.
pub fn read_assert(input: &[u8]) -> (r: Option<(StatementAst, usize)>)
    ensures
        match assert_statement(input@) {
            Some((s, p)) => r matches Some((x, q)) && x@ == s && q == p && q <= input@.len(),
            None => r is None,
        },
{
    if !is_at(input, 0, 0x2B) {
        return None;
    }
    let start = skip_spaces(input, 1);
    if start == 1 {
        return None;
    }
    match read_simple(input, start) {
        Some((e, p)) => {
            if !is_at(input, p, 0x2E) {
                return None;
            }
            match read_symbol(input, p + 1) {
                Some((a, q)) => match read_equals(input, q) {
                    Some(r) => match read_expr(input, r) {
                        Some((v, end)) => {
                            let text = Value::String(a);
                            assert(text@ == ValueView::String(a@));
                            let attribute = ExprAst::Constant(text);
                            assert(attribute@ == ExprView::Constant(ValueView::String(a@)));
                            Some((StatementAst::Assert([e, attribute, v]), end))
                        },
                        None => None,
                    },
                    None => None,
                },
                None => None,
            }
        },
        None => None,
    }
}

} // verus!
