//! How values and errors are written out.

use vstd::prelude::*;
use crate::compile::CompileError;
use crate::planner::CompileFault;
use crate::semantics::Fault;
use crate::solve::RunError;
use crate::value::{avs_view, lemma_avs_view, Attribute, Value, ValueView};

verus! {

/// What `Debug` formatting makes of a text: the text between double
/// quotes, with the characters that `Debug` escapes written as escapes.
pub uninterp spec fn debug_text(s: Seq<char>) -> Seq<char>;

/// Formats a text as `Debug` does, by `format!` with `{:?}`. Trusted: the
/// result is the value that `debug_text` names for this text.
#[verifier::external_body]
fn quote(s: &String) -> (r: String)
    ensures
        r@ == debug_text(s@),
{
    format!("{:?}", s)
}

/// The character of a decimal digit.
pub open spec fn digit_char(d: int) -> char {
    if d == 0 {
        '0'
    } else if d == 1 {
        '1'
    } else if d == 2 {
        '2'
    } else if d == 3 {
        '3'
    } else if d == 4 {
        '4'
    } else if d == 5 {
        '5'
    } else if d == 6 {
        '6'
    } else if d == 7 {
        '7'
    } else if d == 8 {
        '8'
    } else {
        '9'
    }
}

/// The decimal digits of a natural number, without leading zeros.
pub open spec fn digits(n: nat) -> Seq<char>
    decreases n,
{
    if n < 10 {
        seq![digit_char(n as int)]
    } else {
        digits(n / 10).push(digit_char((n % 10) as int))
    }
}

/// The decimal form of an integer, with a minus sign if it is negative.
pub open spec fn decimal(i: int) -> Seq<char> {
    if i < 0 {
        seq!['-'] + digits((-i) as nat)
    } else {
        digits(i as nat)
    }
}

/// The text of one decimal digit.
fn digit_text(d: u64) -> (r: &'static str)
    requires
        d < 10,
    ensures
        r@ == seq![digit_char(d as int)],
{
    proof {
        reveal_strlit("0");
        reveal_strlit("1");
        reveal_strlit("2");
        reveal_strlit("3");
        reveal_strlit("4");
        reveal_strlit("5");
        reveal_strlit("6");
        reveal_strlit("7");
        reveal_strlit("8");
        reveal_strlit("9");
    }
    let r = if d == 0 {
        "0"
    } else if d == 1 {
        "1"
    } else if d == 2 {
        "2"
    } else if d == 3 {
        "3"
    } else if d == 4 {
        "4"
    } else if d == 5 {
        "5"
    } else if d == 6 {
        "6"
    } else if d == 7 {
        "7"
    } else if d == 8 {
        "8"
    } else {
        "9"
    };
    assert(r@ =~= seq![digit_char(d as int)]);
    r
}

/// Appends the decimal digits of `n` to `out`.
pub fn write_digits(n: u64, out: &mut String)
    ensures
        final(out)@ == old(out)@ + digits(n as nat),
    decreases n,
{
    if n >= 10 {
        write_digits(n / 10, out);
    }
    out.append(digit_text(n % 10));
    proof {
        if n >= 10 {
            assert(out@ =~= old(out)@ + digits(n as nat));
        }
    }
}

/// Appends the decimal form of `i` to `out`.
pub fn write_integer(i: i64, out: &mut String)
    ensures
        final(out)@ == old(out)@ + decimal(i as int),
{
    if i < 0 {
        proof {
            reveal_strlit("-");
        }
        out.append("-");
        let magnitude: u64 = ((-(i + 1)) as u64) + 1;
        write_digits(magnitude, out);
        assert(out@ =~= old(out)@ + decimal(i as int));
    } else {
        write_digits(i as u64, out);
    }
}

/// How a value is written: booleans and integers plainly, texts quoted,
/// entities as the list of their attributes and values between braces.
pub open spec fn render(v: ValueView) -> Seq<char>
    decreases v,
{
    match v {
        ValueView::Boolean(b) => if b {
            "true"@
        } else {
            "false"@
        },
        ValueView::Integer(i) => decimal(i as int),
        ValueView::String(s) => debug_text(s),
        ValueView::Entity(avs) => "{"@ + render_pairs(avs, avs.len() as int) + "}"@,
    }
}

/// How the first `upto` pairs of an entity are written: each as its
/// attribute, an equals sign and its value, with a comma and a space
/// between two pairs.
pub open spec fn render_pairs(avs: Seq<(Seq<char>, ValueView)>, upto: int) -> Seq<char>
    decreases avs, upto,
{
    if upto <= 0 || upto > avs.len() {
        Seq::empty()
    } else {
        render_pairs(avs, upto - 1) + (if upto > 1 {
            ", "@
        } else {
            Seq::empty()
        }) + avs[upto - 1].0 + "="@ + render(avs[upto - 1].1)
    }
}

/// Appends the written form of a value to `out`.
pub fn write_value(v: &Value, out: &mut String)
    ensures
        final(out)@ == old(out)@ + render(v@),
    decreases v,
{
    match v {
        Value::Boolean(b) => {
            if *b {
                out.append("true");
            } else {
                out.append("false");
            }
        },
        Value::Integer(i) => {
            write_integer(*i, out);
        },
        Value::String(s) => {
            let quoted = quote(s);
            out.append(quoted.as_str());
        },
        Value::Entity(entity) => {
            out.append("{");
            write_pairs(&entity.avs, out);
            out.append("}");
            proof {
                let avs = avs_view(entity.avs@);
                lemma_avs_view(entity.avs@);
                assert(out@ =~= old(out)@ + ("{"@ + render_pairs(avs, avs.len() as int) + "}"@));
            }
        },
    }
}

/// Appends the written form of the pairs of an entity to `out`.
pub fn write_pairs(avs: &Vec<(Attribute, Value)>, out: &mut String)
    ensures
        final(out)@ == old(out)@ + render_pairs(avs_view(avs@), avs@.len() as int),
    decreases avs,
{
    let ghost pairs = avs_view(avs@);
    proof {
        lemma_avs_view(avs@);
    }
    let mut i: usize = 0;
    assert(out@ =~= old(out)@ + render_pairs(pairs, 0));
    while i < avs.len()
        invariant
            i <= avs@.len(),
            pairs == avs_view(avs@),
            pairs.len() == avs@.len(),
            forall|k: int| 0 <= k < avs@.len() ==> #[trigger] pairs[k] == (avs@[k].0@, avs@[k].1@),
            out@ == old(out)@ + render_pairs(pairs, i as int),
        decreases avs@.len() - i,
    {
        let ghost before = out@;
        if i > 0 {
            out.append(", ");
        }
        out.append(avs[i].0.as_str());
        out.append("=");
        write_value(&avs[i].1, out);
        proof {
            assert(out@ =~= old(out)@ + render_pairs(pairs, i + 1));
        }
        i += 1;
    }
}

impl Value {
    /// The written form of the value.
    pub fn to_string(&self) -> (r: String)
        ensures
            r@ == render(self@),
    {
        let mut out = String::new();
        write_value(self, &mut out);
        assert(out@ =~= render(self@));
        out
    }
}

/// The message of a fault that ended a run.
pub open spec fn fault_message(fault: Fault) -> Seq<char> {
    match fault {
        Fault::TypeError(a, b) => "Type error: "@ + render(a) + " + "@ + render(b),
    }
}

impl RunError {
    /// The message of the error.
    pub fn message(&self) -> (r: String)
        ensures
            r@ == fault_message(self@),
    {
        match self {
            RunError::TypeError(a, b) => {
                let mut out = String::new();
                out.append("Type error: ");
                write_value(a, &mut out);
                out.append(" + ");
                write_value(b, &mut out);
                assert(out@ =~= fault_message(self@));
                out
            },
        }
    }
}

/// The message of a fault that stopped the compiler.
pub open spec fn compile_message(fault: CompileFault) -> Seq<char> {
    match fault {
        CompileFault::Impossible(a, b) => "Impossible constraint: "@ + render(a) + " = "@ + render(
            b,
        ),
        CompileFault::NoConstraints(slot) => "No constraints on slot "@ + decimal(slot as int),
        CompileFault::UnknownFunction(name, arity) => "I don't know any function called "@
            + debug_text(name) + " with "@ + decimal(arity as int) + " arguments"@,
    }
}

impl CompileError {
    /// The message of the error.
    pub fn message(&self) -> (r: String)
        ensures
            r@ == compile_message(self@),
    {
        let mut out = String::new();
        match self {
            CompileError::Impossible(a, b) => {
                out.append("Impossible constraint: ");
                write_value(a, &mut out);
                out.append(" = ");
                write_value(b, &mut out);
            },
            CompileError::NoConstraints(slot) => {
                out.append("No constraints on slot ");
                write_digits(*slot as u64, &mut out);
            },
            CompileError::UnknownFunction(name, arity) => {
                out.append("I don't know any function called ");
                let quoted = quote(name);
                out.append(quoted.as_str());
                out.append(" with ");
                write_digits(*arity as u64, &mut out);
                out.append(" arguments");
            },
        }
        assert(out@ =~= compile_message(self@));
        out
    }
}

} // verus!
