//! The runner: reads a program, compiles and runs the block that holds the
//! cursor against a bag, and reports what came of it.

use vstd::prelude::*;
use vstd::string::StringSliceAdditionalSpecFns;
use crate::ast::{parsed_view, StatementView};
use crate::bag::Bag;
use crate::compile::compile;
use crate::index::Triple;
use crate::plan::{named_view, values_view, BlockView, Constraint};
use crate::planner::compile_spec;
use crate::program::{code, code_ast};
use crate::semantics::Output;
use crate::solve::{block_spec, triples_view};
use crate::text::{compile_message, decimal, fault_message, render, write_digits, write_value};
use crate::value::{Value, ValueView};

verus! {

/// The message of the first statement, from `from` on, that did not parse.
pub open spec fn first_error(statements: Seq<Result<StatementView, Seq<char>>>, from: int) -> Option<
    Seq<char>,
>
    decreases statements.len() - from,
{
    if from < 0 || from >= statements.len() {
        None
    } else {
        match statements[from] {
            Err(message) => Some(message),
            Ok(_) => first_error(statements, from + 1),
        }
    }
}

/// What comes of a block: its plan and what running it yields, or the
/// message of the first thing that went wrong, be it in reading,
/// compiling or running the block.
pub open spec fn status(statements: Seq<Result<StatementView, Seq<char>>>, triples: Seq<Triple>) -> Result<
    (BlockView, Output),
    Seq<char>,
> {
    match first_error(statements, 0) {
        Some(message) => Err("Parse error: "@ + message),
        None => match compile_spec(statements) {
            Err(fault) => Err("Compile error: "@ + compile_message(fault)),
            Ok(plan) => match block_spec(plan, triples) {
                Err(fault) => Err("Run error: "@ + fault_message(fault)),
                Ok(out) => Ok((plan, out)),
            },
        },
    }
}

/// One result row written out: for each of the first `k` named slots its
/// name, an equals sign, the value at its place from `start` on, and a
/// tab.
pub open spec fn row_text(
    named: Seq<(Seq<char>, usize)>,
    results: Seq<ValueView>,
    start: int,
    k: int,
) -> Seq<char>
    decreases k,
{
    if k <= 0 {
        Seq::empty()
    } else {
        row_text(named, results, start, k - 1) + named[k - 1].0 + "="@ + render(
            results[start + k - 1],
        ) + "\t"@
    }
}

/// The result rows from position `start` of the results on, each on a line
/// of its own. A row has as many values as there are named slots; the last
/// row has what is left.
pub open spec fn rows_text(named: Seq<(Seq<char>, usize)>, results: Seq<ValueView>, start: int) -> Seq<
    char,
>
    decreases results.len() - start,
{
    if start < 0 || start >= results.len() || named.len() == 0 {
        Seq::empty()
    } else {
        let k = if results.len() - start < named.len() {
            results.len() - start
        } else {
            named.len() as int
        };
        row_text(named, results, start, k) + "\n"@ + rows_text(named, results, start + k)
    }
}

/// The attribute of an asserted triple written out: a text plainly, any
/// other value as values are written.
pub open spec fn attribute_text(v: ValueView) -> Seq<char> {
    match v {
        ValueView::String(s) => s,
        _ => render(v),
    }
}

/// The first `upto` asserted triples written out, each on a line of its
/// own.
pub open spec fn asserts_text(asserts: Seq<(ValueView, ValueView, ValueView)>, upto: int) -> Seq<
    char,
>
    decreases upto,
{
    if upto <= 0 {
        Seq::empty()
    } else {
        asserts_text(asserts, upto - 1) + "+ "@ + render(asserts[upto - 1].0) + "."@
            + attribute_text(asserts[upto - 1].1) + " = "@ + render(asserts[upto - 1].2) + "\n"@
    }
}

/// The named slots of a plan: those of its last constraint, if that is a
/// `Debug`.
pub open spec fn plan_names(plan: BlockView) -> Seq<(Seq<char>, usize)> {
    if plan.constraints.len() > 0 && plan.constraints.last() is Debug {
        plan.constraints.last()->Debug_0
    } else {
        Seq::empty()
    }
}

/// The report on a block: the message of what went wrong, or the numbers
/// of results and asserts, the result rows and the asserted triples.
pub open spec fn report(outcome: Result<(BlockView, Output), Seq<char>>) -> Seq<char> {
    match outcome {
        Err(message) => message + "\n\n"@,
        Ok((plan, out)) => {
            let named = plan_names(plan);
            "Ok: "@ + decimal(out.results.len() as int) + " results, "@ + decimal(
                out.asserts.len() as int,
            ) + " asserts\n\n"@ + (if named.len() > 0 {
                rows_text(named, out.results, 0) + "\n"@
            } else {
                Seq::empty()
            }) + asserts_text(out.asserts, out.asserts.len() as int) + "\n"@
        },
    }
}

/// The report of the runner on a program, a cursor and the triples of a
/// bag.
pub open spec fn run_code_spec(input: Seq<u8>, cursor: int, triples: Seq<Triple>) -> Seq<char> {
    let program = code(input, cursor);
    match program.focused {
        None => "Nothing focused\n\n"@,
        Some(i) => report(status(program.blocks[i as int], triples)),
    }
}

/// Appends the written form of the result rows to `out`.
pub fn write_rows(named: &Vec<(String, usize)>, results: &Vec<Value>, out: &mut String)
    requires
        named@.len() > 0,
    ensures
        final(out)@ == old(out)@ + rows_text(named_view(named@), values_view(results@), 0),
{
    let ghost names = named_view(named@);
    let ghost values = values_view(results@);
    let ghost total = rows_text(names, values, 0);
    let ghost mut done = Seq::<char>::empty();
    let mut start: usize = 0;
    assert(out@ =~= old(out)@ + done);
    assert(done + rows_text(names, values, 0) =~= total);
    while start < results.len()
        invariant
            names == named_view(named@),
            values == values_view(results@),
            names.len() > 0,
            start <= results@.len(),
            out@ == old(out)@ + done,
            total == done + rows_text(names, values, start as int),
        decreases results@.len() - start,
    {
        let left = results.len() - start;
        let k = if left < named.len() {
            left
        } else {
            named.len()
        };
        let ghost row = row_text(names, values, start as int, k as int);
        let ghost before = out@;
        let mut j: usize = 0;
        assert(out@ =~= before + row_text(names, values, start as int, 0));
        while j < k
            invariant
                names == named_view(named@),
                values == values_view(results@),
                j <= k <= named@.len(),
                start + k <= results@.len() <= usize::MAX,
                out@ == before + row_text(names, values, start as int, j as int),
            decreases k - j,
        {
            out.append(named[j].0.as_str());
            out.append("=");
            write_value(&results[start + j], out);
            out.append("\t");
            proof {
                assert(names[j as int].0 == named@[j as int].0@);
                assert(values[start + j] == results@[start + j]@);
                assert(out@ =~= before + row_text(names, values, start as int, j + 1));
            }
            j += 1;
        }
        out.append("\n");
        proof {
            let rest = rows_text(names, values, start + k);
            assert(rows_text(names, values, start as int) == row + "\n"@ + rest);
            assert(done + (row + "\n"@ + rest) =~= (done + row + "\n"@) + rest);
            done = done + row + "\n"@;
            assert(out@ =~= old(out)@ + done);
        }
        start = start + k;
    }
    proof {
        assert(rows_text(names, values, start as int) =~= Seq::<char>::empty());
        assert(done + Seq::<char>::empty() =~= done);
    }
}

/// Appends the written form of the asserted triples to `out`.
pub fn write_asserts(asserts: &Vec<[Value; 3]>, out: &mut String)
    ensures
        final(out)@ == old(out)@ + asserts_text(triples_view(asserts@), asserts@.len() as int),
{
    let ghost triples = triples_view(asserts@);
    let mut i: usize = 0;
    assert(out@ =~= old(out)@ + asserts_text(triples, 0));
    while i < asserts.len()
        invariant
            triples == triples_view(asserts@),
            i <= asserts@.len(),
            out@ == old(out)@ + asserts_text(triples, i as int),
        decreases asserts@.len() - i,
    {
        let triple = &asserts[i];
        out.append("+ ");
        write_value(&triple[0], out);
        out.append(".");
        match &triple[1] {
            Value::String(s) => {
                out.append(s.as_str());
            },
            other => {
                write_value(other, out);
            },
        }
        out.append(" = ");
        write_value(&triple[2], out);
        out.append("\n");
        proof {
            assert(triples[i as int] == (triple[0]@, triple[1]@, triple[2]@));
            assert(out@ =~= old(out)@ + asserts_text(triples, i + 1));
        }
        i += 1;
    }
}

/// Reads the program, runs the block that holds the cursor against the
/// bag, and returns the report: the results and asserted triples of the
/// block, or the first error met in reading, compiling or running it, or
/// the notice that the cursor is in no block.
pub fn run_code(bag: &Bag, code: &str, cursor: i64) -> (r: String)
    ensures
        r@ == run_code_spec(code.spec_bytes(), cursor as int, bag.triples()),
{
    let program = code_ast(code, cursor);
    let ghost model = crate::program::code(code.spec_bytes(), cursor as int);
    let focused = match program.focused {
        None => {
            return "Nothing focused\n\n".to_owned();
        },
        Some(i) => i,
    };
    let block = &program.blocks[focused];
    let ghost statements = block@;
    assert(statements == model.blocks[focused as int]);
    let mut i: usize = 0;
    while i < block.statements.len()
        invariant
            i <= block.statements@.len(),
            statements == block@,
            first_error(statements, 0) == first_error(statements, i as int),
            statements == model.blocks[focused as int],
            model == crate::program::code(code.spec_bytes(), cursor as int),
            model.focused == Some(focused),
        decreases block.statements@.len() - i,
    {
        match &block.statements[i] {
            Err(message) => {
                let mut out = "Parse error: ".to_owned();
                out.append(message.as_str());
                out.append("\n\n");
                proof {
                    assert(statements[i as int] == parsed_view(block.statements@[i as int]));
                    assert(out@ =~= ("Parse error: "@ + message@) + "\n\n"@);
                }
                return out;
            },
            Ok(_) => {
                assert(statements[i as int] == parsed_view(block.statements@[i as int]));
            },
        }
        i += 1;
    }
    let plan = match compile(block) {
        Err(error) => {
            let mut out = "Compile error: ".to_owned();
            let message = error.message();
            out.append(message.as_str());
            out.append("\n\n");
            assert(out@ =~= ("Compile error: "@ + compile_message(error@)) + "\n\n"@);
            return out;
        },
        Ok(plan) => plan,
    };
    let (results, asserts) = match plan.run(bag) {
        Err(error) => {
            let mut out = "Run error: ".to_owned();
            let message = error.message();
            out.append(message.as_str());
            out.append("\n\n");
            assert(out@ =~= ("Run error: "@ + fault_message(error@)) + "\n\n"@);
            return out;
        },
        Ok(pair) => pair,
    };
    let mut out = "Ok: ".to_owned();
    write_digits(results.len() as u64, &mut out);
    out.append(" results, ");
    write_digits(asserts.len() as u64, &mut out);
    out.append(" asserts\n\n");
    let ghost head = out@;
    let ghost names = plan_names(plan@);
    if plan.constraints.len() > 0 {
        let last = &plan.constraints[plan.constraints.len() - 1];
        proof {
            assert(plan@.constraints.last() == last@);
        }
        match last {
            Constraint::Debug(named) => {
                if named.len() > 0 {
                    write_rows(named, &results, &mut out);
                    out.append("\n");
                }
            },
            _ => {},
        }
    }
    let ghost middle = out@;
    write_asserts(&asserts, &mut out);
    out.append("\n");
    proof {
        let o = block_spec(plan@, bag.triples())->Ok_0;
        assert(values_view(results@) == o.results);
        assert(triples_view(asserts@) == o.asserts);
        assert(values_view(results@).len() == results@.len());
        assert(triples_view(asserts@).len() == asserts@.len());
        assert(head =~= "Ok: "@ + decimal(o.results.len() as int) + " results, "@ + decimal(
            o.asserts.len() as int,
        ) + " asserts\n\n"@);
        assert(middle =~= head + (if names.len() > 0 {
            rows_text(names, o.results, 0) + "\n"@
        } else {
            Seq::<char>::empty()
        }));
        assert(out@ =~= report(Ok((plan@, o))));
    }
    out
}

} // verus!
