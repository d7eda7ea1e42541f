//! From the text of a program to its syntax tree: the text is cut into
//! blocks at blank lines and every block into statements at line ends, and
//! the block that holds the cursor is found.

use vstd::prelude::*;
use vstd::slice::slice_subrange;
use vstd::string::StringSliceAdditionalSpecFns;
use vstd::utf8::{decode_utf8, valid_utf8};
use crate::ast::{parsed_view, BlockAst, CodeAst, StatementAst, StatementView};
use crate::lex::text_from;
use crate::parse::{read_statement, statement};

verus! {

/// The outcome for a line of what the statement parser found in it: the
/// statement if nothing is left over behind it, a message that tells what
/// is left over or that nothing was found otherwise.
pub open spec fn simplified(input: Seq<u8>, found: Option<(StatementView, int)>) -> Result<
    StatementView,
    Seq<char>,
> {
    match found {
        Some((s, end)) => if end >= input.len() {
            Ok(s)
        } else {
            Err(remaining(input.subrange(end, input.len() as int)))
        },
        None => Err("Not a statement"@),
    }
}

/// What reading one line gives: the statement, if the whole line is one,
/// or a message that tells what is left over or that nothing was read.
pub open spec fn line(input: Seq<u8>) -> Result<StatementView, Seq<char>> {
    simplified(input, statement(input))
}

/// The model of what the statement parser returns.
pub open spec fn found_view(result: Option<(StatementAst, usize)>) -> Option<(StatementView, int)> {
    match result {
        Some((s, end)) => Some((s@, end as int)),
        None => None,
    }
}

/// The message for a statement behind which `rest` is left over.
pub open spec fn remaining(rest: Seq<u8>) -> Seq<char> {
    if valid_utf8(rest) {
        "Remaining: "@ + decode_utf8(rest)
    } else {
        "Remaining: "@
    }
}

/// Turns what the statement parser found into the outcome for the line:
/// the statement if nothing is left over, a message otherwise.
pub fn simplify_errors(input: &[u8], result: Option<(StatementAst, usize)>) -> (r: Result<
    StatementAst,
    String,
>)
    ensures
        parsed_view(r) == simplified(input@, found_view(result)),
{
    match result {
        Some((output, end)) => {
            if end >= input.len() {
                Ok(output)
            } else {
                let mut message = "Remaining: ".to_owned();
                match text_from(slice_subrange(input, end, input.len())) {
                    Some(rest) => {
                        message.append(rest.as_str());
                    },
                    None => {},
                }
                Err(message)
            }
        },
        None => Err("Not a statement".to_owned()),
    }
}

/// The first position from `pos` on at which a line ends, or the length
/// of the input if none ends.
pub open spec fn line_end(input: Seq<u8>, pos: int) -> int
    decreases input.len() - pos,
{
    if pos < 0 || pos >= input.len() {
        input.len() as int
    } else if input[pos] == 0x0A {
        pos
    } else {
        line_end(input, pos + 1)
    }
}

/// The lines of the input from `pos` on: the pieces between line ends. An
/// input that ends with a line end has an empty last line.
pub open spec fn lines(input: Seq<u8>, pos: int) -> Seq<Seq<u8>>
    decreases input.len() - pos,
{
    let end = line_end(input, pos);
    if 0 <= pos <= end < input.len() {
        seq![input.subrange(pos, end)] + lines(input, end + 1)
    } else if 0 <= pos <= input.len() {
        seq![input.subrange(pos, input.len() as int)]
    } else {
        Seq::empty()
    }
}

/// The statements of a block of text, one for each of its lines.
pub open spec fn block(input: Seq<u8>) -> Seq<Result<StatementView, Seq<char>>> {
    lines(input, 0).map_values(|l: Seq<u8>| line(l))
}

/// Reads a block of text: every line as a statement, or as the message
/// that tells why it is none.
pub fn block_ast(text: &[u8]) -> (r: BlockAst)
    ensures
        r@ == block(text@),
{
    let mut statements: Vec<Result<StatementAst, String>> = Vec::new();
    let mut start: usize = 0;
    let ghost mut done = Seq::<Result<StatementView, Seq<char>>>::empty();
    loop
        invariant_except_break
            block(text@) == done + lines(text@, start as int).map_values(|l: Seq<u8>| line(l)),
        invariant
            start <= text@.len(),
            statements@.map_values(|s: Result<StatementAst, String>| parsed_view(s)) == done,
        ensures
            statements@.map_values(|s: Result<StatementAst, String>| parsed_view(s)) == block(
                text@,
            ),
        decreases text@.len() - start,
    {
        let mut end = start;
        while end < text.len() && text[end] != 0x0A
            invariant
                start <= end <= text@.len(),
                line_end(text@, start as int) == line_end(text@, end as int),
            decreases text@.len() - end,
        {
            end += 1;
        }
        let piece = slice_subrange(text, start, end);
        let parsed = simplify_errors(piece, read_statement(piece));
        assert(parsed_view(parsed) == line(piece@));
        let ghost before = statements@.map_values(|s: Result<StatementAst, String>| parsed_view(s));
        let ghost pv = parsed_view(parsed);
        statements.push(parsed);
        proof {
            assert(statements@.map_values(|s: Result<StatementAst, String>| parsed_view(s))
                =~= before.push(pv));
            let rest = lines(text@, start as int);
            if end < text@.len() {
                let tail = lines(text@, end + 1);
                assert(rest =~= seq![piece@] + tail);
                assert(rest.map_values(|l: Seq<u8>| line(l)) =~= seq![line(piece@)]
                    + tail.map_values(|l: Seq<u8>| line(l)));
                assert(done + rest.map_values(|l: Seq<u8>| line(l)) =~= done.push(line(piece@))
                    + tail.map_values(|l: Seq<u8>| line(l)));
            } else {
                assert(rest =~= seq![piece@]);
                assert(rest.map_values(|l: Seq<u8>| line(l)) =~= seq![line(piece@)]);
                assert(done + rest.map_values(|l: Seq<u8>| line(l)) =~= done.push(line(piece@)));
            }
            done = done.push(line(piece@));
        }
        if end >= text.len() {
            break ;
        }
        start = end + 1;
    }
    BlockAst { statements }
}

/// The first position from `pos` on at which a blank line parts two
/// blocks, that is, at which two line ends stand; the length of the input
/// if there is none.
pub open spec fn block_end(input: Seq<u8>, pos: int) -> int
    decreases input.len() - pos,
{
    if pos < 0 || pos + 1 >= input.len() {
        input.len() as int
    } else if input[pos] == 0x0A && input[pos + 1] == 0x0A {
        pos
    } else {
        block_end(input, pos + 1)
    }
}

/// The blocks of the input from `pos` on: the pieces between blank lines.
pub open spec fn blocks(input: Seq<u8>, pos: int) -> Seq<Seq<u8>>
    decreases input.len() - pos,
{
    let end = block_end(input, pos);
    if 0 <= pos <= end && end + 2 <= input.len() {
        seq![input.subrange(pos, end)] + blocks(input, end + 2)
    } else if 0 <= pos <= input.len() {
        seq![input.subrange(pos, input.len() as int)]
    } else {
        Seq::empty()
    }
}

/// The block that holds the cursor, sought from block `i` on with
/// `cursor` counted from the start of that block: the first block that
/// ends at the cursor or behind it. A cursor that stands between the two
/// line ends that part two blocks is in neither.
pub open spec fn focus(pieces: Seq<Seq<u8>>, i: int, cursor: int) -> Option<usize>
    decreases pieces.len() - i,
{
    if i < 0 || i >= pieces.len() {
        None
    } else if cursor - pieces[i].len() <= 0 {
        Some(i as usize)
    } else if cursor - pieces[i].len() - 2 < 0 {
        None
    } else {
        focus(pieces, i + 1, cursor - pieces[i].len() - 2)
    }
}

/// The model of a program.
pub struct CodeView {
    pub blocks: Seq<Seq<Result<StatementView, Seq<char>>>>,
    pub focused: Option<usize>,
}

impl View for CodeAst {
    type V = CodeView;

    open spec fn view(&self) -> CodeView {
        CodeView { blocks: self.blocks@.map_values(|b: BlockAst| b@), focused: self.focused }
    }
}

/// The syntax tree of a program and the block that holds the cursor.
pub open spec fn code(input: Seq<u8>, cursor: int) -> CodeView {
    CodeView {
        blocks: blocks(input, 0).map_values(|b: Seq<u8>| block(b)),
        focused: focus(blocks(input, 0), 0, cursor),
    }
}

/// Where a block ends lies between the position it is sought from and the
/// end of the input, with room for the blank line if it is not the end.
pub proof fn lemma_block_end(input: Seq<u8>, pos: int)
    requires
        0 <= pos <= input.len(),
    ensures
        pos <= block_end(input, pos) <= input.len(),
        block_end(input, pos) < input.len() ==> block_end(input, pos) + 2 <= input.len(),
    decreases input.len() - pos,
{
    if pos + 1 < input.len() && !(input[pos] == 0x0A && input[pos + 1] == 0x0A) {
        lemma_block_end(input, pos + 1);
    }
}

/// Reads a program: cuts the text into blocks at blank lines, reads every
/// block, and finds the block that holds the cursor.
pub fn code_ast(text: &str, cursor: i64) -> (r: CodeAst)
    ensures
        r@ == code(text.spec_bytes(), cursor as int),
        r.focused matches Some(i) ==> i < r.blocks@.len(),
{
    let bytes = text.as_bytes();
    let ghost input = bytes@;
    let mut parsed: Vec<BlockAst> = Vec::new();
    let mut focused: Option<usize> = None;
    let mut seeking = true;
    let mut left: i64 = cursor;
    let mut start: usize = 0;
    let ghost mut done = Seq::<Seq<u8>>::empty();
    loop
        invariant_except_break
            blocks(input, 0) == done + blocks(input, start as int),
        invariant
            input == bytes@,
            start <= input.len(),
            parsed@.len() == done.len(),
            parsed@.map_values(|b: BlockAst| b@) == done.map_values(|b: Seq<u8>| block(b)),
            focused matches Some(i) ==> i < done.len(),
            seeking ==> focused is None && focus(blocks(input, 0), 0, cursor as int) == focus(
                blocks(input, 0),
                done.len() as int,
                left as int,
            ),
            !seeking ==> focused == focus(blocks(input, 0), 0, cursor as int),
        ensures
            parsed@.map_values(|b: BlockAst| b@) == blocks(input, 0).map_values(
                |b: Seq<u8>| block(b),
            ),
            focused == focus(blocks(input, 0), 0, cursor as int),
            focused matches Some(i) ==> i < parsed@.len(),
        decreases input.len() - start,
    {
        let mut end = start;
        while end < bytes.len() && !(end + 1 < bytes.len() && bytes[end] == 0x0A && bytes[end + 1]
            == 0x0A)
            invariant
                input == bytes@,
                start <= end <= input.len(),
                block_end(input, start as int) == if end + 1 < input.len() {
                    block_end(input, end as int)
                } else {
                    input.len() as int
                },
            decreases input.len() - end,
        {
            end += 1;
        }
        proof {
            lemma_block_end(input, start as int);
        }
        let piece = slice_subrange(bytes, start, end);
        let ghost all = blocks(input, 0);
        let ghost rest = blocks(input, start as int);
        proof {
            if end < input.len() {
                assert(rest =~= seq![piece@] + blocks(input, end + 2));
            } else {
                assert(rest =~= seq![piece@]);
            }
            assert(all[done.len() as int] == piece@);
        }
        if seeking {
            let size = piece.len();
            if left <= 0 || size as u64 >= left as u64 {
                focused = Some(parsed.len());
                seeking = false;
            } else {
                left = left - size as i64;
                if left < 2 {
                    seeking = false;
                } else {
                    left = left - 2;
                }
            }
        }
        let ghost before = parsed@.map_values(|b: BlockAst| b@);
        let read = block_ast(piece);
        let ghost bv = read@;
        parsed.push(read);
        proof {
            assert(parsed@.map_values(|b: BlockAst| b@) =~= before.push(bv));
            assert(done.push(piece@).map_values(|b: Seq<u8>| block(b)) =~= done.map_values(
                |b: Seq<u8>| block(b),
            ).push(block(piece@)));
            if end < input.len() {
                assert(done + rest =~= done.push(piece@) + blocks(input, end + 2));
            } else {
                assert(done + rest =~= done.push(piece@));
            }
            done = done.push(piece@);
        }
        if end >= bytes.len() {
            proof {
                assert(all =~= done);
            }
            break ;
        }
        start = end + 2;
    }
    CodeAst { blocks: parsed, focused }
}

} // verus!
