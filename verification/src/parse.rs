//! Reading a list of moves and a board from text.

use crate::board::{is_square, Input, Op, Output};
use crate::text::{chars_of, parse_integer, parsed, signed_decimal, signed_digits, split_tokens};
use crate::text::spans_match;
use crate::text::{token_at, tokens};
use vstd::prelude::*;
use vstd::string::{StrSliceExecFns, StringExecFns};

verus! {

/// Why a text could not be read.
#[derive(Clone, Debug, PartialEq, Eq)]
pub enum ParseError {
    /// The text ended where a token was expected.
    UnexpectedEof,
    /// The token, held here, spells no integer, or one too long to be held.
    Malformed(String),
    /// The integer read, held here, is outside the range allowed at its place.
    OutOfRange(i128),
    /// Tokens follow the last move.
    TrailingTokens,
}

/// A `ParseError` as a mathematical value.
pub enum ParseFault {
    UnexpectedEof,
    Malformed(Seq<char>),
    OutOfRange(int),
    TrailingTokens,
}

impl View for ParseError {
    type V = ParseFault;

    open spec fn view(&self) -> ParseFault {
        match self {
            ParseError::UnexpectedEof => ParseFault::UnexpectedEof,
            ParseError::Malformed(t) => ParseFault::Malformed(t@),
            ParseError::OutOfRange(v) => ParseFault::OutOfRange(*v as int),
            ParseError::TrailingTokens => ParseFault::TrailingTokens,
        }
    }
}

/// The message of a fault.
pub open spec fn fault_text(f: ParseFault) -> Seq<char> {
    match f {
        ParseFault::UnexpectedEof => "Unexpected EOF"@,
        ParseFault::Malformed(t) => "Parse error: "@ + t,
        ParseFault::OutOfRange(v) => "Out of range: "@ + signed_digits(v),
        ParseFault::TrailingTokens => "Too many outputs"@,
    }
}

impl ParseError {
    /// The message of the error, for a reader.
    pub fn message(&self) -> (r: String)
        ensures
            r@ == fault_text(self@),
    {
        match self {
            ParseError::UnexpectedEof => "Unexpected EOF".to_owned(),
            ParseError::Malformed(t) => {
                let mut r = "Parse error: ".to_owned();
                r.append(t.as_str());
                r
            },
            ParseError::OutOfRange(v) => {
                let mut r = "Out of range: ".to_owned();
                let d = signed_decimal(*v);
                r.append(d.as_str());
                r
            },
            ParseError::TrailingTokens => "Too many outputs".to_owned(),
        }
    }
}

/// What reading one token gives: the integer that the token spells where it
/// lies from `lo` to `hi`, both included, and else the fault. A missing token
/// is an early end; a token that spells no integer is malformed; an integer
/// outside the range, negative ones among them, is out of range.
pub open spec fn read_spec(token: Option<Seq<char>>, lo: int, hi: int) -> Result<
    int,
    ParseFault,
> {
    match token {
        None => Err(ParseFault::UnexpectedEof),
        Some(t) => match parsed(t) {
            None => Err(ParseFault::Malformed(t)),
            Some(v) => if lo <= v <= hi {
                Ok(v as int)
            } else {
                Err(ParseFault::OutOfRange(v as int))
            },
        },
    }
}

/// An executable result stands for a mathematical one.
pub open spec fn result_is(r: Result<i128, ParseError>, m: Result<int, ParseFault>) -> bool {
    match r {
        Ok(v) => m == Ok::<int, ParseFault>(v as int),
        Err(e) => m == Err::<int, ParseFault>(e@),
    }
}

/// The view of a token that may be missing.
pub open spec fn token_view(token: Option<&str>) -> Option<Seq<char>> {
    match token {
        Some(t) => Some(t@),
        None => None,
    }
}

/// Reads an integer from a token and holds it to the range from `lo` to
/// `hi`, both included.
pub fn read(token: Option<&str>, lo: i128, hi: i128) -> (r: Result<i128, ParseError>)
    ensures
        result_is(r, read_spec(token_view(token), lo as int, hi as int)),
{
    match token {
        None => Err(ParseError::UnexpectedEof),
        Some(t) => {
            let chars = chars_of(t);
            assert(chars@.subrange(0, chars@.len() as int) =~= t@);
            match parse_integer(&chars, 0, chars.len()) {
                None => Err(ParseError::Malformed(t.to_owned())),
                Some(v) => if lo <= v && v <= hi {
                    Ok(v)
                } else {
                    Err(ParseError::OutOfRange(v))
                },
            }
        },
    }
}

/// Reads the token at place `k` of a text as `read` does. `chars` and `spans`
/// are the characters of the text and where its tokens lie.
fn read_at(
    text: &str,
    chars: &Vec<char>,
    spans: &Vec<(usize, usize)>,
    k: usize,
    lo: i128,
    hi: i128,
) -> (r: Result<i128, ParseError>)
    requires
        chars@ == text@,
        spans_match(chars@, spans@),
    ensures
        result_is(r, read_spec(token_at(tokens(text@), k as int), lo as int, hi as int)),
{
    if k >= spans.len() {
        return Err(ParseError::UnexpectedEof);
    }
    let (start, end) = spans[k];
    match parse_integer(chars, start, end) {
        None => Err(ParseError::Malformed(text.substring_char(start, end).to_owned())),
        Some(v) => if lo <= v && v <= hi {
            Ok(v)
        } else {
            Err(ParseError::OutOfRange(v))
        },
    }
}

/// A list announces fewer moves than this.
pub const MAX_OPS: usize = 998244353;

/// The number of moves that a text announces in its first token: an integer
/// from 0 up to, not including, `MAX_OPS`. A token that spells no such
/// integer, be it none at all, a negative one or one too large, is malformed.
pub open spec fn count_spec(toks: Seq<Seq<char>>) -> Result<usize, ParseFault> {
    match token_at(toks, 0) {
        None => Err(ParseFault::UnexpectedEof),
        Some(t) => match parsed(t) {
            None => Err(ParseFault::Malformed(t)),
            Some(v) => if 0 <= v < MAX_OPS {
                Ok(v as usize)
            } else {
                Err(ParseFault::Malformed(t))
            },
        },
    }
}

/// The move at place `k` of a list for a board of side `size`: the three
/// tokens after the first `3 * k + 1`, read in order as row, column and
/// side of the block. The row lies from 0 up to, not including, `size`; the
/// column and the side of the block lie from 0 up to `size`. An integer past
/// its bounds, below 0 or above, is out of range. The first token that
/// cannot be read decides the fault.
pub open spec fn op_spec(size: int, toks: Seq<Seq<char>>, k: int) -> Result<Op, ParseFault> {
    match read_spec(token_at(toks, 3 * k + 1), 0, size - 1) {
        Err(e) => Err(e),
        Ok(x) => match read_spec(token_at(toks, 3 * k + 2), 0, size) {
            Err(e) => Err(e),
            Ok(y) => match read_spec(token_at(toks, 3 * k + 3), 0, size) {
                Err(e) => Err(e),
                Ok(n) => Ok((x as usize, y as usize, n as usize)),
            },
        },
    }
}

/// The first `k` moves of a list, or the fault of the first of them that
/// cannot be read.
pub open spec fn ops_spec(size: int, toks: Seq<Seq<char>>, k: nat) -> Result<Seq<Op>, ParseFault>
    decreases k,
{
    if k == 0 {
        Ok(Seq::empty())
    } else {
        match ops_spec(size, toks, (k - 1) as nat) {
            Err(e) => Err(e),
            Ok(ops) => match op_spec(size, toks, k - 1) {
                Err(e) => Err(e),
                Ok(op) => Ok(ops.push(op)),
            },
        }
    }
}

/// What a text gives as a list of moves for a board of side `size`: the
/// announced number of moves, in order, where all of them can be read and
/// no token follows the last.
pub open spec fn output_spec(size: int, text: Seq<char>) -> Result<Seq<Op>, ParseFault> {
    let toks = tokens(text);
    match count_spec(toks) {
        Err(e) => Err(e),
        Ok(count) => match ops_spec(size, toks, count as nat) {
            Err(e) => Err(e),
            Ok(ops) => if toks.len() > 3 * count + 1 {
                Err(ParseFault::TrailingTokens)
            } else {
                Ok(ops)
            },
        },
    }
}

/// A list that was read has the announced length, and each of its moves has
/// its row on the board and its column and side no larger than the board.
pub proof fn lemma_ops_spec_bounds(size: int, toks: Seq<Seq<char>>, k: nat)
    requires
        ops_spec(size, toks, k) is Ok,
    ensures
        ops_spec(size, toks, k)->Ok_0.len() == k,
        forall|i: int|
            0 <= i < k ==> {
                let op = #[trigger] ops_spec(size, toks, k)->Ok_0[i];
                op.0 < size && op.1 <= size && op.2 <= size
            },
    decreases k,
{
    if k > 0 {
        lemma_ops_spec_bounds(size, toks, (k - 1) as nat);
    }
}

/// Once a move cannot be read, the fault stays however many moves are asked
/// for.
pub proof fn lemma_ops_spec_fault_stays(size: int, toks: Seq<Seq<char>>, j: nat, k: nat)
    requires
        j <= k,
        ops_spec(size, toks, j) is Err,
    ensures
        ops_spec(size, toks, k) == ops_spec(size, toks, j),
    decreases k,
{
    if j < k {
        lemma_ops_spec_fault_stays(size, toks, j, (k - 1) as nat);
    }
}

/// Reads a list of moves for the board `input`: the number of moves, then
/// for each move its row, its column and the side of its block. Reading
/// stops at the first fault, and nothing is handed back but the fault.
pub fn parse_output(input: &Input, f: &str) -> (r: Result<Output, ParseError>)
    ensures
        match r {
            Ok(out) => output_spec(input.size as int, f@) == Ok::<Seq<Op>, ParseFault>(out@),
            Err(e) => output_spec(input.size as int, f@) == Err::<Seq<Op>, ParseFault>(e@),
        },
{
    let size = input.size;
    let chars = chars_of(f);
    let spans = split_tokens(&chars);
    let ghost toks = tokens(f@);
    if spans.len() == 0 {
        return Err(ParseError::UnexpectedEof);
    }
    let (start, end) = spans[0];
    let count = match parse_integer(&chars, start, end) {
        None => {
            return Err(ParseError::Malformed(f.substring_char(start, end).to_owned()));
        },
        Some(v) => {
            if v < 0 || v >= MAX_OPS as i128 {
                return Err(ParseError::Malformed(f.substring_char(start, end).to_owned()));
            }
            v as usize
        },
    };
    let side = size as i128;
    let mut out: Vec<Op> = Vec::new();
    let mut pos: usize = 1;
    let mut k: usize = 0;
    while k < count
        invariant
            k <= count,
            pos == 3 * k + 1,
            pos <= spans@.len(),
            size == input.size,
            chars@ == f@,
            toks == tokens(f@),
            spans_match(chars@, spans@),
            side == size,
            count_spec(toks) == Ok::<usize, ParseFault>(count),
            ops_spec(size as int, toks, k as nat) == Ok::<Seq<Op>, ParseFault>(out@),
        decreases count - k,
    {
        let ghost next = ops_spec(size as int, toks, (k + 1) as nat);
        assert(next == match op_spec(size as int, toks, k as int) {
            Err(e) => Err::<Seq<Op>, ParseFault>(e),
            Ok(op) => Ok::<Seq<Op>, ParseFault>(out@.push(op)),
        });
        let x = match read_at(f, &chars, &spans, pos, 0, side - 1) {
            Ok(x) => x,
            Err(e) => {
                proof {
                    lemma_ops_spec_fault_stays(size as int, toks, (k + 1) as nat, count as nat);
                }
                return Err(e);
            },
        };
        let y = match read_at(f, &chars, &spans, pos + 1, 0, side) {
            Ok(y) => y,
            Err(e) => {
                proof {
                    lemma_ops_spec_fault_stays(size as int, toks, (k + 1) as nat, count as nat);
                }
                return Err(e);
            },
        };
        let n = match read_at(f, &chars, &spans, pos + 2, 0, side) {
            Ok(n) => n,
            Err(e) => {
                proof {
                    lemma_ops_spec_fault_stays(size as int, toks, (k + 1) as nat, count as nat);
                }
                return Err(e);
            },
        };
        out.push((x as usize, y as usize, n as usize));
        pos += 3;
        k += 1;
    }
    if pos < spans.len() {
        return Err(ParseError::TrailingTokens);
    }
    Ok(Output { out })
}

/// The values that the `k` tokens after the first spell, or the fault of the
/// first of them that cannot be read. Any integer from 0 up to the greatest
/// `usize` is a value.
pub open spec fn values_spec(toks: Seq<Seq<char>>, k: nat) -> Result<Seq<usize>, ParseFault>
    decreases k,
{
    if k == 0 {
        Ok(Seq::empty())
    } else {
        match values_spec(toks, (k - 1) as nat) {
            Err(e) => Err(e),
            Ok(vs) => match read_spec(token_at(toks, k as int), 0, usize::MAX as int) {
                Err(e) => Err(e),
                Ok(v) => Ok(vs.push(v as usize)),
            },
        }
    }
}

/// What a text gives as a board: the side, read from the first token, and
/// the grid, whose rows are read one after the other from the tokens that
/// follow. Tokens after the last cell are not looked at.
pub open spec fn input_spec(text: Seq<char>) -> Result<(usize, Seq<Seq<usize>>), ParseFault> {
    let toks = tokens(text);
    match read_spec(token_at(toks, 0), 0, usize::MAX as int) {
        Err(e) => Err(e),
        Ok(size) => match values_spec(toks, (size * size) as nat) {
            Err(e) => Err(e),
            Ok(vs) => Ok(
                (
                    size as usize,
                    Seq::new(size as nat, |r: int| vs.subrange(r * size, r * size + size)),
                ),
            ),
        },
    }
}

/// Once a value cannot be read, the fault stays however many values are
/// asked for.
pub proof fn lemma_values_spec_fault_stays(toks: Seq<Seq<char>>, j: nat, k: nat)
    requires
        j <= k,
        values_spec(toks, j) is Err,
    ensures
        values_spec(toks, k) == values_spec(toks, j),
    decreases k,
{
    if j < k {
        lemma_values_spec_fault_stays(toks, j, (k - 1) as nat);
    }
}

/// Reads a board: its side, then its cells row by row. Reading stops at the
/// first fault, and nothing is handed back but the fault.
pub fn parse_input(f: &str) -> (r: Result<Input, ParseError>)
    ensures
        match r {
            Ok(b) => b.wf() && input_spec(f@) == Ok::<(usize, Seq<Seq<usize>>), ParseFault>(
                (b.size, b.grid()),
            ),
            Err(e) => input_spec(f@) == Err::<(usize, Seq<Seq<usize>>), ParseFault>(e@),
        },
{
    let chars = chars_of(f);
    let spans = split_tokens(&chars);
    let ghost toks = tokens(f@);
    let size = match read_at(f, &chars, &spans, 0, 0, usize::MAX as i128) {
        Ok(size) => size as usize,
        Err(e) => {
            return Err(e);
        },
    };
    let ghost total = (size * size) as nat;
    let ghost mut vals: Seq<usize> = Seq::empty();
    let mut board: Vec<Vec<usize>> = Vec::new();
    let mut pos: usize = 1;
    let mut i: usize = 0;
    while i < size
        invariant
            i <= size,
            pos == 1 + i * size,
            pos <= spans@.len(),
            chars@ == f@,
            toks == tokens(f@),
            spans_match(chars@, spans@),
            total == size * size,
            read_spec(token_at(toks, 0), 0, usize::MAX as int) == Ok::<int, ParseFault>(size as int),
            values_spec(toks, (i * size) as nat) == Ok::<Seq<usize>, ParseFault>(vals),
            vals.len() == i * size,
            board@.len() == i,
            forall|r: int|
                0 <= r < i ==> (#[trigger] board@[r])@ == vals.subrange(r * size, r * size + size),
        decreases size - i,
    {
        let ghost before = vals;
        let mut row: Vec<usize> = Vec::new();
        let mut j: usize = 0;
        assert(0 <= i * size) by (nonlinear_arith)
            requires
                0 <= i,
                0 <= size,
        ;
        assert(i * size + size <= size * size) by (nonlinear_arith)
            requires
                0 <= i < size,
        ;
        while j < size
            invariant
                i < size,
                j <= size,
                0 <= i * size,
                i * size + size <= total,
                pos == 1 + i * size + j,
                pos <= spans@.len(),
                chars@ == f@,
                toks == tokens(f@),
                spans_match(chars@, spans@),
                total == size * size,
                read_spec(token_at(toks, 0), 0, usize::MAX as int) == Ok::<int, ParseFault>(
                    size as int,
                ),
                values_spec(toks, (i * size + j) as nat) == Ok::<Seq<usize>, ParseFault>(vals),
                vals.len() == i * size + j,
                vals.take(i * size) == before,
                row@ == vals.subrange(i * size, i * size + j),
            decreases size - j,
        {
            let ghost next = values_spec(toks, (i * size + j + 1) as nat);
            assert(next == match read_spec(token_at(toks, pos as int), 0, usize::MAX as int) {
                Err(e) => Err::<Seq<usize>, ParseFault>(e),
                Ok(v) => Ok::<Seq<usize>, ParseFault>(vals.push(v as usize)),
            });
            let v = match read_at(f, &chars, &spans, pos, 0, usize::MAX as i128) {
                Ok(v) => v as usize,
                Err(e) => {
                    proof {
                        lemma_values_spec_fault_stays(toks, (i * size + j + 1) as nat, total);
                    }
                    return Err(e);
                },
            };
            row.push(v);
            assert(token_at(toks, pos as int) is Some);
            assert(pos < spans.len());
            proof {
                let grown = vals.push(v);
                assert(grown.take(i * size) =~= vals.take(i * size));
                assert(row@ =~= grown.subrange(i * size, i * size + j + 1));
                vals = grown;
            }
            pos += 1;
            j += 1;
        }
        proof {
            assert forall|r: int| 0 <= r < i implies (#[trigger] board@[r])@ == vals.subrange(
                r * size,
                r * size + size,
            ) by {
                assert(0 <= r * size && r * size + size <= i * size) by (nonlinear_arith)
                    requires
                        0 <= r < i,
                        0 <= size,
                ;
                assert(vals.subrange(r * size, r * size + size) =~= before.subrange(
                    r * size,
                    r * size + size,
                ));
            }
        }
        board.push(row);
        i += 1;
        assert(i * size == (i - 1) * size + size) by (nonlinear_arith);
    }
    let r = Input { size, board };
    proof {
        let g = r.grid();
        let want = Seq::new(size as nat, |a: int| vals.subrange(a * size, a * size + size));
        assert(i * size == size * size);
        assert forall|a: int| 0 <= a < size implies g[a] == want[a] && (#[trigger] g[a]).len()
            == size by {
            assert(g[a] == board@[a]@);
            assert(0 <= a * size && a * size + size <= size * size) by (nonlinear_arith)
                requires
                    0 <= a < size,
            ;
        }
        assert(g =~= want);
        assert(is_square(g, size as int));
    }
    Ok(r)
}

} // verus!
