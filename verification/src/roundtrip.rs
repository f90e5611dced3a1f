//! A board that was written as text reads back as the same board.

use crate::board::{board_text, is_square, row_text, rows_text};
use crate::parse::{input_spec, read_spec, values_spec, ParseFault};
use crate::tally::{cells, lemma_flat_index, lemma_flat_split};
use crate::text::{all_digits, digit_char, digit_value, digits, digits_value, is_digit, is_space};
use crate::text::{integer, lemma_token_end, parsed, token_at, token_end, tokens, tokens_from};
use crate::text::unsigned_part;
use vstd::prelude::*;

verus! {

/// A word: one character or more, none of them a separator.
pub open spec fn is_word(w: Seq<char>) -> bool {
    &&& w.len() > 0
    &&& forall|i: int| 0 <= i < w.len() ==> !is_space(#[trigger] w[i])
}

/// A text that is empty or ends with a separator: what follows it starts a
/// new token.
pub open spec fn is_closed(x: Seq<char>) -> bool {
    x.len() == 0 || is_space(x.last())
}

proof fn lemma_token_end_shift(a: Seq<char>, b: Seq<char>, i: int)
    requires
        0 <= i <= b.len(),
    ensures
        token_end(a + b, a.len() + i) == a.len() + token_end(b, i),
    decreases b.len() - i,
{
    if i < b.len() {
        assert((a + b)[a.len() + i] == b[i]);
        if !is_space(b[i]) {
            lemma_token_end_shift(a, b, i + 1);
        }
    }
}

proof fn lemma_tokens_shift(a: Seq<char>, b: Seq<char>, i: int)
    requires
        0 <= i <= b.len(),
    ensures
        tokens_from(a + b, a.len() + i) == tokens_from(b, i),
    decreases b.len() - i,
{
    if i < b.len() {
        assert((a + b)[a.len() + i] == b[i]);
        if is_space(b[i]) {
            lemma_tokens_shift(a, b, i + 1);
        } else {
            lemma_token_end(b, i);
            lemma_token_end(a + b, a.len() + i);
            lemma_token_end_shift(a, b, i);
            let end = token_end(b, i);
            assert((a + b).subrange(a.len() + i, a.len() + end) =~= b.subrange(i, end));
            lemma_tokens_shift(a, b, end);
        }
    }
}

proof fn lemma_token_end_within(x: Seq<char>, y: Seq<char>, i: int)
    requires
        0 <= i < x.len(),
        is_space(x.last()),
    ensures
        token_end(x + y, i) == token_end(x, i),
        token_end(x, i) < x.len(),
    decreases x.len() - i,
{
    assert((x + y)[i] == x[i]);
    if !is_space(x[i]) {
        lemma_token_end_within(x, y, i + 1);
    }
}

proof fn lemma_tokens_concat_from(x: Seq<char>, y: Seq<char>, i: int)
    requires
        0 <= i <= x.len(),
        is_closed(x),
    ensures
        tokens_from(x + y, i) == tokens_from(x, i) + tokens(y),
    decreases x.len() - i,
{
    if i == x.len() {
        lemma_tokens_shift(x, y, 0);
        assert(tokens_from(x, i) =~= Seq::<Seq<char>>::empty());
        assert(tokens_from(x, i) + tokens(y) =~= tokens(y));
    } else {
        assert((x + y)[i] == x[i]);
        if is_space(x[i]) {
            lemma_tokens_concat_from(x, y, i + 1);
        } else {
            lemma_token_end(x, i);
            lemma_token_end(x + y, i);
            lemma_token_end_within(x, y, i);
            let end = token_end(x, i);
            assert((x + y).subrange(i, end) =~= x.subrange(i, end));
            lemma_tokens_concat_from(x, y, end);
            assert(seq![x.subrange(i, end)] + (tokens_from(x, end) + tokens(y)) =~= (seq![
                x.subrange(i, end),
            ] + tokens_from(x, end)) + tokens(y));
        }
    }
}

/// The tokens of two texts, one after the other, are the tokens of the first
/// and then those of the second, where the first is closed.
pub proof fn lemma_tokens_concat(x: Seq<char>, y: Seq<char>)
    requires
        is_closed(x),
    ensures
        tokens(x + y) == tokens(x) + tokens(y),
{
    lemma_tokens_concat_from(x, y, 0);
}

proof fn lemma_token_end_of_word(s: Seq<char>, i: int, n: int)
    requires
        0 <= i <= n < s.len(),
        forall|j: int| i <= j < n ==> !is_space(#[trigger] s[j]),
        is_space(s[n]),
    ensures
        token_end(s, i) == n,
    decreases n - i,
{
    if i < n {
        lemma_token_end_of_word(s, i + 1, n);
    }
}

/// A word with a separator after it is one token: the word.
pub proof fn lemma_tokens_word(w: Seq<char>, sp: char)
    requires
        is_word(w),
        is_space(sp),
    ensures
        tokens(w.push(sp)) == seq![w],
{
    let s = w.push(sp);
    let n = w.len() as int;
    assert forall|j: int| 0 <= j < n implies !is_space(#[trigger] s[j]) by {
        assert(s[j] == w[j]);
    }
    lemma_token_end_of_word(s, 0, n);
    assert(s.subrange(0, n) =~= w);
    assert(tokens_from(s, n + 1) =~= Seq::<Seq<char>>::empty());
    assert(tokens_from(s, n) == tokens_from(s, n + 1));
    assert(tokens(s) =~= seq![w]);
}

/// A separator alone holds no token.
pub proof fn lemma_tokens_space(sp: char)
    requires
        is_space(sp),
    ensures
        tokens(seq![sp]) == Seq::<Seq<char>>::empty(),
{
    let s = seq![sp];
    assert(tokens_from(s, 1) =~= Seq::<Seq<char>>::empty());
    assert(tokens_from(s, 0) == tokens_from(s, 1));
}

/// A number written in base ten is a word of digits that spells the number.
pub proof fn lemma_digits_spell(n: nat)
    ensures
        is_word(digits(n)),
        all_digits(digits(n)),
        digits_value(digits(n)) == n,
        integer(digits(n)) == Some(n as int),
    decreases n,
{
    let d = digits(n);
    if n < 10 {
        assert(d.drop_last() =~= Seq::<char>::empty());
        assert(d.last() == digit_char(n));
        assert(digit_value(digit_char(n)) == n);
        assert(digits_value(d) == digits_value(d.drop_last()) * 10 + digit_value(d.last()));
    } else {
        lemma_digits_spell(n / 10);
        let head = digits(n / 10);
        let last = digit_char(n % 10);
        assert(d == head.push(last));
        assert(d.drop_last() =~= head);
        assert(d.last() == last);
        assert(digit_value(last) == n % 10);
        assert forall|i: int| 0 <= i < d.len() implies is_digit(#[trigger] d[i]) && !is_space(
            d[i],
        ) by {
            if i < head.len() {
                assert(d[i] == head[i]);
            }
        }
    }
    assert(is_digit(d[0]));
    assert(unsigned_part(d) == d);
}

/// The words of a row: its values in base ten.
pub open spec fn row_words(row: Seq<usize>) -> Seq<Seq<char>> {
    Seq::new(row.len(), |c: int| digits(row[c] as nat))
}

/// The words of a grid: those of its rows, one row after the other.
pub open spec fn grid_words(g: Seq<Seq<usize>>) -> Seq<Seq<char>>
    decreases g.len(),
{
    if g.len() == 0 {
        Seq::empty()
    } else {
        grid_words(g.drop_last()) + row_words(g.last())
    }
}

/// The tokens of a row written as text are the words of the row.
pub proof fn lemma_row_tokens(row: Seq<usize>)
    ensures
        tokens(row_text(row)) == row_words(row),
        is_closed(row_text(row)),
    decreases row.len(),
{
    reveal_strlit(" ");
    if row.len() == 0 {
        assert(tokens(row_text(row)) =~= row_words(row));
    } else {
        let head = row.drop_last();
        let word = digits(row.last() as nat);
        lemma_row_tokens(head);
        lemma_digits_spell(row.last() as nat);
        assert(" "@ =~= seq![' ']);
        assert(word + " "@ =~= word.push(' '));
        lemma_tokens_word(word, ' ');
        assert(row_text(row) =~= row_text(head) + word.push(' '));
        lemma_tokens_concat(row_text(head), word.push(' '));
        assert(row_words(head) + seq![word] =~= row_words(row));
    }
}

/// The tokens of the rows written as text are the words of the grid.
pub proof fn lemma_rows_tokens(g: Seq<Seq<usize>>)
    ensures
        tokens(rows_text(g)) == grid_words(g),
        is_closed(rows_text(g)),
    decreases g.len(),
{
    reveal_strlit("\n");
    if g.len() == 0 {
        assert(tokens(rows_text(g)) =~= grid_words(g));
    } else {
        let head = g.drop_last();
        lemma_rows_tokens(head);
        lemma_row_tokens(g.last());
        assert("\n"@ =~= seq!['\n']);
        lemma_tokens_space('\n');
        let line = row_text(g.last()) + "\n"@;
        lemma_tokens_concat(row_text(g.last()), "\n"@);
        assert(rows_text(g) =~= rows_text(head) + line);
        lemma_tokens_concat(rows_text(head), line);
        assert(row_words(g.last()) + Seq::<Seq<char>>::empty() =~= row_words(g.last()));
    }
}

/// The tokens of a board written as text: its side, then the words of its
/// grid.
pub proof fn lemma_board_tokens(size: usize, g: Seq<Seq<usize>>)
    ensures
        tokens(board_text(size, g)) == seq![digits(size as nat)] + grid_words(g),
{
    reveal_strlit("\n");
    assert("\n"@ =~= seq!['\n']);
    let word = digits(size as nat);
    lemma_digits_spell(size as nat);
    lemma_tokens_word(word, '\n');
    lemma_rows_tokens(g);
    assert(word + "\n"@ =~= word.push('\n'));
    assert(board_text(size, g) =~= word.push('\n') + rows_text(g));
    lemma_tokens_concat(word.push('\n'), rows_text(g));
}

/// The grid has `h` rows of `w` cells each.
pub open spec fn is_grid(g: Seq<Seq<usize>>, h: int, w: int) -> bool {
    &&& g.len() == h
    &&& forall|r: int| 0 <= r < h ==> (#[trigger] g[r]).len() == w
}

/// The word at the place of the cell `(r, c)` among the words of a grid
/// whose rows have `w` cells.
pub open spec fn word_at(g: Seq<Seq<usize>>, w: int, r: int, c: int) -> Seq<char> {
    grid_words(g)[r * w + c]
}

/// The word of the cell `(r, c)` stands at place `r * w + c` among the
/// words of the grid.
pub proof fn lemma_grid_words(g: Seq<Seq<usize>>, h: int, w: int)
    requires
        is_grid(g, h, w),
        0 <= w,
    ensures
        grid_words(g).len() == h * w,
        forall|r: int, c: int|
            0 <= r < h && 0 <= c < w ==> #[trigger] word_at(g, w, r, c) == digits(g[r][c] as nat),
    decreases g.len(),
{
    if h == 0 {
        assert(h * w == 0) by (nonlinear_arith)
            requires
                h == 0,
        ;
    } else {
        let head = g.drop_last();
        assert(is_grid(head, h - 1, w));
        lemma_grid_words(head, h - 1, w);
        assert((h - 1) * w + w == h * w) by (nonlinear_arith);
        assert forall|r: int, c: int| 0 <= r < h && 0 <= c < w implies #[trigger] word_at(
            g,
            w,
            r,
            c,
        ) == digits(g[r][c] as nat) by {
            assert(0 <= r * w && r * w + w <= h * w) by (nonlinear_arith)
                requires
                    0 <= r < h,
                    0 <= w,
            ;
            if r < h - 1 {
                assert(r * w + w <= (h - 1) * w) by (nonlinear_arith)
                    requires
                        0 <= r < h - 1,
                        0 <= w,
                ;
                assert(head[r] == g[r]);
                assert(word_at(head, w, r, c) == digits(head[r][c] as nat));
                assert(grid_words(g)[r * w + c] == grid_words(head)[r * w + c]);
            } else {
                assert(grid_words(g)[(h - 1) * w + c] == row_words(g.last())[c]);
            }
        }
    }
}

/// The first `k` values read from the tokens of a written board are the
/// first `k` cells of the board, row by row.
proof fn lemma_values_read_back(size: usize, g: Seq<Seq<usize>>, k: nat)
    requires
        is_square(g, size as int),
        k <= size * size,
    ensures
        values_spec(tokens(board_text(size, g)), k) == Ok::<Seq<usize>, ParseFault>(
            cells(g).take(k as int),
        ),
    decreases k,
{
    let toks = tokens(board_text(size, g));
    let m = size as int;
    if k == 0 {
        assert(cells(g).take(0) =~= Seq::<usize>::empty());
    } else {
        lemma_values_read_back(size, g, (k - 1) as nat);
        lemma_board_tokens(size, g);
        lemma_grid_words(g, m, m);
        let p = k - 1;
        lemma_flat_split(m, p);
        let r = p / m;
        let c = p % m;
        assert(p == r * m + c);
        assert(word_at(g, m, r, c) == digits(g[r][c] as nat));
        assert(toks[k as int] == grid_words(g)[p]);
        lemma_digits_spell(g[r][c] as nat);
        assert(parsed(toks[k as int]) == Some(g[r][c] as i128));
        assert(token_at(toks, k as int) == Some(toks[k as int]));
        assert(read_spec(token_at(toks, k as int), 0, usize::MAX as int) == Ok::<
            int,
            ParseFault,
        >(g[r][c] as int));
        assert(cells(g)[p] == g[r][c]);
        assert(cells(g).take(k as int) =~= cells(g).take(k - 1).push(g[r][c]));
    }
}

/// A board written as text reads back as itself: the same side, and the
/// same value in every cell.
pub proof fn lemma_board_text_reads_back(size: usize, g: Seq<Seq<usize>>)
    requires
        is_square(g, size as int),
    ensures
        input_spec(board_text(size, g)) == Ok::<(usize, Seq<Seq<usize>>), ParseFault>((size, g)),
{
    let toks = tokens(board_text(size, g));
    let m = size as int;
    lemma_board_tokens(size, g);
    lemma_digits_spell(size as nat);
    assert(toks[0] == digits(size as nat));
    assert(token_at(toks, 0) == Some(toks[0]));
    assert(parsed(toks[0]) == Some(size as i128));
    assert(0 <= m * m) by (nonlinear_arith)
        requires
            0 <= m,
    ;
    lemma_values_read_back(size, g, (size * size) as nat);
    let vals = cells(g);
    assert(vals.take(m * m) =~= vals);
    let back = Seq::new(size as nat, |r: int| vals.subrange(r * m, r * m + m));
    assert forall|r: int| 0 <= r < m implies #[trigger] back[r] == g[r] by {
        assert(0 <= r * m && r * m + m <= m * m) by (nonlinear_arith)
            requires
                0 <= r < m,
        ;
        assert forall|c: int| 0 <= c < m implies back[r][c] == g[r][c] by {
            lemma_flat_index(m, r, c);
        }
        assert(back[r] =~= g[r]);
    }
    assert(back =~= g);
}

} // verus!
