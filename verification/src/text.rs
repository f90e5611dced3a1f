//! The text formats: tokens between white space, and decimal numbers.

use vstd::prelude::*;
use vstd::string::StringExecFns;

verus! {

/// The characters that separate tokens: those with the Unicode property
/// `White_Space`.
pub open spec fn is_space(c: char) -> bool {
    let u = c as u32;
    ||| 0x09 <= u <= 0x0d
    ||| u == 0x20
    ||| u == 0x85
    ||| u == 0xa0
    ||| u == 0x1680
    ||| 0x2000 <= u <= 0x200a
    ||| u == 0x2028
    ||| u == 0x2029
    ||| u == 0x202f
    ||| u == 0x205f
    ||| u == 0x3000
}

/// Whether a character separates tokens.
pub fn is_space_char(c: char) -> (b: bool)
    ensures
        b == is_space(c),
{
    let u = c as u32;
    (0x09 <= u && u <= 0x0d) || u == 0x20 || u == 0x85 || u == 0xa0 || u == 0x1680 || (0x2000 <= u
        && u <= 0x200a) || u == 0x2028 || u == 0x2029 || u == 0x202f || u == 0x205f || u == 0x3000
}

/// The characters of a text, one by one.
pub fn chars_of(text: &str) -> (chars: Vec<char>)
    ensures
        chars@ == text@,
{
    let mut chars: Vec<char> = Vec::new();
    for c in it: text.chars()
        invariant
            chars@ == it.seq().take(it.index() as int),
            it.seq() == text@,
    {
        chars.push(c);
    }
    chars
}

/// The end of the token that starts at `i`: the first place from `i` on
/// that holds a separator, or the end of the text.
pub open spec fn token_end(s: Seq<char>, i: int) -> int
    decreases s.len() - i,
{
    if i < 0 || i >= s.len() {
        s.len() as int
    } else if is_space(s[i]) {
        i
    } else {
        token_end(s, i + 1)
    }
}

/// The tokens of the text from place `i` on: the longest runs of characters
/// that are no separators, in order. (A token always ends after its first
/// character and within the text, see `lemma_token_end`; the test on its end
/// is there to show that the definition comes to an end.)
pub open spec fn tokens_from(s: Seq<char>, i: int) -> Seq<Seq<char>>
    decreases s.len() - i,
{
    if i < 0 || i >= s.len() {
        Seq::empty()
    } else if is_space(s[i]) {
        tokens_from(s, i + 1)
    } else {
        let end = if i < token_end(s, i) <= s.len() {
            token_end(s, i)
        } else {
            i + 1
        };
        seq![s.subrange(i, end)] + tokens_from(s, end)
    }
}

/// The tokens of a text.
pub open spec fn tokens(s: Seq<char>) -> Seq<Seq<char>> {
    tokens_from(s, 0)
}

/// The token at place `k`, where there is one.
pub open spec fn token_at(toks: Seq<Seq<char>>, k: int) -> Option<Seq<char>> {
    if 0 <= k < toks.len() {
        Some(toks[k])
    } else {
        None
    }
}

/// A token ends within the text, after its first character where it has
/// one, and holds no separator; where the text goes on, a separator follows.
pub proof fn lemma_token_end(s: Seq<char>, i: int)
    requires
        0 <= i <= s.len(),
    ensures
        i <= token_end(s, i) <= s.len(),
        i < s.len() && !is_space(s[i]) ==> i < token_end(s, i),
        forall|j: int| i <= j < token_end(s, i) ==> !is_space(#[trigger] s[j]),
        token_end(s, i) < s.len() ==> is_space(s[token_end(s, i)]),
    decreases s.len() - i,
{
    if i < s.len() && !is_space(s[i]) {
        lemma_token_end(s, i + 1);
    }
}

/// Where the tokens of a text lie: the token at place `k` of the result
/// runs from `spans[k].0` up to, not including, `spans[k].1`.
pub open spec fn spans_match(s: Seq<char>, spans: Seq<(usize, usize)>) -> bool {
    &&& spans.len() == tokens(s).len()
    &&& forall|k: int|
        0 <= k < spans.len() ==> {
            &&& (#[trigger] spans[k]).0 < spans[k].1 <= s.len()
            &&& s.subrange(spans[k].0 as int, spans[k].1 as int) == tokens(s)[k]
        }
}

/// Finds the tokens of a text.
pub fn split_tokens(chars: &Vec<char>) -> (spans: Vec<(usize, usize)>)
    ensures
        spans_match(chars@, spans@),
{
    let ghost s = chars@;
    let mut spans: Vec<(usize, usize)> = Vec::new();
    let ghost mut found: Seq<Seq<char>> = Seq::empty();
    let mut i: usize = 0;
    while i < chars.len()
        invariant
            i <= s.len(),
            s == chars@,
            found.len() == spans@.len(),
            tokens(s) == found + tokens_from(s, i as int),
            forall|k: int|
                0 <= k < spans@.len() ==> {
                    &&& (#[trigger] spans@[k]).0 < spans@[k].1 <= s.len()
                    &&& s.subrange(spans@[k].0 as int, spans@[k].1 as int) == found[k]
                },
        decreases s.len() - i,
    {
        if is_space_char(chars[i]) {
            i += 1;
        } else {
            let start = i;
            let mut end = i + 1;
            while end < chars.len() && !is_space_char(chars[end])
                invariant
                    start < end <= s.len(),
                    s == chars@,
                    token_end(s, start as int) == token_end(s, end as int),
                    !is_space(s[start as int]),
                decreases s.len() - end,
            {
                end += 1;
            }
            proof {
                lemma_token_end(s, start as int);
                assert(token_end(s, start as int) == end);
                assert(found + (seq![s.subrange(start as int, end as int)] + tokens_from(
                    s,
                    end as int,
                )) =~= found.push(s.subrange(start as int, end as int)) + tokens_from(
                    s,
                    end as int,
                ));
                found = found.push(s.subrange(start as int, end as int));
            }
            spans.push((start, end));
            i = end;
        }
    }
    assert(tokens(s) =~= found);
    spans
}

/// A decimal digit.
pub open spec fn is_digit(c: char) -> bool {
    0x30 <= c as u32 <= 0x39
}

/// The value of a decimal digit.
pub open spec fn digit_value(c: char) -> nat {
    if is_digit(c) {
        (c as u32 - 0x30) as nat
    } else {
        0
    }
}

/// Every character is a decimal digit.
pub open spec fn all_digits(s: Seq<char>) -> bool {
    forall|i: int| 0 <= i < s.len() ==> is_digit(#[trigger] s[i])
}

/// The number that a run of digits spells in base ten.
pub open spec fn digits_value(s: Seq<char>) -> nat
    decreases s.len(),
{
    if s.len() == 0 {
        0
    } else {
        digits_value(s.drop_last()) * 10 + digit_value(s.last())
    }
}

/// The sign is `-`: the token starts with it.
pub open spec fn is_negative(t: Seq<char>) -> bool {
    t.len() > 0 && t[0] == '-'
}

/// The digits of a token: the token without the sign that may stand first.
pub open spec fn unsigned_part(t: Seq<char>) -> Seq<char> {
    if t.len() > 0 && (t[0] == '+' || t[0] == '-') {
        t.drop_first()
    } else {
        t
    }
}

/// The integer that a token spells: one or more decimal digits, with or
/// without a `+` or a `-` before them. Any other token spells none.
pub open spec fn integer(t: Seq<char>) -> Option<int> {
    if unsigned_part(t).len() > 0 && all_digits(unsigned_part(t)) {
        if is_negative(t) {
            Some(-(digits_value(unsigned_part(t)) as int))
        } else {
            Some(digits_value(unsigned_part(t)) as int)
        }
    } else {
        None
    }
}

/// The integer that a token spells, where it fits `i128`.
pub open spec fn parsed(t: Seq<char>) -> Option<i128> {
    match integer(t) {
        Some(v) => if i128::MIN <= v <= i128::MAX {
            Some(v as i128)
        } else {
            None
        },
        None => None,
    }
}

/// More digits never spell a smaller number.
pub proof fn lemma_digits_value_grows(s: Seq<char>, k: int)
    requires
        0 <= k <= s.len(),
    ensures
        digits_value(s.take(k)) <= digits_value(s),
    decreases s.len() - k,
{
    if k < s.len() {
        lemma_digits_value_grows(s, k + 1);
        assert(s.take(k + 1).drop_last() =~= s.take(k));
    } else {
        assert(s.take(k) =~= s);
    }
}

/// Reads the integer that the characters from `start` up to `end` spell.
pub fn parse_integer(chars: &Vec<char>, start: usize, end: usize) -> (r: Option<i128>)
    requires
        start <= end <= chars@.len(),
    ensures
        r == parsed(chars@.subrange(start as int, end as int)),
{
    let ghost t = chars@.subrange(start as int, end as int);
    let negative = start < end && chars[start] == '-';
    let first = if start < end && (chars[start] == '+' || chars[start] == '-') {
        start + 1
    } else {
        start
    };
    let ghost body = unsigned_part(t);
    assert(body =~= chars@.subrange(first as int, end as int));
    assert(negative == is_negative(t));
    if first == end {
        return None;
    }
    // the largest magnitude: that of the least `i128`
    let limit: u128 = 0x8000_0000_0000_0000_0000_0000_0000_0000;
    let mut acc: u128 = 0;
    let mut i: usize = first;
    assert(body.take(0) =~= Seq::<char>::empty());
    while i < end
        invariant
            start <= first <= i <= end <= chars@.len(),
            first < end,
            limit == 0x8000_0000_0000_0000_0000_0000_0000_0000,
            body == chars@.subrange(first as int, end as int),
            body == unsigned_part(chars@.subrange(start as int, end as int)),
            all_digits(body.take(i - first)),
            acc == digits_value(body.take(i - first)),
            acc <= limit,
        decreases end - i,
    {
        let c = chars[i];
        let u = c as u32;
        if u < 0x30 || u > 0x39 {
            assert(!is_digit(body[i - first]));
            return None;
        }
        let d = (u - 0x30) as u128;
        proof {
            assert(body.take(i - first + 1).drop_last() =~= body.take(i - first));
            assert(body.take(i - first + 1).last() == c);
            lemma_digits_value_grows(body, i - first + 1);
            assert(digit_value(c) == d);
            assert(digits_value(body.take(i - first + 1)) == acc * 10 + d);
            assert forall|j: int| 0 <= j < i - first + 1 implies is_digit(
                #[trigger] body.take(i - first + 1)[j],
            ) by {
                if j < i - first {
                    assert(body.take(i - first)[j] == body[j]);
                }
            }
        }
        if acc > (limit - d) / 10 {
            return None;
        }
        acc = acc * 10 + d;
        i += 1;
    }
    assert(body.take(end - first) =~= body);
    if negative {
        if acc == limit {
            Some(i128::MIN)
        } else {
            Some(-(acc as i128))
        }
    } else if acc == limit {
        None
    } else {
        Some(acc as i128)
    }
}

/// The decimal digit of a value below ten.
pub open spec fn digit_char(d: nat) -> char {
    if d == 0 {
        '0'
    } else if d == 1 {
        '1'
    } else if d == 2 {
        '2'
    } else if d == 3 {
        '3'
    } else if d == 4 {
        '4'
    } else if d == 5 {
        '5'
    } else if d == 6 {
        '6'
    } else if d == 7 {
        '7'
    } else if d == 8 {
        '8'
    } else {
        '9'
    }
}

/// A number written in base ten, without leading zeros.
pub open spec fn digits(n: nat) -> Seq<char>
    decreases n,
{
    if n < 10 {
        seq![digit_char(n)]
    } else {
        digits(n / 10).push(digit_char(n % 10))
    }
}

/// The text of one decimal digit.
fn digit_text(d: usize) -> (r: &'static str)
    requires
        d < 10,
    ensures
        r@ == seq![digit_char(d as nat)],
{
    proof {
        reveal_strlit("0");
        reveal_strlit("1");
        reveal_strlit("2");
        reveal_strlit("3");
        reveal_strlit("4");
        reveal_strlit("5");
        reveal_strlit("6");
        reveal_strlit("7");
        reveal_strlit("8");
        reveal_strlit("9");
    }
    let r = if d == 0 {
        "0"
    } else if d == 1 {
        "1"
    } else if d == 2 {
        "2"
    } else if d == 3 {
        "3"
    } else if d == 4 {
        "4"
    } else if d == 5 {
        "5"
    } else if d == 6 {
        "6"
    } else if d == 7 {
        "7"
    } else if d == 8 {
        "8"
    } else {
        "9"
    };
    assert(r@ =~= seq![digit_char(d as nat)]);
    r
}

/// Writes a number in base ten.
pub fn decimal_wide(n: u128) -> (r: String)
    ensures
        r@ == digits(n as nat),
    decreases n,
{
    if n < 10 {
        digit_text(n as usize).to_owned()
    } else {
        let mut r = decimal_wide(n / 10);
        r.append(digit_text((n % 10) as usize));
        assert(r@ =~= digits(n as nat));
        r
    }
}

/// Writes a number in base ten.
pub fn decimal(n: usize) -> (r: String)
    ensures
        r@ == digits(n as nat),
{
    decimal_wide(n as u128)
}

/// A whole number as text: in base ten, with `-` before it where it is
/// negative.
pub open spec fn signed_digits(i: int) -> Seq<char> {
    if i < 0 {
        "-"@ + digits((-i) as nat)
    } else {
        digits(i as nat)
    }
}

/// Writes a whole number in base ten, with `-` before it where it is
/// negative.
pub fn signed_decimal(v: i128) -> (r: String)
    ensures
        r@ == signed_digits(v as int),
{
    if v < 0 {
        // the magnitude, which for the least `i128` is past the greatest
        let magnitude = ((-(v + 1)) as u128) + 1;
        let mut r = "-".to_owned();
        r.append(decimal_wide(magnitude).as_str());
        r
    } else {
        decimal_wide(v as u128)
    }
}

} // verus!
