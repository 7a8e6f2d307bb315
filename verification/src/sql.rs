//! Schema SQL as a sequence of pieces, and the normal form in which two
//! definitions are compared.
use vstd::prelude::*;

use crate::text::{chars_of, text_of};

verus! {

/// One piece of an SQL text.
pub enum Piece {
    /// A whitespace character or a comment.
    Gap,
    /// Structural punctuation: `(`, `)` or `,`.
    Mark(char),
    /// A quoted region with its quotes, or any other single character.
    Token(Seq<char>),
}

/// The characters that Unicode gives the property `White_Space`.
pub open spec fn is_space(c: char) -> bool {
    ||| '\u{9}' <= c <= '\u{d}'
    ||| c == '\u{20}'
    ||| c == '\u{85}'
    ||| c == '\u{a0}'
    ||| c == '\u{1680}'
    ||| '\u{2000}' <= c <= '\u{200a}'
    ||| '\u{2028}' <= c <= '\u{2029}'
    ||| c == '\u{202f}'
    ||| c == '\u{205f}'
    ||| c == '\u{3000}'
}

/// Structural punctuation.
pub open spec fn is_mark(c: char) -> bool {
    c == '(' || c == ')' || c == ','
}

/// The character that closes the quoted region which `c` opens, if it opens one.
pub open spec fn closing_quote(c: char) -> Option<char> {
    if c == '\'' || c == '"' || c == '`' {
        Some(c)
    } else if c == '[' {
        Some(']')
    } else {
        None
    }
}

/// The text begins with `--`.
pub open spec fn starts_line_comment(s: Seq<char>) -> bool {
    s.len() >= 2 && s[0] == '-' && s[1] == '-'
}

/// The text begins with `/*`.
pub open spec fn starts_block_comment(s: Seq<char>) -> bool {
    s.len() >= 2 && s[0] == '/' && s[1] == '*'
}

/// The position after the first line feed at or after `i`, or the end of the text.
pub open spec fn line_end(s: Seq<char>, i: int) -> int
    decreases s.len() - i,
{
    if i >= s.len() {
        s.len() as int
    } else if s[i] == '\n' {
        i + 1
    } else {
        line_end(s, i + 1)
    }
}

/// The position after the first `*/` at or after `i`, or the end of the text.
pub open spec fn block_end(s: Seq<char>, i: int) -> int
    decreases s.len() - i,
{
    if i + 1 >= s.len() {
        s.len() as int
    } else if s[i] == '*' && s[i + 1] == '/' {
        i + 2
    } else {
        block_end(s, i + 1)
    }
}

/// The position after the quote that closes a region whose content continues at
/// `i`, or the end of the text. A doubled quote stands for itself and closes nothing.
pub open spec fn quoted_end(s: Seq<char>, quote: char, i: int) -> int
    decreases s.len() - i,
{
    if i >= s.len() {
        s.len() as int
    } else if s[i] != quote {
        quoted_end(s, quote, i + 1)
    } else if i + 1 < s.len() && s[i + 1] == quote {
        quoted_end(s, quote, i + 2)
    } else {
        i + 1
    }
}

/// How many characters the first piece of a text takes.
pub open spec fn first_len(s: Seq<char>) -> int {
    if starts_line_comment(s) {
        line_end(s, 2)
    } else if starts_block_comment(s) {
        block_end(s, 2)
    } else {
        match closing_quote(s[0]) {
            Some(quote) => quoted_end(s, quote, 1),
            None => 1,
        }
    }
}

/// The first piece of a text.
pub open spec fn first_piece(s: Seq<char>) -> Piece {
    if starts_line_comment(s) || starts_block_comment(s) || is_space(s[0]) {
        Piece::Gap
    } else if is_mark(s[0]) {
        Piece::Mark(s[0])
    } else {
        Piece::Token(s.take(first_len(s)))
    }
}

/// The pieces of a text, from left to right.
pub open spec fn pieces(s: Seq<char>) -> Seq<Piece>
    decreases s.len(),
{
    if s.len() == 0 {
        Seq::empty()
    } else {
        proof {
            first_len_bounds(s);
        }
        seq![first_piece(s)] + pieces(s.skip(first_len(s)))
    }
}

/// The last piece that is no gap is a token.
pub open spec fn after_token(ps: Seq<Piece>) -> bool
    decreases ps.len(),
{
    ps.len() > 0 && match ps.last() {
        Piece::Gap => after_token(ps.drop_last()),
        Piece::Mark(_) => false,
        Piece::Token(_) => true,
    }
}

/// The pieces written out: one space between two tokens that gaps separate, and
/// no other gap.
pub open spec fn written(ps: Seq<Piece>) -> Seq<char>
    decreases ps.len(),
{
    if ps.len() == 0 {
        Seq::empty()
    } else {
        let before = ps.drop_last();
        match ps.last() {
            Piece::Gap => written(before),
            Piece::Mark(c) => written(before).push(c),
            Piece::Token(t) => if before.len() > 0 && before.last() is Gap && after_token(before) {
                written(before).push(' ') + t
            } else {
                written(before) + t
            },
        }
    }
}

/// The text without its last character where that is a space.
pub open spec fn without_final_space(s: Seq<char>) -> Seq<char> {
    if s.len() > 0 && s.last() == ' ' {
        s.drop_last()
    } else {
        s
    }
}

/// The normal form of an SQL text.
pub open spec fn normalized(sql: Seq<char>) -> Seq<char> {
    without_final_space(written(pieces(sql)))
}

pub(crate) proof fn line_end_bounds(s: Seq<char>, i: int)
    requires
        0 <= i <= s.len(),
    ensures
        i <= line_end(s, i) <= s.len(),
    decreases s.len() - i,
{
    if i < s.len() && s[i] != '\n' {
        line_end_bounds(s, i + 1);
    }
}

pub(crate) proof fn block_end_bounds(s: Seq<char>, i: int)
    requires
        0 <= i <= s.len(),
    ensures
        i <= block_end(s, i) <= s.len(),
    decreases s.len() - i,
{
    if i + 1 < s.len() && !(s[i] == '*' && s[i + 1] == '/') {
        block_end_bounds(s, i + 1);
    }
}

proof fn quoted_end_bounds(s: Seq<char>, quote: char, i: int)
    requires
        0 <= i <= s.len(),
    ensures
        i <= quoted_end(s, quote, i) <= s.len(),
    decreases s.len() - i,
{
    if i < s.len() {
        if s[i] != quote {
            quoted_end_bounds(s, quote, i + 1);
        } else if i + 1 < s.len() && s[i + 1] == quote {
            quoted_end_bounds(s, quote, i + 2);
        }
    }
}

/// Every piece of a text takes at least one character and ends within the text.
pub proof fn first_len_bounds(s: Seq<char>)
    requires
        s.len() > 0,
    ensures
        0 < first_len(s) <= s.len(),
{
    if s.len() >= 2 {
        line_end_bounds(s, 2);
        block_end_bounds(s, 2);
    }
    quoted_end_bounds(s, '\'', 1);
    quoted_end_bounds(s, '"', 1);
    quoted_end_bounds(s, '`', 1);
    quoted_end_bounds(s, ']', 1);
}

fn is_whitespace(c: char) -> (r: bool)
    ensures
        r == is_space(c),
{
    ('\u{9}' <= c && c <= '\u{d}') || c == '\u{20}' || c == '\u{85}' || c == '\u{a0}' || c
        == '\u{1680}' || ('\u{2000}' <= c && c <= '\u{200a}') || ('\u{2028}' <= c && c
        <= '\u{2029}') || c == '\u{202f}' || c == '\u{205f}' || c == '\u{3000}'
}

/// The length of the first piece of `chars` from `start` on.
fn piece_len(chars: &Vec<char>, start: usize) -> (n: usize)
    requires
        start < chars.len(),
    ensures
        n == first_len(chars@.skip(start as int)),
        0 < n <= chars.len() - start,
{
    let ghost s = chars@.skip(start as int);
    proof {
        first_len_bounds(s);
    }
    let len: usize = chars.len() - start;
    let c = chars[start];
    if len >= 2 && c == '-' && chars[start + 1] == '-' {
        let mut i: usize = 2;
        while i < len && chars[start + i] != '\n'
            invariant
                start < chars.len(),
                s == chars@.skip(start as int),
                len == s.len(),
                len == chars.len() - start,
                2 <= i <= len,
                line_end(s, 2) == line_end(s, i as int),
            decreases len - i,
        {
            i = i + 1;
        }
        return if i < len { i + 1 } else { len };
    }
    if len >= 2 && c == '/' && chars[start + 1] == '*' {
        let mut i: usize = 2;
        while i < len - 1 && !(chars[start + i] == '*' && chars[start + i + 1] == '/')
            invariant
                start < chars.len(),
                s == chars@.skip(start as int),
                len == s.len(),
                len == chars.len() - start,
                2 <= i <= len,
                block_end(s, 2) == block_end(s, i as int),
            decreases len - i,
        {
            i = i + 1;
        }
        return if i < len - 1 { i + 2 } else { len };
    }
    let quote: char = if c == '\'' || c == '"' || c == '`' {
        c
    } else if c == '[' {
        ']'
    } else {
        return 1;
    };
    let mut i: usize = 1;
    while i < len && !(chars[start + i] == quote && (i + 1 == len || chars[start + i + 1]
        != quote))
        invariant
            start < chars.len(),
            s == chars@.skip(start as int),
            len == s.len(),
            len == chars.len() - start,
            1 <= i <= len,
            quoted_end(s, quote, 1) == quoted_end(s, quote, i as int),
        decreases len - i,
    {
        if chars[start + i] == quote {
            i = i + 2;
        } else {
            i = i + 1;
        }
    }
    if i < len {
        i + 1
    } else {
        len
    }
}

/// Appends the characters of `chars` from `start` up to `end`.
fn push_range(out: &mut Vec<char>, chars: &Vec<char>, start: usize, end: usize)
    requires
        start <= end <= chars.len(),
    ensures
        final(out)@ == old(out)@ + chars@.subrange(start as int, end as int),
{
    let mut i: usize = start;
    while i < end
        invariant
            start <= i <= end <= chars.len(),
            out@ == old(out)@ + chars@.subrange(start as int, i as int),
        decreases end - i,
    {
        out.push(chars[i]);
        i = i + 1;
    }
}

/// Normalizes schema SQL for comparison.
///
/// Outside quoted regions a run of whitespace and comments becomes one space, and
/// no space is left at either end or next to `(`, `)` or `,`. So reformatting a
/// definition does not change its normal form, while a different token does. A
/// comment separates the tokens on its two sides as whitespace does.
///
/// Quoted regions are copied as they are: `'...'`, `"..."`, `` `...` `` and
/// `[...]`. A doubled closing quote stays inside its region, and a comment is
/// recognized outside quoted regions only.
pub fn normalize_sql(sql: &str) -> (normal: String)
    ensures
        normal@ == normalized(sql@),
{
    let chars = chars_of(sql);
    let mut out: Vec<char> = Vec::new();
    // Whether a gap comes right before `i`, and whether the last piece that is
    // no gap is a token.
    let mut gap: bool = false;
    let mut token: bool = false;
    let mut i: usize = 0;
    let ghost mut done: Seq<Piece> = Seq::empty();
    assert(chars@.skip(0) == chars@);
    while i < chars.len()
        invariant
            i <= chars.len(),
            pieces(chars@) == done + pieces(chars@.skip(i as int)),
            out@ == written(done),
            gap == (done.len() > 0 && done.last() is Gap),
            token == after_token(done),
        decreases chars.len() - i,
    {
        let ghost rest = chars@.skip(i as int);
        let ghost before = done;
        let n: usize = piece_len(&chars, i);
        let c = chars[i];
        let comment: bool = i + 1 < chars.len() && ((c == '-' && chars[i + 1] == '-') || (c == '/'
            && chars[i + 1] == '*'));
        proof {
            done = before.push(first_piece(rest));
            assert(done.drop_last() == before);
            assert(rest.skip(n as int) == chars@.skip(i + n));
            assert(pieces(rest) == seq![first_piece(rest)] + pieces(rest.skip(n as int)));
            assert(pieces(chars@) == done + pieces(chars@.skip(i + n)));
        }
        if comment || is_whitespace(c) {
            gap = true;
        } else if c == '(' || c == ')' || c == ',' {
            out.push(c);
            gap = false;
            token = false;
        } else {
            if gap && token {
                out.push(' ');
            }
            push_range(&mut out, &chars, i, i + n);
            assert(chars@.subrange(i as int, i + n) == rest.take(n as int));
            gap = false;
            token = true;
        }
        i = i + n;
    }
    assert(pieces(chars@.skip(i as int)) == Seq::<Piece>::empty());
    assert(done == pieces(chars@));
    if out.len() > 0 && out[out.len() - 1] == ' ' {
        out.pop();
    }
    text_of(&out)
}

/// The text with every `quote` doubled.
pub open spec fn doubled(s: Seq<char>, quote: char) -> Seq<char>
    decreases s.len(),
{
    if s.len() == 0 {
        Seq::empty()
    } else if s.last() == quote {
        doubled(s.drop_last(), quote).push(quote).push(quote)
    } else {
        doubled(s.drop_last(), quote).push(s.last())
    }
}

/// The text between two `quote`s, those inside it doubled.
pub open spec fn quoted(s: Seq<char>, quote: char) -> Seq<char> {
    seq![quote] + doubled(s, quote) + seq![quote]
}

/// The SQL string literal for a text.
pub open spec fn literal(s: Seq<char>) -> Seq<char> {
    quoted(s, '\'')
}

/// The SQL identifier for a name.
pub open spec fn identifier(s: Seq<char>) -> Seq<char> {
    quoted(s, '"')
}

fn quote_with(s: &str, quote: char) -> (text: String)
    ensures
        text@ == quoted(s@, quote),
{
    let chars = chars_of(s);
    let mut out: Vec<char> = Vec::new();
    out.push(quote);
    let mut i: usize = 0;
    while i < chars.len()
        invariant
            i <= chars.len(),
            out@ == seq![quote] + doubled(chars@.take(i as int), quote),
        decreases chars.len() - i,
    {
        assert(chars@.take(i + 1).drop_last() == chars@.take(i as int));
        if chars[i] == quote {
            out.push(quote);
        }
        out.push(chars[i]);
        i = i + 1;
    }
    assert(chars@.take(i as int) == chars@);
    out.push(quote);
    text_of(&out)
}

/// Quotes a text as an SQL string literal, its single quotes doubled.
pub fn quote_string_literal(s: &str) -> (quoted: String)
    ensures
        quoted@ == literal(s@),
{
    quote_with(s, '\'')
}

/// Quotes a name as an SQL identifier, its double quotes doubled.
pub fn quote_identifier(s: &str) -> (quoted: String)
    ensures
        quoted@ == identifier(s@),
{
    quote_with(s, '"')
}

} // verus!
