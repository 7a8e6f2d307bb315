//! How the characters of an SQL text make up its pieces, and how its normal form is
//! made of theirs.
use vstd::prelude::*;

use crate::normal_form::{
    ends_open_at_space, final_space_is_quoted, first_of_prefix, gaps_are_interchangeable, is_cut,
    is_gap_text, only_gaps, pieces_of_cut_text, stands_between,
};
use crate::sql::{
    after_token, block_end, closing_quote, doubled, first_len, first_len_bounds, first_piece,
    identifier, line_end, literal, normalized, pieces, quoted_end, without_final_space, written,
    Piece,
};

verus! {

/// No line feed occurs in the text.
pub open spec fn is_one_line(c: Seq<char>) -> bool {
    forall|i: int| 0 <= i < c.len() ==> c[i] != '\n'
}

/// The text does not hold `*/`.
pub open spec fn closes_nothing(c: Seq<char>) -> bool {
    forall|i: int| 0 <= i < c.len() - 1 ==> !(#[trigger] c[i] == '*' && c[i + 1] == '/')
}

/// A line comment with the given content.
pub open spec fn line_comment(c: Seq<char>) -> Seq<char> {
    seq!['-', '-'] + c + seq!['\n']
}

/// A block comment with the given content.
pub open spec fn block_comment(c: Seq<char>) -> Seq<char> {
    seq!['/', '*'] + c + seq!['*', '/']
}

proof fn line_end_is_the_first_line_feed(s: Seq<char>, i: int, k: int)
    requires
        0 <= i <= k <= s.len(),
        forall|j: int| i <= j < k ==> s[j] != '\n',
        k < s.len() ==> s[k] == '\n',
    ensures
        line_end(s, i) == (if k < s.len() {
            k + 1
        } else {
            k
        }),
    decreases k - i,
{
    if i < k {
        line_end_is_the_first_line_feed(s, i + 1, k);
    }
}

proof fn block_end_is_the_first_close(s: Seq<char>, i: int, k: int)
    requires
        0 <= i <= k <= s.len(),
        forall|j: int| i <= j < k && j + 1 < s.len() ==> !(#[trigger] s[j] == '*' && s[j + 1] == '/'),
        k < s.len() ==> k + 1 < s.len() && s[k] == '*' && s[k + 1] == '/',
    ensures
        block_end(s, i) == (if k < s.len() {
            k + 2
        } else {
            k
        }),
    decreases k - i,
{
    if i < k {
        block_end_is_the_first_close(s, i + 1, k);
    }
}

/// A line comment is one gap that reaches to its line feed, or to the end of the text
/// where none comes.
pub proof fn line_comments_are_gaps(c: Seq<char>, y: Seq<char>)
    requires
        is_one_line(c),
    ensures
        first_len(line_comment(c) + y) == c.len() + 3,
        first_piece(line_comment(c) + y) == Piece::Gap,
        first_len(seq!['-', '-'] + c) == c.len() + 2,
        first_piece(seq!['-', '-'] + c) == Piece::Gap,
{
    let s = line_comment(c) + y;
    assert(forall|j: int| 2 <= j < c.len() + 2 ==> s[j] == c[j - 2]);
    assert(s[c.len() as int + 2] == '\n');
    line_end_is_the_first_line_feed(s, 2, c.len() as int + 2);
    let t = seq!['-', '-'] + c;
    assert(forall|j: int| 2 <= j < c.len() + 2 ==> t[j] == c[j - 2]);
    line_end_is_the_first_line_feed(t, 2, c.len() as int + 2);
}

/// A block comment is one gap that reaches to the first `*/`, whatever else it holds, or
/// to the end of the text where none comes.
pub proof fn block_comments_are_gaps(c: Seq<char>, y: Seq<char>)
    requires
        closes_nothing(c),
    ensures
        first_len(block_comment(c) + y) == c.len() + 4,
        first_piece(block_comment(c) + y) == Piece::Gap,
        first_len(seq!['/', '*'] + c) == c.len() + 2,
        first_piece(seq!['/', '*'] + c) == Piece::Gap,
{
    let s = block_comment(c) + y;
    let n = c.len() as int;
    assert(forall|j: int| 2 <= j < n + 2 ==> s[j] == c[j - 2]);
    assert(s[n + 2] == '*' && s[n + 3] == '/');
    assert forall|j: int| 2 <= j < n + 2 && j + 1 < s.len() implies !(#[trigger] s[j] == '*' && s[j
        + 1] == '/') by {
        assert(s[j] == c[j - 2]);
        if j < n + 1 {
            assert(s[j + 1] == c[j - 1]);
        }
    }
    block_end_is_the_first_close(s, 2, n + 2);
    let t = seq!['/', '*'] + c;
    assert forall|j: int| 2 <= j < n + 2 && j + 1 < t.len() implies !(#[trigger] t[j] == '*' && t[j
        + 1] == '/') by {
        assert(t[j] == c[j - 2] && t[j + 1] == c[j - 1]);
    }
    block_end_is_the_first_close(t, 2, n + 2);
}

/// The character opens a quoted region that `close` closes.
pub open spec fn opens(open: char, close: char) -> bool {
    ||| open == '\'' && close == '\''
    ||| open == '"' && close == '"'
    ||| open == '`' && close == '`'
    ||| open == '[' && close == ']'
}

proof fn doubled_from_the_front(c: char, s: Seq<char>, quote: char)
    ensures
        doubled(seq![c] + s, quote) == (if c == quote {
            seq![quote, quote]
        } else {
            seq![c]
        }) + doubled(s, quote),
    decreases s.len(),
{
    let all = seq![c] + s;
    if s.len() == 0 {
        assert(all.drop_last() == Seq::<char>::empty());
        assert(doubled(Seq::<char>::empty(), quote) == Seq::<char>::empty());
        assert(all.last() == c);
    } else {
        assert(all.drop_last() == seq![c] + s.drop_last());
        doubled_from_the_front(c, s.drop_last(), quote);
    }
}

/// The end of a region whose content is written with its closing quotes doubled.
proof fn doubled_quotes_close_nothing(u: Seq<char>, b: Seq<char>, quote: char, y: Seq<char>)
    requires
        y.len() > 0 ==> y[0] != quote,
    ensures
        quoted_end(u + doubled(b, quote) + (seq![quote] + y), quote, u.len() as int) == u.len()
            + doubled(b, quote).len() + 1,
        quoted_end(u + doubled(b, quote), quote, u.len() as int) == u.len() + doubled(
            b,
            quote,
        ).len(),
    decreases b.len(),
{
    let d = doubled(b, quote);
    let all = u + d + (seq![quote] + y);
    let open = u + d;
    let i = u.len() as int;
    if b.len() == 0 {
        assert(d == Seq::<char>::empty());
        assert(all[i] == quote);
        if y.len() > 0 {
            assert(all[i + 1] == y[0]);
        }
        assert(open.len() == u.len());
    } else {
        let c = b[0];
        let rest = b.skip(1);
        assert(b == seq![c] + rest);
        doubled_from_the_front(c, rest, quote);
        if c == quote {
            let v = u + seq![quote, quote];
            assert(all =~= v + doubled(rest, quote) + (seq![quote] + y));
            assert(open =~= v + doubled(rest, quote));
            assert(all[i] == quote && all[i + 1] == quote);
            assert(open[i] == quote && open[i + 1] == quote);
            doubled_quotes_close_nothing(v, rest, quote, y);
        } else {
            let v = u + seq![c];
            assert(all =~= v + doubled(rest, quote) + (seq![quote] + y));
            assert(open =~= v + doubled(rest, quote));
            assert(all[i] == c);
            assert(open[i] == c);
            doubled_quotes_close_nothing(v, rest, quote, y);
        }
    }
}

/// A quoted region is one token, verbatim, from its opening quote to the first closing
/// quote that is not doubled, or to the end of the text where none comes. Comments and
/// punctuation in it are part of it.
pub proof fn quoted_regions_are_tokens(open: char, close: char, b: Seq<char>, y: Seq<char>)
    requires
        opens(open, close),
        y.len() > 0 ==> y[0] != close,
    ensures
        ({
            let region = seq![open] + doubled(b, close) + seq![close];
            &&& first_len(region + y) == region.len()
            &&& first_piece(region + y) == Piece::Token(region)
        }),
        ({
            let rest = seq![open] + doubled(b, close);
            &&& first_len(rest) == rest.len()
            &&& first_piece(rest) == Piece::Token(rest)
        }),
{
    let u = seq![open];
    let region = u + doubled(b, close) + seq![close];
    let rest = u + doubled(b, close);
    doubled_quotes_close_nothing(u, b, close, y);
    assert(region + y =~= u + doubled(b, close) + (seq![close] + y));
    assert((region + y).take(region.len() as int) =~= region);
    assert(rest.take(rest.len() as int) =~= rest);
    assert((region + y)[0] == open);
    assert(rest[0] == open);
}

/// Content in which the closing quote does not occur is written as it is.
pub proof fn other_content_is_not_doubled(b: Seq<char>, quote: char)
    requires
        forall|i: int| 0 <= i < b.len() ==> b[i] != quote,
    ensures
        doubled(b, quote) == b,
    decreases b.len(),
{
    if b.len() > 0 {
        other_content_is_not_doubled(b.drop_last(), quote);
        assert(doubled(b, quote) =~= b);
    }
}

/// The characters of Unicode's property `White_Space`.
pub open spec fn is_white(c: char) -> bool {
    let n = c as int;
    ||| 9 <= n <= 13
    ||| n == 32
    ||| n == 0x85
    ||| n == 0xa0
    ||| n == 0x1680
    ||| 0x2000 <= n <= 0x200a
    ||| n == 0x2028
    ||| n == 0x2029
    ||| n == 0x202f
    ||| n == 0x205f
    ||| n == 0x3000
}

/// Outside quoted regions and comments every character is a piece of its own: white
/// space is a gap, `(`, `)` and `,` are punctuation, and every other is a token that
/// shows just that character.
pub proof fn other_characters_stand_alone(c: char, y: Seq<char>)
    requires
        c != '\'' && c != '"' && c != '`' && c != '[',
        c == '-' ==> y.len() == 0 || y[0] != '-',
        c == '/' ==> y.len() == 0 || y[0] != '*',
    ensures
        first_len(seq![c] + y) == 1,
        is_white(c) ==> first_piece(seq![c] + y) == Piece::Gap,
        c == '(' || c == ')' || c == ',' ==> first_piece(seq![c] + y) == Piece::Mark(c),
        !is_white(c) && c != '(' && c != ')' && c != ',' ==> first_piece(seq![c] + y)
            == Piece::Token(seq![c]),
{
    let s = seq![c] + y;
    assert(s[0] == c);
    if s.len() >= 2 {
        assert(s[1] == y[0]);
    }
    assert(s.take(1) =~= seq![c]);
}

proof fn one_piece(s: Seq<char>)
    requires
        s.len() > 0,
        first_len(s) == s.len(),
    ensures
        pieces(s) == seq![first_piece(s)],
{
    assert(s.skip(s.len() as int) =~= Seq::empty());
    assert(pieces(Seq::<char>::empty()) =~= Seq::<Piece>::empty());
    assert(pieces(s) =~= seq![first_piece(s)]);
}

/// The normal form of a text of one piece: a token shows as it is, but for a final
/// space; a gap does not show.
proof fn normal_form_of_one_piece(s: Seq<char>)
    requires
        s.len() > 0,
        first_len(s) == s.len(),
    ensures
        first_piece(s) matches Piece::Token(t) ==> normalized(s) == without_final_space(t),
        first_piece(s) matches Piece::Mark(c) ==> normalized(s) == without_final_space(seq![c]),
        first_piece(s) is Gap ==> normalized(s) == Seq::<char>::empty(),
{
    one_piece(s);
    let ps = seq![first_piece(s)];
    assert(ps.drop_last() =~= Seq::empty());
    assert(written(Seq::<Piece>::empty()) == Seq::<char>::empty());
    match first_piece(s) {
        Piece::Gap => {},
        Piece::Mark(c) => {
            assert(written(ps) =~= seq![c]);
        },
        Piece::Token(t) => {
            assert(written(ps) =~= t);
        },
    }
}

/// A single character is its own normal form, and white space has an empty one.
pub proof fn single_characters_are_kept(c: char)
    ensures
        is_white(c) ==> normalized(seq![c]) == Seq::<char>::empty(),
        !is_white(c) ==> normalized(seq![c]) == seq![c],
        normalized(Seq::<char>::empty()) == Seq::<char>::empty(),
{
    let s = seq![c];
    let none = Seq::<char>::empty();
    assert(pieces(none) =~= Seq::<Piece>::empty());
    assert(s + none =~= s);
    if c == '\'' || c == '"' || c == '`' || c == '[' {
        let close = if c == '[' {
            ']'
        } else {
            c
        };
        quoted_regions_are_tokens(c, close, none, none);
        assert(seq![c] + doubled(none, close) =~= s);
    } else {
        other_characters_stand_alone(c, none);
    }
    normal_form_of_one_piece(s);
}

/// A closed quoted region is its own normal form, and comments have empty ones.
pub proof fn regions_are_kept_and_comments_dropped(
    open: char,
    close: char,
    b: Seq<char>,
    c: Seq<char>,
)
    requires
        opens(open, close),
    ensures
        normalized(seq![open] + doubled(b, close) + seq![close]) == seq![open] + doubled(b, close)
            + seq![close],
        is_one_line(c) ==> normalized(line_comment(c)) == Seq::<char>::empty(),
        closes_nothing(c) ==> normalized(block_comment(c)) == Seq::<char>::empty(),
{
    let none = Seq::<char>::empty();
    let region = seq![open] + doubled(b, close) + seq![close];
    quoted_regions_are_tokens(open, close, b, none);
    assert(region + none =~= region);
    normal_form_of_one_piece(region);
    assert(region.last() == close);
    if is_one_line(c) {
        line_comments_are_gaps(c, none);
        assert(line_comment(c) + none =~= line_comment(c));
        normal_form_of_one_piece(line_comment(c));
    }
    if closes_nothing(c) {
        block_comments_are_gaps(c, none);
        assert(block_comment(c) + none =~= block_comment(c));
        normal_form_of_one_piece(block_comment(c));
    }
}

/// A quoted region that the text does not close is its own normal form, but for a space
/// at its end; a comment that the text does not close has an empty one.
pub proof fn open_regions_lose_a_final_space(
    open: char,
    close: char,
    b: Seq<char>,
    c: Seq<char>,
)
    requires
        opens(open, close),
    ensures
        b.len() == 0 || b.last() != ' ' ==> normalized(seq![open] + doubled(b, close)) == seq![open]
            + doubled(b, close),
        normalized(seq![open] + doubled(b.push(' '), close)) == seq![open] + doubled(b, close),
        is_one_line(c) ==> normalized(seq!['-', '-'] + c) == Seq::<char>::empty(),
        closes_nothing(c) ==> normalized(seq!['/', '*'] + c) == Seq::<char>::empty(),
{
    let none = Seq::<char>::empty();
    let more = b.push(' ');
    quoted_regions_are_tokens(open, close, b, none);
    normal_form_of_one_piece(seq![open] + doubled(b, close));
    if b.len() > 0 && b.last() != ' ' {
        assert(doubled(b, close).last() == b.last());
    }
    quoted_regions_are_tokens(open, close, more, none);
    normal_form_of_one_piece(seq![open] + doubled(more, close));
    assert(more.drop_last() =~= b);
    assert(doubled(more, close) =~= doubled(b, close).push(' '));
    assert((seq![open] + doubled(more, close)).drop_last() =~= seq![open] + doubled(b, close));
    if is_one_line(c) {
        line_comments_are_gaps(c, none);
        normal_form_of_one_piece(seq!['-', '-'] + c);
    }
    if closes_nothing(c) {
        block_comments_are_gaps(c, none);
        normal_form_of_one_piece(seq!['/', '*'] + c);
    }
}

/// What follows a piece that is no gap does not depend on what comes before it.
proof fn after_token_of_the_rest(a: Seq<Piece>, b: Seq<Piece>)
    requires
        b.len() > 0,
        !(b[0] is Gap),
    ensures
        after_token(a + b) == after_token(b),
    decreases b.len(),
{
    assert((a + b).last() == b.last());
    assert((a + b).drop_last() =~= a + b.drop_last());
    if b.len() > 1 {
        assert(b.drop_last()[0] == b[0]);
        if b.last() is Gap {
            after_token_of_the_rest(a, b.drop_last());
        }
    }
}

/// Two runs of pieces are written one behind the other; a space comes between them
/// where gaps separate a token from a token.
proof fn written_in_two_parts(a: Seq<Piece>, g: Seq<Piece>, b: Seq<Piece>)
    requires
        a.len() > 0,
        b.len() > 0,
        !(a.last() is Gap),
        !(b[0] is Gap),
        only_gaps(g),
    ensures
        written(a + g + b) == written(a) + (if g.len() > 0 && a.last() is Token && b[0] is Token {
            seq![' ']
        } else {
            Seq::empty()
        }) + written(b),
    decreases b.len(),
{
    let all = a + g + b;
    let before = b.drop_last();
    assert(all.last() == b.last());
    assert(all.drop_last() =~= a + g + before);
    let space = if g.len() > 0 && a.last() is Token && b[0] is Token {
        seq![' ']
    } else {
        Seq::<char>::empty()
    };
    if b.len() == 1 {
        assert(a + g + before =~= a + g);
        written_of_gaps(a, g);
        assert(before =~= Seq::empty());
        assert(written(before) == Seq::<char>::empty());
        if g.len() > 0 {
            assert((a + g).last() == g.last());
            assert(g.last() is Gap);
        } else {
            assert(a + g =~= a);
        }
        assert(after_token(a) == (a.last() is Token));
        match b.last() {
            Piece::Gap => {},
            Piece::Mark(c) => {
                assert(written(b) =~= seq![c]);
                assert(written(all) =~= written(a) + space + written(b));
            },
            Piece::Token(t) => {
                assert(written(b) =~= t);
                assert(written(all) =~= written(a) + space + written(b));
            },
        }
    } else {
        assert(before[0] == b[0]);
        written_in_two_parts(a, g, before);
        after_token_of_the_rest(a + g, before);
        assert((a + g + before).last() == before.last());
        assert(written(all) =~= written(a) + space + written(b));
    }
}

proof fn written_of_gaps(a: Seq<Piece>, g: Seq<Piece>)
    requires
        only_gaps(g),
    ensures
        written(a + g) == written(a),
        after_token(a + g) == after_token(a),
    decreases g.len(),
{
    if g.len() == 0 {
        assert(a + g =~= a);
    } else {
        let h = g.drop_last();
        assert forall|i: int| 0 <= i < h.len() implies #[trigger] h[i] is Gap by {
            assert(h[i] == g[i]);
        }
        assert(g[g.len() - 1] is Gap);
        assert((a + g).drop_last() =~= a + h);
        assert((a + g).last() is Gap);
        written_of_gaps(a, h);
    }
}

/// A text that is followed by another piece does not end in an open region.
proof fn closed_before_the_rest(x: Seq<char>, y: Seq<char>)
    requires
        x.len() > 0,
        y.len() > 0,
        is_cut(x + y, x.len() as int),
    ensures
        normalized(x) == written(pieces(x)),
{
    final_space_is_quoted(x);
    if ends_open_at_space(x) {
        cut_text_is_closed(x, y);
    }
}

proof fn cut_text_is_closed(x: Seq<char>, y: Seq<char>)
    requires
        x.len() > 0,
        y.len() > 0,
        is_cut(x + y, x.len() as int),
    ensures
        !ends_open_at_space(x),
    decreases x.len(),
{
    let s = x + y;
    let n = first_len(s);
    first_len_bounds(s);
    pieces_of_cut_text(x, y);
    first_of_prefix(x, y);
    assert(pieces(x) == seq![first_piece(x)] + pieces(x.skip(first_len(x))));
    if n == x.len() {
        assert(x.skip(n) =~= Seq::empty());
        assert(pieces(Seq::<char>::empty()) =~= Seq::<Piece>::empty());
        assert(pieces(x).last() == first_piece(x));
        if let Some(quote) = closing_quote(s[0]) {
            region_ends_in_its_quote(s, quote, 1);
            assert(x.take(n) =~= x);
            assert(x.last() == s[n - 1]);
        } else if first_piece(x) is Token {
            assert(x.take(n)[0] == x[0]);
        }
    } else {
        assert(s.skip(n) =~= x.skip(n) + y);
        cut_text_is_closed(x.skip(n), y);
        assert(pieces(x.skip(n)).len() > 0) by {
            first_len_bounds(x.skip(n));
        }
        assert(pieces(x).last() == pieces(x.skip(n)).last());
    }
}

/// A region that ends before the end of the text ends in its closing quote.
proof fn region_ends_in_its_quote(s: Seq<char>, quote: char, i: int)
    requires
        0 <= i,
        quoted_end(s, quote, i) < s.len(),
    ensures
        quoted_end(s, quote, i) > i,
        s[quoted_end(s, quote, i) - 1] == quote,
    decreases s.len() - i,
{
    if i < s.len() {
        if s[i] != quote {
            region_ends_in_its_quote(s, quote, i + 1);
        } else if i + 1 < s.len() && s[i + 1] == quote {
            region_ends_in_its_quote(s, quote, i + 2);
        }
    }
}

/// The normal form of two texts without a gap between them is theirs, one behind the
/// other.
pub proof fn adjoining_texts_are_normalized_apart(x: Seq<char>, y: Seq<char>)
    requires
        x.len() > 0,
        y.len() > 0,
        is_cut(x + y, x.len() as int),
        !(pieces(x).last() is Gap),
        !(first_piece(y) is Gap),
    ensures
        normalized(x + y) == normalized(x) + normalized(y),
{
    let none = Seq::<Piece>::empty();
    pieces_of_cut_text(x, y);
    first_len_bounds(x);
    first_len_bounds(y);
    closed_before_the_rest(x, y);
    written_in_two_parts(pieces(x), none, pieces(y));
    assert(pieces(x) + none + pieces(y) =~= pieces(x) + pieces(y));
    assert(written(pieces(x)) + Seq::<char>::empty() + written(pieces(y)) =~= written(pieces(x))
        + written(pieces(y)));
    let a = written(pieces(x));
    let b = written(pieces(y));
    written_is_shown(y);
    assert(without_final_space(a + b) =~= a + without_final_space(b)) by {
        assert((a + b).last() == b.last());
    }
}

/// The normal form of two texts with a gap between them is theirs, with one space
/// between them where a token stands on either side of the gap, and none where
/// punctuation does.
pub proof fn separated_texts_are_normalized_apart(x: Seq<char>, g: Seq<char>, y: Seq<char>)
    requires
        x.len() > 0,
        y.len() > 0,
        is_gap_text(g),
        stands_between(x, g, y),
        !(pieces(x).last() is Gap),
        !(first_piece(y) is Gap),
    ensures
        normalized(x + (g + y)) == normalized(x) + (if pieces(x).last() is Token && first_piece(
            y,
        ) is Token {
            seq![' ']
        } else {
            Seq::empty()
        }) + normalized(y),
{
    pieces_of_cut_text(x, g + y);
    pieces_of_cut_text(g, y);
    first_len_bounds(x);
    first_len_bounds(g);
    first_len_bounds(y);
    closed_before_the_rest(x, g + y);
    written_in_two_parts(pieces(x), pieces(g), pieces(y));
    assert(pieces(x) + pieces(g) + pieces(y) =~= pieces(x) + (pieces(g) + pieces(y)));
    let a = written(pieces(x));
    let b = written(pieces(y));
    let space = if pieces(x).last() is Token && first_piece(y) is Token {
        seq![' ']
    } else {
        Seq::<char>::empty()
    };
    written_is_shown(y);
    assert(without_final_space(a + space + b) =~= a + space + without_final_space(b)) by {
        assert((a + space + b).last() == b.last());
    }
}

/// A text that begins with a piece that is no gap shows something.
proof fn written_is_shown(y: Seq<char>)
    requires
        y.len() > 0,
        !(first_piece(y) is Gap),
    ensures
        written(pieces(y)).len() > 0,
{
    let ps = pieces(y);
    first_len_bounds(y);
    assert(ps[0] == first_piece(y));
    shown_from_the_first(ps);
    if let Piece::Token(t) = first_piece(y) {
        assert(t.len() == first_len(y));
    }
}

proof fn shown_from_the_first(ps: Seq<Piece>)
    requires
        ps.len() > 0,
        !(ps[0] is Gap),
    ensures
        written(ps).len() >= (match ps[0] {
            Piece::Token(t) => t.len(),
            _ => 1,
        }),
    decreases ps.len(),
{
    if ps.len() > 1 {
        assert(ps.drop_last()[0] == ps[0]);
        shown_from_the_first(ps.drop_last());
    } else {
        assert(ps.drop_last() =~= Seq::empty());
    }
}

/// A text of whitespace and comments alone has an empty normal form.
pub proof fn gap_texts_do_not_show(g: Seq<char>)
    requires
        is_gap_text(g),
    ensures
        normalized(g) == Seq::<char>::empty(),
{
    let none = Seq::<Piece>::empty();
    written_of_gaps(none, pieces(g));
    assert(none + pieces(g) =~= pieces(g));
}

/// A comment makes the difference that a space makes in its place.
pub proof fn comments_are_as_spaces(x: Seq<char>, c: Seq<char>, y: Seq<char>)
    requires
        is_cut(x + (seq![' '] + y), x.len() as int),
    ensures
        is_one_line(c) && is_cut(x + (line_comment(c) + y), x.len() as int) ==> normalized(
            x + (line_comment(c) + y),
        ) == normalized(x + (seq![' '] + y)),
        closes_nothing(c) && is_cut(
            x + (block_comment(c) + y),
            x.len() as int,
        ) ==> normalized(x + (block_comment(c) + y)) == normalized(x + (seq![' '] + y)),
{
    let space = seq![' '];
    other_characters_stand_alone(' ', y);
    other_characters_stand_alone(' ', Seq::empty());
    assert(space + Seq::<char>::empty() =~= space);
    one_piece_is_a_gap(space, y);
    if is_one_line(c) {
        line_comments_are_gaps(c, y);
        line_comments_are_gaps(c, Seq::empty());
        assert(line_comment(c) + Seq::<char>::empty() =~= line_comment(c));
        one_piece_is_a_gap(line_comment(c), y);
        if is_cut(x + (line_comment(c) + y), x.len() as int) {
            gaps_are_interchangeable(x, line_comment(c), space, y);
        }
    }
    if closes_nothing(c) {
        block_comments_are_gaps(c, y);
        block_comments_are_gaps(c, Seq::empty());
        assert(block_comment(c) + Seq::<char>::empty() =~= block_comment(c));
        one_piece_is_a_gap(block_comment(c), y);
        if is_cut(x + (block_comment(c) + y), x.len() as int) {
            gaps_are_interchangeable(x, block_comment(c), space, y);
        }
    }
}

proof fn one_piece_is_a_gap(g: Seq<char>, y: Seq<char>)
    requires
        g.len() > 0,
        first_len(g) == g.len(),
        first_piece(g) is Gap,
        first_len(g + y) == g.len(),
    ensures
        is_gap_text(g),
        is_cut(g + y, g.len() as int),
{
    one_piece(g);
    let rest = (g + y).skip(g.len() as int);
    assert(is_cut(rest, 0));
}

/// The text that is written between quotes with those in it doubled.
pub open spec fn undoubled(t: Seq<char>, quote: char) -> Seq<char>
    decreases t.len(),
{
    if t.len() == 0 {
        Seq::empty()
    } else if t.len() > 1 && t[0] == quote {
        seq![quote] + undoubled(t.skip(2), quote)
    } else {
        seq![t[0]] + undoubled(t.skip(1), quote)
    }
}

proof fn doubled_reads_back(s: Seq<char>, quote: char)
    ensures
        undoubled(doubled(s, quote), quote) == s,
    decreases s.len(),
{
    if s.len() == 0 {
        assert(doubled(s, quote) =~= Seq::empty());
        assert(undoubled(doubled(s, quote), quote) =~= s);
    } else {
        let c = s[0];
        let rest = s.skip(1);
        let d = doubled(s, quote);
        assert(s =~= seq![c] + rest);
        doubled_from_the_front(c, rest, quote);
        doubled_reads_back(rest, quote);
        if c == quote {
            assert(d.skip(2) =~= doubled(rest, quote));
        } else {
            assert(d.skip(1) =~= doubled(rest, quote));
        }
        assert(undoubled(d, quote) =~= s);
    }
}

/// A string literal and an identifier stand for the text they were made from: between
/// two single or double quotes it can be read back, each two quotes as one.
pub proof fn quoted_texts_read_back(s: Seq<char>)
    ensures
        literal(s).len() >= 2,
        literal(s)[0] == '\'' && literal(s).last() == '\'',
        undoubled(literal(s).subrange(1, literal(s).len() - 1), '\'') == s,
        identifier(s).len() >= 2,
        identifier(s)[0] == '"' && identifier(s).last() == '"',
        undoubled(identifier(s).subrange(1, identifier(s).len() - 1), '"') == s,
{
    doubled_reads_back(s, '\'');
    doubled_reads_back(s, '"');
    assert(literal(s).subrange(1, literal(s).len() - 1) =~= doubled(s, '\''));
    assert(identifier(s).subrange(1, identifier(s).len() - 1) =~= doubled(s, '"'));
}

} // verus!
