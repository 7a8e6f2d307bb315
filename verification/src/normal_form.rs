//! What the normal form of an SQL text keeps and what it leaves out.
use vstd::prelude::*;

use crate::sql::{
    after_token, block_end, block_end_bounds, closing_quote, doubled, first_len, first_len_bounds,
    first_piece, identifier, is_mark, is_space, line_end, line_end_bounds, literal, normalized,
    pieces, quoted, quoted_end, starts_block_comment, starts_line_comment, without_final_space,
    written, Piece,
};

verus! {

/// The pieces that the written form shows: every mark and token, and one gap
/// between two tokens that gaps separate.
pub open spec fn kept(ps: Seq<Piece>) -> Seq<Piece>
    decreases ps.len(),
{
    if ps.len() == 0 {
        Seq::empty()
    } else {
        let before = ps.drop_last();
        match ps.last() {
            Piece::Gap => kept(before),
            Piece::Mark(c) => kept(before).push(Piece::Mark(c)),
            Piece::Token(t) => if before.len() > 0 && before.last() is Gap && after_token(before) {
                kept(before).push(Piece::Gap).push(Piece::Token(t))
            } else {
                kept(before).push(Piece::Token(t))
            },
        }
    }
}

/// A text that ends inside a quoted region, right after a space.
pub open spec fn ends_open_at_space(s: Seq<char>) -> bool {
    pieces(s).len() > 0 && (pieces(s).last() matches Piece::Token(t) && t.last() == ' ')
}

/// Position `k` is where one piece of the text ends and the next begins, or an end
/// of the text.
pub open spec fn is_cut(s: Seq<char>, k: int) -> bool
    decreases s.len(),
{
    k == 0 || (s.len() > 0 && {
        proof {
            first_len_bounds(s);
        }
        &&& first_len(s) <= k
        &&& is_cut(s.skip(first_len(s)), k - first_len(s))
    })
}

/// A text of whitespace and comments alone.
pub open spec fn is_gap_text(s: Seq<char>) -> bool {
    s.len() > 0 && only_gaps(pieces(s))
}

/// Every piece is a gap.
pub open spec fn only_gaps(ps: Seq<Piece>) -> bool {
    forall|i: int| 0 <= i < ps.len() ==> #[trigger] ps[i] is Gap
}

/// The text `g` stands between `x` and `y` without sharing a piece with either.
pub open spec fn stands_between(x: Seq<char>, g: Seq<char>, y: Seq<char>) -> bool {
    is_cut(x + (g + y), x.len() as int) && is_cut(g + y, g.len() as int)
}

/// The text of one piece, a gap being a space.
spec fn text(p: Piece) -> Seq<char> {
    match p {
        Piece::Gap => seq![' '],
        Piece::Mark(c) => seq![c],
        Piece::Token(t) => t,
    }
}

/// The texts of the pieces, one after the other.
spec fn flat(ps: Seq<Piece>) -> Seq<char>
    decreases ps.len(),
{
    if ps.len() == 0 {
        Seq::empty()
    } else {
        flat(ps.drop_last()) + text(ps.last())
    }
}

proof fn flat_front(p: Piece, ps: Seq<Piece>)
    ensures
        flat(seq![p] + ps) == text(p) + flat(ps),
    decreases ps.len(),
{
    let all = seq![p] + ps;
    if ps.len() == 0 {
        assert(all.drop_last() == Seq::<Piece>::empty());
        assert(flat(Seq::<Piece>::empty()) == Seq::<char>::empty());
        assert(flat(all) =~= text(p) + flat(ps));
    } else {
        assert(all.drop_last() == seq![p] + ps.drop_last());
        flat_front(p, ps.drop_last());
        assert(flat(all) =~= text(p) + flat(ps));
    }
}

proof fn written_is_flat(ps: Seq<Piece>)
    ensures
        written(ps) == flat(kept(ps)),
    decreases ps.len(),
{
    if ps.len() > 0 {
        let before = ps.drop_last();
        written_is_flat(before);
        match ps.last() {
            Piece::Gap => {},
            Piece::Mark(c) => {
                assert(kept(ps).drop_last() == kept(before));
            },
            Piece::Token(t) => {
                if before.len() > 0 && before.last() is Gap && after_token(before) {
                    let mid = kept(before).push(Piece::Gap);
                    assert(kept(ps).drop_last() == mid);
                    assert(mid.drop_last() == kept(before));
                    assert(flat(mid) == written(before).push(' '));
                } else {
                    assert(kept(ps).drop_last() == kept(before));
                }
            },
        }
    }
}

/// The quoted region whose content continues at `i` is closed.
spec fn closes(s: Seq<char>, quote: char, i: int) -> bool
    decreases s.len() - i,
{
    if i >= s.len() {
        false
    } else if s[i] != quote {
        closes(s, quote, i + 1)
    } else if i + 1 < s.len() && s[i + 1] == quote {
        closes(s, quote, i + 2)
    } else {
        true
    }
}

/// The piece `p`, written out and followed by `next`, is read as `p` again.
spec fn stands(p: Piece, next: Option<char>) -> bool {
    match p {
        Piece::Gap => true,
        Piece::Mark(c) => is_mark(c),
        Piece::Token(t) => {
            &&& t.len() > 0
            &&& !is_space(t[0])
            &&& !is_mark(t[0])
            &&& match closing_quote(t[0]) {
                Some(quote) => {
                    &&& quoted_end(t, quote, 1) == t.len()
                    &&& next matches Some(c) ==> closes(t, quote, 1) && c != quote
                },
                None => {
                    &&& t.len() == 1
                    &&& !(t[0] == '-' && next == Some('-'))
                    &&& !(t[0] == '/' && next == Some('*'))
                },
            }
        },
    }
}

/// The first character of what follows position `i`.
spec fn next_char(ps: Seq<Piece>, i: int) -> Option<char> {
    if i + 1 < ps.len() {
        Some(text(ps[i + 1])[0])
    } else {
        None
    }
}

/// Every piece stands before the one that follows it.
spec fn legible(ps: Seq<Piece>) -> bool {
    forall|i: int| 0 <= i < ps.len() ==> stands(#[trigger] ps[i], next_char(ps, i))
}

proof fn quoted_end_of_prefix(x: Seq<char>, z: Seq<char>, quote: char, i: int)
    requires
        0 <= i,
        quoted_end(x + z, quote, i) <= x.len(),
    ensures
        quoted_end(x, quote, i) == quoted_end(x + z, quote, i),
        z.len() > 0 ==> closes(x.take(quoted_end(x + z, quote, i)), quote, i) && i <= x.len(),
        i <= x.len() ==> quoted_end(x.take(quoted_end(x + z, quote, i)), quote, i) == quoted_end(
            x + z,
            quote,
            i,
        ),
    decreases x.len() + z.len() - i,
{
    let s = x + z;
    let n = quoted_end(s, quote, i);
    if i < s.len() {
        if s[i] != quote {
            quoted_end_of_prefix(x, z, quote, i + 1);
            quoted_end_grows(s, quote, i + 1);
            assert(x.take(n)[i] == s[i]);
        } else if i + 1 < s.len() && s[i + 1] == quote {
            quoted_end_of_prefix(x, z, quote, i + 2);
            quoted_end_grows(s, quote, i + 2);
            assert(x.take(n)[i] == s[i]);
            assert(x.take(n)[i + 1] == s[i + 1]);
        } else {
            assert(x.take(n)[i] == s[i]);
        }
    } else {
    }
}

proof fn quoted_end_grows(s: Seq<char>, quote: char, i: int)
    requires
        0 <= i,
    ensures
        i <= s.len() ==> i <= quoted_end(s, quote, i) <= s.len(),
        i > s.len() ==> quoted_end(s, quote, i) == s.len(),
    decreases s.len() - i,
{
    if i < s.len() {
        if s[i] != quote {
            quoted_end_grows(s, quote, i + 1);
        } else if i + 1 < s.len() && s[i + 1] == quote {
            quoted_end_grows(s, quote, i + 2);
        }
    }
}

proof fn quoted_end_leaves_no_quote(s: Seq<char>, quote: char, i: int)
    requires
        0 <= i,
        quoted_end(s, quote, i) < s.len(),
    ensures
        s[quoted_end(s, quote, i)] != quote,
    decreases s.len() - i,
{
    if i < s.len() {
        if s[i] != quote {
            quoted_end_leaves_no_quote(s, quote, i + 1);
        } else if i + 1 < s.len() && s[i + 1] == quote {
            quoted_end_leaves_no_quote(s, quote, i + 2);
        }
    }
}

proof fn line_end_of_prefix(x: Seq<char>, z: Seq<char>, i: int)
    requires
        0 <= i <= x.len(),
        line_end(x + z, i) <= x.len(),
    ensures
        line_end(x, i) == line_end(x + z, i),
    decreases x.len() - i,
{
    let s = x + z;
    line_end_bounds(s, i);
    if i < x.len() {
        assert(s[i] == x[i]);
        if s[i] != '\n' {
            line_end_of_prefix(x, z, i + 1);
        }
    } else if i < s.len() && s[i] != '\n' {
        line_end_bounds(s, i + 1);
    }
}

proof fn block_end_of_prefix(x: Seq<char>, z: Seq<char>, i: int)
    requires
        0 <= i <= x.len(),
        block_end(x + z, i) <= x.len(),
    ensures
        block_end(x, i) == block_end(x + z, i),
    decreases x.len() - i,
{
    let s = x + z;
    block_end_bounds(s, i);
    if i + 1 < s.len() && !(s[i] == '*' && s[i + 1] == '/') {
        block_end_bounds(s, i + 1);
        if i + 1 <= x.len() {
            block_end_of_prefix(x, z, i + 1);
        }
    }
}

/// A piece that ends within a prefix is the first piece of the prefix too.
pub(crate) proof fn first_of_prefix(x: Seq<char>, z: Seq<char>)
    requires
        x.len() > 0,
        first_len(x + z) <= x.len(),
    ensures
        first_len(x) == first_len(x + z),
        first_piece(x) == first_piece(x + z),
{
    let s = x + z;
    let n = first_len(s);
    assert(s[0] == x[0]);
    if s.len() >= 2 {
        line_end_bounds(s, 2);
        block_end_bounds(s, 2);
    }
    if starts_line_comment(s) {
        assert(s[1] == x[1]);
        line_end_of_prefix(x, z, 2);
    } else if starts_block_comment(s) {
        assert(s[1] == x[1]);
        block_end_of_prefix(x, z, 2);
    } else {
        if x.len() >= 2 {
            assert(s[1] == x[1]);
        }
        if let Some(quote) = closing_quote(s[0]) {
            quoted_end_of_prefix(x, z, quote, 1);
        }
    }
    first_len_bounds(s);
    assert(x.take(n) == s.take(n));
}

proof fn first_stands(s: Seq<char>)
    requires
        s.len() > 0,
        !(first_piece(s) is Gap),
    ensures
        stands(
            first_piece(s),
            if first_len(s) < s.len() {
                Some(s[first_len(s)])
            } else {
                None
            },
        ),
        text(first_piece(s)).len() > 0,
        text(first_piece(s))[0] == s[0],
{
    let n = first_len(s);
    first_len_bounds(s);
    let t = s.take(n);
    let z = s.skip(n);
    assert(t + z == s);
    assert(t[0] == s[0]);
    if let Some(quote) = closing_quote(s[0]) {
        quoted_end_of_prefix(t, z, quote, 1);
        assert(t.take(n) == t);
        if n < s.len() {
            quoted_end_leaves_no_quote(s, quote, 1);
        }
    }
}

proof fn stands_before_plain(p: Piece, c: char, d: char)
    requires
        stands(p, Some(c)),
        d == ' ' || is_mark(d),
    ensures
        stands(p, Some(d)),
        stands(p, None),
{
}

/// What is read from a text is legible.
proof fn pieces_are_legible(s: Seq<char>)
    ensures
        legible(pieces(s)),
    decreases s.len(),
{
    if s.len() > 0 {
        let n = first_len(s);
        first_len_bounds(s);
        let p = first_piece(s);
        let rest = s.skip(n);
        let ps = pieces(s);
        let qs = pieces(rest);
        pieces_are_legible(rest);
        assert(ps == seq![p] + qs);
        assert forall|i: int| 0 <= i < ps.len() implies stands(#[trigger] ps[i], next_char(ps, i)) by {
            if i == 0 {
                if !(p is Gap) {
                    first_stands(s);
                    if n < s.len() {
                        first_len_bounds(rest);
                        assert(qs[0] == first_piece(rest));
                        assert(ps[1] == qs[0]);
                        assert(rest[0] == s[n]);
                        if qs[0] is Gap {
                            stands_before_plain(p, s[n], ' ');
                        } else {
                            first_stands(rest);
                        }
                    }
                }
            } else {
                assert(ps[i] == qs[i - 1]);
                if i + 1 < ps.len() {
                    assert(ps[i + 1] == qs[i]);
                }
                assert(next_char(ps, i) == next_char(qs, i - 1));
            }
        }
    }
}

proof fn legible_prefix(ps: Seq<Piece>)
    requires
        legible(ps),
        ps.len() > 0,
    ensures
        legible(ps.drop_last()),
{
    let before = ps.drop_last();
    assert forall|i: int| 0 <= i < before.len() implies stands(
        #[trigger] before[i],
        next_char(before, i),
    ) by {
        assert(stands(ps[i], next_char(ps, i)));
        assert(before[i] == ps[i]);
    }
}

proof fn legible_push(ps: Seq<Piece>, p: Piece)
    requires
        legible(ps),
        stands(p, None),
        ps.len() > 0 ==> stands(ps.last(), Some(text(p)[0])),
    ensures
        legible(ps.push(p)),
{
    let all = ps.push(p);
    assert forall|i: int| 0 <= i < all.len() implies stands(#[trigger] all[i], next_char(all, i)) by {
        if i < ps.len() {
            assert(all[i] == ps[i]);
            assert(stands(ps[i], next_char(ps, i)));
            if i + 1 < ps.len() {
                assert(all[i + 1] == ps[i + 1]);
                assert(next_char(all, i) == next_char(ps, i));
            }
        }
    }
}

/// The kept pieces are legible; the last of them is the last piece that is no
/// gap, and it stands before a space where a gap follows it.
proof fn kept_is_legible(ps: Seq<Piece>)
    requires
        legible(ps),
    ensures
        legible(kept(ps)),
        kept(ps).len() > 0 ==> !(kept(ps).last() is Gap),
        after_token(ps) <==> kept(ps).len() > 0 && kept(ps).last() is Token,
        ps.len() > 0 && !(ps.last() is Gap) ==> kept(ps).len() > 0 && kept(ps).last() == ps.last(),
        ps.len() > 0 && ps.last() is Gap && kept(ps).len() > 0 ==> stands(
            kept(ps).last(),
            Some(' '),
        ),
    decreases ps.len(),
{
    if ps.len() > 0 {
        let before = ps.drop_last();
        let p = ps.last();
        legible_prefix(ps);
        kept_is_legible(before);
        let ks = kept(before);
        assert(stands(ps[ps.len() - 1], next_char(ps, ps.len() - 1)));
        if before.len() > 0 {
            let j = before.len() - 1;
            assert(stands(ps[j], next_char(ps, j)));
            assert(ps[j] == before.last());
        }
        match p {
            Piece::Gap => {},
            Piece::Mark(c) => {
                if ks.len() > 0 && before.last() is Gap {
                    stands_before_plain(ks.last(), ' ', c);
                }
                legible_push(ks, p);
            },
            Piece::Token(t) => {
                if before.len() > 0 && before.last() is Gap {
                    if after_token(before) {
                        legible_push(ks, Piece::Gap);
                        legible_push(ks.push(Piece::Gap), p);
                    } else {
                        legible_push(ks, p);
                    }
                } else {
                    legible_push(ks, p);
                }
            },
        }
    }
}

/// A quoted region that is closed where it ends is read the same whatever other
/// character follows.
proof fn closed_quoted_end(t: Seq<char>, z: Seq<char>, quote: char, i: int)
    requires
        0 <= i,
        closes(t, quote, i),
        quoted_end(t, quote, i) == t.len(),
        z.len() > 0 ==> z[0] != quote,
    ensures
        quoted_end(t + z, quote, i) == t.len(),
    decreases t.len() - i,
{
    let s = t + z;
    if i < t.len() {
        assert(s[i] == t[i]);
        if t[i] != quote {
            closed_quoted_end(t, z, quote, i + 1);
        } else if i + 1 < t.len() && t[i + 1] == quote {
            assert(s[i + 1] == t[i + 1]);
            closed_quoted_end(t, z, quote, i + 2);
        } else {
            if i + 1 < t.len() {
                assert(s[i + 1] == t[i + 1]);
            } else if i + 1 < s.len() {
                assert(s[i + 1] == z[0]);
            }
        }
    }
}

/// A piece that stands before what follows is read from there first.
proof fn first_of_written(p: Piece, z: Seq<char>)
    requires
        stands(
            p,
            if z.len() > 0 {
                Some(z[0])
            } else {
                None
            },
        ),
    ensures
        text(p).len() > 0,
        first_piece(text(p) + z) == p,
        first_len(text(p) + z) == text(p).len(),
{
    let t = text(p);
    let s = t + z;
    assert(s[0] == t[0]);
    if s.len() >= 2 && t.len() == 1 {
        assert(s[1] == z[0]);
    }
    if p is Token {
        if let Some(quote) = closing_quote(t[0]) {
            if z.len() > 0 {
                closed_quoted_end(t, z, quote, 1);
            } else {
                assert(s == t);
            }
        }
        assert(s.take(t.len() as int) == t);
    }
}

/// Legible pieces are read back from their texts.
proof fn legible_pieces_are_read(ps: Seq<Piece>)
    requires
        legible(ps),
    ensures
        pieces(flat(ps)) == ps,
    decreases ps.len(),
{
    if ps.len() > 0 {
        let p = ps[0];
        let rest = ps.skip(1);
        assert(ps == seq![p] + rest);
        flat_front(p, rest);
        assert forall|i: int| 0 <= i < rest.len() implies stands(
            #[trigger] rest[i],
            next_char(rest, i),
        ) by {
            assert(rest[i] == ps[i + 1]);
            assert(stands(ps[i + 1], next_char(ps, i + 1)));
            if i + 1 < rest.len() {
                assert(rest[i + 1] == ps[i + 2]);
            }
        }
        legible_pieces_are_read(rest);
        let z = flat(rest);
        assert(stands(ps[0], next_char(ps, 0)));
        if rest.len() > 0 {
            let q = rest[0];
            assert(rest == seq![q] + rest.skip(1));
            flat_front(q, rest.skip(1));
            assert(stands(rest[0], next_char(rest, 0)));
            assert(text(q).len() > 0);
            assert(z[0] == text(q)[0]);
            assert(ps[1] == q);
        } else {
            assert(z == Seq::<char>::empty());
        }
        first_of_written(p, z);
        assert((text(p) + z).skip(text(p).len() as int) == z);
    } else {
        assert(flat(ps) == Seq::<char>::empty());
    }
}

proof fn closed_region_ends_in_its_quote(t: Seq<char>, quote: char, i: int)
    requires
        0 <= i,
        closes(t, quote, i),
        quoted_end(t, quote, i) == t.len(),
    ensures
        t.last() == quote,
    decreases t.len() - i,
{
    if i < t.len() {
        if t[i] != quote {
            closed_region_ends_in_its_quote(t, quote, i + 1);
        } else if i + 1 < t.len() && t[i + 1] == quote {
            closed_region_ends_in_its_quote(t, quote, i + 2);
        }
    }
}

/// The written form ends in a space exactly where the text ends in an open region
/// at one.
pub(crate) proof fn final_space_is_quoted(s: Seq<char>)
    ensures
        ends_open_at_space(s) <==> written(pieces(s)).len() > 0 && written(pieces(s)).last() == ' ',
{
    let ps = pieces(s);
    let ks = kept(ps);
    pieces_are_legible(s);
    kept_is_legible(ps);
    written_is_flat(ps);
    if ks.len() > 0 {
        let p = ks.last();
        assert(stands(ks[ks.len() - 1], next_char(ks, ks.len() - 1)));
        assert(text(p).len() > 0);
        assert(flat(ks).last() == text(p).last());
        if p is Token && ps.last() is Gap {
            if let Some(quote) = closing_quote(text(p)[0]) {
                closed_region_ends_in_its_quote(text(p), quote, 1);
            }
        }
    } else {
        assert(flat(ks) == Seq::<char>::empty());
    }
}

proof fn kept_pieces_are_read(s: Seq<char>)
    ensures
        written(pieces(s)) == flat(kept(pieces(s))),
        pieces(written(pieces(s))) == kept(pieces(s)),
{
    pieces_are_legible(s);
    kept_is_legible(pieces(s));
    written_is_flat(pieces(s));
    legible_pieces_are_read(kept(pieces(s)));
}

/// The pieces of a normal form are the kept pieces of the text it was made from.
pub proof fn normal_form_shows_the_kept_pieces(s: Seq<char>)
    requires
        !ends_open_at_space(s),
    ensures
        pieces(normalized(s)) == kept(pieces(s)),
{
    final_space_is_quoted(s);
    kept_pieces_are_read(s);
}

/// Two texts have the same tokens and the same punctuation in the same order, with
/// gaps between the same neighbouring tokens, exactly when they have the same normal
/// form, and both or neither end in an open quoted region at a space. So no token
/// difference is lost, and no other difference shows.
pub proof fn same_normal_form_means_same_tokens(a: Seq<char>, b: Seq<char>)
    ensures
        kept(pieces(a)) == kept(pieces(b)) <==> normalized(a) == normalized(b)
            && ends_open_at_space(a) == ends_open_at_space(b),
{
    final_space_is_quoted(a);
    final_space_is_quoted(b);
    kept_pieces_are_read(a);
    kept_pieces_are_read(b);
    let x = written(pieces(a));
    let y = written(pieces(b));
    if normalized(a) == normalized(b) && ends_open_at_space(a) == ends_open_at_space(b) {
        if ends_open_at_space(a) {
            assert(x == x.drop_last().push(' '));
            assert(y == y.drop_last().push(' '));
        }
        assert(x == y);
    }
}

proof fn kept_again(ps: Seq<Piece>)
    ensures
        kept(kept(ps)) == kept(ps),
        after_token(kept(ps)) == after_token(ps),
        kept(ps).len() > 0 ==> !(kept(ps).last() is Gap),
    decreases ps.len(),
{
    if ps.len() > 0 {
        let before = ps.drop_last();
        kept_again(before);
        let ks = kept(before);
        match ps.last() {
            Piece::Gap => {},
            Piece::Mark(c) => {
                assert(kept(ps).drop_last() == ks);
            },
            Piece::Token(t) => {
                if before.len() > 0 && before.last() is Gap && after_token(before) {
                    let mid = ks.push(Piece::Gap);
                    assert(mid.drop_last() == ks);
                    assert(kept(ps).drop_last() == mid);
                    assert(kept(mid) == kept(ks));
                    assert(after_token(mid));
                } else {
                    assert(kept(ps).drop_last() == ks);
                }
            },
        }
    }
}

proof fn open_region_without_its_end(t: Seq<char>, quote: char, i: int)
    requires
        0 <= i < t.len(),
        quoted_end(t, quote, i) == t.len(),
        t.last() != quote,
    ensures
        quoted_end(t.drop_last(), quote, i) == t.len() - 1,
    decreases t.len() - i,
{
    let u = t.drop_last();
    if i < u.len() {
        assert(u[i] == t[i]);
        if t[i] != quote {
            open_region_without_its_end(t, quote, i + 1);
        } else if t[i + 1] == quote {
            assert(i + 2 < t.len());
            assert(u[i + 1] == t[i + 1]);
            open_region_without_its_end(t, quote, i + 2);
        }
    }
}

/// A written form that ends in a space is read alike without it, but for its last
/// token.
proof fn open_end_is_shortened(s: Seq<char>)
    requires
        ends_open_at_space(s),
    ensures
        written(pieces(normalized(s))) == normalized(s),
{
    let ps = pieces(s);
    let ks = kept(ps);
    final_space_is_quoted(s);
    pieces_are_legible(s);
    kept_is_legible(ps);
    written_is_flat(ps);
    kept_again(ps);
    assert(ks.last() == ps.last());
    let t = text(ks.last());
    let head = ks.drop_last();
    assert(stands(ks[ks.len() - 1], next_char(ks, ks.len() - 1)));
    let quote = closing_quote(t[0])->0;
    assert(closing_quote(t[0]) is Some);
    open_region_without_its_end(t, quote, 1);
    let p = Piece::Token(t.drop_last());
    assert(t.drop_last()[0] == t[0]);
    legible_prefix(ks);
    if head.len() > 0 {
        let j = head.len() - 1;
        assert(stands(ks[j], next_char(ks, j)));
        assert(ks[j] == head.last());
        assert(next_char(ks, j) == Some(t[0]));
    }
    legible_push(head, p);
    let shorter = head.push(p);
    assert(shorter.drop_last() == head);
    legible_pieces_are_read(shorter);
    assert(flat(shorter) =~= flat(ks).drop_last());
    written_is_flat(shorter);
    assert(kept(shorter) =~= shorter) by {
        assert(kept(ks) == ks);
        assert(kept(ks).drop_last() =~= kept(shorter).drop_last());
        assert(kept(shorter).last() == p);
        assert(kept(shorter) =~= kept(shorter).drop_last().push(p));
    }
}

/// Normalizing a normal form changes nothing, unless the normal form itself ends in
/// a space, which only an open quoted region can leave there.
pub proof fn normalizing_is_idempotent(s: Seq<char>)
    requires
        normalized(s).len() > 0 ==> normalized(s).last() != ' ',
    ensures
        normalized(normalized(s)) == normalized(s),
{
    final_space_is_quoted(s);
    if ends_open_at_space(s) {
        open_end_is_shortened(s);
    } else {
        kept_pieces_are_read(s);
        written_is_flat(kept(pieces(s)));
        kept_again(pieces(s));
    }
}

/// A text is read in two parts where it is cut between two pieces.
pub(crate) proof fn pieces_of_cut_text(x: Seq<char>, y: Seq<char>)
    requires
        is_cut(x + y, x.len() as int),
    ensures
        pieces(x + y) == pieces(x) + pieces(y),
    decreases x.len(),
{
    let s = x + y;
    if x.len() == 0 {
        assert(s == y);
    } else {
        let n = first_len(s);
        first_len_bounds(s);
        first_of_prefix(x, y);
        assert(s.skip(n) == x.skip(n) + y);
        pieces_of_cut_text(x.skip(n), y);
        assert(pieces(s) == seq![first_piece(s)] + (pieces(x.skip(n)) + pieces(y)));
    }
}

proof fn kept_with_other_gaps(a: Seq<Piece>, g: Seq<Piece>, h: Seq<Piece>, b: Seq<Piece>)
    requires
        only_gaps(g),
        only_gaps(h),
        g.len() > 0,
        h.len() > 0,
    ensures
        kept(a + g + b) == kept(a + h + b),
        after_token(a + g + b) == after_token(a + h + b),
    decreases b.len(),
{
    if b.len() == 0 {
        kept_of_gaps(a, g);
        kept_of_gaps(a, h);
        assert(a + g + b == a + g);
        assert(a + h + b == a + h);
    } else {
        let c = b.drop_last();
        kept_with_other_gaps(a, g, h, c);
        assert((a + g + b).drop_last() == a + g + c);
        assert((a + h + b).drop_last() == a + h + c);
        if c.len() == 0 {
            assert((a + g + c).last() == g.last());
            assert((a + h + c).last() == h.last());
        } else {
            assert((a + g + c).last() == c.last());
            assert((a + h + c).last() == c.last());
        }
    }
}

proof fn kept_of_gaps(a: Seq<Piece>, g: Seq<Piece>)
    requires
        only_gaps(g),
    ensures
        kept(a + g) == kept(a),
        after_token(a + g) == after_token(a),
    decreases g.len(),
{
    if g.len() == 0 {
        assert(a + g == a);
    } else {
        assert((a + g).drop_last() == a + g.drop_last());
        assert(g[g.len() - 1] is Gap);
        kept_of_gaps(a, g.drop_last());
    }
}

proof fn kept_without_gaps(a: Seq<Piece>, g: Seq<Piece>, b: Seq<Piece>)
    requires
        only_gaps(g),
        a.len() == 0 || a.last() is Mark || b.len() == 0 || b[0] is Mark,
    ensures
        kept(a + g + b) == kept(a + b),
        after_token(a + g + b) == after_token(a + b),
    decreases b.len(),
{
    if b.len() == 0 {
        kept_of_gaps(a, g);
        assert(a + g + b == a + g);
        assert(a + b == a);
    } else {
        let c = b.drop_last();
        kept_of_gaps(a, g);
        kept_without_gaps(a, g, c);
        assert((a + g + b).drop_last() == a + g + c);
        assert((a + b).drop_last() == a + c);
        if c.len() > 0 {
            assert((a + g + c).last() == c.last());
            assert((a + c).last() == c.last());
        } else {
            assert(a + g + c == a + g);
            assert(a + c == a);
        }
    }
}

/// Outside quoted regions it makes no difference how a gap is spelled: any
/// whitespace and comments may stand in place of any other.
pub proof fn gaps_are_interchangeable(x: Seq<char>, g: Seq<char>, h: Seq<char>, y: Seq<char>)
    requires
        is_gap_text(g),
        is_gap_text(h),
        stands_between(x, g, y),
        stands_between(x, h, y),
    ensures
        normalized(x + (g + y)) == normalized(x + (h + y)),
{
    pieces_of_cut_text(x, g + y);
    pieces_of_cut_text(g, y);
    pieces_of_cut_text(x, h + y);
    pieces_of_cut_text(h, y);
    first_len_bounds(g);
    first_len_bounds(h);
    kept_with_other_gaps(pieces(x), pieces(g), pieces(h), pieces(y));
    assert(pieces(x) + (pieces(g) + pieces(y)) == pieces(x) + pieces(g) + pieces(y));
    assert(pieces(x) + (pieces(h) + pieces(y)) == pieces(x) + pieces(h) + pieces(y));
    written_is_flat(pieces(x + (g + y)));
    written_is_flat(pieces(x + (h + y)));
}

/// A gap at either end of a text or next to structural punctuation may be left out.
pub proof fn gaps_beside_punctuation_are_dropped(x: Seq<char>, g: Seq<char>, y: Seq<char>)
    requires
        is_gap_text(g),
        stands_between(x, g, y),
        is_cut(x + y, x.len() as int),
        x.len() == 0 || y.len() == 0 || pieces(x).last() is Mark || is_mark(y[0]),
    ensures
        normalized(x + (g + y)) == normalized(x + y),
{
    pieces_of_cut_text(x, g + y);
    pieces_of_cut_text(g, y);
    pieces_of_cut_text(x, y);
    if y.len() > 0 {
        assert(pieces(y)[0] == first_piece(y));
    }
    kept_without_gaps(pieces(x), pieces(g), pieces(y));
    assert(pieces(x) + (pieces(g) + pieces(y)) == pieces(x) + pieces(g) + pieces(y));
    written_is_flat(pieces(x + (g + y)));
    written_is_flat(pieces(x + y));
}

proof fn written_extends(a: Seq<Piece>, b: Seq<Piece>)
    ensures
        written(a + b).len() >= written(a).len(),
        written(a + b).take(written(a).len() as int) == written(a),
    decreases b.len(),
{
    if b.len() == 0 {
        assert(a + b == a);
    } else {
        let c = b.drop_last();
        written_extends(a, c);
        assert((a + b).drop_last() == a + c);
        assert(written(a + b).take(written(a + c).len() as int) == written(a + c));
        assert(written(a + b).take(written(a).len() as int) =~= written(a + c).take(
            written(a).len() as int,
        ));
    }
}

/// A token between other pieces is written as it is.
proof fn written_token(a: Seq<Piece>, t: Seq<char>, b: Seq<Piece>) -> (i: int)
    ensures
        0 <= i <= written(a.push(Piece::Token(t)) + b).len() - t.len(),
        written(a.push(Piece::Token(t)) + b).subrange(i, i + t.len()) == t,
{
    let head = a.push(Piece::Token(t));
    let w = written(head + b);
    let n = written(head).len() as int;
    assert(head.drop_last() == a);
    written_extends(head, b);
    assert(w.take(n) == written(head));
    let i = n - t.len();
    assert(written(head).skip(i) =~= t);
    assert(w.subrange(i, n) =~= w.take(n).skip(i));
    i
}

/// A quoted region is copied as it is, wherever it stands in a text.
pub proof fn quoted_regions_are_copied(x: Seq<char>, q: Seq<char>, y: Seq<char>) -> (i: int)
    requires
        q.len() > 0,
        closing_quote(q[0]) == Some(q.last()),
        first_len(q) == q.len(),
        stands_between(x, q, y),
    ensures
        0 <= i <= normalized(x + (q + y)).len() - q.len(),
        normalized(x + (q + y)).subrange(i, i + q.len()) == q,
{
    let p = Piece::Token(q);
    pieces_of_cut_text(x, q + y);
    pieces_of_cut_text(q, y);
    assert(pieces(q) =~= seq![p]) by {
        assert(q.take(q.len() as int) == q);
        assert(first_piece(q) == p);
        assert(q.skip(q.len() as int) == Seq::<char>::empty());
        assert(pieces(q) == seq![p] + pieces(Seq::<char>::empty()));
        assert(pieces(Seq::<char>::empty()) == Seq::<Piece>::empty());
    }
    assert(pieces(x) + (seq![p] + pieces(y)) =~= pieces(x).push(p) + pieces(y));
    let i = written_token(pieces(x), q, pieces(y));
    let w = written(pieces(x + (q + y)));
    assert(w[i + q.len() - 1] == q.last()) by {
        assert(w.subrange(i, i + q.len())[q.len() - 1] == q.last());
    }
    assert(without_final_space(w).subrange(i, i + q.len()) =~= w.subrange(i, i + q.len()));
    i
}

proof fn doubled_front(c: char, s: Seq<char>, quote: char)
    ensures
        doubled(seq![c] + s, quote) == (if c == quote {
            seq![quote, quote]
        } else {
            seq![c]
        }) + doubled(s, quote),
    decreases s.len(),
{
    let all = seq![c] + s;
    if s.len() == 0 {
        assert(all.drop_last() == Seq::<char>::empty());
        assert(doubled(Seq::<char>::empty(), quote) == Seq::<char>::empty());
        assert(all.last() == c);
    } else {
        assert(all.drop_last() == seq![c] + s.drop_last());
        doubled_front(c, s.drop_last(), quote);
    }
}

proof fn quoted_end_of_doubled(u: Seq<char>, s: Seq<char>, quote: char)
    ensures
        quoted_end(u + doubled(s, quote) + seq![quote], quote, u.len() as int) == u.len() + doubled(
            s,
            quote,
        ).len() + 1,
    decreases s.len(),
{
    let all = u + doubled(s, quote) + seq![quote];
    let i = u.len() as int;
    if s.len() == 0 {
        assert(doubled(s, quote) == Seq::<char>::empty());
        assert(all[i] == quote);
    } else {
        let c = s[0];
        let rest = s.skip(1);
        assert(s == seq![c] + rest);
        doubled_front(c, rest, quote);
        if c == quote {
            let v = u + seq![quote, quote];
            assert(all =~= v + doubled(rest, quote) + seq![quote]);
            assert(all[i] == quote && all[i + 1] == quote);
            quoted_end_of_doubled(v, rest, quote);
        } else {
            let v = u + seq![c];
            assert(all =~= v + doubled(rest, quote) + seq![quote]);
            assert(all[i] == c);
            quoted_end_of_doubled(v, rest, quote);
        }
    }
}

/// A string literal is one quoted region, whatever quotes its text holds.
pub proof fn literal_is_one_region(s: Seq<char>)
    ensures
        first_len(literal(s)) == literal(s).len(),
        first_piece(literal(s)) == Piece::Token(literal(s)),
        closing_quote(literal(s)[0]) == Some(literal(s).last()),
{
    quoted_end_of_doubled(seq!['\''], s, '\'');
    assert(literal(s).take(literal(s).len() as int) == literal(s));
}

/// An identifier is one quoted region, whatever quotes its name holds.
pub proof fn identifier_is_one_region(s: Seq<char>)
    ensures
        first_len(identifier(s)) == identifier(s).len(),
        first_piece(identifier(s)) == Piece::Token(identifier(s)),
        closing_quote(identifier(s)[0]) == Some(identifier(s).last()),
{
    quoted_end_of_doubled(seq!['"'], s, '"');
    assert(identifier(s).take(identifier(s).len() as int) == identifier(s));
}

/// Different texts have different literals, and different names different
/// identifiers.
pub proof fn quoted_texts_are_distinct(a: Seq<char>, b: Seq<char>)
    requires
        literal(a) == literal(b) || identifier(a) == identifier(b),
    ensures
        a == b,
{
    let quote = if literal(a) == literal(b) {
        '\''
    } else {
        '"'
    };
    let x = quoted(a, quote);
    let y = quoted(b, quote);
    assert(doubled(a, quote) =~= x.subrange(1, x.len() - 1));
    assert(doubled(b, quote) =~= y.subrange(1, y.len() - 1));
    doubled_is_injective(a, b, quote);
}

proof fn doubled_is_injective(a: Seq<char>, b: Seq<char>, quote: char)
    requires
        doubled(a, quote) == doubled(b, quote),
    ensures
        a == b,
    decreases a.len(),
{
    if a.len() == 0 {
        if b.len() > 0 {
            assert(doubled(b, quote).len() > 0);
        }
        assert(a =~= b);
    } else if b.len() == 0 {
        assert(doubled(a, quote).len() > 0);
    } else {
        let x = doubled(a, quote);
        let y = doubled(b, quote);
        assert(x.last() == a.last());
        assert(y.last() == b.last());
        if a.last() == quote {
            assert(x.drop_last().drop_last() =~= doubled(a.drop_last(), quote));
            assert(y.drop_last().drop_last() =~= doubled(b.drop_last(), quote));
        } else {
            assert(x.drop_last() =~= doubled(a.drop_last(), quote));
            assert(y.drop_last() =~= doubled(b.drop_last(), quote));
        }
        doubled_is_injective(a.drop_last(), b.drop_last(), quote);
        assert(a =~= a.drop_last().push(a.last()));
        assert(b =~= b.drop_last().push(b.last()));
    }
}

} // verus!
