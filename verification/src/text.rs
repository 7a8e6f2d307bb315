//! Characters, decimal numerals and the order of names.
use vstd::prelude::*;

verus! {

broadcast use vstd::string::group_string_axioms;

/// Appends one character to the end of a string.
///
/// Not proved: that `String::push` appends exactly the given character.
pub assume_specification[ String::push ](text: &mut String, c: char)
    ensures
        final(text)@ == old(text)@.push(c),
;

/// The texts of a sequence of strings.
pub open spec fn texts(strings: Seq<String>) -> Seq<Seq<char>> {
    Seq::new(strings.len(), |i: int| strings[i]@)
}

/// The parts one after the other, with the separator between each two of them.
pub open spec fn joined(parts: Seq<Seq<char>>, separator: Seq<char>) -> Seq<char>
    decreases parts.len(),
{
    if parts.len() == 0 {
        Seq::empty()
    } else if parts.len() == 1 {
        parts[0]
    } else {
        joined(parts.drop_last(), separator) + separator + parts.last()
    }
}

/// The decimal digits of a natural number, without leading zeros.
pub open spec fn digits(n: nat) -> Seq<char>
    decreases n,
{
    let last = (48 + n % 10) as char;
    if n < 10 {
        seq![last]
    } else {
        digits(n / 10).push(last)
    }
}

/// The decimal numeral of an integer, with a minus sign where it is negative.
pub open spec fn decimal(n: int) -> Seq<char> {
    if n < 0 {
        seq!['-'] + digits((-n) as nat)
    } else {
        digits(n as nat)
    }
}

/// The characters of a string, as a vector.
pub fn chars_of(text: &str) -> (chars: Vec<char>)
    ensures
        chars@ == text@,
{
    let mut chars: Vec<char> = Vec::new();
    for c in it: text.chars()
        invariant
            it.seq() == text@,
            chars@ == text@.take(it.index() as int),
    {
        chars.push(c);
    }
    chars
}

/// The string made of the given characters.
pub fn text_of(chars: &Vec<char>) -> (text: String)
    ensures
        text@ == chars@,
{
    let mut text = String::new();
    let mut i: usize = 0;
    while i < chars.len()
        invariant
            i <= chars.len(),
            text@ == chars@.take(i as int),
        decreases chars.len() - i,
    {
        text.push(chars[i]);
        i = i + 1;
    }
    text
}

fn digits_of(n: u64) -> (chars: Vec<char>)
    ensures
        chars@ == digits(n as nat),
    decreases n,
{
    let last: char = (48 + (n % 10) as u8) as char;
    if n < 10 {
        let mut chars: Vec<char> = Vec::new();
        chars.push(last);
        chars
    } else {
        let mut chars = digits_of(n / 10);
        chars.push(last);
        chars
    }
}

/// The decimal numeral of a signed integer.
pub fn integer_text(n: i64) -> (text: String)
    ensures
        text@ == decimal(n as int),
{
    if n < 0 {
        let digits = text_of(&digits_of((-(n as i128)) as u64));
        let mut text = String::new();
        text.push('-');
        text.append(digits.as_str());
        text
    } else {
        text_of(&digits_of(n as u64))
    }
}

/// The decimal numeral of a length.
pub fn length_text(n: usize) -> (text: String)
    ensures
        text@ == decimal(n as int),
{
    text_of(&digits_of(n as u64))
}

/// Joins the parts with the separator between each two of them.
pub fn join(parts: &Vec<String>, separator: &str) -> (text: String)
    ensures
        text@ == joined(texts(parts@), separator@),
{
    let ghost all = texts(parts@);
    let mut text = String::new();
    let mut i: usize = 0;
    while i < parts.len()
        invariant
            i <= parts.len(),
            all == texts(parts@),
            text@ == joined(all.take(i as int), separator@),
        decreases parts.len() - i,
    {
        assert(all.take(i + 1).drop_last() == all.take(i as int));
        assert(all.take(i + 1).last() == parts[i as int]@);
        if i > 0 {
            text.append(separator);
        }
        text.append(parts[i].as_str());
        i = i + 1;
    }
    assert(all.take(i as int) == all);
    text
}

/// How one text compares with another.
#[derive(Debug, Clone, Copy, PartialEq, Eq, Structural)]
pub enum Order {
    Before,
    Same,
    After,
}

/// `a` comes before `b`: at the first position where they differ, `a` has ended or
/// has the smaller code point. This is also the order of their UTF-8 encodings.
pub open spec fn precedes(a: Seq<char>, b: Seq<char>) -> bool
    decreases a.len(),
{
    if b.len() == 0 {
        false
    } else if a.len() == 0 {
        true
    } else if a[0] == b[0] {
        precedes(a.skip(1), b.skip(1))
    } else {
        a[0] < b[0]
    }
}

/// No text comes before itself, and of two texts not both come before the other.
pub proof fn precedes_is_asymmetric(a: Seq<char>, b: Seq<char>)
    requires
        precedes(a, b),
    ensures
        !precedes(b, a),
        a != b,
    decreases a.len(),
{
    if a.len() > 0 && b.len() > 0 && a[0] == b[0] {
        precedes_is_asymmetric(a.skip(1), b.skip(1));
    }
}

/// The order of texts is transitive.
pub proof fn precedes_is_transitive(a: Seq<char>, b: Seq<char>, c: Seq<char>)
    requires
        precedes(a, b),
        precedes(b, c),
    ensures
        precedes(a, c),
    decreases a.len(),
{
    if a.len() > 0 && b.len() > 0 && c.len() > 0 && a[0] == b[0] && b[0] == c[0] {
        precedes_is_transitive(a.skip(1), b.skip(1), c.skip(1));
    }
}

/// Of two different texts one comes before the other.
pub proof fn precedes_is_total(a: Seq<char>, b: Seq<char>)
    ensures
        a == b || precedes(a, b) || precedes(b, a),
    decreases a.len(),
{
    if a.len() == 0 {
        if b.len() == 0 {
            assert(a =~= b);
        }
    } else if b.len() > 0 && a[0] == b[0] {
        precedes_is_total(a.skip(1), b.skip(1));
        assert(a =~= seq![a[0]] + a.skip(1));
        assert(b =~= seq![b[0]] + b.skip(1));
    }
}

/// Compares two texts by code points.
pub fn compare_texts(a: &str, b: &str) -> (order: Order)
    ensures
        order == Order::Before <==> precedes(a@, b@),
        order == Order::Same <==> a@ == b@,
        order == Order::After <==> precedes(b@, a@),
{
    let xs = chars_of(a);
    let ys = chars_of(b);
    let mut i: usize = 0;
    assert(xs@.skip(0) == a@ && ys@.skip(0) == b@);
    while i < xs.len() && i < ys.len()
        invariant
            i <= xs.len(),
            i <= ys.len(),
            xs@ == a@,
            ys@ == b@,
            precedes(a@, b@) == precedes(xs@.skip(i as int), ys@.skip(i as int)),
            precedes(b@, a@) == precedes(ys@.skip(i as int), xs@.skip(i as int)),
            xs@.take(i as int) == ys@.take(i as int),
        decreases xs.len() - i,
    {
        let x = xs[i];
        let y = ys[i];
        if x < y {
            assert(a@[i as int] != b@[i as int]);
            return Order::Before;
        }
        if y < x {
            assert(a@[i as int] != b@[i as int]);
            return Order::After;
        }
        assert(xs@.skip(i as int).skip(1) == xs@.skip(i + 1));
        assert(ys@.skip(i as int).skip(1) == ys@.skip(i + 1));
        i = i + 1;
        assert(xs@.take(i as int) =~= xs@.take(i - 1).push(x));
        assert(ys@.take(i as int) =~= ys@.take(i - 1).push(y));
    }
    if i < ys.len() {
        assert(xs@.take(i as int) == xs@);
        Order::Before
    } else if i < xs.len() {
        assert(ys@.take(i as int) == ys@);
        Order::After
    } else {
        assert(xs@.take(i as int) == xs@);
        assert(ys@.take(i as int) == ys@);
        Order::Same
    }
}

/// Whether two strings hold the same text.
pub fn same_text(a: &str, b: &str) -> (same: bool)
    ensures
        same == (a@ == b@),
{
    compare_texts(a, b) == Order::Same
}

/// The texts of strings are theirs, one for each, in their order.
pub proof fn texts_are_those_of_the_strings(strings: Seq<String>)
    ensures
        texts(strings).len() == strings.len(),
        forall|i: int| 0 <= i < strings.len() ==> #[trigger] texts(strings)[i] == strings[i]@,
{
}

/// Joined parts lie one behind the other, from the beginning of the text to its end,
/// each two of them with the separator between them and nothing else: part `i` begins
/// at `at[i]`.
pub proof fn joined_parts_lie_behind_each_other(
    parts: Seq<Seq<char>>,
    separator: Seq<char>,
) -> (at: Seq<int>)
    ensures
        at.len() == parts.len(),
        parts.len() == 0 ==> joined(parts, separator).len() == 0,
        parts.len() > 0 ==> at[0] == 0 && at.last() + parts.last().len() == joined(
            parts,
            separator,
        ).len(),
        forall|i: int|
            0 <= i < parts.len() ==> 0 <= (#[trigger] at[i]) <= joined(parts, separator).len()
                - parts[i].len() && joined(parts, separator).subrange(at[i], at[i] + parts[i].len())
                == parts[i],
        forall|i: int|
            0 <= i < parts.len() - 1 ==> (#[trigger] at[i]) + parts[i].len() + separator.len()
                == at[i + 1] && at[i + 1] <= joined(parts, separator).len() && joined(
                parts,
                separator,
            ).subrange(at[i] + parts[i].len(), at[i + 1]) == separator,
    decreases parts.len(),
{
    let text = joined(parts, separator);
    if parts.len() == 0 {
        Seq::empty()
    } else if parts.len() == 1 {
        assert(text.subrange(0, parts[0].len() as int) =~= parts[0]);
        seq![0int]
    } else {
        let before = parts.drop_last();
        let head = joined(before, separator);
        let earlier = joined_parts_lie_behind_each_other(before, separator);
        let at = earlier.push((head.len() + separator.len()) as int);
        assert forall|i: int| 0 <= i < parts.len() implies 0 <= (#[trigger] at[i]) <= text.len()
            - parts[i].len() && text.subrange(at[i], at[i] + parts[i].len()) == parts[i] by {
            if i < before.len() {
                assert(at[i] == earlier[i] && before[i] == parts[i]);
                assert(text.subrange(at[i], at[i] + parts[i].len()) =~= head.subrange(
                    at[i],
                    at[i] + parts[i].len(),
                ));
            } else {
                assert(text.subrange(at[i], at[i] + parts[i].len()) =~= parts[i]);
            }
        }
        assert forall|i: int| 0 <= i < parts.len() - 1 implies (#[trigger] at[i]) + parts[i].len()
            + separator.len() == at[i + 1] && at[i + 1] <= text.len() && text.subrange(
            at[i] + parts[i].len(),
            at[i + 1],
        ) == separator by {
            assert(at[i] == earlier[i] && before[i] == parts[i]);
            if i < before.len() - 1 {
                assert(at[i + 1] == earlier[i + 1]);
                assert(text.subrange(at[i] + parts[i].len(), at[i + 1]) =~= head.subrange(
                    at[i] + parts[i].len(),
                    at[i + 1],
                ));
            } else {
                assert(earlier.last() == earlier[i]);
                assert(text.subrange(at[i] + parts[i].len(), at[i + 1]) =~= separator);
            }
        }
        at
    }
}

/// The number that a sequence of decimal digits stands for.
pub open spec fn number_of(digits: Seq<char>) -> int
    decreases digits.len(),
{
    if digits.len() == 0 {
        0
    } else {
        number_of(digits.drop_last()) * 10 + (digits.last() as int - '0' as int)
    }
}

/// The digits of a number stand for it: they are decimal digits without leading zeros,
/// and to read them gives the number back.
pub proof fn digits_read_back(n: nat)
    ensures
        number_of(digits(n)) == n,
        digits(n).len() > 0,
        n > 0 ==> digits(n)[0] != '0',
        n == 0 ==> digits(n).len() == 1,
        forall|i: int| 0 <= i < digits(n).len() ==> '0' <= #[trigger] digits(n)[i] <= '9',
    decreases n,
{
    let last = (48 + n % 10) as char;
    if n < 10 {
        assert(digits(n).drop_last() =~= Seq::empty());
        assert(number_of(Seq::empty()) == 0);
    } else {
        digits_read_back(n / 10);
        assert(digits(n).drop_last() =~= digits(n / 10));
        assert(digits(n)[0] == digits(n / 10)[0]);
    }
}

/// The numeral of an integer stands for it: a minus sign exactly where it is negative,
/// and then the digits of its magnitude.
pub proof fn numerals_read_back(n: int)
    ensures
        n >= 0 ==> number_of(decimal(n)) == n && decimal(n)[0] != '-',
        n < 0 ==> decimal(n)[0] == '-' && number_of(decimal(n).skip(1)) == -n,
        decimal(n).len() > 0,
        n >= 0 && decimal(n).len() > 1 ==> decimal(n)[0] != '0',
        n < 0 ==> decimal(n).len() > 1 && decimal(n)[1] != '0',
        forall|i: int|
            0 <= i < decimal(n).len() && !(i == 0 && n < 0) ==> '0' <= #[trigger] decimal(n)[i]
                <= '9',
{
    if n < 0 {
        digits_read_back((-n) as nat);
        assert(decimal(n).skip(1) =~= digits((-n) as nat));
        let ds = digits((-n) as nat);
        assert(decimal(n)[1] == ds[0]);
        if ds.len() == 1 && ds[0] == '0' {
            assert(ds.drop_last() =~= Seq::empty());
            assert(number_of(Seq::empty()) == 0);
            assert(number_of(ds) == 0);
        }
        assert forall|i: int| 0 < i < decimal(n).len() implies '0' <= #[trigger] decimal(n)[i]
            <= '9' by {
            assert(decimal(n)[i] == ds[i - 1]);
        }
    } else {
        digits_read_back(n as nat);
    }
}

/// One text comes before another where it ends first, or has the smaller character, at
/// the first place at which they are not the same.
pub proof fn precedes_by_the_first_difference(a: Seq<char>, b: Seq<char>)
    ensures
        precedes(a, b) <==> exists|k: int|
            0 <= k <= a.len() && k < b.len() && (#[trigger] a.take(k)) == b.take(k) && (k == a.len()
                || a[k] < b[k]),
    decreases a.len(),
{
    if b.len() == 0 {
    } else if a.len() == 0 {
        assert(a.take(0) =~= b.take(0));
    } else if a[0] == b[0] {
        let x = a.skip(1);
        let y = b.skip(1);
        precedes_by_the_first_difference(x, y);
        if precedes(x, y) {
            let k = choose|k: int|
                0 <= k <= x.len() && k < y.len() && (#[trigger] x.take(k)) == y.take(k) && (k
                    == x.len() || x[k] < y[k]);
            assert(a.take(k + 1) =~= seq![a[0]] + x.take(k));
            assert(b.take(k + 1) =~= seq![b[0]] + y.take(k));
        }
        if exists|k: int|
            0 <= k <= a.len() && k < b.len() && (#[trigger] a.take(k)) == b.take(k) && (k == a.len()
                || a[k] < b[k]) {
            let k = choose|k: int|
                0 <= k <= a.len() && k < b.len() && (#[trigger] a.take(k)) == b.take(k) && (k
                    == a.len() || a[k] < b[k]);
            assert(k > 0);
            assert(x.take(k - 1) =~= a.take(k).skip(1));
            assert(y.take(k - 1) =~= b.take(k).skip(1));
        }
    } else {
        if a[0] < b[0] {
            assert(a.take(0) =~= b.take(0));
        }
        if exists|k: int|
            0 <= k <= a.len() && k < b.len() && (#[trigger] a.take(k)) == b.take(k) && (k == a.len()
                || a[k] < b[k]) {
            let k = choose|k: int|
                0 <= k <= a.len() && k < b.len() && (#[trigger] a.take(k)) == b.take(k) && (k
                    == a.len() || a[k] < b[k]);
            if k > 0 {
                assert(a.take(k)[0] == b.take(k)[0]);
            }
        }
    }
}

} // verus!
