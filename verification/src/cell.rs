//! Cleaning of one cell.
//!
//! A cell is trimmed first. What is left is then, in this order, emptied if
//! it is a null marker, reduced to its integer form if it is an integral
//! decimal, and otherwise has each of its quotes doubled. The cell before
//! that last step is its normal form: the text that stands between the
//! quotes' doubling and everything else.

use crate::chars::{
    ascii_digit, ascii_lower, is_ascii_digit, is_white_space, to_ascii_lower, white_space,
};
use vstd::prelude::*;

verus! {

/// The single std function that the cleaner builds its results with:
/// `String::push` appends the given character to the end of the string.
pub assume_specification[ String::push ](s: &mut String, ch: char)
    ensures
        final(s)@ == old(s)@.push(ch),
;

/// `s` without its leading white space.
pub open spec fn trim_start(s: Seq<char>) -> Seq<char>
    decreases s.len(),
{
    if s.len() > 0 && white_space(s[0]) {
        trim_start(s.drop_first())
    } else {
        s
    }
}

/// `s` without its trailing white space.
pub open spec fn trim_end(s: Seq<char>) -> Seq<char>
    decreases s.len(),
{
    if s.len() > 0 && white_space(s.last()) {
        trim_end(s.drop_last())
    } else {
        s
    }
}

/// `s` without its leading and trailing white space.
pub open spec fn trim(s: Seq<char>) -> Seq<char> {
    trim_end(trim_start(s))
}

/// `s` with every ASCII capital letter folded to its small letter.
pub open spec fn lower(s: Seq<char>) -> Seq<char> {
    Seq::new(s.len(), |i: int| ascii_lower(s[i]))
}

/// The first null marker: a backslash followed by the letter n.
pub open spec fn escaped_newline() -> Seq<char> {
    seq!['\\', 'n']
}

/// The second null marker: the word "null".
pub open spec fn null_word() -> Seq<char> {
    seq!['n', 'u', 'l', 'l']
}

/// Whether `s` is, letter case aside, one of the two null markers.
pub open spec fn is_null_marker(s: Seq<char>) -> bool {
    lower(s) == escaped_newline() || lower(s) == null_word()
}

/// Whether `s` ends with a point followed by a zero.
pub open spec fn ends_with_point_zero(s: Seq<char>) -> bool {
    s.len() >= 2 && s[s.len() - 2] == '.' && s[s.len() - 1] == '0'
}

/// Whether every character of `s` is an ASCII decimal digit.
pub open spec fn all_digits(s: Seq<char>) -> bool {
    forall|i: int| 0 <= i < s.len() ==> ascii_digit(#[trigger] s[i])
}

/// Whether `s` is an integral decimal: one or more digits, then a point and
/// a zero, and nothing else. A second point, a sign or a letter makes it
/// none, and so does the lack of a digit before the point.
pub open spec fn is_integral_decimal(s: Seq<char>) -> bool {
    &&& s.len() >= 3
    &&& ends_with_point_zero(s)
    &&& all_digits(s.subrange(0, s.len() - 2))
}

/// `s` without the run of `c` at its end.
pub open spec fn strip_trailing(s: Seq<char>, c: char) -> Seq<char>
    decreases s.len(),
{
    if s.len() > 0 && s.last() == c {
        strip_trailing(s.drop_last(), c)
    } else {
        s
    }
}

/// `s` without the point at its end, if there is one.
pub open spec fn strip_point(s: Seq<char>) -> Seq<char> {
    if s.len() > 0 && s.last() == '.' {
        s.drop_last()
    } else {
        s
    }
}

/// The integer form of an integral decimal: the trailing zeros go, then the
/// point that they leave at the end.
pub open spec fn integer_form(s: Seq<char>) -> Seq<char> {
    strip_point(strip_trailing(s, '0'))
}

/// What one character becomes when quotes are doubled.
pub open spec fn escape_char(c: char) -> Seq<char> {
    if c == '"' {
        seq!['"', '"']
    } else {
        seq![c]
    }
}

/// `s` with each double quote doubled and every other character kept.
pub open spec fn escape_quotes(s: Seq<char>) -> Seq<char>
    decreases s.len(),
{
    if s.len() == 0 {
        s
    } else {
        escape_quotes(s.drop_last()) + escape_char(s.last())
    }
}

/// The normal form of a cell that has no white space at either end: empty
/// for a null marker, the integer form for an integral decimal, and the
/// cell itself otherwise.
pub open spec fn normal_trimmed(s: Seq<char>) -> Seq<char> {
    if is_null_marker(s) {
        Seq::empty()
    } else if is_integral_decimal(s) {
        integer_form(s)
    } else {
        s
    }
}

/// The normal form of a cell: what the cell stands for, before any quote in
/// it is doubled.
pub open spec fn normal_form(s: Seq<char>) -> Seq<char> {
    normal_trimmed(trim(s))
}

/// The cleaned form of a cell that has no white space at either end.
pub open spec fn clean_trimmed(s: Seq<char>) -> Seq<char> {
    if is_null_marker(s) {
        Seq::empty()
    } else if is_integral_decimal(s) {
        integer_form(s)
    } else {
        escape_quotes(s)
    }
}

/// The cleaned form of a cell.
pub open spec fn clean_cell(s: Seq<char>) -> Seq<char> {
    clean_trimmed(trim(s))
}

/// The characters of `text`, in order.
fn chars_of(text: &str) -> (out: Vec<char>)
    ensures
        out@ == text@,
{
    let mut out: Vec<char> = Vec::new();
    for c in it: text.chars()
        invariant
            it.seq() == text@,
            out@ == it.seq().subrange(0, it.index() as int),
    {
        out.push(c);
    }
    out
}

/// The bounds of what trimming leaves of `chars`.
fn trim_bounds(chars: &Vec<char>) -> (bounds: (usize, usize))
    ensures
        bounds.0 <= bounds.1 <= chars.len(),
        chars@.subrange(bounds.0 as int, bounds.1 as int) == trim(chars@),
{
    let len = chars.len();
    let mut start: usize = 0;
    assert(chars@.subrange(0, len as int) =~= chars@);
    while start < len && is_white_space(chars[start])
        invariant
            start <= len == chars.len(),
            trim_start(chars@) == trim_start(chars@.subrange(start as int, len as int)),
        decreases len - start,
    {
        assert(chars@.subrange(start as int, len as int).drop_first() =~= chars@.subrange(
            start + 1,
            len as int,
        ));
        start += 1;
    }
    let mut end: usize = len;
    while end > start && is_white_space(chars[end - 1])
        invariant
            start <= end <= len == chars.len(),
            trim_end(chars@.subrange(start as int, len as int)) == trim_end(
                chars@.subrange(start as int, end as int),
            ),
        decreases end,
    {
        assert(chars@.subrange(start as int, end as int).drop_last() =~= chars@.subrange(
            start as int,
            end - 1,
        ));
        end -= 1;
    }
    (start, end)
}

/// Whether `chars[start..end]` is a null marker.
fn null_marker_at(chars: &Vec<char>, start: usize, end: usize) -> (b: bool)
    requires
        start <= end <= chars.len(),
    ensures
        b == is_null_marker(chars@.subrange(start as int, end as int)),
{
    let ghost folded = lower(chars@.subrange(start as int, end as int));
    if end - start == 2 {
        let b = to_ascii_lower(chars[start]) == '\\' && to_ascii_lower(chars[start + 1]) == 'n';
        proof {
            assert(folded[0] == ascii_lower(chars@[start as int]));
            assert(folded[1] == ascii_lower(chars@[start + 1]));
            assert(b ==> folded =~= escaped_newline());
            assert(escaped_newline()[0] == '\\' && escaped_newline()[1] == 'n');
            assert(null_word().len() == 4);
        }
        b
    } else if end - start == 4 {
        let b = to_ascii_lower(chars[start]) == 'n' && to_ascii_lower(chars[start + 1]) == 'u'
            && to_ascii_lower(chars[start + 2]) == 'l' && to_ascii_lower(chars[start + 3]) == 'l';
        proof {
            assert(folded[0] == ascii_lower(chars@[start as int]));
            assert(folded[1] == ascii_lower(chars@[start + 1]));
            assert(folded[2] == ascii_lower(chars@[start + 2]));
            assert(folded[3] == ascii_lower(chars@[start + 3]));
            assert(b ==> folded =~= null_word());
            assert(null_word()[0] == 'n' && null_word()[1] == 'u' && null_word()[2] == 'l'
                && null_word()[3] == 'l');
            assert(escaped_newline().len() == 2);
        }
        b
    } else {
        proof {
            assert(escaped_newline().len() == 2);
            assert(null_word().len() == 4);
        }
        false
    }
}

/// Whether `chars[start..end]` is an integral decimal.
fn integral_decimal_at(chars: &Vec<char>, start: usize, end: usize) -> (b: bool)
    requires
        start <= end <= chars.len(),
    ensures
        b == is_integral_decimal(chars@.subrange(start as int, end as int)),
{
    let ghost s = chars@.subrange(start as int, end as int);
    if end - start < 3 || chars[end - 2] != '.' || chars[end - 1] != '0' {
        return false;
    }
    let ghost digits = s.subrange(0, s.len() - 2);
    let mut i: usize = start;
    while i < end - 2
        invariant
            start <= i <= end - 2,
            end <= chars.len(),
            s == chars@.subrange(start as int, end as int),
            digits == s.subrange(0, s.len() - 2),
            forall|k: int| 0 <= k < i - start ==> ascii_digit(#[trigger] digits[k]),
        decreases end - i,
    {
        if !is_ascii_digit(chars[i]) {
            assert(digits[i - start] == chars@[i as int]);
            return false;
        }
        i += 1;
    }
    true
}

/// The bounds of the normal form of `chars`.
fn normal_bounds(chars: &Vec<char>) -> (bounds: (usize, usize))
    ensures
        bounds.0 <= bounds.1 <= chars.len(),
        chars@.subrange(bounds.0 as int, bounds.1 as int) == normal_form(chars@),
{
    let (start, end) = trim_bounds(chars);
    let ghost kept = chars@.subrange(start as int, end as int);
    if null_marker_at(chars, start, end) {
        assert(chars@.subrange(start as int, start as int) =~= Seq::<char>::empty());
        (start, start)
    } else if integral_decimal_at(chars, start, end) {
        proof {
            lemma_integer_form(kept);
            assert(kept.subrange(0, kept.len() - 2) =~= chars@.subrange(start as int, end - 2));
        }
        (start, end - 2)
    } else {
        (start, end)
    }
}

/// `chars[start..end]` as a string.
fn collect(chars: &Vec<char>, start: usize, end: usize) -> (out: String)
    requires
        start <= end <= chars.len(),
    ensures
        out@ == chars@.subrange(start as int, end as int),
{
    let mut out = String::new();
    let mut i: usize = start;
    while i < end
        invariant
            start <= i <= end <= chars.len(),
            out@ == chars@.subrange(start as int, i as int),
        decreases end - i,
    {
        out.push(chars[i]);
        assert(chars@.subrange(start as int, i as int).push(chars@[i as int]) =~= chars@.subrange(
            start as int,
            i + 1,
        ));
        i += 1;
    }
    out
}

/// `chars[start..end]` as a string, with each quote doubled.
fn escape(chars: &Vec<char>, start: usize, end: usize) -> (out: String)
    requires
        start <= end <= chars.len(),
    ensures
        out@ == escape_quotes(chars@.subrange(start as int, end as int)),
{
    let mut out = String::new();
    let mut i: usize = start;
    while i < end
        invariant
            start <= i <= end <= chars.len(),
            out@ == escape_quotes(chars@.subrange(start as int, i as int)),
        decreases end - i,
    {
        let c = chars[i];
        let ghost before = out@;
        if c == '"' {
            out.push('"');
        }
        out.push(c);
        proof {
            let next = chars@.subrange(start as int, i + 1);
            assert(next.drop_last() =~= chars@.subrange(start as int, i as int));
            assert(next.last() == c);
            assert(out@ =~= before + escape_char(c));
        }
        i += 1;
    }
    out
}

/// Brings one cell into its normal form: trims it, then empties it if it is
/// a null marker and reduces it to its integer form if it is an integral
/// decimal. Quotes are left as they are.
pub fn normalize_cell(cell: &str) -> (out: String)
    ensures
        out@ == normal_form(cell@),
{
    let chars = chars_of(cell);
    let (start, end) = normal_bounds(&chars);
    collect(&chars, start, end)
}

/// Cleans one cell: trims it, then empties it if it is a null marker,
/// reduces it to its integer form if it is an integral decimal, and doubles
/// its quotes otherwise.
pub fn process_cell(cell: &str) -> (out: String)
    ensures
        out@ == clean_cell(cell@),
        out@ == escape_quotes(normal_form(cell@)),
{
    let chars = chars_of(cell);
    let (start, end) = normal_bounds(&chars);
    proof {
        lemma_clean_is_escaped_normal(cell@);
    }
    escape(&chars, start, end)
}

/// Whether every character of `s` is white space.
pub open spec fn all_white_space(s: Seq<char>) -> bool {
    forall|i: int| 0 <= i < s.len() ==> white_space(#[trigger] s[i])
}

/// Trimming at the start drops a prefix of white space and stops before a
/// character that is none.
pub proof fn lemma_trim_start_shape(s: Seq<char>) -> (from: int)
    ensures
        0 <= from <= s.len(),
        trim_start(s) == s.subrange(from, s.len() as int),
        forall|i: int| 0 <= i < from ==> white_space(#[trigger] s[i]),
        from < s.len() ==> !white_space(s[from]),
    decreases s.len(),
{
    if s.len() > 0 && white_space(s[0]) {
        let rest = s.drop_first();
        let inner = lemma_trim_start_shape(rest);
        assert(rest.subrange(inner, rest.len() as int) =~= s.subrange(inner + 1, s.len() as int));
        assert forall|i: int| 0 <= i < inner + 1 implies white_space(#[trigger] s[i]) by {
            if i > 0 {
                assert(s[i] == rest[i - 1]);
            }
        }
        inner + 1
    } else {
        assert(s.subrange(0, s.len() as int) =~= s);
        0
    }
}

/// Trimming at the end drops a suffix of white space and stops after a
/// character that is none.
pub proof fn lemma_trim_end_shape(s: Seq<char>) -> (to: int)
    ensures
        0 <= to <= s.len(),
        trim_end(s) == s.subrange(0, to),
        forall|i: int| to <= i < s.len() ==> white_space(#[trigger] s[i]),
        0 < to ==> !white_space(s[to - 1]),
    decreases s.len(),
{
    if s.len() > 0 && white_space(s.last()) {
        let rest = s.drop_last();
        let inner = lemma_trim_end_shape(rest);
        assert(rest.subrange(0, inner) =~= s.subrange(0, inner));
        assert forall|i: int| inner <= i < s.len() implies white_space(#[trigger] s[i]) by {
            if i < s.len() - 1 {
                assert(s[i] == rest[i]);
            }
        }
        inner
    } else {
        assert(s.subrange(0, s.len() as int) =~= s);
        s.len() as int
    }
}

/// What trimming leaves is a stretch of the cell with nothing but white
/// space before and after it, and with no white space at its own two ends.
pub proof fn lemma_trim_shape(s: Seq<char>) -> (bounds: (int, int))
    ensures
        0 <= bounds.0 <= bounds.1 <= s.len(),
        trim(s) == s.subrange(bounds.0, bounds.1),
        forall|i: int| 0 <= i < bounds.0 ==> white_space(#[trigger] s[i]),
        forall|i: int| bounds.1 <= i < s.len() ==> white_space(#[trigger] s[i]),
        bounds.0 < bounds.1 ==> !white_space(s[bounds.0]) && !white_space(s[bounds.1 - 1]),
{
    let from = lemma_trim_start_shape(s);
    let tail = s.subrange(from, s.len() as int);
    let to = lemma_trim_end_shape(tail);
    assert(tail.subrange(0, to) =~= s.subrange(from, from + to));
    assert forall|i: int| from + to <= i < s.len() implies white_space(#[trigger] s[i]) by {
        assert(s[i] == tail[i - from]);
    }
    if to > 0 {
        assert(tail[to - 1] == s[from + to - 1]);
        assert(tail[0] == s[from]);
    }
    (from, from + to)
}

/// White space before a cell does not change what trimming at the start
/// leaves.
proof fn lemma_trim_start_skips(pad: Seq<char>, s: Seq<char>)
    requires
        all_white_space(pad),
    ensures
        trim_start(pad + s) == trim_start(s),
    decreases pad.len(),
{
    if pad.len() > 0 {
        assert((pad + s)[0] == pad[0]);
        assert((pad + s).drop_first() =~= pad.drop_first() + s);
        assert forall|i: int| 0 <= i < pad.drop_first().len() implies white_space(
            #[trigger] pad.drop_first()[i],
        ) by {
            assert(pad.drop_first()[i] == pad[i + 1]);
        }
        lemma_trim_start_skips(pad.drop_first(), s);
    } else {
        assert(pad + s =~= s);
    }
}

/// One white space character after a cell does not change what trimming
/// leaves.
proof fn lemma_trim_ignores_last(s: Seq<char>, c: char)
    requires
        white_space(c),
    ensures
        trim(s.push(c)) == trim(s),
    decreases s.len(),
{
    let longer = s.push(c);
    if s.len() == 0 {
        assert(longer.drop_first() =~= s);
    } else if white_space(s[0]) {
        assert(longer[0] == s[0]);
        assert(longer.drop_first() =~= s.drop_first().push(c));
        lemma_trim_ignores_last(s.drop_first(), c);
    } else {
        assert(longer[0] == s[0]);
        assert(longer.drop_last() =~= s);
    }
}

/// White space after a cell does not change what trimming leaves.
proof fn lemma_trim_ignores_suffix(s: Seq<char>, pad: Seq<char>)
    requires
        all_white_space(pad),
    ensures
        trim(s + pad) == trim(s),
    decreases pad.len(),
{
    if pad.len() > 0 {
        let shorter = pad.drop_last();
        assert(s + pad =~= (s + shorter).push(pad.last()));
        assert forall|i: int| 0 <= i < shorter.len() implies white_space(
            #[trigger] shorter[i],
        ) by {
            assert(shorter[i] == pad[i]);
        }
        lemma_trim_ignores_last(s + shorter, pad.last());
        lemma_trim_ignores_suffix(s, shorter);
    } else {
        assert(s + pad =~= s);
    }
}

/// Where no quote occurs, doubling the quotes changes nothing.
pub proof fn lemma_escape_without_quotes(s: Seq<char>)
    requires
        !s.contains('"'),
    ensures
        escape_quotes(s) == s,
    decreases s.len(),
{
    if s.len() > 0 {
        assert(s.last() == s[s.len() - 1]);
        assert forall|i: int| 0 <= i < s.drop_last().len() implies s.drop_last()[i] != '"' by {
            assert(s.drop_last()[i] == s[i]);
        }
        lemma_escape_without_quotes(s.drop_last());
        assert(s.drop_last() + seq![s.last()] =~= s);
    }
}

/// Doubling the quotes works character by character: what it makes of two
/// joined strings is what it makes of the first followed by what it makes
/// of the second. So each quote is doubled, and nothing else is touched.
pub proof fn lemma_escape_quotes_concat(a: Seq<char>, b: Seq<char>)
    ensures
        escape_quotes(a + b) == escape_quotes(a) + escape_quotes(b),
        escape_quotes(seq!['"']) == seq!['"', '"'],
        forall|c: char| c != '"' ==> #[trigger] escape_quotes(seq![c]) == seq![c],
    decreases b.len(),
{
    if b.len() == 0 {
        assert(a + b =~= a);
        assert(escape_quotes(a) + escape_quotes(b) =~= escape_quotes(a));
    } else {
        assert((a + b).drop_last() =~= a + b.drop_last());
        assert((a + b).last() == b.last());
        lemma_escape_quotes_concat(a, b.drop_last());
        assert(escape_quotes(a + b) =~= escape_quotes(a) + escape_quotes(b));
    }
    assert(escape_quotes(Seq::<char>::empty()) == Seq::<char>::empty());
    assert(seq!['"'].drop_last() =~= Seq::<char>::empty());
    assert(escape_quotes(seq!['"']) =~= seq!['"', '"']);
    assert forall|c: char| c != '"' implies #[trigger] escape_quotes(seq![c]) == seq![c] by {
        assert(seq![c].drop_last() =~= Seq::<char>::empty());
        assert(escape_quotes(seq![c]) =~= seq![c]);
    }
}

/// The null markers, letter by letter: a backslash and an n, or the word
/// "null", each letter in either case.
pub proof fn lemma_null_marker_spelled_out(s: Seq<char>)
    ensures
        is_null_marker(s) <==> {
            ||| s.len() == 2 && s[0] == '\\' && (s[1] == 'n' || s[1] == 'N')
            ||| s.len() == 4 && (s[0] == 'n' || s[0] == 'N') && (s[1] == 'u' || s[1] == 'U') && (
            s[2] == 'l' || s[2] == 'L') && (s[3] == 'l' || s[3] == 'L')
        },
{
    let folded = lower(s);
    assert(escaped_newline().len() == 2 && escaped_newline()[0] == '\\' && escaped_newline()[1]
        == 'n');
    assert(null_word().len() == 4 && null_word()[0] == 'n' && null_word()[1] == 'u'
        && null_word()[2] == 'l' && null_word()[3] == 'l');
    if s.len() == 2 {
        assert(folded[0] == ascii_lower(s[0]) && folded[1] == ascii_lower(s[1]));
        if s[0] == '\\' && (s[1] == 'n' || s[1] == 'N') {
            assert(folded =~= escaped_newline());
        }
    } else if s.len() == 4 {
        assert(folded[0] == ascii_lower(s[0]) && folded[1] == ascii_lower(s[1]));
        assert(folded[2] == ascii_lower(s[2]) && folded[3] == ascii_lower(s[3]));
        if (s[0] == 'n' || s[0] == 'N') && (s[1] == 'u' || s[1] == 'U') && (s[2] == 'l' || s[2]
            == 'L') && (s[3] == 'l' || s[3] == 'L') {
            assert(folded =~= null_word());
        }
    }
}

/// A cell that is a null marker once it is trimmed, whatever the case of
/// its letters, is cleaned to the empty cell.
pub proof fn lemma_null_marker_is_emptied(cell: Seq<char>)
    requires
        is_null_marker(trim(cell)),
    ensures
        clean_cell(cell) == Seq::<char>::empty(),
{
}

/// An integral decimal is no null marker, and its integer form is what
/// stands before its ".0": the digits, none of them touched.
pub proof fn lemma_integer_form(s: Seq<char>)
    requires
        is_integral_decimal(s),
    ensures
        !is_null_marker(s),
        integer_form(s) == s.subrange(0, s.len() - 2),
        all_digits(integer_form(s)),
        integer_form(s).len() > 0,
        clean_trimmed(s) == integer_form(s),
        normal_trimmed(s) == integer_form(s),
{
    lemma_null_marker_spelled_out(s);
    let front = s.subrange(0, s.len() - 2);
    assert(s.drop_last().drop_last() =~= front);
    assert(s.drop_last().last() == '.');
    assert(strip_trailing(s.drop_last(), '0') == s.drop_last());
    assert(strip_trailing(s, '0') == s.drop_last());
}

/// Where every character is a digit, none is a quote.
proof fn lemma_digits_hold_no_quote(digits: Seq<char>)
    requires
        all_digits(digits),
    ensures
        !digits.contains('"'),
{
    if digits.contains('"') {
        let at = choose|i: int| 0 <= i < digits.len() && digits[i] == '"';
        assert(ascii_digit(digits[at]));
    }
}

/// The cleaned form of a cell is its normal form with each quote doubled.
pub proof fn lemma_clean_is_escaped_normal(cell: Seq<char>)
    ensures
        clean_cell(cell) == escape_quotes(normal_form(cell)),
{
    let kept = trim(cell);
    if is_null_marker(kept) {
        assert(escape_quotes(Seq::<char>::empty()) == Seq::<char>::empty());
    } else if is_integral_decimal(kept) {
        lemma_integer_form(kept);
        lemma_digits_hold_no_quote(integer_form(kept));
        lemma_escape_without_quotes(integer_form(kept));
    }
}

/// One or more digits followed by ".0" are cleaned to the digits alone,
/// which is the cell without its trailing zero and point, and cleaning the
/// result once more changes nothing.
pub proof fn lemma_integral_decimal_is_cut(digits: Seq<char>)
    requires
        all_digits(digits),
        digits.len() > 0,
    ensures
        is_integral_decimal(digits + seq!['.', '0']),
        clean_cell(digits + seq!['.', '0']) == digits,
        clean_cell(digits + seq!['.', '0']) == integer_form(digits + seq!['.', '0']),
        clean_cell(clean_cell(digits + seq!['.', '0'])) == clean_cell(digits + seq!['.', '0']),
{
    let s = digits + seq!['.', '0'];
    assert(s[s.len() - 2] == '.' && s[s.len() - 1] == '0');
    assert(s.subrange(0, s.len() - 2) =~= digits);
    // Nothing is trimmed off `s`: it starts with a digit and ends with the zero.
    assert(ascii_digit(digits[0]) && s[0] == digits[0]);
    assert(trim_start(s) == s);
    assert(trim_end(s) == s);
    lemma_integer_form(s);
    // The digits alone are left as they are by every rule.
    assert(ascii_digit(digits.last()));
    assert(trim_start(digits) == digits);
    assert(trim_end(digits) == digits);
    lemma_null_marker_spelled_out(digits);
    assert(!is_null_marker(digits));
    assert(!is_integral_decimal(digits)) by {
        if digits.len() >= 2 {
            assert(ascii_digit(digits[digits.len() - 2]));
        }
    }
    lemma_digits_hold_no_quote(digits);
    lemma_escape_without_quotes(digits);
}

/// A cell with a point before its last ".0" is no integral decimal: it is
/// cleaned as any other text.
pub proof fn lemma_second_point_makes_no_decimal(s: Seq<char>, at: int)
    requires
        0 <= at < s.len() - 2,
        s[at] == '.',
    ensures
        !is_integral_decimal(s),
{
    if is_integral_decimal(s) {
        assert(s.subrange(0, s.len() - 2)[at] == s[at]);
        assert(ascii_digit(s.subrange(0, s.len() - 2)[at]));
    }
}

/// A point and a zero with no digit before them are no integral decimal
/// either: the cell is kept, not emptied.
pub proof fn lemma_point_zero_alone_is_kept()
    ensures
        !is_integral_decimal(seq!['.', '0']),
        clean_cell(seq!['.', '0']) == seq!['.', '0'],
{
    let s = seq!['.', '0'];
    assert(s[0] == '.' && s.last() == '0');
    assert(trim_start(s) == s);
    assert(trim_end(s) == s);
    lemma_null_marker_spelled_out(s);
    assert(!s.contains('"')) by {
        if s.contains('"') {
            let at = choose|i: int| 0 <= i < s.len() && s[i] == '"';
            assert(s[at] == '.' || s[at] == '0');
        }
    }
    lemma_escape_without_quotes(s);
}

/// In a cell that holds a quote each quote is doubled, and nothing else
/// of what trimming leaves is changed.
pub proof fn lemma_quotes_are_doubled(cell: Seq<char>)
    requires
        cell.contains('"'),
    ensures
        trim(cell).contains('"'),
        normal_form(cell) == trim(cell),
        clean_cell(cell) == escape_quotes(trim(cell)),
{
    let at = choose|i: int| 0 <= i < cell.len() && cell[i] == '"';
    let (from, to) = lemma_trim_shape(cell);
    let kept = trim(cell);
    assert(!white_space('"'));
    assert(from <= at < to) by {
        if at < from {
            assert(white_space(cell[at]));
        }
        if at >= to {
            assert(white_space(cell[at]));
        }
    }
    assert(kept[at - from] == '"');
    lemma_null_marker_spelled_out(kept);
    assert(!is_null_marker(kept)) by {
        if is_null_marker(kept) {
            assert(lower(kept)[at - from] == ascii_lower(kept[at - from]));
            assert(escaped_newline()[0] == '\\' && escaped_newline()[1] == 'n');
            assert(null_word()[0] == 'n' && null_word()[1] == 'u' && null_word()[2] == 'l'
                && null_word()[3] == 'l');
        }
    }
    assert(!is_integral_decimal(kept)) by {
        if is_integral_decimal(kept) {
            let digits = kept.subrange(0, kept.len() - 2);
            if at - from < digits.len() {
                assert(digits[at - from] == kept[at - from]);
                assert(ascii_digit(digits[at - from]));
            }
        }
    }
}

/// White space around a cell counts for nothing: the cell is cleaned as it
/// would be without it.
pub proof fn lemma_padding_is_ignored(before: Seq<char>, cell: Seq<char>, after: Seq<char>)
    requires
        all_white_space(before),
        all_white_space(after),
    ensures
        trim(before + cell + after) == trim(cell),
        clean_cell(before + cell + after) == clean_cell(cell),
{
    assert(before + cell + after =~= before + (cell + after));
    lemma_trim_start_skips(before, cell + after);
    lemma_trim_ignores_suffix(cell, after);
}

} // verus!
