//! Conversions between strings and their characters, from the standard
//! library.
use vstd::prelude::*;

verus! {

/// `line` without one `'\r'` at its end, if it has one.
pub open spec fn strip_cr(line: Seq<char>) -> Seq<char> {
    if line.len() > 0 && line.last() == '\r' {
        line.drop_last()
    } else {
        line
    }
}

/// The lines of `rest`, the characters of the line being read so far being
/// `cur`: each `'\n'` ends a line, dropping a `'\r'` just before it; what
/// follows the last `'\n'` is a last line unless it is empty.
pub open spec fn split_lines(cur: Seq<char>, rest: Seq<char>) -> Seq<Seq<char>>
    decreases rest.len(),
{
    if rest.len() == 0 {
        if cur.len() == 0 {
            Seq::empty()
        } else {
            seq![cur]
        }
    } else if rest[0] == '\n' {
        seq![strip_cr(cur)] + split_lines(Seq::empty(), rest.drop_first())
    } else {
        split_lines(cur.push(rest[0]), rest.drop_first())
    }
}

/// The lines of a text as `str::lines` splits them: at each `'\n'` or
/// `"\r\n"`, without the line endings, and with no empty line after a final
/// line ending; a `'\r'` not followed by `'\n'` stays in its line.
pub open spec fn spec_lines(text: Seq<char>) -> Seq<Seq<char>> {
    split_lines(Seq::empty(), text)
}

/// Calls `str::lines` and copies each line into a `String`. Claims what the
/// documentation of `str::lines` says: the lines are `spec_lines` of the
/// text's characters.
#[verifier::external_body]
pub(crate) fn lines_of(text: &str) -> (r: Vec<String>)
    ensures
        r@.map_values(|l: String| l@) == spec_lines(text@),
{
    text.lines().map(|l| l.to_string()).collect()
}

/// Calls `str::chars` and collects the characters. Claims that they are the
/// string's characters in order, as the documentation of `chars` says.
#[verifier::external_body]
pub(crate) fn chars_of(s: &str) -> (r: Vec<char>)
    ensures
        r@ == s@,
{
    s.chars().collect()
}

/// Builds a `String` through `FromIterator<char>`. Claims that the string's
/// characters are `chars` in order, as the documentation says.
#[verifier::external_body]
pub(crate) fn string_from_chars(chars: Vec<char>) -> (r: String)
    ensures
        r@ == chars@,
{
    chars.into_iter().collect()
}

/// Calls `==` on two `str`s, which compares their contents. Claims exactly
/// that.
#[verifier::external_body]
pub(crate) fn str_eq(a: &str, b: &str) -> (r: bool)
    ensures
        r == (a@ == b@),
{
    a == b
}

/// The text that `{:?}` writes for a string: the string between double
/// quotes, with quotes, backslashes and other characters escaped as
/// `char::escape_debug` does.
pub uninterp spec fn str_debug(s: Seq<char>) -> Seq<char>;

/// Formats a string with `format!("{:?}")`. Claims only that the text is
/// `str_debug` of the string's characters: the escaping follows Unicode
/// tables, so it is named here rather than written out.
#[verifier::external_body]
pub(crate) fn debug_str(s: &str) -> (r: String)
    ensures
        r@ == str_debug(s@),
{
    format!("{:?}", s)
}

/// The characters of `a` followed by those of `b`, as a new `String`.
pub(crate) fn join2(a: &str, b: &str) -> (r: String)
    ensures
        r@ == a@ + b@,
{
    let mut chars = chars_of(a);
    let tail = chars_of(b);
    let ghost head = chars@;
    let mut k: usize = 0;
    while k < tail.len()
        invariant
            k <= tail@.len(),
            tail@ == b@,
            chars@ == head + tail@.take(k as int),
        decreases tail@.len() - k,
    {
        chars.push(tail[k]);
        k = k + 1;
        assert(chars@ =~= head + tail@.take(k as int));
    }
    assert(tail@.take(k as int) =~= tail@);
    string_from_chars(chars)
}

/// The characters of `a`, `b` and `c` in order, as a new `String`.
pub(crate) fn join3(a: &str, b: &str, c: &str) -> (r: String)
    ensures
        r@ == a@ + b@ + c@,
{
    let ab = join2(a, b);
    join2(ab.as_str(), c)
}

} // verus!
