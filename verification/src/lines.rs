//! Splitting text into lines.

use vstd::prelude::*;
use vstd::std_specs::iter::IteratorSpec;

verus! {

broadcast use vstd::string::group_string_axioms;

/// A line without the carriage return that stood before its line feed.
pub open spec fn strip_cr(line: Seq<char>) -> Seq<char> {
    if line.len() > 0 && line.last() == '\r' {
        line.drop_last()
    } else {
        line
    }
}

/// The lines of `rest`, where `current` has already been read of the first
/// of them.
pub open spec fn lines_after(current: Seq<char>, rest: Seq<char>) -> Seq<Seq<char>>
    decreases rest.len(),
{
    if rest.len() == 0 {
        if current.len() == 0 {
            Seq::empty()
        } else {
            seq![current]
        }
    } else if rest[0] == '\n' {
        seq![strip_cr(current)] + lines_after(Seq::empty(), rest.drop_first())
    } else {
        lines_after(current.push(rest[0]), rest.drop_first())
    }
}

/// The lines of a text. A line ends at a line feed, or at a carriage return
/// directly followed by a line feed; neither belongs to the line. What
/// follows the last line feed is a line too, unless it is empty.
pub open spec fn lines_of(text: Seq<char>) -> Seq<Seq<char>> {
    lines_after(Seq::empty(), text)
}

/// The views of a vector of strings.
pub open spec fn texts(lines: Seq<String>) -> Seq<Seq<char>> {
    lines.map_values(|line: String| line@)
}

/// Calls `String::push`. Trusted, not proved: the character is appended at
/// the end and nothing else changes.
#[verifier::external_body]
fn push_char(s: &mut String, c: char)
    ensures
        final(s)@ == old(s)@.push(c),
{
    s.push(c);
}

/// Splits `text` into its lines.
pub fn split_lines(text: &str) -> (lines: Vec<String>)
    ensures
        texts(lines@) == lines_of(text@),
{
    let mut lines: Vec<String> = Vec::new();
    let mut current = String::new();
    // A carriage return has been read and not yet appended to `current`.
    let mut held_cr = false;
    proof {
        assert(text@.skip(0) == text@);
        assert(texts(lines@) + lines_of(text@) == lines_of(text@));
    }
    for c in it: text.chars()
        invariant
            it.seq() == text@,
            !held_cr ==> current@.len() == 0 || current@.last() != '\r',
            lines_of(text@) == texts(lines@) + lines_after(
                if held_cr {
                    current@.push('\r')
                } else {
                    current@
                },
                text@.skip(it.index()),
            ),
    {
        let ghost rest = text@.skip(it.index());
        let ghost before = if held_cr {
            current@.push('\r')
        } else {
            current@
        };
        assert(rest.len() > 0 && rest[0] == c);
        assert(rest.drop_first() == text@.skip(it.index() + 1));
        if c == '\n' {
            assert(strip_cr(before) == current@) by {
                if held_cr {
                    assert(before.drop_last() == current@);
                }
            }
            let ghost done = texts(lines@);
            lines.push(current);
            assert(texts(lines@) == done + seq![strip_cr(before)]);
            current = String::new();
            held_cr = false;
        } else {
            if held_cr {
                push_char(&mut current, '\r');
            }
            if c == '\r' {
                held_cr = true;
            } else {
                push_char(&mut current, c);
                held_cr = false;
            }
        }
    }
    if held_cr {
        push_char(&mut current, '\r');
    }
    assert(text@.skip(text@.len() as int).len() == 0);
    if current.as_str().is_empty() {
        assert(texts(lines@) + Seq::<Seq<char>>::empty() == texts(lines@));
    } else {
        let ghost done = texts(lines@);
        lines.push(current);
        assert(texts(lines@) == done + seq![current@]);
    }
    lines
}

} // verus!
