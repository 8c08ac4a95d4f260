//! Strings as sequences of characters.

use vstd::prelude::*;
use vstd::std_specs::iter::IteratorSpec;

verus! {

/// The character that ends a line.
pub const LINE_FEED: char = '\n';

/// The character that, right before a line feed, belongs to the line's end.
pub const CARRIAGE_RETURN: char = '\r';

/// `String::push` of std appends one character to the string and changes
/// nothing else of it.
pub assume_specification[ String::push ](s: &mut String, ch: char)
    ensures
        final(s)@ == old(s)@.push(ch),
;

/// The texts of `strings`, in order.
pub open spec fn spec_texts(strings: Seq<String>) -> Seq<Seq<char>> {
    strings.map_values(|s: String| s@)
}

/// The characters of `s`, in order.
pub fn chars_of(s: &str) -> (chars: Vec<char>)
    ensures
        chars@ == s@,
{
    let mut chars: Vec<char> = Vec::new();
    for c in it: s.chars()
        invariant
            it.seq() == s@,
            chars@ == s@.take(it.index() as int),
    {
        chars.push(c);
    }
    chars
}

/// The string made of `chars`, in order.
pub fn string_of(chars: &[char]) -> (s: String)
    ensures
        s@ == chars@,
{
    let mut s = String::new();
    let mut i: usize = 0;
    while i < chars.len()
        invariant
            i <= chars.len(),
            s@ == chars@.take(i as int),
        decreases chars.len() - i,
    {
        s.push(chars[i]);
        i += 1;
    }
    s
}

/// The index of the first line feed of `text`, or its length where it holds
/// none.
pub open spec fn spec_line_end(text: Seq<char>) -> int
    decreases text.len(),
{
    if text.len() == 0 || text[0] == LINE_FEED {
        0
    } else {
        1 + spec_line_end(text.drop_first())
    }
}

/// The first line of `text`, without its end: what comes before the first
/// line feed, less a carriage return right before that line feed; all of
/// `text` where it holds no line feed. An empty text has no line.
pub open spec fn spec_first_line(text: Seq<char>) -> Option<Seq<char>> {
    let end = spec_line_end(text);
    if text.len() == 0 {
        None
    } else if 0 < end < text.len() && text[end - 1] == CARRIAGE_RETURN {
        Some(text.take(end - 1))
    } else {
        Some(text.take(end))
    }
}

/// The first line feed of a text lies where no line feed comes before.
pub proof fn lemma_line_end(text: Seq<char>)
    ensures
        0 <= spec_line_end(text) <= text.len(),
        spec_line_end(text) < text.len() ==> text[spec_line_end(text)] == LINE_FEED,
        forall|j: int| 0 <= j < spec_line_end(text) ==> text[j] != LINE_FEED,
    decreases text.len(),
{
    if text.len() > 0 && text[0] != LINE_FEED {
        let rest = text.drop_first();
        lemma_line_end(rest);
        assert forall|j: int| 0 <= j < spec_line_end(text) implies text[j] != LINE_FEED by {
            if j > 0 {
                assert(rest[j - 1] == text[j]);
            }
        }
    }
}

/// An index with no line feed before it, which holds one or is the text's
/// length, is the text's line end.
pub proof fn lemma_line_end_is(text: Seq<char>, end: int)
    requires
        0 <= end <= text.len(),
        end < text.len() ==> text[end] == LINE_FEED,
        forall|j: int| 0 <= j < end ==> text[j] != LINE_FEED,
    ensures
        spec_line_end(text) == end,
{
    lemma_line_end(text);
}

/// The first line of `text`, read no further than its end.
pub fn first_line(text: &str) -> (line: Option<String>)
    ensures
        match line {
            Some(l) => spec_first_line(text@) == Some(l@),
            None => spec_first_line(text@) is None,
        },
{
    if text.is_empty() {
        return None;
    }
    let mut line = String::new();
    let mut held_back = false;
    for c in it: text.chars()
        invariant
            it.seq() == text@,
            forall|j: int| 0 <= j < it.index() ==> text@[j] != LINE_FEED,
            !held_back && it.index() > 0 ==> text@[it.index() - 1] != CARRIAGE_RETURN,
            text@.take(it.index() as int) == if held_back {
                line@.push(CARRIAGE_RETURN)
            } else {
                line@
            },
    {
        let ghost read = text@.take(it.index() as int);
        assert(text@.take(it.index() + 1) == read.push(c));
        if c == LINE_FEED {
            proof {
                lemma_line_end_is(text@, it.index() as int);
                if held_back {
                    assert(read.last() == CARRIAGE_RETURN);
                    assert(text@[it.index() - 1] == read.last());
                    assert(text@.take(it.index() - 1) == read.drop_last());
                }
            }
            return Some(line);
        }
        if held_back {
            line.push(CARRIAGE_RETURN);
        }
        if c == CARRIAGE_RETURN {
            held_back = true;
        } else {
            line.push(c);
            held_back = false;
        }
    }
    if held_back {
        line.push(CARRIAGE_RETURN);
    }
    proof {
        lemma_line_end_is(text@, text@.len() as int);
        assert(text@.take(text@.len() as int) == text@);
    }
    Some(line)
}

/// Whether `a` and `b` hold the same characters.
pub fn same_text(a: &str, b: &str) -> (same: bool)
    ensures
        same == (a@ == b@),
{
    let mut left = a.chars();
    let mut right = b.chars();
    let ghost mut i: int = 0;
    loop
        invariant
            0 <= i <= a@.len(),
            i <= b@.len(),
            left.remaining() == a@.skip(i),
            right.remaining() == b@.skip(i),
            a@.take(i) == b@.take(i),
        decreases a@.len() - i,
    {
        let l = left.next();
        let r = right.next();
        match (l, r) {
            (Some(x), Some(y)) => {
                if x != y {
                    assert(a@[i] != b@[i]);
                    return false;
                }
                proof {
                    assert(a@.take(i + 1) == a@.take(i).push(x));
                    assert(b@.take(i + 1) == b@.take(i).push(y));
                    assert(a@.skip(i).drop_first() == a@.skip(i + 1));
                    assert(b@.skip(i).drop_first() == b@.skip(i + 1));
                    i = i + 1;
                }
            },
            (None, None) => {
                assert(a@.take(i) == a@);
                assert(b@.take(i) == b@);
                return true;
            },
            _ => {
                assert(a@.len() != b@.len());
                return false;
            },
        }
    }
}

} // verus!
