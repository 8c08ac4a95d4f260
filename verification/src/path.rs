//! Paths as sequences of characters, with `/` as the only separator.
//!
//! A path is read the way a Unix file system reads it: empty segments and
//! `.` segments at its end do not count, and the last segment that does is the
//! file name, unless it is `..`.

use vstd::prelude::*;
use vstd::string::*;

use crate::text::{chars_of, string_of};

verus! {

/// The character that separates the segments of a path.
pub const SEPARATOR: char = '/';

/// The character that stands for a separator in a flattened path.
pub const FLAT_SEPARATOR: char = '_';

/// The character that ends a file name's stem and starts its extension.
pub const DOT: char = '.';

/// `p` with every separator replaced by an underscore.
pub open spec fn spec_flatten(p: Seq<char>) -> Seq<char> {
    p.map_values(|c: char| if c == SEPARATOR { FLAT_SEPARATOR } else { c })
}

/// `p` placed under `root`: an absolute `p` stands for itself, and a
/// separator is put between the two unless `root` is empty or ends in one.
pub open spec fn spec_join(root: Seq<char>, p: Seq<char>) -> Seq<char> {
    if p.len() > 0 && p[0] == SEPARATOR {
        p
    } else if root.len() == 0 || root.last() == SEPARATOR {
        root + p
    } else {
        root.push(SEPARATOR) + p
    }
}

/// The index of the last `c` in `s`, or -1 where `s` holds none.
pub open spec fn spec_last_index_of(s: Seq<char>, c: char) -> int
    decreases s.len(),
{
    if s.len() == 0 {
        -1
    } else if s.last() == c {
        s.len() - 1
    } else {
        spec_last_index_of(s.drop_last(), c)
    }
}

/// `p` without what does not count at its end: separators, and `.` segments
/// that follow a separator.
pub open spec fn spec_trim(p: Seq<char>) -> Seq<char>
    decreases p.len(),
{
    if p.len() >= 1 && p.last() == SEPARATOR {
        spec_trim(p.drop_last())
    } else if p.len() >= 2 && p[p.len() - 1] == DOT && p[p.len() - 2] == SEPARATOR {
        spec_trim(p.take(p.len() - 2))
    } else {
        p
    }
}

/// What follows the last separator of `p`: all of `p` where it holds none.
pub open spec fn spec_last_segment(p: Seq<char>) -> Seq<char> {
    p.skip(spec_last_index_of(p, SEPARATOR) + 1)
}

/// The file name of `p`: the last segment that counts, unless there is none
/// or it is `.` or `..`.
pub open spec fn spec_file_name(p: Seq<char>) -> Option<Seq<char>> {
    let name = spec_last_segment(spec_trim(p));
    if name.len() == 0 || name == seq![DOT] || name == seq![DOT, DOT] {
        None
    } else {
        Some(name)
    }
}

/// The extension of a file name: what follows its last dot, unless it holds
/// no dot or only the one it begins with.
pub open spec fn spec_name_extension(name: Seq<char>) -> Option<Seq<char>> {
    let dot = spec_last_index_of(name, DOT);
    if dot <= 0 {
        None
    } else {
        Some(name.skip(dot + 1))
    }
}

/// The extension of `p`: that of its file name, where it has one.
pub open spec fn spec_extension(p: Seq<char>) -> Option<Seq<char>> {
    match spec_file_name(p) {
        Some(name) => spec_name_extension(name),
        None => None,
    }
}

/// The directory that holds the last segment of `p` that counts: what
/// counts of `p` before the separator in front of that segment. It is the
/// root where nothing but the root comes before that separator, and the
/// empty path where there is no such separator.
pub open spec fn spec_directory(p: Seq<char>) -> Seq<char> {
    let trimmed = spec_trim(p);
    let cut = spec_last_index_of(trimmed, SEPARATOR);
    if cut < 0 {
        Seq::empty()
    } else {
        let before = spec_trim(trimmed.take(cut));
        if before.len() == 0 {
            seq![SEPARATOR]
        } else {
            before
        }
    }
}

/// Where the last `c` of a sequence lies: nothing after it is `c`.
pub proof fn lemma_last_index_of(s: Seq<char>, c: char)
    ensures
        -1 <= spec_last_index_of(s, c) < s.len(),
        spec_last_index_of(s, c) >= 0 ==> s[spec_last_index_of(s, c)] == c,
        forall|j: int| spec_last_index_of(s, c) < j < s.len() ==> s[j] != c,
    decreases s.len(),
{
    if s.len() > 0 && s.last() != c {
        let front = s.drop_last();
        lemma_last_index_of(front, c);
        assert forall|j: int| spec_last_index_of(s, c) < j < s.len() implies s[j] != c by {
            if j < front.len() {
                assert(front[j] == s[j]);
            }
        }
    }
}

/// An index that holds `c`, or -1, is the last index of `c` where nothing
/// after it is `c`.
pub proof fn lemma_last_index_of_is(s: Seq<char>, c: char, k: int)
    requires
        -1 <= k < s.len(),
        k >= 0 ==> s[k] == c,
        forall|j: int| k < j < s.len() ==> s[j] != c,
    ensures
        spec_last_index_of(s, c) == k,
{
    lemma_last_index_of(s, c);
}

/// Flattening keeps the length and leaves no separator.
pub proof fn lemma_flatten_has_no_separator(p: Seq<char>)
    ensures
        spec_flatten(p).len() == p.len(),
        !spec_flatten(p).contains(SEPARATOR),
        spec_last_index_of(spec_flatten(p), SEPARATOR) == -1,
{
    lemma_last_index_of(spec_flatten(p), SEPARATOR);
}

/// A path that ends in something that is neither a separator nor a `.`
/// segment after one counts whole.
pub proof fn lemma_trim_keeps(p: Seq<char>)
    requires
        p.len() > 0 ==> p.last() != SEPARATOR,
        p.len() >= 2 && p.last() == DOT ==> p[p.len() - 2] != SEPARATOR,
    ensures
        spec_trim(p) == p,
{
}

/// A path that ends in a dot and an extension has that extension: where
/// `stem` does not end in a separator and `ext` is not empty and holds
/// neither a separator nor a dot, the extension of `stem` + `.` + `ext` is
/// `ext`.
pub proof fn lemma_extension_of_dotted(stem: Seq<char>, ext: Seq<char>)
    requires
        stem.len() > 0,
        stem.last() != SEPARATOR,
        ext.len() > 0,
        !ext.contains(SEPARATOR),
        !ext.contains(DOT),
    ensures
        spec_extension(stem.push(DOT) + ext) == Some(ext),
{
    let p = stem.push(DOT) + ext;
    assert(p.last() == ext.last());
    assert(ext.contains(ext.last()));
    lemma_trim_keeps(p);
    let cut = spec_last_index_of(stem, SEPARATOR);
    lemma_last_index_of(stem, SEPARATOR);
    assert forall|j: int| cut < j < p.len() implies p[j] != SEPARATOR by {
        if j < stem.len() {
            assert(p[j] == stem[j]);
        } else if j > stem.len() {
            assert(p[j] == ext[j - stem.len() - 1]);
            assert(ext.contains(p[j]));
        }
    }
    if cut >= 0 {
        assert(p[cut] == stem[cut]);
    }
    lemma_last_index_of_is(p, SEPARATOR, cut);
    let name = spec_last_segment(p);
    let dot = stem.len() - cut - 1;
    assert(name.len() == dot + 1 + ext.len());
    assert(name[dot] == p[stem.len() as int]);
    assert forall|j: int| dot < j < name.len() implies name[j] != DOT by {
        assert(name[j] == ext[j - dot - 1]);
        assert(ext.contains(name[j]));
    }
    lemma_last_index_of_is(name, DOT, dot);
    assert(name.skip(dot + 1) =~= ext);
    assert(name != seq![DOT]);
    assert(name != seq![DOT, DOT]);
}

/// A path under a root lies in it: where `name` holds no separator and is
/// neither empty nor `.` nor `..`, the file name of `name` under `root` is
/// `name`.
pub proof fn lemma_file_name_under(root: Seq<char>, name: Seq<char>)
    requires
        name.len() > 0,
        !name.contains(SEPARATOR),
        name != seq![DOT],
        name != seq![DOT, DOT],
    ensures
        spec_file_name(spec_join(root, name)) == Some(name),
{
    let p = spec_join(root, name);
    let start = p.len() - name.len();
    assert(name.contains(name[0]));
    assert(name.contains(name.last()));
    assert forall|j: int| start <= j < p.len() implies p[j] == name[j - start] by {}
    assert(p.last() == name.last());
    if p.len() >= 2 && p.last() == DOT {
        if name.len() >= 2 {
            assert(p[p.len() - 2] == name[name.len() - 2]);
            assert(name.contains(name[name.len() - 2]));
        } else {
            assert(name =~= seq![DOT]);
        }
    }
    lemma_trim_keeps(p);
    assert forall|j: int| start - 1 < j < p.len() implies p[j] != SEPARATOR by {
        assert(p[j] == name[j - start]);
        assert(name.contains(p[j]));
    }
    lemma_last_index_of_is(p, SEPARATOR, start - 1);
    assert(spec_last_segment(p) =~= name);
}

/// `p` with every separator replaced by an underscore.
pub fn flatten(p: &str) -> (flat: String)
    ensures
        flat@ == spec_flatten(p@),
{
    let mut flat = String::new();
    for c in it: p.chars()
        invariant
            it.seq() == p@,
            flat@ == spec_flatten(p@.take(it.index() as int)),
    {
        let ghost before = p@.take(it.index() as int);
        if c == SEPARATOR {
            flat.push(FLAT_SEPARATOR);
        } else {
            flat.push(c);
        }
        assert(p@.take(it.index() + 1) == before.push(c));
        assert(flat@ =~= spec_flatten(before.push(c)));
    }
    assert(p@.take(p@.len() as int) == p@);
    flat
}

/// `p` placed under `root`, as a file system resolves `p` from `root`.
pub fn join(root: &str, p: &str) -> (joined: String)
    ensures
        joined@ == spec_join(root@, p@),
{
    if !p.is_empty() && p.get_char(0) == SEPARATOR {
        String::from_str(p)
    } else {
        let len = root.unicode_len();
        let mut joined = String::from_str(root);
        if len > 0 && root.get_char(len - 1) != SEPARATOR {
            joined.push(SEPARATOR);
        }
        joined.append(p);
        joined
    }
}

/// How much of `chars[..len]`, from its start, counts.
fn trimmed_len(chars: &Vec<char>, len: usize) -> (end: usize)
    requires
        len <= chars.len(),
    ensures
        end <= len,
        chars@.take(end as int) == spec_trim(chars@.take(len as int)),
{
    let mut end: usize = len;
    loop
        invariant_except_break
            end <= len <= chars.len(),
            spec_trim(chars@.take(end as int)) == spec_trim(chars@.take(len as int)),
        ensures
            end <= len,
            chars@.take(end as int) == spec_trim(chars@.take(len as int)),
        decreases end,
    {
        let ghost kept = chars@.take(end as int);
        if end >= 1 && chars[end - 1] == SEPARATOR {
            assert(kept.drop_last() == chars@.take(end - 1));
            end -= 1;
        } else if end >= 2 && chars[end - 1] == DOT && chars[end - 2] == SEPARATOR {
            assert(kept.take(kept.len() - 2) == chars@.take(end - 2));
            end -= 2;
        } else {
            break ;
        }
    }
    end
}

/// The index of the last `c` among `chars[start..end]`.
fn last_index_in(chars: &Vec<char>, start: usize, end: usize, c: char) -> (found: Option<usize>)
    requires
        start <= end <= chars.len(),
    ensures
        match found {
            Some(i) => start <= i < end && i - start == spec_last_index_of(
                chars@.subrange(start as int, end as int),
                c,
            ),
            None => spec_last_index_of(chars@.subrange(start as int, end as int), c) == -1,
        },
{
    let ghost span = chars@.subrange(start as int, end as int);
    let mut i: usize = end;
    while i > start
        invariant
            start <= i <= end <= chars.len(),
            span == chars@.subrange(start as int, end as int),
            forall|j: int| i - start <= j < span.len() ==> span[j] != c,
        decreases i,
    {
        if chars[i - 1] == c {
            proof {
                lemma_last_index_of_is(span, c, i - 1 - start);
            }
            return Some(i - 1);
        }
        i -= 1;
    }
    proof {
        lemma_last_index_of_is(span, c, -1);
    }
    None
}

/// Where the file name of `chars` starts and ends.
fn name_span(chars: &Vec<char>) -> (span: Option<(usize, usize)>)
    ensures
        match span {
            Some((start, end)) => start < end <= chars.len() && spec_file_name(chars@) == Some(
                chars@.subrange(start as int, end as int),
            ),
            None => spec_file_name(chars@) is None,
        },
{
    let end = trimmed_len(chars, chars.len());
    assert(chars@.take(chars.len() as int) == chars@);
    let start: usize = match last_index_in(chars, 0, end, SEPARATOR) {
        Some(i) => i + 1,
        None => 0,
    };
    let ghost trimmed = chars@.take(end as int);
    let ghost name = chars@.subrange(start as int, end as int);
    assert(trimmed == chars@.subrange(0, end as int));
    assert(spec_last_segment(trimmed) == name);
    if start == end {
        None
    } else if end - start == 1 && chars[start] == DOT {
        assert(name == seq![DOT]);
        None
    } else if end - start == 2 && chars[start] == DOT && chars[start + 1] == DOT {
        assert(name == seq![DOT, DOT]);
        None
    } else {
        assert(name != seq![DOT]) by {
            if name == seq![DOT] {
                assert(name.len() == 1 && name[0] == DOT);
            }
        }
        assert(name != seq![DOT, DOT]) by {
            if name == seq![DOT, DOT] {
                assert(name.len() == 2 && name[0] == DOT && name[1] == DOT);
            }
        }
        Some((start, end))
    }
}

/// The characters `chars[start..end]` as a string.
fn span_string(chars: &Vec<char>, start: usize, end: usize) -> (s: String)
    requires
        start <= end <= chars.len(),
    ensures
        s@ == chars@.subrange(start as int, end as int),
{
    string_of(vstd::slice::slice_subrange(chars.as_slice(), start, end))
}

/// The file name of `path`: its last segment that counts, unless that is `.`
/// or `..` or there is none.
pub fn file_name(path: &str) -> (name: Option<String>)
    ensures
        match name {
            Some(n) => spec_file_name(path@) == Some(n@),
            None => spec_file_name(path@) is None,
        },
{
    let chars = chars_of(path);
    match name_span(&chars) {
        Some((start, end)) => Some(span_string(&chars, start, end)),
        None => None,
    }
}

/// The extension of `path`: what follows the last dot of its file name,
/// unless the name holds no dot or only the one it begins with.
pub fn extension(path: &str) -> (ext: Option<String>)
    ensures
        match ext {
            Some(e) => spec_extension(path@) == Some(e@),
            None => spec_extension(path@) is None,
        },
{
    let chars = chars_of(path);
    match name_span(&chars) {
        Some((start, end)) => {
            let ghost name = chars@.subrange(start as int, end as int);
            match last_index_in(&chars, start, end, DOT) {
                Some(dot) => {
                    if dot == start {
                        None
                    } else {
                        assert(name.skip(dot - start + 1) == chars@.subrange(
                            dot + 1,
                            end as int,
                        ));
                        Some(span_string(&chars, dot + 1, end))
                    }
                },
                None => None,
            }
        },
        None => None,
    }
}

/// The directory that holds the last segment of `path` that counts.
pub fn directory(path: &str) -> (dir: String)
    ensures
        dir@ == spec_directory(path@),
{
    let chars = chars_of(path);
    let end = trimmed_len(&chars, chars.len());
    assert(chars@.take(chars.len() as int) == chars@);
    assert(chars@.take(end as int) == chars@.subrange(0, end as int));
    match last_index_in(&chars, 0, end, SEPARATOR) {
        Some(cut) => {
            assert(chars@.take(end as int).take(cut as int) == chars@.take(cut as int));
            let kept = trimmed_len(&chars, cut);
            if kept == 0 {
                let mut root = String::new();
                root.push(SEPARATOR);
                assert(root@ == seq![SEPARATOR]);
                root
            } else {
                assert(chars@.take(kept as int) == chars@.subrange(0, kept as int));
                span_string(&chars, 0, kept)
            }
        },
        None => String::new(),
    }
}

} // verus!
