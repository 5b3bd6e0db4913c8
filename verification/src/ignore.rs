//! The admission configuration: accepted file extensions and ignored
//! directory names, plus the parser for the user-editable line lists
//! they are loaded from.

use crate::chars::{split_on, split_chars, str_chars, chars_string, subrange_chars};
use vstd::prelude::*;

verus! {

/// Accepted extensions (compared lower-cased) and ignored directory
/// names (compared verbatim). Immutable configuration.
#[derive(Debug)]
pub struct IgnoreList {
    pub accepted_extensions: Vec<String>,
    pub ignored_directories: Vec<String>,
}

impl Default for IgnoreList {
    /// An empty configuration: nothing accepted, nothing ignored.
    fn default() -> (r: Self)
        ensures
            r.accepted_extensions@.len() == 0,
            r.ignored_directories@.len() == 0,
    {
        IgnoreList { accepted_extensions: Vec::new(), ignored_directories: Vec::new() }
    }
}

/// The views of a vector of strings.
pub open spec fn list_views(l: Seq<String>) -> Seq<Seq<char>> {
    l.map_values(|s: String| s@)
}

/// ASCII whitespace, as trimmed from list lines.
pub open spec fn is_ws(c: char) -> bool {
    c == ' ' || c == '\t' || c == '\n' || c == '\r' || c == '\u{c}'
}

/// The sequence with leading whitespace removed.
pub open spec fn trim_start_spec(s: Seq<char>) -> Seq<char>
    decreases s.len(),
{
    if s.len() > 0 && is_ws(s[0]) {
        trim_start_spec(s.drop_first())
    } else {
        s
    }
}

/// The sequence with trailing whitespace removed.
pub open spec fn trim_end_spec(s: Seq<char>) -> Seq<char>
    decreases s.len(),
{
    if s.len() > 0 && is_ws(s.last()) {
        trim_end_spec(s.drop_last())
    } else {
        s
    }
}

/// The sequence with whitespace removed from both ends.
pub open spec fn trim_spec(s: Seq<char>) -> Seq<char> {
    trim_end_spec(trim_start_spec(s))
}

/// The trimmed, non-empty lines among the given parts, in order.
pub open spec fn clean_lines(parts: Seq<Seq<char>>) -> Seq<Seq<char>>
    decreases parts.len(),
{
    if parts.len() == 0 {
        Seq::<Seq<char>>::empty()
    } else if trim_spec(parts.last()).len() > 0 {
        clean_lines(parts.drop_last()).push(trim_spec(parts.last()))
    } else {
        clean_lines(parts.drop_last())
    }
}

/// What a line list file means: its lines, trimmed, with blank lines
/// dropped.
pub open spec fn list_lines_spec(text: Seq<char>) -> Seq<Seq<char>> {
    clean_lines(split_on(text, '\n'))
}

/// Pins the start trim by the index of the first non-whitespace character.
proof fn lemma_trim_start_at(s: Seq<char>, i: int)
    requires
        0 <= i <= s.len(),
        forall|j: int| 0 <= j < i ==> is_ws(s[j]),
        i < s.len() ==> !is_ws(s[i]),
    ensures
        trim_start_spec(s) =~= s.skip(i),
    decreases i,
{
    if i == 0 {
        if s.len() > 0 {
            assert(!is_ws(s[0]));
        }
        assert(s.skip(0) =~= s);
    } else {
        assert(is_ws(s[0]));
        let t = s.drop_first();
        assert(forall|j: int| 0 <= j < i - 1 ==> is_ws(t[j]));
        lemma_trim_start_at(t, i - 1);
        assert(t.skip(i - 1) =~= s.skip(i));
    }
}

/// Pins the end trim by the index one past the last non-whitespace
/// character.
proof fn lemma_trim_end_at(s: Seq<char>, i: int)
    requires
        0 <= i <= s.len(),
        forall|j: int| i <= j < s.len() ==> is_ws(s[j]),
        i > 0 ==> !is_ws(s[i - 1]),
    ensures
        trim_end_spec(s) =~= s.take(i),
    decreases s.len(),
{
    if i == s.len() {
        if s.len() > 0 {
            assert(!is_ws(s.last()));
        }
        assert(s.take(i) =~= s);
    } else {
        assert(is_ws(s.last()));
        let t = s.drop_last();
        lemma_trim_end_at(t, i);
        assert(t.take(i) =~= s.take(i));
    }
}

/// Trims ASCII whitespace from both ends of a character vector.
pub fn trim_chars(v: &Vec<char>) -> (r: Vec<char>)
    ensures
        r@ =~= trim_spec(v@),
{
    let n = v.len();
    let mut a: usize = 0;
    while a < n && (v[a] == ' ' || v[a] == '\t' || v[a] == '\n' || v[a] == '\r' || v[a] == '\u{c}')
        invariant
            a <= n,
            n == v@.len(),
            forall|j: int| 0 <= j < a ==> is_ws(v@[j]),
        decreases n - a,
    {
        a = a + 1;
    }
    proof {
        lemma_trim_start_at(v@, a as int);
    }
    let mut b: usize = n;
    while b > a && (v[b - 1] == ' ' || v[b - 1] == '\t' || v[b - 1] == '\n' || v[b - 1] == '\r'
        || v[b - 1] == '\u{c}')
        invariant
            a <= b <= n,
            n == v@.len(),
            forall|j: int| 0 <= j < a ==> is_ws(v@[j]),
            forall|j: int| b <= j < n ==> is_ws(v@[j]),
        decreases b,
    {
        b = b - 1;
    }
    let r = subrange_chars(v, a, b);
    proof {
        let st = v@.skip(a as int);
        assert(forall|j: int| b - a <= j < st.len() ==> is_ws(st[j]));
        if b > a {
            assert(!is_ws(st[b - a - 1]));
        }
        lemma_trim_end_at(st, b - a);
        assert(st.take(b - a) =~= v@.subrange(a as int, b as int));
    }
    r
}

/// Parses a user-editable list file: one entry per line, trimmed, blank
/// lines skipped.
pub fn parse_list_lines(text: &str) -> (r: Vec<String>)
    ensures
        list_views(r@) =~~= list_lines_spec(text@),
{
    let chars = str_chars(text);
    let parts = split_chars(&chars, '\n');
    let mut r: Vec<String> = Vec::new();
    let mut i: usize = 0;
    while i < parts.len()
        invariant
            i <= parts@.len(),
            list_views(r@) =~~= clean_lines(
                parts@.map_values(|p: Vec<char>| p@).take(i as int),
            ),
        decreases parts@.len() - i,
    {
        let t = trim_chars(&parts[i]);
        proof {
            let pv = parts@.map_values(|p: Vec<char>| p@);
            assert(pv.take(i as int + 1).drop_last() =~= pv.take(i as int));
            assert(pv.take(i as int + 1).last() == parts@[i as int]@);
        }
        if t.len() > 0 {
            r.push(chars_string(&t));
        }
        i = i + 1;
    }
    proof {
        let pv = parts@.map_values(|p: Vec<char>| p@);
        assert(pv.take(parts@.len() as int) =~= pv);
    }
    r
}


impl IgnoreList {
    /// Combines the two loaded lists. When both come back empty — a
    /// freshly installed copy has no list files yet — the fallback
    /// configuration stands in; otherwise the loaded lists are taken
    /// as they are.
    pub fn resolve(
        accepted_extensions: Vec<String>,
        ignored_directories: Vec<String>,
        fallback: IgnoreList,
    ) -> (r: IgnoreList)
        ensures
            (accepted_extensions@.len() == 0 && ignored_directories@.len() == 0) ==> (
            r.accepted_extensions@ == fallback.accepted_extensions@ && r.ignored_directories@
                == fallback.ignored_directories@),
            !(accepted_extensions@.len() == 0 && ignored_directories@.len() == 0) ==> (
            r.accepted_extensions@ == accepted_extensions@ && r.ignored_directories@
                == ignored_directories@),
    {
        if accepted_extensions.is_empty() && ignored_directories.is_empty() {
            fallback
        } else {
            IgnoreList { accepted_extensions, ignored_directories }
        }
    }
}

} // verus!
