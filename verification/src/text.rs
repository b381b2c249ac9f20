//! Character-level text utilities: whitespace trimming, newline splitting,
//! and the markdown file-name test.

use vstd::prelude::*;
use vstd::string::*;

verus! {

/// The Unicode `White_Space` characters, the set a whitespace trim removes.
pub open spec fn is_space(c: char) -> bool {
    let n = c as int;
    (9 <= n && n <= 13) || n == 32 || n == 0x85 || n == 0xA0 || n == 0x1680 || (0x2000 <= n
        && n <= 0x200A) || n == 0x2028 || n == 0x2029 || n == 0x202F || n == 0x205F || n == 0x3000
}

/// Executable form of [`is_space`].
pub fn is_space_char(c: char) -> (r: bool)
    ensures
        r == is_space(c),
{
    let n = c as u32;
    (9 <= n && n <= 13) || n == 32 || n == 0x85 || n == 0xA0 || n == 0x1680 || (0x2000 <= n
        && n <= 0x200A) || n == 0x2028 || n == 0x2029 || n == 0x202F || n == 0x205F || n == 0x3000
}

/// `s` with its leading whitespace removed.
pub open spec fn trim_front(s: Seq<char>) -> Seq<char>
    decreases s.len(),
{
    if s.len() > 0 && is_space(s[0]) {
        trim_front(s.subrange(1, s.len() as int))
    } else {
        s
    }
}

/// `s` with its trailing whitespace removed.
pub open spec fn trim_back(s: Seq<char>) -> Seq<char>
    decreases s.len(),
{
    if s.len() > 0 && is_space(s[s.len() - 1]) {
        trim_back(s.subrange(0, s.len() - 1))
    } else {
        s
    }
}

/// `s` with both leading and trailing whitespace removed.
pub open spec fn spec_trim(s: Seq<char>) -> Seq<char> {
    trim_back(trim_front(s))
}

proof fn lemma_trim_front_skip(s: Seq<char>, k: int)
    requires
        0 <= k <= s.len(),
        forall|j: int| 0 <= j < k ==> is_space(s[j]),
    ensures
        trim_front(s) == trim_front(s.subrange(k, s.len() as int)),
    decreases k,
{
    if k == 0 {
        assert(s.subrange(0, s.len() as int) =~= s);
    } else {
        let s1 = s.subrange(1, s.len() as int);
        lemma_trim_front_skip(s1, k - 1);
        assert(s1.subrange(k - 1, s1.len() as int) =~= s.subrange(k, s.len() as int));
    }
}

proof fn lemma_trim_back_skip(s: Seq<char>, k: int)
    requires
        0 <= k <= s.len(),
        forall|j: int| s.len() - k <= j < s.len() ==> is_space(s[j]),
    ensures
        trim_back(s) == trim_back(s.subrange(0, s.len() - k)),
    decreases k,
{
    if k == 0 {
        assert(s.subrange(0, s.len() as int) =~= s);
    } else {
        let s1 = s.subrange(0, s.len() - 1);
        lemma_trim_back_skip(s1, k - 1);
        assert(s1.subrange(0, s1.len() - (k - 1)) =~= s.subrange(0, s.len() - k));
    }
}

/// Trim a line; an all-whitespace line trims to nothing.
pub fn trim_line(line: &str) -> (r: Option<String>)
    ensures
        match r {
            Some(t) => t@ == spec_trim(line@) && t@.len() > 0,
            None => spec_trim(line@).len() == 0,
        },
{
    let len = line.unicode_len();
    let mut lo: usize = 0;
    while lo < len && is_space_char(line.get_char(lo))
        invariant
            0 <= lo <= len,
            len == line@.len(),
            forall|j: int| 0 <= j < lo ==> is_space(line@[j]),
        decreases len - lo,
    {
        lo = lo + 1;
    }
    proof {
        lemma_trim_front_skip(line@, lo as int);
    }
    let ghost t1 = line@.subrange(lo as int, len as int);
    let mut hi: usize = len;
    while hi > lo && is_space_char(line.get_char(hi - 1))
        invariant
            lo <= hi <= len,
            len == line@.len(),
            forall|j: int| hi <= j < len ==> is_space(line@[j]),
        decreases hi,
    {
        hi = hi - 1;
    }
    proof {
        lemma_trim_back_skip(t1, len - hi);
        assert(t1.subrange(0, t1.len() - (len - hi)) =~= line@.subrange(lo as int, hi as int));
    }
    if lo == hi {
        proof {
            assert(spec_trim(line@) =~= Seq::<char>::empty());
        }
        None
    } else {
        let t = line.substring_char(lo, hi);
        assert(spec_trim(line@) == line@.subrange(lo as int, hi as int));
        Some(t.to_owned())
    }
}

/// The segments of `s` between `'\n'` characters, in order.  A string with no
/// newline is one line; every `'\n'` ends a line, so a trailing newline
/// yields a final empty line.
pub open spec fn line_split(s: Seq<char>) -> Seq<Seq<char>>
    decreases s.len(),
{
    if s.len() == 0 {
        seq![Seq::<char>::empty()]
    } else if s[0] == '\n' {
        seq![Seq::<char>::empty()] + line_split(s.subrange(1, s.len() as int))
    } else {
        let rest = line_split(s.subrange(1, s.len() as int));
        seq![seq![s[0]] + rest[0]] + rest.subrange(1, rest.len() as int)
    }
}

proof fn lemma_line_split_len(s: Seq<char>)
    ensures
        line_split(s).len() >= 1,
    decreases s.len(),
{
    if s.len() > 0 {
        lemma_line_split_len(s.subrange(1, s.len() as int));
    }
}

/// If no newline occurs before position `i`, the split starts with
/// `s[..i]`: it is the whole of `s` when `i` reaches the end, and otherwise
/// the rest of the split continues after the newline at `i`.
pub proof fn lemma_line_split_prefix(s: Seq<char>, i: int)
    requires
        0 <= i <= s.len(),
        forall|j: int| 0 <= j < i ==> s[j] != '\n',
    ensures
        i == s.len() ==> line_split(s) == seq![s],
        i < s.len() && s[i] == '\n' ==> line_split(s) == seq![s.subrange(0, i)] + line_split(
            s.subrange(i + 1, s.len() as int),
        ),
    decreases s.len(),
{
    if s.len() == 0 {
        assert(line_split(s) =~~= seq![s]);
    } else if i == 0 {
        if s[0] == '\n' {
            assert(s.subrange(0, 0) =~= Seq::<char>::empty());
            assert(seq![s.subrange(0, 0)] =~= seq![Seq::<char>::empty()]);
        }
    } else {
        let s1 = s.subrange(1, s.len() as int);
        lemma_line_split_prefix(s1, i - 1);
        let rest = line_split(s1);
        lemma_line_split_len(s1);
        if i == s.len() {
            assert(rest == seq![s1]);
            assert(seq![s[0]] + rest[0] =~= s);
            assert(rest.subrange(1, rest.len() as int) =~~= Seq::<Seq<char>>::empty());
            assert(line_split(s) =~~= seq![s]);
        } else if s[i] == '\n' {
            assert(s1[i - 1] == '\n');
            let tail = line_split(s1.subrange(i, s1.len() as int));
            assert(rest == seq![s1.subrange(0, i - 1)] + tail);
            lemma_line_split_len(s1.subrange(i, s1.len() as int));
            assert(s1.subrange(i, s1.len() as int) =~= s.subrange(i + 1, s.len() as int));
            assert(seq![s[0]] + rest[0] =~= s.subrange(0, i));
            assert(rest.subrange(1, rest.len() as int) =~= tail);
            assert(line_split(s) =~~= seq![s.subrange(0, i)] + line_split(
                s.subrange(i + 1, s.len() as int),
            ));
        }
    }
}

/// `s` with every trailing `'/'` removed.
pub open spec fn drop_trailing_slashes(s: Seq<char>) -> Seq<char>
    decreases s.len(),
{
    if s.len() > 0 && s[s.len() - 1] == '/' {
        drop_trailing_slashes(s.subrange(0, s.len() - 1))
    } else {
        s
    }
}

proof fn lemma_drop_trailing_skip(s: Seq<char>, k: int)
    requires
        0 <= k <= s.len(),
        forall|j: int| s.len() - k <= j < s.len() ==> s[j] == '/',
    ensures
        drop_trailing_slashes(s) == drop_trailing_slashes(s.subrange(0, s.len() - k)),
    decreases k,
{
    if k == 0 {
        assert(s.subrange(0, s.len() as int) =~= s);
    } else {
        let s1 = s.subrange(0, s.len() - 1);
        lemma_drop_trailing_skip(s1, k - 1);
        assert(s1.subrange(0, s1.len() - (k - 1)) =~= s.subrange(0, s.len() - k));
    }
}

/// A path names a markdown file: after trailing separators are dropped, its
/// final component ends in a `.md` extension (any letter case), with a
/// non-empty stem before the dot.
pub open spec fn spec_is_markdown(path: Seq<char>) -> bool {
    let t = drop_trailing_slashes(path);
    let n = t.len() as int;
    n >= 4 && t[n - 3] == '.' && t[n - 4] != '/' && (t[n - 2] == 'm' || t[n - 2] == 'M') && (t[n
        - 1] == 'd' || t[n - 1] == 'D')
}

/// Does the path name a markdown file?
pub fn is_markdown(path: &str) -> (r: bool)
    ensures
        r == spec_is_markdown(path@),
{
    let len = path.unicode_len();
    let mut end: usize = len;
    while end > 0 && path.get_char(end - 1) == '/'
        invariant
            0 <= end <= len,
            len == path@.len(),
            forall|j: int| end <= j < len ==> path@[j] == '/',
        decreases end,
    {
        end = end - 1;
    }
    proof {
        lemma_drop_trailing_skip(path@, len - end);
        assert(drop_trailing_slashes(path@) == drop_trailing_slashes(
            path@.subrange(0, end as int),
        ));
    }
    let ghost t = path@.subrange(0, end as int);
    proof {
        assert(drop_trailing_slashes(t) == t);
    }
    if end < 4 {
        false
    } else {
        let dot = path.get_char(end - 3);
        let before = path.get_char(end - 4);
        let m = path.get_char(end - 2);
        let d = path.get_char(end - 1);
        dot == '.' && before != '/' && (m == 'm' || m == 'M') && (d == 'd' || d == 'D')
    }
}

} // verus!
