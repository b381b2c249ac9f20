//! The markdown-to-card extraction state machine.
//!
//! A file's lines are grouped into segments: each `Q:` or `C:` line starts a
//! new segment, and everything up to the next such line (or the end of the
//! file) belongs to it.  A segment is parsed last-write-wins for its `Q:`,
//! `A:` and `C:` lines and classified as a basic or a cloze card.

use vstd::prelude::*;
use vstd::string::*;

use crate::card::{Card, CardContent, CardContentView, CardError, CardView};
use crate::hash::{blake3_hex_of, get_card_hash, hash_input};
use crate::text::{
    is_markdown, lemma_line_split_prefix, line_split, spec_is_markdown, spec_trim, trim_line,
};

verus! {

/// The last-seen trimmed `Q:` / `A:` / `C:` remainders of a segment.
pub ghost struct ParseState {
    pub question: Option<Seq<char>>,
    pub answer: Option<Seq<char>>,
    pub cloze: Option<Seq<char>>,
}

/// A non-empty text, or nothing.
pub open spec fn opt_text(s: Seq<char>) -> Option<Seq<char>> {
    if s.len() == 0 {
        None
    } else {
        Some(s)
    }
}

/// Does the (already trimmed) line begin with `<m>:`?
pub open spec fn has_marker(t: Seq<char>, m: char) -> bool {
    t.len() >= 2 && t[0] == m && t[1] == ':'
}

/// The scan state before any line is seen.
pub open spec fn init_parse_state() -> ParseState {
    ParseState { question: None, answer: None, cloze: None }
}

/// One step of the last-write-wins line scan: a blank or unmarked line
/// changes nothing; a marked line overwrites its field with the trimmed
/// remainder (with nothing, if the remainder is blank).
pub open spec fn spec_apply_line(st: ParseState, line: Seq<char>) -> ParseState {
    let t = spec_trim(line);
    if t.len() == 0 {
        st
    } else if has_marker(t, 'Q') {
        ParseState {
            question: opt_text(spec_trim(t.subrange(2, t.len() as int))),
            answer: st.answer,
            cloze: st.cloze,
        }
    } else if has_marker(t, 'A') {
        ParseState {
            question: st.question,
            answer: opt_text(spec_trim(t.subrange(2, t.len() as int))),
            cloze: st.cloze,
        }
    } else if has_marker(t, 'C') {
        ParseState {
            question: st.question,
            answer: st.answer,
            cloze: opt_text(spec_trim(t.subrange(2, t.len() as int))),
        }
    } else {
        st
    }
}

/// The last-write-wins scan over a sequence of lines.
pub open spec fn spec_parse_lines(ls: Seq<Seq<char>>) -> ParseState
    decreases ls.len(),
{
    if ls.len() == 0 {
        init_parse_state()
    } else {
        spec_apply_line(spec_parse_lines(ls.drop_last()), ls.last())
    }
}

proof fn lemma_parse_push(ls: Seq<Seq<char>>, l: Seq<char>)
    ensures
        spec_parse_lines(ls.push(l)) == spec_apply_line(spec_parse_lines(ls), l),
{
    assert(ls.push(l).drop_last() =~= ls);
    assert(ls.push(l).last() == l);
}

/// The bracket pairs found scanning `s` from position `i` with an optionally
/// open bracket: the first unmatched `[` opens a pair, the next `]` closes
/// it.
pub open spec fn cloze_scan(s: Seq<char>, i: int, open: Option<int>) -> Seq<(int, int)>
    decreases s.len() - i,
{
    if i < 0 || i >= s.len() {
        Seq::empty()
    } else if s[i] == '[' && open is None {
        cloze_scan(s, i + 1, Some(i))
    } else if s[i] == ']' && open is Some {
        seq![(open->0, i)] + cloze_scan(s, i + 1, None)
    } else {
        cloze_scan(s, i + 1, open)
    }
}

/// All bracket pairs of `s`, in order.
pub open spec fn spec_cloze_ranges(s: Seq<char>) -> Seq<(int, int)> {
    cloze_scan(s, 0, None)
}

/// The bracket pairs of a cloze text: each unmatched `[` paired with the
/// next `]` after it.  Only the first pair names the deletion span.
pub fn find_cloze_ranges(text: &str) -> (r: Vec<(usize, usize)>)
    ensures
        r@.map_values(|p: (usize, usize)| (p.0 as int, p.1 as int)) == spec_cloze_ranges(text@),
{
    let len = text.unicode_len();
    let mut ranges: Vec<(usize, usize)> = Vec::new();
    let mut open: Option<usize> = None;
    let mut i: usize = 0;
    while i < len
        invariant
            i <= len,
            len == text@.len(),
            spec_cloze_ranges(text@) == ranges@.map_values(|p: (usize, usize)| (p.0 as int, p.1 as int)) + cloze_scan(
                text@,
                i as int,
                match open {
                    Some(o) => Some(o as int),
                    None => None,
                },
            ),
        decreases len - i,
    {
        let c = text.get_char(i);
        let ghost prev = ranges@.map_values(|p: (usize, usize)| (p.0 as int, p.1 as int));
        if c == '[' && open.is_none() {
            open = Some(i);
        } else if c == ']' && open.is_some() {
            let o = match open {
                Some(o) => o,
                None => 0,
            };
            ranges.push((o, i));
            open = None;
            proof {
                assert(ranges@.map_values(|p: (usize, usize)| (p.0 as int, p.1 as int)) =~= prev
                    + seq![(o as int, i as int)]);
                assert(prev + (seq![(o as int, i as int)] + cloze_scan(text@, i + 1, None)) =~= (
                prev + seq![(o as int, i as int)]) + cloze_scan(text@, i + 1, None));
            }
        }
        i = i + 1;
    }
    ranges
}

proof fn lemma_cloze_scan_open(s: Seq<char>, i: int, o: int)
    requires
        0 <= i <= s.len(),
    ensures
        cloze_scan(s, i, Some(o)).len() > 0 ==> {
            let p = cloze_scan(s, i, Some(o))[0];
            &&& p.0 == o
            &&& i <= p.1 < s.len()
            &&& s[p.1] == ']'
            &&& forall|j: int| i <= j < p.1 ==> s[j] != ']'
        },
        cloze_scan(s, i, Some(o)).len() == 0 ==> forall|j: int| i <= j < s.len() ==> s[j] != ']',
    decreases s.len() - i,
{
    if i < s.len() {
        if s[i] == ']' {
        } else {
            lemma_cloze_scan_open(s, i + 1, o);
        }
    }
}

proof fn lemma_cloze_scan_none(s: Seq<char>, i: int)
    requires
        0 <= i <= s.len(),
    ensures
        cloze_scan(s, i, None).len() > 0 ==> {
            let p = cloze_scan(s, i, None)[0];
            &&& i <= p.0 < p.1 < s.len()
            &&& s[p.0] == '['
            &&& s[p.1] == ']'
            &&& forall|j: int| i <= j < p.0 ==> s[j] != '['
            &&& forall|j: int| p.0 < j < p.1 ==> s[j] != ']'
        },
        cloze_scan(s, i, None).len() == 0 ==> !(exists|a: int, b: int|
            i <= a < b < s.len() && s[a] == '[' && s[b] == ']'),
    decreases s.len() - i,
{
    if i < s.len() {
        if s[i] == '[' {
            lemma_cloze_scan_open(s, i + 1, i);
            let r = cloze_scan(s, i + 1, Some(i));
            if r.len() == 0 {
                assert(cloze_scan(s, i, None).len() == 0);
                if exists|a: int, b: int| i <= a < b < s.len() && s[a] == '[' && s[b] == ']' {
                    let (a, b) = choose|a: int, b: int|
                        i <= a < b < s.len() && s[a] == '[' && s[b] == ']';
                    assert(s[b] != ']');
                }
            }
        } else {
            lemma_cloze_scan_none(s, i + 1);
            let r = cloze_scan(s, i + 1, None);
            if s[i] == ']' || r.len() == 0 {
                if cloze_scan(s, i, None).len() == 0 {
                    if exists|a: int, b: int| i <= a < b < s.len() && s[a] == '[' && s[b] == ']' {
                        let (a, b) = choose|a: int, b: int|
                            i <= a < b < s.len() && s[a] == '[' && s[b] == ']';
                        assert(a != i);
                        assert(i + 1 <= a < b < s.len());
                        assert(false);
                    }
                }
            }
        }
    }
}

/// The first returned cloze span of a text is its first `[`, paired with the
/// first `]` after it; there is no span exactly when no `[` is followed by a
/// `]`.
pub proof fn lemma_first_cloze_pair(s: Seq<char>)
    ensures
        spec_cloze_ranges(s).len() > 0 ==> {
            let p = spec_cloze_ranges(s)[0];
            &&& 0 <= p.0 < p.1 < s.len()
            &&& s[p.0] == '['
            &&& s[p.1] == ']'
            &&& forall|j: int| 0 <= j < p.0 ==> s[j] != '['
            &&& forall|j: int| p.0 < j < p.1 ==> s[j] != ']'
        },
        spec_cloze_ranges(s).len() == 0 ==> !(exists|a: int, b: int|
            0 <= a < b < s.len() && s[a] == '[' && s[b] == ']'),
{
    lemma_cloze_scan_none(s, 0);
}

/// The view of an optional owned string.
pub open spec fn opt_str_view(o: Option<String>) -> Option<Seq<char>> {
    match o {
        Some(s) => Some(s@),
        None => None,
    }
}

fn apply_line(
    q: Option<String>,
    a: Option<String>,
    c: Option<String>,
    raw: &str,
) -> (r: (Option<String>, Option<String>, Option<String>))
    ensures
        ({
            let st = spec_apply_line(
                ParseState {
                    question: opt_str_view(q),
                    answer: opt_str_view(a),
                    cloze: opt_str_view(c),
                },
                raw@,
            );
            opt_str_view(r.0) == st.question && opt_str_view(r.1) == st.answer && opt_str_view(r.2)
                == st.cloze
        }),
{
    match trim_line(raw) {
        None => (q, a, c),
        Some(t) => {
            let tlen = t.as_str().unicode_len();
            if tlen >= 2 && t.as_str().get_char(1) == ':' {
                let c0 = t.as_str().get_char(0);
                if c0 == 'Q' {
                    let rest = t.as_str().substring_char(2, tlen);
                    (trim_line(rest), a, c)
                } else if c0 == 'A' {
                    let rest = t.as_str().substring_char(2, tlen);
                    (q, trim_line(rest), c)
                } else if c0 == 'C' {
                    let rest = t.as_str().substring_char(2, tlen);
                    (q, a, trim_line(rest))
                } else {
                    (q, a, c)
                }
            } else {
                (q, a, c)
            }
        },
    }
}

/// Parse a segment's text for its last-seen `Q:`, `A:` and `C:` lines; later
/// lines of the same marker override earlier ones, and a marker whose
/// remainder trims to nothing clears its field.
pub fn parse_card_lines(contents: &str) -> (r: (Option<String>, Option<String>, Option<String>))
    ensures
        ({
            let st = spec_parse_lines(line_split(contents@));
            opt_str_view(r.0) == st.question && opt_str_view(r.1) == st.answer && opt_str_view(r.2)
                == st.cloze
        }),
{
    let len = contents.unicode_len();
    let mut q: Option<String> = None;
    let mut a: Option<String> = None;
    let mut c: Option<String> = None;
    let mut seg_start: usize = 0;
    let mut i: usize = 0;
    let ghost mut done: Seq<Seq<char>> = Seq::empty();
    proof {
        assert(contents@.subrange(0, len as int) =~= contents@);
        assert(done + line_split(contents@) =~= line_split(contents@));
    }
    while i < len
        invariant
            seg_start <= i <= len,
            len == contents@.len(),
            line_split(contents@) == done + line_split(
                contents@.subrange(seg_start as int, len as int),
            ),
            forall|j: int| seg_start <= j < i ==> contents@[j] != '\n',
            opt_str_view(q) == spec_parse_lines(done).question,
            opt_str_view(a) == spec_parse_lines(done).answer,
            opt_str_view(c) == spec_parse_lines(done).cloze,
        decreases len - i,
    {
        if contents.get_char(i) == '\n' {
            let seg = contents.substring_char(seg_start, i);
            proof {
                let suffix = contents@.subrange(seg_start as int, len as int);
                assert forall|j: int| 0 <= j < i - seg_start implies suffix[j] != '\n' by {
                    assert(suffix[j] == contents@[seg_start + j]);
                }
                lemma_line_split_prefix(suffix, i - seg_start);
                assert(suffix[i - seg_start] == '\n');
                assert(suffix.subrange(0, i - seg_start) =~= contents@.subrange(
                    seg_start as int,
                    i as int,
                ));
                assert(suffix.subrange(i - seg_start + 1, suffix.len() as int) =~= contents@.subrange(
                    i as int + 1,
                    len as int,
                ));
                lemma_parse_push(done, seg@);
                assert(done + (seq![seg@] + line_split(contents@.subrange(i as int + 1, len as int)))
                    =~= (done + seq![seg@]) + line_split(contents@.subrange(i as int + 1, len as int)));
                assert(done + seq![seg@] =~= done.push(seg@));
            }
            let (q2, a2, c2) = apply_line(q, a, c, seg);
            q = q2;
            a = a2;
            c = c2;
            proof {
                done = done.push(seg@);
            }
            seg_start = i + 1;
        }
        i = i + 1;
    }
    let seg = contents.substring_char(seg_start, len);
    proof {
        let suffix = contents@.subrange(seg_start as int, len as int);
        assert forall|j: int| 0 <= j < suffix.len() implies suffix[j] != '\n' by {
            assert(suffix[j] == contents@[seg_start + j]);
        }
        lemma_line_split_prefix(suffix, suffix.len() as int);
        lemma_parse_push(done, seg@);
        assert(done + seq![seg@] =~= done.push(seg@));
        assert(line_split(contents@) == done.push(seg@));
    }
    apply_line(q, a, c, seg)
}

/// What a finalized segment becomes: a basic card if both a question and an
/// answer are present, else a cloze card around the first bracket pair of
/// the cloze text, else an error.
pub open spec fn spec_content_to_card(
    path: Seq<char>,
    contents: Seq<char>,
    start: int,
    end: int,
) -> Result<CardView, CardError> {
    let st = spec_parse_lines(line_split(contents));
    let h = blake3_hex_of(hash_input(contents, start, end));
    if st.question is Some && st.answer is Some {
        Ok(
            CardView {
                file_path: path,
                range_start: start,
                range_end: end,
                content: CardContentView::Basic {
                    question: st.question->0,
                    answer: st.answer->0,
                },
                card_hash: h,
            },
        )
    } else if st.cloze is Some {
        let c = st.cloze->0;
        if spec_cloze_ranges(c).len() > 0 {
            Ok(
                CardView {
                    file_path: path,
                    range_start: start,
                    range_end: end,
                    content: CardContentView::Cloze {
                        text: c,
                        start: spec_cloze_ranges(c)[0].0,
                        end: spec_cloze_ranges(c)[0].1,
                    },
                    card_hash: h,
                },
            )
        } else {
            Err(CardError::ClozeMissingSpan)
        }
    } else {
        Err(CardError::InvalidSegment)
    }
}

/// Turn one finalized segment into a card.
pub fn content_to_card(
    card_path: &str,
    contents: &str,
    file_start_idx: usize,
    file_end_idx: usize,
) -> (r: Result<Card, CardError>)
    ensures
        match r {
            Ok(card) => spec_content_to_card(
                card_path@,
                contents@,
                file_start_idx as int,
                file_end_idx as int,
            ) == Ok::<CardView, CardError>(card@),
            Err(e) => spec_content_to_card(
                card_path@,
                contents@,
                file_start_idx as int,
                file_end_idx as int,
            ) == Err::<CardView, CardError>(e),
        },
{
    let (question, answer, cloze) = parse_card_lines(contents);
    let card_hash = get_card_hash(contents, file_start_idx, file_end_idx);
    if question.is_some() && answer.is_some() {
        let q = question.unwrap();
        let a = answer.unwrap();
        let card = Card {
            file_path: card_path.to_owned(),
            file_card_range: (file_start_idx, file_end_idx),
            content: CardContent::Basic { question: q, answer: a },
            card_hash,
        };
        proof {
            assert(spec_content_to_card(
                card_path@,
                contents@,
                file_start_idx as int,
                file_end_idx as int,
            ) matches Ok(v) && v =~= card@);
        }
        Ok(card)
    } else if cloze.is_some() {
        let c = cloze.unwrap();
        let ranges = find_cloze_ranges(c.as_str());
        if ranges.len() == 0 {
            assert(spec_cloze_ranges(c@).len() == 0);
            Err(CardError::ClozeMissingSpan)
        } else {
            let p = ranges[0];
            proof {
                assert(spec_cloze_ranges(c@)[0] == (p.0 as int, p.1 as int));
            }
            let card = Card {
                file_path: card_path.to_owned(),
                file_card_range: (file_start_idx, file_end_idx),
                content: CardContent::Cloze { text: c, start: p.0, end: p.1 },
                card_hash,
            };
            proof {
                assert(spec_content_to_card(
                    card_path@,
                    contents@,
                    file_start_idx as int,
                    file_end_idx as int,
                ) matches Ok(v) && v =~= card@);
            }
            Ok(card)
        }
    } else {
        Err(CardError::InvalidSegment)
    }
}

/// Does the raw line start a new segment?
pub open spec fn is_marker_line(l: Seq<char>) -> bool {
    l.len() >= 2 && (l[0] == 'Q' || l[0] == 'C') && l[1] == ':'
}

fn line_is_marker(line: &str) -> (r: bool)
    ensures
        r == is_marker_line(line@),
{
    if line.unicode_len() >= 2 {
        let c0 = line.get_char(0);
        (c0 == 'Q' || c0 == 'C') && line.get_char(1) == ':'
    } else {
        false
    }
}

/// The extraction state machine over the remaining lines: `buffer` holds the
/// pending segment that began at line `start`, and `acc` the cards already
/// made.  A marker line finalizes the pending segment before starting its
/// own; the end of the file finalizes whatever is pending.  The first bad
/// segment fails the whole extraction.
pub open spec fn extract_from(
    path: Seq<char>,
    ls: Seq<Seq<char>>,
    i: int,
    buffer: Seq<char>,
    start: int,
    acc: Seq<CardView>,
) -> Result<Seq<CardView>, CardError>
    decreases ls.len() - i,
{
    if i < 0 || i >= ls.len() {
        if buffer.len() > 0 {
            match spec_content_to_card(path, buffer, start, ls.len() as int) {
                Ok(c) => Ok(acc.push(c)),
                Err(e) => Err(e),
            }
        } else {
            Ok(acc)
        }
    } else {
        let line = ls[i];
        let appended = line.push('\n');
        if is_marker_line(line) {
            if buffer.len() > 0 {
                match spec_content_to_card(path, buffer, start, i) {
                    Ok(c) => extract_from(path, ls, i + 1, appended, i, acc.push(c)),
                    Err(e) => Err(e),
                }
            } else {
                extract_from(path, ls, i + 1, appended, i, acc)
            }
        } else {
            extract_from(path, ls, i + 1, buffer + appended, start, acc)
        }
    }
}

/// What extracting a whole file's lines yields.
pub open spec fn spec_cards_from_lines(path: Seq<char>, ls: Seq<Seq<char>>) -> Result<
    Seq<CardView>,
    CardError,
> {
    extract_from(path, ls, 0, Seq::empty(), 0, Seq::empty())
}

/// Extract all cards from the ordered lines of one file.
pub fn cards_from_lines(path: &str, lines: &Vec<String>) -> (r: Result<Vec<Card>, CardError>)
    ensures
        ({
            let ls = lines@.map_values(|l: String| l@);
            match r {
                Ok(cards) => spec_cards_from_lines(path@, ls) == Ok::<Seq<CardView>, CardError>(
                    cards@.map_values(|card: Card| card@),
                ),
                Err(e) => spec_cards_from_lines(path@, ls) == Err::<Seq<CardView>, CardError>(e),
            }
        }),
{
    let ghost ls = lines@.map_values(|l: String| l@);
    let mut cards: Vec<Card> = Vec::new();
    let mut buffer = String::new();
    let mut start_idx: usize = 0;
    let mut i: usize = 0;
    proof {
        reveal_strlit("\n");
        assert(("\n")@ =~= seq!['\n']);
        assert(cards@.map_values(|card: Card| card@) =~= Seq::<CardView>::empty());
        assert(buffer@ =~= Seq::<char>::empty());
    }
    while i < lines.len()
        invariant
            i <= lines.len(),
            start_idx <= i,
            ls == lines@.map_values(|l: String| l@),
            extract_from(path@, ls, i as int, buffer@, start_idx as int, cards@.map_values(|card: Card| card@))
                == spec_cards_from_lines(path@, ls),
            ("\n")@ == seq!['\n'],
        decreases lines.len() - i,
    {
        let line = &lines[i];
        let marker = line_is_marker(line.as_str());
        let ghost pre_cards = cards@.map_values(|card: Card| card@);
        if marker {
            if !buffer.as_str().is_empty() {
                match content_to_card(path, buffer.as_str(), start_idx, i) {
                    Ok(card) => {
                        cards.push(card);
                        proof {
                            assert(cards@.map_values(|card: Card| card@) =~= pre_cards.push(card@));
                        }
                    },
                    Err(e) => {
                        return Err(e);
                    },
                }
            }
            buffer = String::new();
            buffer.append(line.as_str());
            buffer.append("\n");
            proof {
                assert(buffer@ =~= ls[i as int].push('\n'));
            }
            start_idx = i;
        } else {
            let ghost buf0 = buffer@;
            buffer.append(line.as_str());
            buffer.append("\n");
            proof {
                assert(buffer@ =~= buf0 + ls[i as int].push('\n'));
            }
        }
        i = i + 1;
    }
    if buffer.as_str().is_empty() {
        Ok(cards)
    } else {
        match content_to_card(path, buffer.as_str(), start_idx, lines.len()) {
            Ok(card) => {
                let ghost pre_cards = cards@.map_values(|card: Card| card@);
                cards.push(card);
                proof {
                    assert(cards@.map_values(|card: Card| card@) =~= pre_cards.push(card@));
                }
                Ok(cards)
            },
            Err(e) => Err(e),
        }
    }
}

/// Check that a user-supplied path can name a card file.  Whether the path
/// names a directory only the file system knows, so the caller passes it in.
pub fn validate_file_can_be_card(path: &str, path_is_dir: bool) -> (r: Result<String, CardError>)
    ensures
        match r {
            Ok(p) => p@ == spec_trim(path@) && spec_trim(path@).len() > 0 && !path_is_dir
                && spec_is_markdown(spec_trim(path@)),
            Err(CardError::EmptyPath) => spec_trim(path@).len() == 0,
            Err(CardError::DirectoryPath) => spec_trim(path@).len() > 0 && path_is_dir,
            Err(CardError::NotMarkdown) => spec_trim(path@).len() > 0 && !path_is_dir
                && !spec_is_markdown(spec_trim(path@)),
            Err(_) => false,
        },
{
    match trim_line(path) {
        None => Err(CardError::EmptyPath),
        Some(p) => {
            if path_is_dir {
                Err(CardError::DirectoryPath)
            } else if !is_markdown(p.as_str()) {
                Err(CardError::NotMarkdown)
            } else {
                Ok(p)
            }
        },
    }
}

/// Is some line of the segment a marker line once trimmed?
pub open spec fn line_has_any_marker(l: Seq<char>) -> bool {
    let t = spec_trim(l);
    t.len() >= 2 && t[1] == ':' && (t[0] == 'Q' || t[0] == 'A' || t[0] == 'C')
}

proof fn lemma_parse_no_markers(ls: Seq<Seq<char>>)
    requires
        forall|i: int| 0 <= i < ls.len() ==> !line_has_any_marker(ls[i]),
    ensures
        spec_parse_lines(ls) == init_parse_state(),
    decreases ls.len(),
{
    if ls.len() > 0 {
        lemma_parse_no_markers(ls.drop_last());
    }
}

/// A segment none of whose lines carries a `Q:`, `A:` or `C:` marker cannot
/// become a card: finalizing it fails rather than yielding an empty card.
pub proof fn lemma_unmarked_segment_fails(path: Seq<char>, contents: Seq<char>, start: int, end: int)
    requires
        forall|i: int|
            0 <= i < line_split(contents).len() ==> !line_has_any_marker(line_split(contents)[i]),
    ensures
        spec_content_to_card(path, contents, start, end) == Err::<CardView, CardError>(
            CardError::InvalidSegment,
        ),
{
    lemma_parse_no_markers(line_split(contents));
}

/// A file with no lines at all yields no cards and no error: an empty
/// pending segment is never finalized.
pub proof fn lemma_no_lines_no_cards(path: Seq<char>)
    ensures
        spec_cards_from_lines(path, Seq::empty()) == Ok::<Seq<CardView>, CardError>(
            Seq::<CardView>::empty(),
        ),
{
}

} // verus!
