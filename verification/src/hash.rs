//! Content-addressed card identity.
//!
//! A card's identity is the digest of its segment text followed by its line
//! range rendered as `"<start>:<end>"`.  The digest itself comes from an
//! outside hash; everything up to the digest call is verified, and the
//! injectivity of the digest *input* in (text, range) is proved below.

use vstd::prelude::*;
use vstd::string::*;

verus! {

/// The decimal digit character for `d` in `0..10`.
pub open spec fn dec_digit(d: int) -> char {
    if d == 0 {
        '0'
    } else if d == 1 {
        '1'
    } else if d == 2 {
        '2'
    } else if d == 3 {
        '3'
    } else if d == 4 {
        '4'
    } else if d == 5 {
        '5'
    } else if d == 6 {
        '6'
    } else if d == 7 {
        '7'
    } else if d == 8 {
        '8'
    } else {
        '9'
    }
}

/// The decimal numeral of a non-negative integer, most significant digit
/// first, with no leading zeros (a lone zero for 0).
pub open spec fn spec_dec(n: int) -> Seq<char>
    decreases n,
{
    if n < 10 {
        seq![dec_digit(n)]
    } else {
        spec_dec(n / 10).push(dec_digit(n % 10))
    }
}

fn dec_digit_str(d: usize) -> (r: &'static str)
    requires
        d < 10,
    ensures
        r@ == seq![dec_digit(d as int)],
{
    proof {
        reveal_strlit("0");
        reveal_strlit("1");
        reveal_strlit("2");
        reveal_strlit("3");
        reveal_strlit("4");
        reveal_strlit("5");
        reveal_strlit("6");
        reveal_strlit("7");
        reveal_strlit("8");
        reveal_strlit("9");
        assert(("0")@ =~= seq!['0']);
        assert(("1")@ =~= seq!['1']);
        assert(("2")@ =~= seq!['2']);
        assert(("3")@ =~= seq!['3']);
        assert(("4")@ =~= seq!['4']);
        assert(("5")@ =~= seq!['5']);
        assert(("6")@ =~= seq!['6']);
        assert(("7")@ =~= seq!['7']);
        assert(("8")@ =~= seq!['8']);
        assert(("9")@ =~= seq!['9']);
    }
    match d {
        0 => "0",
        1 => "1",
        2 => "2",
        3 => "3",
        4 => "4",
        5 => "5",
        6 => "6",
        7 => "7",
        8 => "8",
        _ => "9",
    }
}

/// Render a line index as its decimal numeral.
fn usize_to_dec(n: usize) -> (r: String)
    ensures
        r@ == spec_dec(n as int),
    decreases n,
{
    if n < 10 {
        dec_digit_str(n).to_owned()
    } else {
        let mut s = usize_to_dec(n / 10);
        s.append(dec_digit_str(n % 10));
        proof {
            assert(spec_dec(n as int / 10) + seq![dec_digit(n as int % 10)] =~= spec_dec(
                n as int / 10,
            ).push(dec_digit(n as int % 10)));
        }
        s
    }
}

/// The positional part of the digest input: `"<start>:<end>"`.
pub open spec fn range_code(start: int, end: int) -> Seq<char> {
    spec_dec(start) + seq![':'] + spec_dec(end)
}

/// The full digest input for a segment: its text followed by its range code.
pub open spec fn hash_input(content: Seq<char>, start: int, end: int) -> Seq<char> {
    content + range_code(start, end)
}

/// What the outside hash returns on a given input.
pub uninterp spec fn blake3_hex_of(data: Seq<char>) -> Seq<char>;

/// Relies on `blake3::hash` over the string's bytes, and on the hex
/// rendering of `blake3::Hash`: a 64-digit lowercase hex digest determined
/// by the input alone.
#[verifier::external_body]
fn blake3_hex(data: &str) -> (r: String)
    ensures
        r@ == blake3_hex_of(data@),
        r@.len() == 64,
{
    blake3::hash(data.as_bytes()).to_string()
}

/// The stable identity digest of a segment: the digest of its text and its
/// half-open line range.
pub fn get_card_hash(content: &str, start_idx: usize, end_idx: usize) -> (r: String)
    ensures
        r@ == blake3_hex_of(hash_input(content@, start_idx as int, end_idx as int)),
        r@.len() == 64,
{
    let mut data = content.to_owned();
    let s = usize_to_dec(start_idx);
    data.append(s.as_str());
    data.append(":");
    let e = usize_to_dec(end_idx);
    data.append(e.as_str());
    proof {
        reveal_strlit(":");
        assert((":")@ =~= seq![':']);
        assert(data@ =~= hash_input(content@, start_idx as int, end_idx as int));
    }
    blake3_hex(data.as_str())
}

proof fn lemma_dec_len(n: int)
    requires
        n >= 0,
    ensures
        spec_dec(n).len() >= 1,
        n >= 10 ==> spec_dec(n).len() >= 2,
    decreases n,
{
    if n >= 10 {
        lemma_dec_len(n / 10);
    }
}

proof fn lemma_dec_no_colon(n: int)
    requires
        n >= 0,
    ensures
        forall|i: int| 0 <= i < spec_dec(n).len() ==> spec_dec(n)[i] != ':',
    decreases n,
{
    if n < 10 {
        assert(spec_dec(n)[0] == dec_digit(n));
    } else {
        lemma_dec_no_colon(n / 10);
        let p = spec_dec(n / 10);
        let d = dec_digit(n % 10);
        assert(spec_dec(n) == p.push(d));
        assert forall|i: int| 0 <= i < spec_dec(n).len() implies spec_dec(n)[i] != ':' by {
            if i < p.len() {
                assert(p.push(d)[i] == p[i]);
            } else {
                assert(p.push(d)[i] == d);
            }
        }
    }
}

proof fn lemma_dec_injective(a: int, b: int)
    requires
        a >= 0,
        b >= 0,
        spec_dec(a) == spec_dec(b),
    ensures
        a == b,
    decreases a,
{
    lemma_dec_len(a);
    lemma_dec_len(b);
    if a < 10 && b < 10 {
        assert(spec_dec(a)[0] == dec_digit(a));
        assert(spec_dec(b)[0] == dec_digit(b));
        assert(dec_digit(a) == dec_digit(b));
    } else if a < 10 {
        assert(spec_dec(a).len() == 1);
        assert(false);
    } else if b < 10 {
        assert(spec_dec(b).len() == 1);
        assert(false);
    } else {
        let pa = spec_dec(a / 10);
        let pb = spec_dec(b / 10);
        assert(spec_dec(a) == pa.push(dec_digit(a % 10)));
        assert(spec_dec(b) == pb.push(dec_digit(b % 10)));
        assert(pa.push(dec_digit(a % 10)).drop_last() =~= pa);
        assert(pb.push(dec_digit(b % 10)).drop_last() =~= pb);
        lemma_dec_injective(a / 10, b / 10);
        assert(pa.push(dec_digit(a % 10)).last() == dec_digit(a % 10));
        assert(pb.push(dec_digit(b % 10)).last() == dec_digit(b % 10));
        assert(dec_digit(a % 10) == dec_digit(b % 10));
        assert(a % 10 == b % 10);
        vstd::arithmetic::div_mod::lemma_fundamental_div_mod(a, 10);
        vstd::arithmetic::div_mod::lemma_fundamental_div_mod(b, 10);
    }
}

proof fn lemma_concat_split(x1: Seq<char>, y1: Seq<char>, x2: Seq<char>, y2: Seq<char>)
    requires
        x1 + y1 == x2 + y2,
        x1.len() == x2.len(),
    ensures
        x1 == x2,
        y1 == y2,
{
    assert forall|i: int| 0 <= i < x1.len() implies x1[i] == x2[i] by {
        assert((x1 + y1)[i] == x1[i]);
        assert((x2 + y2)[i] == x2[i]);
    }
    assert(x1 =~= x2);
    assert((x1 + y1).len() == x1.len() + y1.len());
    assert((x2 + y2).len() == x2.len() + y2.len());
    assert(y1.len() == y2.len());
    assert forall|i: int| 0 <= i < y1.len() implies y1[i] == y2[i] by {
        assert((x1 + y1)[i + x1.len()] == y1[i]);
        assert((x2 + y2)[i + x2.len()] == y2[i]);
    }
    assert(y1 =~= y2);
}

proof fn lemma_range_code_injective(s1: int, e1: int, s2: int, e2: int)
    requires
        s1 >= 0,
        e1 >= 0,
        s2 >= 0,
        e2 >= 0,
        range_code(s1, e1) == range_code(s2, e2),
    ensures
        s1 == s2,
        e1 == e2,
{
    lemma_dec_len(s1);
    lemma_dec_len(s2);
    lemma_dec_no_colon(s1);
    lemma_dec_no_colon(s2);
    let i1 = spec_dec(s1).len() as int;
    let i2 = spec_dec(s2).len() as int;
    assert(range_code(s1, e1) =~= spec_dec(s1) + (seq![':'] + spec_dec(e1)));
    assert(range_code(s2, e2) =~= spec_dec(s2) + (seq![':'] + spec_dec(e2)));
    assert(range_code(s1, e1)[i1] == ':');
    assert(range_code(s2, e2)[i2] == ':');
    assert forall|j: int| 0 <= j < i1 implies range_code(s1, e1)[j] != ':' by {
        assert(range_code(s1, e1)[j] == spec_dec(s1)[j]);
    }
    assert forall|j: int| 0 <= j < i2 implies range_code(s2, e2)[j] != ':' by {
        assert(range_code(s2, e2)[j] == spec_dec(s2)[j]);
    }
    if i1 < i2 {
        assert(range_code(s2, e2)[i1] != ':');
        assert(false);
    }
    if i2 < i1 {
        assert(range_code(s1, e1)[i2] != ':');
        assert(false);
    }
    lemma_concat_split(
        spec_dec(s1),
        seq![':'] + spec_dec(e1),
        spec_dec(s2),
        seq![':'] + spec_dec(e2),
    );
    lemma_dec_injective(s1, s2);
    lemma_concat_split(seq![':'], spec_dec(e1), seq![':'], spec_dec(e2));
    lemma_dec_injective(e1, e2);
}

/// For one text, distinct position ranges give distinct digest inputs, so
/// the identity of a card that moves changes whenever the digest does not
/// collide.
pub proof fn lemma_hash_input_distinct_ranges(t: Seq<char>, s1: int, e1: int, s2: int, e2: int)
    requires
        s1 >= 0,
        e1 >= 0,
        s2 >= 0,
        e2 >= 0,
        s1 != s2 || e1 != e2,
    ensures
        hash_input(t, s1, e1) != hash_input(t, s2, e2),
{
    if hash_input(t, s1, e1) == hash_input(t, s2, e2) {
        assert((t + range_code(s1, e1)).len() == t.len() + range_code(s1, e1).len());
        assert((t + range_code(s2, e2)).len() == t.len() + range_code(s2, e2).len());
        assert(range_code(s1, e1).len() == range_code(s2, e2).len());
        lemma_concat_split(t, range_code(s1, e1), t, range_code(s2, e2));
        lemma_range_code_injective(s1, e1, s2, e2);
    }
}

/// For one position range, distinct texts give distinct digest inputs.
pub proof fn lemma_hash_input_distinct_text(t1: Seq<char>, t2: Seq<char>, s: int, e: int)
    requires
        s >= 0,
        e >= 0,
        t1 != t2,
    ensures
        hash_input(t1, s, e) != hash_input(t2, s, e),
{
    if hash_input(t1, s, e) == hash_input(t2, s, e) {
        assert((t1 + range_code(s, e)).len() == t1.len() + range_code(s, e).len());
        assert((t2 + range_code(s, e)).len() == t2.len() + range_code(s, e).len());
        assert(t1.len() == t2.len());
        lemma_concat_split(t1, range_code(s, e), t2, range_code(s, e));
    }
}

} // verus!
