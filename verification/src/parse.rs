//! Parsing of one edge-list line: the first and the last whitespace-separated
//! decimal token give the source and the destination node identifier.

use vstd::prelude::*;
use vstd::string::StrSliceExecFns;

verus! {

/// A character that separates tokens: ASCII whitespace.
pub open spec fn is_sep(c: char) -> bool {
    c == ' ' || c == '\t' || c == '\n' || c == '\r' || c == '\u{b}' || c == '\u{c}'
}

/// A decimal digit.
pub open spec fn is_digit(c: char) -> bool {
    48 <= c as u32 <= 57
}

/// The numeric value of a decimal digit.
pub open spec fn digit_val(c: char) -> int {
    c as u32 - 48
}

/// The first index `j >= i` whose character is not a separator, or the length.
pub open spec fn skip_sep(s: Seq<char>, i: int) -> int
    decreases s.len() - i when 0 <= i <= s.len()
{
    if i >= s.len() {
        i
    } else if is_sep(s[i]) {
        skip_sep(s, i + 1)
    } else {
        i
    }
}

/// The first index `j >= i` whose character is a separator, or the length.
pub open spec fn scan_token(s: Seq<char>, i: int) -> int
    decreases s.len() - i when 0 <= i <= s.len()
{
    if i >= s.len() {
        i
    } else if !is_sep(s[i]) {
        scan_token(s, i + 1)
    } else {
        i
    }
}

/// The largest index `j <= i` such that the character before `j` is not a
/// separator, or 0: scanning down from `i` over trailing separators.
pub open spec fn rskip_sep(s: Seq<char>, i: int) -> int
    decreases i when 0 <= i <= s.len()
{
    if i <= 0 {
        0
    } else if is_sep(s[i - 1]) {
        rskip_sep(s, i - 1)
    } else {
        i
    }
}

/// The largest index `j <= i` such that the character before `j` is a
/// separator, or 0: scanning down from `i` over token characters.
pub open spec fn rscan_token(s: Seq<char>, i: int) -> int
    decreases i when 0 <= i <= s.len()
{
    if i <= 0 {
        0
    } else if !is_sep(s[i - 1]) {
        rscan_token(s, i - 1)
    } else {
        i
    }
}

/// Start of the first whitespace-separated token (the length if none exists).
pub open spec fn first_token_start(s: Seq<char>) -> int {
    skip_sep(s, 0)
}

/// End of the first whitespace-separated token.
pub open spec fn first_token_end(s: Seq<char>) -> int {
    scan_token(s, first_token_start(s))
}

/// End of the last whitespace-separated token (0 if none exists).
pub open spec fn last_token_end(s: Seq<char>) -> int {
    rskip_sep(s, s.len() as int)
}

/// Start of the last whitespace-separated token.
pub open spec fn last_token_start(s: Seq<char>) -> int {
    rscan_token(s, last_token_end(s))
}

pub open spec fn all_digits(s: Seq<char>) -> bool {
    forall|i: int| 0 <= i < s.len() ==> is_digit(#[trigger] s[i])
}

/// The value of a sequence of decimal digits, most significant first.
pub open spec fn dec_value(s: Seq<char>) -> int
    decreases s.len()
{
    if s.len() == 0 {
        0
    } else {
        10 * dec_value(s.drop_last()) + digit_val(s.last())
    }
}

/// The value of the first token of a line: the source node of its edge.
pub open spec fn from_node_of(s: Seq<char>) -> int {
    dec_value(s.subrange(first_token_start(s), first_token_end(s)))
}

/// The value of the last token of a line: the destination node of its edge.
pub open spec fn to_node_of(s: Seq<char>) -> int {
    dec_value(s.subrange(last_token_start(s), last_token_end(s)))
}

/// A line from which an edge can be read: it holds at least one token, its
/// first and last tokens consist of decimal digits, and both values fit in
/// `usize`.
pub open spec fn valid_edge_line(s: Seq<char>) -> bool {
    &&& first_token_start(s) < s.len()
    &&& all_digits(s.subrange(first_token_start(s), first_token_end(s)))
    &&& from_node_of(s) <= usize::MAX
    &&& all_digits(s.subrange(last_token_start(s), last_token_end(s)))
    &&& to_node_of(s) <= usize::MAX
}

fn sep_char(c: char) -> (r: bool)
    ensures
        r == is_sep(c),
{
    c == ' ' || c == '\t' || c == '\n' || c == '\r' || c == '\u{b}' || c == '\u{c}'
}

fn digit_char(c: char) -> (r: bool)
    ensures
        r == is_digit(c),
{
    let u = c as u32;
    48 <= u && u <= 57
}

proof fn lemma_skip_sep_exact(s: Seq<char>, i: int, a: int)
    requires
        0 <= i <= a <= s.len(),
        forall|j: int| i <= j < a ==> is_sep(#[trigger] s[j]),
        a == s.len() || !is_sep(s[a]),
    ensures
        skip_sep(s, i) == a,
    decreases a - i,
{
    if i < a {
        lemma_skip_sep_exact(s, i + 1, a);
    }
}

proof fn lemma_scan_token_exact(s: Seq<char>, i: int, b: int)
    requires
        0 <= i <= b <= s.len(),
        forall|j: int| i <= j < b ==> !is_sep(#[trigger] s[j]),
        b == s.len() || is_sep(s[b]),
    ensures
        scan_token(s, i) == b,
    decreases b - i,
{
    if i < b {
        lemma_scan_token_exact(s, i + 1, b);
    }
}

proof fn lemma_rskip_sep_exact(s: Seq<char>, e: int, i: int)
    requires
        0 <= e <= i <= s.len(),
        forall|j: int| e <= j < i ==> is_sep(#[trigger] s[j]),
        e == 0 || !is_sep(s[e - 1]),
    ensures
        rskip_sep(s, i) == e,
    decreases i - e,
{
    if e < i {
        lemma_rskip_sep_exact(s, e, i - 1);
    }
}

proof fn lemma_rscan_token_exact(s: Seq<char>, d: int, e: int)
    requires
        0 <= d <= e <= s.len(),
        forall|j: int| d <= j < e ==> !is_sep(#[trigger] s[j]),
        d == 0 || is_sep(s[d - 1]),
    ensures
        rscan_token(s, e) == d,
    decreases e - d,
{
    if d < e {
        lemma_rscan_token_exact(s, d, e - 1);
    }
}

proof fn lemma_dec_value_step(t: Seq<char>, k: int)
    requires
        0 <= k < t.len(),
    ensures
        dec_value(t.subrange(0, k + 1)) == 10 * dec_value(t.subrange(0, k)) + digit_val(t[k]),
{
    assert(t.subrange(0, k + 1).drop_last() =~= t.subrange(0, k));
    assert(t.subrange(0, k + 1).last() == t[k]);
}

proof fn lemma_dec_value_nonneg(t: Seq<char>)
    requires
        all_digits(t),
    ensures
        dec_value(t) >= 0,
    decreases t.len(),
{
    if t.len() > 0 {
        assert(all_digits(t.drop_last()));
        lemma_dec_value_nonneg(t.drop_last());
    }
}

proof fn lemma_dec_value_mono(t: Seq<char>, k1: int, k2: int)
    requires
        all_digits(t),
        0 <= k1 <= k2 <= t.len(),
    ensures
        dec_value(t.subrange(0, k1)) <= dec_value(t.subrange(0, k2)),
    decreases k2 - k1,
{
    if k1 < k2 {
        lemma_dec_value_mono(t, k1, k2 - 1);
        lemma_dec_value_step(t, k2 - 1);
        assert(all_digits(t.subrange(0, k2 - 1)));
        lemma_dec_value_nonneg(t.subrange(0, k2 - 1));
    }
}

/// Reads the decimal value of `line[a..b]`; `None` when the value does not
/// fit in `usize`.
fn try_parse_digits(line: &str, a: usize, b: usize) -> (r: Option<usize>)
    requires
        a <= b <= line@.len(),
        all_digits(line@.subrange(a as int, b as int)),
    ensures
        match r {
            Some(v) => dec_value(line@.subrange(a as int, b as int)) == v,
            None => dec_value(line@.subrange(a as int, b as int)) > usize::MAX,
        },
{
    let ghost tok = line@.subrange(a as int, b as int);
    let mut val: usize = 0;
    let mut k = a;
    while k < b
        invariant
            a <= k <= b <= line@.len(),
            tok == line@.subrange(a as int, b as int),
            all_digits(tok),
            val == dec_value(tok.subrange(0, k - a)),
        decreases b - k,
    {
        let c = line.get_char(k);
        assert(c == tok[k - a]);
        let d = (c as u32 - 48) as usize;
        proof {
            lemma_dec_value_step(tok, k - a);
        }
        let wide: u128 = (val as u128) * 10 + (d as u128);
        if wide > (usize::MAX as u128) {
            proof {
                lemma_dec_value_mono(tok, k - a + 1, tok.len() as int);
                assert(tok.subrange(0, tok.len() as int) =~= tok);
            }
            return None;
        }
        val = wide as usize;
        k = k + 1;
    }
    proof {
        assert(tok.subrange(0, tok.len() as int) =~= tok);
    }
    Some(val)
}

/// Reads an edge from a line when the line is well formed: the values of its
/// first and its last whitespace-separated token.  Returns `None` exactly on
/// the lines that `valid_edge_line` rejects.
pub fn try_split_from_to(line: &str) -> (r: Option<(usize, usize)>)
    ensures
        match r {
            Some(p) => {
                &&& valid_edge_line(line@)
                &&& p.0 == from_node_of(line@)
                &&& p.1 == to_node_of(line@)
            },
            None => !valid_edge_line(line@),
        },
{
    let n = line.unicode_len();
    let mut a: usize = 0;
    while a < n && sep_char(line.get_char(a))
        invariant
            a <= n == line@.len(),
            forall|j: int| 0 <= j < a ==> is_sep(#[trigger] line@[j]),
        decreases n - a,
    {
        a = a + 1;
    }
    proof {
        lemma_skip_sep_exact(line@, 0, a as int);
    }
    if a == n {
        return None;
    }
    let mut b: usize = a;
    while b < n && !sep_char(line.get_char(b))
        invariant
            a <= b <= n == line@.len(),
            forall|j: int| a <= j < b ==> !is_sep(#[trigger] line@[j]),
        decreases n - b,
    {
        b = b + 1;
    }
    proof {
        lemma_scan_token_exact(line@, a as int, b as int);
    }
    let mut e: usize = n;
    while e > 0 && sep_char(line.get_char(e - 1))
        invariant
            e <= n == line@.len(),
            forall|j: int| e <= j < n ==> is_sep(#[trigger] line@[j]),
        decreases e,
    {
        e = e - 1;
    }
    proof {
        lemma_rskip_sep_exact(line@, e as int, n as int);
    }
    let mut d: usize = e;
    while d > 0 && !sep_char(line.get_char(d - 1))
        invariant
            d <= e <= n == line@.len(),
            forall|j: int| d <= j < e ==> !is_sep(#[trigger] line@[j]),
        decreases d,
    {
        d = d - 1;
    }
    proof {
        lemma_rscan_token_exact(line@, d as int, e as int);
    }
    let mut k = a;
    while k < b
        invariant
            a <= k <= b <= line@.len(),
            first_token_start(line@) == a,
            first_token_end(line@) == b,
            forall|j: int| a <= j < k ==> is_digit(#[trigger] line@[j]),
        decreases b - k,
    {
        if !digit_char(line.get_char(k)) {
            assert(!all_digits(line@.subrange(a as int, b as int))) by {
                assert(line@.subrange(a as int, b as int)[k - a] == line@[k as int]);
            }
            return None;
        }
        k = k + 1;
    }
    assert(all_digits(line@.subrange(a as int, b as int))) by {
        assert(forall|j: int|
            0 <= j < b - a ==> #[trigger] line@.subrange(a as int, b as int)[j] == line@[a + j]);
    }
    let mut k2 = d;
    while k2 < e
        invariant
            d <= k2 <= e <= line@.len(),
            last_token_start(line@) == d,
            last_token_end(line@) == e,
            forall|j: int| d <= j < k2 ==> is_digit(#[trigger] line@[j]),
        decreases e - k2,
    {
        if !digit_char(line.get_char(k2)) {
            assert(!all_digits(line@.subrange(d as int, e as int))) by {
                assert(line@.subrange(d as int, e as int)[k2 - d] == line@[k2 as int]);
            }
            return None;
        }
        k2 = k2 + 1;
    }
    assert(all_digits(line@.subrange(d as int, e as int))) by {
        assert(forall|j: int|
            0 <= j < e - d ==> #[trigger] line@.subrange(d as int, e as int)[j] == line@[d + j]);
    }
    let v1 = match try_parse_digits(line, a, b) {
        Some(v) => v,
        None => {
            return None;
        },
    };
    let v2 = match try_parse_digits(line, d, e) {
        Some(v) => v,
        None => {
            return None;
        },
    };
    Some((v1, v2))
}

/// Reads an edge from a well-formed line: the value of its first and its last
/// whitespace-separated token, as the source and the destination node.
pub fn split_from_to(line: &str) -> (r: (usize, usize))
    requires
        valid_edge_line(line@),
    ensures
        r.0 == from_node_of(line@),
        r.1 == to_node_of(line@),
{
    match try_split_from_to(line) {
        Some(p) => p,
        None => vstd::pervasive::unreached(),
    }
}

} // verus!
