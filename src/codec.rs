//! JSON string literals, as the record and wire formats write them.
use vstd::prelude::*;
use vstd::utf8::encode_utf8;
use crate::error::{KvStoreError, Result};

verus! {

/// The byte `"`.
pub const QUOTE: u8 = 0x22;

/// The byte `\`.
pub const BACKSLASH: u8 = 0x5C;

/// A lower-case hexadecimal digit for `n < 16`.
pub open spec fn hex_digit(n: u8) -> u8 {
    if n < 10 {
        (0x30 + n) as u8
    } else {
        (0x61 + n - 10) as u8
    }
}

/// How one byte of a string's UTF-8 encoding is written inside a JSON
/// string literal: quote, backslash and the control bytes are escaped,
/// with the short form where JSON has one and `\u00XX` otherwise.
pub open spec fn escape_byte(b: u8) -> Seq<u8> {
    if b == QUOTE {
        seq![BACKSLASH, QUOTE]
    } else if b == BACKSLASH {
        seq![BACKSLASH, BACKSLASH]
    } else if b == 0x08 {
        seq![BACKSLASH, 0x62u8]
    } else if b == 0x09 {
        seq![BACKSLASH, 0x74u8]
    } else if b == 0x0A {
        seq![BACKSLASH, 0x6Eu8]
    } else if b == 0x0C {
        seq![BACKSLASH, 0x66u8]
    } else if b == 0x0D {
        seq![BACKSLASH, 0x72u8]
    } else if b < 0x20 {
        seq![BACKSLASH, 0x75u8, 0x30u8, 0x30u8, hex_digit(b / 16), hex_digit(b % 16)]
    } else {
        seq![b]
    }
}

/// The escaped form of a byte sequence.
pub open spec fn escape_all(bs: Seq<u8>) -> Seq<u8>
    decreases bs.len(),
{
    if bs.len() == 0 {
        Seq::empty()
    } else {
        escape_byte(bs[0]) + escape_all(bs.drop_first())
    }
}

/// The JSON string literal of `s`: its escaped UTF-8 bytes between quotes.
pub open spec fn quoted(s: Seq<char>) -> Seq<u8> {
    seq![QUOTE] + escape_all(encode_utf8(s)) + seq![QUOTE]
}

/// Where the string literal whose contents start at `i` ends: the index of
/// its closing quote, stepping over each backslash escape; `None` when the
/// bytes run out first.
pub open spec fn literal_end(buf: Seq<u8>, i: int) -> Option<int>
    decreases buf.len() - i,
{
    if i < 0 || i >= buf.len() {
        None
    } else if buf[i] == QUOTE {
        Some(i)
    } else if buf[i] == BACKSLASH {
        if i + 2 <= buf.len() {
            literal_end(buf, i + 2)
        } else {
            None
        }
    } else {
        literal_end(buf, i + 1)
    }
}

/// `pat` stands in `buf` at `p`.
pub open spec fn occurs_at(buf: Seq<u8>, p: int, pat: Seq<u8>) -> bool {
    0 <= p && p + pat.len() <= buf.len() && buf.subrange(p, p + pat.len()) == pat
}

/// Relies on serde_json::to_vec on a `str`: it writes the string literal,
/// escaping bytes as its serializer's escape table says; writing into a
/// vector does not fail.
#[verifier::external_body]
fn json_quote(s: &str) -> (r: core::result::Result<Vec<u8>, String>)
    ensures
        r is Ok,
        r is Ok ==> r->Ok_0@ == quoted(s@),
{
    serde_json::to_vec(s).map_err(|e| e.to_string())
}

/// Relies on serde_json::from_slice::<String>: it decodes a JSON string
/// literal, and gives back `s` from the literal that serde_json writes for `s`.
#[verifier::external_body]
fn json_unquote(b: &[u8]) -> (r: core::result::Result<String, String>)
    ensures
        forall|s: Seq<char>| #[trigger] quoted(s) == b@ ==> r is Ok && r->Ok_0@ == s,
{
    serde_json::from_slice::<String>(b).map_err(|e| e.to_string())
}

proof fn lemma_escape_byte_scan(buf: Seq<u8>, p: int, b: u8)
    requires
        occurs_at(buf, p, escape_byte(b)),
    ensures
        literal_end(buf, p) == literal_end(buf, p + escape_byte(b).len()),
{
    let e = escape_byte(b);
    assert(buf[p] == e[0]);
    if e.len() == 2 {
        assert(buf[p] == BACKSLASH);
    } else if e.len() == 6 {
        assert(buf[p] == BACKSLASH);
        assert(buf[p + 2] == e[2]);
        assert(buf[p + 3] == e[3]);
        assert(buf[p + 4] == e[4]);
        assert(buf[p + 5] == e[5]);
        assert(literal_end(buf, p + 5) == literal_end(buf, p + 6));
        assert(literal_end(buf, p + 4) == literal_end(buf, p + 5));
        assert(literal_end(buf, p + 3) == literal_end(buf, p + 4));
        assert(literal_end(buf, p + 2) == literal_end(buf, p + 3));
    } else {
        assert(e.len() == 1);
    }
}

/// Scanning over escaped contents never stops inside them.
proof fn lemma_escaped_scan(buf: Seq<u8>, p: int, bs: Seq<u8>)
    requires
        occurs_at(buf, p, escape_all(bs)),
    ensures
        literal_end(buf, p) == literal_end(buf, p + escape_all(bs).len()),
    decreases bs.len(),
{
    if bs.len() > 0 {
        let e = escape_byte(bs[0]);
        let rest = escape_all(bs.drop_first());
        assert(escape_all(bs) == e + rest);
        assert(buf.subrange(p, p + e.len()) =~= escape_all(bs).subrange(0, e.len() as int));
        assert(escape_all(bs).subrange(0, e.len() as int) =~= e);
        assert(buf.subrange(p + e.len(), p + e.len() + rest.len()) =~= escape_all(bs).subrange(
            e.len() as int,
            escape_all(bs).len() as int,
        ));
        assert(escape_all(bs).subrange(e.len() as int, escape_all(bs).len() as int) =~= rest);
        lemma_escape_byte_scan(buf, p, bs[0]);
        lemma_escaped_scan(buf, p + e.len(), bs.drop_first());
    }
}

/// Scanning over a prefix of escaped contents runs out of bytes.
proof fn lemma_escaped_scan_short(buf: Seq<u8>, p: int, bs: Seq<u8>)
    requires
        0 <= p <= buf.len(),
        buf.len() - p <= escape_all(bs).len(),
        buf.subrange(p, buf.len() as int) == escape_all(bs).subrange(0, buf.len() - p),
    ensures
        literal_end(buf, p) is None,
    decreases bs.len(),
{
    if p < buf.len() {
        let e = escape_byte(bs[0]);
        let all = escape_all(bs);
        assert(all == e + escape_all(bs.drop_first()));
        assert forall|j: int| 0 <= j < buf.len() - p implies buf[p + j] == all[j] by {
            assert(buf.subrange(p, buf.len() as int)[j] == buf[p + j]);
        }
        if buf.len() - p >= e.len() {
            assert(buf.subrange(p, p + e.len()) =~= e);
            lemma_escape_byte_scan(buf, p, bs[0]);
            let rest = escape_all(bs.drop_first());
            assert forall|j: int| 0 <= j < buf.len() - p - e.len() implies #[trigger] buf.subrange(
                p + e.len(),
                buf.len() as int,
            )[j] == rest.subrange(0, buf.len() - p - e.len())[j] by {
                assert(buf[p + e.len() + j] == all[e.len() + j]);
            }
            assert(buf.subrange(p + e.len(), buf.len() as int) =~= rest.subrange(
                0,
                buf.len() - p - e.len(),
            ));
            lemma_escaped_scan_short(buf, p + e.len(), bs.drop_first());
        } else {
            assert(buf[p] == all[0]);
            assert(all[0] == e[0]);
            if e.len() == 6 {
                assert(buf[p] == BACKSLASH);
                if p + 2 <= buf.len() {
                    if p + 2 < buf.len() {
                        assert(buf[p + 2] == all[2]);
                        assert(all[2] == e[2]);
                    }
                    if p + 3 < buf.len() {
                        assert(buf[p + 3] == all[3]);
                        assert(all[3] == e[3]);
                    }
                    if p + 4 < buf.len() {
                        assert(buf[p + 4] == all[4]);
                        assert(all[4] == e[4]);
                    }
                    assert(literal_end(buf, p + 5) is None);
                    assert(literal_end(buf, p + 4) is None);
                    assert(literal_end(buf, p + 3) is None);
                    assert(literal_end(buf, p + 2) is None);
                }
            } else {
                assert(e.len() == 2);
                assert(buf[p] == BACKSLASH);
            }
        }
    }
}

/// A proper prefix of `a + b` is a proper prefix of `a`, or all of `a`
/// followed by a proper prefix of `b`.
pub proof fn lemma_cut_split(buf: Seq<u8>, p: int, a: Seq<u8>, b: Seq<u8>)
    requires
        cut_short(buf, p, a + b),
    ensures
        cut_short(buf, p, a) || (occurs_at(buf, p, a) && cut_short(buf, p + a.len(), b)),
{
    let n = buf.len() - p;
    let ab = a + b;
    if n < a.len() {
        assert(buf.subrange(p, buf.len() as int) =~= a.subrange(0, n));
    } else {
        assert(buf.subrange(p, p + a.len()) =~= buf.subrange(p, buf.len() as int).subrange(0, a.len() as int));
        assert(buf.subrange(p, p + a.len()) =~= a);
        assert forall|j: int| 0 <= j < n - a.len() implies #[trigger] buf.subrange(
            p + a.len(),
            buf.len() as int,
        )[j] == b.subrange(0, n - a.len())[j] by {
            assert(buf.subrange(p, buf.len() as int)[a.len() + j] == ab.subrange(0, n)[a.len() + j]);
        }
        assert(buf.subrange(p + a.len(), buf.len() as int) =~= b.subrange(0, n - a.len()));
    }
}

/// A proper prefix of `x` at `p`, where `x` agrees with `h` on its first
/// `i` bytes and differs at byte `i`: `h` is cut short there too when the
/// prefix is no longer than `i`, and is ruled out otherwise.
pub proof fn lemma_cut_vs_head(buf: Seq<u8>, p: int, x: Seq<u8>, h: Seq<u8>, i: int)
    requires
        cut_short(buf, p, x),
        0 <= i < x.len(),
        i < h.len(),
        forall|j: int| 0 <= j < i ==> x[j] == h[j],
        x[i] != h[i],
    ensures
        buf.len() - p <= i ==> cut_short(buf, p, h),
        buf.len() - p > i ==> !occurs_at(buf, p, h) && !cut_short(buf, p, h),
{
    let n = buf.len() - p;
    assert forall|j: int| 0 <= j < n implies buf[p + j] == x[j] by {
        assert(buf.subrange(p, buf.len() as int)[j] == x.subrange(0, n)[j]);
    }
    if n <= i {
        assert(buf.subrange(p, buf.len() as int) =~= h.subrange(0, n));
    } else {
        if occurs_at(buf, p, h) {
            assert(buf.subrange(p, p + h.len())[i] == buf[p + i]);
        }
        if cut_short(buf, p, h) {
            assert(buf.subrange(p, buf.len() as int)[i] == buf[p + i]);
        }
    }
}

/// A literal of `s` standing at `p` ends where `quoted(s)` ends.
proof fn lemma_quoted_scan(buf: Seq<u8>, p: int, s: Seq<char>)
    requires
        occurs_at(buf, p, quoted(s)),
    ensures
        literal_end(buf, p + 1) == Some(p + quoted(s).len() - 1),
        buf[p] == QUOTE,
{
    let body = escape_all(encode_utf8(s));
    let q = quoted(s);
    let n: int = body.len() as int;
    assert(q[0] == QUOTE);
    assert(buf[p] == q[0]);
    assert(buf.subrange(p + 1, p + 1 + n) =~= q.subrange(1, 1 + n));
    assert(q.subrange(1, 1 + n) =~= body);
    lemma_escaped_scan(buf, p + 1, encode_utf8(s));
    assert(buf[p + 1 + n] == q[1 + n]);
}

/// The string literal of `s`.
pub fn quote(s: &str) -> (r: Vec<u8>)
    ensures
        r@ == quoted(s@),
{
    match json_quote(s) {
        Ok(v) => v,
        Err(_) => Vec::new(),
    }
}

/// Byte-wise equality of two byte strings.
pub fn bytes_eq(a: &[u8], b: &[u8]) -> (r: bool)
    ensures
        r == (a@ == b@),
{
    if a.len() != b.len() {
        return false;
    }
    let mut i: usize = 0;
    while i < a.len()
        invariant
            a@.len() == b@.len(),
            i <= a@.len(),
            forall|j: int| 0 <= j < i ==> a@[j] == b@[j],
        decreases a@.len() - i,
    {
        if a[i] != b[i] {
            return false;
        }
        i = i + 1;
    }
    assert(a@ =~= b@);
    true
}

/// The index of the closing quote of the literal whose contents start at
/// `start`, or `None` when `buf` ends first.
fn find_literal_end(buf: &[u8], start: usize) -> (r: Option<usize>)
    requires
        start <= buf@.len(),
    ensures
        match r {
            Some(e) => literal_end(buf@, start as int) == Some(e as int),
            None => literal_end(buf@, start as int) is None,
        },
{
    let mut i = start;
    while i < buf.len()
        invariant
            start <= i <= buf@.len(),
            literal_end(buf@, i as int) == literal_end(buf@, start as int),
        decreases buf@.len() - i,
    {
        if buf[i] == QUOTE {
            return Some(i);
        } else if buf[i] == BACKSLASH {
            if buf.len() - i >= 2 {
                i = i + 2;
            } else {
                return None;
            }
        } else {
            i = i + 1;
        }
    }
    None
}

/// The error for bytes that are no record of the format.
pub fn malformed() -> (r: KvStoreError)
    ensures
        r is SerdeIo,
{
    KvStoreError::SerdeIo(String::from_str("malformed record"))
}

/// Reads the string literal at `p`. `Ok(None)`: `buf` ends inside it.
/// Only the literal that `quote` writes is taken; any other form is an error.
pub fn read_string(buf: &[u8], p: usize) -> (r: Result<Option<(String, usize)>>)
    requires
        p <= buf@.len(),
    ensures
        r matches Ok(Some((t, q))) ==> p < q <= buf@.len() && buf@.subrange(p as int, q as int)
            == quoted(t@),
        forall|s: Seq<char>| #[trigger]
            occurs_at(buf@, p as int, quoted(s)) ==> (r matches Ok(Some((t, q))) && t@ == s && q
                == p + quoted(s).len()),
        r matches Ok(None) ==> p == buf@.len() || unclosed_at(buf@, p as int),
        forall|s: Seq<char>| #[trigger] cut_short(buf@, p as int, quoted(s)) ==> r matches Ok(None),
{
    proof {
        assert forall|s: Seq<char>| #[trigger] cut_short(buf@, p as int, quoted(s)) && p < buf@.len() implies buf@[p as int] == QUOTE && literal_end(buf@, p + 1) is None by {
            let q = quoted(s);
            let body = escape_all(encode_utf8(s));
            let n = buf@.len() - p;
            assert(buf@.subrange(p as int, buf@.len() as int)[0] == buf@[p as int]);
            assert(q[0] == QUOTE);
            assert(n - 1 <= body.len());
            assert(buf@.subrange(p + 1, buf@.len() as int) =~= body.subrange(0, n - 1)) by {
                assert forall|j: int| 0 <= j < n - 1 implies #[trigger] buf@.subrange(p + 1, buf@.len() as int)[j]
                    == body.subrange(0, n - 1)[j] by {
                    assert(buf@.subrange(p as int, buf@.len() as int)[j + 1] == q[j + 1]);
                }
            }
            lemma_escaped_scan_short(buf@, p + 1, encode_utf8(s));
        }
    }
    if p == buf.len() {
        return Ok(None);
    }
    if buf[p] != QUOTE {
        proof {
            assert forall|s: Seq<char>| #[trigger] occurs_at(buf@, p as int, quoted(s)) implies false by {
                lemma_quoted_scan(buf@, p as int, s);
            }
        }
        return Err(malformed());
    }
    let e = match find_literal_end(buf, p + 1) {
        Some(e) => e,
        None => {
            proof {
                assert forall|s: Seq<char>| #[trigger] occurs_at(buf@, p as int, quoted(s)) implies false by {
                    lemma_quoted_scan(buf@, p as int, s);
                }
            }
            return Ok(None);
        },
    };
    proof {
        assert(p + 1 <= e < buf@.len()) by {
            lemma_literal_end_bounds(buf@, p + 1);
        }
    }
    let lit = vstd::slice::slice_subrange(buf, p, e + 1);
    proof {
        assert forall|s: Seq<char>| #[trigger] occurs_at(buf@, p as int, quoted(s)) implies quoted(s)
            == lit@ by {
            lemma_quoted_scan(buf@, p as int, s);
        }
    }
    match json_unquote(lit) {
        Ok(t) => {
            let back = quote(t.as_str());
            if bytes_eq(back.as_slice(), lit) {
                Ok(Some((t, e + 1)))
            } else {
                Err(malformed())
            }
        },
        Err(m) => Err(KvStoreError::SerdeIo(m)),
    }
}

proof fn lemma_literal_end_bounds(buf: Seq<u8>, i: int)
    ensures
        literal_end(buf, i) matches Some(e) ==> i <= e < buf.len() && buf[e] == QUOTE,
    decreases buf.len() - i,
{
    if 0 <= i < buf.len() && buf[i] != QUOTE {
        if buf[i] == BACKSLASH {
            if i + 2 <= buf.len() {
                lemma_literal_end_bounds(buf, i + 2);
            }
        } else {
            lemma_literal_end_bounds(buf, i + 1);
        }
    }
}

/// How a fixed piece of text stands at a place of a buffer.
pub enum LitMatch {
    /// All of it is there.
    Full,
    /// The buffer ends after a proper prefix of it.
    Short,
    /// A byte differs.
    Mismatch,
}

/// `buf` ends at `p` after a proper prefix of `pat`.
pub open spec fn cut_short(buf: Seq<u8>, p: int, pat: Seq<u8>) -> bool {
    0 <= p <= buf.len() && buf.len() - p < pat.len() && buf.subrange(p, buf.len() as int)
        == pat.subrange(0, buf.len() - p)
}

/// Compares `buf` at `p` with `pat`.
pub fn match_lit(buf: &[u8], p: usize, pat: &[u8]) -> (r: LitMatch)
    requires
        p <= buf@.len(),
    ensures
        r is Full <==> occurs_at(buf@, p as int, pat@),
        r is Short <==> cut_short(buf@, p as int, pat@),
{
    let mut i: usize = 0;
    while i < pat.len()
        invariant
            p <= buf@.len(),
            i <= pat@.len(),
            p + i <= buf@.len(),
            forall|j: int| 0 <= j < i ==> p + j < buf@.len() && buf@[p + j] == pat@[j],
        decreases pat@.len() - i,
    {
        if buf.len() - p == i {
            assert(buf@.subrange(p as int, buf@.len() as int) =~= pat@.subrange(0, i as int));
            return LitMatch::Short;
        }
        if buf[p + i] != pat[i] {
            proof {
                if p + pat@.len() <= buf@.len() {
                    assert(buf@.subrange(p as int, p + pat@.len())[i as int] == buf@[p + i]);
                }
                if buf@.len() - p < pat@.len() {
                    assert(buf@.subrange(p as int, buf@.len() as int)[i as int] == buf@[p + i]);
                }
            }
            return LitMatch::Mismatch;
        }
        i = i + 1;
    }
    assert(buf@.subrange(p as int, p + pat@.len()) =~= pat@);
    LitMatch::Full
}

/// `{"Set":{"key":`
pub open spec fn set_head() -> Seq<u8> {
    seq![0x7Bu8, 0x22, 0x53, 0x65, 0x74, 0x22, 0x3A, 0x7B, 0x22, 0x6B, 0x65, 0x79, 0x22, 0x3A]
}

/// `,"value":`
pub open spec fn set_mid() -> Seq<u8> {
    seq![0x2Cu8, 0x22, 0x76, 0x61, 0x6C, 0x75, 0x65, 0x22, 0x3A]
}

/// `}}`
pub open spec fn set_tail() -> Seq<u8> {
    seq![0x7Du8, 0x7D]
}

/// `}`
pub open spec fn close() -> Seq<u8> {
    seq![0x7Du8]
}

/// `null}`
pub open spec fn null_close() -> Seq<u8> {
    seq![0x6Eu8, 0x75, 0x6C, 0x6C, 0x7D]
}

/// `{"Rm":`
pub open spec fn rm_head() -> Seq<u8> {
    seq![0x7Bu8, 0x22, 0x52, 0x6D, 0x22, 0x3A]
}

/// `{"Get":`
pub open spec fn get_head() -> Seq<u8> {
    seq![0x7Bu8, 0x22, 0x47, 0x65, 0x74, 0x22, 0x3A]
}

/// `{"Ok":`
pub open spec fn ok_head() -> Seq<u8> {
    seq![0x7Bu8, 0x22, 0x4F, 0x6B, 0x22, 0x3A]
}

/// `{"Err":`
pub open spec fn err_head() -> Seq<u8> {
    seq![0x7Bu8, 0x22, 0x45, 0x72, 0x72, 0x22, 0x3A]
}

pub fn set_head_bytes() -> (r: Vec<u8>)
    ensures
        r@ == set_head(),
{
    vec![0x7Bu8, 0x22, 0x53, 0x65, 0x74, 0x22, 0x3A, 0x7B, 0x22, 0x6B, 0x65, 0x79, 0x22, 0x3A]
}

pub fn set_mid_bytes() -> (r: Vec<u8>)
    ensures
        r@ == set_mid(),
{
    vec![0x2Cu8, 0x22, 0x76, 0x61, 0x6C, 0x75, 0x65, 0x22, 0x3A]
}

pub fn set_tail_bytes() -> (r: Vec<u8>)
    ensures
        r@ == set_tail(),
{
    vec![0x7Du8, 0x7D]
}

pub fn close_bytes() -> (r: Vec<u8>)
    ensures
        r@ == close(),
{
    vec![0x7Du8]
}

pub fn null_close_bytes() -> (r: Vec<u8>)
    ensures
        r@ == null_close(),
{
    vec![0x6Eu8, 0x75, 0x6C, 0x6C, 0x7D]
}

pub fn rm_head_bytes() -> (r: Vec<u8>)
    ensures
        r@ == rm_head(),
{
    vec![0x7Bu8, 0x22, 0x52, 0x6D, 0x22, 0x3A]
}

pub fn get_head_bytes() -> (r: Vec<u8>)
    ensures
        r@ == get_head(),
{
    vec![0x7Bu8, 0x22, 0x47, 0x65, 0x74, 0x22, 0x3A]
}

pub fn ok_head_bytes() -> (r: Vec<u8>)
    ensures
        r@ == ok_head(),
{
    vec![0x7Bu8, 0x22, 0x4F, 0x6B, 0x22, 0x3A]
}

pub fn err_head_bytes() -> (r: Vec<u8>)
    ensures
        r@ == err_head(),
{
    vec![0x7Bu8, 0x22, 0x45, 0x72, 0x72, 0x22, 0x3A]
}

/// A string literal opens at `q` and the bytes run out before it closes.
pub open spec fn unclosed_at(buf: Seq<u8>, q: int) -> bool {
    0 <= q < buf.len() && buf[q] == QUOTE && literal_end(buf, q + 1) is None
}

/// The bytes from `p` on are an unfinished `"<s>"}`: nothing yet, an
/// unclosed literal, or a literal whose closing brace is missing.
pub open spec fn single_open(buf: Seq<u8>, p: int) -> bool {
    p == buf.len() || unclosed_at(buf, p) || exists|t: Seq<char>| #[trigger]
        occurs_at(buf, p, quoted(t)) && cut_short(buf, p + quoted(t).len(), close())
}

/// The bytes from `p` on are an unfinished `"<k>","value":"<v>"}}`.
pub open spec fn pair_open(buf: Seq<u8>, p: int) -> bool {
    p == buf.len() || unclosed_at(buf, p) || exists|k: Seq<char>| #[trigger]
        occurs_at(buf, p, quoted(k)) && (cut_short(buf, p + quoted(k).len(), set_mid()) || (
        occurs_at(buf, p + quoted(k).len(), set_mid()) && single_pair_tail(
            buf,
            p + quoted(k).len() + set_mid().len(),
        )))
}

/// The bytes from `p` on are an unfinished `"<v>"}}`.
pub open spec fn single_pair_tail(buf: Seq<u8>, p: int) -> bool {
    p == buf.len() || unclosed_at(buf, p) || exists|v: Seq<char>| #[trigger]
        occurs_at(buf, p, quoted(v)) && cut_short(buf, p + quoted(v).len(), set_tail())
}

/// The body of a one-string record: the literal and the closing brace.
pub open spec fn single_body(s: Seq<char>) -> Seq<u8> {
    quoted(s) + close()
}

/// The body of a `Set` record after its head.
pub open spec fn pair_body(k: Seq<char>, v: Seq<char>) -> Seq<u8> {
    quoted(k) + set_mid() + quoted(v) + set_tail()
}

pub proof fn lemma_occurs_split(buf: Seq<u8>, p: int, a: Seq<u8>, b: Seq<u8>)
    requires
        occurs_at(buf, p, a + b),
    ensures
        occurs_at(buf, p, a),
        occurs_at(buf, p + a.len(), b),
{
    let whole = buf.subrange(p, p + a.len() + b.len());
    assert(whole == a + b);
    assert(buf.subrange(p, p + a.len()) =~= whole.subrange(0, a.len() as int));
    assert(buf.subrange(p + a.len(), p + a.len() + b.len()) =~= whole.subrange(
        a.len() as int,
        whole.len() as int,
    ));
    assert((a + b).subrange(0, a.len() as int) =~= a);
    assert((a + b).subrange(a.len() as int, (a + b).len() as int) =~= b);
}

pub proof fn lemma_occurs_join(buf: Seq<u8>, p: int, a: Seq<u8>, b: Seq<u8>)
    requires
        occurs_at(buf, p, a),
        occurs_at(buf, p + a.len(), b),
    ensures
        occurs_at(buf, p, a + b),
{
    assert(buf.subrange(p, p + a.len() + b.len()) =~= buf.subrange(p, p + a.len()) + buf.subrange(
        p + a.len(),
        p + a.len() + b.len(),
    ));
}

/// Reads `"<s>"}` at `p`. `Ok(None)`: `buf` ends before it does.
pub fn read_single_body(buf: &[u8], p: usize) -> (r: Result<Option<(String, usize)>>)
    requires
        p <= buf@.len(),
    ensures
        r matches Ok(Some((t, q))) ==> p < q <= buf@.len() && buf@.subrange(p as int, q as int)
            == single_body(t@),
        forall|s: Seq<char>| #[trigger]
            occurs_at(buf@, p as int, single_body(s)) ==> (r matches Ok(Some((t, q))) && t@ == s
                && q == p + single_body(s).len()),
        forall|s: Seq<char>| #[trigger] cut_short(buf@, p as int, single_body(s)) ==> r matches Ok(None),
        r matches Ok(None) ==> single_open(buf@, p as int),
{
    proof {
        assert forall|s: Seq<char>| #[trigger] cut_short(buf@, p as int, single_body(s)) implies cut_short(
            buf@,
            p as int,
            quoted(s),
        ) || (occurs_at(buf@, p as int, quoted(s)) && cut_short(buf@, p + quoted(s).len(), close())) by {
            lemma_cut_split(buf@, p as int, quoted(s), close());
        }
        assert forall|s: Seq<char>| #[trigger] occurs_at(buf@, p as int, single_body(s)) implies occurs_at(
            buf@,
            p as int,
            quoted(s),
        ) && occurs_at(buf@, p + quoted(s).len(), close()) by {
            lemma_occurs_split(buf@, p as int, quoted(s), close());
        }
    }
    let (t, q) = match read_string(buf, p) {
        Ok(Some(x)) => x,
        Ok(None) => {
            proof {
                assert forall|s: Seq<char>| #[trigger] occurs_at(buf@, p as int, single_body(s)) implies false by {
                    assert(occurs_at(buf@, p as int, quoted(s)));
                }
            }
            return Ok(None);
        },
        Err(e) => return Err(e),
    };
    let blen = buf.len();
    let c = close_bytes();
    match match_lit(buf, q, c.as_slice()) {
        LitMatch::Full => {
            proof {
                assert(c@.len() == 1);
                assert(occurs_at(buf@, q as int, close()));
                assert(q + 1 <= buf@.len());
                lemma_occurs_join(buf@, p as int, quoted(t@), close());
            }
            Ok(Some((t, q + 1)))
        },
        LitMatch::Short => {
            assert(occurs_at(buf@, p as int, quoted(t@)) && cut_short(buf@, q as int, close()));
            Ok(None)
        },
        LitMatch::Mismatch => Err(malformed()),
    }
}

/// Reads `"<k>","value":"<v>"}}` at `p`. `Ok(None)`: `buf` ends before it does.
pub fn read_pair_body(buf: &[u8], p: usize) -> (r: Result<Option<(String, String, usize)>>)
    requires
        p <= buf@.len(),
    ensures
        r matches Ok(Some((k, v, q))) ==> p < q <= buf@.len() && buf@.subrange(p as int, q as int)
            == pair_body(k@, v@),
        forall|k: Seq<char>, v: Seq<char>| #[trigger]
            occurs_at(buf@, p as int, pair_body(k, v)) ==> (r matches Ok(Some((kk, vv, q))) && kk@
                == k && vv@ == v && q == p + pair_body(k, v).len()),
        forall|k: Seq<char>, v: Seq<char>| #[trigger]
            cut_short(buf@, p as int, pair_body(k, v)) ==> r matches Ok(None),
        r matches Ok(None) ==> pair_open(buf@, p as int),
{
    proof {
        assert forall|k: Seq<char>, v: Seq<char>| #[trigger] cut_short(buf@, p as int, pair_body(k, v)) implies cut_short(
            buf@,
            p as int,
            quoted(k),
        ) || (occurs_at(buf@, p as int, quoted(k)) && cut_short(buf@, p + quoted(k).len(), set_mid()))
            || (occurs_at(buf@, p as int, quoted(k)) && occurs_at(buf@, p + quoted(k).len(), set_mid())
            && cut_short(buf@, p + quoted(k).len() + set_mid().len(), quoted(v))) || (occurs_at(
            buf@,
            p as int,
            quoted(k),
        ) && occurs_at(buf@, p + quoted(k).len(), set_mid()) && occurs_at(
            buf@,
            p + quoted(k).len() + set_mid().len(),
            quoted(v),
        ) && cut_short(buf@, p + quoted(k).len() + set_mid().len() + quoted(v).len(), set_tail())) by {
            lemma_cut_split(buf@, p as int, quoted(k) + set_mid() + quoted(v), set_tail());
            if cut_short(buf@, p as int, quoted(k) + set_mid() + quoted(v)) {
                lemma_cut_split(buf@, p as int, quoted(k) + set_mid(), quoted(v));
                if cut_short(buf@, p as int, quoted(k) + set_mid()) {
                    lemma_cut_split(buf@, p as int, quoted(k), set_mid());
                } else {
                    lemma_occurs_split(buf@, p as int, quoted(k), set_mid());
                }
            } else {
                lemma_occurs_split(buf@, p as int, quoted(k) + set_mid(), quoted(v));
                lemma_occurs_split(buf@, p as int, quoted(k), set_mid());
            }
        }
        assert forall|k: Seq<char>, v: Seq<char>| #[trigger] occurs_at(buf@, p as int, pair_body(k, v)) implies occurs_at(
            buf@,
            p as int,
            quoted(k),
        ) && occurs_at(buf@, p + quoted(k).len(), set_mid()) && occurs_at(
            buf@,
            p + quoted(k).len() + set_mid().len(),
            quoted(v),
        ) && occurs_at(buf@, p + quoted(k).len() + set_mid().len() + quoted(v).len(), set_tail()) by {
            lemma_occurs_split(buf@, p as int, quoted(k) + set_mid() + quoted(v), set_tail());
            lemma_occurs_split(buf@, p as int, quoted(k) + set_mid(), quoted(v));
            lemma_occurs_split(buf@, p as int, quoted(k), set_mid());
        }
    }
    let (k, q1) = match read_string(buf, p) {
        Ok(Some(x)) => x,
        Ok(None) => {
            proof {
                assert forall|k: Seq<char>, v: Seq<char>| #[trigger] occurs_at(buf@, p as int, pair_body(k, v)) implies false by {
                    assert(occurs_at(buf@, p as int, quoted(k)));
                }
            }
            return Ok(None);
        },
        Err(e) => return Err(e),
    };
    let blen = buf.len();
    let mid = set_mid_bytes();
    match match_lit(buf, q1, mid.as_slice()) {
        LitMatch::Full => {
            assert(mid@.len() == 9);
        },
        LitMatch::Short => {
            assert(occurs_at(buf@, p as int, quoted(k@)) && cut_short(buf@, q1 as int, set_mid()));
            return Ok(None);
        },
        LitMatch::Mismatch => return Err(malformed()),
    }
    let q2 = q1 + 9;
    let (v, q3) = match read_string(buf, q2) {
        Ok(Some(x)) => x,
        Ok(None) => {
            proof {
                assert forall|kk: Seq<char>, vv: Seq<char>| #[trigger] occurs_at(buf@, p as int, pair_body(kk, vv)) implies false by {
                    assert(occurs_at(buf@, p as int, quoted(kk)));
                    assert(occurs_at(buf@, p + quoted(kk).len() + set_mid().len(), quoted(vv)));
                }
                assert(occurs_at(buf@, p as int, quoted(k@)) && occurs_at(buf@, q1 as int, set_mid())
                    && single_pair_tail(buf@, q2 as int));
            }
            return Ok(None);
        },
        Err(e) => return Err(e),
    };
    let tail = set_tail_bytes();
    match match_lit(buf, q3, tail.as_slice()) {
        LitMatch::Full => {
            proof {
                assert(tail@.len() == 2);
                lemma_occurs_join(buf@, p as int, quoted(k@), set_mid());
                lemma_occurs_join(buf@, p as int, quoted(k@) + set_mid(), quoted(v@));
                lemma_occurs_join(buf@, p as int, quoted(k@) + set_mid() + quoted(v@), set_tail());
            }
            Ok(Some((k, v, q3 + 2)))
        },
        LitMatch::Short => {
            proof {
                assert(occurs_at(buf@, q2 as int, quoted(v@)) && cut_short(buf@, q3 as int, set_tail()));
                assert(single_pair_tail(buf@, q2 as int));
                assert(occurs_at(buf@, p as int, quoted(k@)) && occurs_at(buf@, q1 as int, set_mid()));
            }
            Ok(None)
        },
        LitMatch::Mismatch => Err(malformed()),
    }
}

} // verus!
