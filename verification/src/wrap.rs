//! Chunk wrapping: a realm buffer is split into size-bounded artifacts, each
//! wrapped as inert embeddable script source. The escaped-literal wrap emits
//! one `return "..."` statement per chunk; no escape sequence ever straddles
//! a chunk boundary, so unwrapping the chunks one by one and concatenating
//! them reproduces the buffer exactly.

use vstd::prelude::*;

use crate::MAX_LUA_SIZE;
use crate::radix::{dec_rep, dec_token_val, is_dec_digit};

verus! {

/// `return "` — the fixed prefix of an escaped-literal chunk.
pub open spec fn ret_quote() -> Seq<u8> {
    seq![114u8, 101u8, 116u8, 117u8, 114u8, 110u8, 34u8]
}

/// Bytes rendered as a backslash followed by their decimal value: whitespace,
/// control bytes, digits, and the characters that could be misread as part of
/// a numeric escape token.
pub open spec fn dec_escaped(b: u8) -> bool {
    b != 10 && (b <= 32 || b == 127 || is_dec_digit(b) || b == 101 || b == 69 || b == 120 || b
        == 88 || b == 46 || b == 45)
}

/// The escape sequence of one source byte.
pub open spec fn escape_byte(b: u8) -> Seq<u8> {
    if b == 10 {
        seq![92u8, 110u8]
    } else if dec_escaped(b) {
        seq![92u8] + dec_rep(b as nat)
    } else if b == 92 || b == 34 {
        seq![92u8, b]
    } else {
        seq![b]
    }
}

/// The whole buffer escaped, in order.
pub open spec fn escape_all(s: Seq<u8>) -> Seq<u8>
    decreases s.len(),
{
    if s.len() == 0 {
        Seq::empty()
    } else {
        escape_all(s.drop_last()) + escape_byte(s.last())
    }
}

pub proof fn lemma_escape_all_first(s: Seq<u8>)
    requires
        s.len() > 0,
    ensures
        escape_all(s) == escape_byte(s[0]) + escape_all(s.drop_first()),
    decreases s.len(),
{
    if s.len() == 1 {
        assert(s.drop_last() =~= Seq::<u8>::empty());
        assert(s.drop_first() =~= Seq::<u8>::empty());
        assert(escape_all(s) =~= escape_byte(s[0]) + escape_all(s.drop_first()));
    } else {
        lemma_escape_all_first(s.drop_last());
        assert(s.drop_last()[0] == s[0]);
        assert(s.drop_last().drop_first() =~= s.drop_first().drop_last());
        assert(s.drop_first().last() == s.last());
        assert(escape_all(s) =~= escape_byte(s[0]) + escape_all(s.drop_first()));
    }
}

/// An escaped stream never opens with a raw digit: digits are always escaped.
pub proof fn lemma_escape_all_no_leading_digit(s: Seq<u8>)
    requires
        s.len() > 0,
    ensures
        escape_all(s).len() > 0,
        !is_dec_digit(escape_all(s)[0]),
{
    lemma_escape_all_first(s);
    assert(escape_all(s)[0] == escape_byte(s[0])[0]);
}

pub open spec fn prepend(b: u8, r: Option<Seq<u8>>) -> Option<Seq<u8>> {
    match r {
        Some(t) => Some(seq![b] + t),
        None => None,
    }
}

/// Inverse of `escape_all`: reads escape sequences back into raw bytes.
/// A backslash followed by decimal digits takes up to three of them, as the
/// script runtime does; a trailing lone backslash or an out-of-range decimal
/// escape is malformed.
pub open spec fn unescape(p: Seq<u8>) -> Option<Seq<u8>>
    decreases p.len(),
{
    if p.len() == 0 {
        Some(Seq::empty())
    } else if p[0] == 92 {
        if p.len() == 1 {
            None
        } else if p[1] == 110 {
            prepend(10u8, unescape(p.subrange(2, p.len() as int)))
        } else if is_dec_digit(p[1]) {
            let d = if p.len() >= 3 && is_dec_digit(p[2]) {
                if p.len() >= 4 && is_dec_digit(p[3]) {
                    3int
                } else {
                    2int
                }
            } else {
                1int
            };
            let v = dec_token_val(p.subrange(1, 1 + d));
            if v > 255 {
                None
            } else {
                prepend(v as u8, unescape(p.subrange(1 + d, p.len() as int)))
            }
        } else {
            prepend(p[1], unescape(p.subrange(2, p.len() as int)))
        }
    } else {
        prepend(p[0], unescape(p.subrange(1, p.len() as int)))
    }
}

/// Unescaping inverts escaping exactly.
pub proof fn lemma_unescape_escape(s: Seq<u8>)
    ensures
        unescape(escape_all(s)) == Some(s),
    decreases s.len(),
{
    if s.len() == 0 {
        assert(escape_all(s) =~= Seq::<u8>::empty());
        assert(s =~= Seq::<u8>::empty());
    } else {
        let b = s[0];
        let rest = s.drop_first();
        lemma_escape_all_first(s);
        lemma_unescape_escape(rest);
        let u = escape_byte(b);
        let e = escape_all(rest);
        let p = escape_all(s);
        assert(p == u + e);
        if rest.len() > 0 {
            lemma_escape_all_no_leading_digit(rest);
        }
        if b == 10 {
            assert(p[0] == 92 && p[1] == 110);
            assert(p.subrange(2, p.len() as int) =~= e);
            assert(seq![b] + rest =~= s);
        } else if dec_escaped(b) {
            crate::radix::lemma_dec_rep_digits(b as nat);
            crate::radix::lemma_dec_round_trip(b as nat);
            crate::radix::lemma_dec_rep_len_u8(b as nat);
            let w = dec_rep(b as nat).len() as int;
            assert(p[0] == 92);
            assert forall|i: int| 1 <= i < 1 + w implies is_dec_digit(#[trigger] p[i]) by {
                assert(p[i] == dec_rep(b as nat)[i - 1]);
            }
            assert(is_dec_digit(p[1]));
            // The byte after the digit run, if any, is never a digit.
            if e.len() > 0 {
                assert(p[1 + w] == e[0]);
            }
            let d = if p.len() >= 3 && is_dec_digit(p[2]) {
                if p.len() >= 4 && is_dec_digit(p[3]) {
                    3int
                } else {
                    2int
                }
            } else {
                1int
            };
            assert(d == w);
            assert(p.subrange(1, 1 + d) =~= dec_rep(b as nat));
            assert(dec_token_val(p.subrange(1, 1 + d)) == b as nat);
            assert(p.subrange(1 + d, p.len() as int) =~= e);
            assert(seq![b] + rest =~= s);
        } else if b == 92 || b == 34 {
            assert(p[0] == 92 && p[1] == b);
            assert(p[1] != 110 && !is_dec_digit(p[1]));
            assert(p.subrange(2, p.len() as int) =~= e);
            assert(seq![b] + rest =~= s);
        } else {
            assert(p[0] == b && b != 92);
            assert(p.subrange(1, p.len() as int) =~= e);
            assert(seq![b] + rest =~= s);
        }
    }
}

/// A well-formed escaped-literal chunk: the fixed prefix, a payload, and the
/// closing quote, within the size ceiling.
pub open spec fn escaped_chunk_ok(c: Seq<u8>) -> bool {
    &&& c.len() >= 8
    &&& c.len() <= MAX_LUA_SIZE
    &&& c.take(7) == ret_quote()
    &&& c.last() == 34
}

/// Reverses the wrap of one escaped-literal chunk.
pub open spec fn unwrap_escaped(c: Seq<u8>) -> Option<Seq<u8>> {
    if c.len() >= 8 && c.take(7) == ret_quote() && c.last() == 34 {
        unescape(c.subrange(7, c.len() - 1))
    } else {
        None
    }
}

/// Reverses the wrap of every chunk and concatenates in order.
pub open spec fn unsplit_escaped(cs: Seq<Seq<u8>>) -> Option<Seq<u8>>
    decreases cs.len(),
{
    if cs.len() == 0 {
        Some(Seq::empty())
    } else {
        match unwrap_escaped(cs[0]) {
            Some(piece) => match unsplit_escaped(cs.drop_first()) {
                Some(rest) => Some(piece + rest),
                None => None,
            },
            None => None,
        }
    }
}

pub proof fn lemma_unsplit_escaped_snoc(cs: Seq<Seq<u8>>, c: Seq<u8>, acc: Seq<u8>, piece: Seq<u8>)
    requires
        unsplit_escaped(cs) == Some(acc),
        unwrap_escaped(c) == Some(piece),
    ensures
        unsplit_escaped(cs.push(c)) == Some(acc + piece),
    decreases cs.len(),
{
    if cs.len() == 0 {
        assert(cs.push(c)[0] == c);
        assert(cs.push(c).drop_first() =~= Seq::<Seq<u8>>::empty());
        assert(unsplit_escaped(Seq::<Seq<u8>>::empty()) == Some(Seq::<u8>::empty()));
        assert(piece + Seq::<u8>::empty() =~= piece);
        assert(Seq::<u8>::empty() + piece =~= piece);
        assert(acc =~= Seq::<u8>::empty());
    } else {
        assert(unwrap_escaped(cs[0]) is Some && unsplit_escaped(cs.drop_first()) is Some);
        let p0 = unwrap_escaped(cs[0])->Some_0;
        let rest0 = unsplit_escaped(cs.drop_first())->Some_0;
        assert(acc == p0 + rest0);
        lemma_unsplit_escaped_snoc(cs.drop_first(), c, rest0, piece);
        assert(cs.push(c)[0] == cs[0]);
        assert(cs.push(c).drop_first() =~= cs.drop_first().push(c));
        assert(unsplit_escaped(cs.push(c)) == Some(p0 + (rest0 + piece)));
        assert(p0 + (rest0 + piece) =~= (p0 + rest0) + piece);
    }
}

/// `--` — the two-byte inert marker that opens every line of a
/// line-comment-wrapped chunk.
pub open spec fn comment_marker() -> Seq<u8> {
    seq![45u8, 45u8]
}

pub open spec fn comment_unit(b: u8) -> Seq<u8> {
    if b == 10 {
        seq![10u8, 45u8, 45u8]
    } else {
        seq![b]
    }
}

/// The buffer with the marker inserted after every linefeed (the leading
/// marker is part of the chunk wrap, not of the body).
pub open spec fn comment_body(s: Seq<u8>) -> Seq<u8>
    decreases s.len(),
{
    if s.len() == 0 {
        Seq::empty()
    } else {
        comment_body(s.drop_last()) + comment_unit(s.last())
    }
}

/// The line-comment wrap of a whole buffer.
pub open spec fn commentified(s: Seq<u8>) -> Seq<u8> {
    comment_marker() + comment_body(s)
}

pub proof fn lemma_comment_body_first(s: Seq<u8>)
    requires
        s.len() > 0,
    ensures
        comment_body(s) == comment_unit(s[0]) + comment_body(s.drop_first()),
    decreases s.len(),
{
    if s.len() == 1 {
        assert(s.drop_last() =~= Seq::<u8>::empty());
        assert(s.drop_first() =~= Seq::<u8>::empty());
        assert(comment_body(s) =~= comment_unit(s[0]) + comment_body(s.drop_first()));
    } else {
        lemma_comment_body_first(s.drop_last());
        assert(s.drop_last()[0] == s[0]);
        assert(s.drop_last().drop_first() =~= s.drop_first().drop_last());
        assert(s.drop_first().last() == s.last());
        assert(comment_body(s) =~= comment_unit(s[0]) + comment_body(s.drop_first()));
    }
}

/// Inverse of `comment_body`: after every linefeed the marker must follow and
/// is dropped; everything else is kept.
pub open spec fn strip_comments(p: Seq<u8>) -> Option<Seq<u8>>
    decreases p.len(),
{
    if p.len() == 0 {
        Some(Seq::empty())
    } else if p[0] == 10 {
        if p.len() >= 3 && p[1] == 45 && p[2] == 45 {
            prepend(10u8, strip_comments(p.subrange(3, p.len() as int)))
        } else {
            None
        }
    } else {
        prepend(p[0], strip_comments(p.subrange(1, p.len() as int)))
    }
}

/// Stripping inverts the comment body exactly.
pub proof fn lemma_strip_comment_body(s: Seq<u8>)
    ensures
        strip_comments(comment_body(s)) == Some(s),
    decreases s.len(),
{
    if s.len() == 0 {
        assert(comment_body(s) =~= Seq::<u8>::empty());
        assert(s =~= Seq::<u8>::empty());
    } else {
        let b = s[0];
        let rest = s.drop_first();
        lemma_comment_body_first(s);
        lemma_strip_comment_body(rest);
        let p = comment_body(s);
        let e = comment_body(rest);
        if b == 10 {
            assert(p[0] == 10 && p[1] == 45 && p[2] == 45);
            assert(p.subrange(3, p.len() as int) =~= e);
            assert(seq![b] + rest =~= s);
        } else {
            assert(p[0] == b && b != 10);
            assert(p.subrange(1, p.len() as int) =~= e);
            assert(seq![b] + rest =~= s);
        }
    }
}

/// A well-formed line-comment chunk: opens with the marker, within the ceiling.
pub open spec fn commented_chunk_ok(c: Seq<u8>) -> bool {
    &&& c.len() >= 2
    &&& c.len() <= MAX_LUA_SIZE
    &&& c.take(2) == comment_marker()
}

/// Reverses the wrap of one line-comment chunk.
pub open spec fn unwrap_commented(c: Seq<u8>) -> Option<Seq<u8>> {
    if c.len() >= 2 && c.take(2) == comment_marker() {
        strip_comments(c.subrange(2, c.len() as int))
    } else {
        None
    }
}

pub open spec fn unsplit_commented(cs: Seq<Seq<u8>>) -> Option<Seq<u8>>
    decreases cs.len(),
{
    if cs.len() == 0 {
        Some(Seq::empty())
    } else {
        match unwrap_commented(cs[0]) {
            Some(piece) => match unsplit_commented(cs.drop_first()) {
                Some(rest) => Some(piece + rest),
                None => None,
            },
            None => None,
        }
    }
}

pub proof fn lemma_unsplit_commented_snoc(
    cs: Seq<Seq<u8>>,
    c: Seq<u8>,
    acc: Seq<u8>,
    piece: Seq<u8>,
)
    requires
        unsplit_commented(cs) == Some(acc),
        unwrap_commented(c) == Some(piece),
    ensures
        unsplit_commented(cs.push(c)) == Some(acc + piece),
    decreases cs.len(),
{
    if cs.len() == 0 {
        assert(cs.push(c)[0] == c);
        assert(cs.push(c).drop_first() =~= Seq::<Seq<u8>>::empty());
        assert(unsplit_commented(Seq::<Seq<u8>>::empty()) == Some(Seq::<u8>::empty()));
        assert(piece + Seq::<u8>::empty() =~= piece);
        assert(Seq::<u8>::empty() + piece =~= piece);
        assert(acc =~= Seq::<u8>::empty());
    } else {
        assert(unwrap_commented(cs[0]) is Some && unsplit_commented(cs.drop_first()) is Some);
        let p0 = unwrap_commented(cs[0])->Some_0;
        let rest0 = unsplit_commented(cs.drop_first())->Some_0;
        assert(acc == p0 + rest0);
        lemma_unsplit_commented_snoc(cs.drop_first(), c, rest0, piece);
        assert(cs.push(c)[0] == cs[0]);
        assert(cs.push(c).drop_first() =~= cs.drop_first().push(c));
        assert(unsplit_commented(cs.push(c)) == Some(p0 + (rest0 + piece)));
        assert(p0 + (rest0 + piece) =~= (p0 + rest0) + piece);
    }
}

/// The start of the next atomic unit after the one at `i`: a
/// carriage-return/linefeed pair is one unit, anything else one byte.
pub open spec fn com_next(bytes: Seq<u8>, i: int) -> int {
    if i + 1 < bytes.len() && bytes[i] == 13 && bytes[i + 1] == 10 {
        i + 2
    } else {
        i + 1
    }
}

pub proof fn lemma_com_unit_growth(bytes: Seq<u8>, start: int, i: int)
    requires
        0 <= start <= i < bytes.len(),
    ensures
        comment_body(bytes.subrange(start, com_next(bytes, i))).len() <= comment_body(
            bytes.subrange(start, i),
        ).len() + 4,
        comment_body(bytes.subrange(start, com_next(bytes, i))).len() >= comment_body(
            bytes.subrange(start, i),
        ).len() + 1,
{
    if com_next(bytes, i) == i + 2 {
        assert(bytes.subrange(start, i + 2).drop_last() =~= bytes.subrange(start, i + 1));
        assert(bytes.subrange(start, i + 1).drop_last() =~= bytes.subrange(start, i));
        assert(bytes.subrange(start, i + 1).last() == bytes[i]);
        assert(bytes.subrange(start, i + 2).last() == bytes[i + 1]);
        assert(comment_body(bytes.subrange(start, i + 1)) == comment_body(
            bytes.subrange(start, i),
        ) + comment_unit(bytes[i]));
        assert(comment_body(bytes.subrange(start, i + 2)) == comment_body(
            bytes.subrange(start, i + 1),
        ) + comment_unit(bytes[i + 1]));
    } else {
        assert(bytes.subrange(start, i + 1).drop_last() =~= bytes.subrange(start, i));
        assert(bytes.subrange(start, i + 1).last() == bytes[i]);
        assert(comment_body(bytes.subrange(start, i + 1)) == comment_body(
            bytes.subrange(start, i),
        ) + comment_unit(bytes[i]));
    }
}

/// The exclusive end of the line-comment chunk that opens at `start`,
/// scanning from unit start `i`: units join greedily while the wrapped chunk
/// stays within the ceiling.
pub open spec fn com_chunk_end(bytes: Seq<u8>, start: int, i: int) -> int
    decreases bytes.len() - i when 0 <= start <= i <= bytes.len()
{
    if i >= bytes.len() {
        i
    } else if 2 + comment_body(bytes.subrange(start, com_next(bytes, i))).len() > MAX_LUA_SIZE {
        i
    } else {
        com_chunk_end(bytes, start, com_next(bytes, i))
    }
}

pub proof fn lemma_com_chunk_end_bounds(bytes: Seq<u8>, start: int, i: int)
    requires
        0 <= start <= i <= bytes.len(),
    ensures
        i <= com_chunk_end(bytes, start, i) <= bytes.len(),
    decreases bytes.len() - i,
{
    if i < bytes.len() && !(2 + comment_body(bytes.subrange(start, com_next(bytes, i))).len()
        > MAX_LUA_SIZE) {
        lemma_com_chunk_end_bounds(bytes, start, com_next(bytes, i));
    }
}

pub proof fn lemma_com_chunk_end_gt(bytes: Seq<u8>, start: int)
    requires
        0 <= start < bytes.len(),
    ensures
        start < com_chunk_end(bytes, start, start) <= bytes.len(),
{
    assert(bytes.subrange(start, start) =~= Seq::<u8>::empty());
    assert(comment_body(Seq::<u8>::empty()) =~= Seq::<u8>::empty());
    lemma_com_unit_growth(bytes, start, start);
    lemma_com_chunk_end_bounds(bytes, start, com_next(bytes, start));
}

/// The greedy line-comment split of a whole buffer, chunk by chunk.
pub open spec fn com_split_spec(bytes: Seq<u8>, start: int) -> Seq<Seq<u8>>
    decreases bytes.len() - start when 0 <= start <= bytes.len() via com_split_spec_dec
{
    if start >= bytes.len() {
        Seq::empty()
    } else {
        let e = com_chunk_end(bytes, start, start);
        seq![comment_marker() + comment_body(bytes.subrange(start, e))] + com_split_spec(bytes, e)
    }
}

#[via_fn]
proof fn com_split_spec_dec(bytes: Seq<u8>, start: int) {
    if 0 <= start < bytes.len() {
        lemma_com_chunk_end_gt(bytes, start);
    }
}

/// Prefixes the marker to the buffer and to every line in it.
pub fn commentify(bytes: &Vec<u8>) -> (r: Vec<u8>)
    ensures
        r@ == commentified(bytes@),
{
    let mut r: Vec<u8> = Vec::new();
    r.push(45);
    r.push(45);
    let n = bytes.len();
    let mut i: usize = 0;
    proof {
        assert(bytes@.take(0) =~= Seq::<u8>::empty());
        assert(r@ =~= comment_marker() + comment_body(bytes@.take(0)));
    }
    while i < n
        invariant
            n == bytes@.len(),
            0 <= i <= n,
            r@ == comment_marker() + comment_body(bytes@.take(i as int)),
        decreases n - i,
    {
        let b = bytes[i];
        r.push(b);
        if b == 10 {
            r.push(45);
            r.push(45);
        }
        proof {
            assert(bytes@.take(i + 1).drop_last() =~= bytes@.take(i as int));
            assert(bytes@.take(i + 1).last() == bytes@[i as int]);
            assert(r@ =~= comment_marker() + comment_body(bytes@.take(i + 1)));
        }
        i = i + 1;
    }
    proof {
        assert(bytes@.take(n as int) =~= bytes@);
    }
    r
}

/// Opens a fresh line-comment chunk.
fn begin_commented_chunk() -> (v: Vec<u8>)
    ensures
        v@ == comment_marker(),
{
    let mut v: Vec<u8> = Vec::new();
    v.push(45);
    v.push(45);
    assert(v@ =~= comment_marker());
    v
}

/// Splits a realm buffer into line-comment chunks. A carriage-return/linefeed
/// pair together with the following marker is one atomic unit that never
/// straddles a chunk boundary, and a marker is never separated from the line
/// it introduces; each unit's wrapped length is computed before appending.
#[verifier::rlimit(60)]
pub fn split_commented(bytes: &Vec<u8>) -> (chunks: Vec<Vec<u8>>)
    ensures
        forall|j: int| 0 <= j < chunks@.len() ==> commented_chunk_ok(#[trigger] chunks@[j]@),
        unsplit_commented(chunks@.map_values(|c: Vec<u8>| c@)) == Some(bytes@),
        chunks@.map_values(|c: Vec<u8>| c@) == com_split_spec(bytes@, 0),
        bytes@.len() == 0 ==> chunks@.len() == 0,
        bytes@.len() > 0 ==> chunks@.len() >= 1,
{
    let n = bytes.len();
    let mut chunks: Vec<Vec<u8>> = Vec::new();
    if n == 0 {
        proof {
            assert(chunks@.map_values(|c: Vec<u8>| c@) =~= Seq::<Seq<u8>>::empty());
            assert(bytes@ =~= Seq::<u8>::empty());
            assert(com_split_spec(bytes@, 0) =~= Seq::<Seq<u8>>::empty());
        }
        return chunks;
    }
    let mut cur = begin_commented_chunk();
    let ghost mut start: int = 0;
    let mut i: usize = 0;
    proof {
        assert(bytes@.subrange(0, 0) =~= Seq::<u8>::empty());
        assert(cur@ =~= comment_marker() + comment_body(bytes@.subrange(0, 0)));
        assert(chunks@.map_values(|c: Vec<u8>| c@) =~= Seq::<Seq<u8>>::empty());
        assert(bytes@.take(0) =~= Seq::<u8>::empty());
        assert(chunks@.map_values(|c: Vec<u8>| c@) + com_split_spec(bytes@, 0) =~= com_split_spec(
            bytes@,
            0,
        ));
    }
    while i < n
        invariant
            n == bytes@.len(),
            0 <= start <= i <= n,
            start < n,
            cur@ == comment_marker() + comment_body(bytes@.subrange(start, i as int)),
            cur@.len() <= MAX_LUA_SIZE,
            forall|j: int| 0 <= j < chunks@.len() ==> commented_chunk_ok(#[trigger] chunks@[j]@),
            unsplit_commented(chunks@.map_values(|c: Vec<u8>| c@)) == Some(bytes@.take(start)),
            chunks@.map_values(|c: Vec<u8>| c@) + com_split_spec(bytes@, start) == com_split_spec(
                bytes@,
                0,
            ),
            com_chunk_end(bytes@, start, start) == com_chunk_end(bytes@, start, i as int),
        decreases n - i,
    {
        let b = bytes[i];
        // The atomic unit beginning here, and its wrapped length.
        let crlf = b == 13 && i + 1 < n && bytes[i + 1] == 10;
        let ulen: usize = if crlf {
            4
        } else if b == 10 {
            3
        } else {
            1
        };
        if cur.len() + ulen > MAX_LUA_SIZE {
            // Close the current chunk first: appending would exceed the ceiling.
            let ghost piece = bytes@.subrange(start, i as int);
            proof {
                // The greedy boundary of the spec split lies exactly here.
                if crlf {
                    assert(bytes@.subrange(start, i + 2).drop_last() =~= bytes@.subrange(
                        start,
                        i + 1,
                    ));
                    assert(bytes@.subrange(start, i + 1).drop_last() =~= piece);
                    assert(bytes@.subrange(start, i + 1).last() == bytes@[i as int]);
                    assert(bytes@.subrange(start, i + 2).last() == bytes@[i + 1]);
                    assert(comment_body(bytes@.subrange(start, i + 1)) == comment_body(piece)
                        + comment_unit(bytes@[i as int]));
                    assert(comment_body(bytes@.subrange(start, i + 2)) == comment_body(
                        bytes@.subrange(start, i + 1),
                    ) + comment_unit(bytes@[i + 1]));
                } else {
                    assert(bytes@.subrange(start, i + 1).drop_last() =~= piece);
                    assert(bytes@.subrange(start, i + 1).last() == bytes@[i as int]);
                    assert(comment_body(bytes@.subrange(start, i + 1)) == comment_body(piece)
                        + comment_unit(bytes@[i as int]));
                }
                assert(com_next(bytes@, i as int) == (if crlf {
                    i + 2int
                } else {
                    i + 1int
                }));
                assert(2 + comment_body(
                    bytes@.subrange(start, com_next(bytes@, i as int)),
                ).len() > MAX_LUA_SIZE);
                assert(com_chunk_end(bytes@, start, i as int) == i);
                assert(com_chunk_end(bytes@, start, start) == i);
                assert(com_split_spec(bytes@, start) == seq![comment_marker() + comment_body(piece)]
                    + com_split_spec(bytes@, i as int));
            }
            proof {
                let c = cur@;
                assert(c.take(2) =~= comment_marker());
                assert(c.subrange(2, c.len() as int) =~= comment_body(piece));
                lemma_strip_comment_body(piece);
                assert(unwrap_commented(c) == Some(piece));
            }
            let ghost pre_chunks = chunks@.map_values(|c: Vec<u8>| c@);
            let ghost closed = cur@;
            chunks.push(cur);
            proof {
                assert(chunks@.map_values(|c: Vec<u8>| c@) =~= pre_chunks.push(closed));
                lemma_unsplit_commented_snoc(pre_chunks, closed, bytes@.take(start), piece);
                assert(bytes@.take(start) + piece =~= bytes@.take(i as int));
                assert(closed =~= comment_marker() + comment_body(piece));
                assert(pre_chunks.push(closed) + com_split_spec(bytes@, i as int) =~= pre_chunks
                    + com_split_spec(bytes@, start));
            }
            cur = begin_commented_chunk();
            proof {
                start = i as int;
                assert(bytes@.subrange(start, i as int) =~= Seq::<u8>::empty());
                assert(cur@ =~= comment_marker() + comment_body(bytes@.subrange(start, i as int)));
            }
        }
        let ghost pre_cur = cur@;
        if crlf {
            cur.push(13);
            cur.push(10);
            cur.push(45);
            cur.push(45);
            proof {
                assert(bytes@.subrange(start, i + 2).drop_last() =~= bytes@.subrange(
                    start,
                    i + 1,
                ));
                assert(bytes@.subrange(start, i + 1).drop_last() =~= bytes@.subrange(
                    start,
                    i as int,
                ));
                assert(bytes@.subrange(start, i + 1).last() == bytes@[i as int]);
                assert(bytes@.subrange(start, i + 2).last() == bytes@[i + 1]);
                assert(comment_body(bytes@.subrange(start, i + 1)) == comment_body(
                    bytes@.subrange(start, i as int),
                ) + comment_unit(bytes@[i as int]));
                assert(comment_body(bytes@.subrange(start, i + 2)) == comment_body(
                    bytes@.subrange(start, i + 1),
                ) + comment_unit(bytes@[i + 1]));
                assert(cur@ =~= comment_marker() + comment_body(bytes@.subrange(start, i + 2)));
                // The appended unit fits, so the greedy boundary lies further on.
                assert(com_next(bytes@, i as int) == i + 2);
                assert(2 + comment_body(bytes@.subrange(start, i + 2)).len() <= MAX_LUA_SIZE);
                assert(com_chunk_end(bytes@, start, i as int) == com_chunk_end(
                    bytes@,
                    start,
                    i + 2,
                ));
            }
            i = i + 2;
        } else {
            cur.push(b);
            if b == 10 {
                cur.push(45);
                cur.push(45);
            }
            proof {
                assert(bytes@.subrange(start, i + 1).drop_last() =~= bytes@.subrange(
                    start,
                    i as int,
                ));
                assert(bytes@.subrange(start, i + 1).last() == bytes@[i as int]);
                assert(cur@ =~= comment_marker() + comment_body(bytes@.subrange(start, i + 1)));
                // The appended unit fits, so the greedy boundary lies further on.
                assert(com_next(bytes@, i as int) == i + 1);
                assert(2 + comment_body(bytes@.subrange(start, i + 1)).len() <= MAX_LUA_SIZE);
                assert(com_chunk_end(bytes@, start, i as int) == com_chunk_end(
                    bytes@,
                    start,
                    i + 1,
                ));
            }
            i = i + 1;
        }
    }
    // Close the final chunk.
    let ghost piece = bytes@.subrange(start, n as int);
    proof {
        let c = cur@;
        assert(c.take(2) =~= comment_marker());
        assert(c.subrange(2, c.len() as int) =~= comment_body(piece));
        lemma_strip_comment_body(piece);
        assert(unwrap_commented(c) == Some(piece));
        assert(com_chunk_end(bytes@, start, n as int) == n);
        assert(com_chunk_end(bytes@, start, start) == n);
        assert(com_split_spec(bytes@, start) == seq![comment_marker() + comment_body(piece)]
            + com_split_spec(bytes@, n as int));
        assert(com_split_spec(bytes@, n as int) =~= Seq::<Seq<u8>>::empty());
        assert(c =~= comment_marker() + comment_body(piece));
    }
    let ghost pre_chunks = chunks@.map_values(|c: Vec<u8>| c@);
    let ghost closed = cur@;
    chunks.push(cur);
    proof {
        assert(chunks@.map_values(|c: Vec<u8>| c@) =~= pre_chunks.push(closed));
        lemma_unsplit_commented_snoc(pre_chunks, closed, bytes@.take(start), piece);
        assert(bytes@.take(start) + piece =~= bytes@);
        assert(pre_chunks.push(closed) =~= pre_chunks + com_split_spec(bytes@, start));
    }
    chunks
}

pub proof fn lemma_escape_byte_len(b: u8)
    ensures
        1 <= escape_byte(b).len() <= 4,
{
    crate::radix::lemma_dec_rep_len_u8(b as nat);
}

/// The exclusive end of the escaped-literal chunk that opens at `start`,
/// scanning from `i`: source bytes join greedily while the wrapped chunk
/// stays within the ceiling.
pub open spec fn esc_chunk_end(bytes: Seq<u8>, start: int, i: int) -> int
    decreases bytes.len() - i when 0 <= start <= i <= bytes.len()
{
    if i >= bytes.len() {
        i
    } else if 8 + escape_all(bytes.subrange(start, i + 1)).len() > MAX_LUA_SIZE {
        i
    } else {
        esc_chunk_end(bytes, start, i + 1)
    }
}

pub proof fn lemma_esc_chunk_end_bounds(bytes: Seq<u8>, start: int, i: int)
    requires
        0 <= start <= i <= bytes.len(),
    ensures
        i <= esc_chunk_end(bytes, start, i) <= bytes.len(),
    decreases bytes.len() - i,
{
    if i < bytes.len() && !(8 + escape_all(bytes.subrange(start, i + 1)).len() > MAX_LUA_SIZE) {
        lemma_esc_chunk_end_bounds(bytes, start, i + 1);
    }
}

pub proof fn lemma_esc_chunk_end_gt(bytes: Seq<u8>, start: int)
    requires
        0 <= start < bytes.len(),
    ensures
        start < esc_chunk_end(bytes, start, start) <= bytes.len(),
{
    let one = bytes.subrange(start, start + 1);
    assert(one.drop_last() =~= Seq::<u8>::empty());
    assert(escape_all(Seq::<u8>::empty()) =~= Seq::<u8>::empty());
    assert(escape_all(one) == escape_all(one.drop_last()) + escape_byte(one.last()));
    lemma_escape_byte_len(one.last());
    assert(escape_all(one).len() <= 4);
    lemma_esc_chunk_end_bounds(bytes, start, start + 1);
}

/// The greedy escaped-literal split of a whole buffer, chunk by chunk.
pub open spec fn esc_split_spec(bytes: Seq<u8>, start: int) -> Seq<Seq<u8>>
    decreases bytes.len() - start when 0 <= start <= bytes.len() via esc_split_spec_dec
{
    if start >= bytes.len() {
        Seq::empty()
    } else {
        let e = esc_chunk_end(bytes, start, start);
        seq![ret_quote() + escape_all(bytes.subrange(start, e)) + seq![34u8]] + esc_split_spec(
            bytes,
            e,
        )
    }
}

#[via_fn]
proof fn esc_split_spec_dec(bytes: Seq<u8>, start: int) {
    if 0 <= start < bytes.len() {
        lemma_esc_chunk_end_gt(bytes, start);
    }
}

/// Opens a fresh escaped-literal chunk.
fn begin_escaped_chunk() -> (v: Vec<u8>)
    ensures
        v@ == ret_quote(),
{
    let mut v: Vec<u8> = Vec::new();
    v.push(114);
    v.push(101);
    v.push(116);
    v.push(117);
    v.push(114);
    v.push(110);
    v.push(34);
    assert(v@ =~= ret_quote());
    v
}

/// Splits a realm buffer into escaped-literal chunks. Every chunk stays within
/// the size ceiling, and the escaped length of each source byte is computed
/// before appending it, so no escape sequence is split across two chunks:
/// unwrapping the chunks in order reproduces the buffer exactly.
#[verifier::rlimit(60)]
pub fn split_escaped(bytes: &Vec<u8>) -> (chunks: Vec<Vec<u8>>)
    ensures
        forall|j: int| 0 <= j < chunks@.len() ==> escaped_chunk_ok(#[trigger] chunks@[j]@),
        unsplit_escaped(chunks@.map_values(|c: Vec<u8>| c@)) == Some(bytes@),
        chunks@.map_values(|c: Vec<u8>| c@) == esc_split_spec(bytes@, 0),
        bytes@.len() == 0 ==> chunks@.len() == 0,
        bytes@.len() > 0 ==> chunks@.len() >= 1,
{
    let n = bytes.len();
    let mut chunks: Vec<Vec<u8>> = Vec::new();
    if n == 0 {
        proof {
            assert(chunks@.map_values(|c: Vec<u8>| c@) =~= Seq::<Seq<u8>>::empty());
            assert(bytes@ =~= Seq::<u8>::empty());
            assert(esc_split_spec(bytes@, 0) =~= Seq::<Seq<u8>>::empty());
        }
        return chunks;
    }
    let mut cur = begin_escaped_chunk();
    let ghost mut start: int = 0;
    let mut i: usize = 0;
    proof {
        assert(bytes@.subrange(0, 0) =~= Seq::<u8>::empty());
        assert(cur@ =~= ret_quote() + escape_all(bytes@.subrange(0, 0)));
        assert(chunks@.map_values(|c: Vec<u8>| c@) =~= Seq::<Seq<u8>>::empty());
        assert(bytes@.take(0) =~= Seq::<u8>::empty());
        assert(chunks@.map_values(|c: Vec<u8>| c@) + esc_split_spec(bytes@, 0) =~= esc_split_spec(
            bytes@,
            0,
        ));
    }
    while i < n
        invariant
            n == bytes@.len(),
            0 <= start <= i <= n,
            start < n,
            cur@ == ret_quote() + escape_all(bytes@.subrange(start, i as int)),
            cur@.len() < MAX_LUA_SIZE,
            forall|j: int| 0 <= j < chunks@.len() ==> escaped_chunk_ok(#[trigger] chunks@[j]@),
            unsplit_escaped(chunks@.map_values(|c: Vec<u8>| c@)) == Some(bytes@.take(start)),
            chunks@.map_values(|c: Vec<u8>| c@) + esc_split_spec(bytes@, start) == esc_split_spec(
                bytes@,
                0,
            ),
            esc_chunk_end(bytes@, start, start) == esc_chunk_end(bytes@, start, i as int),
        decreases n - i,
    {
        let b = bytes[i];
        // Escaped length of this byte, computed before appending.
        let elen: usize = if b == 10 {
            2
        } else if b != 10 && (b <= 32 || b == 127 || (48 <= b && b <= 57) || b == 101 || b == 69
            || b == 120 || b == 88 || b == 46 || b == 45) {
            proof {
                crate::radix::lemma_dec_rep_len_u8(b as nat);
            }
            if b < 10 {
                2
            } else if b < 100 {
                3
            } else {
                4
            }
        } else if b == 92 || b == 34 {
            2
        } else {
            1
        };
        assert(elen == escape_byte(b).len());
        if cur.len() + elen + 1 > MAX_LUA_SIZE {
            // Close the current chunk first: appending would exceed the ceiling.
            let ghost piece = bytes@.subrange(start, i as int);
            proof {
                // The greedy boundary of the spec split lies exactly here.
                assert(bytes@.subrange(start, i + 1).drop_last() =~= piece);
                assert(bytes@.subrange(start, i + 1).last() == bytes@[i as int]);
                assert(escape_all(bytes@.subrange(start, i + 1)) == escape_all(piece)
                    + escape_byte(b));
                assert(8 + escape_all(bytes@.subrange(start, i + 1)).len() > MAX_LUA_SIZE);
                assert(esc_chunk_end(bytes@, start, i as int) == i);
                assert(esc_chunk_end(bytes@, start, start) == i);
                assert(esc_split_spec(bytes@, start) == seq![
                    ret_quote() + escape_all(piece) + seq![34u8],
                ] + esc_split_spec(bytes@, i as int));
            }
            cur.push(34);
            proof {
                let c = cur@;
                assert(c.take(7) =~= ret_quote());
                assert(c.subrange(7, c.len() - 1) =~= escape_all(piece));
                lemma_unescape_escape(piece);
                assert(unwrap_escaped(c) == Some(piece));
                assert(c =~= ret_quote() + escape_all(piece) + seq![34u8]);
            }
            let ghost pre_chunks = chunks@.map_values(|c: Vec<u8>| c@);
            let ghost closed = cur@;
            chunks.push(cur);
            proof {
                assert(chunks@.map_values(|c: Vec<u8>| c@) =~= pre_chunks.push(closed));
                lemma_unsplit_escaped_snoc(
                    pre_chunks,
                    closed,
                    bytes@.take(start),
                    bytes@.subrange(start, i as int),
                );
                assert(bytes@.take(start) + bytes@.subrange(start, i as int) =~= bytes@.take(
                    i as int,
                ));
                assert(pre_chunks.push(closed) + esc_split_spec(bytes@, i as int) =~= pre_chunks
                    + esc_split_spec(bytes@, start));
            }
            cur = begin_escaped_chunk();
            proof {
                start = i as int;
                assert(bytes@.subrange(start, i as int) =~= Seq::<u8>::empty());
                assert(cur@ =~= ret_quote() + escape_all(bytes@.subrange(start, i as int)));
            }
        }
        // Append the escape sequence of this byte.
        let ghost pre_cur = cur@;
        if b == 10 {
            cur.push(92);
            cur.push(110);
        } else if b != 10 && (b <= 32 || b == 127 || (48 <= b && b <= 57) || b == 101 || b == 69
            || b == 120 || b == 88 || b == 46 || b == 45) {
            cur.push(92);
            let digits = crate::radix::dec_of_usize(b as usize);
            let mut t: usize = 0;
            while t < digits.len()
                invariant
                    0 <= t <= digits@.len(),
                    cur@ == pre_cur + seq![92u8] + digits@.take(t as int),
                decreases digits@.len() - t,
            {
                cur.push(digits[t]);
                proof {
                    assert(digits@.take(t + 1) =~= digits@.take(t as int).push(digits@[t as int]));
                }
                t = t + 1;
            }
            proof {
                assert(digits@.take(digits@.len() as int) =~= digits@);
            }
        } else if b == 92 || b == 34 {
            cur.push(92);
            cur.push(b);
        } else {
            cur.push(b);
        }
        proof {
            assert(cur@ =~= pre_cur + escape_byte(b));
            assert(bytes@.subrange(start, i + 1).drop_last() =~= bytes@.subrange(
                start,
                i as int,
            ));
            assert(bytes@.subrange(start, i + 1).last() == bytes@[i as int]);
            assert(cur@ =~= ret_quote() + escape_all(bytes@.subrange(start, i + 1)));
            // The appended byte fits, so the greedy boundary lies further on.
            assert(8 + escape_all(bytes@.subrange(start, i + 1)).len() <= MAX_LUA_SIZE);
            assert(esc_chunk_end(bytes@, start, i as int) == esc_chunk_end(
                bytes@,
                start,
                i + 1,
            ));
        }
        i = i + 1;
    }
    // Close the final chunk.
    let ghost piece = bytes@.subrange(start, n as int);
    proof {
        assert(esc_chunk_end(bytes@, start, n as int) == n);
        assert(esc_chunk_end(bytes@, start, start) == n);
        assert(esc_split_spec(bytes@, start) == seq![
            ret_quote() + escape_all(piece) + seq![34u8],
        ] + esc_split_spec(bytes@, n as int));
        assert(esc_split_spec(bytes@, n as int) =~= Seq::<Seq<u8>>::empty());
    }
    cur.push(34);
    proof {
        let c = cur@;
        assert(c.take(7) =~= ret_quote());
        assert(c.subrange(7, c.len() - 1) =~= escape_all(piece));
        lemma_unescape_escape(piece);
        assert(unwrap_escaped(c) == Some(piece));
        assert(c =~= ret_quote() + escape_all(piece) + seq![34u8]);
    }
    let ghost pre_chunks = chunks@.map_values(|c: Vec<u8>| c@);
    let ghost closed = cur@;
    chunks.push(cur);
    proof {
        assert(chunks@.map_values(|c: Vec<u8>| c@) =~= pre_chunks.push(closed));
        lemma_unsplit_escaped_snoc(pre_chunks, closed, bytes@.take(start), piece);
        assert(bytes@.take(start) + piece =~= bytes@);
        assert(pre_chunks.push(closed) =~= pre_chunks + esc_split_spec(bytes@, start));
    }
    chunks
}

} // verus!
