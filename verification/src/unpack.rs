//! Unpacking side: inverse parsers for the two frame formats.

use vstd::prelude::*;
use vstd::slice::{slice_index_get, slice_subrange, slice_to_vec};

use crate::TERMINATOR_HACK;
use crate::radix::{all_hex_digits, hex_token_val};

verus! {

/// Failures of the inverse pipeline. I/O failures are reported by the caller
/// driving the filesystem; the parsers themselves report a length token that
/// is not ASCII text, or any other token malformed before the natural
/// end-of-stream signal.
#[derive(Debug, Clone, Copy, PartialEq, Eq, Structural)]
pub enum UnpackingError {
    IoError,
    Utf8Error,
    FormatError,
}

/// Counts a finished unpacking run reports.
pub struct UnpackingStatistics {
    pub total_unpacked_files: usize,
    pub total_unpacked_size: usize,
    pub total_packed_files: usize,
    pub total_packed_size: usize,
    pub elapsed_micros: u64,
}

impl UnpackingStatistics {
    /// Packed artifact count against recovered file count, with the change
    /// as a percentage.
    pub fn files(&self) -> (r: String)
        ensures
            r@ == crate::util::files_report_chars(
                self.total_unpacked_files as int,
                self.total_packed_files as int,
            ),
    {
        crate::util::files_report(self.total_unpacked_files, self.total_packed_files)
    }

    /// Recovered byte size against packed byte size, with the change as a
    /// percentage.
    pub fn size(&self) -> (r: String)
        ensures
            r@ == crate::util::size_report_chars(
                self.total_unpacked_size as int,
                self.total_packed_size as int,
            ),
    {
        crate::util::size_report(self.total_unpacked_size, self.total_packed_size)
    }

    /// The run's wall time.
    pub fn elapsed(&self) -> (r: String)
        ensures
            r@ == crate::util::elapsed_report_chars(self.elapsed_micros as int),
    {
        crate::util::elapsed_report(self.elapsed_micros)
    }
}

/// One file recovered from a packed buffer: the path exactly as its bytes
/// appeared in the frame, and the raw contents.
#[derive(Debug, Clone)]
pub struct UnpackedFile {
    pub path: Vec<u8>,
    pub contents: Vec<u8>,
}

/// Index of the first occurrence of `b` in `s`, or `-1`.
pub open spec fn find_byte(s: Seq<u8>, b: u8) -> int
    decreases s.len(),
{
    if s.len() == 0 {
        -1
    } else if s[0] == b {
        0
    } else {
        let r = find_byte(s.subrange(1, s.len() as int), b);
        if r < 0 {
            -1
        } else {
            r + 1
        }
    }
}

pub proof fn lemma_find_byte(s: Seq<u8>, b: u8)
    ensures
        find_byte(s, b) < 0 ==> forall|i: int| 0 <= i < s.len() ==> s[i] != b,
        find_byte(s, b) >= 0 ==> {
            &&& find_byte(s, b) < s.len()
            &&& s[find_byte(s, b)] == b
            &&& forall|i: int| 0 <= i < find_byte(s, b) ==> s[i] != b
        },
    decreases s.len(),
{
    if s.len() > 0 && s[0] != b {
        let t = s.subrange(1, s.len() as int);
        lemma_find_byte(t, b);
        assert forall|i: int| 1 <= i < s.len() implies s[i] == t[i - 1] by {}
    }
}

/// `find_byte` is pinned by exhibiting the first occurrence.
pub proof fn lemma_find_byte_at(s: Seq<u8>, b: u8, k: int)
    requires
        0 <= k < s.len(),
        s[k] == b,
        forall|i: int| 0 <= i < k ==> s[i] != b,
    ensures
        find_byte(s, b) == k,
{
    lemma_find_byte(s, b);
    let r = find_byte(s, b);
    if r < 0 {
    } else if r < k {
    } else if r > k {
    }
}

pub proof fn lemma_find_byte_none(s: Seq<u8>, b: u8)
    requires
        forall|i: int| 0 <= i < s.len() ==> s[i] != b,
    ensures
        find_byte(s, b) < 0,
{
    lemma_find_byte(s, b);
}

/// Specification of the Server-realm stream parser. A frame is
/// `path, NUL, little-endian u32 length, contents`; an empty path token (the
/// buffer ends, or opens with NUL) is the end-of-stream signal.
pub open spec fn sv_parse(s: Seq<u8>) -> Result<Seq<(Seq<u8>, Seq<u8>)>, UnpackingError>
    decreases s.len(),
{
    if s.len() == 0 {
        Ok(Seq::empty())
    } else if s[0] == 0 {
        Ok(Seq::empty())
    } else {
        let k = find_byte(s, 0);
        if k < 0 {
            Err(UnpackingError::FormatError)
        } else if k + 5 > s.len() {
            Err(UnpackingError::FormatError)
        } else {
            let len = vstd::bytes::spec_u32_from_le_bytes(s.subrange(k + 1, k + 5)) as int;
            if k + 5 + len > s.len() {
                Err(UnpackingError::FormatError)
            } else {
                match sv_parse(s.subrange(k + 5 + len, s.len() as int)) {
                    Ok(rest) => Ok(seq![(s.take(k), s.subrange(k + 5, k + 5 + len))] + rest),
                    Err(e) => Err(e),
                }
            }
        }
    }
}

pub open spec fn all_ascii(s: Seq<u8>) -> bool {
    forall|i: int| 0 <= i < s.len() ==> #[trigger] s[i] < 128
}

/// Specification of the Client/Shared stream parser. A frame is
/// `path, delimiter, hexadecimal length, delimiter, contents`; an empty path
/// token (the buffer ends, or opens with the delimiter) is the end-of-stream
/// signal. A length token that is not ASCII is a text error; any other
/// malformed token is a format error.
pub open spec fn cs_parse(s: Seq<u8>) -> Result<Seq<(Seq<u8>, Seq<u8>)>, UnpackingError>
    decreases s.len(),
{
    if s.len() == 0 {
        Ok(Seq::empty())
    } else if s[0] == TERMINATOR_HACK {
        Ok(Seq::empty())
    } else {
        let k1 = find_byte(s, TERMINATOR_HACK);
        if k1 < 0 {
            Err(UnpackingError::FormatError)
        } else {
            let after = s.subrange(k1 + 1, s.len() as int);
            let k2 = find_byte(after, TERMINATOR_HACK);
            if k2 < 0 {
                Err(UnpackingError::FormatError)
            } else {
                let token = s.subrange(k1 + 1, k1 + 1 + k2);
                if !all_ascii(token) {
                    Err(UnpackingError::Utf8Error)
                } else if token.len() == 0 || !all_hex_digits(token) || hex_token_val(token)
                    > u32::MAX {
                    Err(UnpackingError::FormatError)
                } else {
                    let len = hex_token_val(token) as int;
                    let body = k1 + 1 + k2 + 1;
                    if body + len > s.len() {
                        Err(UnpackingError::FormatError)
                    } else {
                        match cs_parse(s.subrange(body + len, s.len() as int)) {
                            Ok(rest) => Ok(
                                seq![(s.take(k1), s.subrange(body, body + len))] + rest,
                            ),
                            Err(e) => Err(e),
                        }
                    }
                }
            }
        }
    }
}

/// Round trip for the Client and Shared realms: parsing an encoded buffer of
/// well-formed files yields exactly their paths and contents, byte for byte.
#[verifier::rlimit(60)]
pub proof fn lemma_cs_round_trip(files: Seq<crate::pack::LuaFile>)
    requires
        crate::pack::cs_wf(files),
    ensures
        cs_parse(crate::pack::frames(files, true)) == Ok::<_, UnpackingError>(
            crate::pack::frame_model(files),
        ),
    decreases files.len(),
{
    if files.len() == 0 {
        assert(crate::pack::frames(files, true) =~= Seq::<u8>::empty());
        assert(crate::pack::frame_model(files) =~= Seq::<(Seq<u8>, Seq<u8>)>::empty());
    } else {
        let f0 = files[0];
        assert(crate::pack::cs_wf_file(f0));
        let p = crate::pack::lua_path_bytes(f0);
        let c = f0.contents@;
        let h = crate::radix::hex_rep(c.len());
        let rest = files.drop_first();
        crate::pack::lemma_frames_first(files, true);
        let s = crate::pack::frames(files, true);
        let fr = crate::pack::frame(f0, true);
        assert(fr == p + seq![TERMINATOR_HACK] + h + seq![TERMINATOR_HACK] + c);
        crate::radix::lemma_hex_rep_digits(c.len());
        crate::radix::lemma_hex_round_trip(c.len());
        let k1 = p.len() as int;
        let k2 = h.len() as int;
        assert(s[0] == p[0]);
        assert(s[k1] == TERMINATOR_HACK);
        assert forall|i: int| 0 <= i < k1 implies s[i] != TERMINATOR_HACK by {
            assert(s[i] == p[i]);
        }
        lemma_find_byte_at(s, TERMINATOR_HACK, k1);
        let after = s.subrange(k1 + 1, s.len() as int);
        assert(after[k2] == s[k1 + 1 + k2]);
        assert(s[k1 + 1 + k2] == TERMINATOR_HACK);
        assert forall|i: int| 0 <= i < k2 implies after[i] != TERMINATOR_HACK by {
            assert(after[i] == s[k1 + 1 + i]);
            assert(s[k1 + 1 + i] == h[i]);
            assert(crate::radix::is_hex_digit(h[i]));
        }
        lemma_find_byte_at(after, TERMINATOR_HACK, k2);
        let token = s.subrange(k1 + 1, k1 + 1 + k2);
        assert(token =~= h);
        assert forall|i: int| 0 <= i < token.len() implies #[trigger] token[i] < 128 by {
            assert(crate::radix::is_hex_digit(h[i]));
        }
        assert(hex_token_val(token) == c.len());
        let body = k1 + 1 + k2 + 1;
        assert(s.subrange(body, body + c.len()) =~= c);
        assert(s.subrange(body + c.len(), s.len() as int) =~= crate::pack::frames(rest, true));
        assert forall|i: int| 0 <= i < rest.len() implies crate::pack::cs_wf_file(
            #[trigger] rest[i],
        ) by {
            assert(rest[i] == files[i + 1]);
        }
        lemma_cs_round_trip(rest);
        assert(s.take(k1) =~= p);
        assert(seq![(p, c)] + crate::pack::frame_model(rest) =~= crate::pack::frame_model(files));
    }
}

/// View of a parsed file list as pairs of byte sequences.
pub open spec fn unpacked_model(files: Seq<UnpackedFile>) -> Seq<(Seq<u8>, Seq<u8>)> {
    files.map_values(|f: UnpackedFile| (f.path@, f.contents@))
}

/// Round trip of a whole packing run, realm by realm: the artifacts a
/// well-formed plan lays out for a cacheable realm unwrap and parse back to
/// exactly the files the realm was packed from, and the Server buffer parses
/// back to exactly its files.
pub proof fn lemma_plan_recovers_files(
    plan: crate::pack::PackPlan,
    style: crate::pack::WrapStyle,
    sv_files: Seq<crate::pack::LuaFile>,
    cl_files: Seq<crate::pack::LuaFile>,
    sh_files: Seq<crate::pack::LuaFile>,
)
    requires
        crate::pack::chunks_ok(style, plan.cl_chunks@),
        crate::pack::unsplit_style(style, plan.cl_chunks@) == Some(plan.realm_buffers@.1),
        crate::pack::chunks_ok(style, plan.sh_chunks@),
        crate::pack::unsplit_style(style, plan.sh_chunks@) == Some(plan.realm_buffers@.2),
        plan.realm_buffers@.0 == crate::pack::frames(sv_files, false),
        plan.realm_buffers@.1 == crate::pack::frames(cl_files, true),
        plan.realm_buffers@.2 == crate::pack::frames(sh_files, true),
        crate::pack::sv_wf(sv_files),
        crate::pack::cs_wf(cl_files),
        crate::pack::cs_wf(sh_files),
    ensures
        sv_parse(plan.realm_buffers@.0) == Ok::<_, UnpackingError>(
            crate::pack::frame_model(sv_files),
        ),
        unsplit_chunks(plan.cl_chunks@) == Some(plan.realm_buffers@.1),
        cs_parse(plan.realm_buffers@.1) == Ok::<_, UnpackingError>(
            crate::pack::frame_model(cl_files),
        ),
        unsplit_chunks(plan.sh_chunks@) == Some(plan.realm_buffers@.2),
        cs_parse(plan.realm_buffers@.2) == Ok::<_, UnpackingError>(
            crate::pack::frame_model(sh_files),
        ),
{
    lemma_sv_round_trip(sv_files);
    lemma_pack_unpack_round_trip(cl_files, style, plan.cl_chunks@);
    lemma_pack_unpack_round_trip(sh_files, style, plan.sh_chunks@);
}

/// Reverses the wrap of one chunk, deciding the strategy from its opening
/// bytes.
pub fn unwrap_chunk(c: &[u8]) -> (r: Result<Vec<u8>, UnpackingError>)
    ensures
        match r {
            Ok(v) => unwrap_chunk_spec(c@) == Some(v@),
            Err(e) => unwrap_chunk_spec(c@) is None && e == UnpackingError::FormatError,
        },
{
    if c.len() >= 2 && *slice_index_get(c, 0) == 45 && *slice_index_get(c, 1) == 45 {
        proof {
            assert(c@.take(2) =~= crate::wrap::comment_marker());
        }
        unwrap_commented_chunk(c)
    } else {
        proof {
            if c@.len() >= 2 && c@.take(2) == crate::wrap::comment_marker() {
                assert(c@.take(2)[0] == c@[0] && c@.take(2)[1] == c@[1]);
                assert(false);
            }
        }
        unwrap_escaped_chunk(c)
    }
}

/// Reverses the wrap of every chunk artifact of one cacheable realm, in
/// index order, concatenates, and parses the recovered buffer back into its
/// files.
pub fn parse_packed_files(packed_files: &Vec<Vec<u8>>) -> (r: Result<
    Vec<UnpackedFile>,
    UnpackingError,
>)
    ensures
        match r {
            Ok(files) => ({
                &&& unsplit_chunks(packed_files@.map_values(|c: Vec<u8>| c@)) is Some
                &&& cs_parse(unsplit_chunks(packed_files@.map_values(|c: Vec<u8>| c@))->Some_0)
                    == Ok::<_, UnpackingError>(unpacked_model(files@))
            }),
            Err(e) => match unsplit_chunks(packed_files@.map_values(|c: Vec<u8>| c@)) {
                Some(buf) => cs_parse(buf) == Err::<Seq<(Seq<u8>, Seq<u8>)>, _>(e),
                None => e == UnpackingError::FormatError,
            },
        },
{
    let ghost cs = packed_files@.map_values(|c: Vec<u8>| c@);
    let n = packed_files.len();
    let mut superchunk: Vec<u8> = Vec::new();
    let mut i: usize = 0;
    proof {
        assert(cs.take(0) =~= Seq::<Seq<u8>>::empty());
        assert(unsplit_chunks(cs.take(0)) == Some(Seq::<u8>::empty()));
        assert(superchunk@ =~= Seq::<u8>::empty());
    }
    while i < n
        invariant
            n == packed_files@.len(),
            cs == packed_files@.map_values(|c: Vec<u8>| c@),
            0 <= i <= n,
            unsplit_chunks(cs.take(i as int)) == Some(superchunk@),
        decreases n - i,
    {
        let piece = match unwrap_chunk(packed_files[i].as_slice()) {
            Ok(v) => v,
            Err(e) => {
                proof {
                    lemma_unsplit_chunks_snoc(cs.take(i as int), cs[i as int]);
                    assert(cs.take(i + 1) =~= cs.take(i as int).push(cs[i as int]));
                    assert(unsplit_chunks(cs.take(i + 1)) is None);
                    lemma_unsplit_none_prefix(cs, i + 1);
                }
                return Err(e);
            },
        };
        superchunk.extend_from_slice(piece.as_slice());
        proof {
            lemma_unsplit_chunks_snoc(cs.take(i as int), cs[i as int]);
            assert(cs.take(i + 1) =~= cs.take(i as int).push(cs[i as int]));
        }
        i = i + 1;
    }
    proof {
        assert(cs.take(n as int) =~= cs);
    }
    parse_cs_packed(superchunk.as_slice())
}

/// Once some prefix of the chunk list fails to unwrap, the whole list does.
proof fn lemma_unsplit_none_prefix(cs: Seq<Seq<u8>>, k: int)
    requires
        0 <= k <= cs.len(),
        unsplit_chunks(cs.take(k)) is None,
    ensures
        unsplit_chunks(cs) is None,
    decreases cs.len() - k,
{
    if k == cs.len() {
        assert(cs.take(k) =~= cs);
    } else {
        lemma_unsplit_chunks_snoc(cs.take(k), cs[k]);
        assert(cs.take(k + 1) =~= cs.take(k).push(cs[k]));
        lemma_unsplit_none_prefix(cs, k + 1);
    }
}

/// Round trip for the Server realm: parsing an encoded buffer of well-formed
/// files yields exactly their paths and contents, byte for byte.
pub proof fn lemma_sv_round_trip(files: Seq<crate::pack::LuaFile>)
    requires
        crate::pack::sv_wf(files),
    ensures
        sv_parse(crate::pack::frames(files, false)) == Ok::<_, UnpackingError>(
            crate::pack::frame_model(files),
        ),
    decreases files.len(),
{
    vstd::bytes::lemma_auto_spec_u32_to_from_le_bytes();
    if files.len() == 0 {
        assert(crate::pack::frames(files, false) =~= Seq::<u8>::empty());
        assert(crate::pack::frame_model(files) =~= Seq::<(Seq<u8>, Seq<u8>)>::empty());
    } else {
        let f0 = files[0];
        assert(crate::pack::sv_wf_file(f0));
        let p = crate::pack::lua_path_bytes(f0);
        let c = f0.contents@;
        let le = vstd::bytes::spec_u32_to_le_bytes(c.len() as u32);
        let rest = files.drop_first();
        crate::pack::lemma_frames_first(files, false);
        let s = crate::pack::frames(files, false);
        let fr = crate::pack::frame(f0, false);
        assert(fr == p + seq![0u8] + le + c);
        assert(le.len() == 4);
        let k = p.len() as int;
        assert(s[0] == p[0]);
        assert(s[k] == 0);
        assert forall|i: int| 0 <= i < k implies s[i] != 0 by {
            assert(s[i] == p[i]);
        }
        lemma_find_byte_at(s, 0, k);
        assert(s.subrange(k + 1, k + 5) =~= le);
        assert(vstd::bytes::spec_u32_from_le_bytes(le) == c.len() as u32);
        assert(s.subrange(k + 5, k + 5 + c.len()) =~= c);
        assert(s.subrange(k + 5 + c.len(), s.len() as int) =~= crate::pack::frames(rest, false));
        assert forall|i: int| 0 <= i < rest.len() implies crate::pack::sv_wf_file(
            #[trigger] rest[i],
        ) by {
            assert(rest[i] == files[i + 1]);
        }
        lemma_sv_round_trip(rest);
        assert(s.take(k) =~= p);
        assert(seq![(p, c)] + crate::pack::frame_model(rest) =~= crate::pack::frame_model(files));
    }
}

/// Reverses the wrap of one chunk, deciding the strategy from the chunk's
/// own opening bytes: the two-byte marker means a line-comment wrap, anything
/// else is read as an escaped literal.
pub open spec fn unwrap_chunk_spec(c: Seq<u8>) -> Option<Seq<u8>> {
    if c.len() >= 2 && c.take(2) == crate::wrap::comment_marker() {
        crate::wrap::unwrap_commented(c)
    } else {
        crate::wrap::unwrap_escaped(c)
    }
}

/// Unwraps every chunk and concatenates in index order.
pub open spec fn unsplit_chunks(cs: Seq<Seq<u8>>) -> Option<Seq<u8>>
    decreases cs.len(),
{
    if cs.len() == 0 {
        Some(Seq::empty())
    } else {
        match unwrap_chunk_spec(cs[0]) {
            Some(piece) => match unsplit_chunks(cs.drop_first()) {
                Some(rest) => Some(piece + rest),
                None => None,
            },
            None => None,
        }
    }
}

pub proof fn lemma_unsplit_chunks_snoc(cs: Seq<Seq<u8>>, c: Seq<u8>)
    ensures
        unsplit_chunks(cs.push(c)) == (match (unsplit_chunks(cs), unwrap_chunk_spec(c)) {
            (Some(a), Some(p)) => Some(a + p),
            _ => None,
        }),
    decreases cs.len(),
{
    if cs.len() == 0 {
        assert(cs.push(c)[0] == c);
        assert(cs.push(c).drop_first() =~= Seq::<Seq<u8>>::empty());
        assert(unsplit_chunks(Seq::<Seq<u8>>::empty()) == Some(Seq::<u8>::empty()));
        match unwrap_chunk_spec(c) {
            Some(p) => {
                assert(p + Seq::<u8>::empty() =~= p);
                assert(Seq::<u8>::empty() + p =~= p);
            },
            None => {},
        }
    } else {
        lemma_unsplit_chunks_snoc(cs.drop_first(), c);
        assert(cs.push(c)[0] == cs[0]);
        assert(cs.push(c).drop_first() =~= cs.drop_first().push(c));
        match (unwrap_chunk_spec(cs[0]), unsplit_chunks(cs.drop_first()), unwrap_chunk_spec(c)) {
            (Some(p0), Some(rest0), Some(p)) => {
                assert(p0 + (rest0 + p) =~= (p0 + rest0) + p);
            },
            _ => {},
        }
    }
}

/// Dispatching by prefix agrees with the escaped-literal unwrap on a list of
/// well-formed escaped-literal chunks.
pub proof fn lemma_unsplit_chunks_escaped(cs: Seq<Seq<u8>>)
    requires
        forall|i: int| 0 <= i < cs.len() ==> crate::wrap::escaped_chunk_ok(#[trigger] cs[i]),
    ensures
        unsplit_chunks(cs) == crate::wrap::unsplit_escaped(cs),
    decreases cs.len(),
{
    if cs.len() > 0 {
        assert(crate::wrap::escaped_chunk_ok(cs[0]));
        assert(cs[0].take(7)[0] == cs[0][0]);
        assert(cs[0][0] == 114);
        if cs[0].len() >= 2 && cs[0].take(2) == crate::wrap::comment_marker() {
            assert(cs[0].take(2)[0] == cs[0][0]);
            assert(false);
        }
        assert forall|i: int|
            0 <= i < cs.drop_first().len() implies crate::wrap::escaped_chunk_ok(
            #[trigger] cs.drop_first()[i],
        ) by {
            assert(cs.drop_first()[i] == cs[i + 1]);
        }
        lemma_unsplit_chunks_escaped(cs.drop_first());
    }
}

/// Dispatching by prefix agrees with the line-comment unwrap on a list of
/// well-formed line-comment chunks.
pub proof fn lemma_unsplit_chunks_commented(cs: Seq<Seq<u8>>)
    requires
        forall|i: int| 0 <= i < cs.len() ==> crate::wrap::commented_chunk_ok(#[trigger] cs[i]),
    ensures
        unsplit_chunks(cs) == crate::wrap::unsplit_commented(cs),
    decreases cs.len(),
{
    if cs.len() > 0 {
        assert(crate::wrap::commented_chunk_ok(cs[0]));
        assert forall|i: int|
            0 <= i < cs.drop_first().len() implies crate::wrap::commented_chunk_ok(
            #[trigger] cs.drop_first()[i],
        ) by {
            assert(cs.drop_first()[i] == cs[i + 1]);
        }
        lemma_unsplit_chunks_commented(cs.drop_first());
    }
}

/// Round trip of the whole cacheable pipeline: any chunk list that wraps a
/// realm's encoded buffer — as the splitter's contract guarantees of its
/// output — unwraps and parses back to exactly the original files' paths and
/// contents, byte for byte.
pub proof fn lemma_pack_unpack_round_trip(
    files: Seq<crate::pack::LuaFile>,
    style: crate::pack::WrapStyle,
    cs: Seq<Seq<u8>>,
)
    requires
        crate::pack::cs_wf(files),
        crate::pack::chunks_ok(style, cs),
        crate::pack::unsplit_style(style, cs) == Some(crate::pack::frames(files, true)),
    ensures
        unsplit_chunks(cs) == Some(crate::pack::frames(files, true)),
        cs_parse(crate::pack::frames(files, true)) == Ok::<_, UnpackingError>(
            crate::pack::frame_model(files),
        ),
{
    match style {
        crate::pack::WrapStyle::EscapedLiteral => lemma_unsplit_chunks_escaped(cs),
        crate::pack::WrapStyle::LineComment => lemma_unsplit_chunks_commented(cs),
    }
    lemma_cs_round_trip(files);
}

/// Reverses the line-comment wrap of one chunk.
pub fn unwrap_commented_chunk(c: &[u8]) -> (r: Result<Vec<u8>, UnpackingError>)
    ensures
        match r {
            Ok(v) => crate::wrap::unwrap_commented(c@) == Some(v@),
            Err(e) => crate::wrap::unwrap_commented(c@) is None && e
                == UnpackingError::FormatError,
        },
{
    let n = c.len();
    if n < 2 || *slice_index_get(c, 0) != 45 || *slice_index_get(c, 1) != 45 {
        proof {
            if c@.len() >= 2 {
                assert(c@.take(2)[0] == c@[0] && c@.take(2)[1] == c@[1]);
                assert(c@.take(2) != crate::wrap::comment_marker());
            }
        }
        return Err(UnpackingError::FormatError);
    }
    proof {
        assert(c@.take(2) =~= crate::wrap::comment_marker());
    }
    let ghost payload = c@.subrange(2, n as int);
    let mut acc: Vec<u8> = Vec::new();
    let mut pos: usize = 2;
    proof {
        assert(c@.subrange(2, n as int) =~= payload);
        if crate::wrap::strip_comments(payload) is Some {
            assert(acc@ + crate::wrap::strip_comments(payload)->Some_0
                =~= crate::wrap::strip_comments(payload)->Some_0);
        }
    }
    while pos < n
        invariant
            2 <= pos <= n,
            n == c@.len(),
            payload == c@.subrange(2, n as int),
            ({
                let suffix = c@.subrange(pos as int, n as int);
                match crate::wrap::strip_comments(suffix) {
                    Some(rest) => crate::wrap::strip_comments(payload) == Some(acc@ + rest),
                    None => crate::wrap::strip_comments(payload) is None,
                }
            }),
        decreases n - pos,
    {
        let ghost suffix = c@.subrange(pos as int, n as int);
        let b = *slice_index_get(c, pos);
        proof {
            assert(suffix[0] == b);
        }
        if b == 10 {
            if n - pos > 2 && *slice_index_get(c, pos + 1) == 45 && *slice_index_get(c, pos + 2)
                == 45 {
                proof {
                    assert(suffix[1] == c@[pos + 1] && suffix[2] == c@[pos + 2]);
                    assert(c@.subrange(pos + 3, n as int) =~= suffix.subrange(
                        3,
                        suffix.len() as int,
                    ));
                }
                acc.push(10);
                proof {
                    let next = c@.subrange(pos + 3, n as int);
                    match crate::wrap::strip_comments(next) {
                        Some(rest) => {
                            assert(acc@.drop_last() + (seq![10u8] + rest) =~= acc@ + rest);
                        },
                        None => {},
                    }
                }
                pos = pos + 3;
            } else {
                proof {
                    if pos + 2 < n {
                        assert(suffix[1] == c@[pos + 1] && suffix[2] == c@[pos + 2]);
                    }
                    assert(crate::wrap::strip_comments(suffix) is None);
                }
                return Err(UnpackingError::FormatError);
            }
        } else {
            proof {
                assert(c@.subrange(pos + 1, n as int) =~= suffix.subrange(
                    1,
                    suffix.len() as int,
                ));
            }
            acc.push(b);
            proof {
                let next = c@.subrange(pos + 1, n as int);
                match crate::wrap::strip_comments(next) {
                    Some(rest) => {
                        assert(acc@.drop_last() + (seq![b] + rest) =~= acc@ + rest);
                    },
                    None => {},
                }
            }
            pos = pos + 1;
        }
    }
    proof {
        let suffix = c@.subrange(pos as int, n as int);
        assert(suffix.len() == 0);
        assert(acc@ + Seq::<u8>::empty() =~= acc@);
    }
    Ok(acc)
}

/// Reverses the escaped-literal wrap of one chunk.
#[verifier::rlimit(60)]
pub fn unwrap_escaped_chunk(c: &[u8]) -> (r: Result<Vec<u8>, UnpackingError>)
    ensures
        match r {
            Ok(v) => crate::wrap::unwrap_escaped(c@) == Some(v@),
            Err(e) => crate::wrap::unwrap_escaped(c@) is None && e == UnpackingError::FormatError,
        },
{
    let n = c.len();
    if n < 8 {
        return Err(UnpackingError::FormatError);
    }
    let p0 = *slice_index_get(c, 0);
    let p1 = *slice_index_get(c, 1);
    let p2 = *slice_index_get(c, 2);
    let p3 = *slice_index_get(c, 3);
    let p4 = *slice_index_get(c, 4);
    let p5 = *slice_index_get(c, 5);
    let p6 = *slice_index_get(c, 6);
    if p0 != 114 || p1 != 101 || p2 != 116 || p3 != 117 || p4 != 114 || p5 != 110 || p6 != 34 {
        proof {
            assert(c@.take(7)[0] == c@[0] && c@.take(7)[1] == c@[1] && c@.take(7)[2] == c@[2]
                && c@.take(7)[3] == c@[3] && c@.take(7)[4] == c@[4] && c@.take(7)[5] == c@[5]
                && c@.take(7)[6] == c@[6]);
            assert(c@.take(7) != crate::wrap::ret_quote());
        }
        return Err(UnpackingError::FormatError);
    }
    if *slice_index_get(c, n - 1) != 34 {
        return Err(UnpackingError::FormatError);
    }
    proof {
        assert(c@.take(7) =~= crate::wrap::ret_quote());
    }
    let m = n - 1;
    let ghost payload = c@.subrange(7, m as int);
    let mut acc: Vec<u8> = Vec::new();
    let mut pos: usize = 7;
    proof {
        if crate::wrap::unescape(payload) is Some {
            assert(acc@ + crate::wrap::unescape(payload)->Some_0 =~= crate::wrap::unescape(
                payload,
            )->Some_0);
        }
    }
    while pos < m
        invariant
            7 <= pos <= m,
            m == n - 1,
            n == c@.len(),
            n >= 8,
            payload == c@.subrange(7, m as int),
            ({
                let suffix = c@.subrange(pos as int, m as int);
                match crate::wrap::unescape(suffix) {
                    Some(rest) => crate::wrap::unescape(payload) == Some(acc@ + rest),
                    None => crate::wrap::unescape(payload) is None,
                }
            }),
        decreases m - pos,
    {
        let ghost suffix = c@.subrange(pos as int, m as int);
        let b = *slice_index_get(c, pos);
        proof {
            assert(suffix[0] == b);
        }
        if b == 92 {
            if pos + 1 >= m {
                proof {
                    assert(suffix.len() == 1);
                    assert(crate::wrap::unescape(suffix) is None);
                }
                return Err(UnpackingError::FormatError);
            }
            let d = *slice_index_get(c, pos + 1);
            proof {
                assert(suffix[1] == d);
            }
            if d == 110 {
                proof {
                    assert(c@.subrange(pos + 2, m as int) =~= suffix.subrange(
                        2,
                        suffix.len() as int,
                    ));
                }
                acc.push(10);
                proof {
                    let next = c@.subrange(pos + 2, m as int);
                    match crate::wrap::unescape(next) {
                        Some(rest) => {
                            assert(acc@.drop_last() + (seq![10u8] + rest) =~= acc@ + rest);
                        },
                        None => {},
                    }
                }
                pos = pos + 2;
            } else if 48 <= d && d <= 57 {
                let mut v: u32 = (d - 48) as u32;
                let mut adv: usize = 2;
                let ghost mut dd: int = 1;
                if m - pos > 2 && 48 <= *slice_index_get(c, pos + 2) && *slice_index_get(c, pos + 2)
                    <= 57 {
                    v = v * 10 + (*slice_index_get(c, pos + 2) - 48) as u32;
                    adv = 3;
                    proof {
                        dd = 2;
                        assert(suffix[2] == c@[pos + 2]);
                    }
                    if m - pos > 3 && 48 <= *slice_index_get(c, pos + 3) && *slice_index_get(
                        c,
                        pos + 3,
                    ) <= 57 {
                        v = v * 10 + (*slice_index_get(c, pos + 3) - 48) as u32;
                        adv = 4;
                        proof {
                            dd = 3;
                            assert(suffix[3] == c@[pos + 3]);
                        }
                    } else {
                        proof {
                            if m - pos > 3 {
                                assert(suffix[3] == c@[pos + 3]);
                            }
                        }
                    }
                } else {
                    proof {
                        if m - pos > 2 {
                            assert(suffix[2] == c@[pos + 2]);
                        }
                    }
                }
                proof {
                    let t = suffix.subrange(1, 1 + dd);
                    assert forall|x: int| 0 <= x < t.len() implies crate::radix::is_dec_digit(
                        #[trigger] t[x],
                    ) by {
                        assert(t[x] == suffix[1 + x]);
                    }
                    crate::radix::lemma_dec_token_val3(t);
                    assert(t[0] == suffix[1]);
                    if dd >= 2 {
                        assert(t[1] == suffix[2]);
                    }
                    if dd == 3 {
                        assert(t[2] == suffix[3]);
                    }
                    assert(crate::radix::dec_token_val(t) == v);
                }
                if v > 255 {
                    proof {
                        assert(crate::wrap::unescape(suffix) is None);
                    }
                    return Err(UnpackingError::FormatError);
                }
                proof {
                    assert(c@.subrange(pos + adv, m as int) =~= suffix.subrange(
                        1 + dd,
                        suffix.len() as int,
                    ));
                }
                acc.push(v as u8);
                proof {
                    let next = c@.subrange(pos + adv, m as int);
                    match crate::wrap::unescape(next) {
                        Some(rest) => {
                            assert(acc@.drop_last() + (seq![(v as u8)] + rest) =~= acc@ + rest);
                        },
                        None => {},
                    }
                }
                pos = pos + adv;
            } else {
                proof {
                    assert(c@.subrange(pos + 2, m as int) =~= suffix.subrange(
                        2,
                        suffix.len() as int,
                    ));
                }
                acc.push(d);
                proof {
                    let next = c@.subrange(pos + 2, m as int);
                    match crate::wrap::unescape(next) {
                        Some(rest) => {
                            assert(acc@.drop_last() + (seq![d] + rest) =~= acc@ + rest);
                        },
                        None => {},
                    }
                }
                pos = pos + 2;
            }
        } else {
            proof {
                assert(c@.subrange(pos + 1, m as int) =~= suffix.subrange(
                    1,
                    suffix.len() as int,
                ));
            }
            acc.push(b);
            proof {
                let next = c@.subrange(pos + 1, m as int);
                match crate::wrap::unescape(next) {
                    Some(rest) => {
                        assert(acc@.drop_last() + (seq![b] + rest) =~= acc@ + rest);
                    },
                    None => {},
                }
            }
            pos = pos + 1;
        }
    }
    proof {
        let suffix = c@.subrange(pos as int, m as int);
        assert(suffix.len() == 0);
        assert(acc@ + Seq::<u8>::empty() =~= acc@);
    }
    Ok(acc)
}

/// Parses a whole Server-realm packed buffer back into its files.
pub fn parse_sv_packed(s: &[u8]) -> (r: Result<Vec<UnpackedFile>, UnpackingError>)
    ensures
        match r {
            Ok(files) => sv_parse(s@) == Ok::<_, UnpackingError>(unpacked_model(files@)),
            Err(e) => sv_parse(s@) == Err::<Seq<(Seq<u8>, Seq<u8>)>, _>(e),
        },
{
    let n = s.len();
    let mut pos: usize = 0;
    let mut acc: Vec<UnpackedFile> = Vec::new();
    proof {
        assert(s@.subrange(0, n as int) =~= s@);
        if sv_parse(s@) is Ok {
            assert(unpacked_model(acc@) + sv_parse(s@)->Ok_0 =~= sv_parse(s@)->Ok_0);
        }
    }
    while pos < n
        invariant
            0 <= pos <= n,
            n == s@.len(),
            ({
                let suffix = s@.subrange(pos as int, n as int);
                match sv_parse(suffix) {
                    Ok(rest) => sv_parse(s@) == Ok::<_, UnpackingError>(
                        unpacked_model(acc@) + rest,
                    ),
                    Err(e) => sv_parse(s@) == Err::<Seq<(Seq<u8>, Seq<u8>)>, _>(e),
                }
            }),
        decreases n - pos,
    {
        let ghost suffix = s@.subrange(pos as int, n as int);
        if *slice_index_get(s, pos) == 0 {
            proof {
                assert(suffix[0] == 0);
                assert(sv_parse(suffix) == Ok::<_, UnpackingError>(
                    Seq::<(Seq<u8>, Seq<u8>)>::empty(),
                ));
                assert(unpacked_model(acc@) + Seq::<(Seq<u8>, Seq<u8>)>::empty() =~= unpacked_model(
                    acc@,
                ));
            }
            return Ok(acc);
        }
        // Scan for the NUL that terminates the path token.
        let mut k: usize = pos;
        while k < n && *slice_index_get(s, k) != 0
            invariant
                pos <= k <= n,
                n == s@.len(),
                forall|i: int| pos <= i < k ==> s@[i] != 0,
            decreases n - k,
        {
            k = k + 1;
        }
        if k == n {
            proof {
                assert forall|i: int| 0 <= i < suffix.len() implies suffix[i] != 0 by {
                    assert(suffix[i] == s@[pos + i]);
                }
                lemma_find_byte_none(suffix, 0);
            }
            return Err(UnpackingError::FormatError);
        }
        proof {
            assert(suffix[k - pos] == s@[k as int]);
            assert forall|i: int| 0 <= i < k - pos implies suffix[i] != 0 by {
                assert(suffix[i] == s@[pos + i]);
            }
            lemma_find_byte_at(suffix, 0, k - pos);
        }
        if n - k < 5 {
            return Err(UnpackingError::FormatError);
        }
        let len = vstd::bytes::u32_from_le_bytes(slice_subrange(s, k + 1, k + 5));
        proof {
            assert(s@.subrange(k + 1, k + 5) =~= suffix.subrange(
                k - pos + 1,
                k - pos + 5,
            ));
        }
        if (len as usize) > n - (k + 5) {
            return Err(UnpackingError::FormatError);
        }
        let path = slice_to_vec(slice_subrange(s, pos, k));
        let contents = slice_to_vec(slice_subrange(s, k + 5, k + 5 + len as usize));
        let newpos = k + 5 + len as usize;
        proof {
            let kk = k - pos;
            let ln = len as int;
            assert(suffix.take(kk) =~= s@.subrange(pos as int, k as int));
            assert(suffix.subrange(kk + 5, kk + 5 + ln) =~= s@.subrange(
                k + 5,
                k + 5 + ln,
            ));
            assert(suffix.subrange(kk + 5 + ln, suffix.len() as int) =~= s@.subrange(
                newpos as int,
                n as int,
            ));
        }
        proof {
            let kk = k - pos;
            let ln = len as int;
            let next_suffix = s@.subrange(newpos as int, n as int);
            assert(suffix.len() > 0 && suffix[0] != 0);
            assert(find_byte(suffix, 0) == kk);
            assert(sv_parse(suffix) == (match sv_parse(next_suffix) {
                Ok(rest) => Ok::<_, UnpackingError>(
                    seq![(suffix.take(kk), suffix.subrange(kk + 5, kk + 5 + ln))] + rest,
                ),
                Err(e) => Err::<Seq<(Seq<u8>, Seq<u8>)>, _>(e),
            }));
        }
        let ghost pre_acc = acc@;
        let ghost f = (path@, contents@);
        acc.push(UnpackedFile { path, contents });
        proof {
            let kk = k - pos;
            let ln = len as int;
            assert(acc@ == pre_acc.push(UnpackedFile { path: acc@.last().path, contents: acc@.last().contents }));
            assert(f == (suffix.take(kk), suffix.subrange(kk + 5, kk + 5 + ln)));
            assert(unpacked_model(acc@) =~= unpacked_model(pre_acc).push(f));
            let next_suffix = s@.subrange(newpos as int, n as int);
            match sv_parse(next_suffix) {
                Ok(rest) => {
                    assert(sv_parse(suffix) == Ok::<_, UnpackingError>(seq![f] + rest));
                    assert(sv_parse(s@) == Ok::<_, UnpackingError>(
                        unpacked_model(pre_acc) + (seq![f] + rest),
                    ));
                    assert(unpacked_model(pre_acc) + (seq![f] + rest) =~= unpacked_model(acc@)
                        + rest);
                },
                Err(_) => {},
            }
        }
        pos = newpos;
    }
    proof {
        let suffix = s@.subrange(pos as int, n as int);
        assert(suffix.len() == 0);
        assert(unpacked_model(acc@) + Seq::<(Seq<u8>, Seq<u8>)>::empty() =~= unpacked_model(acc@));
    }
    Ok(acc)
}

/// Parses a whole Client- or Shared-realm packed buffer back into its files.
#[verifier::rlimit(100)]
pub fn parse_cs_packed(s: &[u8]) -> (r: Result<Vec<UnpackedFile>, UnpackingError>)
    ensures
        match r {
            Ok(files) => cs_parse(s@) == Ok::<_, UnpackingError>(unpacked_model(files@)),
            Err(e) => cs_parse(s@) == Err::<Seq<(Seq<u8>, Seq<u8>)>, _>(e),
        },
{
    let n = s.len();
    let mut pos: usize = 0;
    let mut acc: Vec<UnpackedFile> = Vec::new();
    proof {
        assert(s@.subrange(0, n as int) =~= s@);
        if cs_parse(s@) is Ok {
            assert(unpacked_model(acc@) + cs_parse(s@)->Ok_0 =~= cs_parse(s@)->Ok_0);
        }
    }
    while pos < n
        invariant
            0 <= pos <= n,
            n == s@.len(),
            ({
                let suffix = s@.subrange(pos as int, n as int);
                match cs_parse(suffix) {
                    Ok(rest) => cs_parse(s@) == Ok::<_, UnpackingError>(
                        unpacked_model(acc@) + rest,
                    ),
                    Err(e) => cs_parse(s@) == Err::<Seq<(Seq<u8>, Seq<u8>)>, _>(e),
                }
            }),
        decreases n - pos,
    {
        let ghost suffix = s@.subrange(pos as int, n as int);
        if *slice_index_get(s, pos) == TERMINATOR_HACK {
            proof {
                assert(suffix[0] == TERMINATOR_HACK);
                assert(unpacked_model(acc@) + Seq::<(Seq<u8>, Seq<u8>)>::empty() =~= unpacked_model(
                    acc@,
                ));
            }
            return Ok(acc);
        }
        // Scan for the delimiter that terminates the path token.
        let mut k1: usize = pos;
        while k1 < n && *slice_index_get(s, k1) != TERMINATOR_HACK
            invariant
                pos <= k1 <= n,
                n == s@.len(),
                forall|i: int| pos <= i < k1 ==> s@[i] != TERMINATOR_HACK,
            decreases n - k1,
        {
            k1 = k1 + 1;
        }
        if k1 == n {
            proof {
                assert forall|i: int| 0 <= i < suffix.len() implies suffix[i] != TERMINATOR_HACK by {
                    assert(suffix[i] == s@[pos + i]);
                }
                lemma_find_byte_none(suffix, TERMINATOR_HACK);
            }
            return Err(UnpackingError::FormatError);
        }
        proof {
            assert(suffix[k1 - pos] == s@[k1 as int]);
            assert forall|i: int| 0 <= i < k1 - pos implies suffix[i] != TERMINATOR_HACK by {
                assert(suffix[i] == s@[pos + i]);
            }
            lemma_find_byte_at(suffix, TERMINATOR_HACK, k1 - pos);
        }
        // Scan for the delimiter that terminates the length token.
        let mut k2: usize = k1 + 1;
        while k2 < n && *slice_index_get(s, k2) != TERMINATOR_HACK
            invariant
                k1 + 1 <= k2 <= n,
                n == s@.len(),
                forall|i: int| k1 + 1 <= i < k2 ==> s@[i] != TERMINATOR_HACK,
            decreases n - k2,
        {
            k2 = k2 + 1;
        }
        let ghost after = suffix.subrange(k1 - pos + 1, suffix.len() as int);
        if k2 == n {
            proof {
                assert forall|i: int| 0 <= i < after.len() implies after[i] != TERMINATOR_HACK by {
                    assert(after[i] == s@[k1 + 1 + i]);
                }
                lemma_find_byte_none(after, TERMINATOR_HACK);
            }
            return Err(UnpackingError::FormatError);
        }
        proof {
            assert(after[k2 - (k1 + 1)] == s@[k2 as int]);
            assert forall|i: int| 0 <= i < k2 - (k1 + 1) implies after[i] != TERMINATOR_HACK by {
                assert(after[i] == s@[k1 + 1 + i]);
            }
            lemma_find_byte_at(after, TERMINATOR_HACK, k2 - (k1 + 1));
        }
        let ghost token = suffix.subrange(k1 - pos + 1, k1 - pos + 1 + (k2 - (k1 + 1)));
        proof {
            assert(token =~= s@.subrange(k1 + 1, k2 as int));
        }
        // A non-ASCII length token is a text error, not a format error.
        let mut j: usize = k1 + 1;
        while j < k2 && *slice_index_get(s, j) < 128
            invariant
                k1 + 1 <= j <= k2 <= n,
                n == s@.len(),
                forall|i: int| k1 + 1 <= i < j ==> s@[i] < 128,
            decreases k2 - j,
        {
            j = j + 1;
        }
        if j < k2 {
            proof {
                assert(s@[j as int] >= 128);
                assert(token[j - (k1 + 1)] == s@[j as int]);
                assert(!all_ascii(token));
            }
            return Err(UnpackingError::Utf8Error);
        }
        proof {
            assert forall|i: int| 0 <= i < token.len() implies #[trigger] token[i] < 128 by {
                assert(token[i] == s@[k1 + 1 + i]);
            }
        }
        let len = match crate::radix::parse_hex_u32(s, k1 + 1, k2) {
            Some(v) => v,
            None => {
                return Err(UnpackingError::FormatError);
            },
        };
        if (len as usize) > n - (k2 + 1) {
            return Err(UnpackingError::FormatError);
        }
        let path = slice_to_vec(slice_subrange(s, pos, k1));
        let contents = slice_to_vec(slice_subrange(s, k2 + 1, k2 + 1 + len as usize));
        let newpos = k2 + 1 + len as usize;
        proof {
            let kk1 = k1 - pos;
            let kk2 = k2 - (k1 + 1);
            let ln = len as int;
            let body = kk1 + 1 + kk2 + 1;
            assert(suffix.take(kk1) =~= s@.subrange(pos as int, k1 as int));
            assert(suffix.subrange(body, body + ln) =~= s@.subrange(k2 + 1, k2 + 1 + ln));
            assert(suffix.subrange(body + ln, suffix.len() as int) =~= s@.subrange(
                newpos as int,
                n as int,
            ));
        }
        let ghost f = (path@, contents@);
        let ghost pre_acc = acc@;
        acc.push(UnpackedFile { path, contents });
        proof {
            let kk1 = k1 - pos;
            let kk2 = k2 - (k1 + 1);
            let ln = len as int;
            let body = kk1 + 1 + kk2 + 1;
            let next_suffix = s@.subrange(newpos as int, n as int);
            assert(suffix.len() > 0 && suffix[0] != TERMINATOR_HACK);
            assert(find_byte(suffix, TERMINATOR_HACK) == kk1);
            assert(find_byte(after, TERMINATOR_HACK) == kk2);
            assert(f == (suffix.take(kk1), suffix.subrange(body, body + ln)));
            assert(cs_parse(suffix) == (match cs_parse(next_suffix) {
                Ok(rest) => Ok::<_, UnpackingError>(
                    seq![(suffix.take(kk1), suffix.subrange(body, body + ln))] + rest,
                ),
                Err(e) => Err::<Seq<(Seq<u8>, Seq<u8>)>, _>(e),
            }));
            assert(unpacked_model(acc@) =~= unpacked_model(pre_acc).push(f));
            match cs_parse(next_suffix) {
                Ok(rest) => {
                    assert(cs_parse(suffix) == Ok::<_, UnpackingError>(seq![f] + rest));
                    assert(cs_parse(s@) == Ok::<_, UnpackingError>(
                        unpacked_model(pre_acc) + (seq![f] + rest),
                    ));
                    assert(unpacked_model(pre_acc) + (seq![f] + rest) =~= unpacked_model(acc@)
                        + rest);
                },
                Err(_) => {},
            }
        }
        pos = newpos;
    }
    proof {
        let suffix = s@.subrange(pos as int, n as int);
        assert(suffix.len() == 0);
        assert(unpacked_model(acc@) + Seq::<(Seq<u8>, Seq<u8>)>::empty() =~= unpacked_model(acc@));
    }
    Ok(acc)
}

} // verus!
