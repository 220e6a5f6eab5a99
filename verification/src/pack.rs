//! Packing side: script files, the two frame formats, and the realm buffers.

use vstd::prelude::*;
use vstd::utf8::encode_utf8;

use sha2::Digest;

use crate::radix::{hex_char, hex_chars_of, hex_rep};
use crate::TERMINATOR_HACK;

verus! {

/// Failures of the packing pipeline.
#[derive(Debug, Clone)]
pub enum PackingError {
    /// A filesystem failure, reported by the caller driving the filesystem.
    IoError,
    /// A malformed configuration file, reported by the caller that parses it.
    ConfigError,
    /// The named path is included in more than one realm.
    RealmConflict(String),
    /// The inclusion configuration matched no script files at all.
    NoLuaFiles,
    /// The optional compression step failed.
    CompressionError,
}

/// The digest of a byte sequence, as the outside hash routine computes it.
pub uninterp spec fn sha256_of(data: Seq<u8>) -> Seq<u8>;

/// Relies on sha2::Sha256 through the Digest trait: a 32-byte digest that is
/// a function of the input bytes alone.
#[verifier::external_body]
fn sha256(data: &[u8]) -> (r: Vec<u8>)
    ensures
        r@ == sha256_of(data@),
        r@.len() == 32,
{
    sha2::Sha256::digest(data).to_vec()
}

/// One collected script file: a normalized forward-slash relative path and its
/// raw contents.
#[derive(Debug, Clone)]
pub struct LuaFile {
    pub path: String,
    pub contents: Vec<u8>,
}

impl PartialEq for LuaFile {
    /// Files are identified by path alone, as within a realm paths are unique.
    fn eq(&self, other: &Self) -> (r: bool) {
        self.path == other.path
    }
}

impl vstd::std_specs::cmp::PartialEqSpecImpl for LuaFile {
    open spec fn obeys_eq_spec() -> bool {
        true
    }

    open spec fn eq_spec(&self, other: &Self) -> bool {
        self.path@ == other.path@
    }
}

impl Eq for LuaFile {

}

/// UTF-8 bytes of a file's path, as they appear inside a frame.
pub open spec fn lua_path_bytes(f: LuaFile) -> Seq<u8> {
    encode_utf8(f.path@)
}

/// Binary frame used for the Server realm:
/// `path, NUL, little-endian u32 content length, contents`.
pub open spec fn sv_frame(p: Seq<u8>, c: Seq<u8>) -> Seq<u8> {
    p + seq![0u8] + vstd::bytes::spec_u32_to_le_bytes(c.len() as u32) + c
}

/// Delimited frame used for the Client and Shared realms:
/// `path, delimiter, hexadecimal content length, delimiter, contents`.
/// The length is hexadecimal ASCII because the client reads the stream as a
/// NUL-terminated string, so neither NUL nor raw binary may appear in it.
pub open spec fn cs_frame(p: Seq<u8>, c: Seq<u8>) -> Seq<u8> {
    p + seq![TERMINATOR_HACK] + hex_rep(c.len()) + seq![TERMINATOR_HACK] + c
}

pub open spec fn frame(f: LuaFile, client: bool) -> Seq<u8> {
    if client {
        cs_frame(lua_path_bytes(f), f.contents@)
    } else {
        sv_frame(lua_path_bytes(f), f.contents@)
    }
}

/// Concatenation of the frames of `files`, in order: one realm's encoded buffer.
pub open spec fn frames(files: Seq<LuaFile>, client: bool) -> Seq<u8>
    decreases files.len(),
{
    if files.len() == 0 {
        Seq::empty()
    } else {
        frames(files.drop_last(), client) + frame(files.last(), client)
    }
}

/// A buffer of frames can also be peeled from the front.
pub proof fn lemma_frames_first(files: Seq<LuaFile>, client: bool)
    requires
        files.len() > 0,
    ensures
        frames(files, client) == frame(files[0], client) + frames(files.drop_first(), client),
    decreases files.len(),
{
    if files.len() == 1 {
        assert(files.drop_last() =~= Seq::<LuaFile>::empty());
        assert(files.drop_first() =~= Seq::<LuaFile>::empty());
        assert(frames(files, client) =~= frame(files[0], client) + frames(
            files.drop_first(),
            client,
        ));
    } else {
        lemma_frames_first(files.drop_last(), client);
        assert(files.drop_last()[0] == files[0]);
        assert(files.drop_last().drop_first() =~= files.drop_first().drop_last());
        assert(files.drop_first().last() == files.last());
        assert(frames(files, client) =~= frame(files[0], client) + frames(
            files.drop_first(),
            client,
        ));
    }
}

/// Well-formedness a file must have for the Server frame format to be
/// invertible: a nonempty path without NUL bytes, and contents whose length
/// fits the u32 length field.
pub open spec fn sv_wf_file(f: LuaFile) -> bool {
    &&& lua_path_bytes(f).len() > 0
    &&& forall|j: int| 0 <= j < lua_path_bytes(f).len() ==> lua_path_bytes(f)[j] != 0
    &&& f.contents@.len() <= u32::MAX
}

pub open spec fn sv_wf(files: Seq<LuaFile>) -> bool {
    forall|i: int| 0 <= i < files.len() ==> sv_wf_file(#[trigger] files[i])
}

/// Well-formedness for the delimited frame format: a nonempty path without
/// the delimiter byte, and contents whose length fits the parsed u32.
pub open spec fn cs_wf_file(f: LuaFile) -> bool {
    &&& lua_path_bytes(f).len() > 0
    &&& forall|j: int|
        0 <= j < lua_path_bytes(f).len() ==> lua_path_bytes(f)[j] != TERMINATOR_HACK
    &&& f.contents@.len() <= u32::MAX
}

pub open spec fn cs_wf(files: Seq<LuaFile>) -> bool {
    forall|i: int| 0 <= i < files.len() ==> cs_wf_file(#[trigger] files[i])
}

/// The (path bytes, contents) pairs a buffer of frames stands for.
pub open spec fn frame_model(files: Seq<LuaFile>) -> Seq<(Seq<u8>, Seq<u8>)> {
    files.map_values(|f: LuaFile| (lua_path_bytes(f), f.contents@))
}

/// Total number of content bytes across `files`.
pub open spec fn sum_contents(files: Seq<LuaFile>) -> int
    decreases files.len(),
{
    if files.len() == 0 {
        0int
    } else {
        sum_contents(files.drop_last()) + files.last().contents@.len()
    }
}

pub proof fn lemma_sum_contents_prefix(files: Seq<LuaFile>, k: int)
    requires
        0 <= k <= files.len(),
    ensures
        0 <= sum_contents(files.take(k)) <= sum_contents(files),
    decreases files.len(),
{
    if files.len() == 0 {
        assert(files.take(k) =~= files);
    } else if k == files.len() {
        assert(files.take(k) =~= files);
        lemma_sum_contents_prefix(files.drop_last(), files.len() - 1);
        assert(files.drop_last() =~= files.take(files.len() - 1));
    } else {
        lemma_sum_contents_prefix(files.drop_last(), k);
        assert(files.drop_last().take(k) =~= files.take(k));
    }
}

/// Serializes one realm's files into a single contiguous buffer, optionally
/// collecting the file paths alongside. Returns the path list, the encoded
/// buffer, and the total size of the raw contents.
pub fn pack_lua_files(collect_paths: bool, lua_files: &Vec<LuaFile>, is_sent_to_client: bool) -> (r:
    (Vec<String>, Vec<u8>, usize))
    requires
        !is_sent_to_client ==> forall|i: int|
            0 <= i < lua_files@.len() ==> (#[trigger] lua_files@[i]).contents@.len() <= u32::MAX,
        sum_contents(lua_files@) <= usize::MAX,
    ensures
        r.1@ == frames(lua_files@, is_sent_to_client),
        r.2 == sum_contents(lua_files@),
        collect_paths ==> r.0@ == lua_files@.map_values(|f: LuaFile| f.path),
        !collect_paths ==> r.0@.len() == 0,
{
    let mut file_list: Vec<String> = Vec::new();
    let mut superchunk: Vec<u8> = Vec::new();
    let mut total_size: usize = 0;
    let n = lua_files.len();
    let mut i: usize = 0;
    while i < n
        invariant
            n == lua_files@.len(),
            0 <= i <= n,
            !is_sent_to_client ==> forall|j: int|
                0 <= j < lua_files@.len() ==> (#[trigger] lua_files@[j]).contents@.len()
                    <= u32::MAX,
            sum_contents(lua_files@) <= usize::MAX,
            superchunk@ == frames(lua_files@.take(i as int), is_sent_to_client),
            total_size == sum_contents(lua_files@.take(i as int)),
            collect_paths ==> file_list@ == lua_files@.take(i as int).map_values(
                |f: LuaFile| f.path,
            ),
            !collect_paths ==> file_list@.len() == 0,
        decreases n - i,
    {
        let lua_file = &lua_files[i];
        let ghost pre = superchunk@;
        let path_bytes = lua_file.path.as_str().as_bytes_vec();
        superchunk.extend_from_slice(path_bytes.as_slice());
        if is_sent_to_client {
            superchunk.push(TERMINATOR_HACK);
            let len_hex = crate::radix::hex_of_usize(lua_file.contents.len());
            superchunk.extend_from_slice(len_hex.as_slice());
            superchunk.push(TERMINATOR_HACK);
        } else {
            superchunk.push(0);
            let len_le = vstd::bytes::u32_to_le_bytes(lua_file.contents.len() as u32);
            superchunk.extend_from_slice(len_le.as_slice());
        }
        superchunk.extend_from_slice(lua_file.contents.as_slice());
        proof {
            assert(lua_files@.take(i + 1).drop_last() =~= lua_files@.take(i as int));
            assert(lua_files@.take(i + 1).last() == lua_files@[i as int]);
            assert(superchunk@ =~= pre + frame(lua_files@[i as int], is_sent_to_client));
            lemma_sum_contents_prefix(lua_files@, i + 1);
        }
        if collect_paths {
            file_list.push(lua_file.path.clone());
            proof {
                assert(lua_files@.take(i + 1).map_values(|f: LuaFile| f.path) =~= lua_files@.take(
                    i as int,
                ).map_values(|f: LuaFile| f.path).push(lua_files@[i as int].path));
            }
        }
        total_size = total_size + lua_file.contents.len();
        i = i + 1;
    }
    proof {
        assert(lua_files@.take(n as int) =~= lua_files@);
    }
    (file_list, superchunk, total_size)
}

/// The version id derived from the three realm buffers, in the fixed order
/// Server, Shared, Client: the first sixteen hexadecimal characters of their
/// concatenation's digest.
pub open spec fn unique_id_of(sv: Seq<u8>, sh: Seq<u8>, cl: Seq<u8>) -> Seq<char> {
    hex_chars_of(sha256_of(sv + sh + cl).take(8))
}

/// Derives the version id from the three realm buffers.
pub fn compute_unique_id(sv: &Vec<u8>, sh: &Vec<u8>, cl: &Vec<u8>) -> (r: String)
    ensures
        r@ == unique_id_of(sv@, sh@, cl@),
{
    let mut all: Vec<u8> = Vec::new();
    all.extend_from_slice(sv.as_slice());
    all.extend_from_slice(sh.as_slice());
    all.extend_from_slice(cl.as_slice());
    proof {
        assert(all@ =~= sv@ + sh@ + cl@);
    }
    let digest = sha256(all.as_slice());
    let mut id = String::new();
    let mut i: usize = 0;
    proof {
        assert(hex_chars_of(digest@.take(0)) =~= Seq::<char>::empty());
        assert(id@ =~= hex_chars_of(digest@.take(0)));
    }
    while i < 8
        invariant
            0 <= i <= 8,
            digest@.len() == 32,
            digest@ == sha256_of(sv@ + sh@ + cl@),
            id@ == hex_chars_of(digest@.take(i as int)),
        decreases 8 - i,
    {
        let b = digest[i];
        crate::radix::push_hex_byte(&mut id, b);
        proof {
            assert(digest@.take(i + 1).drop_last() =~= digest@.take(i as int));
            assert(digest@.take(i + 1).last() == digest@[i as int]);
            assert(id@ =~= hex_chars_of(digest@.take(i + 1)));
        }
        i = i + 1;
    }
    id
}

/// `return{` — the opening of the cache manifest script.
pub open spec fn lit_return_brace() -> Seq<u8> {
    seq![114u8, 101u8, 116u8, 117u8, 114u8, 110u8, 123u8]
}

/// Two lowercase hexadecimal digit bytes per input byte.
pub open spec fn hex2_bytes(bs: Seq<u8>) -> Seq<u8>
    decreases bs.len(),
{
    if bs.len() == 0 {
        Seq::empty()
    } else {
        hex2_bytes(bs.drop_last()) + seq![
            crate::radix::hex_digit(bs.last() as int / 16),
            crate::radix::hex_digit(bs.last() as int % 16),
        ]
    }
}

/// One quoted hexadecimal digest inside the manifest.
pub open spec fn hash_entry(h: Seq<u8>) -> Seq<u8> {
    seq![34u8] + hex2_bytes(h) + seq![34u8]
}

/// Comma-separated quoted digests, in order.
pub open spec fn hash_list(hs: Seq<Seq<u8>>) -> Seq<u8>
    decreases hs.len(),
{
    if hs.len() == 0 {
        Seq::empty()
    } else if hs.len() == 1 {
        hash_entry(hs[0])
    } else {
        hash_list(hs.drop_last()) + seq![44u8] + hash_entry(hs.last())
    }
}

/// The cache manifest: a script literal table keyed by the cacheable realm
/// names, each holding that realm's ordered chunk digests; a realm with no
/// chunks is omitted.
pub open spec fn manifest_bytes(hashes_sh: Seq<Seq<u8>>, hashes_cl: Seq<Seq<u8>>) -> Seq<u8> {
    lit_return_brace() + (if hashes_sh.len() > 0 {
        seq![115u8, 104u8, 61u8, 123u8] + hash_list(hashes_sh) + seq![125u8, 44u8]
    } else {
        Seq::empty()
    }) + (if hashes_cl.len() > 0 {
        seq![99u8, 108u8, 61u8, 123u8] + hash_list(hashes_cl) + seq![125u8]
    } else {
        Seq::empty()
    }) + seq![125u8]
}

/// Appends one quoted hexadecimal digest.
fn push_hash_entry(out: &mut Vec<u8>, h: &Vec<u8>)
    ensures
        final(out)@ == old(out)@ + hash_entry(h@),
{
    out.push(34);
    let n = h.len();
    let mut i: usize = 0;
    proof {
        assert(hex2_bytes(h@.take(0)) =~= Seq::<u8>::empty());
        assert(out@ =~= old(out)@ + seq![34u8] + hex2_bytes(h@.take(0)));
    }
    while i < n
        invariant
            n == h@.len(),
            0 <= i <= n,
            out@ == old(out)@ + seq![34u8] + hex2_bytes(h@.take(i as int)),
        decreases n - i,
    {
        let b = h[i];
        out.push(48 + b / 16 + (if b / 16 < 10 {
            0
        } else {
            39
        }));
        out.push(48 + b % 16 + (if b % 16 < 10 {
            0
        } else {
            39
        }));
        proof {
            assert(h@.take(i + 1).drop_last() =~= h@.take(i as int));
            assert(h@.take(i + 1).last() == h@[i as int]);
            assert(out@ =~= old(out)@ + seq![34u8] + hex2_bytes(h@.take(i + 1)));
        }
        i = i + 1;
    }
    out.push(34);
    proof {
        assert(h@.take(n as int) =~= h@);
        assert(out@ =~= old(out)@ + hash_entry(h@));
    }
}

/// Deep view of a list of digests.
pub open spec fn hash_views(hs: Seq<Vec<u8>>) -> Seq<Seq<u8>> {
    hs.map_values(|h: Vec<u8>| h@)
}

/// Appends a whole comma-separated digest list.
fn push_hash_list(out: &mut Vec<u8>, hs: &Vec<Vec<u8>>)
    ensures
        final(out)@ == old(out)@ + hash_list(hash_views(hs@)),
{
    let n = hs.len();
    let mut k: usize = 0;
    proof {
        assert(hash_list(hash_views(hs@).take(0)) =~= Seq::<u8>::empty());
        assert(out@ =~= old(out)@ + hash_list(hash_views(hs@).take(0)));
        assert(hash_views(hs@).len() == n);
    }
    while k < n
        invariant
            n == hs@.len(),
            hash_views(hs@).len() == n,
            0 <= k <= n,
            out@ == old(out)@ + hash_list(hash_views(hs@).take(k as int)),
        decreases n - k,
    {
        if k > 0 {
            out.push(44);
        }
        push_hash_entry(out, &hs[k]);
        proof {
            let hv = hash_views(hs@);
            assert(hv.take(k + 1).drop_last() =~= hv.take(k as int));
            assert(hv.take(k + 1).last() == hv[k as int]);
            assert(hv[k as int] == hs@[k as int]@);
            if k == 0 {
                assert(hv.take(1) =~= seq![hv[0]]);
                assert(hash_list(hv.take(1)) == hash_entry(hv[0]));
                assert(out@ =~= old(out)@ + hash_list(hv.take(1)));
            } else {
                assert(hash_list(hv.take(k + 1)) == hash_list(hv.take(k as int)) + seq![44u8]
                    + hash_entry(hv[k as int]));
                assert(out@ =~= old(out)@ + hash_list(hv.take(k + 1)));
            }
        }
        k = k + 1;
    }
    proof {
        assert(hash_views(hs@).take(n as int) =~= hash_views(hs@));
    }
}

/// Emits the cache manifest for the cacheable realms' chunk digests.
pub fn generate_cache_manifest(hashes_cl: &Vec<Vec<u8>>, hashes_sh: &Vec<Vec<u8>>) -> (r: Vec<u8>)
    ensures
        r@ == manifest_bytes(hash_views(hashes_sh@), hash_views(hashes_cl@)),
{
    let mut out: Vec<u8> = Vec::new();
    out.push(114);
    out.push(101);
    out.push(116);
    out.push(117);
    out.push(114);
    out.push(110);
    out.push(123);
    proof {
        assert(out@ =~= lit_return_brace());
    }
    let ghost after_open = out@;
    if hashes_sh.len() > 0 {
        out.push(115);
        out.push(104);
        out.push(61);
        out.push(123);
        push_hash_list(&mut out, hashes_sh);
        out.push(125);
        out.push(44);
        proof {
            assert(out@ =~= lit_return_brace() + (seq![115u8, 104u8, 61u8, 123u8] + hash_list(
                hash_views(hashes_sh@),
            ) + seq![125u8, 44u8]));
        }
    }
    let ghost after_sh = out@;
    if hashes_cl.len() > 0 {
        out.push(99);
        out.push(108);
        out.push(61);
        out.push(123);
        push_hash_list(&mut out, hashes_cl);
        out.push(125);
        proof {
            assert(out@ =~= after_sh + (seq![99u8, 108u8, 61u8, 123u8] + hash_list(
                hash_views(hashes_cl@),
            ) + seq![125u8]));
        }
    }
    out.push(125);
    proof {
        assert(out@ =~= manifest_bytes(hash_views(hashes_sh@), hash_views(hashes_cl@)));
    }
    out
}

/// Backslash and quote get a backslash in front inside a script string
/// literal; every other byte passes through.
pub open spec fn lua_escape(s: Seq<u8>) -> Seq<u8>
    decreases s.len(),
{
    if s.len() == 0 {
        Seq::empty()
    } else {
        lua_escape(s.drop_last()) + (if s.last() == 92 || s.last() == 34 {
            seq![92u8, s.last()]
        } else {
            seq![s.last()]
        })
    }
}

/// One quoted, escaped entry path.
pub open spec fn entry_item(p: Seq<u8>) -> Seq<u8> {
    seq![34u8] + lua_escape(p) + seq![34u8]
}

pub open spec fn entry_items(ps: Seq<Seq<u8>>) -> Seq<u8>
    decreases ps.len(),
{
    if ps.len() == 0 {
        Seq::empty()
    } else if ps.len() == 1 {
        entry_item(ps[0])
    } else {
        entry_items(ps.drop_last()) + seq![44u8] + entry_item(ps.last())
    }
}

/// A script literal array of the entry paths, in the given order.
pub open spec fn entry_array(ps: Seq<Seq<u8>>) -> Seq<u8> {
    seq![123u8] + entry_items(ps) + seq![125u8]
}

/// UTF-8 bytes of each path, in order.
pub open spec fn path_byte_views(ps: Seq<String>) -> Seq<Seq<u8>> {
    ps.map_values(|s: String| encode_utf8(s@))
}

fn push_entry_item(out: &mut Vec<u8>, p: &str)
    ensures
        final(out)@ == old(out)@ + entry_item(encode_utf8(p@)),
{
    out.push(34);
    let pb = p.as_bytes();
    let n = pb.len();
    let mut i: usize = 0;
    proof {
        assert(lua_escape(pb@.take(0)) =~= Seq::<u8>::empty());
        assert(out@ =~= old(out)@ + seq![34u8] + lua_escape(pb@.take(0)));
    }
    while i < n
        invariant
            n == pb@.len(),
            0 <= i <= n,
            out@ == old(out)@ + seq![34u8] + lua_escape(pb@.take(i as int)),
        decreases n - i,
    {
        let b = *vstd::slice::slice_index_get(pb, i);
        if b == 92 || b == 34 {
            out.push(92);
        }
        out.push(b);
        proof {
            assert(pb@.take(i + 1).drop_last() =~= pb@.take(i as int));
            assert(pb@.take(i + 1).last() == pb@[i as int]);
            assert(out@ =~= old(out)@ + seq![34u8] + lua_escape(pb@.take(i + 1)));
        }
        i = i + 1;
    }
    out.push(34);
    proof {
        assert(pb@.take(n as int) =~= pb@);
        assert(out@ =~= old(out)@ + entry_item(pb@));
    }
}

/// Joins entry paths, sorted into load order, into a script literal array.
/// The result is the array of some load-ordered arrangement of the given
/// paths; under a compiled table that arrangement is sorted.
pub fn join_entry_files(entry_files: &Vec<String>) -> (r: (Vec<u8>, Ghost<Seq<String>>))
    ensures
        r.1@.to_multiset() == entry_files@.to_multiset(),
        crate::loadorder::lo_ok() ==> crate::order::strings_sorted(false, r.1@),
        r.0@ == entry_array(path_byte_views(r.1@)),
{
    let mut sorted = entry_files.clone();
    crate::loadorder::sort(&mut sorted);
    let mut out: Vec<u8> = Vec::new();
    out.push(123);
    let n = sorted.len();
    let mut k: usize = 0;
    proof {
        assert(entry_items(path_byte_views(sorted@).take(0)) =~= Seq::<u8>::empty());
        assert(out@ =~= seq![123u8] + entry_items(path_byte_views(sorted@).take(0)));
        assert(path_byte_views(sorted@).len() == n);
    }
    while k < n
        invariant
            n == sorted@.len(),
            path_byte_views(sorted@).len() == n,
            0 <= k <= n,
            out@ == seq![123u8] + entry_items(path_byte_views(sorted@).take(k as int)),
        decreases n - k,
    {
        if k > 0 {
            out.push(44);
        }
        push_entry_item(&mut out, sorted[k].as_str());
        proof {
            let pv = path_byte_views(sorted@);
            assert(pv.take(k + 1).drop_last() =~= pv.take(k as int));
            assert(pv.take(k + 1).last() == pv[k as int]);
            assert(pv[k as int] == encode_utf8(sorted@[k as int]@));
            if k == 0 {
                assert(pv.take(1) =~= seq![pv[0]]);
                assert(entry_items(pv.take(1)) == entry_item(pv[0]));
                assert(out@ =~= seq![123u8] + entry_items(pv.take(1)));
            } else {
                assert(entry_items(pv.take(k + 1)) == entry_items(pv.take(k as int)) + seq![44u8]
                    + entry_item(pv[k as int]));
                assert(out@ =~= seq![123u8] + entry_items(pv.take(k + 1)));
            }
        }
        k = k + 1;
    }
    out.push(125);
    proof {
        assert(path_byte_views(sorted@).take(n as int) =~= path_byte_views(sorted@));
        assert(out@ =~= entry_array(path_byte_views(sorted@)));
    }
    (out, Ghost(sorted@))
}

/// Joins auxiliary directory names into a script literal array, in the given
/// order.
pub fn join_entity_dirs(dirs: &Vec<String>) -> (r: Vec<u8>)
    ensures
        r@ == entry_array(path_byte_views(dirs@)),
{
    let mut out: Vec<u8> = Vec::new();
    out.push(123);
    let n = dirs.len();
    let mut k: usize = 0;
    proof {
        assert(entry_items(path_byte_views(dirs@).take(0)) =~= Seq::<u8>::empty());
        assert(out@ =~= seq![123u8] + entry_items(path_byte_views(dirs@).take(0)));
        assert(path_byte_views(dirs@).len() == n);
    }
    while k < n
        invariant
            n == dirs@.len(),
            path_byte_views(dirs@).len() == n,
            0 <= k <= n,
            out@ == seq![123u8] + entry_items(path_byte_views(dirs@).take(k as int)),
        decreases n - k,
    {
        if k > 0 {
            out.push(44);
        }
        push_entry_item(&mut out, dirs[k].as_str());
        proof {
            let pv = path_byte_views(dirs@);
            assert(pv.take(k + 1).drop_last() =~= pv.take(k as int));
            assert(pv.take(k + 1).last() == pv[k as int]);
            assert(pv[k as int] == encode_utf8(dirs@[k as int]@));
            if k == 0 {
                assert(pv.take(1) =~= seq![pv[0]]);
                assert(entry_items(pv.take(1)) == entry_item(pv[0]));
                assert(out@ =~= seq![123u8] + entry_items(pv.take(1)));
            } else {
                assert(entry_items(pv.take(k + 1)) == entry_items(pv.take(k as int)) + seq![44u8]
                    + entry_item(pv[k as int]));
                assert(out@ =~= seq![123u8] + entry_items(pv.take(k + 1)));
            }
        }
        k = k + 1;
    }
    out.push(125);
    proof {
        assert(path_byte_views(dirs@).take(n as int) =~= path_byte_views(dirs@));
        assert(out@ =~= entry_array(path_byte_views(dirs@)));
    }
    out
}

/// Whether `pat` occurs in `s` at position `i`.
pub open spec fn match_at(s: Seq<u8>, pat: Seq<u8>, i: int) -> bool {
    &&& 0 <= i
    &&& i + pat.len() <= s.len()
    &&& s.subrange(i, i + pat.len()) == pat
}

pub open spec fn find_sub_from(s: Seq<u8>, pat: Seq<u8>, i: int) -> int
    decreases s.len() - i when 0 <= i <= s.len()
{
    if pat.len() == 0 {
        i
    } else if i + pat.len() > s.len() {
        -1
    } else if match_at(s, pat, i) {
        i
    } else {
        find_sub_from(s, pat, i + 1)
    }
}

/// The first position where `pat` occurs in `s`, or `-1`.
pub open spec fn find_sub(s: Seq<u8>, pat: Seq<u8>) -> int {
    find_sub_from(s, pat, 0)
}

/// `s` with the first occurrence of `pat`, if any, replaced by `rep`.
pub open spec fn replace_first_spec(s: Seq<u8>, pat: Seq<u8>, rep: Seq<u8>) -> Seq<u8> {
    let k = find_sub(s, pat);
    if k < 0 {
        s
    } else {
        s.take(k) + rep + s.subrange(k + pat.len(), s.len() as int)
    }
}

pub proof fn lemma_find_sub_skip(s: Seq<u8>, pat: Seq<u8>, k: int)
    requires
        pat.len() > 0,
        0 <= k <= s.len(),
        forall|j: int| 0 <= j < k ==> !match_at(s, pat, j),
    ensures
        find_sub(s, pat) == find_sub_from(s, pat, k),
    decreases k,
{
    if k > 0 {
        lemma_find_sub_skip(s, pat, k - 1);
    }
}

/// Replaces the first occurrence of `pat` in `s` by `rep`.
pub fn replace_first(s: &[u8], pat: &[u8], rep: &[u8]) -> (r: Vec<u8>)
    requires
        pat@.len() > 0,
    ensures
        r@ == replace_first_spec(s@, pat@, rep@),
{
    let n = s.len();
    let m = pat.len();
    if m > n {
        proof {
            assert(find_sub_from(s@, pat@, 0) == -1);
        }
        return vstd::slice::slice_to_vec(s);
    }
    let mut i: usize = 0;
    while i <= n - m
        invariant
            n == s@.len(),
            m == pat@.len(),
            0 < m <= n,
            0 <= i <= n - m + 1,
            forall|j: int| 0 <= j < i ==> !match_at(s@, pat@, j),
        decreases n + 1 - m - i,
    {
        if crate::order::bytes_eq(vstd::slice::slice_subrange(s, i, i + m), pat) {
            proof {
                assert(s@.subrange(i as int, i + m) == pat@);
                assert(match_at(s@, pat@, i as int));
                lemma_find_sub_skip(s@, pat@, i as int);
                assert(find_sub(s@, pat@) == i);
            }
            let mut out = vstd::slice::slice_to_vec(vstd::slice::slice_subrange(s, 0, i));
            out.extend_from_slice(rep);
            out.extend_from_slice(vstd::slice::slice_subrange(s, i + m, n));
            proof {
                assert(s@.subrange(0, i as int) =~= s@.take(i as int));
                assert(out@ =~= replace_first_spec(s@, pat@, rep@));
            }
            return out;
        }
        i = i + 1;
    }
    proof {
        lemma_find_sub_skip(s@, pat@, (n - m + 1) as int);
        assert(find_sub_from(s@, pat@, n - m + 1) == -1);
    }
    vstd::slice::slice_to_vec(s)
}

/// The loader script: the fixed template with the three ordered entry-path
/// arrays and the entity, weapon and effect directory sets substituted in.
pub open spec fn loader_bytes(
    template: Seq<u8>,
    sv_array: Seq<u8>,
    cl_array: Seq<u8>,
    sh_array: Seq<u8>,
    ent_array: Seq<u8>,
    wep_array: Seq<u8>,
    eff_array: Seq<u8>,
) -> Seq<u8> {
    let t1 = replace_first_spec(template, encode_utf8("{ENTRY_FILES_SV}"@), sv_array);
    let t2 = replace_first_spec(t1, encode_utf8("{ENTRY_FILES_CL}"@), cl_array);
    let t3 = replace_first_spec(t2, encode_utf8("{ENTRY_FILES_SH}"@), sh_array);
    let t4 = replace_first_spec(t3, encode_utf8("{ENTRY_ENTITIES}"@), ent_array);
    let t5 = replace_first_spec(t4, encode_utf8("{ENTRY_WEAPONS}"@), wep_array);
    replace_first_spec(t5, encode_utf8("{ENTRY_EFFECTS}"@), eff_array)
}

/// Builds the loader script from the template and the joined arrays.
pub fn build_loader_bytes(
    template: &[u8],
    sv_array: &Vec<u8>,
    cl_array: &Vec<u8>,
    sh_array: &Vec<u8>,
    ent_array: &Vec<u8>,
    wep_array: &Vec<u8>,
    eff_array: &Vec<u8>,
) -> (r: Vec<u8>)
    ensures
        r@ == loader_bytes(
            template@,
            sv_array@,
            cl_array@,
            sh_array@,
            ent_array@,
            wep_array@,
            eff_array@,
        ),
{
    proof {
        reveal_strlit("{ENTRY_FILES_SV}");
        reveal_strlit("{ENTRY_FILES_CL}");
        reveal_strlit("{ENTRY_FILES_SH}");
        reveal_strlit("{ENTRY_ENTITIES}");
        reveal_strlit("{ENTRY_WEAPONS}");
        reveal_strlit("{ENTRY_EFFECTS}");
    }
    let t1 = replace_first(template, "{ENTRY_FILES_SV}".as_bytes(), sv_array.as_slice());
    let t2 = replace_first(t1.as_slice(), "{ENTRY_FILES_CL}".as_bytes(), cl_array.as_slice());
    let t3 = replace_first(t2.as_slice(), "{ENTRY_FILES_SH}".as_bytes(), sh_array.as_slice());
    let t4 = replace_first(t3.as_slice(), "{ENTRY_ENTITIES}".as_bytes(), ent_array.as_slice());
    let t5 = replace_first(t4.as_slice(), "{ENTRY_WEAPONS}".as_bytes(), wep_array.as_slice());
    replace_first(t5.as_slice(), "{ENTRY_EFFECTS}".as_bytes(), eff_array.as_slice())
}

/// The two interchangeable chunk wrapping strategies.
#[derive(Debug, Clone, Copy, PartialEq, Eq, Structural)]
pub enum WrapStyle {
    /// Every line prefixed by the two-byte inert marker.
    LineComment,
    /// The whole chunk emitted as one escaped string literal statement.
    EscapedLiteral,
}

/// One output file of a packing run: a forward-slash relative path under the
/// addon root, and the exact bytes to write there.
#[derive(Debug, Clone)]
pub struct Artifact {
    pub path: String,
    pub data: Vec<u8>,
}

pub open spec fn artifact_models(arts: Seq<Artifact>) -> Seq<(Seq<char>, Seq<u8>)> {
    arts.map_values(|a: Artifact| (a.path@, a.data@))
}

pub open spec fn sv_artifact_path(id: Seq<char>) -> Seq<char> {
    "gluapack/"@ + id + "/gluapack.sv.lua"@
}

pub open spec fn chunk_artifact_path(id: Seq<char>, n: int, client: bool) -> Seq<char> {
    "gluapack/"@ + id + "/gluapack."@ + crate::radix::dec_chars(n as nat) + (if client {
        ".cl.lua"@
    } else {
        ".sh.lua"@
    })
}

pub open spec fn manifest_artifact_path(id: Seq<char>) -> Seq<char> {
    "gluapack/"@ + id + "/manifest.lua"@
}

pub open spec fn loader_artifact_path(id: Seq<char>, ver: Seq<char>) -> Seq<char> {
    "autorun/"@ + id + "_gluapack_"@ + ver + ".lua"@
}

/// A chunk's content digest: the cryptographic digest of exactly the bytes
/// written to disk, truncated to twenty bytes.
pub open spec fn chunk_digest(c: Seq<u8>) -> Seq<u8> {
    sha256_of(c).take(20)
}

pub open spec fn chunk_digests(cs: Seq<Seq<u8>>) -> Seq<Seq<u8>> {
    Seq::new(cs.len(), |i: int| chunk_digest(cs[i]))
}

pub open spec fn chunk_artifact_models(id: Seq<char>, cs: Seq<Seq<u8>>, client: bool) -> Seq<
    (Seq<char>, Seq<u8>),
> {
    Seq::new(cs.len(), |i: int| (chunk_artifact_path(id, i + 1, client), cs[i]))
}

/// Every chunk is well-formed for its wrap style, and so within the ceiling.
pub open spec fn chunks_ok(style: WrapStyle, cs: Seq<Seq<u8>>) -> bool {
    match style {
        WrapStyle::EscapedLiteral => forall|i: int|
            0 <= i < cs.len() ==> crate::wrap::escaped_chunk_ok(#[trigger] cs[i]),
        WrapStyle::LineComment => forall|i: int|
            0 <= i < cs.len() ==> crate::wrap::commented_chunk_ok(#[trigger] cs[i]),
    }
}

/// Unwrapping every chunk and concatenating in index order.
pub open spec fn unsplit_style(style: WrapStyle, cs: Seq<Seq<u8>>) -> Option<Seq<u8>> {
    match style {
        WrapStyle::EscapedLiteral => crate::wrap::unsplit_escaped(cs),
        WrapStyle::LineComment => crate::wrap::unsplit_commented(cs),
    }
}

/// The greedy split of a buffer under the chosen wrap strategy.
pub open spec fn split_spec(style: WrapStyle, bytes: Seq<u8>) -> Seq<Seq<u8>> {
    match style {
        WrapStyle::EscapedLiteral => crate::wrap::esc_split_spec(bytes, 0),
        WrapStyle::LineComment => crate::wrap::com_split_spec(bytes, 0),
    }
}

pub open spec fn total_len(cs: Seq<Seq<u8>>) -> int
    decreases cs.len(),
{
    if cs.len() == 0 {
        0int
    } else {
        total_len(cs.drop_last()) + cs.last().len()
    }
}

/// An integer clamped to what a size counter can hold.
pub open spec fn clamp_usize(x: int) -> int {
    if x > usize::MAX {
        usize::MAX as int
    } else {
        x
    }
}

fn sat_add(a: usize, b: usize) -> (r: usize)
    ensures
        r == clamp_usize(a + b),
{
    if a > usize::MAX - b {
        usize::MAX
    } else {
        a + b
    }
}

/// One packing run's full output, with the input buffers, chunk lists and
/// entry orderings it was produced from carried alongside as ghost state.
pub struct PackPlan {
    pub artifacts: Vec<Artifact>,
    pub unique_id: String,
    pub total_packed_files: usize,
    pub total_packed_size: usize,
    pub total_unpacked_size: usize,
    pub realm_buffers: Ghost<(Seq<u8>, Seq<u8>, Seq<u8>)>,
    pub cl_chunks: Ghost<Seq<Seq<u8>>>,
    pub sh_chunks: Ghost<Seq<Seq<u8>>>,
    pub entry_orders: Ghost<(Seq<String>, Seq<String>, Seq<String>)>,
}

/// What a well-formed plan promises of its output, given the (possibly
/// compressed) realm buffers it was built from: the version id is the
/// override or the buffers' digest; the chunks invert to exactly the Client
/// and Shared buffers and respect the size ceiling; the Server buffer is one
/// unchunked artifact whatever its size; the manifest lists the chunk
/// digests; and the loader embeds the load-ordered entry arrays.
pub open spec fn plan_wf(
    plan: PackPlan,
    style: WrapStyle,
    template: Seq<u8>,
    tool_version: Seq<char>,
    id_override: Option<String>,
    sv_entries: Seq<String>,
    cl_entries: Seq<String>,
    sh_entries: Seq<String>,
    entity_dirs: Seq<String>,
    weapon_dirs: Seq<String>,
    effect_dirs: Seq<String>,
) -> bool {
    let (svb, clb, shb) = plan.realm_buffers@;
    let id = plan.unique_id@;
    let clcs = plan.cl_chunks@;
    let shcs = plan.sh_chunks@;
    let (sve, cle, she) = plan.entry_orders@;
    &&& match id_override {
        Some(s) => id == s@,
        None => id == unique_id_of(svb, shb, clb),
    }
    &&& chunks_ok(style, clcs)
    &&& unsplit_style(style, clcs) == Some(clb)
    &&& chunks_ok(style, shcs)
    &&& unsplit_style(style, shcs) == Some(shb)
    &&& (clb.len() == 0 ==> clcs.len() == 0)
    &&& (shb.len() == 0 ==> shcs.len() == 0)
    &&& sve.to_multiset() == sv_entries.to_multiset()
    &&& cle.to_multiset() == cl_entries.to_multiset()
    &&& she.to_multiset() == sh_entries.to_multiset()
    &&& (crate::loadorder::lo_ok() ==> {
        &&& crate::order::strings_sorted(false, sve)
        &&& crate::order::strings_sorted(false, cle)
        &&& crate::order::strings_sorted(false, she)
    })
    &&& artifact_models(plan.artifacts@) == (if svb.len() > 0 {
        seq![(sv_artifact_path(id), svb)]
    } else {
        Seq::empty()
    }) + chunk_artifact_models(id, clcs, true) + chunk_artifact_models(id, shcs, false) + (if clcs.len()
        + shcs.len() > 0 {
        seq![
            (
                manifest_artifact_path(id),
                manifest_bytes(chunk_digests(shcs), chunk_digests(clcs)),
            ),
        ]
    } else {
        Seq::empty()
    }) + seq![
        (
            loader_artifact_path(id, tool_version),
            loader_bytes(
                template,
                entry_array(path_byte_views(sve)),
                entry_array(path_byte_views(cle)),
                entry_array(path_byte_views(she)),
                entry_array(path_byte_views(entity_dirs)),
                entry_array(path_byte_views(weapon_dirs)),
                entry_array(path_byte_views(effect_dirs)),
            ),
        ),
    ]
    &&& plan.total_packed_files == clamp_usize(clcs.len() + shcs.len() + (if svb.len() > 0 {
        1int
    } else {
        0int
    }))
    &&& plan.total_packed_size == clamp_usize(total_len(clcs) + total_len(shcs) + svb.len())
}

/// Manifest determinism: two runs whose realm buffers are byte-identical and
/// whose version id is the same fixed override split into the same chunks,
/// so their chunk digests and their cache manifests are identical, and every
/// chunk artifact carries the same name and bytes.
pub proof fn lemma_manifest_deterministic(p1: PackPlan, p2: PackPlan, style: WrapStyle)
    requires
        p1.realm_buffers@ == p2.realm_buffers@,
        p1.unique_id@ == p2.unique_id@,
        p1.cl_chunks@ == split_spec(style, p1.realm_buffers@.1),
        p1.sh_chunks@ == split_spec(style, p1.realm_buffers@.2),
        p2.cl_chunks@ == split_spec(style, p2.realm_buffers@.1),
        p2.sh_chunks@ == split_spec(style, p2.realm_buffers@.2),
    ensures
        p1.cl_chunks@ == p2.cl_chunks@,
        p1.sh_chunks@ == p2.sh_chunks@,
        chunk_digests(p1.cl_chunks@) == chunk_digests(p2.cl_chunks@),
        chunk_digests(p1.sh_chunks@) == chunk_digests(p2.sh_chunks@),
        manifest_bytes(chunk_digests(p1.sh_chunks@), chunk_digests(p1.cl_chunks@))
            == manifest_bytes(chunk_digests(p2.sh_chunks@), chunk_digests(p2.cl_chunks@)),
        chunk_artifact_models(p1.unique_id@, p1.cl_chunks@, true) == chunk_artifact_models(
            p2.unique_id@,
            p2.cl_chunks@,
            true,
        ),
        chunk_artifact_models(p1.unique_id@, p1.sh_chunks@, false) == chunk_artifact_models(
            p2.unique_id@,
            p2.sh_chunks@,
            false,
        ),
{
}

/// Whether an index has an equal path somewhere before it.
pub open spec fn dup_before(paths: Seq<Seq<char>>, j: int) -> bool {
    exists|i: int| 0 <= i < j && paths[i] == paths[j]
}

pub open spec fn first_dup_from(paths: Seq<Seq<char>>, j: int) -> int
    decreases paths.len() - j when 0 <= j <= paths.len()
{
    if j >= paths.len() {
        -1
    } else if dup_before(paths, j) {
        j
    } else {
        first_dup_from(paths, j + 1)
    }
}

/// The first index whose path already appeared, or `-1` when all paths are
/// distinct.
pub open spec fn first_dup(paths: Seq<Seq<char>>) -> int {
    first_dup_from(paths, 0)
}

pub proof fn lemma_first_dup_skip(paths: Seq<Seq<char>>, k: int)
    requires
        0 <= k <= paths.len(),
        forall|j: int| 0 <= j < k ==> !dup_before(paths, j),
    ensures
        first_dup(paths) == first_dup_from(paths, k),
    decreases k,
{
    if k > 0 {
        lemma_first_dup_skip(paths, k - 1);
    }
}

/// The paths of a realm's files, in order.
pub open spec fn paths_of(files: Seq<LuaFile>) -> Seq<Seq<char>> {
    files.map_values(|f: LuaFile| f.path@)
}

/// Validates the three collected realms before any later stage runs: a path
/// claimed by more than one realm is a conflict, naming the first offending
/// path in Server, Shared, Client scan order; an input set with no files at
/// all is refused.
pub fn validate_realms(sv: &Vec<LuaFile>, sh: &Vec<LuaFile>, cl: &Vec<LuaFile>) -> (r: Result<
    (),
    PackingError,
>)
    ensures
        ({
            let ap = paths_of(sv@) + paths_of(sh@) + paths_of(cl@);
            match r {
                Ok(()) => first_dup(ap) < 0 && ap.len() > 0,
                Err(e) => match e {
                    PackingError::RealmConflict(p) => first_dup(ap) >= 0 && p@ == ap[first_dup(
                        ap,
                    )],
                    PackingError::NoLuaFiles => first_dup(ap) < 0 && ap.len() == 0,
                    _ => false,
                },
            }
        }),
{
    let ghost ap = paths_of(sv@) + paths_of(sh@) + paths_of(cl@);
    let mut all: Vec<String> = Vec::new();
    let mut t: usize = 0;
    while t < sv.len()
        invariant
            0 <= t <= sv@.len(),
            all@.map_values(|s: String| s@) =~~= paths_of(sv@.take(t as int)),
        decreases sv@.len() - t,
    {
        let ghost pre = all@;
        proof {
            assert(pre.map_values(|s: String| s@).len() == paths_of(
                sv@.take(t as int),
            ).len());
            assert(pre.map_values(|s: String| s@).len() == pre.len());
            assert(paths_of(sv@.take(t as int)).len() == t);
        }
        all.push(sv[t].path.clone());
        proof {
            let m = all@.map_values(|s: String| s@);
            let target = paths_of(sv@.take(t + 1));
            assert(all@ == pre.push(sv@[t as int].path));
            assert(pre.len() == t);
            assert(all@.len() == t + 1);
            assert(m.len() == all@.len());
            assert(sv@.take(t + 1).len() == t + 1);
            assert(target.len() == t + 1);
            assert(m.len() == target.len());
            assert forall|q: int| 0 <= q < m.len() implies m[q] == target[q] by {
                assert(m[q] == all@[q]@);
                assert(target[q] == sv@.take(t + 1)[q].path@);
                if q < t {
                    assert(all@[q] == pre[q]);
                    assert(pre.map_values(|s: String| s@)[q] == pre[q]@);
                    assert(paths_of(sv@.take(t as int))[q] == sv@.take(t as int)[q].path@);
                }
            }
            assert(m =~~= target);
        }
        t = t + 1;
    }
    let mut t: usize = 0;
    while t < sh.len()
        invariant
            0 <= t <= sh@.len(),
            all@.map_values(|s: String| s@) =~~= paths_of(sv@) + paths_of(sh@.take(t as int)),
        decreases sh@.len() - t,
    {
        let ghost pre = all@;
        proof {
            assert(pre.map_values(|s: String| s@).len() == pre.len());
            assert(pre.map_values(|s: String| s@).len() == (paths_of(sv@) + paths_of(
                sh@.take(t as int),
            )).len());
        }
        all.push(sh[t].path.clone());
        proof {
            let m = all@.map_values(|s: String| s@);
            let target = paths_of(sv@) + paths_of(sh@.take(t + 1));
            assert(all@ == pre.push(sh@[t as int].path));
            assert(m.len() == target.len());
            assert forall|q: int| 0 <= q < m.len() implies m[q] == target[q] by {
                assert(m[q] == all@[q]@);
                if q < pre.len() {
                    assert(all@[q] == pre[q]);
                    assert(pre.map_values(|s: String| s@)[q] == pre[q]@);
                    assert((paths_of(sv@) + paths_of(sh@.take(t as int)))[q] == target[q]);
                } else {
                    assert(target[q] == sh@.take(t + 1)[t as int].path@);
                }
            }
            assert(m =~~= target);
        }
        t = t + 1;
    }
    let mut t: usize = 0;
    while t < cl.len()
        invariant
            0 <= t <= cl@.len(),
            all@.map_values(|s: String| s@) =~~= paths_of(sv@) + paths_of(sh@) + paths_of(
                cl@.take(t as int),
            ),
        decreases cl@.len() - t,
    {
        let ghost pre = all@;
        proof {
            assert(pre.map_values(|s: String| s@).len() == pre.len());
            assert(pre.map_values(|s: String| s@).len() == (paths_of(sv@) + paths_of(sh@)
                + paths_of(cl@.take(t as int))).len());
        }
        all.push(cl[t].path.clone());
        proof {
            let m = all@.map_values(|s: String| s@);
            let target = paths_of(sv@) + paths_of(sh@) + paths_of(cl@.take(t + 1));
            assert(all@ == pre.push(cl@[t as int].path));
            assert(m.len() == target.len());
            assert forall|q: int| 0 <= q < m.len() implies m[q] == target[q] by {
                assert(m[q] == all@[q]@);
                if q < pre.len() {
                    assert(all@[q] == pre[q]);
                    assert(pre.map_values(|s: String| s@)[q] == pre[q]@);
                    assert((paths_of(sv@) + paths_of(sh@) + paths_of(cl@.take(t as int)))[q]
                        == target[q]);
                } else {
                    assert(target[q] == cl@.take(t + 1)[t as int].path@);
                }
            }
            assert(m =~~= target);
        }
        t = t + 1;
    }
    proof {
        assert(sv@.take(sv@.len() as int) =~= sv@);
        assert(sh@.take(sh@.len() as int) =~= sh@);
        assert(cl@.take(cl@.len() as int) =~= cl@);
        assert(all@.map_values(|s: String| s@) =~~= ap);
    }
    let n = all.len();
    let mut j: usize = 0;
    while j < n
        invariant
            0 <= j <= n,
            n == all@.len(),
            ap == all@.map_values(|s: String| s@),
            ap == paths_of(sv@) + paths_of(sh@) + paths_of(cl@),
            forall|q: int| 0 <= q < j ==> !dup_before(ap, q),
        decreases n - j,
    {
        let mut i: usize = 0;
        while i < j
            invariant
                0 <= i <= j < n,
                n == all@.len(),
                ap == all@.map_values(|s: String| s@),
                ap == paths_of(sv@) + paths_of(sh@) + paths_of(cl@),
                forall|q: int| 0 <= q < i ==> ap[q] != ap[j as int],
                forall|q: int| 0 <= q < j ==> !dup_before(ap, q),
            decreases j - i,
        {
            if all[i] == all[j] {
                proof {
                    assert(ap[i as int] == ap[j as int]);
                    assert(dup_before(ap, j as int));
                    lemma_first_dup_skip(ap, j as int);
                    assert(first_dup(ap) == j);
                    assert(all@.map_values(|s: String| s@)[j as int] == all@[j as int]@);
                }
                return Err(PackingError::RealmConflict(all[j].clone()));
            }
            i = i + 1;
        }
        proof {
            assert(!dup_before(ap, j as int));
        }
        j = j + 1;
    }
    proof {
        assert(all@.map_values(|s: String| s@).len() == all@.len());
        assert(ap.len() == n);
        lemma_first_dup_skip(ap, n as int);
        assert(first_dup(ap) == -1);
    }
    if n == 0 {
        return Err(PackingError::NoLuaFiles);
    }
    Ok(())
}

/// Relies on gmod_lzma::compress: the buffer compressed in the format the
/// game runtime's decompressor accepts; `None` when the compressor reports
/// an error.
#[verifier::external_body]
fn lzma_compress(data: &Vec<u8>, level: i32) -> (r: Option<Vec<u8>>) {
    match gmod_lzma::compress(data.as_slice(), level) {
        Ok(v) => Some(v),
        Err(_) => None,
    }
}

proof fn lemma_artifact_models_push(arts: Seq<Artifact>, a: Artifact)
    ensures
        artifact_models(arts.push(a)) =~= artifact_models(arts).push((a.path@, a.data@)),
{
    let m = artifact_models(arts.push(a));
    let t = artifact_models(arts).push((a.path@, a.data@));
    assert forall|i: int| 0 <= i < m.len() implies m[i] == t[i] by {
        if i < arts.len() {
            assert(arts.push(a)[i] == arts[i]);
        } else {
            assert(arts.push(a)[i] == a);
        }
    }
}

fn make_sv_path(id: &str) -> (r: String)
    ensures
        r@ == sv_artifact_path(id@),
{
    let mut s = String::from_str("gluapack/");
    s.append(id);
    s.append("/gluapack.sv.lua");
    s
}

fn make_chunk_path(id: &str, n: usize, client: bool) -> (r: String)
    ensures
        r@ == chunk_artifact_path(id@, n as int, client),
{
    let mut s = String::from_str("gluapack/");
    s.append(id);
    s.append("/gluapack.");
    crate::radix::push_dec_usize(&mut s, n);
    if client {
        s.append(".cl.lua");
    } else {
        s.append(".sh.lua");
    }
    s
}

fn make_manifest_path(id: &str) -> (r: String)
    ensures
        r@ == manifest_artifact_path(id@),
{
    let mut s = String::from_str("gluapack/");
    s.append(id);
    s.append("/manifest.lua");
    s
}

fn make_loader_path(id: &str, tool_version: &str) -> (r: String)
    ensures
        r@ == loader_artifact_path(id@, tool_version@),
{
    let mut s = String::from_str("autorun/");
    s.append(id);
    s.append("_gluapack_");
    s.append(tool_version);
    s.append(".lua");
    s
}

/// Deep view of a chunk list.
pub open spec fn chunk_views(cs: Seq<Vec<u8>>) -> Seq<Seq<u8>> {
    cs.map_values(|c: Vec<u8>| c@)
}

/// Sums chunk lengths, clamped to the size counter's range.
fn sat_total(cs: &Vec<Vec<u8>>) -> (r: usize)
    ensures
        r == clamp_usize(total_len(chunk_views(cs@))),
{
    let n = cs.len();
    let mut acc: usize = 0;
    let mut i: usize = 0;
    proof {
        assert(chunk_views(cs@).take(0) =~= Seq::<Seq<u8>>::empty());
    }
    while i < n
        invariant
            n == cs@.len(),
            0 <= i <= n,
            acc == clamp_usize(total_len(chunk_views(cs@).take(i as int))),
        decreases n - i,
    {
        acc = sat_add(acc, cs[i].len());
        proof {
            let cv = chunk_views(cs@);
            assert(cv.take(i + 1).drop_last() =~= cv.take(i as int));
            assert(cv.take(i + 1).last() == cv[i as int]);
            assert(cv[i as int] == cs@[i as int]@);
        }
        i = i + 1;
    }
    proof {
        assert(chunk_views(cs@).take(n as int) =~= chunk_views(cs@));
    }
    acc
}

/// Splits one cacheable buffer by the chosen strategy and computes the chunk
/// digests.
fn split_buffer(style: WrapStyle, buf: &Vec<u8>) -> (r: (Vec<Vec<u8>>, Vec<Vec<u8>>))
    ensures
        chunks_ok(style, chunk_views(r.0@)),
        unsplit_style(style, chunk_views(r.0@)) == Some(buf@),
        chunk_views(r.0@) == split_spec(style, buf@),
        buf@.len() == 0 ==> r.0@.len() == 0,
        hash_views(r.1@) == chunk_digests(chunk_views(r.0@)),
{
    let chunks = match style {
        WrapStyle::EscapedLiteral => crate::wrap::split_escaped(buf),
        WrapStyle::LineComment => crate::wrap::split_commented(buf),
    };
    let n = chunks.len();
    let mut hashes: Vec<Vec<u8>> = Vec::new();
    let mut i: usize = 0;
    proof {
        assert(chunk_views(chunks@).take(0) =~= Seq::<Seq<u8>>::empty());
        assert(hash_views(hashes@) =~= chunk_digests(chunk_views(chunks@).take(0)));
    }
    while i < n
        invariant
            n == chunks@.len(),
            0 <= i <= n,
            hash_views(hashes@) == chunk_digests(chunk_views(chunks@).take(i as int)),
        decreases n - i,
    {
        let mut d = sha256(chunks[i].as_slice());
        d.truncate(20);
        proof {
            assert(d@ =~= chunk_digest(chunks@[i as int]@));
        }
        let ghost pre = hashes@;
        hashes.push(d);
        proof {
            let cv = chunk_views(chunks@);
            assert(cv.take(i + 1).drop_last() =~= cv.take(i as int));
            assert(cv.take(i + 1).last() == cv[i as int]);
            assert(cv[i as int] == chunks@[i as int]@);
            assert(hash_views(hashes@) =~= hash_views(pre).push(chunk_digest(cv[i as int])));
            assert(chunk_digests(cv.take(i + 1)) =~= chunk_digests(cv.take(i as int)).push(
                chunk_digest(cv[i as int]),
            ));
        }
        i = i + 1;
    }
    proof {
        assert(chunk_views(chunks@).take(n as int) =~= chunk_views(chunks@));
    }
    (chunks, hashes)
}

/// Lays out one packing run's artifacts from the three realm buffers, which
/// the caller has already encoded and, for the cacheable realms, optionally
/// compressed. Everything the run writes is pinned by `plan_wf`.
#[verifier::rlimit(100)]
pub fn plan_from_buffers(
    id_override: &Option<String>,
    style: WrapStyle,
    template: &[u8],
    tool_version: &str,
    svb: Vec<u8>,
    clb: Vec<u8>,
    shb: Vec<u8>,
    sv_entry_files: &Vec<String>,
    cl_entry_files: &Vec<String>,
    sh_entry_files: &Vec<String>,
    entity_dirs: &Vec<String>,
    weapon_dirs: &Vec<String>,
    effect_dirs: &Vec<String>,
    total_unpacked_size: usize,
) -> (plan: PackPlan)
    ensures
        plan_wf(
            plan,
            style,
            template@,
            tool_version@,
            *id_override,
            sv_entry_files@,
            cl_entry_files@,
            sh_entry_files@,
            entity_dirs@,
            weapon_dirs@,
            effect_dirs@,
        ),
        plan.realm_buffers@ == (svb@, clb@, shb@),
        plan.cl_chunks@ == split_spec(style, clb@),
        plan.sh_chunks@ == split_spec(style, shb@),
        plan.total_unpacked_size == total_unpacked_size,
{
    let id: String = match id_override {
        Some(s) => s.clone(),
        None => compute_unique_id(&svb, &shb, &clb),
    };
    let (cl_chunks, cl_hashes) = split_buffer(style, &clb);
    let (sh_chunks, sh_hashes) = split_buffer(style, &shb);
    let ghost clcs = chunk_views(cl_chunks@);
    let ghost shcs = chunk_views(sh_chunks@);
    let ghost svv = svb@;
    let t_cl = sat_total(&cl_chunks);
    let t_sh = sat_total(&sh_chunks);
    let total_packed_size = sat_add(sat_add(t_cl, t_sh), svb.len());
    let total_packed_files = sat_add(
        sat_add(cl_chunks.len(), sh_chunks.len()),
        if svb.len() > 0 {
            1
        } else {
            0
        },
    );
    let mut artifacts: Vec<Artifact> = Vec::new();
    let ghost sv_part = if svv.len() > 0 {
        seq![(sv_artifact_path(id@), svv)]
    } else {
        Seq::<(Seq<char>, Seq<u8>)>::empty()
    };
    if svb.len() > 0 {
        let p = make_sv_path(id.as_str());
        let ghost pre = artifacts@;
        artifacts.push(Artifact { path: p, data: svb });
        proof {
            lemma_artifact_models_push(pre, artifacts@.last());
            assert(artifact_models(pre) =~= Seq::<(Seq<char>, Seq<u8>)>::empty());
            assert(artifact_models(artifacts@) =~= sv_part);
        }
    } else {
        proof {
            assert(artifact_models(artifacts@) =~= sv_part);
        }
    }
    // Client chunks, 1-based and contiguous.
    let ncl = cl_chunks.len();
    let mut i: usize = 0;
    proof {
        assert(chunk_artifact_models(id@, clcs.take(0), true) =~= Seq::<
            (Seq<char>, Seq<u8>),
        >::empty());
        assert(artifact_models(artifacts@) =~= sv_part + chunk_artifact_models(
            id@,
            clcs.take(0),
            true,
        ));
    }
    while i < ncl
        invariant
            ncl == cl_chunks@.len(),
            0 <= i <= ncl,
            clcs == chunk_views(cl_chunks@),
            artifact_models(artifacts@) == sv_part + chunk_artifact_models(
                id@,
                clcs.take(i as int),
                true,
            ),
        decreases ncl - i,
    {
        let p = make_chunk_path(id.as_str(), i + 1, true);
        let data = vstd::slice::slice_to_vec(cl_chunks[i].as_slice());
        let ghost pre = artifacts@;
        artifacts.push(Artifact { path: p, data });
        proof {
            lemma_artifact_models_push(pre, artifacts@.last());
            assert(chunk_artifact_models(id@, clcs.take(i + 1), true) =~= chunk_artifact_models(
                id@,
                clcs.take(i as int),
                true,
            ).push((chunk_artifact_path(id@, i + 1, true), clcs[i as int])));
            assert(artifact_models(artifacts@) =~= sv_part + chunk_artifact_models(
                id@,
                clcs.take(i + 1),
                true,
            ));
        }
        i = i + 1;
    }
    proof {
        assert(clcs.take(ncl as int) =~= clcs);
    }
    let ghost cl_part = chunk_artifact_models(id@, clcs, true);
    // Shared chunks.
    let nsh = sh_chunks.len();
    let mut i: usize = 0;
    proof {
        assert(chunk_artifact_models(id@, shcs.take(0), false) =~= Seq::<
            (Seq<char>, Seq<u8>),
        >::empty());
        assert(artifact_models(artifacts@) =~= sv_part + cl_part + chunk_artifact_models(
            id@,
            shcs.take(0),
            false,
        ));
    }
    while i < nsh
        invariant
            nsh == sh_chunks@.len(),
            0 <= i <= nsh,
            shcs == chunk_views(sh_chunks@),
            artifact_models(artifacts@) == sv_part + cl_part + chunk_artifact_models(
                id@,
                shcs.take(i as int),
                false,
            ),
        decreases nsh - i,
    {
        let p = make_chunk_path(id.as_str(), i + 1, false);
        let data = vstd::slice::slice_to_vec(sh_chunks[i].as_slice());
        let ghost pre = artifacts@;
        artifacts.push(Artifact { path: p, data });
        proof {
            lemma_artifact_models_push(pre, artifacts@.last());
            assert(chunk_artifact_models(id@, shcs.take(i + 1), false) =~= chunk_artifact_models(
                id@,
                shcs.take(i as int),
                false,
            ).push((chunk_artifact_path(id@, i + 1, false), shcs[i as int])));
            assert(artifact_models(artifacts@) =~= sv_part + cl_part + chunk_artifact_models(
                id@,
                shcs.take(i + 1),
                false,
            ));
        }
        i = i + 1;
    }
    proof {
        assert(shcs.take(nsh as int) =~= shcs);
    }
    let ghost sh_part = chunk_artifact_models(id@, shcs, false);
    // Cache manifest, only when a cacheable chunk exists.
    let ghost manifest_part = if clcs.len() + shcs.len() > 0 {
        seq![
            (
                manifest_artifact_path(id@),
                manifest_bytes(chunk_digests(shcs), chunk_digests(clcs)),
            ),
        ]
    } else {
        Seq::<(Seq<char>, Seq<u8>)>::empty()
    };
    if ncl > 0 || nsh > 0 {
        let m = generate_cache_manifest(&cl_hashes, &sh_hashes);
        let p = make_manifest_path(id.as_str());
        let ghost pre = artifacts@;
        artifacts.push(Artifact { path: p, data: m });
        proof {
            lemma_artifact_models_push(pre, artifacts@.last());
            assert(artifact_models(artifacts@) =~= sv_part + cl_part + sh_part + manifest_part);
        }
    } else {
        proof {
            assert(artifact_models(artifacts@) =~= sv_part + cl_part + sh_part + manifest_part);
        }
    }
    // Loader.
    let (sv_arr, sve) = join_entry_files(sv_entry_files);
    let (cl_arr, cle) = join_entry_files(cl_entry_files);
    let (sh_arr, she) = join_entry_files(sh_entry_files);
    let ent_arr = join_entity_dirs(entity_dirs);
    let wep_arr = join_entity_dirs(weapon_dirs);
    let eff_arr = join_entity_dirs(effect_dirs);
    let loader = build_loader_bytes(
        template,
        &sv_arr,
        &cl_arr,
        &sh_arr,
        &ent_arr,
        &wep_arr,
        &eff_arr,
    );
    let lp = make_loader_path(id.as_str(), tool_version);
    let ghost pre = artifacts@;
    let ghost loader_part = seq![
        (
            loader_artifact_path(id@, tool_version@),
            loader_bytes(
                template@,
                entry_array(path_byte_views(sve@)),
                entry_array(path_byte_views(cle@)),
                entry_array(path_byte_views(she@)),
                entry_array(path_byte_views(entity_dirs@)),
                entry_array(path_byte_views(weapon_dirs@)),
                entry_array(path_byte_views(effect_dirs@)),
            ),
        ),
    ];
    artifacts.push(Artifact { path: lp, data: loader });
    proof {
        lemma_artifact_models_push(pre, artifacts@.last());
        assert(artifact_models(artifacts@) =~= sv_part + cl_part + sh_part + manifest_part
            + loader_part);
    }
    PackPlan {
        artifacts,
        unique_id: id,
        total_packed_files,
        total_packed_size,
        total_unpacked_size,
        realm_buffers: Ghost((svv, clb@, shb@)),
        cl_chunks: Ghost(clcs),
        sh_chunks: Ghost(shcs),
        entry_orders: Ghost((sve@, cle@, she@)),
    }
}

/// Whether some pattern of the list matches the path.
pub open spec fn matches_any(patterns: Seq<crate::globs::GlobPattern>, p: Seq<char>) -> bool {
    exists|i: int|
        0 <= i < patterns.len() && crate::globs::glob_matches((#[trigger] patterns[i])@, p)
}

/// Whether some file in the list has this path.
pub open spec fn has_path(s: Seq<LuaFile>, p: Seq<char>) -> bool {
    exists|t: int| 0 <= t < s.len() && (#[trigger] s[t]).path@ == p
}

/// The retained files among the arrivals, in arrival order: a file is kept
/// when its path matches no exclude pattern and no earlier arrival claimed
/// the same path — the first match wins, later duplicates are skipped.
pub open spec fn kept(arrivals: Seq<LuaFile>, excludes: Seq<crate::globs::GlobPattern>) -> Seq<
    LuaFile,
>
    decreases arrivals.len(),
{
    if arrivals.len() == 0 {
        Seq::empty()
    } else {
        let pre = kept(arrivals.drop_last(), excludes);
        let f = arrivals.last();
        if !matches_any(excludes, f.path@) && (forall|i: int|
            0 <= i < arrivals.len() - 1 ==> (#[trigger] arrivals[i]).path@ != f.path@) {
            pre.push(f)
        } else {
            pre
        }
    }
}

/// The retained paths that additionally match an entry pattern, in arrival
/// order.
pub open spec fn entry_list(
    arrivals: Seq<LuaFile>,
    excludes: Seq<crate::globs::GlobPattern>,
    entries: Seq<crate::globs::GlobPattern>,
) -> Seq<String>
    decreases arrivals.len(),
{
    if arrivals.len() == 0 {
        Seq::empty()
    } else {
        let pre = entry_list(arrivals.drop_last(), excludes, entries);
        let f = arrivals.last();
        if !matches_any(excludes, f.path@) && (forall|i: int|
            0 <= i < arrivals.len() - 1 ==> (#[trigger] arrivals[i]).path@ != f.path@)
            && matches_any(entries, f.path@) {
            pre.push(f.path)
        } else {
            pre
        }
    }
}

/// Decides whether any pattern matches the path.
fn matches_any_exec(patterns: &Vec<crate::globs::GlobPattern>, path: &str) -> (r: bool)
    ensures
        r == matches_any(patterns@, path@),
{
    let n = patterns.len();
    let mut i: usize = 0;
    while i < n
        invariant
            n == patterns@.len(),
            0 <= i <= n,
            forall|j: int|
                0 <= j < i ==> !crate::globs::glob_matches((#[trigger] patterns@[j])@, path@),
        decreases n - i,
    {
        if patterns[i].matches(path) {
            return true;
        }
        i = i + 1;
    }
    false
}

/// The pure heart of the collector: given the files an enumeration of the
/// include and entry patterns produced, in arrival order, drop the excluded
/// paths, keep the first arrival of each path, order the retained files by
/// load order, and record which retained paths are entry paths.
#[verifier::rlimit(100)]
pub fn collect_lua_files(
    arrivals: Vec<LuaFile>,
    excludes: &Vec<crate::globs::GlobPattern>,
    entries: &Vec<crate::globs::GlobPattern>,
) -> (r: (Vec<LuaFile>, Vec<String>))
    ensures
        r.0@.to_multiset() == kept(arrivals@, excludes@).to_multiset(),
        crate::loadorder::lo_ok() ==> crate::order::files_sorted(r.0@),
        r.1@ == entry_list(arrivals@, excludes@, entries@),
{
    broadcast use vstd::seq_lib::group_to_multiset_ensures;

    let ghost orig = arrivals@;
    let mut rest = arrivals;
    let mut files: Vec<LuaFile> = Vec::new();
    let mut entry_files: Vec<String> = Vec::new();
    proof {
        assert(orig.take(0) =~= Seq::<LuaFile>::empty());
        assert(kept(orig.take(0), excludes@) =~= Seq::<LuaFile>::empty());
        assert(entry_list(orig.take(0), excludes@, entries@) =~= Seq::<String>::empty());
        assert(files@.to_multiset() =~= kept(orig.take(0), excludes@).to_multiset());
        assert(rest@ =~= orig.skip(0));
    }
    while rest.len() > 0
        invariant
            rest@.len() <= orig.len(),
            rest@ == orig.skip(orig.len() - rest@.len()),
            files@.to_multiset() == kept(
                orig.take(orig.len() - rest@.len()),
                excludes@,
            ).to_multiset(),
            crate::loadorder::lo_ok() ==> crate::order::files_sorted(files@),
            entry_files@ == entry_list(orig.take(orig.len() - rest@.len()), excludes@, entries@),
            forall|p: Seq<char>|
                has_path(files@, p) <==> (exists|j: int|
                    0 <= j < orig.len() - rest@.len() && (#[trigger] orig[j]).path@ == p
                        && !matches_any(excludes@, p)),
        decreases rest@.len(),
    {
        let ghost i = orig.len() - rest@.len();
        let ghost pre_rest = rest@;
        let f = rest.remove(0);
        proof {
            assert(pre_rest == orig.skip(i));
            assert(orig.skip(i)[0] == orig[i]);
            assert(pre_rest[0] == orig[i]);
            assert(f == orig[i]);
            assert(rest@ =~= pre_rest.remove(0));
            assert(rest@ =~= orig.skip(i + 1));
            assert(orig.take(i + 1).drop_last() =~= orig.take(i as int));
            assert(orig.take(i + 1).last() == orig[i]);
        }
        let excl = matches_any_exec(excludes, f.path.as_str());
        if excl {
            proof {
                assert(kept(orig.take(i + 1), excludes@) == kept(orig.take(i as int), excludes@));
                assert(entry_list(orig.take(i + 1), excludes@, entries@) == entry_list(
                    orig.take(i as int),
                    excludes@,
                    entries@,
                ));
                assert forall|p: Seq<char>|
                    has_path(files@, p) <==> (exists|j: int|
                        0 <= j < i + 1 && (#[trigger] orig[j]).path@ == p && !matches_any(
                            excludes@,
                            p,
                        )) by {
                    if exists|j: int|
                        0 <= j < i + 1 && (#[trigger] orig[j]).path@ == p && !matches_any(
                            excludes@,
                            p,
                        ) {
                        let j = choose|j: int|
                            0 <= j < i + 1 && (#[trigger] orig[j]).path@ == p && !matches_any(
                                excludes@,
                                p,
                            );
                        assert(j < i);
                    }
                }
            }
            continue;
        }
        // Not excluded: skip it when an earlier arrival already claimed the path.
        let nf = files.len();
        let mut t: usize = 0;
        let mut dup = false;
        while t < nf
            invariant_except_break
                nf == files@.len(),
                0 <= t <= nf,
                !dup,
                forall|q: int| 0 <= q < t ==> (#[trigger] files@[q]).path@ != f.path@,
            ensures
                nf == files@.len(),
                dup ==> has_path(files@, f.path@),
                !dup ==> forall|q: int| 0 <= q < nf ==> (#[trigger] files@[q]).path@ != f.path@,
            decreases nf - t,
        {
            if files[t].path == f.path {
                dup = true;
                proof {
                    assert(files@[t as int].path@ == f.path@);
                }
                break;
            }
            t = t + 1;
        }
        if dup {
            proof {
                // An earlier arrival with this path exists, so the file and
                // its entry mark are both skipped.
                assert(exists|j: int|
                    0 <= j < i && (#[trigger] orig[j]).path@ == f.path@ && !matches_any(
                        excludes@,
                        f.path@,
                    ));
                let w = choose|j: int|
                    0 <= j < i && (#[trigger] orig[j]).path@ == f.path@ && !matches_any(
                        excludes@,
                        f.path@,
                    );
                assert(orig.take(i + 1)[w] == orig[w]);
                assert(!(forall|q: int|
                    0 <= q < i ==> (#[trigger] orig.take(i + 1)[q]).path@ != f.path@));
                assert(kept(orig.take(i + 1), excludes@) == kept(orig.take(i as int), excludes@));
                assert(entry_list(orig.take(i + 1), excludes@, entries@) == entry_list(
                    orig.take(i as int),
                    excludes@,
                    entries@,
                ));
                assert forall|p: Seq<char>|
                    has_path(files@, p) <==> (exists|j: int|
                        0 <= j < i + 1 && (#[trigger] orig[j]).path@ == p && !matches_any(
                            excludes@,
                            p,
                        )) by {
                    if exists|j: int|
                        0 <= j < i + 1 && (#[trigger] orig[j]).path@ == p && !matches_any(
                            excludes@,
                            p,
                        ) {
                        let j = choose|j: int|
                            0 <= j < i + 1 && (#[trigger] orig[j]).path@ == p && !matches_any(
                                excludes@,
                                p,
                            );
                        if j == i {
                            assert(has_path(files@, f.path@));
                        }
                    }
                }
            }
            continue;
        }
        proof {
            // No earlier arrival has this path: otherwise, exclusion being a
            // function of the path alone, it would stand among the files.
            assert forall|q: int| 0 <= q < i implies (#[trigger] orig[q]).path@ != f.path@ by {
                if orig[q].path@ == f.path@ {
                    assert(has_path(files@, f.path@));
                }
            }
            assert forall|q: int|
                0 <= q < i + 1 - 1 implies (#[trigger] orig.take(i + 1)[q]).path@
                != f.path@ by {
                assert(orig.take(i + 1)[q] == orig[q]);
            }
            assert(kept(orig.take(i + 1), excludes@) == kept(
                orig.take(i as int),
                excludes@,
            ).push(f));
        }
        let is_entry = matches_any_exec(entries, f.path.as_str());
        if is_entry {
            entry_files.push(f.path.clone());
            proof {
                assert(entry_list(orig.take(i + 1), excludes@, entries@) =~= entry_list(
                    orig.take(i as int),
                    excludes@,
                    entries@,
                ).push(orig[i].path));
            }
        } else {
            proof {
                assert(entry_list(orig.take(i + 1), excludes@, entries@) == entry_list(
                    orig.take(i as int),
                    excludes@,
                    entries@,
                ));
            }
        }
        let ghost pre_files = files@;
        crate::order::insert_file_sorted(&mut files, f);
        proof {
            kept(orig.take(i as int), excludes@).to_multiset_ensures();
            assert(kept(orig.take(i + 1), excludes@).to_multiset() =~= kept(
                orig.take(i as int),
                excludes@,
            ).to_multiset().insert(orig[i]));
            assert forall|p: Seq<char>|
                has_path(files@, p) <==> (exists|j: int|
                    0 <= j < i + 1 && (#[trigger] orig[j]).path@ == p && !matches_any(
                        excludes@,
                        p,
                    )) by {
                if has_path(files@, p) {
                    if p == f.path@ {
                        assert(orig[i].path@ == p);
                    }
                }
                if exists|j: int|
                    0 <= j < i + 1 && (#[trigger] orig[j]).path@ == p && !matches_any(
                        excludes@,
                        p,
                    ) {
                    let j = choose|j: int|
                        0 <= j < i + 1 && (#[trigger] orig[j]).path@ == p && !matches_any(
                            excludes@,
                            p,
                        );
                    if j == i {
                        assert(p == f.path@);
                    } else {
                        assert(has_path(pre_files, p));
                    }
                }
            }
        }
    }
    proof {
        assert(orig.take(orig.len() - rest@.len()) =~= orig);
    }
    (files, entry_files)
}

/// Counts a finished packing run reports.
pub struct PackingStatistics {
    pub total_unpacked_files: usize,
    pub total_unpacked_size: usize,
    pub total_packed_files: usize,
    pub total_packed_size: usize,
    pub elapsed_micros: u64,
}

impl PackingStatistics {
    /// Input file count against output artifact count, with the change as a
    /// percentage.
    pub fn files(&self) -> (r: String)
        ensures
            r@ == crate::util::files_report_chars(
                self.total_unpacked_files as int,
                self.total_packed_files as int,
            ),
    {
        crate::util::files_report(self.total_unpacked_files, self.total_packed_files)
    }

    /// Raw byte size against packed byte size, with the change as a
    /// percentage.
    pub fn size(&self) -> (r: String)
        ensures
            r@ == crate::util::size_report_chars(
                self.total_unpacked_size as int,
                self.total_packed_size as int,
            ),
    {
        crate::util::size_report(self.total_unpacked_size, self.total_packed_size)
    }

    /// The run's wall time.
    pub fn elapsed(&self) -> (r: String)
        ensures
            r@ == crate::util::elapsed_report_chars(self.elapsed_micros as int),
    {
        crate::util::elapsed_report(self.elapsed_micros)
    }
}

/// The packing pipeline's run context, threaded explicitly through every
/// stage.
pub struct Packer {
    pub out_dir: String,
    pub config: crate::config::Config,
    pub unique_id: Option<String>,
    pub quiet: bool,
    pub in_place: bool,
    pub no_copy: bool,
}

impl Packer {
    /// The version id of this run, once computed.
    pub fn unique_id(&self) -> (r: &String)
        requires
            self.unique_id is Some,
        ensures
            r == self.unique_id->Some_0,
    {
        match &self.unique_id {
            Some(s) => s,
            None => vstd::pervasive::unreached(),
        }
    }

    /// Stores this run's version id: the configured override when present,
    /// else the digest of the realm buffers in Server, Shared, Client order.
    pub fn compute_unique_id(&mut self, sv: &Vec<u8>, sh: &Vec<u8>, cl: &Vec<u8>)
        ensures
            final(self).unique_id is Some,
            final(self).unique_id->Some_0@ == (match old(self).config.unique_id {
                Some(s) => s@,
                None => unique_id_of(sv@, sh@, cl@),
            }),
            final(self).out_dir == old(self).out_dir,
            final(self).config == old(self).config,
            final(self).quiet == old(self).quiet,
            final(self).in_place == old(self).in_place,
            final(self).no_copy == old(self).no_copy,
    {
        let id = match &self.config.unique_id {
            Some(s) => s.clone(),
            None => compute_unique_id(sv, sh, cl),
        };
        self.unique_id = Some(id);
    }

    /// Encodes the three realms into their buffers, compressing the two
    /// cacheable ones when asked. Returns the buffers, the encoded paths
    /// (when this run later deletes the loose files), and the total size of
    /// the raw contents.
    pub fn squash_packed_files(
        &self,
        sv: &Vec<LuaFile>,
        cl: &Vec<LuaFile>,
        sh: &Vec<LuaFile>,
        compress: bool,
    ) -> (r: Result<
        ((Vec<u8>, Vec<u8>, Vec<u8>), (Vec<String>, Vec<String>, Vec<String>), usize),
        PackingError,
    >)
        requires
            forall|i: int|
                0 <= i < sv@.len() ==> (#[trigger] sv@[i]).contents@.len() <= u32::MAX,
            sum_contents(sv@) + sum_contents(cl@) + sum_contents(sh@) <= usize::MAX,
        ensures
            !compress ==> r is Ok,
            r is Err ==> r == Err::<
                ((Vec<u8>, Vec<u8>, Vec<u8>), (Vec<String>, Vec<String>, Vec<String>), usize),
                PackingError,
            >(PackingError::CompressionError) && compress,
            r matches Ok(((svb, clb, shb), (svp, clp, shp), tot)) ==> {
                &&& svb@ == frames(sv@, false)
                &&& (!compress ==> clb@ == frames(cl@, true))
                &&& (!compress ==> shb@ == frames(sh@, true))
                &&& (compress && frames(cl@, true).len() == 0 ==> clb@ == frames(cl@, true))
                &&& (compress && frames(sh@, true).len() == 0 ==> shb@ == frames(sh@, true))
                &&& tot == sum_contents(sv@) + sum_contents(cl@) + sum_contents(sh@)
                &&& (!self.in_place && !self.no_copy ==> svp@ == sv@.map_values(
                    |f: LuaFile| f.path,
                ) && clp@ == cl@.map_values(|f: LuaFile| f.path) && shp@ == sh@.map_values(
                    |f: LuaFile| f.path,
                ))
            },
    {
        let collect_paths = !self.in_place && !self.no_copy;
        proof {
            lemma_sum_contents_prefix(sv@, sv@.len() as int);
            lemma_sum_contents_prefix(cl@, cl@.len() as int);
            lemma_sum_contents_prefix(sh@, sh@.len() as int);
            assert(sv@.take(sv@.len() as int) =~= sv@);
            assert(cl@.take(cl@.len() as int) =~= cl@);
            assert(sh@.take(sh@.len() as int) =~= sh@);
        }
        let (svp, svb, sv_len) = pack_lua_files(collect_paths, sv, false);
        let (clp, clb, cl_len) = pack_lua_files(collect_paths, cl, true);
        let (shp, shb, sh_len) = pack_lua_files(collect_paths, sh, true);
        let tot = sv_len + cl_len + sh_len;
        let (clb, shb) = if compress {
            let clb2 = if clb.len() == 0 {
                clb
            } else {
                match lzma_compress(&clb, 9) {
                    Some(v) => v,
                    None => {
                        return Err(PackingError::CompressionError);
                    },
                }
            };
            let shb2 = if shb.len() == 0 {
                shb
            } else {
                match lzma_compress(&shb, 9) {
                    Some(v) => v,
                    None => {
                        return Err(PackingError::CompressionError);
                    },
                }
            };
            (clb2, shb2)
        } else {
            (clb, shb)
        };
        Ok(((svb, clb, shb), (svp, clp, shp), tot))
    }

    /// Runs the whole packing pipeline on three collected realms: encode,
    /// optionally compress, derive the version id, split into chunks, and
    /// lay out every artifact of the run.
    pub fn process(
        self,
        style: WrapStyle,
        template: &[u8],
        tool_version: &str,
        sv: Vec<LuaFile>,
        sv_entry_files: Vec<String>,
        cl: Vec<LuaFile>,
        cl_entry_files: Vec<String>,
        sh: Vec<LuaFile>,
        sh_entry_files: Vec<String>,
        entity_dirs: Vec<String>,
        weapon_dirs: Vec<String>,
        effect_dirs: Vec<String>,
        compress: bool,
    ) -> (r: Result<PackPlan, PackingError>)
        requires
            forall|i: int|
                0 <= i < sv@.len() ==> (#[trigger] sv@[i]).contents@.len() <= u32::MAX,
            sum_contents(sv@) + sum_contents(cl@) + sum_contents(sh@) <= usize::MAX,
        ensures
            !compress ==> r is Ok,
            r is Err ==> r == Err::<PackPlan, PackingError>(PackingError::CompressionError)
                && compress,
            r matches Ok(plan) ==> {
                &&& plan_wf(
                    plan,
                    style,
                    template@,
                    tool_version@,
                    self.config.unique_id,
                    sv_entry_files@,
                    cl_entry_files@,
                    sh_entry_files@,
                    entity_dirs@,
                    weapon_dirs@,
                    effect_dirs@,
                )
                &&& plan.realm_buffers@.0 == frames(sv@, false)
                &&& (!compress ==> plan.realm_buffers@.1 == frames(cl@, true))
                &&& (!compress ==> plan.realm_buffers@.2 == frames(sh@, true))
                &&& (compress && frames(cl@, true).len() == 0 ==> plan.realm_buffers@.1 == frames(
                    cl@,
                    true,
                ))
                &&& (compress && frames(sh@, true).len() == 0 ==> plan.realm_buffers@.2 == frames(
                    sh@,
                    true,
                ))
                &&& plan.cl_chunks@ == split_spec(style, plan.realm_buffers@.1)
                &&& plan.sh_chunks@ == split_spec(style, plan.realm_buffers@.2)
                &&& plan.total_unpacked_size == sum_contents(sv@) + sum_contents(cl@)
                    + sum_contents(sh@)
            },
    {
        let ((svb, clb, shb), (_svp, _clp, _shp), tot) = match self.squash_packed_files(
            &sv,
            &cl,
            &sh,
            compress,
        ) {
            Ok(x) => x,
            Err(e) => {
                return Err(e);
            },
        };
        let plan = plan_from_buffers(
            &self.config.unique_id,
            style,
            template,
            tool_version,
            svb,
            clb,
            shb,
            &sv_entry_files,
            &cl_entry_files,
            &sh_entry_files,
            &entity_dirs,
            &weapon_dirs,
            &effect_dirs,
            tot,
        );
        Ok(plan)
    }
}

} // verus!
