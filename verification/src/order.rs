//! Shared comparison and sorting machinery for the two load-order tables:
//! byte-wise lexicographic comparison, the combined (bucket, path) order, and
//! a sort that both tables use.

use vstd::prelude::*;
use vstd::multiset::Multiset;
use vstd::utf8::encode_utf8;

verus! {

/// Byte-wise lexicographic three-way comparison.
pub open spec fn bytes_cmp(a: Seq<u8>, b: Seq<u8>) -> core::cmp::Ordering
    decreases a.len() + b.len(),
{
    if a.len() == 0 && b.len() == 0 {
        core::cmp::Ordering::Equal
    } else if a.len() == 0 {
        core::cmp::Ordering::Less
    } else if b.len() == 0 {
        core::cmp::Ordering::Greater
    } else if a[0] < b[0] {
        core::cmp::Ordering::Less
    } else if a[0] > b[0] {
        core::cmp::Ordering::Greater
    } else {
        bytes_cmp(a.drop_first(), b.drop_first())
    }
}

pub proof fn lemma_bytes_cmp_eq(a: Seq<u8>, b: Seq<u8>)
    ensures
        (bytes_cmp(a, b) == core::cmp::Ordering::Equal) <==> a == b,
    decreases a.len() + b.len(),
{
    if a.len() == 0 && b.len() == 0 {
        assert(a =~= b);
    } else if a.len() > 0 && b.len() > 0 && a[0] == b[0] {
        lemma_bytes_cmp_eq(a.drop_first(), b.drop_first());
        if a.drop_first() == b.drop_first() {
            assert forall|i: int| 0 <= i < a.len() implies a[i] == b[i] by {
                if i > 0 {
                    assert(a.drop_first()[i - 1] == b.drop_first()[i - 1]);
                }
            }
            assert(a =~= b);
        }
        if a == b {
            assert(a.drop_first() =~= b.drop_first());
        }
    } else if a == b {
        assert(a.len() == b.len());
    }
}

pub proof fn lemma_bytes_cmp_flip(a: Seq<u8>, b: Seq<u8>)
    ensures
        (bytes_cmp(a, b) == core::cmp::Ordering::Greater) <==> (bytes_cmp(b, a)
            == core::cmp::Ordering::Less),
    decreases a.len() + b.len(),
{
    if a.len() > 0 && b.len() > 0 && a[0] == b[0] {
        lemma_bytes_cmp_flip(a.drop_first(), b.drop_first());
    }
}

pub open spec fn bytes_le(a: Seq<u8>, b: Seq<u8>) -> bool {
    bytes_cmp(a, b) != core::cmp::Ordering::Greater
}

pub proof fn lemma_bytes_le_trans(a: Seq<u8>, b: Seq<u8>, c: Seq<u8>)
    requires
        bytes_le(a, b),
        bytes_le(b, c),
    ensures
        bytes_le(a, c),
    decreases a.len() + b.len() + c.len(),
{
    if a.len() > 0 {
        if a.len() > 0 && b.len() > 0 && c.len() > 0 && a[0] == b[0] && b[0] == c[0] {
            lemma_bytes_le_trans(a.drop_first(), b.drop_first(), c.drop_first());
        }
    }
}

/// Compares two byte slices three ways.
pub fn bytes_cmp_exec(a: &[u8], b: &[u8]) -> (r: core::cmp::Ordering)
    ensures
        r == bytes_cmp(a@, b@),
{
    let n = a.len();
    let m = b.len();
    let mut i: usize = 0;
    proof {
        assert(a@.subrange(0, n as int) =~= a@);
        assert(b@.subrange(0, m as int) =~= b@);
    }
    while i < n && i < m
        invariant
            n == a@.len(),
            m == b@.len(),
            0 <= i <= n,
            0 <= i <= m,
            bytes_cmp(a@, b@) == bytes_cmp(
                a@.subrange(i as int, n as int),
                b@.subrange(i as int, m as int),
            ),
        decreases n - i,
    {
        let x = *vstd::slice::slice_index_get(a, i);
        let y = *vstd::slice::slice_index_get(b, i);
        let ghost sa = a@.subrange(i as int, n as int);
        let ghost sb = b@.subrange(i as int, m as int);
        proof {
            assert(sa[0] == x && sb[0] == y);
            assert(sa.drop_first() =~= a@.subrange(i + 1, n as int));
            assert(sb.drop_first() =~= b@.subrange(i + 1, m as int));
        }
        if x < y {
            return core::cmp::Ordering::Less;
        }
        if x > y {
            return core::cmp::Ordering::Greater;
        }
        i = i + 1;
    }
    proof {
        let sa = a@.subrange(i as int, n as int);
        let sb = b@.subrange(i as int, m as int);
        assert(sa.len() == 0 || sb.len() == 0);
    }
    if i < m {
        core::cmp::Ordering::Less
    } else if i < n {
        core::cmp::Ordering::Greater
    } else {
        core::cmp::Ordering::Equal
    }
}

/// Whether two byte slices hold the same bytes.
pub fn bytes_eq(a: &[u8], b: &[u8]) -> (r: bool)
    ensures
        r == (a@ == b@),
{
    proof {
        lemma_bytes_cmp_eq(a@, b@);
    }
    matches!(bytes_cmp_exec(a, b), core::cmp::Ordering::Equal)
}

/// The priority bucket under the selected table.
pub open spec fn sel_index(extended: bool, path: Seq<char>) -> int {
    if extended {
        crate::load_order::lo17_index(path)
    } else {
        crate::loadorder::lo_index(path)
    }
}

/// Whether the selected table compiles.
pub open spec fn sel_ok(extended: bool) -> bool {
    if extended {
        crate::load_order::lo17_ok()
    } else {
        crate::loadorder::lo_ok()
    }
}

/// The combined load-order comparison: bucket first, then the path bytes.
pub open spec fn ord_cmp(extended: bool, x: Seq<char>, y: Seq<char>) -> core::cmp::Ordering {
    if sel_index(extended, x) < sel_index(extended, y) {
        core::cmp::Ordering::Less
    } else if sel_index(extended, y) < sel_index(extended, x) {
        core::cmp::Ordering::Greater
    } else {
        bytes_cmp(encode_utf8(x), encode_utf8(y))
    }
}

pub open spec fn ord_le(extended: bool, x: Seq<char>, y: Seq<char>) -> bool {
    ord_cmp(extended, x, y) != core::cmp::Ordering::Greater
}

pub proof fn lemma_ord_le_total(extended: bool, x: Seq<char>, y: Seq<char>)
    ensures
        ord_le(extended, x, y) || ord_le(extended, y, x),
{
    lemma_bytes_cmp_flip(encode_utf8(x), encode_utf8(y));
    lemma_bytes_cmp_flip(encode_utf8(y), encode_utf8(x));
    lemma_bytes_cmp_eq(encode_utf8(x), encode_utf8(y));
    lemma_bytes_cmp_eq(encode_utf8(y), encode_utf8(x));
}

pub proof fn lemma_ord_le_trans(extended: bool, x: Seq<char>, y: Seq<char>, z: Seq<char>)
    requires
        ord_le(extended, x, y),
        ord_le(extended, y, z),
    ensures
        ord_le(extended, x, z),
{
    if sel_index(extended, x) == sel_index(extended, y) && sel_index(extended, y) == sel_index(
        extended,
        z,
    ) {
        lemma_bytes_le_trans(encode_utf8(x), encode_utf8(y), encode_utf8(z));
    }
}

/// Priority bucket of a path under the selected table.
pub fn sel_cmp_index(extended: bool, path: &str) -> (r: usize)
    ensures
        sel_ok(extended) ==> r as int == sel_index(extended, path@),
{
    if extended {
        crate::load_order::cmp_index(path)
    } else {
        crate::loadorder::cmp_index(path)
    }
}

/// Three-way load-order comparison of two paths.
pub fn ord_cmp_exec(extended: bool, x: &str, y: &str) -> (r: core::cmp::Ordering)
    ensures
        sel_ok(extended) ==> r == ord_cmp(extended, x@, y@),
{
    let ix = sel_cmp_index(extended, x);
    let iy = sel_cmp_index(extended, y);
    if ix < iy {
        core::cmp::Ordering::Less
    } else if iy < ix {
        core::cmp::Ordering::Greater
    } else {
        bytes_cmp_exec(x.as_bytes(), y.as_bytes())
    }
}

/// Paths in load order: buckets ascending, ties byte-wise ascending.
pub open spec fn strings_sorted(extended: bool, s: Seq<String>) -> bool {
    forall|i: int, j: int|
        0 <= i < j < s.len() ==> ord_le(extended, (#[trigger] s[i])@, (#[trigger] s[j])@)
}

/// Inserts a path into its sorted position.
fn insert_string_sorted(extended: bool, v: &mut Vec<String>, x: String)
    ensures
        final(v)@.to_multiset() == old(v)@.to_multiset().insert(x),
        sel_ok(extended) && strings_sorted(extended, old(v)@) ==> strings_sorted(
            extended,
            final(v)@,
        ),
{
    broadcast use vstd::seq_lib::group_to_multiset_ensures;
    broadcast use vstd::multiset::group_multiset_axioms;

    let n = v.len();
    let mut i: usize = 0;
    while i < n
        invariant_except_break
            n == v@.len(),
            0 <= i <= n,
            sel_ok(extended) ==> forall|j: int|
                0 <= j < i ==> ord_le(extended, (#[trigger] v@[j])@, x@),
        ensures
            n == v@.len(),
            0 <= i <= n,
            sel_ok(extended) ==> forall|j: int|
                0 <= j < i ==> ord_le(extended, (#[trigger] v@[j])@, x@),
            sel_ok(extended) && i < n ==> ord_cmp(extended, v@[i as int]@, x@)
                == core::cmp::Ordering::Greater,
        decreases n - i,
    {
        match ord_cmp_exec(extended, v[i].as_str(), x.as_str()) {
            core::cmp::Ordering::Greater => {
                break;
            },
            _ => {},
        }
        i = i + 1;
    }
    let ghost pos = i as int;
    let ghost pre = v@;
    proof {
        if sel_ok(extended) && pos < pre.len() {
            lemma_ord_le_total(extended, x@, pre[pos]@);
            assert(ord_le(extended, x@, pre[pos]@));
        }
    }
    v.insert(i, x);
    proof {
        // Multiset: the inserted sequence is the two halves around `x`.
        let a = pre.take(pos);
        let b = pre.skip(pos);
        assert(v@ =~= a + (seq![x] + b));
        vstd::seq_lib::lemma_multiset_commutative(a, seq![x] + b);
        vstd::seq_lib::lemma_multiset_commutative(seq![x], b);
        vstd::seq_lib::lemma_multiset_commutative(a, b);
        assert(a + b =~= pre);
        let e = Seq::<String>::empty();
        e.to_multiset_ensures();
        assert(seq![x] =~= e.push(x));
        assert(e.push(x).to_multiset() =~= e.to_multiset().insert(x));
        assert forall|y: String| e.to_multiset().count(y) == 0 by {
            if e.to_multiset().count(y) > 0 {
                assert(e.contains(y));
            }
        }
        assert(e.to_multiset() =~= Multiset::<String>::empty());
        assert(v@.to_multiset() =~= pre.to_multiset().insert(x));
        if sel_ok(extended) && strings_sorted(extended, pre) {
            assert forall|s: int, t: int|
                0 <= s < t < v@.len() implies ord_le(
                extended,
                (#[trigger] v@[s])@,
                (#[trigger] v@[t])@,
            ) by {
                if s < pos && t < pos {
                    assert(v@[s] == pre[s] && v@[t] == pre[t]);
                } else if s < pos && t == pos {
                    assert(v@[s] == pre[s]);
                } else if s < pos && t > pos {
                    assert(v@[s] == pre[s] && v@[t] == pre[t - 1]);
                } else if s == pos && t > pos {
                    assert(v@[t] == pre[t - 1]);
                    assert(ord_le(extended, x@, pre[pos]@));
                    if t - 1 > pos {
                        assert(ord_le(extended, pre[pos]@, pre[t - 1]@));
                        lemma_ord_le_trans(extended, x@, pre[pos]@, pre[t - 1]@);
                    }
                } else {
                    assert(v@[s] == pre[s - 1] && v@[t] == pre[t - 1]);
                }
            }
        }
    }
}

/// Script files in load order of their paths.
pub open spec fn files_sorted(s: Seq<crate::pack::LuaFile>) -> bool {
    forall|i: int, j: int|
        0 <= i < j < s.len() ==> ord_le(false, (#[trigger] s[i]).path@, (#[trigger] s[j]).path@)
}

/// Inserts a script file at its load-ordered position among its realm's
/// files.
pub fn insert_file_sorted(v: &mut Vec<crate::pack::LuaFile>, x: crate::pack::LuaFile)
    ensures
        final(v)@.to_multiset() == old(v)@.to_multiset().insert(x),
        sel_ok(false) && files_sorted(old(v)@) ==> files_sorted(final(v)@),
        final(v)@.len() == old(v)@.len() + 1,
        forall|p: Seq<char>|
            crate::pack::has_path(final(v)@, p) <==> (crate::pack::has_path(old(v)@, p) || p
                == x.path@),
{
    broadcast use vstd::seq_lib::group_to_multiset_ensures;
    broadcast use vstd::multiset::group_multiset_axioms;

    let n = v.len();
    let mut i: usize = 0;
    while i < n
        invariant_except_break
            n == v@.len(),
            0 <= i <= n,
            sel_ok(false) ==> forall|j: int|
                0 <= j < i ==> ord_le(false, (#[trigger] v@[j]).path@, x.path@),
        ensures
            n == v@.len(),
            0 <= i <= n,
            sel_ok(false) ==> forall|j: int|
                0 <= j < i ==> ord_le(false, (#[trigger] v@[j]).path@, x.path@),
            sel_ok(false) && i < n ==> ord_cmp(false, v@[i as int].path@, x.path@)
                == core::cmp::Ordering::Greater,
        decreases n - i,
    {
        match ord_cmp_exec(false, v[i].path.as_str(), x.path.as_str()) {
            core::cmp::Ordering::Greater => {
                break;
            },
            _ => {},
        }
        i = i + 1;
    }
    let ghost pos = i as int;
    let ghost pre = v@;
    proof {
        if sel_ok(false) && pos < pre.len() {
            lemma_ord_le_total(false, x.path@, pre[pos].path@);
            assert(ord_le(false, x.path@, pre[pos].path@));
        }
    }
    v.insert(i, x);
    proof {
        let a = pre.take(pos);
        let b = pre.skip(pos);
        assert(v@ =~= a + (seq![x] + b));
        vstd::seq_lib::lemma_multiset_commutative(a, seq![x] + b);
        vstd::seq_lib::lemma_multiset_commutative(seq![x], b);
        vstd::seq_lib::lemma_multiset_commutative(a, b);
        assert(a + b =~= pre);
        let e = Seq::<crate::pack::LuaFile>::empty();
        e.to_multiset_ensures();
        assert(seq![x] =~= e.push(x));
        assert(e.push(x).to_multiset() =~= e.to_multiset().insert(x));
        assert forall|y: crate::pack::LuaFile| e.to_multiset().count(y) == 0 by {
            if e.to_multiset().count(y) > 0 {
                assert(e.contains(y));
            }
        }
        assert(e.to_multiset() =~= Multiset::<crate::pack::LuaFile>::empty());
        assert(v@.to_multiset() =~= pre.to_multiset().insert(x));
        assert forall|p: Seq<char>|
            crate::pack::has_path(v@, p) <==> (crate::pack::has_path(pre, p) || p
                == x.path@) by {
            if crate::pack::has_path(v@, p) {
                let t = choose|t: int| 0 <= t < v@.len() && v@[t].path@ == p;
                if t < pos {
                    assert(pre[t].path@ == p);
                } else if t == pos {
                } else {
                    assert(pre[t - 1].path@ == p);
                }
            }
            if crate::pack::has_path(pre, p) {
                let t = choose|t: int| 0 <= t < pre.len() && pre[t].path@ == p;
                if t < pos {
                    assert(v@[t].path@ == p);
                } else {
                    assert(v@[t + 1].path@ == p);
                }
            }
            if p == x.path@ {
                assert(v@[pos].path@ == p);
            }
        }
        if sel_ok(false) && files_sorted(pre) {
            assert forall|s: int, t: int|
                0 <= s < t < v@.len() implies ord_le(
                false,
                (#[trigger] v@[s]).path@,
                (#[trigger] v@[t]).path@,
            ) by {
                if s < pos && t < pos {
                    assert(v@[s] == pre[s] && v@[t] == pre[t]);
                } else if s < pos && t == pos {
                    assert(v@[s] == pre[s]);
                } else if s < pos && t > pos {
                    assert(v@[s] == pre[s] && v@[t] == pre[t - 1]);
                } else if s == pos && t > pos {
                    assert(v@[t] == pre[t - 1]);
                    assert(ord_le(false, x.path@, pre[pos].path@));
                    if t - 1 > pos {
                        assert(ord_le(false, pre[pos].path@, pre[t - 1].path@));
                        lemma_ord_le_trans(false, x.path@, pre[pos].path@, pre[t - 1].path@);
                    }
                } else {
                    assert(v@[s] == pre[s - 1] && v@[t] == pre[t - 1]);
                }
            }
        }
    }
}

/// Sorts paths into load order under the selected table. The order of the
/// result is stated whenever the fixed table compiles; the contents are the
/// same multiset in every case.
pub fn sort_strings(extended: bool, items: &mut Vec<String>)
    ensures
        final(items)@.to_multiset() == old(items)@.to_multiset(),
        sel_ok(extended) ==> strings_sorted(extended, final(items)@),
{
    broadcast use vstd::seq_lib::group_to_multiset_ensures;
    broadcast use vstd::multiset::group_multiset_axioms;

    let ghost orig = old(items)@;
    let mut out: Vec<String> = Vec::new();
    proof {
        assert(out@.to_multiset() =~= Multiset::<String>::empty()) by {
            assert(out@ =~= Seq::<String>::empty());
        }
        assert(out@.to_multiset().add(orig.to_multiset()) =~= orig.to_multiset());
    }
    while items.len() > 0
        invariant
            out@.to_multiset().add(items@.to_multiset()) == orig.to_multiset(),
            sel_ok(extended) ==> strings_sorted(extended, out@),
        decreases items@.len(),
    {
        let ghost pre_items = items@;
        let ghost pre_out = out@;
        let x = items.remove(0);
        insert_string_sorted(extended, &mut out, x);
        proof {
            pre_items.to_multiset_ensures();
            assert(items@ == pre_items.remove(0));
            assert(pre_items.remove(0).to_multiset() =~= pre_items.to_multiset().remove(
                pre_items[0],
            ));
            assert(items@.to_multiset() =~= pre_items.to_multiset().remove(pre_items[0]));
            assert(out@.to_multiset() =~= pre_out.to_multiset().insert(pre_items[0]));
            assert(out@.to_multiset().add(items@.to_multiset()) =~= pre_out.to_multiset().add(
                pre_items.to_multiset(),
            )) by {
                assert(pre_items.to_multiset().contains(pre_items[0])) by {
                    assert(pre_items.contains(pre_items[0]));
                }
            }
        }
    }
    proof {
        assert(items@.to_multiset() =~= Multiset::<String>::empty()) by {
            assert(items@ =~= Seq::<String>::empty());
        }
        assert(out@.to_multiset() =~= orig.to_multiset());
    }
    *items = out;
}

} // verus!
