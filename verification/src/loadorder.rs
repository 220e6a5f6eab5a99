//! The target runtime's script loading order: a fixed, ordered pattern table
//! maps a path to a priority bucket; ties break byte-wise on the path.

use vstd::prelude::*;

use crate::globs::{glob_matches, glob_pattern_ok, GlobPattern};

verus! {

pub open spec fn lo_pattern(i: int) -> Seq<char> {
    if i == 0 {
        "includes/init.lua"@
    } else if i == 1 {
        "derma/init.lua"@
    } else if i == 2 {
        "autorun/*.lua"@
    } else if i == 3 {
        "autorun/server/*.lua"@
    } else if i == 4 {
        "autorun/client/*.lua"@
    } else if i == 5 {
        "postprocess/*.lua"@
    } else if i == 6 {
        "vgui/*.lua"@
    } else if i == 7 {
        "matproxy/*.lua"@
    } else {
        "skins/default.lua"@
    }
}

/// All nine table patterns compile.
pub open spec fn lo_ok() -> bool {
    forall|i: int| 0 <= i < 9 ==> glob_pattern_ok(#[trigger] lo_pattern(i))
}

pub open spec fn lo_index_from(path: Seq<char>, i: int) -> int
    decreases 9 - i when 0 <= i <= 9
{
    if i >= 9 {
        9
    } else if glob_matches(lo_pattern(i), path) {
        i
    } else {
        lo_index_from(path, i + 1)
    }
}

/// Priority bucket of a path: the first matching table entry, or the
/// catch-all bucket after them all.
pub open spec fn lo_index(path: Seq<char>) -> int {
    lo_index_from(path, 0)
}

pub proof fn lemma_lo_index_skip(path: Seq<char>, k: int)
    requires
        0 <= k <= 9,
        forall|j: int| 0 <= j < k ==> !glob_matches(#[trigger] lo_pattern(j), path),
    ensures
        lo_index(path) == lo_index_from(path, k),
    decreases k,
{
    if k > 0 {
        lemma_lo_index_skip(path, k - 1);
    }
}

/// Compiles the table; `None` when some pattern text is invalid, which the
/// fixed table never is at run time.
pub fn build_lo_table() -> (r: Option<Vec<GlobPattern>>)
    ensures
        match r {
            Some(v) => {
                &&& v@.len() == 9
                &&& forall|i: int| 0 <= i < 9 ==> (#[trigger] v@[i])@ == lo_pattern(i)
            },
            None => !lo_ok(),
        },
{
    let mut v: Vec<GlobPattern> = Vec::new();
    let r = (
        GlobPattern::new("includes/init.lua"),
        GlobPattern::new("derma/init.lua"),
        GlobPattern::new("autorun/*.lua"),
        GlobPattern::new("autorun/server/*.lua"),
        GlobPattern::new("autorun/client/*.lua"),
        GlobPattern::new("postprocess/*.lua"),
        GlobPattern::new("vgui/*.lua"),
        GlobPattern::new("matproxy/*.lua"),
        GlobPattern::new("skins/default.lua"),
    );
    proof {
        if r.0 is None {
            assert(!glob_pattern_ok(lo_pattern(0)));
        }
        if r.1 is None {
            assert(!glob_pattern_ok(lo_pattern(1)));
        }
        if r.2 is None {
            assert(!glob_pattern_ok(lo_pattern(2)));
        }
        if r.3 is None {
            assert(!glob_pattern_ok(lo_pattern(3)));
        }
        if r.4 is None {
            assert(!glob_pattern_ok(lo_pattern(4)));
        }
        if r.5 is None {
            assert(!glob_pattern_ok(lo_pattern(5)));
        }
        if r.6 is None {
            assert(!glob_pattern_ok(lo_pattern(6)));
        }
        if r.7 is None {
            assert(!glob_pattern_ok(lo_pattern(7)));
        }
        if r.8 is None {
            assert(!glob_pattern_ok(lo_pattern(8)));
        }
    }
    match r {
        (
            Some(g0),
            Some(g1),
            Some(g2),
            Some(g3),
            Some(g4),
            Some(g5),
            Some(g6),
            Some(g7),
            Some(g8),
        ) => {
            v.push(g0);
            v.push(g1);
            v.push(g2);
            v.push(g3);
            v.push(g4);
            v.push(g5);
            v.push(g6);
            v.push(g7);
            v.push(g8);
            proof {
                assert(v@.len() == 9);
                assert(v@[0] == g0 && v@[1] == g1 && v@[2] == g2 && v@[3] == g3 && v@[4] == g4
                    && v@[5] == g5 && v@[6] == g6 && v@[7] == g7 && v@[8] == g8);
                assert(v@[0]@ == lo_pattern(0));
                assert(v@[1]@ == lo_pattern(1));
                assert(v@[2]@ == lo_pattern(2));
                assert(v@[3]@ == lo_pattern(3));
                assert(v@[4]@ == lo_pattern(4));
                assert(v@[5]@ == lo_pattern(5));
                assert(v@[6]@ == lo_pattern(6));
                assert(v@[7]@ == lo_pattern(7));
                assert(v@[8]@ == lo_pattern(8));
                assert forall|i: int| 0 <= i < 9 implies (#[trigger] v@[i])@ == lo_pattern(i) by {
                    if i == 0 {
                    } else if i == 1 {
                    } else if i == 2 {
                    } else if i == 3 {
                    } else if i == 4 {
                    } else if i == 5 {
                    } else if i == 6 {
                    } else if i == 7 {
                    } else {
                        assert(i == 8);
                    }
                }
            }
            Some(v)
        },
        _ => None,
    }
}

/// Priority bucket of a path. The contract holds whenever the fixed table
/// compiles, which the matcher decides.
pub fn cmp_index(path: &str) -> (r: usize)
    ensures
        lo_ok() ==> r as int == lo_index(path@),
        r <= 9,
{
    let table = match build_lo_table() {
        Some(t) => t,
        None => {
            return 9;
        },
    };
    let mut i: usize = 0;
    while i < 9
        invariant
            0 <= i <= 9,
            table@.len() == 9,
            forall|j: int| 0 <= j < 9 ==> (#[trigger] table@[j])@ == lo_pattern(j),
            forall|j: int| 0 <= j < i ==> !glob_matches(#[trigger] lo_pattern(j), path@),
        decreases 9 - i,
    {
        if table[i].matches(path) {
            proof {
                lemma_lo_index_skip(path@, i as int);
            }
            return i;
        }
        i = i + 1;
    }
    proof {
        lemma_lo_index_skip(path@, 9);
    }
    9
}

/// Total load-order comparison of two paths: bucket first, then byte-wise
/// lexicographic comparison of the paths.
pub fn cmp(x: &str, y: &str) -> (r: core::cmp::Ordering)
    ensures
        lo_ok() ==> r == crate::order::ord_cmp(false, x@, y@),
{
    crate::order::ord_cmp_exec(false, x, y)
}

/// Sorts paths into load order: buckets ascending, ties byte-wise.
pub fn sort(items: &mut Vec<String>)
    ensures
        final(items)@.to_multiset() == old(items)@.to_multiset(),
        lo_ok() ==> crate::order::strings_sorted(false, final(items)@),
{
    crate::order::sort_strings(false, items);
}

} // verus!
