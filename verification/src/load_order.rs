//! The extended load-order table: three well-known bootstrap files first,
//! then the pattern buckets down to weapons, entities and effects, then a
//! catch-all bucket for everything unmatched.

use vstd::prelude::*;

use crate::globs::{glob_matches, glob_pattern_ok, GlobPattern};
use vstd::utf8::encode_utf8;

verus! {

pub open spec fn lo17_pattern(i: int) -> Seq<char> {
    if i == 0 {
        "autorun/*.lua"@
    } else if i == 1 {
        "autorun/server/*.lua"@
    } else if i == 2 {
        "autorun/client/*.lua"@
    } else if i == 3 {
        "postprocess/*.lua"@
    } else if i == 4 {
        "vgui/*.lua"@
    } else if i == 5 {
        "matproxy/*.lua"@
    } else if i == 6 {
        "skins/*.lua"@
    } else if i == 7 {
        "*/gamemode/cl_init.lua"@
    } else if i == 8 {
        "weapons/*.lua"@
    } else if i == 9 {
        "weapons/**/cl_init.lua"@
    } else if i == 10 {
        "weapons/**/init.lua"@
    } else if i == 11 {
        "weapons/**/shared.lua"@
    } else if i == 12 {
        "entities/*.lua"@
    } else if i == 13 {
        "entities/**/cl_init.lua"@
    } else if i == 14 {
        "entities/**/init.lua"@
    } else if i == 15 {
        "entities/**/shared.lua"@
    } else {
        "effects/*.lua"@
    }
}

/// All seventeen table patterns compile.
pub open spec fn lo17_ok() -> bool {
    forall|i: int| 0 <= i < 17 ==> glob_pattern_ok(#[trigger] lo17_pattern(i))
}

pub open spec fn lo17_from(path: Seq<char>, i: int) -> int
    decreases 17 - i when 0 <= i <= 17
{
    if i >= 17 {
        17
    } else if glob_matches(lo17_pattern(i), path) {
        i
    } else {
        lo17_from(path, i + 1)
    }
}

/// Priority bucket of a path: the three bootstrap files come first, then the
/// first matching pattern, and everything unmatched goes in the last bucket.
pub open spec fn lo17_index(path: Seq<char>) -> int {
    if encode_utf8(path) == encode_utf8("includes/init.lua"@) {
        0
    } else if encode_utf8(path) == encode_utf8("derma/init.lua"@) {
        1
    } else if encode_utf8(path) == encode_utf8("base/gamemode/cl_init.lua"@) {
        2
    } else if lo17_from(path, 0) == 17 {
        21
    } else {
        lo17_from(path, 0) + 3
    }
}

pub proof fn lemma_lo17_skip(path: Seq<char>, k: int)
    requires
        0 <= k <= 17,
        forall|j: int| 0 <= j < k ==> !glob_matches(#[trigger] lo17_pattern(j), path),
    ensures
        lo17_from(path, 0) == lo17_from(path, k),
    decreases k,
{
    if k > 0 {
        lemma_lo17_skip(path, k - 1);
    }
}

/// Compiles the table; `None` when some pattern text is invalid, which the
/// fixed table never is at run time.
pub fn build_lo17_table() -> (r: Option<Vec<GlobPattern>>)
    ensures
        match r {
            Some(v) => {
                &&& v@.len() == 17
                &&& forall|i: int| 0 <= i < 17 ==> (#[trigger] v@[i])@ == lo17_pattern(i)
            },
            None => !lo17_ok(),
        },
{
    let mut v: Vec<GlobPattern> = Vec::new();
    let mut i: usize = 0;
    let mut failed = false;
    while i < 17
        invariant
            0 <= i <= 17,
            !failed ==> v@.len() == i,
            !failed ==> forall|j: int| 0 <= j < i ==> (#[trigger] v@[j])@ == lo17_pattern(j),
            failed ==> exists|j: int| 0 <= j < 17 && !glob_pattern_ok(#[trigger] lo17_pattern(j)),
        decreases 17 - i,
    {
        let text: &str = if i == 0 {
            "autorun/*.lua"
        } else if i == 1 {
            "autorun/server/*.lua"
        } else if i == 2 {
            "autorun/client/*.lua"
        } else if i == 3 {
            "postprocess/*.lua"
        } else if i == 4 {
            "vgui/*.lua"
        } else if i == 5 {
            "matproxy/*.lua"
        } else if i == 6 {
            "skins/*.lua"
        } else if i == 7 {
            "*/gamemode/cl_init.lua"
        } else if i == 8 {
            "weapons/*.lua"
        } else if i == 9 {
            "weapons/**/cl_init.lua"
        } else if i == 10 {
            "weapons/**/init.lua"
        } else if i == 11 {
            "weapons/**/shared.lua"
        } else if i == 12 {
            "entities/*.lua"
        } else if i == 13 {
            "entities/**/cl_init.lua"
        } else if i == 14 {
            "entities/**/init.lua"
        } else if i == 15 {
            "entities/**/shared.lua"
        } else {
            "effects/*.lua"
        };
        assert(text@ == lo17_pattern(i as int));
        match GlobPattern::new(text) {
            Some(g) => {
                if !failed {
                    v.push(g);
                }
            },
            None => {
                failed = true;
            },
        }
        i = i + 1;
    }
    if failed {
        None
    } else {
        Some(v)
    }
}

/// Priority bucket of a path under the extended table.
pub fn cmp_index(path: &str) -> (r: usize)
    ensures
        lo17_ok() ==> r as int == lo17_index(path@),
        r <= 21,
{
    let pb = path.as_bytes();
    if crate::order::bytes_eq(pb, "includes/init.lua".as_bytes()) {
        return 0;
    }
    if crate::order::bytes_eq(pb, "derma/init.lua".as_bytes()) {
        return 1;
    }
    if crate::order::bytes_eq(pb, "base/gamemode/cl_init.lua".as_bytes()) {
        return 2;
    }
    let table = match build_lo17_table() {
        Some(t) => t,
        None => {
            return 21;
        },
    };
    let mut i: usize = 0;
    while i < 17
        invariant
            0 <= i <= 17,
            table@.len() == 17,
            forall|j: int| 0 <= j < 17 ==> (#[trigger] table@[j])@ == lo17_pattern(j),
            forall|j: int| 0 <= j < i ==> !glob_matches(#[trigger] lo17_pattern(j), path@),
            encode_utf8(path@) != encode_utf8("includes/init.lua"@),
            encode_utf8(path@) != encode_utf8("derma/init.lua"@),
            encode_utf8(path@) != encode_utf8("base/gamemode/cl_init.lua"@),
        decreases 17 - i,
    {
        if table[i].matches(path) {
            proof {
                lemma_lo17_skip(path@, i as int);
            }
            return i + 3;
        }
        i = i + 1;
    }
    proof {
        lemma_lo17_skip(path@, 17);
    }
    21
}

/// Sorts paths into the extended load order: buckets ascending, ties
/// byte-wise.
pub fn sort(items: &mut Vec<String>)
    ensures
        final(items)@.to_multiset() == old(items)@.to_multiset(),
        lo17_ok() ==> crate::order::strings_sorted(true, final(items)@),
{
    crate::order::sort_strings(true, items);
}

} // verus!
