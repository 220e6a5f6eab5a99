//! Recognition of entity, weapon and effect script paths: a small fixed
//! grammar over the path, with the optional gamemode or addon prefix, the
//! kind directory, and either a single script or a directory with one of the
//! well-known init scripts.

use vstd::prelude::*;
use vstd::string::StrSliceExecFns;

verus! {

#[derive(Debug, Clone, Copy, PartialEq, Eq, Structural)]
pub enum EntityType {
    Entity,
    Weapon,
    Effect,
}

pub open spec fn entity_kind(t: EntityType) -> int {
    match t {
        EntityType::Entity => 0,
        EntityType::Weapon => 1,
        EntityType::Effect => 2,
    }
}

/// Index of the first separator at or after `i`, or `-1`.
pub open spec fn find_slash_from(s: Seq<char>, i: int) -> int
    decreases s.len() - i when 0 <= i <= s.len()
{
    if i >= s.len() {
        -1
    } else if s[i] == '/' {
        i
    } else {
        find_slash_from(s, i + 1)
    }
}

pub proof fn lemma_find_slash_at(s: Seq<char>, from: int, k: int)
    requires
        0 <= from <= k < s.len(),
        s[k] == '/',
        forall|i: int| from <= i < k ==> s[i] != '/',
    ensures
        find_slash_from(s, from) == k,
    decreases k - from,
{
    if from < k {
        lemma_find_slash_at(s, from + 1, k);
    }
}

pub proof fn lemma_find_slash_none(s: Seq<char>, from: int)
    requires
        0 <= from <= s.len(),
        forall|i: int| from <= i < s.len() ==> s[i] != '/',
    ensures
        find_slash_from(s, from) == -1,
    decreases s.len() - from,
{
    if from < s.len() {
        lemma_find_slash_none(s, from + 1);
    }
}

/// The file part under a kind directory: either one script name ending in
/// `.lua`, or one directory holding one of the well-known init scripts.
pub open spec fn name_wf(r: Seq<char>) -> bool {
    let d = find_slash_from(r, 0);
    if d < 0 {
        r.len() >= ".lua"@.len() + 1 && r.skip(r.len() - ".lua"@.len()) == ".lua"@
    } else {
        d > 0 && (r.skip(d + 1) == "cl_init.lua"@ || r.skip(d + 1) == "init.lua"@ || r.skip(d + 1)
            == "shared.lua"@)
    }
}

/// The kind a tail claims: it opens with the kind directory and carries a
/// well-formed file part.
pub open spec fn tail_kind(t: Seq<char>) -> int {
    if t.len() > "entities/"@.len() && t.take("entities/"@.len() as int) == "entities/"@
        && name_wf(t.skip("entities/"@.len() as int)) {
        0
    } else if t.len() > "weapons/"@.len() && t.take("weapons/"@.len() as int) == "weapons/"@
        && name_wf(t.skip("weapons/"@.len() as int)) {
        1
    } else if t.len() > "effects/"@.len() && t.take("effects/"@.len() as int) == "effects/"@
        && name_wf(t.skip("effects/"@.len() as int)) {
        2
    } else {
        -1
    }
}

/// What `extract_entity` yields: the registration directory (the path with a
/// gamemode prefix reduced to its part under the gamemode, or an addon
/// prefix stripped) and the kind, when the path speaks the grammar.
pub open spec fn entity_suffix(path: Seq<char>) -> Option<(Seq<char>, int)> {
    let gm = "gamemodes/"@.len() as int;
    let ad = "addons/"@.len() as int;
    let ent = "/entities/"@.len() as int;
    let lua = "/lua/"@.len() as int;
    if path.len() > gm && path.take(gm) == "gamemodes/"@ {
        let d = find_slash_from(path, gm);
        if d > gm && path.len() - d > ent && path.subrange(d, d + ent) == "/entities/"@
            && tail_kind(path.skip(d + ent)) >= 0 {
            Some((path.skip(gm), tail_kind(path.skip(d + ent))))
        } else {
            None
        }
    } else if path.len() > ad && path.take(ad) == "addons/"@ {
        let d = find_slash_from(path, ad);
        if d > ad && path.len() - d > lua && path.subrange(d, d + lua) == "/lua/"@ && tail_kind(
            path.skip(d + lua),
        ) >= 0 {
            Some((path.skip(d + lua), tail_kind(path.skip(d + lua))))
        } else {
            None
        }
    } else {
        if tail_kind(path) >= 0 {
            Some((path, tail_kind(path)))
        } else {
            None
        }
    }
}

/// Whether the characters of `lit` stand in `s` at position `from`.
fn prefix_eq(s: &str, from: usize, lit: &str) -> (r: bool)
    requires
        from + lit@.len() <= s@.len(),
    ensures
        r == (s@.subrange(from as int, from + lit@.len()) == lit@),
{
    let n = s.unicode_len();
    let m = lit.unicode_len();
    let mut i: usize = 0;
    while i < m
        invariant
            n == s@.len(),
            m == lit@.len(),
            from + m <= n,
            0 <= i <= m,
            forall|j: int| 0 <= j < i ==> s@[from + j] == lit@[j],
        decreases m - i,
    {
        let a = s.get_char(from + i);
        let b = lit.get_char(i);
        if a != b {
            proof {
                assert(s@.subrange(from as int, from + lit@.len())[i as int] == s@[from + i]);
            }
            return false;
        }
        i = i + 1;
    }
    proof {
        assert(s@.subrange(from as int, from + lit@.len()) =~= lit@);
    }
    true
}

pub proof fn lemma_find_slash_props(s: Seq<char>, from: int)
    requires
        0 <= from <= s.len(),
    ensures
        find_slash_from(s, from) < 0 ==> forall|i: int| from <= i < s.len() ==> s[i] != '/',
        find_slash_from(s, from) >= 0 ==> {
            &&& from <= find_slash_from(s, from) < s.len()
            &&& s[find_slash_from(s, from)] == '/'
            &&& forall|i: int| from <= i < find_slash_from(s, from) ==> s[i] != '/'
        },
    decreases s.len() - from,
{
    if from < s.len() && s[from] != '/' {
        lemma_find_slash_props(s, from + 1);
    }
}

/// First separator at or after `from`, as an index into `s`, or the length.
fn find_slash_exec(s: &str, from: usize) -> (r: usize)
    requires
        from <= s@.len(),
    ensures
        from <= r <= s@.len(),
        r < s@.len() ==> find_slash_from(s@, from as int) == r,
        r == s@.len() ==> find_slash_from(s@, from as int) == -1,
{
    let n = s.unicode_len();
    let mut i: usize = from;
    while i < n && s.get_char(i) != '/'
        invariant
            n == s@.len(),
            from <= i <= n,
            forall|j: int| from <= j < i ==> s@[j] != '/',
        decreases n - i,
    {
        i = i + 1;
    }
    proof {
        if i < n {
            lemma_find_slash_at(s@, from as int, i as int);
        } else {
            lemma_find_slash_none(s@, from as int);
        }
    }
    i
}

/// Whether the suffix of `s` starting at `from` is exactly `lit`.
fn check_tail_lit(s: &str, from: usize, lit: &str) -> (r: bool)
    requires
        from <= s@.len(),
    ensures
        r == (s@.skip(from as int) == lit@),
{
    let n = s.unicode_len();
    let m = lit.unicode_len();
    if n - from != m {
        proof {
            assert(s@.skip(from as int).len() != lit@.len());
        }
        return false;
    }
    let r = prefix_eq(s, from, lit);
    proof {
        assert(s@.skip(from as int) =~= s@.subrange(from as int, from + lit@.len()));
    }
    r
}

/// Decides `name_wf` of the path's suffix starting at `from`.
fn name_wf_exec(s: &str, from: usize) -> (r: bool)
    requires
        from <= s@.len(),
    ensures
        r == name_wf(s@.skip(from as int)),
{
    let n = s.unicode_len();
    let ghost t = s@.skip(from as int);
    let d = find_slash_exec(s, from);
    proof {
        lemma_find_slash_props(s@, from as int);
        // The relative and absolute scans agree.
        if d < n {
            assert(t[d - from] == s@[d as int]);
            assert forall|i: int| 0 <= i < d - from implies t[i] != '/' by {
                assert(t[i] == s@[from + i]);
            }
            lemma_find_slash_at(t, 0, d - from);
        } else {
            assert forall|i: int| 0 <= i < t.len() implies t[i] != '/' by {
                assert(t[i] == s@[from + i]);
            }
            lemma_find_slash_none(t, 0);
        }
    }
    if d == n {
        // A single segment: it must be long enough and end in the script
        // extension.
        let lit = ".lua";
        let m = lit.unicode_len();
        if n - from <= m {
            return false;
        }
        let r = prefix_eq(s, n - m, lit);
        proof {
            assert(t.skip(t.len() - ".lua"@.len()) =~= s@.subrange(n - ".lua"@.len(), n as int));
        }
        r
    } else {
        if d == from {
            return false;
        }
        let r = check_tail_lit(s, d + 1, "cl_init.lua") || check_tail_lit(s, d + 1, "init.lua")
            || check_tail_lit(s, d + 1, "shared.lua");
        proof {
            assert(t.skip((d - from) + 1) =~= s@.subrange(d + 1, n as int));
            assert(s@.skip(d + 1) =~= s@.subrange(d + 1, n as int));
        }
        r
    }
}

/// The kind directory names and the optional prefixes open with characters
/// that tell them apart.
proof fn lemma_kind_words()
    ensures
        "entities/"@.len() == 9,
        "weapons/"@.len() == 8,
        "effects/"@.len() == 8,
        "gamemodes/"@.len() == 10,
        "addons/"@.len() == 7,
        "entities/"@[0] == 'e',
        "weapons/"@[0] == 'w',
        "effects/"@[0] == 'e',
        "entities/"@[1] == 'n',
        "effects/"@[1] == 'f',
        "gamemodes/"@[0] == 'g',
        "addons/"@[0] == 'a',
{
    reveal_strlit("entities/");
    reveal_strlit("weapons/");
    reveal_strlit("effects/");
    reveal_strlit("gamemodes/");
    reveal_strlit("addons/");
}

/// Decides `tail_kind` of the path's suffix starting at `from`.
fn tail_kind_exec(s: &str, from: usize) -> (r: Option<EntityType>)
    requires
        from <= s@.len(),
    ensures
        match r {
            Some(ty) => tail_kind(s@.skip(from as int)) == entity_kind(ty),
            None => tail_kind(s@.skip(from as int)) == -1,
        },
{
    let n = s.unicode_len();
    let ghost t = s@.skip(from as int);
    let m_ent = "entities/".unicode_len();
    let m_wep = "weapons/".unicode_len();
    let m_eff = "effects/".unicode_len();
    let p_ent = n - from > m_ent && prefix_eq(s, from, "entities/");
    let p_wep = n - from > m_wep && prefix_eq(s, from, "weapons/");
    let p_eff = n - from > m_eff && prefix_eq(s, from, "effects/");
    proof {
        lemma_kind_words();
        assert(t.len() == n - from);
        if t.len() > "entities/"@.len() {
            assert(t.take("entities/"@.len() as int) =~= s@.subrange(
                from as int,
                from + "entities/"@.len(),
            ));
            if t.take("entities/"@.len() as int) == "entities/"@ {
                assert(t.take("entities/"@.len() as int)[0] == t[0]);
                assert(t.take("entities/"@.len() as int)[1] == t[1]);
            }
        }
        if t.len() > "weapons/"@.len() {
            assert(t.take("weapons/"@.len() as int) =~= s@.subrange(
                from as int,
                from + "weapons/"@.len(),
            ));
            if t.take("weapons/"@.len() as int) == "weapons/"@ {
                assert(t.take("weapons/"@.len() as int)[0] == t[0]);
            }
        }
        if t.len() > "effects/"@.len() {
            assert(t.take("effects/"@.len() as int) =~= s@.subrange(
                from as int,
                from + "effects/"@.len(),
            ));
            if t.take("effects/"@.len() as int) == "effects/"@ {
                assert(t.take("effects/"@.len() as int)[0] == t[0]);
                assert(t.take("effects/"@.len() as int)[1] == t[1]);
            }
        }
        assert(t.skip(0) =~= t);
    }
    if p_ent {
        let ok = name_wf_exec(s, from + m_ent);
        proof {
            assert(t.skip("entities/"@.len() as int) =~= s@.skip(from + "entities/"@.len()));
        }
        if ok {
            Some(EntityType::Entity)
        } else {
            None
        }
    } else if p_wep {
        let ok = name_wf_exec(s, from + m_wep);
        proof {
            assert(t.skip("weapons/"@.len() as int) =~= s@.skip(from + "weapons/"@.len()));
        }
        if ok {
            Some(EntityType::Weapon)
        } else {
            None
        }
    } else if p_eff {
        let ok = name_wf_exec(s, from + m_eff);
        proof {
            assert(t.skip("effects/"@.len() as int) =~= s@.skip(from + "effects/"@.len()));
        }
        if ok {
            Some(EntityType::Effect)
        } else {
            None
        }
    } else {
        None
    }
}

/// Recognizes an entity, weapon or effect script path and yields the
/// directory to register together with its kind.
pub fn extract_entity(path: &str) -> (r: Option<(String, EntityType)>)
    ensures
        match r {
            Some((s, ty)) => entity_suffix(path@) == Some((s@, entity_kind(ty))),
            None => entity_suffix(path@) is None,
        },
{
    let n = path.unicode_len();
    let m_gm = "gamemodes/".unicode_len();
    let m_ad = "addons/".unicode_len();
    let p_gm = n > m_gm && prefix_eq(path, 0, "gamemodes/");
    let p_ad = n > m_ad && prefix_eq(path, 0, "addons/");
    proof {
        lemma_kind_words();
        if path@.len() > "gamemodes/"@.len() {
            assert(path@.take("gamemodes/"@.len() as int) =~= path@.subrange(
                0,
                "gamemodes/"@.len() as int,
            ));
            if path@.take("gamemodes/"@.len() as int) == "gamemodes/"@ {
                assert(path@.take("gamemodes/"@.len() as int)[0] == path@[0]);
            }
        }
        if path@.len() > "addons/"@.len() {
            assert(path@.take("addons/"@.len() as int) =~= path@.subrange(
                0,
                "addons/"@.len() as int,
            ));
            if path@.take("addons/"@.len() as int) == "addons/"@ {
                assert(path@.take("addons/"@.len() as int)[0] == path@[0]);
            }
        }
    }
    if p_gm {
        let d = find_slash_exec(path, m_gm);
        let m_ent = "/entities/".unicode_len();
        if d > m_gm && d < n && n - d > m_ent && prefix_eq(path, d, "/entities/") {
            match tail_kind_exec(path, d + m_ent) {
                Some(ty) => {
                    let out = path.substring_char(m_gm, n).to_owned();
                    proof {
                        assert(path@.skip("gamemodes/"@.len() as int) =~= path@.subrange(
                            "gamemodes/"@.len() as int,
                            n as int,
                        ));
                    }
                    Some((out, ty))
                },
                None => None,
            }
        } else {
            None
        }
    } else if p_ad {
        let d = find_slash_exec(path, m_ad);
        let m_lua = "/lua/".unicode_len();
        if d > m_ad && d < n && n - d > m_lua && prefix_eq(path, d, "/lua/") {
            match tail_kind_exec(path, d + m_lua) {
                Some(ty) => {
                    let out = path.substring_char(d + m_lua, n).to_owned();
                    proof {
                        assert(path@.skip(d + "/lua/"@.len()) =~= path@.subrange(
                            d + "/lua/"@.len(),
                            n as int,
                        ));
                    }
                    Some((out, ty))
                },
                None => None,
            }
        } else {
            None
        }
    } else {
        proof {
            assert(path@.skip(0) =~= path@);
        }
        match tail_kind_exec(path, 0) {
            Some(ty) => {
                let out = path.to_owned();
                Some((out, ty))
            },
            None => None,
        }
    }
}

} // verus!
