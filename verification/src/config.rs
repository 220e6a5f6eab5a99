//! The packing configuration: per-realm include and entry patterns, shared
//! excludes, and the optional fixed version id. Loading it from disk is the
//! caller's concern; this is the model the pipeline works on.

use vstd::prelude::*;

use crate::globs::{glob_pattern_ok, GlobPattern};

verus! {

pub struct Config {
    pub include_sh: Vec<GlobPattern>,
    pub include_cl: Vec<GlobPattern>,
    pub include_sv: Vec<GlobPattern>,
    pub exclude: Vec<GlobPattern>,
    pub entry_cl: Vec<GlobPattern>,
    pub entry_sh: Vec<GlobPattern>,
    pub entry_sv: Vec<GlobPattern>,
    pub unique_id: Option<String>,
}

/// The source texts of a pattern list, in order.
pub open spec fn pattern_texts(ps: Seq<GlobPattern>) -> Seq<Seq<char>> {
    ps.map_values(|g: GlobPattern| g@)
}

/// Occurrences of `x` among the texts.
pub open spec fn count_eq(ts: Seq<Seq<char>>, x: Seq<char>) -> int
    decreases ts.len(),
{
    if ts.len() == 0 {
        0int
    } else {
        count_eq(ts.drop_last(), x) + (if ts.last() == x {
            1int
        } else {
            0int
        })
    }
}

pub proof fn lemma_count_eq_nonneg(ts: Seq<Seq<char>>, x: Seq<char>)
    ensures
        count_eq(ts, x) >= 0,
    decreases ts.len(),
{
    if ts.len() > 0 {
        lemma_count_eq_nonneg(ts.drop_last(), x);
    }
}

/// One merge step: the list grows by one copy of `x` for every occurrence of
/// `x` it already held.
pub open spec fn merge_step(ts: Seq<Seq<char>>, x: Seq<char>) -> Seq<Seq<char>> {
    ts + Seq::new(count_eq(ts, x) as nat, |i: int| x)
}

/// Merging folds the other list's texts into this one, in order.
pub open spec fn merge_texts(ts: Seq<Seq<char>>, os: Seq<Seq<char>>) -> Seq<Seq<char>>
    decreases os.len(),
{
    if os.len() == 0 {
        ts
    } else {
        merge_step(merge_texts(ts, os.drop_last()), os.last())
    }
}

/// Folds `other` into `this`, one pattern at a time: each pattern of `other`
/// adds one copy of itself per occurrence it already has in the list.
fn merge_vec(this: &mut Vec<GlobPattern>, other: &Vec<GlobPattern>)
    ensures
        pattern_texts(final(this)@) == merge_texts(pattern_texts(old(this)@), pattern_texts(other@)),
{
    let m = other.len();
    let mut j: usize = 0;
    proof {
        assert(pattern_texts(other@).take(0) =~= Seq::<Seq<char>>::empty());
        assert(pattern_texts(this@) =~= merge_texts(
            pattern_texts(this@),
            pattern_texts(other@).take(0),
        ));
    }
    while j < m
        invariant
            m == other@.len(),
            0 <= j <= m,
            pattern_texts(this@) == merge_texts(
                pattern_texts(old(this)@),
                pattern_texts(other@).take(j as int),
            ),
        decreases m - j,
    {
        let ghost pre = pattern_texts(this@);
        let len0 = this.len();
        let mut i: usize = 0;
        proof {
            assert(pre.take(0) =~= Seq::<Seq<char>>::empty());
            assert(count_eq(pre.take(0), other@[j as int]@) == 0);
            assert(pattern_texts(this@) =~= pre + Seq::new(
                count_eq(pre.take(0), other@[j as int]@) as nat,
                |t: int| other@[j as int]@,
            ));
        }
        while i < len0
            invariant
                0 <= i <= len0,
                len0 <= this@.len(),
                m == other@.len(),
                0 <= j < m,
                pre.len() == len0,
                forall|q: int| 0 <= q < len0 ==> (#[trigger] this@[q])@ == pre[q],
                pattern_texts(this@) == pre + Seq::new(
                    count_eq(pre.take(i as int), other@[j as int]@) as nat,
                    |t: int| other@[j as int]@,
                ),
            decreases len0 - i,
        {
            let ghost cnt = count_eq(pre.take(i as int), other@[j as int]@);
            if this[i] == other[j] {
                let ghost before = this@;
                this.push(other[j].clone());
                proof {
                    lemma_count_eq_nonneg(pre.take(i as int), other@[j as int]@);
                    assert(pre.take(i + 1).drop_last() =~= pre.take(i as int));
                    assert(pre.take(i + 1).last() == pre[i as int]);
                    assert(pre[i as int] == other@[j as int]@);
                    assert(count_eq(pre.take(i + 1), other@[j as int]@) == cnt + 1);
                    assert(pattern_texts(this@) =~= pattern_texts(before).push(
                        other@[j as int]@,
                    ));
                    assert(pre + Seq::new((cnt + 1) as nat, |t: int| other@[j as int]@) =~= (pre
                        + Seq::new(cnt as nat, |t: int| other@[j as int]@)).push(
                        other@[j as int]@,
                    ));
                }
            } else {
                proof {
                    assert(pre.take(i + 1).drop_last() =~= pre.take(i as int));
                    assert(pre.take(i + 1).last() == pre[i as int]);
                    assert(pre[i as int] != other@[j as int]@);
                    assert(count_eq(pre.take(i + 1), other@[j as int]@) == cnt);
                }
            }
            i = i + 1;
        }
        proof {
            assert(pre.take(len0 as int) =~= pre);
            let ot = pattern_texts(other@);
            assert(ot.take(j + 1).drop_last() =~= ot.take(j as int));
            assert(ot.take(j + 1).last() == ot[j as int]);
            assert(ot[j as int] == other@[j as int]@);
            assert(pattern_texts(this@) == merge_step(pre, other@[j as int]@));
            assert(merge_texts(pattern_texts(old(this)@), ot.take(j + 1)) == merge_step(
                merge_texts(pattern_texts(old(this)@), ot.take(j as int)),
                ot[j as int],
            ));
        }
        j = j + 1;
    }
    proof {
        assert(pattern_texts(other@).take(m as int) =~= pattern_texts(other@));
    }
}

impl Config {
    /// Folds another configuration into this one: the id override is taken
    /// from the other, and each pattern list is merged in order.
    pub fn merge(&mut self, other: &Config)
        ensures
            final(self).unique_id == other.unique_id,
            pattern_texts(final(self).include_sh@) == merge_texts(
                pattern_texts(old(self).include_sh@),
                pattern_texts(other.include_sh@),
            ),
            pattern_texts(final(self).include_cl@) == merge_texts(
                pattern_texts(old(self).include_cl@),
                pattern_texts(other.include_cl@),
            ),
            pattern_texts(final(self).include_sv@) == merge_texts(
                pattern_texts(old(self).include_sv@),
                pattern_texts(other.include_sv@),
            ),
            pattern_texts(final(self).exclude@) == merge_texts(
                pattern_texts(old(self).exclude@),
                pattern_texts(other.exclude@),
            ),
            pattern_texts(final(self).entry_cl@) == merge_texts(
                pattern_texts(old(self).entry_cl@),
                pattern_texts(other.entry_cl@),
            ),
            pattern_texts(final(self).entry_sh@) == merge_texts(
                pattern_texts(old(self).entry_sh@),
                pattern_texts(other.entry_sh@),
            ),
            pattern_texts(final(self).entry_sv@) == merge_texts(
                pattern_texts(old(self).entry_sv@),
                pattern_texts(other.entry_sv@),
            ),
    {
        self.unique_id = match &other.unique_id {
            Some(s) => Some(s.clone()),
            None => None,
        };
        merge_vec(&mut self.include_sh, &other.include_sh);
        merge_vec(&mut self.include_cl, &other.include_cl);
        merge_vec(&mut self.include_sv, &other.include_sv);
        merge_vec(&mut self.exclude, &other.exclude);
        merge_vec(&mut self.entry_cl, &other.entry_cl);
        merge_vec(&mut self.entry_sh, &other.entry_sh);
        merge_vec(&mut self.entry_sv, &other.entry_sv);
    }
}

/// Appends a compiled pattern; an invalid text, which the built-in defaults
/// never are, is skipped.
fn push_pattern(v: &mut Vec<GlobPattern>, text: &str)
    ensures
        glob_pattern_ok(text@) ==> pattern_texts(final(v)@) == pattern_texts(old(v)@).push(text@),
        !glob_pattern_ok(text@) ==> final(v)@ == old(v)@,
{
    match GlobPattern::new(text) {
        Some(g) => {
            v.push(g);
            proof {
                assert(pattern_texts(v@) =~= pattern_texts(old(v)@).push(text@));
            }
        },
        None => {},
    }
}

impl Default for Config {
    /// The built-in defaults: shared, client and server include patterns by
    /// file naming convention, the conventional entry locations, no excludes
    /// and no id override.
    fn default() -> (r: Config)
        ensures
            r.unique_id is None,
            r.exclude@.len() == 0,
            glob_pattern_ok("**/sh_*.lua"@) && glob_pattern_ok("**/*.sh.lua"@)
                ==> pattern_texts(r.include_sh@) == seq!["**/sh_*.lua"@, "**/*.sh.lua"@],
            glob_pattern_ok("**/sv_*.lua"@) && glob_pattern_ok("**/*.sv.lua"@)
                ==> pattern_texts(r.include_sv@) == seq!["**/sv_*.lua"@, "**/*.sv.lua"@],
            glob_pattern_ok("**/cl_*.lua"@) && glob_pattern_ok("**/*.cl.lua"@)
                && glob_pattern_ok("vgui/*.lua"@) && glob_pattern_ok("skins/*.lua"@)
                && glob_pattern_ok("postprocess/*.lua"@) ==> pattern_texts(r.include_cl@) == seq![
                "**/cl_*.lua"@,
                "**/*.cl.lua"@,
                "vgui/*.lua"@,
                "skins/*.lua"@,
                "postprocess/*.lua"@,
            ],
            glob_pattern_ok("autorun/client/*.lua"@) && glob_pattern_ok("vgui/*.lua"@)
                && glob_pattern_ok("skins/*.lua"@) && glob_pattern_ok("postprocess/*.lua"@)
                ==> pattern_texts(r.entry_cl@) == seq![
                "autorun/client/*.lua"@,
                "vgui/*.lua"@,
                "skins/*.lua"@,
                "postprocess/*.lua"@,
            ],
            glob_pattern_ok("autorun/*.lua"@) ==> pattern_texts(r.entry_sh@) == seq![
                "autorun/*.lua"@,
            ],
            glob_pattern_ok("autorun/server/*.lua"@) ==> pattern_texts(r.entry_sv@) == seq![
                "autorun/server/*.lua"@,
            ],
    {
        let mut include_sh: Vec<GlobPattern> = Vec::new();
        push_pattern(&mut include_sh, "**/sh_*.lua");
        push_pattern(&mut include_sh, "**/*.sh.lua");
        let mut include_cl: Vec<GlobPattern> = Vec::new();
        push_pattern(&mut include_cl, "**/cl_*.lua");
        push_pattern(&mut include_cl, "**/*.cl.lua");
        push_pattern(&mut include_cl, "vgui/*.lua");
        push_pattern(&mut include_cl, "skins/*.lua");
        push_pattern(&mut include_cl, "postprocess/*.lua");
        let mut include_sv: Vec<GlobPattern> = Vec::new();
        push_pattern(&mut include_sv, "**/sv_*.lua");
        push_pattern(&mut include_sv, "**/*.sv.lua");
        let exclude: Vec<GlobPattern> = Vec::new();
        let mut entry_cl: Vec<GlobPattern> = Vec::new();
        push_pattern(&mut entry_cl, "autorun/client/*.lua");
        push_pattern(&mut entry_cl, "vgui/*.lua");
        push_pattern(&mut entry_cl, "skins/*.lua");
        push_pattern(&mut entry_cl, "postprocess/*.lua");
        let mut entry_sh: Vec<GlobPattern> = Vec::new();
        push_pattern(&mut entry_sh, "autorun/*.lua");
        let mut entry_sv: Vec<GlobPattern> = Vec::new();
        push_pattern(&mut entry_sv, "autorun/server/*.lua");
        proof {
            if glob_pattern_ok("**/sh_*.lua"@) && glob_pattern_ok("**/*.sh.lua"@) {
                assert(pattern_texts(include_sh@) =~= seq!["**/sh_*.lua"@, "**/*.sh.lua"@]);
            }
            if glob_pattern_ok("**/sv_*.lua"@) && glob_pattern_ok("**/*.sv.lua"@) {
                assert(pattern_texts(include_sv@) =~= seq!["**/sv_*.lua"@, "**/*.sv.lua"@]);
            }
            if glob_pattern_ok("**/cl_*.lua"@) && glob_pattern_ok("**/*.cl.lua"@)
                && glob_pattern_ok("vgui/*.lua"@) && glob_pattern_ok("skins/*.lua"@)
                && glob_pattern_ok("postprocess/*.lua"@) {
                assert(pattern_texts(include_cl@) =~= seq![
                    "**/cl_*.lua"@,
                    "**/*.cl.lua"@,
                    "vgui/*.lua"@,
                    "skins/*.lua"@,
                    "postprocess/*.lua"@,
                ]);
            }
            if glob_pattern_ok("autorun/client/*.lua"@) && glob_pattern_ok("vgui/*.lua"@)
                && glob_pattern_ok("skins/*.lua"@) && glob_pattern_ok("postprocess/*.lua"@) {
                assert(pattern_texts(entry_cl@) =~= seq![
                    "autorun/client/*.lua"@,
                    "vgui/*.lua"@,
                    "skins/*.lua"@,
                    "postprocess/*.lua"@,
                ]);
            }
            if glob_pattern_ok("autorun/*.lua"@) {
                assert(pattern_texts(entry_sh@) =~= seq!["autorun/*.lua"@]);
            }
            if glob_pattern_ok("autorun/server/*.lua"@) {
                assert(pattern_texts(entry_sv@) =~= seq!["autorun/server/*.lua"@]);
            }
        }
        Config {
            include_sh,
            include_cl,
            include_sv,
            exclude,
            entry_cl,
            entry_sh,
            entry_sv,
            unique_id: None,
        }
    }
}

} // verus!
