//! Programmatic packing: a builder that takes serverside, clientside and
//! shared files one by one, tags entry files and entity directories, and
//! hands the collected set to the packing pipeline.

use vstd::prelude::*;

use crate::entities::{entity_kind, entity_suffix, extract_entity, EntityType};
use crate::pack::{has_path, LuaFile, PackingError, PackPlan, Packer, WrapStyle};

verus! {

/// The execution context a script belongs to.
#[derive(Debug, Clone, Copy, PartialEq, Eq, Structural)]
pub enum Realm {
    Serverside,
    Clientside,
    Shared,
}

/// One file handed to the builder: its realm, whether it is an entry file,
/// its normalized relative path, and its contents.
#[derive(Debug, Clone)]
pub struct ShipmentFile {
    pub realm: Realm,
    pub entry: bool,
    pub path: String,
    pub contents: Vec<u8>,
}

impl ShipmentFile {
    pub fn from_bytes(realm: Realm, entry: bool, path: String, contents: Vec<u8>) -> (r:
        ShipmentFile)
        ensures
            r.realm == realm,
            r.entry == entry,
            r.path == path,
            r.contents == contents,
    {
        ShipmentFile { realm, entry, path, contents }
    }

    /// Relies on std::io::Read::read_to_end: drains the reader into the
    /// file's contents. What was read depends on the reader, so only the
    /// tags and the path are promised.
    #[verifier::external_body]
    pub fn from_reader<R: std::io::Read>(realm: Realm, entry: bool, path: String, reader: &mut R)
        -> (r: Result<ShipmentFile, ShipmentReadError>)
        ensures
            r matches Ok(f) ==> f.realm == realm && f.entry == entry && f.path == path,
    {
        let mut buf = Vec::new();
        match reader.read_to_end(&mut buf) {
            Ok(_) => Ok(ShipmentFile { realm, entry, path, contents: buf }),
            Err(_) => Err(ShipmentReadError {  }),
        }
    }
}

/// A reader handed to the builder failed.
#[derive(Debug, Clone, Copy, PartialEq, Eq, Structural)]
pub struct ShipmentReadError {}

/// Whether some string of the list reads `x`.
pub open spec fn has_str(s: Seq<String>, x: Seq<char>) -> bool {
    exists|i: int| 0 <= i < s.len() && (#[trigger] s[i])@ == x
}

/// The list grew by exactly the string `x` at the end, or already held it.
pub open spec fn inserted_str(pre: Seq<String>, post: Seq<String>, x: Seq<char>) -> bool {
    if has_str(pre, x) {
        post == pre
    } else {
        &&& post.len() == pre.len() + 1
        &&& post.take(pre.len() as int) == pre
        &&& post.last()@ == x
    }
}

/// Appends the string unless an equal one is already present.
fn insert_str_unique(v: &mut Vec<String>, x: String)
    ensures
        inserted_str(old(v)@, final(v)@, x@),
{
    let n = v.len();
    let mut i: usize = 0;
    while i < n
        invariant
            n == v@.len(),
            0 <= i <= n,
            forall|j: int| 0 <= j < i ==> (#[trigger] v@[j])@ != x@,
        decreases n - i,
    {
        if v[i] == x {
            proof {
                assert(v@[i as int]@ == x@);
            }
            return ;
        }
        i = i + 1;
    }
    proof {
        assert(!has_str(v@, x@));
    }
    v.push(x);
    proof {
        assert(v@.take(old(v)@.len() as int) =~= old(v)@);
    }
}

/// Builds a packable addon by hand: per-realm file sets, entry paths, and
/// entity, weapon and effect directory sets.
#[derive(Debug)]
pub struct ShipmentBuilder {
    pub sv: Vec<LuaFile>,
    pub sv_entry_files: Vec<String>,
    pub sh: Vec<LuaFile>,
    pub sh_entry_files: Vec<String>,
    pub cl: Vec<LuaFile>,
    pub cl_entry_files: Vec<String>,
    pub entity_dirs: Vec<String>,
    pub weapon_dirs: Vec<String>,
    pub effect_dirs: Vec<String>,
}

impl Default for ShipmentBuilder {
    /// An empty builder.
    fn default() -> (r: ShipmentBuilder)
        ensures
            r.sv@.len() == 0 && r.sh@.len() == 0 && r.cl@.len() == 0,
            r.sv_entry_files@.len() == 0 && r.sh_entry_files@.len() == 0
                && r.cl_entry_files@.len() == 0,
            r.entity_dirs@.len() == 0 && r.weapon_dirs@.len() == 0 && r.effect_dirs@.len() == 0,
    {
        ShipmentBuilder {
            sv: Vec::new(),
            sv_entry_files: Vec::new(),
            sh: Vec::new(),
            sh_entry_files: Vec::new(),
            cl: Vec::new(),
            cl_entry_files: Vec::new(),
            entity_dirs: Vec::new(),
            weapon_dirs: Vec::new(),
            effect_dirs: Vec::new(),
        }
    }
}

impl ShipmentBuilder {
    pub open spec fn files_of(&self, realm: Realm) -> Seq<LuaFile> {
        match realm {
            Realm::Serverside => self.sv@,
            Realm::Clientside => self.cl@,
            Realm::Shared => self.sh@,
        }
    }

    pub open spec fn entries_of(&self, realm: Realm) -> Seq<String> {
        match realm {
            Realm::Serverside => self.sv_entry_files@,
            Realm::Clientside => self.cl_entry_files@,
            Realm::Shared => self.sh_entry_files@,
        }
    }

    /// Adds one file to its realm. An entity, weapon or effect path
    /// registers its directory instead of an entry mark; otherwise an entry
    /// file's path joins its realm's entry set. The file itself joins its
    /// realm's set at its load-ordered position unless the path is already
    /// present.
    pub fn add(&mut self, file: ShipmentFile)
        ensures
            ({
                let lf = LuaFile { path: file.path, contents: file.contents };
                let pre_files = old(self).files_of(file.realm);
                let post_files = final(self).files_of(file.realm);
                &&& (has_path(pre_files, file.path@) ==> post_files == pre_files)
                &&& (!has_path(pre_files, file.path@) ==> post_files.to_multiset()
                    == pre_files.to_multiset().insert(lf))
                &&& (crate::loadorder::lo_ok() && crate::order::files_sorted(pre_files)
                    ==> crate::order::files_sorted(post_files))
                &&& match entity_suffix(file.path@) {
                    Some((e, k)) => {
                        &&& (k == 0 ==> inserted_str(
                            old(self).entity_dirs@,
                            final(self).entity_dirs@,
                            e,
                        ) && final(self).weapon_dirs@ == old(self).weapon_dirs@ && final(self).effect_dirs@ == old(self).effect_dirs@)
                        &&& (k == 1 ==> inserted_str(
                            old(self).weapon_dirs@,
                            final(self).weapon_dirs@,
                            e,
                        ) && final(self).entity_dirs@ == old(self).entity_dirs@ && final(self).effect_dirs@ == old(self).effect_dirs@)
                        &&& (k == 2 ==> inserted_str(
                            old(self).effect_dirs@,
                            final(self).effect_dirs@,
                            e,
                        ) && final(self).entity_dirs@ == old(self).entity_dirs@ && final(self).weapon_dirs@ == old(self).weapon_dirs@)
                        &&& final(self).entries_of(file.realm) == old(self).entries_of(file.realm)
                    },
                    None => {
                        &&& (file.entry ==> inserted_str(
                            old(self).entries_of(file.realm),
                            final(self).entries_of(file.realm),
                            file.path@,
                        ))
                        &&& (!file.entry ==> final(self).entries_of(file.realm) == old(self).entries_of(
                            file.realm,
                        ))
                        &&& final(self).entity_dirs@ == old(self).entity_dirs@
                        &&& final(self).weapon_dirs@ == old(self).weapon_dirs@
                        &&& final(self).effect_dirs@ == old(self).effect_dirs@
                    },
                }
            }),
    {
        let ShipmentFile { realm, entry, path, contents } = file;
        match extract_entity(path.as_str()) {
            Some((ent, ty)) => {
                match ty {
                    EntityType::Entity => insert_str_unique(&mut self.entity_dirs, ent),
                    EntityType::Weapon => insert_str_unique(&mut self.weapon_dirs, ent),
                    EntityType::Effect => insert_str_unique(&mut self.effect_dirs, ent),
                }
            },
            None => {
                if entry {
                    match realm {
                        Realm::Serverside => insert_str_unique(
                            &mut self.sv_entry_files,
                            path.clone(),
                        ),
                        Realm::Clientside => insert_str_unique(
                            &mut self.cl_entry_files,
                            path.clone(),
                        ),
                        Realm::Shared => insert_str_unique(&mut self.sh_entry_files, path.clone()),
                    }
                }
            },
        }
        let dup = match realm {
            Realm::Serverside => contains_path(&self.sv, &path),
            Realm::Clientside => contains_path(&self.cl, &path),
            Realm::Shared => contains_path(&self.sh, &path),
        };
        if !dup {
            let lf = LuaFile { path, contents };
            match realm {
                Realm::Serverside => crate::order::insert_file_sorted(&mut self.sv, lf),
                Realm::Clientside => crate::order::insert_file_sorted(&mut self.cl, lf),
                Realm::Shared => crate::order::insert_file_sorted(&mut self.sh, lf),
            }
        }
    }

    /// Whether a file with this path stands in the realm's set.
    pub fn has_file(&self, realm: Realm, path: String) -> (r: bool)
        ensures
            r == has_path(self.files_of(realm), path@),
    {
        match realm {
            Realm::Serverside => contains_path(&self.sv, &path),
            Realm::Clientside => contains_path(&self.cl, &path),
            Realm::Shared => contains_path(&self.sh, &path),
        }
    }

    pub fn reserve(&mut self, realm: Realm, entry: bool, additional: usize)
        ensures
            builder_unchanged(*old(self), *final(self)),
    {
        match realm {
            Realm::Serverside => self.reserve_sv(entry, additional),
            Realm::Clientside => self.reserve_cl(entry, additional),
            Realm::Shared => self.reserve_sh(entry, additional),
        }
    }

    pub fn reserve_sv(&mut self, entry: bool, additional: usize)
        ensures
            builder_unchanged(*old(self), *final(self)),
    {
        if entry {
            self.sv_entry_files.reserve(additional);
        } else {
            self.sv.reserve(additional);
        }
    }

    pub fn reserve_cl(&mut self, entry: bool, additional: usize)
        ensures
            builder_unchanged(*old(self), *final(self)),
    {
        if entry {
            self.cl_entry_files.reserve(additional);
        } else {
            self.cl.reserve(additional);
        }
    }

    pub fn reserve_sh(&mut self, entry: bool, additional: usize)
        ensures
            builder_unchanged(*old(self), *final(self)),
    {
        if entry {
            self.sh_entry_files.reserve(additional);
        } else {
            self.sh.reserve(additional);
        }
    }

    pub fn has_cl(&self) -> (r: bool)
        ensures
            r == (self.cl@.len() > 0),
    {
        self.cl.len() > 0
    }

    pub fn has_sh(&self) -> (r: bool)
        ensures
            r == (self.sh@.len() > 0),
    {
        self.sh.len() > 0
    }

    pub fn has_sv(&self) -> (r: bool)
        ensures
            r == (self.sv@.len() > 0),
    {
        self.sv.len() > 0
    }

    pub fn has_entities(&self) -> (r: bool)
        ensures
            r == (self.entity_dirs@.len() > 0),
    {
        self.entity_dirs.len() > 0
    }

    pub fn has_weapons(&self) -> (r: bool)
        ensures
            r == (self.weapon_dirs@.len() > 0),
    {
        self.weapon_dirs.len() > 0
    }

    /// Consumes the builder and runs the packing pipeline on its contents.
    pub fn ship(
        self,
        out_dir: String,
        unique_id: Option<String>,
        style: WrapStyle,
        template: &[u8],
        tool_version: &str,
        compress: bool,
    ) -> (r: Result<PackPlan, PackingError>)
        requires
            forall|i: int|
                0 <= i < self.sv@.len() ==> (#[trigger] self.sv@[i]).contents@.len() <= u32::MAX,
            crate::pack::sum_contents(self.sv@) + crate::pack::sum_contents(self.cl@)
                + crate::pack::sum_contents(self.sh@) <= usize::MAX,
        ensures
            !compress ==> r is Ok,
            r matches Ok(plan) ==> {
                &&& crate::pack::plan_wf(
                    plan,
                    style,
                    template@,
                    tool_version@,
                    unique_id,
                    self.sv_entry_files@,
                    self.cl_entry_files@,
                    self.sh_entry_files@,
                    self.entity_dirs@,
                    self.weapon_dirs@,
                    self.effect_dirs@,
                )
                &&& plan.realm_buffers@.0 == crate::pack::frames(self.sv@, false)
                &&& (!compress ==> plan.realm_buffers@.1 == crate::pack::frames(self.cl@, true))
                &&& (!compress ==> plan.realm_buffers@.2 == crate::pack::frames(self.sh@, true))
            },
    {
        let mut conf = crate::config::Config::default();
        conf.unique_id = unique_id;
        let packer = Packer {
            out_dir,
            config: conf,
            unique_id: None,
            quiet: true,
            in_place: false,
            no_copy: true,
        };
        packer.process(
            style,
            template,
            tool_version,
            self.sv,
            self.sv_entry_files,
            self.cl,
            self.cl_entry_files,
            self.sh,
            self.sh_entry_files,
            self.entity_dirs,
            self.weapon_dirs,
            self.effect_dirs,
            compress,
        )
    }
}

/// Both builders hold the same sets.
pub open spec fn builder_unchanged(a: ShipmentBuilder, b: ShipmentBuilder) -> bool {
    &&& a.sv@ == b.sv@
    &&& a.sh@ == b.sh@
    &&& a.cl@ == b.cl@
    &&& a.sv_entry_files@ == b.sv_entry_files@
    &&& a.sh_entry_files@ == b.sh_entry_files@
    &&& a.cl_entry_files@ == b.cl_entry_files@
    &&& a.entity_dirs@ == b.entity_dirs@
    &&& a.weapon_dirs@ == b.weapon_dirs@
    &&& a.effect_dirs@ == b.effect_dirs@
}

/// Whether a file with this path stands in the list.
fn contains_path(files: &Vec<LuaFile>, path: &String) -> (r: bool)
    ensures
        r == has_path(files@, path@),
{
    let n = files.len();
    let mut i: usize = 0;
    while i < n
        invariant
            n == files@.len(),
            0 <= i <= n,
            forall|j: int| 0 <= j < i ==> (#[trigger] files@[j]).path@ != path@,
        decreases n - i,
    {
        if files[i].path == *path {
            proof {
                assert(files@[i as int].path@ == path@);
            }
            return true;
        }
        i = i + 1;
    }
    false
}

} // verus!
