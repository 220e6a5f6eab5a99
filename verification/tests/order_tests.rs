use gluapack::config::Config;
use gluapack::entities::{extract_entity, EntityType};
use gluapack::globs::GlobPattern;
use gluapack::pack::{collect_lua_files, LuaFile};
use gluapack::util::{file_size, files_report};
use gluapack::{load_order, loadorder};

#[test]
fn load_order_sorts_buckets_then_paths() {
    let mut items = vec![
        "zzz/unmatched.lua".to_string(),
        "weapons/x/cl_init.lua".to_string(),
        "autorun/server/b.lua".to_string(),
        "autorun/a.lua".to_string(),
    ];
    load_order::sort(&mut items);
    assert_eq!(
        items,
        vec![
            "autorun/a.lua".to_string(),
            "autorun/server/b.lua".to_string(),
            "weapons/x/cl_init.lua".to_string(),
            "zzz/unmatched.lua".to_string(),
        ]
    );
}

#[test]
fn extended_buckets_are_as_documented() {
    assert_eq!(load_order::cmp_index("includes/init.lua"), 0);
    assert_eq!(load_order::cmp_index("derma/init.lua"), 1);
    assert_eq!(load_order::cmp_index("base/gamemode/cl_init.lua"), 2);
    assert_eq!(load_order::cmp_index("autorun/a.lua"), 3);
    assert_eq!(load_order::cmp_index("autorun/server/b.lua"), 4);
    assert_eq!(load_order::cmp_index("weapons/x/cl_init.lua"), 12);
    assert_eq!(load_order::cmp_index("zzz/unmatched.lua"), 21);
}

#[test]
fn base_table_breaks_ties_lexicographically() {
    assert_eq!(loadorder::cmp_index("autorun/a.lua"), 2);
    assert_eq!(loadorder::cmp_index("nothing/here.lua"), 9);
    assert_eq!(
        loadorder::cmp("autorun/a.lua", "autorun/b.lua"),
        std::cmp::Ordering::Less
    );
    assert_eq!(
        loadorder::cmp("autorun/b.lua", "autorun/a.lua"),
        std::cmp::Ordering::Greater
    );
    assert_eq!(
        loadorder::cmp("autorun/a.lua", "vgui/a.lua"),
        std::cmp::Ordering::Less
    );
    let mut items = vec!["b.lua".to_string(), "a.lua".to_string(), "autorun/z.lua".to_string()];
    loadorder::sort(&mut items);
    assert_eq!(
        items,
        vec!["autorun/z.lua".to_string(), "a.lua".to_string(), "b.lua".to_string()]
    );
}

#[test]
fn glob_patterns_require_a_literal_separator() {
    let p = GlobPattern::new("autorun/*.lua").unwrap();
    assert!(p.matches("autorun/a.lua"));
    assert!(!p.matches("autorun/sub/a.lua"));
    assert!(!p.matches("other/a.lua"));
    assert_eq!(p.as_str(), "autorun/*.lua");
    let deep = GlobPattern::new("**/sh_*.lua").unwrap();
    assert!(deep.matches("foo/bar/sh_x.lua"));
    assert!(GlobPattern::new("a[").is_none());
}

#[test]
fn entity_paths_are_recognized() {
    let (dir, ty) = extract_entity("weapons/gun.lua").unwrap();
    assert_eq!(dir, "weapons/gun.lua");
    assert!(matches!(ty, EntityType::Weapon));

    let (dir, ty) = extract_entity("entities/door/init.lua").unwrap();
    assert_eq!(dir, "entities/door/init.lua");
    assert!(matches!(ty, EntityType::Entity));

    let (dir, ty) = extract_entity("gamemodes/mygm/entities/effects/fx.lua").unwrap();
    assert_eq!(dir, "mygm/entities/effects/fx.lua");
    assert!(matches!(ty, EntityType::Effect));

    let (dir, ty) = extract_entity("addons/thing/lua/weapons/w/shared.lua").unwrap();
    assert_eq!(dir, "weapons/w/shared.lua");
    assert!(matches!(ty, EntityType::Weapon));

    assert!(extract_entity("autorun/a.lua").is_none());
    assert!(extract_entity("entities/x.txt").is_none());
    assert!(extract_entity("weapons/.lua").is_none());
    assert!(extract_entity("entities/a/b/init.lua").is_none());
    assert!(extract_entity("gamemodes/mygm/other/entities/e.lua").is_none());
}

#[test]
fn collector_excludes_deduplicates_and_sorts() {
    let arrivals = vec![
        LuaFile { path: "zz/sh_b.lua".to_string(), contents: b"b".to_vec() },
        LuaFile { path: "autorun/a.lua".to_string(), contents: b"first".to_vec() },
        LuaFile { path: "autorun/a.lua".to_string(), contents: b"second".to_vec() },
        LuaFile { path: "secret/sh_x.lua".to_string(), contents: b"x".to_vec() },
    ];
    let excludes = vec![GlobPattern::new("secret/*").unwrap()];
    let entries = vec![GlobPattern::new("autorun/*.lua").unwrap()];
    let (files, entry_files) = collect_lua_files(arrivals, &excludes, &entries);
    let paths: Vec<&str> = files.iter().map(|f| f.path.as_str()).collect();
    assert_eq!(paths, vec!["autorun/a.lua", "zz/sh_b.lua"]);
    // The first arrival of a duplicated path wins.
    assert_eq!(files[0].contents, b"first".to_vec());
    assert_eq!(entry_files, vec!["autorun/a.lua".to_string()]);
}

#[test]
fn config_merge_takes_the_other_id_and_doubles_known_patterns() {
    let mut a = Config::default();
    let mut b = Config::default();
    b.unique_id = Some("someid".to_string());
    let before = a.include_sh.len();
    a.merge(&b);
    assert_eq!(a.unique_id, Some("someid".to_string()));
    // Every pattern of the default list occurs in both sides, so each gains
    // one copy per occurrence it already had.
    assert_eq!(a.include_sh.len(), before * 2);
}

#[test]
fn default_config_has_the_documented_patterns() {
    let c = Config::default();
    let texts: Vec<&str> = c.include_sh.iter().map(|p| p.as_str()).collect();
    assert_eq!(texts, vec!["**/sh_*.lua", "**/*.sh.lua"]);
    let texts: Vec<&str> = c.entry_sh.iter().map(|p| p.as_str()).collect();
    assert_eq!(texts, vec!["autorun/*.lua"]);
    assert!(c.exclude.is_empty());
    assert!(c.unique_id.is_none());
}

#[test]
fn size_and_count_reports_round_to_two_places() {
    assert_eq!(file_size(500), "500 bytes");
    assert_eq!(file_size(2500), "2.50 KB");
    assert_eq!(file_size(1_250_000), "1.25 MB");
    assert_eq!(files_report(4, 2), "4 files -> 2 file(s) (-50.00%)");
    assert_eq!(files_report(2, 3), "2 files -> 3 file(s) (+50.00%)");
    assert_eq!(files_report(5, 5), "5 files -> 5 file(s) (0.00%)");
}

#[test]
fn statistics_strings_come_from_the_counts() {
    let stats = gluapack::pack::PackingStatistics {
        total_unpacked_files: 10,
        total_unpacked_size: 2_000_000,
        total_packed_files: 5,
        total_packed_size: 1_500_000,
        elapsed_micros: 1_234_567,
    };
    assert_eq!(stats.files(), "10 files -> 5 file(s) (-50.00%)");
    assert_eq!(file_size(1_000_000), "1000.00 KB");
    assert_eq!(stats.size(), "2.00 MB -> 1.50 MB (-25.00%)");
    assert_eq!(stats.elapsed(), "1.234s");
}
