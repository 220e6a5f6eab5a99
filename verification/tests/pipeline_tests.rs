use sha2::Digest;

use gluapack::config::Config;
use gluapack::pack::{
    compute_unique_id, generate_cache_manifest, pack_lua_files, validate_realms, LuaFile, Packer,
    PackingError, WrapStyle,
};
use gluapack::ship::{Realm, ShipmentBuilder, ShipmentFile};

fn lua(path: &str, contents: &[u8]) -> LuaFile {
    LuaFile { path: path.to_string(), contents: contents.to_vec() }
}

fn packer() -> Packer {
    Packer {
        out_dir: String::new(),
        config: Config::default(),
        unique_id: None,
        quiet: true,
        in_place: false,
        no_copy: true,
    }
}

const TEMPLATE: &[u8] =
    b"SV={ENTRY_FILES_SV};CL={ENTRY_FILES_CL};SH={ENTRY_FILES_SH};E={ENTRY_ENTITIES};W={ENTRY_WEAPONS};FX={ENTRY_EFFECTS};";

#[test]
fn realm_conflict_names_the_shared_path_and_nothing_is_planned() {
    let sv = vec![lua("foo/code.lua", b"a")];
    let sh = vec![lua("other.lua", b"b")];
    let cl = vec![lua("foo/code.lua", b"c")];
    match validate_realms(&sv, &sh, &cl) {
        Err(PackingError::RealmConflict(p)) => assert_eq!(p, "foo/code.lua"),
        other => panic!("expected a realm conflict, got {:?}", other.is_ok()),
    }
}

#[test]
fn empty_input_set_is_refused() {
    let none: Vec<LuaFile> = Vec::new();
    assert!(matches!(
        validate_realms(&none, &none, &none),
        Err(PackingError::NoLuaFiles)
    ));
}

#[test]
fn disjoint_realms_validate() {
    let sv = vec![lua("a.lua", b"a")];
    let sh = vec![lua("b.lua", b"b")];
    let cl = vec![lua("c.lua", b"c")];
    assert!(validate_realms(&sv, &sh, &cl).is_ok());
}

#[test]
fn unique_id_override_is_used_verbatim() {
    let mut p = packer();
    p.config.unique_id = Some("deadbeefdeadbeef".to_string());
    let plan = p
        .process(
            WrapStyle::EscapedLiteral,
            TEMPLATE,
            "0.0.0",
            vec![lua("sv.lua", b"x")],
            vec![],
            vec![],
            vec![],
            vec![],
            vec![],
            vec![],
            vec![],
            vec![],
            false,
        )
        .unwrap();
    assert_eq!(plan.unique_id, "deadbeefdeadbeef");
}

#[test]
fn derived_unique_id_matches_the_digest_of_the_buffers() {
    let sv = vec![lua("sv.lua", b"server")];
    let sh = vec![lua("sh.lua", b"shared")];
    let cl = vec![lua("cl.lua", b"client")];
    let (_, svb, _) = pack_lua_files(false, &sv, false);
    let (_, shb, _) = pack_lua_files(false, &sh, true);
    let (_, clb, _) = pack_lua_files(false, &cl, true);
    let id = compute_unique_id(&svb, &shb, &clb);
    let mut all = svb.clone();
    all.extend_from_slice(&shb);
    all.extend_from_slice(&clb);
    let digest = sha2::Sha256::digest(&all);
    let expect: String = digest[0..8].iter().map(|b| format!("{:02x}", b)).collect();
    assert_eq!(id, expect);
    assert_eq!(id.len(), 16);
}

#[test]
fn manifest_lists_hex_digests_per_cacheable_realm() {
    let h1: Vec<u8> = (0..20u8).collect();
    let h2 = vec![0xffu8; 20];
    let m = generate_cache_manifest(&vec![h1.clone()], &vec![h2.clone()]);
    let hex1: String = h1.iter().map(|b| format!("{:02x}", b)).collect();
    let hex2: String = h2.iter().map(|b| format!("{:02x}", b)).collect();
    let expect = format!("return{{sh={{\"{}\"}},cl={{\"{}\"}}}}", hex2, hex1);
    assert_eq!(m, expect.as_bytes().to_vec());
    // A realm with no chunks is omitted.
    let m2 = generate_cache_manifest(&vec![h1.clone()], &Vec::new());
    let expect2 = format!("return{{cl={{\"{}\"}}}}", hex1);
    assert_eq!(m2, expect2.as_bytes().to_vec());
}

#[test]
fn chunk_digests_in_manifest_match_the_written_bytes() {
    let p = packer();
    let mut q = p;
    q.config.unique_id = Some("0123456789abcdef".to_string());
    let plan = q
        .process(
            WrapStyle::EscapedLiteral,
            TEMPLATE,
            "0.0.0",
            vec![],
            vec![],
            vec![lua("cl.lua", &vec![b'\n'; 100_000])],
            vec![],
            vec![],
            vec![],
            vec![],
            vec![],
            vec![],
            false,
        )
        .unwrap();
    let chunk_arts: Vec<_> = plan
        .artifacts
        .iter()
        .filter(|a| a.path.ends_with(".cl.lua") && !a.path.ends_with("gluapack.sv.lua"))
        .collect();
    assert!(chunk_arts.len() > 1);
    let manifest = plan
        .artifacts
        .iter()
        .find(|a| a.path.ends_with("manifest.lua"))
        .expect("manifest artifact");
    let text = String::from_utf8(manifest.data.clone()).unwrap();
    for art in chunk_arts {
        let digest = sha2::Sha256::digest(&art.data);
        let hex: String = digest[0..20].iter().map(|b| format!("{:02x}", b)).collect();
        assert!(text.contains(&hex));
    }
}

#[test]
fn packer_stores_the_override_or_the_derived_id() {
    let mut p = packer();
    p.config.unique_id = Some("cafebabecafebabe".to_string());
    p.compute_unique_id(&vec![1u8], &vec![2u8], &vec![3u8]);
    assert_eq!(p.unique_id(), "cafebabecafebabe");
    let mut q = packer();
    q.compute_unique_id(&vec![1u8], &vec![2u8], &vec![3u8]);
    assert_eq!(*q.unique_id(), compute_unique_id(&vec![1u8], &vec![2u8], &vec![3u8]));
}

#[test]
fn manifests_are_identical_across_reruns_with_a_fixed_id() {
    let build = || {
        let mut p = packer();
        p.config.unique_id = Some("feedfacefeedface".to_string());
        p.process(
            WrapStyle::EscapedLiteral,
            TEMPLATE,
            "0.0.0",
            vec![lua("sv_a.lua", b"server code")],
            vec![],
            vec![lua("cl_b.lua", &vec![7u8; 90_000])],
            vec!["cl_b.lua".to_string()],
            vec![lua("sh_c.lua", b"shared")],
            vec![],
            vec![],
            vec![],
            vec![],
            false,
        )
        .unwrap()
    };
    let one = build();
    let two = build();
    let manifest = |plan: &gluapack::pack::PackPlan| {
        plan.artifacts
            .iter()
            .find(|a| a.path.ends_with("manifest.lua"))
            .map(|a| a.data.clone())
            .expect("manifest artifact")
    };
    assert_eq!(manifest(&one), manifest(&two));
    assert_eq!(one.artifacts.len(), two.artifacts.len());
    for (a, b) in one.artifacts.iter().zip(two.artifacts.iter()) {
        assert_eq!(a.path, b.path);
        assert_eq!(a.data, b.data);
    }
}

#[test]
fn server_buffer_is_never_chunked() {
    let big = vec![b'x'; 200_000];
    let mut p = packer();
    p.config.unique_id = Some("0000000000000000".to_string());
    let plan = p
        .process(
            WrapStyle::EscapedLiteral,
            TEMPLATE,
            "0.0.0",
            vec![lua("huge/sv_data.lua", &big)],
            vec![],
            vec![],
            vec![],
            vec![],
            vec![],
            vec![],
            vec![],
            vec![],
            false,
        )
        .unwrap();
    let sv_arts: Vec<_> = plan
        .artifacts
        .iter()
        .filter(|a| a.path.contains("gluapack.sv.lua"))
        .collect();
    assert_eq!(sv_arts.len(), 1);
    assert!(sv_arts[0].data.len() > 65535);
    // Only the single Server artifact and the loader exist.
    assert_eq!(plan.artifacts.len(), 2);
    assert_eq!(plan.total_packed_files, 1);
}

#[test]
fn artifact_names_embed_the_id_and_chunk_indices() {
    let mut p = packer();
    p.config.unique_id = Some("abcdefabcdefabcd".to_string());
    let plan = p
        .process(
            WrapStyle::EscapedLiteral,
            TEMPLATE,
            "1.2.3",
            vec![lua("sv.lua", b"s")],
            vec![],
            vec![lua("cl.lua", &vec![b'0'; 90_000])],
            vec![],
            vec![lua("sh.lua", b"h")],
            vec![],
            vec![],
            vec![],
            vec![],
            false,
        )
        .unwrap();
    let names: Vec<&str> = plan.artifacts.iter().map(|a| a.path.as_str()).collect();
    assert_eq!(names[0], "gluapack/abcdefabcdefabcd/gluapack.sv.lua");
    assert_eq!(names[1], "gluapack/abcdefabcdefabcd/gluapack.1.cl.lua");
    assert!(names.contains(&"gluapack/abcdefabcdefabcd/gluapack.1.sh.lua"));
    assert!(names.contains(&"gluapack/abcdefabcdefabcd/manifest.lua"));
    assert_eq!(
        *names.last().unwrap(),
        "autorun/abcdefabcdefabcd_gluapack_1.2.3.lua"
    );
}

#[test]
fn loader_template_receives_sorted_entry_arrays() {
    let mut p = packer();
    p.config.unique_id = Some("1111111111111111".to_string());
    let plan = p
        .process(
            WrapStyle::EscapedLiteral,
            TEMPLATE,
            "0.0.0",
            vec![lua("autorun/server/b.lua", b"s")],
            vec!["autorun/server/b.lua".to_string()],
            vec![],
            vec![],
            vec![lua("autorun/z.lua", b"z"), lua("autorun/a.lua", b"a")],
            vec!["autorun/z.lua".to_string(), "autorun/a.lua".to_string()],
            vec!["ents/door".to_string()],
            vec![],
            vec![],
            false,
        )
        .unwrap();
    let loader = &plan.artifacts.last().unwrap().data;
    let text = String::from_utf8(loader.clone()).unwrap();
    assert!(text.contains("SV={\"autorun/server/b.lua\"};"));
    assert!(text.contains("SH={\"autorun/a.lua\",\"autorun/z.lua\"};"));
    assert!(text.contains("CL={};"));
    assert!(text.contains("E={\"ents/door\"};"));
}

#[test]
fn shipment_builder_collects_realms_entries_and_entity_dirs() {
    let mut b = ShipmentBuilder::default();
    b.add(ShipmentFile::from_bytes(
        Realm::Clientside,
        true,
        "autorun/client/hud.lua".to_string(),
        b"hud".to_vec(),
    ));
    b.add(ShipmentFile::from_bytes(
        Realm::Serverside,
        false,
        "sv_secret.lua".to_string(),
        b"secret".to_vec(),
    ));
    b.add(ShipmentFile::from_bytes(
        Realm::Shared,
        true,
        "weapons/crowbar/shared.lua".to_string(),
        b"swep".to_vec(),
    ));
    // The same path again changes nothing.
    b.add(ShipmentFile::from_bytes(
        Realm::Serverside,
        false,
        "sv_secret.lua".to_string(),
        b"other".to_vec(),
    ));
    assert!(b.has_cl() && b.has_sv() && b.has_sh());
    assert!(b.has_weapons() && !b.has_entities());
    assert!(b.has_file(Realm::Serverside, "sv_secret.lua".to_string()));
    assert!(!b.has_file(Realm::Clientside, "sv_secret.lua".to_string()));
    assert_eq!(b.sv.len(), 1);
    assert_eq!(b.sv[0].contents, b"secret".to_vec());
    assert_eq!(b.weapon_dirs, vec!["weapons/crowbar/shared.lua".to_string()]);
    // A weapon file registers its directory, not an entry mark.
    assert!(b.sh_entry_files.is_empty());
    assert_eq!(b.cl_entry_files, vec!["autorun/client/hud.lua".to_string()]);

    let plan = b
        .ship(
            String::new(),
            Some("2222222222222222".to_string()),
            WrapStyle::EscapedLiteral,
            TEMPLATE,
            "0.0.0",
            false,
        )
        .unwrap();
    assert!(plan.artifacts.iter().any(|a| a.path.ends_with("gluapack.sv.lua")));
}

#[test]
fn compression_changes_the_cacheable_buffers() {
    let mut p = packer();
    p.config.unique_id = Some("3333333333333333".to_string());
    let cl_files = vec![lua("cl.lua", &vec![b'a'; 50_000])];
    let plan = p
        .process(
            WrapStyle::EscapedLiteral,
            TEMPLATE,
            "0.0.0",
            vec![],
            vec![],
            cl_files.clone(),
            vec![],
            vec![],
            vec![],
            vec![],
            vec![],
            vec![],
            true,
        )
        .unwrap();
    // Highly repetitive input compresses well below the raw encoding, so a
    // single chunk suffices where the raw buffer would have needed several.
    let chunk_count = plan
        .artifacts
        .iter()
        .filter(|a| a.path.contains(".cl.lua"))
        .count();
    assert_eq!(chunk_count, 1);
}

#[test]
fn pack_then_unpack_reproduces_every_file() {
    let sv = vec![lua("autorun/server/s.lua", b"server"), lua("sv_data.lua", &[0u8, 10, 92, 34])];
    let cl = vec![lua("autorun/client/c.lua", b"client\ncode"), lua("cl_bin.lua", &(0..=255u8).collect::<Vec<u8>>())];
    let sh = vec![lua("autorun/sh.lua", b"shared")];
    let mut p = packer();
    p.config.unique_id = Some("4444444444444444".to_string());
    let plan = p
        .process(
            WrapStyle::EscapedLiteral,
            TEMPLATE,
            "0.0.0",
            sv.clone(),
            vec![],
            cl.clone(),
            vec![],
            sh.clone(),
            vec![],
            vec![],
            vec![],
            vec![],
            false,
        )
        .unwrap();
    let sv_art = plan
        .artifacts
        .iter()
        .find(|a| a.path.ends_with("gluapack.sv.lua"))
        .unwrap();
    let got = gluapack::unpack::parse_sv_packed(&sv_art.data).unwrap();
    assert_eq!(got.len(), sv.len());
    for (orig, out) in sv.iter().zip(got.iter()) {
        assert_eq!(out.path, orig.path.as_bytes().to_vec());
        assert_eq!(out.contents, orig.contents);
    }
    let cl_chunks: Vec<Vec<u8>> = plan
        .artifacts
        .iter()
        .filter(|a| a.path.contains(".cl.lua") && !a.path.ends_with("gluapack.sv.lua"))
        .map(|a| a.data.clone())
        .collect();
    let got = gluapack::unpack::parse_packed_files(&cl_chunks).unwrap();
    assert_eq!(got.len(), cl.len());
    for (orig, out) in cl.iter().zip(got.iter()) {
        assert_eq!(out.path, orig.path.as_bytes().to_vec());
        assert_eq!(out.contents, orig.contents);
    }
    let sh_chunks: Vec<Vec<u8>> = plan
        .artifacts
        .iter()
        .filter(|a| a.path.contains(".sh.lua"))
        .map(|a| a.data.clone())
        .collect();
    let got = gluapack::unpack::parse_packed_files(&sh_chunks).unwrap();
    assert_eq!(got.len(), sh.len());
    for (orig, out) in sh.iter().zip(got.iter()) {
        assert_eq!(out.path, orig.path.as_bytes().to_vec());
        assert_eq!(out.contents, orig.contents);
    }
}
