use gluapack::pack::{pack_lua_files, LuaFile};
use gluapack::radix::{dec_of_usize, hex_of_usize, parse_hex_u32};
use gluapack::unpack::{
    parse_cs_packed, parse_packed_files, parse_sv_packed, unwrap_chunk, UnpackingError,
};
use gluapack::wrap::{commentify, split_commented, split_escaped};

fn lua(path: &str, contents: &[u8]) -> LuaFile {
    LuaFile { path: path.to_string(), contents: contents.to_vec() }
}

#[test]
fn hex_rendering_is_minimal_lowercase() {
    assert_eq!(hex_of_usize(0), b"0".to_vec());
    assert_eq!(hex_of_usize(255), b"ff".to_vec());
    assert_eq!(hex_of_usize(4096), b"1000".to_vec());
    assert_eq!(dec_of_usize(0), b"0".to_vec());
    assert_eq!(dec_of_usize(210), b"210".to_vec());
}

#[test]
fn hex_parsing_accepts_both_cases_and_rejects_junk() {
    let token = b"1A3f";
    assert_eq!(parse_hex_u32(token, 0, 4), Some(0x1a3f));
    assert_eq!(parse_hex_u32(b"", 0, 0), None);
    assert_eq!(parse_hex_u32(b"12g4", 0, 4), None);
    assert_eq!(parse_hex_u32(b"100000000", 0, 9), None);
}

#[test]
fn sv_frames_round_trip() {
    let files = vec![
        lua("autorun/server/boot.lua", b"print('hi')"),
        lua("foo/sv_thing.lua", &[0u8, 1, 2, 255, 10, 13]),
        lua("empty.lua", b""),
    ];
    let (_, buf, total) = pack_lua_files(false, &files, false);
    assert_eq!(total, 11 + 6 + 0);
    let out = parse_sv_packed(&buf).unwrap();
    assert_eq!(out.len(), files.len());
    for (orig, got) in files.iter().zip(out.iter()) {
        assert_eq!(got.path, orig.path.as_bytes().to_vec());
        assert_eq!(got.contents, orig.contents);
    }
}

#[test]
fn sv_frame_layout_is_exact() {
    let files = vec![lua("a.lua", b"xy")];
    let (_, buf, _) = pack_lua_files(false, &files, false);
    let mut expect = b"a.lua".to_vec();
    expect.push(0);
    expect.extend_from_slice(&2u32.to_le_bytes());
    expect.extend_from_slice(b"xy");
    assert_eq!(buf, expect);
}

#[test]
fn cs_frames_round_trip() {
    let files = vec![
        lua("autorun/a.lua", b"return 1"),
        lua("vgui/panel.lua", &[0u8, 200, 10, 124, 13]),
        lua("x.lua", b""),
    ];
    let (_, buf, _) = pack_lua_files(false, &files, true);
    let out = parse_cs_packed(&buf).unwrap();
    assert_eq!(out.len(), files.len());
    for (orig, got) in files.iter().zip(out.iter()) {
        assert_eq!(got.path, orig.path.as_bytes().to_vec());
        assert_eq!(got.contents, orig.contents);
    }
}

#[test]
fn cs_frame_layout_uses_hex_length_and_delimiter() {
    let files = vec![lua("b.lua", &vec![7u8; 26])];
    let (_, buf, _) = pack_lua_files(false, &files, true);
    let mut expect = b"b.lua".to_vec();
    expect.push(b'|');
    expect.extend_from_slice(b"1a");
    expect.push(b'|');
    expect.extend_from_slice(&vec![7u8; 26]);
    assert_eq!(buf, expect);
}

#[test]
fn cs_parser_reports_bad_hex_as_format_error() {
    let buf = b"path.lua|zz|abc".to_vec();
    assert!(matches!(parse_cs_packed(&buf), Err(UnpackingError::FormatError)));
}

#[test]
fn cs_parser_reports_non_ascii_length_as_text_error() {
    let mut buf = b"path.lua|".to_vec();
    buf.push(0xC2);
    buf.push(0xA2);
    buf.push(b'|');
    assert!(matches!(parse_cs_packed(&buf), Err(UnpackingError::Utf8Error)));
}

#[test]
fn cs_parser_reports_truncated_contents_as_format_error() {
    let buf = b"path.lua|a|short".to_vec();
    assert!(matches!(parse_cs_packed(&buf), Err(UnpackingError::FormatError)));
}

#[test]
fn parsers_stop_at_empty_path_token() {
    // A NUL (or delimiter) right where a path should begin ends the stream.
    assert_eq!(parse_sv_packed(&[0u8, 9, 9, 9]).unwrap().len(), 0);
    assert_eq!(parse_cs_packed(&[b'|', 9, 9]).unwrap().len(), 0);
    assert_eq!(parse_sv_packed(b"").unwrap().len(), 0);
}

#[test]
fn escaped_chunks_stay_under_the_ceiling_on_adversarial_input() {
    // Saturate the escaping classes: newlines, control bytes, digits.
    for byte in [b'\n', 1u8, b'7', b'\\', b'e', b'.'] {
        let buf = vec![byte; 200_000];
        let chunks = split_escaped(&buf);
        assert!(chunks.len() > 1);
        for c in &chunks {
            assert!(c.len() <= 65535);
            assert!(c.starts_with(b"return\""));
            assert_eq!(*c.last().unwrap(), b'"');
        }
        // Reversing every wrap and concatenating reproduces the buffer.
        let mut glued = Vec::new();
        for c in &chunks {
            glued.extend_from_slice(&unwrap_chunk(c).unwrap());
        }
        assert_eq!(glued, buf);
    }
}

#[test]
fn escaped_wrap_round_trips_every_byte_value() {
    let buf: Vec<u8> = (0..=255u8).cycle().take(1024).collect();
    let chunks = split_escaped(&buf);
    let mut glued = Vec::new();
    for c in &chunks {
        glued.extend_from_slice(&unwrap_chunk(c).unwrap());
    }
    assert_eq!(glued, buf);
}

#[test]
fn commentify_prefixes_every_line() {
    assert_eq!(commentify(&b"a\nb".to_vec()), b"--a\n--b".to_vec());
    assert_eq!(commentify(&b"".to_vec()), b"--".to_vec());
    assert_eq!(commentify(&b"x\n".to_vec()), b"--x\n--".to_vec());
}

#[test]
fn commented_chunks_stay_under_the_ceiling_and_round_trip() {
    let mut buf = Vec::new();
    for i in 0..40_000u32 {
        buf.extend_from_slice(format!("line {}\r\n", i).as_bytes());
    }
    let chunks = split_commented(&buf);
    assert!(chunks.len() > 1);
    for c in &chunks {
        assert!(c.len() <= 65535);
        assert!(c.starts_with(b"--"));
    }
    let parsed_back = {
        let mut glued = Vec::new();
        for c in &chunks {
            glued.extend_from_slice(&unwrap_chunk(c).unwrap());
        }
        glued
    };
    assert_eq!(parsed_back, buf);
}

#[test]
fn whole_cacheable_pipeline_round_trips() {
    let files = vec![
        lua("autorun/client/start.lua", b"print(\"quoted\\path\")\nlocal x = 1"),
        lua("vgui/w.lua", &(0..=255u8).collect::<Vec<u8>>()),
    ];
    let (_, buf, _) = pack_lua_files(false, &files, true);
    let chunks = split_escaped(&buf);
    let out = parse_packed_files(&chunks).unwrap();
    assert_eq!(out.len(), files.len());
    for (orig, got) in files.iter().zip(out.iter()) {
        assert_eq!(got.path, orig.path.as_bytes().to_vec());
        assert_eq!(got.contents, orig.contents);
    }
}

#[test]
fn malformed_chunk_is_a_format_error() {
    let chunks = vec![b"not a chunk".to_vec()];
    assert!(matches!(parse_packed_files(&chunks), Err(UnpackingError::FormatError)));
}

#[test]
fn truncated_escape_sequence_is_a_format_error() {
    // A payload ending in a lone backslash cannot be unescaped.
    let chunk = b"return\"\\\"".to_vec();
    assert!(matches!(unwrap_chunk(&chunk), Err(UnpackingError::FormatError)));
}

#[test]
fn sv_stream_without_a_path_terminator_is_a_format_error() {
    assert!(matches!(parse_sv_packed(b"abc"), Err(UnpackingError::FormatError)));
}

#[test]
fn sv_stream_with_truncated_header_is_a_format_error() {
    let buf = b"a.lua\x00\x05\x00".to_vec();
    assert!(matches!(parse_sv_packed(&buf), Err(UnpackingError::FormatError)));
}
