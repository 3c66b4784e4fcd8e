use engine::fs::FsNode;
use engine::lunar::{mcmeta_has_lunar_escape, parses_like_lunar, patch_lunar_escapes, product_mcmeta, scan_invalid_escape};
use engine::model::{Category, ScanReport};
use engine::scan::scan;
use std::io::Write;

const SICK: &[u8] = br#"{"pack":{"pack_format":1,"description":"\u00A7b\! made by the goose :>"}}"#;
const PATCHED: &[u8] = br#"{"pack":{"pack_format":1,"description":"\u00A7b! made by the goose :>"}}"#;

fn zip_bytes(entries: &[(&str, &[u8])]) -> Vec<u8> {
    let mut w = zip::ZipWriter::new(std::io::Cursor::new(Vec::new()));
    let options: zip::write::SimpleFileOptions = Default::default();
    for (name, bytes) in entries {
        w.start_file(*name, options).unwrap();
        w.write_all(bytes).unwrap();
    }
    w.finish().unwrap().into_inner()
}

fn file(name: &str, bytes: &[u8]) -> FsNode {
    FsNode::File { name: name.to_string(), data: Some(bytes.to_vec()), size: bytes.len() as u64 }
}

fn dir(name: &str, children: Vec<FsNode>) -> FsNode {
    FsNode::Dir { name: name.to_string(), children }
}

fn pack_with_mcmeta(name: &str, mcmeta: &[u8]) -> FsNode {
    file(name, &zip_bytes(&[("pack.mcmeta", mcmeta), ("assets/minecraft/textures/x.png", b"png")]))
}

fn run(items: Vec<FsNode>) -> ScanReport {
    scan("rp".to_string(), Some(items))
}

fn has_lunar(causes: &[String]) -> bool {
    causes.iter().any(|c| c == "lunar_escape")
}

#[test]
fn pure_lunar_zip_is_tagged_and_counted() {
    let report = run(vec![pack_with_mcmeta("OTB FPS.zip", SICK)]);
    let e = &report.entries[0];
    assert_eq!(e.category, Category::LunarIllegal);
    assert!(has_lunar(&e.causes));
    assert_eq!(report.counts.lunar, 1);
    assert_eq!(report.counts.normal, 0);
}

#[test]
fn healthy_color_escape_is_not_lunar() {
    let report = run(vec![pack_with_mcmeta("ok.zip", PATCHED)]);
    assert_eq!(report.entries[0].category, Category::Normal);
    assert!(!has_lunar(&report.entries[0].causes));
    assert_eq!(report.counts.lunar, 0);
    assert_eq!(report.counts.normal, 1);
}

#[test]
fn section_literal_and_bom_do_not_alone_mark_lunar() {
    let with_section: &[u8] = b"{\"pack\":{\"pack_format\":1,\"description\":\"\xc2\xa7b hello\"}}";
    let with_bom: &[u8] = b"\xef\xbb\xbf{\"pack\":{\"pack_format\":1,\"description\":\"hi\"}}";
    let report = run(vec![pack_with_mcmeta("sec.zip", with_section), pack_with_mcmeta("bom.zip", with_bom)]);
    for e in &report.entries {
        assert_eq!(e.category, Category::Normal, "{}", e.name);
        assert!(!has_lunar(&e.causes), "{}", e.name);
    }
    assert_eq!(report.counts.lunar, 0);
}

#[test]
fn nested_plus_lunar_keeps_structure_and_stacks_tag() {
    let wrapped = zip_bytes(&[("Inner Pack/pack.mcmeta", SICK), ("Inner Pack/assets/minecraft/x.png", b"png")]);
    let report = run(vec![file("wrapped.zip", &wrapped)]);
    let shell = report.entries.iter().find(|e| e.relative_path == "wrapped.zip").unwrap();
    assert_eq!(shell.category, Category::Nested);
    assert!(!has_lunar(&shell.causes));
    let inner = report.entries.iter().find(|e| e.relative_path == "wrapped.zip/Inner Pack").unwrap();
    assert_eq!(inner.category, Category::Bloated);
    assert!(has_lunar(&inner.causes));
    assert_eq!(report.counts.nested, 1);
    assert_eq!(report.counts.bloated, 1);
    assert_eq!(report.counts.lunar, 1);
    assert_eq!(report.total_packs, 1);
}

#[test]
fn bloated_plus_lunar_stacks() {
    let fat = zip_bytes(&[("pack.mcmeta", SICK), ("assets/minecraft/x.png", b"png"), ("readme.txt", b"extra")]);
    let report = run(vec![file("fat.zip", &fat)]);
    let e = &report.entries[0];
    assert_eq!(e.category, Category::Bloated);
    assert!(has_lunar(&e.causes));
    assert_eq!(report.counts.bloated, 1);
    assert_eq!(report.counts.lunar, 1);
}

#[test]
fn folder_pack_with_lunar_is_bloated_plus_tag() {
    let report = run(vec![dir(
        "folderpack",
        vec![dir("assets", vec![dir("minecraft", vec![file("x.png", b"png")])]), file("pack.mcmeta", SICK)],
    )]);
    let e = &report.entries[0];
    assert_eq!(e.category, Category::Bloated);
    assert!(e.causes.iter().any(|c| c == "folder_pack"));
    assert!(has_lunar(&e.causes));
    assert_eq!(report.counts.bloated, 1);
    assert_eq!(report.counts.folder, 0);
    assert_eq!(report.counts.lunar, 1);
}

#[test]
fn illegal_pack_never_gets_lunar_tag() {
    let report = run(vec![file("note.txt", b"not a zip")]);
    assert_eq!(report.entries[0].category, Category::Illegal);
    assert!(!has_lunar(&report.entries[0].causes));
    assert_eq!(report.counts.lunar, 0);
}

#[test]
fn a_pack_zip_inside_nested_folders_is_judged_by_its_own_mcmeta() {
    let inner = zip_bytes(&[("pack.mcmeta", SICK), ("assets/minecraft/x.png", b"png")]);
    let report = run(vec![dir("Box", vec![dir("Deeper", vec![file("core.zip", &inner)]), file("notes.txt", b"n")])]);
    let e = report.entries.iter().find(|e| e.relative_path == "Box/Deeper/core.zip").unwrap();
    assert_eq!(e.category, Category::LunarIllegal);
}

#[test]
fn invalid_escapes_are_detected() {
    assert!(mcmeta_has_lunar_escape(br#"{"a":"\!"}"#));
    assert!(mcmeta_has_lunar_escape(br#"{"a":"\u12"}"#));
    assert!(mcmeta_has_lunar_escape(b"trailing \\"));
    assert!(!mcmeta_has_lunar_escape(br#"{"a":"\"\\\/\b\f\n\r\t\u00e9"}"#));
    assert!(!mcmeta_has_lunar_escape(b"no escapes at all"));
}

#[test]
fn the_ascii_guard_ignores_backslashes_after_high_bytes() {
    assert!(!scan_invalid_escape(b"\x81\\q", true));
    assert!(scan_invalid_escape(b"\x81\\q", false));
    assert!(mcmeta_has_lunar_escape(b"\xff x\\q"));
    assert!(!mcmeta_has_lunar_escape(b"\xff\\q"));
}

#[test]
fn patch_drops_only_the_bad_backslash() {
    assert_eq!(patch_lunar_escapes(SICK), PATCHED.to_vec());
    assert_eq!(patch_lunar_escapes(br#"a\qb\nc\u00ZZ"#), br#"aqb\ncu00ZZ"#.to_vec());
    assert_eq!(patch_lunar_escapes(PATCHED), PATCHED.to_vec());
    assert!(!mcmeta_has_lunar_escape(&patch_lunar_escapes(br#"\x\y\"#)));
}

#[test]
fn lunar_probe_tolerates_bom_and_control_characters() {
    assert!(parses_like_lunar(b"\xef\xbb\xbf{\"a\":\"line\nbreak\"}"));
    assert!(!parses_like_lunar(b"{\"a\": }"));
}

#[test]
fn product_mcmeta_patches_or_regenerates() {
    assert_eq!(product_mcmeta(PATCHED.to_vec(), &['x']), PATCHED.to_vec());
    assert_eq!(product_mcmeta(SICK.to_vec(), &['x']), PATCHED.to_vec());
    let hopeless = br#"{"pack": \q broken"#.to_vec();
    let stem: Vec<char> = "My \"Pack\"".chars().collect();
    assert_eq!(
        product_mcmeta(hopeless, &stem),
        br#"{"pack":{"pack_format":1,"description":"My \"Pack\""}}"#.to_vec()
    );
}

#[test]
fn a_repaired_legacy_encoded_mcmeta_stays_legacy_and_clean() {
    // GBK text ("\xc4\xe3\xba\xc3") beside an invalid escape: not UTF-8, so
    // the guarded reading is used before and after the repair.
    let raw: &[u8] = b"{\"d\":\"\xc4\xe3\xba\xc3 \\q \xc4\\x\"}";
    assert!(std::str::from_utf8(raw).is_err());
    assert!(mcmeta_has_lunar_escape(raw));
    let fixed = patch_lunar_escapes(raw);
    assert_eq!(fixed, b"{\"d\":\"\xc4\xe3\xba\xc3 q \xc4\\x\"}".to_vec());
    assert!(std::str::from_utf8(&fixed).is_err());
    assert!(!mcmeta_has_lunar_escape(&fixed));
}

#[test]
fn a_repaired_utf8_mcmeta_stays_utf8_and_clean() {
    let raw = "{\"d\":\"é\\q§a\\\"\"}".as_bytes();
    assert!(mcmeta_has_lunar_escape(raw));
    let fixed = patch_lunar_escapes(raw);
    assert_eq!(std::str::from_utf8(&fixed).unwrap(), "{\"d\":\"éq§a\\\"\"}");
    assert!(!mcmeta_has_lunar_escape(&fixed));
}
