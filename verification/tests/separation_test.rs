use engine::fs::FsNode;
use engine::misplaced::{collect_misplaced_containers, misplaced_in_zip, Misplaced};
use engine::naming::{is_free_reserved, target_candidate};
use engine::names::sanitize_windows_name;
use engine::rebuild::fixed_files_from_zip;
use std::io::Write;

const MCMETA: &[u8] = br#"{"pack":{"pack_format":1,"description":"test"}}"#;

fn zip_bytes(entries: &[(&str, &[u8])]) -> Vec<u8> {
    let mut w = zip::ZipWriter::new(std::io::Cursor::new(Vec::new()));
    let options: zip::write::SimpleFileOptions = Default::default();
    for (name, bytes) in entries {
        w.start_file(*name, options).unwrap();
        w.write_all(bytes).unwrap();
    }
    w.finish().unwrap().into_inner()
}

fn core_entries() -> Vec<(&'static str, &'static [u8])> {
    vec![
        ("pack.mcmeta", MCMETA),
        ("pack.png", b"\x89PNG fake"),
        ("assets/minecraft/textures/blocks/stone.png", b"png"),
    ]
}

fn file(name: &str, bytes: &[u8]) -> FsNode {
    FsNode::File { name: name.to_string(), data: Some(bytes.to_vec()), size: bytes.len() as u64 }
}

fn dir(name: &str, children: Vec<FsNode>) -> FsNode {
    FsNode::Dir { name: name.to_string(), children }
}

fn chars(s: &str) -> Vec<char> {
    s.chars().collect()
}

fn text(v: &[char]) -> String {
    v.iter().collect()
}

/// The names separated containers get beside the rebuilt parent, as the
/// batch reserves them (`existing` are names already in the folder).
fn separated_names(parent_product: &str, raw: &[&str], existing: &[&str]) -> Vec<String> {
    let mut reserved: Vec<Vec<char>> = vec![chars(parent_product)];
    let mut out = Vec::new();
    for name in raw {
        let safe = sanitize_windows_name(&chars(name));
        let mut k = 0;
        let chosen = loop {
            let candidate = target_candidate(&safe, k);
            let occupied = existing.iter().any(|e| chars(e) == candidate);
            if is_free_reserved(&candidate, occupied, &reserved) {
                break candidate;
            }
            k += 1;
        };
        reserved.push(chosen.clone());
        out.push(text(&chosen));
    }
    out
}

#[test]
fn valid_parent_separates_an_embedded_modern_zip_byte_for_byte() {
    let inner = zip_bytes(&[
        ("pack.mcmeta", br#"{"pack":{"pack_format":5,"description":"modern"}}"#),
        ("assets/minecraft/textures/item/apple.png", b"modern"),
    ]);
    let parent = zip_bytes(&[("pack.mcmeta", MCMETA), ("assets/minecraft/a.png", b"parent"), ("bonus-modern.zip", &inner)]);
    let found = misplaced_in_zip(&parent).unwrap();
    assert_eq!(found.files.len(), 1);
    assert_eq!(found.files[0].0, "bonus-modern.zip");
    assert_eq!(found.files[0].1, inner);
    let kept = fixed_files_from_zip(&parent, &chars("Parent")).unwrap();
    assert!(!kept.iter().any(|(n, _)| n.contains("bonus")));
    assert_eq!(separated_names("Parent.zip", &["bonus-modern.zip"], &[]), vec!["bonus-modern.zip"]);
}

#[test]
fn valid_parent_separates_an_embedded_low_version_zip_byte_for_byte() {
    let inner = zip_bytes(&[
        ("pack.mcmeta", br#"{"pack":{"pack_format":0,"description":"old"}}"#),
        ("assets/minecraft/textures/items/apple.png", b"old"),
    ]);
    let parent = zip_bytes(&[("pack.mcmeta", MCMETA), ("assets/minecraft/a.png", b"parent"), ("bonus-old.zip", &inner)]);
    let found = misplaced_in_zip(&parent).unwrap();
    assert_eq!(found.files.len(), 1);
    assert_eq!(found.files[0].0, "bonus-old.zip");
    assert_eq!(found.files[0].1, inner);
    let report = engine::scan::scan("rp".to_string(), Some(vec![file("bonus-old.zip", &inner)]));
    assert_eq!(report.entries[0].category, engine::model::Category::Normal);
    assert!(report.entries[0].ignore.is_none());
}

#[test]
fn folder_parent_separates_candidate_folder_without_repacking_it() {
    let parent = dir(
        "Parent Folder",
        vec![
            dir("assets", vec![dir("minecraft", vec![file("a.png", b"parent")])]),
            file("pack.mcmeta", MCMETA),
            dir(
                "bonus-modern",
                vec![
                    dir("assets", vec![dir("minecraft", vec![dir("textures", vec![dir("item", vec![file("apple.png", b"child")])])])]),
                    file("pack.mcmeta", br#"{"pack":{"pack_format":5,"description":"modern"}}"#),
                ],
            ),
        ],
    );
    match collect_misplaced_containers(&parent) {
        Some(Misplaced::InFolder(indices)) => {
            assert_eq!(indices, vec![2]);
        }
        _ => panic!("expected a folder container"),
    }
}

#[test]
fn zip_parent_separates_candidate_folder_as_a_folder() {
    let parent = zip_bytes(&[
        ("pack.mcmeta", MCMETA),
        ("assets/minecraft/a.png", b"parent"),
        ("bonus-modern/pack.mcmeta", br#"{"pack":{"pack_format":5,"description":"modern"}}"#),
        ("bonus-modern/assets/minecraft/textures/item/apple.png", b"child"),
    ]);
    let found = misplaced_in_zip(&parent).unwrap();
    assert!(found.files.is_empty());
    assert_eq!(found.folders.len(), 1);
    assert_eq!(found.folders[0].0, "bonus-modern");
    let files = &found.folders[0].1;
    assert!(files.iter().any(|(n, b)| n == "assets/minecraft/textures/item/apple.png" && b == b"child"));
}

#[test]
fn case_variant_assets_folder_is_not_separated_as_a_pack() {
    let parent = dir(
        "Parent",
        vec![
            dir("assets", vec![dir("minecraft", vec![file("a.png", b"parent")])]),
            file("pack.mcmeta", MCMETA),
            dir(
                "not-a-pack",
                vec![dir("Assets", vec![dir("minecraft", vec![file("a.png", b"extra")])]), file("pack.mcmeta", MCMETA)],
            ),
        ],
    );
    match collect_misplaced_containers(&parent) {
        Some(Misplaced::InFolder(indices)) => assert!(indices.is_empty()),
        _ => panic!("expected a folder"),
    }
}

#[test]
fn archive_container_matrix_is_separated_by_magic_or_supported_extension() {
    let inner = zip_bytes(&[("pack.mcmeta", MCMETA), ("assets/minecraft/a.png", b"inner")]);
    let parent = zip_bytes(&[
        ("pack.mcmeta", MCMETA),
        ("assets/minecraft/a.png", b"parent"),
        ("magic-only", &inner),
        ("broken.ZIP", b"not a zip"),
        ("legacy.RAR", b"damaged rar"),
        ("seven.bin", b"7z\xbc\xaf\x27\x1cbytes"),
        ("leave.tar", b"tar bytes"),
    ]);
    let found = misplaced_in_zip(&parent).unwrap();
    let names: Vec<&str> = found.files.iter().map(|(n, _)| n.as_str()).collect();
    assert_eq!(names, vec!["magic-only", "broken.ZIP", "legacy.RAR", "seven.bin"]);
}

#[test]
fn separated_name_collision_uses_suffix_and_reports_actual_name() {
    let modern = zip_bytes(&[
        ("pack.mcmeta", br#"{"pack":{"pack_format":5,"description":"modern"}}"#),
        ("assets/minecraft/textures/item/apple.png", b"modern"),
    ]);
    let parent = zip_bytes(&[("pack.mcmeta", MCMETA), ("assets/minecraft/a.png", b"parent"), ("bonus.zip", &modern)]);
    let _existing = zip_bytes(&core_entries());
    let found = misplaced_in_zip(&parent).unwrap();
    assert_eq!(found.files[0].1, modern);
    assert_eq!(separated_names("Parent.zip", &["bonus.zip"], &["bonus.zip"]), vec!["bonus (1).zip"]);
}

#[test]
fn separated_targets_reserve_names_case_insensitively() {
    let inner = zip_bytes(&core_entries());
    let parent = zip_bytes(&[
        ("pack.mcmeta", MCMETA),
        ("assets/minecraft/a.png", b"parent"),
        ("bonus.zip", &inner),
        ("BONUS.ZIP", &inner),
    ]);
    let found = misplaced_in_zip(&parent).unwrap();
    let raw: Vec<&str> = found.files.iter().map(|(n, _)| n.as_str()).collect();
    assert_eq!(raw, vec!["bonus.zip", "BONUS.ZIP"]);
    assert_eq!(separated_names("Parent.zip", &raw, &[]), vec!["bonus.zip", "BONUS (1).ZIP"]);
}
