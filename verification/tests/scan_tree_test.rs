use engine::fs::FsNode;
use engine::model::{Category, NodeKind, PackEntry, ScanReport, ScanStatus};
use engine::scan::scan;
use std::io::Write;

const MCMETA: &[u8] = br#"{"pack":{"pack_format":1,"description":"test"}}"#;

fn zip_bytes(entries: &[(&str, &[u8])]) -> Vec<u8> {
    let mut w = zip::ZipWriter::new(std::io::Cursor::new(Vec::new()));
    let options: zip::write::SimpleFileOptions = Default::default();
    for (name, bytes) in entries {
        w.start_file(*name, options).unwrap();
        w.write_all(bytes).unwrap();
    }
    w.finish().unwrap().into_inner()
}

fn core_entries() -> Vec<(&'static str, &'static [u8])> {
    vec![
        ("pack.mcmeta", MCMETA),
        ("pack.png", b"\x89PNG fake"),
        ("assets/minecraft/textures/blocks/stone.png", b"png"),
    ]
}

fn file(name: &str, bytes: &[u8]) -> FsNode {
    FsNode::File { name: name.to_string(), data: Some(bytes.to_vec()), size: bytes.len() as u64 }
}

fn dir(name: &str, children: Vec<FsNode>) -> FsNode {
    FsNode::Dir { name: name.to_string(), children }
}

fn run(items: Vec<FsNode>) -> ScanReport {
    scan("rp".to_string(), Some(items))
}

fn node<'a>(report: &'a ScanReport, relative_path: &str) -> &'a PackEntry {
    report.entries.iter().find(|e| e.relative_path == relative_path).unwrap()
}

#[test]
fn scan_lists_top_level_entries_excluding_junk() {
    let report = run(vec![
        file("PackA.zip", b"stub"),
        dir("PackB", vec![]),
        file("desktop.ini", b"junk"),
        file("Thumbs.db", b"junk"),
    ]);
    assert_eq!(report.status, ScanStatus::Scanned);
    let mut names: Vec<_> = report.entries.iter().map(|e| e.name.as_str()).collect();
    names.sort();
    assert_eq!(names, vec!["PackA.zip", "PackB"]);
}

#[test]
fn nested_classification_folders_preserve_the_full_tree() {
    let core = zip_bytes(&core_entries());
    let report = run(vec![dir(
        "PotPvP",
        vec![
            dir("Melee", vec![file("A.zip", &core), file("B.zip", &core)]),
            dir("UHC", vec![file("C.zip", &core), file("D.zip", &core)]),
        ],
    )]);
    assert_eq!(report.total_packs, 4);
    assert_eq!(report.counts.folder, 3);
    assert_eq!(node(&report, "PotPvP").kind, NodeKind::ClassificationFolder);
    assert_eq!(node(&report, "PotPvP").parent_path, None);
    for folder in ["Melee", "UHC"] {
        let relative_path = format!("PotPvP/{folder}");
        assert_eq!(node(&report, &relative_path).kind, NodeKind::ClassificationFolder);
        assert_eq!(node(&report, &relative_path).parent_path.as_deref(), Some("PotPvP"));
    }
    for (folder, packs) in [("Melee", ["A.zip", "B.zip"]), ("UHC", ["C.zip", "D.zip"])] {
        for pack in packs {
            let relative_path = format!("PotPvP/{folder}/{pack}");
            assert_eq!(node(&report, &relative_path).kind, NodeKind::Pack);
            assert_eq!(
                node(&report, &relative_path).parent_path.as_deref(),
                Some(format!("PotPvP/{folder}").as_str())
            );
        }
    }
}

#[test]
fn a_folder_wrapping_a_pack_folder_is_a_shell_with_a_bloated_child() {
    let report = run(vec![dir(
        "Wrapper",
        vec![dir("Cool Pack", vec![dir("assets", vec![dir("minecraft", vec![])]), file("pack.mcmeta", MCMETA)])],
    )]);
    assert_eq!(report.entries.len(), 2);
    assert_eq!(report.entries[0].kind, NodeKind::Shell);
    assert!(report.entries[0].causes.iter().any(|cause| cause == "folder_shell"));
    assert_eq!(report.entries[1].kind, NodeKind::Pack);
    assert_eq!(report.entries[1].category, Category::Bloated);
    assert_eq!(report.entries[1].parent_path.as_deref(), Some("Wrapper"));
}

#[test]
fn a_compressed_shell_previews_each_direct_inner_pack_independently() {
    let a = zip_bytes(&core_entries());
    let mut bloated = core_entries();
    bloated.push(("credits.txt", b"extra"));
    let b = zip_bytes(&bloated);
    let c = zip_bytes(&[("pack.mcmeta", MCMETA), ("assets/minecraft/textures/item/apple.png", b"modern")]);
    let parent = zip_bytes(&[("A.zip", &a), ("B.zip", &b), ("C.zip", &c)]);
    let report = run(vec![file("Parent.zip", &parent)]);
    assert_eq!(report.total_packs, 3);
    assert_eq!(report.counts.nested, 1);
    assert_eq!(report.counts.normal, 1);
    assert_eq!(report.counts.bloated, 1);
    assert_eq!(report.counts.ignored, 1);
    assert_eq!(report.entries.len(), 4);
    let shell = node(&report, "Parent.zip");
    assert_eq!(shell.kind, NodeKind::Shell);
    assert!(shell.causes.iter().any(|cause| cause == "archive_shell"));
    for (name, category) in [("A.zip", Category::Normal), ("B.zip", Category::Bloated), ("C.zip", Category::Ignored)] {
        let child = node(&report, &format!("Parent.zip/{name}"));
        assert_eq!(child.parent_path.as_deref(), Some("Parent.zip"));
        assert_eq!(child.category, category);
    }
}

#[test]
fn a_classification_folder_inside_an_archive_shell_keeps_its_tree() {
    let a = zip_bytes(&core_entries());
    let b = zip_bytes(&core_entries());
    let download = zip_bytes(&[("PotPvP/A.zip", &a), ("PotPvP/B.zip", &b)]);
    let report = run(vec![file("Download.zip", &download)]);
    assert_eq!(report.total_packs, 2);
    assert_eq!(report.counts.nested, 1);
    assert_eq!(report.counts.folder, 1);
    assert_eq!(report.counts.normal, 2);
    assert_eq!(node(&report, "Download.zip").kind, NodeKind::Shell);
    let category = node(&report, "Download.zip/PotPvP");
    assert_eq!(category.kind, NodeKind::ClassificationFolder);
    assert_eq!(category.parent_path.as_deref(), Some("Download.zip"));
    for name in ["A.zip", "B.zip"] {
        let child = node(&report, &format!("Download.zip/PotPvP/{name}"));
        assert_eq!(child.parent_path.as_deref(), Some("Download.zip/PotPvP"));
    }
}

#[test]
fn nested_classification_folders_inside_an_archive_keep_every_level() {
    let core = zip_bytes(&core_entries());
    let download = zip_bytes(&[
        ("Collections/PotPvP/A.zip", &core),
        ("Collections/PotPvP/B.zip", &core),
        ("Collections/Bedwars/C.zip", &core),
        ("Collections/Bedwars/D.zip", &core),
    ]);
    let report = run(vec![file("Download.zip", &download)]);
    assert_eq!(report.total_packs, 4);
    assert_eq!(report.counts.nested, 1);
    assert_eq!(report.counts.folder, 3);
    assert_eq!(report.counts.normal, 4);
    for (path, parent) in [
        ("Download.zip/Collections", "Download.zip"),
        ("Download.zip/Collections/Bedwars", "Download.zip/Collections"),
        ("Download.zip/Collections/PotPvP", "Download.zip/Collections"),
    ] {
        let folder = node(&report, path);
        assert_eq!(folder.kind, NodeKind::ClassificationFolder);
        assert_eq!(folder.parent_path.as_deref(), Some(parent));
    }
}

#[test]
fn a_folder_case_variant_with_lunar_escape_keeps_both_rescue_signals() {
    let report = run(vec![dir(
        "Folder",
        vec![
            dir("assets", vec![dir("minecraft", vec![file("a.png", b"x")])]),
            file("Pack.mcmeta", br#"{"pack":{"pack_format":1,"description":"x\!"}}"#),
        ],
    )]);
    let entry = &report.entries[0];
    assert_eq!(entry.category, Category::Nested);
    assert!(entry.causes.iter().any(|cause| cause == "mcmeta_rescue"));
    assert!(entry.causes.iter().any(|cause| cause == "lunar_escape"));
}

fn mixed_report() -> ScanReport {
    let sick: &[u8] = br#"{"pack":{"pack_format":1,"description":"\!"}}"#;
    let normal = zip_bytes(&core_entries());
    let lunar = zip_bytes(&[("pack.mcmeta", sick), ("assets/minecraft/a.png", b"png")]);
    let shell = zip_bytes(&[("Inner/pack.mcmeta", MCMETA), ("Inner/assets/minecraft/a.png", b"png")]);
    run(vec![
        dir("PvP", vec![file("A.zip", &normal), file("L.zip", &lunar), dir("Deep", vec![file("B.zip", &normal), file("C.zip", &normal)])]),
        dir("Wrap", vec![file("W.zip", &normal)]),
        file("Shell.zip", &shell),
        file("broken.zip", b"not a zip"),
    ])
}

#[test]
fn every_non_pack_entry_is_followed_by_its_child_and_parents_are_not_packs() {
    let report = mixed_report();
    let es = &report.entries;
    for (i, e) in es.iter().enumerate() {
        match &e.parent_path {
            None => assert_eq!(e.relative_path, e.name),
            Some(p) => {
                assert_eq!(e.relative_path, format!("{}/{}", p, e.name));
                assert!(es[..i].iter().any(|q| &q.relative_path == p && q.kind != NodeKind::Pack));
            }
        }
        if e.kind != NodeKind::Pack {
            assert_eq!(es[i + 1].parent_path.as_deref(), Some(e.relative_path.as_str()));
        }
    }
}

#[test]
fn every_entry_keeps_the_ignore_and_lunar_rules() {
    let report = mixed_report();
    for e in &report.entries {
        assert_eq!(e.ignore.is_some(), e.kind == NodeKind::Pack && e.category == Category::Ignored);
        let lunar = e.causes.iter().any(|c| c == "lunar_escape");
        if e.kind != NodeKind::Pack || e.category == Category::Illegal {
            assert!(!lunar);
        }
        if e.category == Category::LunarIllegal {
            assert_eq!(e.causes, vec!["lunar_escape".to_string()]);
        }
    }
    assert_eq!(node(&report, "PvP/L.zip").category, Category::LunarIllegal);
    assert_eq!(node(&report, "broken.zip").category, Category::Illegal);
}

#[test]
fn the_counts_read_entry_by_entry() {
    let report = mixed_report();
    let es = &report.entries;
    let shells = es.iter().filter(|e| e.kind == NodeKind::Shell).count();
    let nested_packs = es.iter().filter(|e| e.kind == NodeKind::Pack && e.category == Category::Nested).count();
    let lunar = es
        .iter()
        .filter(|e| e.category == Category::LunarIllegal || e.causes.iter().any(|c| c == "lunar_escape"))
        .count();
    assert_eq!(report.counts.nested, shells + nested_packs);
    assert_eq!(report.counts.lunar, lunar);
    assert_eq!(report.counts.lunar, 1);
    assert!(report.counts.nested >= 2);
}
