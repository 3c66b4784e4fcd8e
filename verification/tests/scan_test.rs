use engine::fs::FsNode;
use engine::model::{Category, NodeKind, ScanOptions, ScanReport, ScanStatus};
use engine::scan::{scan, scan_with};
use std::io::Write;

const MCMETA: &[u8] = br#"{"pack":{"pack_format":1,"description":"test"}}"#;

fn zip_bytes(entries: &[(&str, &[u8])]) -> Vec<u8> {
    let mut w = zip::ZipWriter::new(std::io::Cursor::new(Vec::new()));
    let options: zip::write::SimpleFileOptions = Default::default();
    for (name, bytes) in entries {
        if name.ends_with('/') {
            w.add_directory(name.trim_end_matches('/'), options).unwrap();
        } else {
            w.start_file(*name, options).unwrap();
            w.write_all(bytes).unwrap();
        }
    }
    w.finish().unwrap().into_inner()
}

fn encrypted_zip_bytes(entries: &[(&str, &[u8])]) -> Vec<u8> {
    let mut bytes = zip_bytes(entries);
    let mut i = 0;
    while i + 4 <= bytes.len() {
        if &bytes[i..i + 4] == b"PK\x03\x04" {
            bytes[i + 6] |= 1;
        } else if &bytes[i..i + 4] == b"PK\x01\x02" {
            bytes[i + 8] |= 1;
        }
        i += 1;
    }
    bytes
}

fn core_entries() -> Vec<(&'static str, &'static [u8])> {
    vec![
        ("pack.mcmeta", MCMETA),
        ("pack.png", b"\x89PNG fake"),
        ("assets/minecraft/textures/blocks/stone.png", b"png"),
    ]
}

fn file(name: &str, bytes: &[u8]) -> FsNode {
    FsNode::File { name: name.to_string(), data: Some(bytes.to_vec()), size: bytes.len() as u64 }
}

fn zip_file(name: &str, entries: &[(&str, &[u8])]) -> FsNode {
    file(name, &zip_bytes(entries))
}

fn dir(name: &str, children: Vec<FsNode>) -> FsNode {
    FsNode::Dir { name: name.to_string(), children }
}

fn run(items: Vec<FsNode>) -> ScanReport {
    scan("resourcepacks".to_string(), Some(items))
}

fn entry<'a>(report: &'a ScanReport, relative_path: &str) -> &'a engine::model::PackEntry {
    report.entries.iter().find(|e| e.relative_path == relative_path).unwrap()
}

fn has(causes: &[String], key: &str) -> bool {
    causes.iter().any(|c| c == key)
}

#[test]
fn scanning_a_missing_directory_reports_missing_dir() {
    let report = scan("resourcepacks".to_string(), None);
    assert_eq!(report.status, ScanStatus::MissingDir);
    assert_eq!(report.entries.len(), 0);
}

#[test]
fn a_directory_with_only_junk_files_reports_no_packs() {
    let report = run(vec![file("desktop.ini", b"junk"), dir("__MACOSX", vec![])]);
    assert_eq!(report.status, ScanStatus::NoPacks);
    assert_eq!(report.entries.len(), 0);
}

#[test]
fn a_folder_with_two_direct_packs_is_a_classification_folder() {
    let report = run(vec![dir(
        "PotPvP",
        vec![zip_file("A.zip", &core_entries()), zip_file("B.zip", &core_entries())],
    )]);
    assert_eq!(report.total_packs, 2);
    assert_eq!(report.counts.folder, 1);
    assert_eq!(report.counts.normal, 2);
    let parent = entry(&report, "PotPvP");
    assert_eq!(parent.kind, NodeKind::ClassificationFolder);
    assert_eq!(parent.category, Category::Folder);
    assert_eq!(parent.parent_path, None);
    for name in ["A.zip", "B.zip"] {
        let child = entry(&report, &format!("PotPvP/{name}"));
        assert_eq!(child.kind, NodeKind::Pack);
        assert_eq!(child.category, Category::Normal);
        assert_eq!(child.parent_path.as_deref(), Some("PotPvP"));
    }
}

#[test]
fn a_single_pack_with_an_attachment_keeps_a_non_problem_parent() {
    let report = run(vec![dir(
        "Download",
        vec![zip_file("A.zip", &core_entries()), file("preview.png", b"preview")],
    )]);
    assert_eq!(report.total_packs, 1);
    assert_eq!(report.counts.folder, 0);
    assert_eq!(report.counts.nested, 0);
    assert_eq!(report.counts.normal, 1);
    assert_eq!(entry(&report, "Download").kind, NodeKind::SupportingFolder);
    let child = entry(&report, "Download/A.zip");
    assert_eq!(child.category, Category::Normal);
    assert_eq!(child.parent_path.as_deref(), Some("Download"));
    assert!(report.entries.iter().all(|e| e.name != "preview.png"));
}

#[test]
fn a_single_pack_folder_without_attachments_is_a_shell_with_one_pack() {
    let report = run(vec![dir("Wrapper", vec![zip_file("A.zip", &core_entries())])]);
    assert_eq!(report.total_packs, 1);
    assert_eq!(report.counts.nested, 1);
    assert_eq!(report.counts.normal, 1);
    assert_eq!(report.entries.len(), 2);
    let shell = entry(&report, "Wrapper");
    assert_eq!(shell.kind, NodeKind::Shell);
    assert_eq!(shell.category, Category::Nested);
    assert!(has(&shell.causes, "folder_shell"));
    assert_eq!(entry(&report, "Wrapper/A.zip").parent_path.as_deref(), Some("Wrapper"));
}

#[test]
fn zip_content_with_a_wrong_extension_is_nested_and_rescuable() {
    let report = run(vec![
        zip_file("upper.ZIP", &core_entries()),
        zip_file("fake.rar", &core_entries()),
        zip_file("noext", &core_entries()),
    ]);
    for e in &report.entries {
        assert_eq!(e.category, Category::Nested, "entry {}", e.name);
        assert!(has(&e.causes, "wrong_extension"));
    }
    assert_eq!(report.counts.nested, 3);
}

#[test]
fn real_rar_and_sevenz_archives_are_illegal_with_specific_causes() {
    let report = run(vec![
        file("pack.rar", b"Rar!\x1a\x07\x01\x00rest"),
        file("pack.7z", b"7z\xbc\xaf\x27\x1crest"),
    ]);
    let rar = entry(&report, "pack.rar");
    let sevenz = entry(&report, "pack.7z");
    assert_eq!(rar.category, Category::Illegal);
    assert!(has(&rar.causes, "rar_archive"));
    assert_eq!(sevenz.category, Category::Illegal);
    assert!(has(&sevenz.causes, "sevenz_archive"));
}

#[test]
fn a_file_without_zip_magic_is_illegal() {
    let report = run(vec![file("note.txt", b"just some text")]);
    let e = &report.entries[0];
    assert_eq!(e.category, Category::Illegal);
    assert!(has(&e.causes, "not_zip"));
    assert_eq!(report.counts.illegal, 1);
}

#[test]
fn junk_files_inside_a_zip_do_not_trigger_bloated() {
    let mut entries = core_entries();
    entries.push(("Thumbs.db", b"junk"));
    entries.push(("assets/minecraft/.DS_Store", b"junk"));
    let report = run(vec![zip_file("clean.zip", &entries)]);
    assert_eq!(report.entries[0].category, Category::Normal);
}

#[test]
fn a_zip_with_the_records_dead_path_is_bloated() {
    let mut entries = core_entries();
    entries.push(("assets/minecraft/records/cat.ogg", b"oggdata"));
    let report = run(vec![zip_file("yokabi.zip", &entries)]);
    let e = &report.entries[0];
    assert_eq!(e.category, Category::Bloated);
    assert!(has(&e.causes, "dead_path"));
    assert_eq!(report.counts.bloated, 1);
}

#[test]
fn png_case_or_typo_variants_are_bloated_and_rescuable() {
    let mut items = Vec::new();
    for (i, png_name) in ["Pack.png", "pack..png", "pack.png.png"].iter().enumerate() {
        let entries: Vec<(&str, &[u8])> = vec![
            ("pack.mcmeta", MCMETA),
            (png_name, b"png"),
            ("assets/minecraft/textures/a.png", b"png"),
        ];
        items.push(zip_file(&format!("p{i}.zip"), &entries));
    }
    let report = run(items);
    for e in &report.entries {
        assert_eq!(e.category, Category::Bloated, "entry {}", e.name);
        assert!(has(&e.causes, "png_rescue"), "entry {}", e.name);
    }
}

#[test]
fn mcmeta_case_typo_or_missing_with_assets_is_nested_and_rescuable() {
    let report = run(vec![
        zip_file("case.zip", &[("Pack.mcmeta", MCMETA), ("assets/minecraft/a.png", b"x")]),
        zip_file("typo.zip", &[("pack.mcmeta.mcmeta", MCMETA), ("assets/minecraft/a.png", b"x")]),
        zip_file("missing.zip", &[("assets/minecraft/a.png", b"x")]),
    ]);
    for name in ["case.zip", "typo.zip", "missing.zip"] {
        let e = entry(&report, name);
        assert_eq!(e.category, Category::Nested);
        assert!(has(&e.causes, "mcmeta_rescue"));
    }
}

#[test]
fn a_folder_pack_is_bloated_instead_of_a_classification_folder() {
    let report = run(vec![dir(
        "MyPack",
        vec![
            dir("assets", vec![dir("minecraft", vec![dir("textures", vec![])])]),
            file("pack.mcmeta", MCMETA),
            file("pack.png", b"png"),
        ],
    )]);
    let e = &report.entries[0];
    assert_eq!(e.category, Category::Bloated);
    assert!(has(&e.causes, "folder_pack"));
    assert_eq!(report.counts.bloated, 1);
    assert_eq!(report.counts.folder, 0);
}

#[test]
fn a_folder_pack_with_extras_is_bloated_and_lists_both_causes() {
    let report = run(vec![dir(
        "MyPack",
        vec![
            dir("assets", vec![dir("minecraft", vec![])]),
            file("pack.mcmeta", MCMETA),
            file("credits.txt", b"by me"),
        ],
    )]);
    let e = &report.entries[0];
    assert_eq!(e.category, Category::Bloated);
    assert_eq!(e.causes, vec!["folder_pack".to_string(), "root_extras".to_string()]);
}

#[test]
fn a_zip_wrapping_a_pack_folder_is_an_archive_shell_with_a_folder_pack() {
    let report = run(vec![zip_file(
        "wrapped.zip",
        &[("Cool Pack/pack.mcmeta", MCMETA), ("Cool Pack/assets/minecraft/a.png", b"x")],
    )]);
    assert_eq!(report.entries.len(), 2);
    assert_eq!(report.entries[0].kind, NodeKind::Shell);
    assert!(has(&report.entries[0].causes, "archive_shell"));
    assert_eq!(report.entries[1].category, Category::Bloated);
    assert!(has(&report.entries[1].causes, "folder_pack"));
    assert_eq!(report.entries[1].relative_path, "wrapped.zip/Cool Pack");
}

#[test]
fn a_zip_containing_a_pack_zip_is_an_archive_shell_with_a_normal_pack() {
    let inner = zip_bytes(&core_entries());
    let report = run(vec![zip_file("outer.zip", &[("Real Pack.zip", inner.as_slice())])]);
    assert_eq!(report.entries.len(), 2);
    assert_eq!(report.entries[0].kind, NodeKind::Shell);
    assert_eq!(report.entries[1].category, Category::Normal);
    assert_eq!(report.entries[1].parent_path.as_deref(), Some("outer.zip"));
    assert_eq!(report.entries[1].size_bytes, inner.len() as u64);
}

#[test]
fn folder_packs_inside_an_archive_shell_are_classified_by_their_own_layout() {
    let report = run(vec![zip_file(
        "Folders.zip",
        &[
            ("Legacy/pack.mcmeta", MCMETA),
            ("Legacy/assets/minecraft/textures/items/apple.png", b"legacy"),
            ("Modern/pack.mcmeta", MCMETA),
            ("Modern/assets/minecraft/textures/item/apple.png", b"modern"),
        ],
    )]);
    assert_eq!(report.total_packs, 2);
    assert_eq!(report.counts.nested, 1);
    assert_eq!(report.counts.bloated, 1);
    assert_eq!(report.counts.ignored, 1);
    let legacy = entry(&report, "Folders.zip/Legacy");
    assert_eq!(legacy.category, Category::Bloated);
    assert!(has(&legacy.causes, "folder_pack"));
    assert_eq!(entry(&report, "Folders.zip/Modern").category, Category::Ignored);
}

#[test]
fn a_collection_zip_with_sibling_packs_is_nested() {
    let report = run(vec![zip_file(
        "bundle.zip",
        &[
            ("PackA/pack.mcmeta", MCMETA),
            ("PackA/assets/minecraft/a.png", b"x"),
            ("PackB/pack.mcmeta", MCMETA),
            ("PackB/assets/minecraft/b.png", b"x"),
        ],
    )]);
    assert_eq!(report.entries[0].category, Category::Nested);
}

#[test]
fn an_empty_zip_is_illegal() {
    let report = run(vec![zip_file("empty.zip", &[])]);
    let e = &report.entries[0];
    assert_eq!(e.category, Category::Illegal);
    assert!(has(&e.causes, "no_core_found"));
}

#[test]
fn nesting_deeper_than_ten_levels_is_illegal_too_deep() {
    let deep = "a/".repeat(11);
    let mcmeta_path = format!("{deep}pack.mcmeta");
    let asset_path = format!("{deep}assets/minecraft/a.png");
    let report = run(vec![zip_file(
        "deep.zip",
        &[(mcmeta_path.as_str(), MCMETA), (asset_path.as_str(), b"x")],
    )]);
    let e = &report.entries[0];
    assert_eq!(e.category, Category::Illegal);
    assert!(has(&e.causes, "too_deep"));
}

#[test]
fn an_encrypted_zip_is_illegal() {
    let report = run(vec![file("locked.zip", &encrypted_zip_bytes(&core_entries()))]);
    let e = &report.entries[0];
    assert_eq!(e.category, Category::Illegal);
    assert!(has(&e.causes, "encrypted_zip"));
}

#[test]
fn a_nested_pack_with_stray_root_files_is_still_nested() {
    let report = run(vec![zip_file(
        "wrapped.zip",
        &[
            ("readme.txt", b"stray"),
            ("Cool Pack/pack.mcmeta", MCMETA),
            ("Cool Pack/assets/minecraft/a.png", b"x"),
        ],
    )]);
    assert_eq!(report.entries[0].category, Category::Nested);
    assert!(has(&report.entries[0].causes, "archive_root_attachments"));
}

#[test]
fn a_zip_with_exactly_the_three_core_files_is_normal() {
    let report = run(vec![zip_file("Pack.zip", &core_entries())]);
    let e = &report.entries[0];
    assert_eq!(e.category, Category::Normal);
    assert!(e.causes.is_empty());
    assert_eq!(report.counts.normal, 1);
    assert_eq!(report.status, ScanStatus::Scanned);
}

#[test]
fn a_root_pack_with_singular_item_textures_is_ignored_as_high_version() {
    let report = run(vec![zip_file(
        "meezoid.zip",
        &[("pack.mcmeta", MCMETA), ("assets/minecraft/textures/item/apple.png", b"png")],
    )]);
    let e = &report.entries[0];
    assert_eq!(e.category, Category::Ignored);
    assert_eq!(report.counts.ignored, 1);
    let reason = e.ignore.as_ref().expect("ignore reason");
    assert_eq!(reason.key, "modern_texture_layout");
    assert_eq!(reason.values, vec!["assets/minecraft/textures/item"]);
}

#[test]
fn pack_format_and_mcmeta_parseability_do_not_define_version() {
    let report = run(vec![
        zip_file(
            "broken-meta.zip",
            &[
                ("pack.mcmeta", br#"{"pack":{"pack_format":1,"description":"broken",}}"#),
                ("assets/minecraft/a.png", b"x"),
            ],
        ),
        zip_file(
            "declares-modern.zip",
            &[
                ("pack.mcmeta", br#"{"pack":{"pack_format":16,"description":"declared modern"}}"#),
                ("assets/minecraft/textures/items/apple.png", b"x"),
            ],
        ),
    ]);
    assert_eq!(report.counts.normal, 2);
    assert_eq!(report.counts.ignored, 0);
    assert!(report.entries.iter().all(|e| e.ignore.is_none()));
}

#[test]
fn a_root_pack_with_singular_block_textures_is_ignored_as_high_version() {
    let report = run(vec![zip_file(
        "xray.zip",
        &[("pack.mcmeta", MCMETA), ("assets/minecraft/textures/block/", b"")],
    )]);
    let reason = report.entries[0].ignore.as_ref().unwrap();
    assert_eq!(report.entries[0].category, Category::Ignored);
    assert_eq!(reason.key, "modern_texture_layout");
    assert_eq!(reason.values, vec!["assets/minecraft/textures/block"]);
}

#[test]
fn legacy_plural_texture_files_override_singular_paths_in_the_same_core() {
    let report = run(vec![zip_file(
        "hybrid.zip",
        &[
            ("pack.mcmeta", MCMETA),
            ("assets/minecraft/textures/item/apple.png", b"new"),
            ("assets/minecraft/textures/blocks/", b""),
        ],
    )]);
    assert_eq!(report.entries[0].category, Category::Normal);
    assert!(report.entries[0].ignore.is_none());
}

#[test]
fn an_empty_singular_item_directory_is_not_version_evidence() {
    let report = run(vec![zip_file(
        "empty-modern-dirs.zip",
        &[
            ("pack.mcmeta", MCMETA),
            ("assets/minecraft/textures/item/", b""),
            ("assets/minecraft/gui/widgets.png", b"png"),
        ],
    )]);
    assert_eq!(report.entries[0].category, Category::Normal);
    assert!(report.entries[0].ignore.is_none());
}

#[test]
fn invalid_lunar_escape_is_still_classified_independently_of_pack_format() {
    let report = run(vec![zip_file(
        "lunar.zip",
        &[
            ("pack.mcmeta", br#"{"pack":{"pack_format":99,"description":"hi\!"}}"#),
            ("assets/minecraft/a.png", b"x"),
        ],
    )]);
    let e = &report.entries[0];
    assert_eq!(e.category, Category::LunarIllegal);
    assert!(has(&e.causes, "lunar_escape"));
    assert!(e.ignore.is_none());
    assert_eq!(report.counts.lunar, 1);
    assert_eq!(report.counts.normal, 0);
}

#[test]
fn a_nested_low_version_pack_stays_rescuable() {
    let report = run(vec![zip_file(
        "outer.zip",
        &[
            ("Legacy/pack.mcmeta", MCMETA),
            ("Legacy/assets/minecraft/textures/items/apple.png", b"x"),
        ],
    )]);
    assert_eq!(report.entries[0].category, Category::Nested);
    assert!(report.entries[0].ignore.is_none());
}

#[test]
fn a_collection_shell_ignores_only_its_high_version_candidate() {
    let report = run(vec![zip_file(
        "collection.zip",
        &[
            ("Legacy/pack.mcmeta", MCMETA),
            ("Legacy/assets/minecraft/textures/items/apple.png", b"old"),
            ("Modern/pack.mcmeta", MCMETA),
            ("Modern/assets/minecraft/textures/item/apple.png", b"new"),
        ],
    )]);
    assert_eq!(report.entries[0].kind, NodeKind::Shell);
    assert_eq!(entry(&report, "collection.zip/Legacy").category, Category::Bloated);
    let modern = entry(&report, "collection.zip/Modern");
    assert_eq!(modern.category, Category::Ignored);
    assert_eq!(modern.ignore.as_ref().unwrap().values, vec!["assets/minecraft/textures/item"]);
}

#[test]
fn a_nested_high_version_pack_is_ignored_before_unwrap() {
    let inner = zip_bytes(&[("pack.mcmeta", MCMETA), ("assets/minecraft/textures/block/stone.png", b"x")]);
    let report = run(vec![zip_file("outer.zip", &[("Modern.zip", inner.as_slice())])]);
    let modern = entry(&report, "outer.zip/Modern.zip");
    let reason = modern.ignore.as_ref().unwrap();
    assert_eq!(report.entries[0].kind, NodeKind::Shell);
    assert_eq!(modern.category, Category::Ignored);
    assert_eq!(reason.values, vec!["assets/minecraft/textures/block"]);
}

#[test]
fn a_root_folder_with_singular_textures_is_ignored() {
    let report = run(vec![dir(
        "Modern Folder",
        vec![
            dir(
                "assets",
                vec![dir("minecraft", vec![dir("textures", vec![dir("item", vec![file("apple.png", b"png")])])])],
            ),
            file("pack.mcmeta", MCMETA),
        ],
    )]);
    assert_eq!(report.entries[0].category, Category::Ignored);
    assert_eq!(report.counts.ignored, 1);
    assert_eq!(
        report.entries[0].ignore.as_ref().unwrap().values,
        vec!["assets/minecraft/textures/item"]
    );
}

#[test]
fn entries_carry_their_size_in_bytes() {
    let zip = zip_bytes(&core_entries());
    let report = run(vec![
        file("pack.zip", &zip),
        dir(
            "FolderPack",
            vec![
                dir("assets", vec![dir("minecraft", vec![file("a.bin", &[0u8; 1000])])]),
                file("pack.mcmeta", MCMETA),
            ],
        ),
    ]);
    assert_eq!(entry(&report, "pack.zip").size_bytes, zip.len() as u64);
    assert_eq!(entry(&report, "FolderPack").size_bytes, 1000 + MCMETA.len() as u64);
}

#[test]
fn plot_temp_and_excluded_paths_are_invisible_to_scan() {
    let opts = ScanOptions { exclude: vec!["Plot.exe".to_string()] };
    let report = scan_with(
        "resourcepacks".to_string(),
        Some(vec![
            dir("plot_temp", vec![dir("problematic_packs", vec![])]),
            file("Plot.exe", b"MZfake"),
            zip_file("real.zip", &core_entries()),
        ]),
        &opts,
    );
    let names: Vec<_> = report.entries.iter().map(|e| e.name.as_str()).collect();
    assert_eq!(names, vec!["real.zip"]);
}

#[test]
fn a_plot_temp_file_is_still_scanned() {
    let report = run(vec![file("PLOT_TEMP", b"not a folder")]);
    assert_eq!(report.entries.len(), 1);
    assert_eq!(report.entries[0].category, Category::Illegal);
}

#[test]
fn broken_archives_count_as_classification_children_but_attachments_do_not() {
    let report = run(vec![dir(
        "Mixed",
        vec![
            dir("notes", vec![file("about.txt", b"notes")]),
            file("broken.zip", b"broken"),
            file("encrypted.RAR", b"broken"),
            file("damaged.7z", b"broken"),
            file("readme.txt", b"read me"),
            file("preview.png", b"preview"),
        ],
    )]);
    assert_eq!(report.total_packs, 3);
    assert_eq!(report.counts.folder, 1);
    assert_eq!(report.counts.illegal, 3);
    assert_eq!(report.entries.len(), 4);
    assert_eq!(report.entries[0].kind, NodeKind::ClassificationFolder);
    for name in ["broken.zip", "encrypted.RAR", "damaged.7z"] {
        let child = report.entries.iter().find(|e| e.name == name).unwrap();
        assert_eq!(child.kind, NodeKind::Pack);
        assert_eq!(child.category, Category::Illegal);
        assert_eq!(child.parent_path.as_deref(), Some("Mixed"));
    }
}

#[test]
fn a_folder_wrapping_a_zip_shell_scans_through_both() {
    let inner = zip_bytes(&core_entries());
    let outer = zip_bytes(&[("A.zip", inner.as_slice())]);
    let report = run(vec![dir("Wrapper", vec![file("outer.zip", &outer)])]);
    assert_eq!(report.entries.len(), 3);
    assert_eq!(entry(&report, "Wrapper").kind, NodeKind::Shell);
    let shell = entry(&report, "Wrapper/outer.zip");
    assert_eq!(shell.kind, NodeKind::Shell);
    assert_eq!(shell.parent_path.as_deref(), Some("Wrapper"));
    assert_eq!(entry(&report, "Wrapper/outer.zip/A.zip").category, Category::Normal);
    assert_eq!(report.counts.nested, 2);
}

#[test]
fn a_folder_with_a_nested_core_is_nested_container() {
    let report = run(vec![dir(
        "Outer",
        vec![dir(
            "Middle",
            vec![dir("Core", vec![dir("assets", vec![]), file("pack.mcmeta", MCMETA)])],
        )],
    )]);
    assert_eq!(entry(&report, "Outer").kind, NodeKind::Shell);
    assert_eq!(entry(&report, "Outer/Middle").kind, NodeKind::Shell);
    assert_eq!(entry(&report, "Outer/Middle/Core").category, Category::Bloated);
}

#[test]
fn a_folder_with_unreadable_files_only_is_one_illegal_pack() {
    let report = run(vec![dir(
        "Broken",
        vec![FsNode::File { name: "data.bin".to_string(), data: None, size: 7 }],
    )]);
    assert_eq!(report.entries.len(), 1);
    let e = &report.entries[0];
    assert_eq!(e.kind, NodeKind::Pack);
    assert_eq!(e.category, Category::Illegal);
    assert!(has(&e.causes, "no_core_found"));
    assert_eq!(e.size_bytes, 7);
}

#[test]
fn a_folder_pack_with_a_lunar_mcmeta_keeps_bloated_and_gains_the_tag() {
    let report = run(vec![dir(
        "Lunar",
        vec![
            dir("assets", vec![]),
            file("pack.mcmeta", br#"{"pack":{"pack_format":1,"description":"\q"}}"#),
        ],
    )]);
    let e = &report.entries[0];
    assert_eq!(e.category, Category::Bloated);
    assert_eq!(e.causes, vec!["folder_pack".to_string(), "lunar_escape".to_string()]);
    assert_eq!(report.counts.lunar, 1);
    assert_eq!(report.counts.bloated, 1);
}
