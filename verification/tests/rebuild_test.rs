use engine::extract::{extract_files, layer_step, unpack_dir_name, walk_allowed, LayerStep};
use engine::fs::FsNode;
use engine::model::Category;
use engine::names::product_stem;
use engine::plan::process;
use engine::rebuild::{fixed_files_from_dir, fixed_files_from_zip, write_fixed_zip};
use engine::scan::scan;
use engine::zipwrite::zip_archive;
use std::io::{Read, Write};

const MCMETA: &[u8] = br#"{"pack":{"pack_format":1,"description":"test"}}"#;
const SICK: &[u8] = br#"{"pack":{"pack_format":1,"description":"\u00A7b\! made by the goose :>"}}"#;
const PATCHED: &[u8] = br#"{"pack":{"pack_format":1,"description":"\u00A7b! made by the goose :>"}}"#;

fn zip_bytes(entries: &[(&str, &[u8])]) -> Vec<u8> {
    let mut w = zip::ZipWriter::new(std::io::Cursor::new(Vec::new()));
    let options: zip::write::SimpleFileOptions = Default::default();
    for (name, bytes) in entries {
        if name.ends_with('/') {
            w.add_directory(name.trim_end_matches('/'), options).unwrap();
        } else {
            w.start_file(*name, options).unwrap();
            w.write_all(bytes).unwrap();
        }
    }
    w.finish().unwrap().into_inner()
}

fn read_back(bytes: &[u8]) -> Vec<(String, Vec<u8>)> {
    let mut archive = zip::ZipArchive::new(std::io::Cursor::new(bytes)).unwrap();
    let mut out = Vec::new();
    for i in 0..archive.len() {
        let mut entry = archive.by_index(i).unwrap();
        let mut data = Vec::new();
        entry.read_to_end(&mut data).unwrap();
        out.push((entry.name().to_string(), data));
    }
    out
}

fn chars(s: &str) -> Vec<char> {
    s.chars().collect()
}

fn file(name: &str, bytes: &[u8]) -> FsNode {
    FsNode::File { name: name.to_string(), data: Some(bytes.to_vec()), size: bytes.len() as u64 }
}

fn dir(name: &str, children: Vec<FsNode>) -> FsNode {
    FsNode::Dir { name: name.to_string(), children }
}

fn names_of(files: &[(String, Vec<u8>)]) -> Vec<&str> {
    files.iter().map(|(n, _)| n.as_str()).collect()
}

fn bytes_of<'a>(files: &'a [(String, Vec<u8>)], name: &str) -> Option<&'a [u8]> {
    files.iter().find(|(n, _)| n == name).map(|(_, b)| b.as_slice())
}

fn core_entries() -> Vec<(&'static str, &'static [u8])> {
    vec![
        ("pack.mcmeta", MCMETA),
        ("pack.png", b"\x89PNG fake"),
        ("assets/minecraft/textures/blocks/stone.png", b"png"),
    ]
}

fn entry_bytes(zip: &[u8], name: &str) -> Option<Vec<u8>> {
    read_back(zip).into_iter().find(|(n, _)| n == name).map(|(_, b)| b)
}

fn category_of(name: &str, bytes: &[u8]) -> Category {
    scan("rp".to_string(), Some(vec![file(name, bytes)])).entries[0].category
}

/// The clean zip a pack file named `name` is rebuilt into, with its name.
fn product_of(name: &str, bytes: &[u8]) -> (String, Vec<u8>) {
    let stem = product_stem(&chars(name), false);
    let product = write_fixed_zip(&file(name, bytes), &stem).unwrap();
    (format!("{}.zip", stem.iter().collect::<String>()), product)
}

#[test]
fn bloated_packs_are_slimmed_to_the_three_core_files() {
    let mut entries = core_entries();
    entries.push(("assets/minecraft/records/13.ogg", b"deadmusic" as &[u8]));
    entries.push(("credits.txt", b"by someone"));
    entries.push(("Thumbs.db", b"junk"));
    entries.push(("assets/minecraft/.DS_Store", b"junk"));
    let (name, product) = product_of("Yokabi.zip", &zip_bytes(&entries));
    assert_eq!(name, "Yokabi.zip");
    let names: Vec<String> = read_back(&product).into_iter().map(|(n, _)| n).collect();
    assert!(!names.iter().any(|n| n.contains("records")), "dead path gone");
    assert!(!names.iter().any(|n| n.contains("credits")), "extras gone");
    assert!(!names.iter().any(|n| n.contains("Thumbs") || n.contains(".DS_Store")));
    assert_eq!(
        entry_bytes(&product, "assets/minecraft/textures/blocks/stone.png").unwrap(),
        b"png",
        "legit content byte-identical"
    );
    assert_eq!(category_of(&name, &product), Category::Normal);
}

#[test]
fn typo_core_files_are_renamed_preserving_author_content() {
    let (name, product) = product_of(
        "Kiro.zip",
        &zip_bytes(&[
            ("pack.mcmeta.mcmeta", MCMETA),
            ("pack..png", b"authoricon" as &[u8]),
            ("assets/minecraft/a.png", b"x"),
        ]),
    );
    assert_eq!(entry_bytes(&product, "pack.mcmeta").unwrap(), MCMETA);
    assert_eq!(entry_bytes(&product, "pack.png").unwrap(), b"authoricon");
    assert_eq!(category_of(&name, &product), Category::Normal);
}

#[test]
fn consistent_mcmeta_candidates_use_stable_source_priority() {
    let lower_priority = br#"{"pack":{"pack_format":1,"description":"text suffix"}}"#;
    let preferred = br#"{"pack":{"pack_format":1,"description":"case variant"}}"#;
    let (_, product) = product_of(
        "Priority.zip",
        &zip_bytes(&[
            ("pack.mcmeta.txt", lower_priority),
            ("Pack.mcmeta", preferred),
            ("assets/minecraft/a.png", b"x"),
        ]),
    );
    assert_eq!(entry_bytes(&product, "pack.mcmeta").unwrap(), preferred);
}

#[test]
fn a_missing_mcmeta_is_generated_for_a_rescuable_pack() {
    let (name, product) = product_of("Infera.zip", &zip_bytes(&[("assets/minecraft/font/a.png", b"x" as &[u8])]));
    assert!(entry_bytes(&product, "pack.mcmeta").is_some());
    assert_eq!(category_of(&name, &product), Category::Normal);
}

#[test]
fn wrong_extensions_are_corrected_to_lowercase_zip() {
    let (upper, upper_product) = product_of("UPPER.ZIP", &zip_bytes(&core_entries()));
    let (fake, fake_product) = product_of("fake.rar", &zip_bytes(&core_entries()));
    assert_eq!(upper, "UPPER.zip");
    assert_eq!(fake, "fake.zip");
    let report = scan(
        "rp".to_string(),
        Some(vec![file(&upper, &upper_product), file(&fake, &fake_product)]),
    );
    assert_eq!(report.counts.normal, 2);
}

// The library's share of converting a folder pack: the batch routes it to a
// rebuild, and the rebuilt zip keeps the files and scans as normal. Moving
// the folder aside and writing the product are the program's disk steps and
// are not exercised here.
#[test]
fn a_folder_pack_is_converted_to_a_normal_zip() {
    let listing = scan(
        "rp".to_string(),
        Some(vec![dir(
            "MyPack",
            vec![
                dir("assets", vec![dir("minecraft", vec![dir("textures", vec![file("a.png", b"pngdata")])])]),
                file("pack.mcmeta", MCMETA),
            ],
        )]),
    );
    assert_eq!(listing.entries[0].category, Category::Bloated);
    assert!(listing.entries[0].causes.iter().any(|c| c == "folder_pack"));
    let work = process(&listing.entries);
    assert_eq!(work.len(), 1);
    assert!(matches!(work[0].route, engine::plan::Route::Convert));
    let pack = dir(
        "MyPack",
        vec![
            dir("assets", vec![dir("minecraft", vec![dir("textures", vec![file("a.png", b"pngdata")])])]),
            file("pack.mcmeta", MCMETA),
        ],
    );
    let stem = product_stem(&chars("MyPack"), true);
    let product = write_fixed_zip(&pack, &stem).unwrap();
    let name = format!("{}.zip", stem.iter().collect::<String>());
    assert_eq!(name, "MyPack.zip");
    assert_eq!(entry_bytes(&product, "assets/minecraft/textures/a.png").unwrap(), b"pngdata");
    assert_eq!(category_of(&name, &product), Category::Normal);
}

#[test]
fn pure_lunar_pack_is_converted_with_color_kept() {
    let source = zip_bytes(&[("pack.mcmeta", SICK), ("assets/minecraft/textures/x.png", b"png")]);
    let report = scan("rp".to_string(), Some(vec![file("OTB FPS.zip", &source)]));
    assert_eq!(process(&report.entries).len(), 1);
    let (name, product) = product_of("OTB FPS.zip", &source);
    let mcmeta = entry_bytes(&product, "pack.mcmeta").unwrap();
    let text = String::from_utf8(mcmeta.clone()).unwrap();
    assert!(text.contains(r"\u00A7b! made"), "color kept, escape fixed: {text}");
    assert!(!text.contains(r"\!"), "illegal escape removed: {text}");
    assert!(serde_json::from_slice::<serde_json::Value>(&mcmeta).is_ok());
    assert_eq!(category_of(&name, &product), Category::Normal);
}

#[test]
fn healthy_normal_pack_is_untouched_by_processing() {
    let source = zip_bytes(&[("pack.mcmeta", MCMETA), ("assets/minecraft/textures/x.png", b"png")]);
    let report = scan("rp".to_string(), Some(vec![file("clean.zip", &source)]));
    assert!(process(&report.entries).is_empty());
}

#[test]
fn mcmeta_content_does_not_trigger_processing_by_itself() {
    let source = zip_bytes(&[
        ("pack.mcmeta", br#"{"pack":{"pack_format":1,"author_field":"keep"},"root_field":7}"#),
        ("assets/minecraft/a.png", b"x"),
    ]);
    let report = scan("rp".to_string(), Some(vec![file("No Description.zip", &source)]));
    assert_eq!(report.entries[0].category, Category::Normal);
    assert!(process(&report.entries).is_empty());
}

#[test]
fn rebuilt_archive_prefers_the_case_variant_mcmeta() {
    let lower_priority = br#"{"pack":{"pack_format":1,"description":"text suffix"}}"#;
    let preferred = br#"{"pack":{"pack_format":1,"description":"case variant"}}"#;
    let zip = zip_bytes(&[
        ("pack.mcmeta.txt", lower_priority),
        ("Pack.mcmeta", preferred),
        ("assets/minecraft/a.png", b"x"),
    ]);
    let files = fixed_files_from_zip(&zip, &chars("Priority")).unwrap();
    assert_eq!(bytes_of(&files, "pack.mcmeta").unwrap(), preferred);
    assert_eq!(files.iter().filter(|(n, _)| n == "pack.mcmeta").count(), 1);
}

#[test]
fn rebuilt_archive_generates_a_missing_mcmeta_from_the_stem() {
    let zip = zip_bytes(&[("assets/minecraft/font/a.png", b"x")]);
    let files = fixed_files_from_zip(&zip, &chars("In\"fera")).unwrap();
    assert_eq!(names_of(&files), vec!["assets/minecraft/font/a.png", "pack.mcmeta"]);
    assert_eq!(
        bytes_of(&files, "pack.mcmeta").unwrap(),
        br#"{"pack":{"pack_format":1,"description":"In\"fera"}}"#
    );
}

#[test]
fn rebuilt_archive_repairs_lunar_escapes() {
    let zip = zip_bytes(&[("pack.mcmeta", SICK), ("assets/minecraft/a.png", b"x")]);
    let files = fixed_files_from_zip(&zip, &chars("Goose")).unwrap();
    assert_eq!(bytes_of(&files, "pack.mcmeta").unwrap(), PATCHED);
}

#[test]
fn rebuilding_bytes_that_are_no_archive_fails() {
    assert!(fixed_files_from_zip(b"not a zip at all", &chars("x")).is_none());
}

#[test]
fn a_folder_pack_rebuilds_from_its_tree() {
    let pack = dir(
        "MyPack",
        vec![
            file("pack.mcmeta", MCMETA),
            file("notes.txt", b"extra"),
            dir("assets", vec![dir("minecraft", vec![dir("textures", vec![file("a.png", b"pngdata")])])]),
        ],
    );
    let files = fixed_files_from_dir(&pack, &chars("MyPack")).unwrap();
    assert_eq!(names_of(&files), vec!["pack.mcmeta", "assets/minecraft/textures/a.png"]);
    assert_eq!(bytes_of(&files, "assets/minecraft/textures/a.png").unwrap(), b"pngdata");
}

#[test]
fn an_unreadable_kept_file_fails_the_rebuild_but_a_dropped_one_does_not() {
    let unreadable = FsNode::File { name: "a.png".to_string(), data: None, size: 0 };
    let broken = dir(
        "P",
        vec![file("pack.mcmeta", MCMETA), dir("assets", vec![unreadable])],
    );
    assert!(fixed_files_from_dir(&broken, &chars("P")).is_none());
    let dropped = FsNode::File { name: "notes.txt".to_string(), data: None, size: 0 };
    let fine = dir("P", vec![file("pack.mcmeta", MCMETA), dropped]);
    let files = fixed_files_from_dir(&fine, &chars("P")).unwrap();
    assert_eq!(names_of(&files), vec!["pack.mcmeta"]);
}

#[test]
fn the_written_zip_reads_back_as_the_rebuilt_files() {
    let zip = zip_bytes(&[
        ("pack.mcmeta.txt", MCMETA),
        ("assets/minecraft/a.png", b"x"),
        ("readme.md", b"drop me"),
    ]);
    let source = file("Broken.zip", &zip);
    let product = write_fixed_zip(&source, &chars("Broken")).unwrap();
    assert_eq!(
        read_back(&product),
        vec![
            ("pack.mcmeta".to_string(), MCMETA.to_vec()),
            ("assets/minecraft/a.png".to_string(), b"x".to_vec()),
        ]
    );
    let unreadable = FsNode::File { name: "Gone.zip".to_string(), data: None, size: 0 };
    assert!(write_fixed_zip(&unreadable, &chars("Gone")).is_none());
}

#[test]
fn an_archive_written_in_memory_holds_its_files_in_order() {
    let files = vec![
        ("b.txt".to_string(), b"second".to_vec()),
        ("a/c.txt".to_string(), b"first".to_vec()),
    ];
    let bytes = zip_archive(&files).unwrap();
    assert_eq!(read_back(&bytes), files);
    let repeated = vec![("x".to_string(), b"1".to_vec()), ("x".to_string(), b"2".to_vec())];
    assert!(zip_archive(&repeated).is_none());
}

#[test]
fn extraction_keeps_safe_sanitized_paths_only() {
    let zip = zip_bytes(&[
        ("inner/pack.mcmeta", MCMETA),
        ("inner/", b""),
        ("../escape.txt", b"no"),
        ("./a/./b:c.png", b"png"),
        ("win\\style.txt", b"w"),
    ]);
    let files = extract_files(&zip).unwrap();
    let paths: Vec<Vec<String>> = files.iter().map(|(p, _)| p.clone()).collect();
    assert_eq!(
        paths,
        vec![
            vec!["inner".to_string(), "pack.mcmeta".to_string()],
            vec!["a".to_string(), "b_c.png".to_string()],
            vec!["win".to_string(), "style.txt".to_string()],
        ]
    );
    assert_eq!(files[0].1, MCMETA);
    assert!(extract_files(b"PK but broken").is_none());
}

#[test]
fn the_layer_walk_decides_per_item() {
    assert_eq!(layer_step(&chars("__MACOSX"), true, true, false), LayerStep::Skip);
    assert_eq!(layer_step(&chars("Inner"), true, true, false), LayerStep::Layer);
    assert_eq!(layer_step(&chars("Wrapper"), true, false, false), LayerStep::Descend);
    assert_eq!(layer_step(&chars("pack.zip"), false, false, true), LayerStep::Unpack);
    assert_eq!(layer_step(&chars("readme.txt"), false, false, false), LayerStep::Skip);
    assert!(walk_allowed(10));
    assert!(!walk_allowed(11));
    assert_eq!(unpack_dir_name(&chars("a<b>.zip")).iter().collect::<String>(), "a_b_.x");
    assert_eq!(unpack_dir_name(&chars("Plain")).iter().collect::<String>(), "Plain.x");
}

#[test]
fn an_archive_with_a_name_twice_is_refused() {
    let files = vec![("a.txt".to_string(), b"1".to_vec()), ("a.txt".to_string(), b"2".to_vec())];
    assert!(zip_archive(&files).is_none());
}
