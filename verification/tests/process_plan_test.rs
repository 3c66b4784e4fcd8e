use engine::fs::FsNode;
use engine::misplaced::{collect_misplaced_containers, misplaced_in_zip, safe_relative_path, Misplaced};
use engine::model::{Category, NodeKind, PackEntry, PackOutcome, SeparatedPack};
use engine::outcome::{
    locked_or_failed_outcome, needs_restore, probe_locked, qualify_outcome_paths, restore_classified_failure, shell_can_go,
};
use engine::plan::{descendants, first_child, process, Route};
use engine::scan::scan;
use engine::shellplan::{
    archive_attachment_target, archive_preserved_parent, archive_shell_target_name, child_action, inner_path,
    is_folder_source, shell_action, skip_attachment, ChildAction, ShellAction,
};
use std::io::Write;

const MCMETA: &[u8] = br#"{"pack":{"pack_format":1,"description":"test"}}"#;

fn zip_bytes(entries: &[(&str, &[u8])]) -> Vec<u8> {
    let mut w = zip::ZipWriter::new(std::io::Cursor::new(Vec::new()));
    let options: zip::write::SimpleFileOptions = Default::default();
    for (name, bytes) in entries {
        w.start_file(*name, options).unwrap();
        w.write_all(bytes).unwrap();
    }
    w.finish().unwrap().into_inner()
}

fn core_zip() -> Vec<u8> {
    zip_bytes(&[("pack.mcmeta", MCMETA), ("pack.png", b"png"), ("assets/minecraft/a.png", b"png")])
}

fn file(name: &str, bytes: &[u8]) -> FsNode {
    FsNode::File { name: name.to_string(), data: Some(bytes.to_vec()), size: bytes.len() as u64 }
}

fn dir(name: &str, children: Vec<FsNode>) -> FsNode {
    FsNode::Dir { name: name.to_string(), children }
}

fn cs(s: &str) -> Vec<char> {
    s.chars().collect()
}

fn comps(parts: &[&str]) -> Vec<Vec<char>> {
    parts.iter().map(|p| cs(p)).collect()
}

fn st(v: &[char]) -> String {
    v.iter().collect()
}

fn pack(name: &str, rel: &str, parent: Option<&str>, category: Category, causes: &[&str]) -> PackEntry {
    PackEntry {
        name: name.to_string(),
        relative_path: rel.to_string(),
        parent_path: parent.map(|p| p.to_string()),
        kind: NodeKind::Pack,
        category,
        causes: causes.iter().map(|c| c.to_string()).collect(),
        size_bytes: 0,
        ignore: None,
    }
}

fn node(name: &str, rel: &str, parent: Option<&str>, kind: NodeKind, causes: &[&str]) -> PackEntry {
    PackEntry {
        name: name.to_string(),
        relative_path: rel.to_string(),
        parent_path: parent.map(|p| p.to_string()),
        kind,
        category: Category::Nested,
        causes: causes.iter().map(|c| c.to_string()).collect(),
        size_bytes: 0,
        ignore: None,
    }
}

#[test]
fn ignored_only_batch_is_a_read_only_noop() {
    let modern = zip_bytes(&[("pack.mcmeta", MCMETA), ("assets/minecraft/textures/item/a.png", b"x")]);
    let report = scan("rp".to_string(), Some(vec![file("modern.zip", &modern), file("ok.zip", &core_zip())]));
    assert_eq!(report.counts.ignored, 1);
    assert!(process(&report.entries).is_empty());
}

#[test]
fn the_batch_works_on_top_shells_and_problem_packs_only() {
    let lunar = zip_bytes(&[("pack.mcmeta", br#"{"d":"\!"}"#), ("assets/a.png", b"x")]);
    let outer = zip_bytes(&[("A.zip", core_zip().as_slice())]);
    let report = scan(
        "rp".to_string(),
        Some(vec![
            file("ok.zip", &core_zip()),
            file("lunar.zip", &lunar),
            file("note.txt", b"text"),
            file("outer.zip", &outer),
            dir("Wrapper", vec![file("B.zip", &core_zip())]),
        ]),
    );
    let work = process(&report.entries);
    let picked: Vec<(&str, Route)> =
        work.iter().map(|w| (report.entries[w.index].relative_path.as_str(), w.route)).collect();
    let wrapper_child = report.entries.iter().position(|e| e.relative_path == "Wrapper/B.zip").unwrap();
    assert_eq!(
        picked,
        vec![
            ("lunar.zip", Route::Convert),
            ("note.txt", Route::MoveToIllegal),
            ("outer.zip", Route::ArchiveShell),
            ("Wrapper", Route::FolderShell { child: wrapper_child }),
        ]
    );
    assert!(work.iter().all(|w| w.notice.is_none()));
}

#[test]
fn shells_over_archives_report_kept_attachments() {
    let outer = zip_bytes(&[("A.zip", core_zip().as_slice()), ("readme.txt", b"hi")]);
    let report = scan("rp".to_string(), Some(vec![dir("Box", vec![file("outer.zip", &outer)]), file("direct.zip", &outer)]));
    let work = process(&report.entries);
    assert_eq!(work.len(), 2);
    let child = report.entries.iter().position(|e| e.relative_path == "Box/outer.zip").unwrap();
    assert_eq!(work[0].route, Route::ShellOverArchive { child });
    assert_eq!(work[0].notice.as_deref(), Some("Box/outer.zip"));
    assert_eq!(work[1].route, Route::ArchiveShell);
    assert_eq!(work[1].notice.as_deref(), Some("direct.zip"));
}

#[test]
fn nested_containers_are_unwrapped() {
    let entries = vec![
        pack("n.zip", "n.zip", None, Category::Nested, &["nested_container"]),
        pack("m.zip", "m.zip", None, Category::Nested, &["mcmeta_rescue"]),
        node("Lone", "Lone", None, NodeKind::Shell, &["folder_shell"]),
    ];
    let work = process(&entries);
    let routes: Vec<Route> = work.iter().map(|w| w.route).collect();
    assert_eq!(routes, vec![Route::ConvertNested, Route::Convert, Route::ShellWithoutChild]);
}

#[test]
fn descendants_and_first_children_follow_paths() {
    let entries = vec![
        node("S", "S", None, NodeKind::Shell, &["archive_shell"]),
        pack("a", "S/a", Some("S"), Category::Normal, &[]),
        pack("b", "S/x/b", Some("S/x"), Category::Normal, &[]),
        pack("SS", "SS", None, Category::Normal, &[]),
    ];
    assert_eq!(descendants(&entries, &"S".to_string()), vec![1, 2]);
    assert_eq!(first_child(&entries, &"S".to_string()), Some(1));
    assert_eq!(first_child(&entries, &"SS".to_string()), None);
}

#[test]
fn outcomes_are_qualified_by_the_entry_folder() {
    let entry = pack("p.zip", "Folder/Sub/p.zip", Some("Folder/Sub"), Category::Bloated, &[]);
    let mut outcome = PackOutcome {
        original_name: "p.zip".to_string(),
        action: "converted".to_string(),
        products: vec!["p.zip".to_string(), "inner\\q.zip".to_string()],
        causes: vec!["root_extras".to_string()],
        detail: None,
        separated: vec![SeparatedPack { name: "c.zip".to_string(), parent: "p.zip".to_string() }],
    };
    qualify_outcome_paths(&entry, &mut outcome);
    assert_eq!(outcome.original_name, "Folder/Sub/p.zip");
    assert_eq!(outcome.products, vec!["Folder/Sub/p.zip".to_string(), "Folder/Sub/inner/q.zip".to_string()]);
    assert_eq!(outcome.separated[0].name, "Folder/Sub/c.zip");
    assert_eq!(outcome.separated[0].parent, "Folder/Sub/p.zip");
    let top = pack("t.zip", "t.zip", None, Category::Bloated, &[]);
    let mut plain = PackOutcome {
        original_name: "t.zip".to_string(),
        action: "converted".to_string(),
        products: vec!["a\\b.zip".to_string()],
        causes: vec![],
        detail: None,
        separated: vec![],
    };
    qualify_outcome_paths(&top, &mut plain);
    assert_eq!(plain.products, vec!["a\\b.zip".to_string()]);
}

#[test]
fn locked_files_are_skipped_not_failed() {
    let entry = pack("p.zip", "p.zip", None, Category::Bloated, &["root_extras"]);
    let locked = locked_or_failed_outcome(&entry, Some(32), "in use".to_string());
    assert_eq!(locked.action, "skipped_locked");
    assert_eq!(locked.detail.as_deref(), Some("in use"));
    assert_eq!(locked.causes, vec!["root_extras".to_string()]);
    let failed = locked_or_failed_outcome(&entry, Some(5), "denied".to_string());
    assert_eq!(failed.action, "failed");
    let unknown = locked_or_failed_outcome(&entry, None, "gone".to_string());
    assert_eq!(unknown.action, "failed");
}

#[test]
fn failed_repairs_below_folders_are_restored() {
    let nested = pack("p.zip", "F/p.zip", Some("F"), Category::Bloated, &[]);
    let top = pack("p.zip", "p.zip", None, Category::Bloated, &[]);
    let failed = locked_or_failed_outcome(&nested, None, "boom".to_string());
    assert!(needs_restore(&nested, &failed));
    assert!(!needs_restore(&top, &failed));
    let restored = restore_classified_failure(&nested, failed, Some("target exists".to_string()));
    assert_eq!(restored.detail.as_deref(), Some("boom; restore failed: target exists"));
    let again = locked_or_failed_outcome(&nested, None, "boom".to_string());
    let untouched = restore_classified_failure(&nested, again, None);
    assert_eq!(untouched.detail.as_deref(), Some("boom"));
}

#[test]
fn locked_names_are_listed_in_order() {
    let names = vec!["a.zip".to_string(), "b.zip".to_string(), "c.zip".to_string()];
    assert_eq!(probe_locked(&names, &vec![true, false, true]), vec!["a.zip".to_string(), "c.zip".to_string()]);
    assert!(probe_locked(&names, &vec![false, false, false]).is_empty());
}

#[test]
fn shell_children_get_their_actions() {
    assert_eq!(child_action(&pack("a", "a", None, Category::Illegal, &[])), ChildAction::Illegal);
    assert_eq!(child_action(&pack("a", "a", None, Category::Normal, &[])), ChildAction::Unchanged);
    assert_eq!(child_action(&pack("a", "a", None, Category::Ignored, &[])), ChildAction::Unchanged);
    assert_eq!(child_action(&pack("a", "a", None, Category::Normal, &["lunar_escape"])), ChildAction::Fix);
    assert_eq!(child_action(&pack("a", "a", None, Category::Nested, &["nested_container"])), ChildAction::Unwrap);
    assert_eq!(child_action(&pack("a", "a", None, Category::Bloated, &[])), ChildAction::Fix);
    assert_eq!(shell_action(&node("s", "s", None, NodeKind::Shell, &[])), ShellAction::Unsupported);
    assert_eq!(shell_action(&pack("a", "a", None, Category::Normal, &[])), ShellAction::Release);
    assert_eq!(shell_action(&pack("a", "a", None, Category::Illegal, &[])), ShellAction::Illegal);
    assert_eq!(shell_action(&pack("a", "a", None, Category::Nested, &["nested_container"])), ShellAction::Unwrap);
    assert_eq!(shell_action(&pack("a", "a", None, Category::LunarIllegal, &["lunar_escape"])), ShellAction::Fix);
}

#[test]
fn released_packs_keep_their_classification_folders() {
    let entries = vec![
        node("D.zip", "D.zip", None, NodeKind::Shell, &["archive_shell"]),
        node("Coll", "D.zip/Coll", Some("D.zip"), NodeKind::ClassificationFolder, &[]),
        node("Wrap:1", "D.zip/Coll/Wrap:1", Some("D.zip/Coll"), NodeKind::SupportingFolder, &[]),
        node("Sh", "D.zip/Coll/Wrap:1/Sh", Some("D.zip/Coll/Wrap:1"), NodeKind::Shell, &[]),
        pack("A.zip", "D.zip/Coll/Wrap:1/Sh/A.zip", Some("D.zip/Coll/Wrap:1/Sh"), Category::Normal, &[]),
    ];
    let children = descendants(&entries, &"D.zip".to_string());
    assert_eq!(children, vec![1, 2, 3, 4]);
    let parts = archive_preserved_parent(&entries, &children, &entries[0], &entries[4]);
    let parts: Vec<String> = parts.iter().map(|p| st(p)).collect();
    assert_eq!(parts, vec!["Coll".to_string(), "Wrap_1".to_string()]);
    assert_eq!(st(&inner_path(&entries[0], &entries[4])), "Coll/Wrap:1/Sh/A.zip");
    let stray = pack("Z.zip", "Elsewhere/Z.zip", None, Category::Normal, &[]);
    assert_eq!(st(&inner_path(&entries[0], &stray)), "Z.zip");
}

#[test]
fn attachments_land_beside_kept_folders() {
    let entries = vec![
        node("D.zip", "D.zip", None, NodeKind::Shell, &["archive_shell"]),
        node("Coll", "D.zip/Coll", Some("D.zip"), NodeKind::ClassificationFolder, &[]),
        pack("A.zip", "D.zip/Coll/A.zip", Some("D.zip/Coll"), Category::Normal, &[]),
        pack("B", "D.zip/B", Some("D.zip"), Category::Bloated, &[]),
    ];
    let children = descendants(&entries, &"D.zip".to_string());
    let target = archive_attachment_target(&entries, &children, &entries[0], &cs("Coll/docs/read?me.txt"));
    let target: Option<Vec<String>> = target.map(|t| t.iter().map(|c| st(c)).collect());
    assert_eq!(target, Some(vec!["Coll".to_string(), "docs".to_string(), "read_me.txt".to_string()]));
    assert_eq!(archive_attachment_target(&entries, &children, &entries[0], &cs("readme.txt")), None);
    assert_eq!(archive_attachment_target(&entries, &children, &entries[0], &cs("B/extra.txt")), None);
    assert_eq!(archive_attachment_target(&entries, &children, &entries[0], &cs("Other/extra.txt")), None);
}

#[test]
fn shell_products_are_named_below_their_parent() {
    let name = archive_shell_target_name(&comps(&["Folder"]), &comps(&["C:", "rp"]), &comps(&["C:", "rp", "Coll", "A.zip"]));
    assert_eq!(name, "Folder/Coll/A.zip");
    let top = archive_shell_target_name(&comps(&[]), &comps(&["C:", "rp"]), &comps(&["C:", "rp", "A.zip"]));
    assert_eq!(top, "A.zip");
    let outside = archive_shell_target_name(&comps(&[]), &comps(&["X:"]), &comps(&["C:", "rp", "a\\b"]));
    assert_eq!(outside, "C:/rp/a/b");
}

#[test]
fn pack_sources_and_attachments_are_told_apart() {
    let archive_names = vec![cs("Coll/A.zip"), cs("Folder/"), cs("Folder/pack.mcmeta")];
    assert!(!is_folder_source(&archive_names, &cs("Coll/A.zip")));
    assert!(is_folder_source(&archive_names, &cs("Folder")));
    let sources = vec![(cs("Coll/A.zip"), false), (cs("Folder"), true)];
    assert!(skip_attachment(&cs("Coll/A.zip"), &sources));
    assert!(skip_attachment(&cs("Folder/assets/x.png"), &sources));
    assert!(skip_attachment(&cs("Coll/__MACOSX/x"), &sources));
    assert!(!skip_attachment(&cs("Coll/readme.txt"), &sources));
    assert!(!skip_attachment(&cs("Coll/A.zip.txt"), &sources));
}

#[test]
fn misplaced_containers_are_found_in_folders_and_zips() {
    let folder = dir(
        "P",
        vec![
            dir("assets", vec![]),
            file("pack.mcmeta", MCMETA),
            file("extra.zip", b"PKjunk"),
            file("notes.txt", b"n"),
            dir("Sub", vec![dir("assets", vec![])]),
            dir("Empty", vec![]),
        ],
    );
    match collect_misplaced_containers(&folder) {
        Some(Misplaced::InFolder(v)) => assert_eq!(v, vec![2, 4]),
        _ => panic!("expected folder result"),
    }
    let inner = core_zip();
    let bytes = zip_bytes(&[
        ("pack.mcmeta", MCMETA),
        ("assets/a.png", b"x"),
        ("Inner.zip", inner.as_slice()),
        ("Pack.png", b"icon"),
        ("Other/pack.mcmeta", MCMETA),
        ("Other/assets/b.png", b"y"),
        ("Plain/readme.txt", b"r"),
    ]);
    let found = misplaced_in_zip(&bytes).unwrap();
    let files: Vec<&str> = found.files.iter().map(|f| f.0.as_str()).collect();
    assert_eq!(files, vec!["Inner.zip"]);
    assert_eq!(found.files[0].1, inner);
    assert_eq!(found.folders.len(), 1);
    assert_eq!(found.folders[0].0, "Other");
    let rel: Vec<&str> = found.folders[0].1.iter().map(|f| f.0.as_str()).collect();
    assert_eq!(rel, vec!["pack.mcmeta", "assets/b.png"]);
    assert!(misplaced_in_zip(b"not a zip").is_none());
}

#[test]
fn folder_entries_are_read_relative_to_their_prefix() {
    let bytes = zip_bytes(&[("X/a.txt", b"1"), ("X/sub\\b.txt", b"2"), ("Y/c.txt", b"3")]);
    match engine::shellzip::inner_pack_source(&bytes, &cs("X")) {
        Some(engine::shellzip::InnerSource::Folder(entries)) => assert_eq!(
            entries,
            vec![("a.txt".to_string(), b"1".to_vec()), ("sub/b.txt".to_string(), b"2".to_vec())]
        ),
        _ => panic!("expected a folder"),
    }
}

#[test]
fn extraction_paths_never_climb_out() {
    let p = safe_relative_path(&cs("a//./b:c/d.png")).unwrap();
    let p: Vec<String> = p.iter().map(|c| st(c)).collect();
    assert_eq!(p, vec!["a".to_string(), "b_c".to_string(), "d.png".to_string()]);
    assert!(safe_relative_path(&cs("a/../../evil")).is_none());
    assert!(safe_relative_path(&cs("./")).unwrap().is_empty());
}

fn outcome_with(action: &str) -> PackOutcome {
    PackOutcome {
        original_name: "x.zip".to_string(),
        action: action.to_string(),
        products: vec![],
        causes: vec![],
        detail: None,
        separated: vec![],
    }
}

#[test]
fn a_shell_folder_goes_only_when_nothing_stayed_behind() {
    assert!(shell_can_go(&vec![]));
    assert!(shell_can_go(&vec![outcome_with("converted"), outcome_with("moved_to_illegal")]));
    assert!(!shell_can_go(&vec![outcome_with("converted"), outcome_with("failed")]));
    assert!(!shell_can_go(&vec![outcome_with("skipped_locked")]));
}
