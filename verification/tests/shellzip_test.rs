use engine::fs::FsNode;
use engine::model::{NodeKind, PackEntry};
use engine::plan::descendants;
use engine::scan::scan;
use engine::shellplan::{archive_preserved_parent, child_action, ChildAction};
use engine::shellzip::{archive_attachments, archive_names, inner_pack_source, pack_sources, InnerSource};
use std::io::Write;

const MCMETA: &[u8] = br#"{"pack":{"pack_format":1,"description":"test"}}"#;

fn zip_bytes(entries: &[(&str, &[u8])]) -> Vec<u8> {
    let mut w = zip::ZipWriter::new(std::io::Cursor::new(Vec::new()));
    let options: zip::write::SimpleFileOptions = Default::default();
    for (name, bytes) in entries {
        w.start_file(*name, options).unwrap();
        w.write_all(bytes).unwrap();
    }
    w.finish().unwrap().into_inner()
}

fn core_zip() -> Vec<u8> {
    zip_bytes(&[("pack.mcmeta", MCMETA), ("pack.png", b"png"), ("assets/minecraft/a.png", b"png")])
}

fn file(name: &str, bytes: &[u8]) -> FsNode {
    FsNode::File { name: name.to_string(), data: Some(bytes.to_vec()), size: bytes.len() as u64 }
}

fn text(v: &[char]) -> String {
    v.iter().collect()
}

struct Shell {
    entries: Vec<PackEntry>,
    shell: usize,
    children: Vec<usize>,
}

fn scanned_shell(name: &str, bytes: &[u8]) -> Shell {
    let report = scan("rp".to_string(), Some(vec![file(name, bytes)]));
    let entries = report.entries;
    let shell = entries.iter().position(|e| e.relative_path == name).unwrap();
    assert_eq!(entries[shell].kind, NodeKind::Shell);
    let children = descendants(&entries, &entries[shell].relative_path);
    Shell { entries, shell, children }
}

#[test]
fn attachments_beside_a_pack_folder_are_released_with_it() {
    let a = core_zip();
    let outer = zip_bytes(&[("Preview/A.zip", &a), ("Preview/preview.png", b"preview bytes")]);
    let s = scanned_shell("Download.zip", &outer);
    let shell = &s.entries[s.shell];
    let names = archive_names(&outer).unwrap();
    let sources = pack_sources(&s.entries, &s.children, shell, &names);
    assert_eq!(sources.len(), 1);
    assert_eq!(text(&sources[0].0), "Preview/A.zip");
    assert!(!sources[0].1);
    let pack = s.children.iter().map(|&i| &s.entries[i]).find(|e| e.kind == NodeKind::Pack).unwrap();
    assert_eq!(child_action(pack), ChildAction::Unchanged);
    let preserved = archive_preserved_parent(&s.entries, &s.children, shell, pack);
    assert_eq!(preserved.iter().map(|p| text(p)).collect::<Vec<_>>(), vec!["Preview"]);
    let attachments = archive_attachments(&outer, &s.entries, &s.children, shell, &sources).unwrap();
    assert_eq!(attachments.len(), 1);
    let (target, data) = &attachments[0];
    assert_eq!(target.iter().map(|p| text(p)).collect::<Vec<_>>(), vec!["Preview", "preview.png"]);
    assert_eq!(data, b"preview bytes");
}

#[test]
fn root_attachments_stay_in_the_archive() {
    let a = core_zip();
    let outer = zip_bytes(&[("A.zip", &a), ("readme.txt", b"download page notes")]);
    let s = scanned_shell("Download.zip", &outer);
    let shell = &s.entries[s.shell];
    assert!(shell.causes.iter().any(|c| c == "archive_root_attachments"));
    let names = archive_names(&outer).unwrap();
    let sources = pack_sources(&s.entries, &s.children, shell, &names);
    let attachments = archive_attachments(&outer, &s.entries, &s.children, shell, &sources).unwrap();
    assert!(attachments.is_empty());
}

#[test]
fn attachments_of_bytes_that_are_no_archive_cannot_be_read() {
    let a = core_zip();
    let outer = zip_bytes(&[("Preview/A.zip", &a), ("Preview/preview.png", b"p")]);
    let s = scanned_shell("Download.zip", &outer);
    let shell = &s.entries[s.shell];
    assert!(archive_attachments(b"no zip", &s.entries, &s.children, shell, &Vec::new()).is_none());
}

#[test]
fn scan_entries_are_listed_parent_first_below_their_parents() {
    let a = core_zip();
    let outer = zip_bytes(&[("PotPvP/A.zip", &a), ("PotPvP/B.zip", &a), ("Preview/C.zip", &a), ("Preview/p.png", b"p")]);
    let folder = FsNode::Dir {
        name: "Collection".to_string(),
        children: vec![file("X.zip", &a), file("Y.zip", &a)],
    };
    let report = scan("rp".to_string(), Some(vec![file("Download.zip", &outer), folder]));
    assert!(report.entries.len() >= 7);
    for (i, e) in report.entries.iter().enumerate() {
        match &e.parent_path {
            None => assert_eq!(e.relative_path, e.name),
            Some(p) => {
                assert_eq!(e.relative_path, format!("{}/{}", p, e.name));
                assert!(report.entries[..i].iter().any(|q| &q.relative_path == p));
            }
        }
    }
}

#[test]
fn inner_packs_are_read_as_files_or_folders() {
    let a = core_zip();
    let outer = zip_bytes(&[("Packs/A.zip", &a), ("Folder Pack/pack.mcmeta", MCMETA), ("Folder Pack/assets/x.png", b"x")]);
    match inner_pack_source(&outer, &"Packs/A.zip".chars().collect::<Vec<_>>()) {
        Some(InnerSource::File(d)) => assert_eq!(d, a),
        _ => panic!("expected the zip's bytes"),
    }
    match inner_pack_source(&outer, &"Folder Pack".chars().collect::<Vec<_>>()) {
        Some(InnerSource::Folder(files)) => {
            let names: Vec<&str> = files.iter().map(|(n, _)| n.as_str()).collect();
            assert_eq!(names, vec!["pack.mcmeta", "assets/x.png"]);
        }
        _ => panic!("expected a folder"),
    }
    assert!(inner_pack_source(&outer, &"Missing".chars().collect::<Vec<_>>()).is_none());
    assert!(archive_names(b"no zip").is_none());
}
