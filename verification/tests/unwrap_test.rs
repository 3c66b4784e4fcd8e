use engine::extract::{extract_files, layer_step, unpack_dir_name, walk_allowed, LayerStep};
use engine::fs::FsNode;
use engine::model::Category;
use engine::names::{file_stem_of, sanitize_windows_name};
use engine::naming::target_candidate;
use engine::rebuild::write_fixed_zip;
use engine::scan::scan;
use std::io::{Read, Write};

const MCMETA: &[u8] = br#"{"pack":{"pack_format":1,"description":"test"}}"#;
const SICK: &[u8] = br#"{"pack":{"pack_format":1,"description":"\u00A7b\! made by the goose :>"}}"#;

fn zip_bytes(entries: &[(&str, &[u8])]) -> Vec<u8> {
    let mut w = zip::ZipWriter::new(std::io::Cursor::new(Vec::new()));
    let options: zip::write::SimpleFileOptions = Default::default();
    for (name, bytes) in entries {
        w.start_file(*name, options).unwrap();
        w.write_all(bytes).unwrap();
    }
    w.finish().unwrap().into_inner()
}

/// A stored zip whose entry names are raw bytes without the UTF-8 flag.
fn raw_zip_bytes(entries: &[(Vec<u8>, &[u8])]) -> Vec<u8> {
    let mut out: Vec<u8> = Vec::new();
    let mut central: Vec<u8> = Vec::new();
    for (name, data) in entries {
        let offset = out.len() as u32;
        let crc = crc32(data);
        out.extend_from_slice(b"PK\x03\x04");
        out.extend_from_slice(&[20, 0, 0, 0, 0, 0, 0, 0, 0, 0]);
        out.extend_from_slice(&crc.to_le_bytes());
        out.extend_from_slice(&(data.len() as u32).to_le_bytes());
        out.extend_from_slice(&(data.len() as u32).to_le_bytes());
        out.extend_from_slice(&(name.len() as u16).to_le_bytes());
        out.extend_from_slice(&[0, 0]);
        out.extend_from_slice(name);
        out.extend_from_slice(data);
        central.extend_from_slice(b"PK\x01\x02");
        central.extend_from_slice(&[20, 0, 20, 0, 0, 0, 0, 0, 0, 0, 0, 0]);
        central.extend_from_slice(&crc.to_le_bytes());
        central.extend_from_slice(&(data.len() as u32).to_le_bytes());
        central.extend_from_slice(&(data.len() as u32).to_le_bytes());
        central.extend_from_slice(&(name.len() as u16).to_le_bytes());
        central.extend_from_slice(&[0, 0, 0, 0, 0, 0, 0, 0, 0, 0, 0, 0]);
        central.extend_from_slice(&offset.to_le_bytes());
        central.extend_from_slice(name);
    }
    let cd_offset = out.len() as u32;
    out.extend_from_slice(&central);
    out.extend_from_slice(b"PK\x05\x06");
    out.extend_from_slice(&[0, 0, 0, 0]);
    out.extend_from_slice(&(entries.len() as u16).to_le_bytes());
    out.extend_from_slice(&(entries.len() as u16).to_le_bytes());
    out.extend_from_slice(&(central.len() as u32).to_le_bytes());
    out.extend_from_slice(&cd_offset.to_le_bytes());
    out.extend_from_slice(&[0, 0]);
    out
}

fn crc32(data: &[u8]) -> u32 {
    let mut crc: u32 = 0xFFFF_FFFF;
    for &b in data {
        crc ^= b as u32;
        for _ in 0..8 {
            let mask = (!(crc & 1)).wrapping_add(1);
            crc = (crc >> 1) ^ (0xEDB8_8320 & mask);
        }
    }
    !crc
}

fn chars(s: &str) -> Vec<char> {
    s.chars().collect()
}

fn text(v: &[char]) -> String {
    v.iter().collect()
}

fn file(name: &str, bytes: &[u8]) -> FsNode {
    FsNode::File { name: name.to_string(), data: Some(bytes.to_vec()), size: bytes.len() as u64 }
}

/// The folder an extraction writes, as a tree.
fn tree_of(name: &str, files: &[(Vec<String>, Vec<u8>)]) -> FsNode {
    let mut root = FsNode::Dir { name: name.to_string(), children: Vec::new() };
    for (parts, data) in files {
        insert(&mut root, parts, data);
    }
    root
}

fn insert(node: &mut FsNode, parts: &[String], data: &[u8]) {
    let FsNode::Dir { children, .. } = node else { return };
    if parts.len() == 1 {
        children.retain(|c| c.name() != &parts[0]);
        children.push(file(&parts[0], data));
        return;
    }
    let pos = match children.iter().position(|c| c.name() == &parts[0] && matches!(c, FsNode::Dir { .. })) {
        Some(p) => p,
        None => {
            children.push(FsNode::Dir { name: parts[0].clone(), children: Vec::new() });
            children.len() - 1
        }
    };
    insert(&mut children[pos], &parts[1..], data);
}

fn has_assets_dir(node: &FsNode) -> bool {
    match node {
        FsNode::Dir { children, .. } => children.iter().any(|c| c.name() == "assets" && matches!(c, FsNode::Dir { .. })),
        FsNode::File { .. } => false,
    }
}

/// The walk for rescuable layers, on a tree in memory, as the library
/// decides each step.
fn collect_layers(dir: &FsNode, depth: usize, out: &mut Vec<(String, FsNode)>) {
    if !walk_allowed(depth) {
        return;
    }
    let FsNode::Dir { children, .. } = dir else { return };
    for child in children {
        let name = child.name().clone();
        let is_dir = matches!(child, FsNode::Dir { .. });
        let data = match child {
            FsNode::File { data: Some(d), .. } => d.clone(),
            _ => Vec::new(),
        };
        let zip_head = data.starts_with(b"PK");
        match layer_step(&chars(&name), is_dir, has_assets_dir(child), zip_head) {
            LayerStep::Skip => {}
            LayerStep::Layer => out.push((name, clone_node(child))),
            LayerStep::Descend => collect_layers(child, depth + 1, out),
            LayerStep::Unpack => {
                let files = extract_files(&data).unwrap();
                let dst = tree_of(&text(&unpack_dir_name(&chars(&name))), &files);
                if has_assets_dir(&dst) {
                    out.push((text(&file_stem_of(&chars(&name))), dst));
                } else {
                    collect_layers(&dst, depth + 1, out);
                }
            }
        }
    }
}

fn clone_node(n: &FsNode) -> FsNode {
    match n {
        FsNode::File { name, data, size } => FsNode::File { name: name.clone(), data: data.clone(), size: *size },
        FsNode::Dir { name, children } => FsNode::Dir { name: name.clone(), children: children.iter().map(clone_node).collect() },
    }
}

/// Unwraps a zip container: each rescuable layer becomes a product named
/// after it, with the clean zip's bytes.
fn unwrap_zip(bytes: &[u8]) -> Vec<(String, Vec<u8>)> {
    let root = tree_of("_root", &extract_files(bytes).unwrap());
    let mut layers = Vec::new();
    collect_layers(&root, 1, &mut layers);
    layers
        .into_iter()
        .map(|(name, layer)| {
            let stem = sanitize_windows_name(&chars(&name));
            let product = write_fixed_zip(&layer, &stem).unwrap();
            (format!("{}.zip", text(&stem)), product)
        })
        .collect()
}

fn category_of(name: &str, bytes: &[u8]) -> Category {
    let report = scan("rp".to_string(), Some(vec![file(name, bytes)]));
    report.entries[0].category
}

fn entry_bytes(zip: &[u8], name: &str) -> Option<Vec<u8>> {
    let mut archive = zip::ZipArchive::new(std::io::Cursor::new(zip)).ok()?;
    let mut entry = archive.by_name(name).ok()?;
    let mut out = Vec::new();
    entry.read_to_end(&mut out).ok()?;
    Some(out)
}

fn names_in(zip: &[u8]) -> Vec<String> {
    let archive = zip::ZipArchive::new(std::io::Cursor::new(zip)).unwrap();
    archive.file_names().map(|n| n.to_string()).collect()
}

#[test]
fn zip_wrapping_a_folder_unwraps_to_the_inner_name() {
    let outer = zip_bytes(&[("Cool Pack v2/pack.mcmeta", MCMETA), ("Cool Pack v2/assets/minecraft/a.png", b"x")]);
    let products = unwrap_zip(&outer);
    assert_eq!(products.len(), 1);
    assert_eq!(products[0].0, "Cool Pack v2.zip");
    assert_eq!(category_of(&products[0].0, &products[0].1), Category::Normal);
}

#[test]
fn zip_inside_zip_inside_folder_unwraps_across_three_layers() {
    let inner = zip_bytes(&[
        ("pack.mcmeta", MCMETA),
        ("pack.png", b"\x89PNG fake"),
        ("assets/minecraft/textures/blocks/stone.png", b"png"),
    ]);
    let outer = zip_bytes(&[("middle/§bInner Pack.zip", &inner)]);
    let products = unwrap_zip(&outer);
    assert_eq!(products.len(), 1);
    assert_eq!(products[0].0, "§bInner Pack.zip");
    assert_eq!(category_of(&products[0].0, &products[0].1), Category::Normal);
}

#[test]
fn a_collection_zip_splits_into_independent_packs() {
    let outer = zip_bytes(&[
        ("PackA/pack.mcmeta", MCMETA),
        ("PackA/assets/minecraft/a.png", b"a"),
        ("PackB/pack.mcmeta", MCMETA),
        ("PackB/assets/minecraft/b.png", b"b"),
        ("PackC/pack.mcmeta", MCMETA),
        ("PackC/assets/minecraft/c.png", b"c"),
    ]);
    let products = unwrap_zip(&outer);
    let mut names: Vec<&str> = products.iter().map(|(n, _)| n.as_str()).collect();
    names.sort();
    assert_eq!(names, vec!["PackA.zip", "PackB.zip", "PackC.zip"]);
    for (name, bytes) in &products {
        assert_eq!(category_of(name, bytes), Category::Normal);
    }
}

#[test]
fn two_outer_zips_with_the_same_inner_name_both_survive() {
    let mut taken: Vec<String> = Vec::new();
    for _outer in ["SoupSkidz Map 7 Pack (1).zip", "§aSoupSkidz Map 7 Pack.zip"] {
        let bytes = zip_bytes(&[
            ("§aSoupSkidz Map 7 Pack/pack.mcmeta", MCMETA),
            ("§aSoupSkidz Map 7 Pack/assets/minecraft/a.png", b"x"),
        ]);
        let products = unwrap_zip(&bytes);
        assert_eq!(products.len(), 1);
        assert_eq!(category_of(&products[0].0, &products[0].1), Category::Normal);
        let mut k = 0;
        let name = loop {
            let candidate = text(&target_candidate(&chars(&products[0].0), k));
            if !taken.contains(&candidate) {
                break candidate;
            }
            k += 1;
        };
        taken.push(name);
    }
    assert_eq!(taken, vec!["§aSoupSkidz Map 7 Pack.zip", "§aSoupSkidz Map 7 Pack (1).zip"]);
}

#[test]
fn gbk_named_inner_layers_are_decoded_not_mojibake() {
    let (name1, _, _) = encoding_rs::GBK.encode("测试包/pack.mcmeta");
    let (name2, _, _) = encoding_rs::GBK.encode("测试包/assets/minecraft/a.png");
    let outer = raw_zip_bytes(&[(name1.into_owned(), MCMETA), (name2.into_owned(), b"x")]);
    let products = unwrap_zip(&outer);
    assert_eq!(products.len(), 1);
    assert_eq!(products[0].0, "测试包.zip");
    assert_eq!(category_of(&products[0].0, &products[0].1), Category::Normal);
}

#[test]
fn nested_pack_missing_mcmeta_gets_unwrapped_and_generated() {
    let outer = zip_bytes(&[("§8! §aInfera/assets/minecraft/font/a.png", b"x")]);
    let products = unwrap_zip(&outer);
    assert_eq!(products.len(), 1);
    assert_eq!(products[0].0, "§8! §aInfera.zip");
    assert!(entry_bytes(&products[0].1, "pack.mcmeta").is_some(), "mcmeta generated inside unwrapped layer");
    assert_eq!(category_of(&products[0].0, &products[0].1), Category::Normal);
}

#[test]
fn inner_names_with_windows_illegal_characters_are_sanitized() {
    let outer = zip_bytes(&[
        ("What?: A \"Pack\"/pack.mcmeta", MCMETA),
        ("What?: A \"Pack\"/assets/minecraft/a.png", b"x"),
    ]);
    let products = unwrap_zip(&outer);
    assert_eq!(products.len(), 1);
    let product = &products[0].0;
    assert!(!product.contains('?') && !product.contains(':') && !product.contains('"'));
    assert_eq!(category_of(product, &products[0].1), Category::Normal);
}

#[test]
fn root_fixes_apply_inside_unwrapped_layers() {
    let outer = zip_bytes(&[
        ("Inner/pack.mcmeta", MCMETA),
        ("Inner/assets/minecraft/a.png", b"x"),
        ("Inner/credits.txt", b"extra"),
        ("Inner/Thumbs.db", b"junk"),
        ("Inner/assets/minecraft/records/13.ogg", b"dead"),
    ]);
    let products = unwrap_zip(&outer);
    assert_eq!(products.len(), 1);
    assert_eq!(products[0].0, "Inner.zip");
    let names = names_in(&products[0].1);
    assert!(!names.iter().any(|n| n.contains("credits")));
    assert!(!names.iter().any(|n| n.contains("Thumbs")));
    assert!(!names.iter().any(|n| n.contains("records")));
    assert_eq!(category_of(&products[0].0, &products[0].1), Category::Normal);
}

#[test]
fn nested_product_mcmeta_is_patched() {
    let outer = zip_bytes(&[("Inner Pack/pack.mcmeta", SICK), ("Inner Pack/assets/minecraft/x.png", b"png")]);
    let products = unwrap_zip(&outer);
    assert_eq!(products[0].0, "Inner Pack.zip");
    let mcmeta = entry_bytes(&products[0].1, "pack.mcmeta").unwrap();
    assert!(serde_json::from_slice::<serde_json::Value>(&mcmeta).is_ok());
    assert!(String::from_utf8(mcmeta).unwrap().contains(r"\u00A7b! made"));
}

#[test]
fn hopeless_mcmeta_in_nested_product_is_regenerated() {
    let dead: &[u8] = br#"{"pack": "description": "\! x""#;
    let outer = zip_bytes(&[("Inner/pack.mcmeta", dead), ("Inner/assets/minecraft/x.png", b"png")]);
    let products = unwrap_zip(&outer);
    assert_eq!(products[0].0, "Inner.zip");
    let mcmeta = entry_bytes(&products[0].1, "pack.mcmeta").unwrap();
    let value: serde_json::Value = serde_json::from_slice(&mcmeta).unwrap();
    assert_eq!(value["pack"]["pack_format"], 1);
    assert_eq!(value["pack"]["description"], "Inner");
}

#[test]
fn nested_plus_lunar_is_unwrapped_and_patched_once() {
    let outer = zip_bytes(&[("Inner Pack/pack.mcmeta", SICK), ("Inner Pack/assets/minecraft/x.png", b"png")]);
    let products = unwrap_zip(&outer);
    assert_eq!(products.len(), 1);
    assert_eq!(products[0].0, "Inner Pack.zip");
    let text = String::from_utf8(entry_bytes(&products[0].1, "pack.mcmeta").unwrap()).unwrap();
    assert!(text.contains(r"\u00A7b! made"));
    assert!(!text.contains(r"\!"));
}
