//! The tree of entries a zip file that wraps other packs contributes to a
//! scan: its shell entry, the folders inside it and the packs they hold.
use vstd::prelude::*;
use crate::archive::{
    catalog_view, decoded_names, decoded_zip_names, depth_left, read_decoded, read_decoded_zip_file,
    zip_catalog, zip_catalog_of, CatalogView, ZipEntry, MAX_NESTING_DEPTH,
};
use crate::classify::{archive_child_view, classify_archive_child};
use crate::folder::{opened_index, opened_index_exec};
use crate::fs::{file_bytes, FsNode};
use crate::layout::{
    bloat_cause_texts, child_files, container_payload, core_modern_texture_paths,
    facts_from_zip_names, is_container_payload, join, layer_has_assets, modern_paths, root_facts,
    sorted_child_dirs, strip, texts, zip_child_dirs, zip_child_files, zip_layer_has_assets,
};
use crate::lunar::{lunar_bad, mcmeta_has_lunar_escape};
use crate::model::{
    entries_view, modern_reason_of, strs, Category, EntryView, IgnoreReason, NodeKind, PackEntry,
};
use crate::pack::{opt_text, saturated};
use crate::text::{chars_of, copy_bytes, copy_chars, ends_with, is_prefix, is_suffix, string_of};

verus! {

/// `rel/child`.
pub open spec fn child_rel(rel: Seq<char>, child: Seq<char>) -> Seq<char> {
    rel + "/"@ + child
}

pub fn child_path(rel: &String, child: &[char]) -> (r: String)
    ensures
        r@ == child_rel(rel@, child@),
{
    let a = join(chars_of(rel.as_str()).as_slice(), chars_of("/").as_slice());
    string_of(join(a.as_slice(), child).as_slice())
}

/// The groups of entries, one after the other.
pub open spec fn joined(gs: Seq<Seq<EntryView>>) -> Seq<EntryView>
    decreases gs.len(),
{
    if gs.len() == 0 {
        Seq::<EntryView>::empty()
    } else {
        joined(gs.drop_last()) + gs.last()
    }
}

/// The names below `prefix`, with the prefix taken off, in order.
pub open spec fn stripped(names: Seq<Seq<char>>, prefix: Seq<char>) -> Seq<Seq<char>>
    decreases names.len(),
{
    if names.len() == 0 {
        Seq::<Seq<char>>::empty()
    } else {
        let r = stripped(names.drop_last(), prefix);
        if is_prefix(prefix, names.last()) {
            r.push(names.last().skip(prefix.len() as int))
        } else {
            r
        }
    }
}

/// The names that do not end in `/`, in order.
pub open spec fn non_dirs(names: Seq<Seq<char>>) -> Seq<Seq<char>>
    decreases names.len(),
{
    if names.len() == 0 {
        Seq::<Seq<char>>::empty()
    } else {
        let r = non_dirs(names.drop_last());
        if is_suffix("/"@, names.last()) {
            r
        } else {
            r.push(names.last())
        }
    }
}

fn strip_names(names: &[Vec<char>], prefix: &[char]) -> (r: Vec<Vec<char>>)
    ensures
        texts(r@) == stripped(texts(names@), prefix@),
{
    let ghost t = texts(names@);
    let mut out: Vec<Vec<char>> = Vec::new();
    let mut i: usize = 0;
    while i < names.len()
        invariant
            0 <= i <= names@.len(),
            t == texts(names@),
            texts(out@) == stripped(t.take(i as int), prefix@),
        decreases names@.len() - i,
    {
        assert(t.take(i + 1).drop_last() =~= t.take(i as int));
        assert(t.take(i + 1).last() == names@[i as int]@);
        let ghost before = texts(out@);
        match strip(names[i].as_slice(), prefix) {
            Some(v) => {
                out.push(v);
                assert(texts(out@) =~= before.push(v@));
            },
            None => {},
        }
        i = i + 1;
    }
    assert(t.take(names@.len() as int) =~= t);
    out
}

fn non_dir_names(names: &[Vec<char>]) -> (r: Vec<Vec<char>>)
    ensures
        texts(r@) == non_dirs(texts(names@)),
{
    let ghost t = texts(names@);
    let slash = chars_of("/");
    let mut out: Vec<Vec<char>> = Vec::new();
    let mut i: usize = 0;
    while i < names.len()
        invariant
            0 <= i <= names@.len(),
            t == texts(names@),
            slash@ == "/"@,
            texts(out@) == non_dirs(t.take(i as int)),
        decreases names@.len() - i,
    {
        assert(t.take(i + 1).drop_last() =~= t.take(i as int));
        assert(t.take(i + 1).last() == names@[i as int]@);
        let ghost before = texts(out@);
        if !ends_with(names[i].as_slice(), slash.as_slice()) {
            let v = copy_chars(names[i].as_slice());
            out.push(v);
            assert(texts(out@) =~= before.push(v@));
        }
        i = i + 1;
    }
    assert(t.take(names@.len() as int) =~= t);
    out
}

/// The verdict on a folder inside a zip whose layer holds `assets/`.
pub open spec fn folder_child_verdict(names: Seq<Seq<char>>) -> (Category, Seq<Seq<char>>) {
    let f = root_facts(names);
    if f.has_assets && f.has_mcmeta {
        (Category::Bloated, seq!["folder_pack"@] + bloat_cause_texts(f))
    } else if f.has_assets {
        (Category::Nested, seq!["mcmeta_rescue"@])
    } else {
        (Category::Illegal, seq!["no_core_found"@])
    }
}

/// The entry of a folder inside a zip whose layer holds `assets/`.
pub open spec fn archive_folder_child_view(name: Seq<char>, bytes: Seq<u8>, cat: CatalogView, prefix: Seq<char>, relative_path: Seq<char>, parent_path: Option<Seq<char>>) -> EntryView {
    let sn = stripped(decoded_names(cat), prefix);
    let v = folder_child_verdict(sn);
    let modern = modern_paths(sn, non_dirs(sn), Seq::<char>::empty());
    let lunar = match read_decoded(bytes, cat, prefix + "pack.mcmeta"@) {
        Some(raw) => lunar_bad(raw),
        None => false,
    };
    (
        name,
        relative_path,
        parent_path,
        NodeKind::Pack,
        if modern.len() > 0 {
            Category::Ignored
        } else {
            v.0
        },
        if modern.len() > 0 {
            Seq::<Seq<char>>::empty()
        } else if v.0 != Category::Illegal && lunar {
            v.1.push("lunar_escape"@)
        } else {
            v.1
        },
        0u64,
        modern_reason_of(modern),
    )
}

fn strings_of(v: Vec<Vec<char>>) -> (r: Vec<String>)
    ensures
        strs(r@) == texts(v@),
{
    let mut out: Vec<String> = Vec::new();
    let mut i: usize = 0;
    while i < v.len()
        invariant
            0 <= i <= v@.len(),
            strs(out@) == texts(v@).take(i as int),
        decreases v@.len() - i,
    {
        let ghost before = strs(out@);
        out.push(string_of(v[i].as_slice()));
        assert(strs(out@) =~= before.push(v@[i as int]@));
        i = i + 1;
        assert(texts(v@).take(i as int) =~= texts(v@).take(i - 1).push(v@[i - 1]@));
    }
    assert(texts(v@).take(v@.len() as int) =~= texts(v@));
    out
}

/// Classifies a folder inside a zip whose layer holds `assets/`.
pub fn classify_archive_folder_child(name: String, bytes: &[u8], cat: &Vec<ZipEntry>, names: &Vec<Vec<char>>, prefix: &[char], relative_path: String, parent_path: Option<String>) -> (e: PackEntry)
    requires
        texts(names@) == decoded_names(catalog_view(cat@)),
    ensures
        e@ == archive_folder_child_view(name@, bytes@, catalog_view(cat@), prefix@, relative_path@, opt_text(parent_path)),
{
    let sn = strip_names(names.as_slice(), prefix);
    let sf = non_dir_names(sn.as_slice());
    let facts = facts_from_zip_names(sn.as_slice());
    let mut category;
    let mut causes: Vec<String> = Vec::new();
    if facts.has_assets && facts.has_mcmeta {
        category = Category::Bloated;
        causes.push("folder_pack".to_owned());
        let mut extra = facts.bloat_causes();
        let ghost a = strs(causes@);
        let ghost b = strs(extra@);
        causes.append(&mut extra);
        assert(strs(causes@) =~= a + b);
    } else if facts.has_assets {
        category = Category::Nested;
        causes.push("mcmeta_rescue".to_owned());
        assert(strs(causes@) =~= seq!["mcmeta_rescue"@]);
    } else {
        category = Category::Illegal;
        causes.push("no_core_found".to_owned());
        assert(strs(causes@) =~= seq!["no_core_found"@]);
    }
    let root: Vec<char> = Vec::new();
    assert(root@ =~= Seq::<char>::empty());
    let modern = strings_of(core_modern_texture_paths(sn.as_slice(), sf.as_slice(), root.as_slice()));
    let ignore = if modern.len() > 0 {
        Some(IgnoreReason { key: "modern_texture_layout".to_owned(), values: modern })
    } else {
        None
    };
    if ignore.is_some() {
        category = Category::Ignored;
        causes = Vec::new();
        assert(strs(causes@) =~= Seq::<Seq<char>>::empty());
    } else if category != Category::Illegal {
        let mc = join(prefix, chars_of("pack.mcmeta").as_slice());
        match read_decoded_zip_file(bytes, cat.as_slice(), mc.as_slice()) {
            Some(raw) => {
                if mcmeta_has_lunar_escape(raw.as_slice()) {
                    let ghost before = strs(causes@);
                    causes.push("lunar_escape".to_owned());
                    assert(strs(causes@) =~= before.push("lunar_escape"@));
                }
            },
            None => {},
        }
    }
    PackEntry {
        name,
        relative_path,
        parent_path,
        kind: NodeKind::Pack,
        category,
        causes,
        size_bytes: 0,
        ignore,
    }
}

/// Sum of the sizes of the non-folder names below `prefix` that `by_name`
/// opens.
pub open spec fn prefix_total(cat: CatalogView, names: Seq<Seq<char>>, prefix: Seq<char>) -> int
    decreases names.len(),
{
    if names.len() == 0 {
        0
    } else {
        let n = names.last();
        prefix_total(cat, names.drop_last(), prefix) + if is_prefix(prefix, n) && !is_suffix("/"@, n) {
            match opened_index(cat, n) {
                Some(i) => match cat[i].2 {
                    Some(sz) => sz as int,
                    None => 0,
                },
                None => 0,
            }
        } else {
            0
        }
    }
}

proof fn lemma_prefix_total_nonneg(cat: CatalogView, names: Seq<Seq<char>>, prefix: Seq<char>)
    ensures
        prefix_total(cat, names, prefix) >= 0,
    decreases names.len(),
{
    if names.len() > 0 {
        lemma_prefix_total_nonneg(cat, names.drop_last(), prefix);
    }
}

/// Total size of the files below `prefix`, stopping at the largest `u64`.
pub fn archive_prefix_size(cat: &Vec<ZipEntry>, names: &Vec<Vec<char>>, prefix: &[char]) -> (r: u64)
    ensures
        r == saturated(prefix_total(catalog_view(cat@), texts(names@), prefix@)),
{
    let ghost c = catalog_view(cat@);
    let ghost t = texts(names@);
    let slash = chars_of("/");
    let mut total: u64 = 0;
    let mut i: usize = 0;
    while i < names.len()
        invariant
            0 <= i <= names@.len(),
            t == texts(names@),
            c == catalog_view(cat@),
            slash@ == "/"@,
            total == saturated(prefix_total(c, t.take(i as int), prefix@)),
        decreases names@.len() - i,
    {
        assert(t.take(i + 1).drop_last() =~= t.take(i as int));
        assert(t.take(i + 1).last() == names@[i as int]@);
        proof {
            lemma_prefix_total_nonneg(c, t.take(i as int), prefix@);
        }
        let n = names[i].as_slice();
        if crate::text::starts_with(n, prefix) && !ends_with(n, slash.as_slice()) {
            match opened_index_exec(cat.as_slice(), n) {
                Some(k) => {
                    assert(c[k as int] == crate::archive::entry_view(cat@[k as int]));
                    match cat[k].size {
                        Some(sz) => {
                            total = total.saturating_add(sz);
                        },
                        None => {},
                    }
                },
                None => {},
            }
        }
        i = i + 1;
    }
    assert(t.take(names@.len() as int) =~= t);
    total
}

/// The file below `prefix` is a pack: it reads, and is shaped or named
/// like a container.
pub open spec fn file_is_pack(bytes: Seq<u8>, cat: CatalogView, prefix: Seq<char>, f: Seq<char>) -> bool {
    match read_decoded(bytes, cat, prefix + f) {
        Some(d) => container_payload(f, d),
        None => false,
    }
}

/// One group per pack file among `files`, each holding that pack's entry.
pub open spec fn file_groups(bytes: Seq<u8>, cat: CatalogView, prefix: Seq<char>, rel: Seq<char>, files: Seq<Seq<char>>) -> Seq<Seq<EntryView>>
    decreases files.len(),
{
    if files.len() == 0 {
        Seq::<Seq<EntryView>>::empty()
    } else {
        let r = file_groups(bytes, cat, prefix, rel, files.drop_last());
        let f = files.last();
        match read_decoded(bytes, cat, prefix + f) {
            Some(d) => if container_payload(f, d) {
                r.push(seq![archive_child_view(f, d, child_rel(rel, f), Some(rel))])
            } else {
                r
            },
            None => r,
        }
    }
}

/// The entries of the folder at `prefix` inside a zip, scanned at `depth`:
/// a pack when its layer holds `assets/`, else a folder entry followed by
/// the packs below it; nothing when no pack lies below.
pub open spec fn archive_dir_spec(name: Seq<char>, bytes: Seq<u8>, cat: CatalogView, prefix: Seq<char>, rel: Seq<char>, parent: Option<Seq<char>>, depth: int) -> Seq<EntryView>
    decreases depth_left(depth), 2int, 0int,
{
    if depth > 10 {
        Seq::<EntryView>::empty()
    } else {
        let names = decoded_names(cat);
        if layer_has_assets(names, prefix) {
            seq![archive_folder_child_view(name, bytes, cat, prefix, rel, parent)]
        } else {
            let groups = file_groups(bytes, cat, prefix, rel, child_files(names, prefix)) + dir_groups(
                bytes,
                cat,
                prefix,
                rel,
                depth,
                sorted_child_dirs(names, prefix),
            );
            if groups.len() == 0 {
                Seq::<EntryView>::empty()
            } else {
                let att = dir_attachment(bytes, cat, prefix, groups);
                let head: EntryView = (
                    name,
                    rel,
                    parent,
                    if groups.len() >= 2 {
                        NodeKind::ClassificationFolder
                    } else if att {
                        NodeKind::SupportingFolder
                    } else {
                        NodeKind::Shell
                    },
                    if groups.len() >= 2 {
                        Category::Folder
                    } else if att {
                        Category::Normal
                    } else {
                        Category::Nested
                    },
                    if groups.len() < 2 && !att {
                        seq!["folder_shell"@]
                    } else {
                        Seq::<Seq<char>>::empty()
                    },
                    saturated(prefix_total(cat, names, prefix)),
                    None,
                );
                seq![head] + joined(groups)
            }
        }
    }
}

/// One group per child folder below which a pack lies.
pub open spec fn dir_groups(bytes: Seq<u8>, cat: CatalogView, prefix: Seq<char>, rel: Seq<char>, depth: int, dirs: Seq<Seq<char>>) -> Seq<Seq<EntryView>>
    decreases depth_left(depth), 1int, dirs.len(),
{
    if dirs.len() == 0 || depth > 10 {
        Seq::<Seq<EntryView>>::empty()
    } else {
        let r = dir_groups(bytes, cat, prefix, rel, depth, dirs.drop_last());
        let d = dirs.last();
        let es = archive_dir_spec(d, bytes, cat, prefix + d + "/"@, child_rel(rel, d), Some(rel), depth + 1);
        if es.len() > 0 {
            r.push(es)
        } else {
            r
        }
    }
}

/// Something beside the packs of the folder at `prefix`: a file that is not
/// a pack, or a child folder that yielded no group.
pub open spec fn dir_attachment(bytes: Seq<u8>, cat: CatalogView, prefix: Seq<char>, groups: Seq<Seq<EntryView>>) -> bool {
    let names = decoded_names(cat);
    let files = child_files(names, prefix);
    let dirs = sorted_child_dirs(names, prefix);
    (exists|i: int| 0 <= i < files.len() && !file_is_pack(bytes, cat, prefix, #[trigger] files[i])) || (
    exists|j: int| 0 <= j < dirs.len() && !named_group(groups, #[trigger] dirs[j]))
}

/// Some group's first entry is named `d`.
pub open spec fn named_group(groups: Seq<Seq<EntryView>>, d: Seq<char>) -> bool {
    exists|g: int| 0 <= g < groups.len() && groups[g].len() > 0 && (#[trigger] groups[g])[0].0 == d
}

pub open spec fn groups_view(gs: Seq<Vec<PackEntry>>) -> Seq<Seq<EntryView>> {
    gs.map_values(|g: Vec<PackEntry>| entries_view(g@))
}

/// Whether something other than the packs sits in the folder at `prefix`.
pub fn archive_directory_has_attachment(bytes: &[u8], cat: &Vec<ZipEntry>, names: &Vec<Vec<char>>, prefix: &[char], child_groups: &Vec<Vec<PackEntry>>) -> (r: bool)
    requires
        texts(names@) == decoded_names(catalog_view(cat@)),
    ensures
        r == dir_attachment(bytes@, catalog_view(cat@), prefix@, groups_view(child_groups@)),
{
    let ghost c = catalog_view(cat@);
    let ghost gv = groups_view(child_groups@);
    let files = zip_child_files(names.as_slice(), prefix);
    let ghost ft = texts(files@);
    let mut i: usize = 0;
    while i < files.len()
        invariant
            0 <= i <= files@.len(),
            ft == texts(files@),
            ft == child_files(decoded_names(c), prefix@),
            c == catalog_view(cat@),
            forall|k: int| 0 <= k < i ==> file_is_pack(bytes@, c, prefix@, #[trigger] ft[k]),
        decreases files@.len() - i,
    {
        let full = join(prefix, files[i].as_slice());
        let is_pack = match read_decoded_zip_file(bytes, cat.as_slice(), full.as_slice()) {
            Some(d) => is_container_payload(files[i].as_slice(), d.as_slice()),
            None => false,
        };
        assert(ft[i as int] == files@[i as int]@);
        if !is_pack {
            assert(!file_is_pack(bytes@, c, prefix@, ft[i as int]));
            return true;
        }
        i = i + 1;
    }
    let dirs = zip_child_dirs(names.as_slice(), prefix);
    let ghost dt = texts(dirs@);
    let mut j: usize = 0;
    while j < dirs.len()
        invariant
            0 <= j <= dirs@.len(),
            dt == texts(dirs@),
            dt == sorted_child_dirs(decoded_names(c), prefix@),
            gv == groups_view(child_groups@),
            c == catalog_view(cat@),
            i == files@.len(),
            forall|k: int| 0 <= k < i ==> file_is_pack(bytes@, c, prefix@, #[trigger] ft[k]),
            ft == child_files(decoded_names(c), prefix@),
            forall|m: int| 0 <= m < j ==> named_group(gv, #[trigger] dt[m]),
        decreases dirs@.len() - j,
    {
        let mut found = false;
        let mut g: usize = 0;
        while g < child_groups.len()
            invariant
                0 <= g <= child_groups@.len(),
                0 <= j < dirs@.len(),
                dt == texts(dirs@),
                gv == groups_view(child_groups@),
                found ==> named_group(gv, dt[j as int]),
                !found ==> forall|h: int| 0 <= h < g ==> !(gv[h].len() > 0 && (#[trigger] gv[h])[0].0 == dt[j as int]),
            decreases child_groups@.len() - g,
        {
            assert(gv[g as int] == entries_view(child_groups@[g as int]@));
            if child_groups[g].len() > 0 {
                assert(gv[g as int][0] == child_groups@[g as int]@[0]@);
                if crate::text::seq_eq(chars_of(child_groups[g][0].name.as_str()).as_slice(), dirs[j].as_slice()) {
                    found = true;
                }
            }
            g = g + 1;
        }
        if !found {
            assert(!named_group(gv, dt[j as int]));
            return true;
        }
        j = j + 1;
    }
    false
}

/// Appends the groups one after the other.
fn join_groups(out: &mut Vec<PackEntry>, groups: Vec<Vec<PackEntry>>)
    ensures
        entries_view(final(out)@) == entries_view(old(out)@) + joined(groups_view(groups@)),
{
    let ghost gv = groups_view(groups@);
    let ghost start = entries_view(out@);
    let mut groups = groups;
    let mut k: usize = 0;
    let n = groups.len();
    assert(gv.take(0) =~= Seq::<Seq<EntryView>>::empty());
    assert(groups_view(groups@) =~= gv.skip(0));
    while groups.len() > 0
        invariant
            k + groups@.len() == n,
            n == gv.len(),
            groups_view(groups@) == gv.skip(k as int),
            entries_view(out@) == start + joined(gv.take(k as int)),
        decreases groups@.len(),
    {
        let ghost og = groups@;
        let mut g = groups.remove(0);
        assert(groups_view(og)[0] == entries_view(og[0]@));
        assert(gv.skip(k as int)[0] == gv[k as int]);
        assert(entries_view(g@) == gv[k as int]);
        assert(groups@ =~= og.drop_first());
        assert(groups_view(og.drop_first()) =~= groups_view(og).drop_first());
        let ghost before = entries_view(out@);
        out.append(&mut g);
        assert(entries_view(out@) =~= before + gv[k as int]);
        assert(groups_view(groups@) =~= gv.skip(k + 1));
        assert(gv.take(k + 1).drop_last() =~= gv.take(k as int));
        k = k + 1;
        assert(entries_view(out@) =~= start + joined(gv.take(k as int)));
    }
    assert(gv.take(n as int) =~= gv);
}

/// Scans the folder at `prefix` inside a zip at `depth`.
pub fn scan_archive_directory_node(name: String, bytes: &[u8], cat: &Vec<ZipEntry>, names: &Vec<Vec<char>>, prefix: &[char], relative_path: String, parent_path: Option<String>, depth: usize) -> (r: Vec<PackEntry>)
    requires
        texts(names@) == decoded_names(catalog_view(cat@)),
        depth <= 11,
    ensures
        entries_view(r@) == archive_dir_spec(name@, bytes@, catalog_view(cat@), prefix@, relative_path@, opt_text(parent_path), depth as int),
    decreases depth_left(depth as int),
{
    let ghost c = catalog_view(cat@);
    if depth > MAX_NESTING_DEPTH {
        let r: Vec<PackEntry> = Vec::new();
        assert(entries_view(r@) =~= Seq::<EntryView>::empty());
        return r;
    }
    if zip_layer_has_assets(names.as_slice(), prefix) {
        let e = classify_archive_folder_child(name, bytes, cat, names, prefix, relative_path, parent_path);
        let mut r: Vec<PackEntry> = Vec::new();
        r.push(e);
        assert(entries_view(r@) =~= seq![e@]);
        return r;
    }
    let mut groups: Vec<Vec<PackEntry>> = Vec::new();
    let files = zip_child_files(names.as_slice(), prefix);
    let ghost ft = texts(files@);
    let mut i: usize = 0;
    assert(ft.take(0) =~= Seq::<Seq<char>>::empty());
    assert(groups_view(groups@) =~= Seq::<Seq<EntryView>>::empty());
    while i < files.len()
        invariant
            0 <= i <= files@.len(),
            ft == texts(files@),
            ft == child_files(decoded_names(c), prefix@),
            c == catalog_view(cat@),
            groups_view(groups@) == file_groups(bytes@, c, prefix@, relative_path@, ft.take(i as int)),
        decreases files@.len() - i,
    {
        assert(ft.take(i + 1).drop_last() =~= ft.take(i as int));
        assert(ft.take(i + 1).last() == files@[i as int]@);
        let full = join(prefix, files[i].as_slice());
        match read_decoded_zip_file(bytes, cat.as_slice(), full.as_slice()) {
            Some(data) => {
                if is_container_payload(files[i].as_slice(), data.as_slice()) {
                    let e = classify_archive_child(
                        string_of(files[i].as_slice()),
                        data,
                        child_path(&relative_path, files[i].as_slice()),
                        Some(relative_path.clone()),
                    );
                    let mut g: Vec<PackEntry> = Vec::new();
                    g.push(e);
                    let ghost before = groups_view(groups@);
                    assert(entries_view(g@) =~= seq![e@]);
                    groups.push(g);
                    assert(groups_view(groups@) =~= before.push(seq![e@]));
                }
            },
            None => {},
        }
        i = i + 1;
    }
    assert(ft.take(files@.len() as int) =~= ft);
    let ghost fg = groups_view(groups@);
    let dirs = zip_child_dirs(names.as_slice(), prefix);
    let ghost dt = texts(dirs@);
    let mut j: usize = 0;
    assert(dt.take(0) =~= Seq::<Seq<char>>::empty());
    assert(fg + Seq::<Seq<EntryView>>::empty() =~= fg);
    while j < dirs.len()
        invariant
            0 <= j <= dirs@.len(),
            depth <= 10,
            dt == texts(dirs@),
            dt == sorted_child_dirs(decoded_names(c), prefix@),
            c == catalog_view(cat@),
            texts(names@) == decoded_names(c),
            groups_view(groups@) == fg + dir_groups(bytes@, c, prefix@, relative_path@, depth as int, dt.take(j as int)),
        decreases dirs@.len() - j,
    {
        assert(dt.take(j + 1).drop_last() =~= dt.take(j as int));
        assert(dt.take(j + 1).last() == dirs@[j as int]@);
        let child_prefix = join(join(prefix, dirs[j].as_slice()).as_slice(), chars_of("/").as_slice());
        let es = scan_archive_directory_node(
            string_of(dirs[j].as_slice()),
            bytes,
            cat,
            names,
            child_prefix.as_slice(),
            child_path(&relative_path, dirs[j].as_slice()),
            Some(relative_path.clone()),
            depth + 1,
        );
        if es.len() > 0 {
            let ghost before = groups_view(groups@);
            let ghost ev = entries_view(es@);
            groups.push(es);
            assert(groups_view(groups@) =~= before.push(ev));
        }
        j = j + 1;
    }
    assert(dt.take(dirs@.len() as int) =~= dt);
    if groups.len() == 0 {
        let r: Vec<PackEntry> = Vec::new();
        assert(entries_view(r@) =~= Seq::<EntryView>::empty());
        return r;
    }
    let att = archive_directory_has_attachment(bytes, cat, names, prefix, &groups);
    let (kind, category, causes) = if groups.len() >= 2 {
        (NodeKind::ClassificationFolder, Category::Folder, Vec::new())
    } else if att {
        (NodeKind::SupportingFolder, Category::Normal, Vec::new())
    } else {
        let mut v: Vec<String> = Vec::new();
        v.push("folder_shell".to_owned());
        (NodeKind::Shell, Category::Nested, v)
    };
    assert(strs(causes@) =~= (if groups@.len() < 2 && !att {
        seq!["folder_shell"@]
    } else {
        Seq::<Seq<char>>::empty()
    }));
    let size = archive_prefix_size(cat, names, prefix);
    let head = PackEntry {
        name,
        relative_path,
        parent_path,
        kind,
        category,
        causes,
        size_bytes: size,
        ignore: None,
    };
    let mut out: Vec<PackEntry> = Vec::new();
    out.push(head);
    assert(entries_view(out@) =~= seq![head@]);
    join_groups(&mut out, groups);
    out
}

/// The root files of a wrapping zip, in order: the entries of the packs
/// among them and whether any other file is there; `None` when one of them
/// cannot be read.
pub open spec fn shell_files(bytes: Seq<u8>, cat: CatalogView, rel: Seq<char>, files: Seq<Seq<char>>) -> Option<(Seq<EntryView>, bool)>
    decreases files.len(),
{
    if files.len() == 0 {
        Some((Seq::<EntryView>::empty(), false))
    } else {
        match shell_files(bytes, cat, rel, files.drop_last()) {
            None => None,
            Some(acc) => {
                let f = files.last();
                match read_decoded(bytes, cat, f) {
                    None => None,
                    Some(d) => if container_payload(f, d) {
                        Some((acc.0.push(archive_child_view(f, d, child_rel(rel, f), Some(rel))), acc.1))
                    } else {
                        Some((acc.0, true))
                    },
                }
            },
        }
    }
}

/// The root folders of a wrapping zip, in order: the entries below them and
/// whether one of them holds no pack.
pub open spec fn shell_dirs(bytes: Seq<u8>, cat: CatalogView, rel: Seq<char>, dirs: Seq<Seq<char>>) -> (Seq<EntryView>, bool)
    decreases dirs.len(),
{
    if dirs.len() == 0 {
        (Seq::<EntryView>::empty(), false)
    } else {
        let r = shell_dirs(bytes, cat, rel, dirs.drop_last());
        let d = dirs.last();
        let es = archive_dir_spec(d, bytes, cat, d + "/"@, child_rel(rel, d), Some(rel), 1);
        if es.len() == 0 {
            (r.0, true)
        } else {
            (r.0 + es, r.1)
        }
    }
}

/// The entries of a zip file that wraps packs instead of being one: its
/// shell entry, then the packs and folders inside. `None` when the file is
/// not such a zip (not readable, a core at its root, a root file that cannot
/// be read, or no pack inside).
pub open spec fn archive_shell_spec(name: Seq<char>, k: FsNode, rel: Seq<char>, parent: Option<Seq<char>>) -> Option<Seq<EntryView>> {
    match file_bytes(k) {
        None => None,
        Some(b) => match zip_catalog_of(b) {
            None => None,
            Some(cat) => {
                let names = decoded_names(cat);
                if layer_has_assets(names, Seq::<char>::empty()) {
                    None
                } else {
                    match shell_files(b, cat, rel, child_files(names, Seq::<char>::empty())) {
                        None => None,
                        Some(fa) => {
                            let da = shell_dirs(b, cat, rel, sorted_child_dirs(names, Seq::<char>::empty()));
                            let children = fa.0 + da.0;
                            if children.len() == 0 {
                                None
                            } else {
                                let causes = if fa.1 || da.1 {
                                    seq!["archive_shell"@, "archive_root_attachments"@]
                                } else {
                                    seq!["archive_shell"@]
                                };
                                Some(
                                    seq![(name, rel, parent, NodeKind::Shell, Category::Nested, causes, saturated(crate::pack::fs_total(k)), None)]
                                        + children,
                                )
                            }
                        },
                    }
                }
            },
        },
    }
}

/// The entries of a zip file that wraps packs, or `None` when it is not one.
pub fn archive_shell_entries(name: &String, k: &FsNode, relative_path: &String, parent_path: Option<String>) -> (r: Option<Vec<PackEntry>>)
    ensures
        match r {
            Some(v) => archive_shell_spec(name@, *k, relative_path@, opt_text(parent_path)) == Some(entries_view(v@)),
            None => archive_shell_spec(name@, *k, relative_path@, opt_text(parent_path)) is None,
        },
{
    let (bytes, size) = match k {
        FsNode::File { data, size, .. } => match data {
            Some(b) => (b, *size),
            None => {
                return None;
            },
        },
        FsNode::Dir { .. } => {
            return None;
        },
    };
    let cat = match zip_catalog(bytes.as_slice()) {
        Some(c) => c,
        None => {
            return None;
        },
    };
    let ghost c = catalog_view(cat@);
    let (names, _) = decoded_zip_names(cat.as_slice());
    let root: Vec<char> = Vec::new();
    assert(root@ =~= Seq::<char>::empty());
    if zip_layer_has_assets(names.as_slice(), root.as_slice()) {
        return None;
    }
    let mut children: Vec<PackEntry> = Vec::new();
    let mut has_root_attachment = false;
    let files = zip_child_files(names.as_slice(), root.as_slice());
    let ghost ft = texts(files@);
    let mut i: usize = 0;
    assert(ft.take(0) =~= Seq::<Seq<char>>::empty());
    assert(entries_view(children@) =~= Seq::<EntryView>::empty());
    while i < files.len()
        invariant
            0 <= i <= files@.len(),
            ft == texts(files@),
            ft == child_files(decoded_names(c), Seq::<char>::empty()),
            c == catalog_view(cat@),
            file_bytes(*k) == Some(bytes@),
            zip_catalog_of(bytes@) == Some(c),
            !layer_has_assets(decoded_names(c), Seq::<char>::empty()),
            shell_files(bytes@, c, relative_path@, ft.take(i as int)) == Some((entries_view(children@), has_root_attachment)),
        decreases files@.len() - i,
    {
        assert(ft.take(i + 1).drop_last() =~= ft.take(i as int));
        assert(ft.take(i + 1).last() == files@[i as int]@);
        let data = match read_decoded_zip_file(bytes.as_slice(), cat.as_slice(), files[i].as_slice()) {
            Some(d) => d,
            None => {
                proof {
                    lemma_shell_files_stays_none(bytes@, c, relative_path@, ft, i as int + 1);
                }
                assert(ft.take(files@.len() as int) =~= ft);
                return None;
            },
        };
        if !is_container_payload(files[i].as_slice(), data.as_slice()) {
            has_root_attachment = true;
        } else {
            let e = classify_archive_child(
                string_of(files[i].as_slice()),
                data,
                child_path(relative_path, files[i].as_slice()),
                Some(relative_path.clone()),
            );
            let ghost before = entries_view(children@);
            children.push(e);
            assert(entries_view(children@) =~= before.push(e@));
        }
        i = i + 1;
    }
    assert(ft.take(files@.len() as int) =~= ft);
    let ghost fa = (entries_view(children@), has_root_attachment);
    let dirs = zip_child_dirs(names.as_slice(), root.as_slice());
    let ghost dt = texts(dirs@);
    let mut j: usize = 0;
    let mut dir_att = false;
    let mut dir_entries: Vec<PackEntry> = Vec::new();
    assert(dt.take(0) =~= Seq::<Seq<char>>::empty());
    assert(entries_view(dir_entries@) =~= Seq::<EntryView>::empty());
    while j < dirs.len()
        invariant
            0 <= j <= dirs@.len(),
            dt == texts(dirs@),
            dt == sorted_child_dirs(decoded_names(c), Seq::<char>::empty()),
            c == catalog_view(cat@),
            texts(names@) == decoded_names(c),
            shell_dirs(bytes@, c, relative_path@, dt.take(j as int)) == (entries_view(dir_entries@), dir_att),
        decreases dirs@.len() - j,
    {
        assert(dt.take(j + 1).drop_last() =~= dt.take(j as int));
        assert(dt.take(j + 1).last() == dirs@[j as int]@);
        let child_prefix = join(dirs[j].as_slice(), chars_of("/").as_slice());
        let mut es = scan_archive_directory_node(
            string_of(dirs[j].as_slice()),
            bytes.as_slice(),
            &cat,
            &names,
            child_prefix.as_slice(),
            child_path(relative_path, dirs[j].as_slice()),
            Some(relative_path.clone()),
            1,
        );
        if es.len() == 0 {
            dir_att = true;
        } else {
            let ghost before = entries_view(dir_entries@);
            let ghost ev = entries_view(es@);
            dir_entries.append(&mut es);
            assert(entries_view(dir_entries@) =~= before + ev);
        }
        j = j + 1;
    }
    assert(dt.take(dirs@.len() as int) =~= dt);
    let ghost da = (entries_view(dir_entries@), dir_att);
    let ghost cv = entries_view(children@);
    children.append(&mut dir_entries);
    assert(entries_view(children@) =~= cv + da.0);
    if children.len() == 0 {
        return None;
    }
    let mut causes: Vec<String> = Vec::new();
    causes.push("archive_shell".to_owned());
    if has_root_attachment || dir_att {
        causes.push("archive_root_attachments".to_owned());
    }
    assert(strs(causes@) =~= (if fa.1 || da.1 {
        seq!["archive_shell"@, "archive_root_attachments"@]
    } else {
        seq!["archive_shell"@]
    }));
    let head = PackEntry {
        name: name.clone(),
        relative_path: relative_path.clone(),
        parent_path,
        kind: NodeKind::Shell,
        category: Category::Nested,
        causes,
        size_bytes: size,
        ignore: None,
    };
    let mut out: Vec<PackEntry> = Vec::new();
    out.push(head);
    let ghost hv = head@;
    let ghost chv = entries_view(children@);
    out.append(&mut children);
    assert(entries_view(out@) =~= seq![hv] + chv);
    Some(out)
}

proof fn lemma_shell_files_stays_none(bytes: Seq<u8>, cat: CatalogView, rel: Seq<char>, files: Seq<Seq<char>>, k: int)
    requires
        0 < k <= files.len(),
        shell_files(bytes, cat, rel, files.take(k)) is None,
    ensures
        shell_files(bytes, cat, rel, files) is None,
    decreases files.len() - k,
{
    if k < files.len() {
        assert(files.take(k + 1).drop_last() =~= files.take(k));
        lemma_shell_files_stays_none(bytes, cat, rel, files, k + 1);
    } else {
        assert(files.take(k) =~= files);
    }
}

} // verus!
