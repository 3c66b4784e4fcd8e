//! Scanning the packs folder: which top-level items are looked at, the
//! entry tree each one yields, and the report with its counts.
use vstd::prelude::*;
use crate::fs::{dir_at, lemma_kid_decreases, one_part, is_dir_at, FsNode};
use crate::model::{
    entries_view, strs, Category, Counts, EntryView, NodeKind, PackEntry, ScanOptions, ScanReport,
    ScanStatus,
};
use crate::names::{is_junk_name, junk_name};
use crate::pack::{
    classify_pack_entry, dir_size, direct_pack_children, fs_total, has_attachment,
    has_non_junk_attachment, opt_text, pack_children, pack_entry_spec, saturated,
};
use crate::text::{chars_of, lower, lower_vec, seq_eq};
use crate::zipscan::{archive_shell_entries, archive_shell_spec, child_path, child_rel};

verus! {

/// The entries of a file found while scanning: the tree of a wrapping zip,
/// else the file as one pack.
pub open spec fn scan_file_spec(name: Seq<char>, k: FsNode, rel: Seq<char>, parent: Option<Seq<char>>) -> Seq<EntryView> {
    match archive_shell_spec(name, k, rel, parent) {
        Some(es) => es,
        None => seq![pack_entry_spec(name, k, rel, parent)],
    }
}

/// The entries of a folder found while scanning: a pack when it has an
/// `assets` folder; a shell or supporting folder around its one pack; a
/// pack when it holds none; else a classification folder over its packs.
pub open spec fn scan_dir_spec(name: Seq<char>, n: FsNode, rel: Seq<char>, parent: Option<Seq<char>>) -> Seq<EntryView>
    decreases n, 2int, 0int,
{
    if dir_at(n, seq!["assets"@]) {
        seq![pack_entry_spec(name, n, rel, parent)]
    } else {
        let ch = pack_children(n);
        if ch.len() == 1 {
            let att = has_attachment(n);
            let head: EntryView = (
                name,
                rel,
                parent,
                if att {
                    NodeKind::SupportingFolder
                } else {
                    NodeKind::Shell
                },
                if att {
                    Category::Normal
                } else {
                    Category::Nested
                },
                if att {
                    Seq::<Seq<char>>::empty()
                } else {
                    seq!["folder_shell"@]
                },
                saturated(fs_total(n)),
                None,
            );
            seq![head] + scan_kids_spec(n, rel, ch, 1)
        } else if ch.len() < 2 {
            seq![pack_entry_spec(name, n, rel, parent)]
        } else {
            let head: EntryView = (
                name,
                rel,
                parent,
                NodeKind::ClassificationFolder,
                Category::Folder,
                Seq::<Seq<char>>::empty(),
                saturated(fs_total(n)),
                None,
            );
            seq![head] + scan_kids_spec(n, rel, ch, ch.len() as int)
        }
    }
}

/// The entries of the children at the first `j` of the indices `ch`.
pub open spec fn scan_kids_spec(n: FsNode, rel: Seq<char>, ch: Seq<int>, j: int) -> Seq<EntryView>
    decreases n, 1int, j,
{
    if j <= 0 || j > ch.len() {
        Seq::<EntryView>::empty()
    } else {
        let idx = ch[j - 1];
        let prev = scan_kids_spec(n, rel, ch, j - 1);
        if 0 <= idx < n.kids().len() {
            let kid = n.kids()[idx];
            prev + if kid is Dir {
                proof {
                    lemma_kid_decreases(n, idx);
                }
                scan_dir_spec(kid.name_of(), kid, child_rel(rel, kid.name_of()), Some(rel))
            } else {
                scan_file_spec(kid.name_of(), kid, child_rel(rel, kid.name_of()), Some(rel))
            }
        } else {
            prev
        }
    }
}

fn clone_opt(o: &Option<String>) -> (r: Option<String>)
    ensures
        opt_text(r) == opt_text(*o),
{
    match o {
        Some(s) => Some(s.clone()),
        None => None,
    }
}

pub fn scan_file_node(name: String, k: &FsNode, relative_path: String, parent_path: Option<String>) -> (r: Vec<PackEntry>)
    ensures
        entries_view(r@) == scan_file_spec(name@, *k, relative_path@, opt_text(parent_path)),
{
    match archive_shell_entries(&name, k, &relative_path, clone_opt(&parent_path)) {
        Some(v) => v,
        None => {
            let e = classify_pack_entry(name, k, relative_path, parent_path);
            let mut v: Vec<PackEntry> = Vec::new();
            v.push(e);
            assert(entries_view(v@) =~= seq![e@]);
            v
        },
    }
}

fn child_entries(kid: &FsNode, relative_path: &String) -> (r: Vec<PackEntry>)
    ensures
        entries_view(r@) == (if *kid is Dir {
            scan_dir_spec(kid.name_of(), *kid, child_rel(relative_path@, kid.name_of()), Some(relative_path@))
        } else {
            scan_file_spec(kid.name_of(), *kid, child_rel(relative_path@, kid.name_of()), Some(relative_path@))
        }),
    decreases *kid, 1int,
{
    let name = kid.name().clone();
    let rel = child_path(relative_path, chars_of(name.as_str()).as_slice());
    match kid {
        FsNode::Dir { .. } => scan_fs_directory_node(name, kid, rel, Some(relative_path.clone())),
        FsNode::File { .. } => scan_file_node(name, kid, rel, Some(relative_path.clone())),
    }
}

/// Scans a folder found in the packs folder (or below a folder that wraps
/// packs).
pub fn scan_fs_directory_node(name: String, n: &FsNode, relative_path: String, parent_path: Option<String>) -> (r: Vec<PackEntry>)
    requires
        *n is Dir,
    ensures
        entries_view(r@) == scan_dir_spec(name@, *n, relative_path@, opt_text(parent_path)),
    decreases *n, 0int,
{
    if is_dir_at(n, one_part("assets").as_slice()) {
        let e = classify_pack_entry(name, n, relative_path, parent_path);
        let mut v: Vec<PackEntry> = Vec::new();
        v.push(e);
        assert(entries_view(v@) =~= seq![e@]);
        return v;
    }
    let children = match n {
        FsNode::Dir { children, .. } => children,
        FsNode::File { .. } => {
            return Vec::new();
        },
    };
    let ch = direct_pack_children(n);
    let ghost chs = ch@.map_values(|i: usize| i as int);
    if ch.len() == 1 {
        let has_attachment = has_non_junk_attachment(n);
        let mut causes: Vec<String> = Vec::new();
        if !has_attachment {
            causes.push("folder_shell".to_owned());
        }
        assert(strs(causes@) =~= (if has_attachment {
            Seq::<Seq<char>>::empty()
        } else {
            seq!["folder_shell"@]
        }));
        let head = PackEntry {
            name,
            relative_path: relative_path.clone(),
            parent_path,
            kind: if has_attachment {
                NodeKind::SupportingFolder
            } else {
                NodeKind::Shell
            },
            category: if has_attachment {
                Category::Normal
            } else {
                Category::Nested
            },
            causes,
            size_bytes: dir_size(n),
            ignore: None,
        };
        let mut entries: Vec<PackEntry> = Vec::new();
        entries.push(head);
        let idx = ch[0];
        proof {
            lemma_kid_decreases(*n, idx as int);
        }
        let mut rest = child_entries(&children[idx], &relative_path);
        let ghost hv = head@;
        let ghost rv = entries_view(rest@);
        entries.append(&mut rest);
        assert(chs[0] == idx as int);
        assert(scan_kids_spec(*n, relative_path@, chs, 0) =~= Seq::<EntryView>::empty());
        assert(entries_view(entries@) =~= seq![hv] + rv);
        return entries;
    }
    if ch.len() < 2 {
        let e = classify_pack_entry(name, n, relative_path, parent_path);
        let mut v: Vec<PackEntry> = Vec::new();
        v.push(e);
        assert(entries_view(v@) =~= seq![e@]);
        return v;
    }
    let head = PackEntry {
        name,
        relative_path: relative_path.clone(),
        parent_path,
        kind: NodeKind::ClassificationFolder,
        category: Category::Folder,
        causes: Vec::new(),
        size_bytes: dir_size(n),
        ignore: None,
    };
    assert(strs(head.causes@) =~= Seq::<Seq<char>>::empty());
    let mut entries: Vec<PackEntry> = Vec::new();
    entries.push(head);
    let ghost hv = head@;
    assert(entries_view(entries@) =~= seq![hv] + scan_kids_spec(*n, relative_path@, chs, 0));
    let mut j: usize = 0;
    while j < ch.len()
        invariant
            0 <= j <= ch@.len(),
            chs == ch@.map_values(|i: usize| i as int),
            forall|m: int| 0 <= m < ch@.len() ==> ch@[m] < n.kids().len(),
            n.kids() == children@,
            entries_view(entries@) == seq![hv] + scan_kids_spec(*n, relative_path@, chs, j as int),
        decreases ch@.len() - j,
    {
        let idx = ch[j];
        assert(chs[j as int] == idx as int);
        proof {
            lemma_kid_decreases(*n, idx as int);
        }
        let mut rest = child_entries(&children[idx], &relative_path);
        let ghost before = entries_view(entries@);
        let ghost rv = entries_view(rest@);
        entries.append(&mut rest);
        assert(entries_view(entries@) =~= before + rv);
        j = j + 1;
    }
    entries
}

/// A top-level item the scan looks at: not junk, not the `plot_temp`
/// folder (in any case), not excluded by name.
pub open spec fn scanned_item(k: FsNode, exclude: Seq<Seq<char>>) -> bool {
    !junk_name(k.name_of()) && !(lower(k.name_of()) == "plot_temp"@ && k is Dir) && !exclude.contains(
        k.name_of(),
    )
}

/// The entries one top-level item yields.
pub open spec fn item_entries(k: FsNode) -> Seq<EntryView> {
    if k is Dir {
        scan_dir_spec(k.name_of(), k, k.name_of(), None)
    } else {
        scan_file_spec(k.name_of(), k, k.name_of(), None)
    }
}

/// The entries of the scanned top-level items, item after item.
pub open spec fn scan_entries(items: Seq<FsNode>, exclude: Seq<Seq<char>>) -> Seq<EntryView>
    decreases items.len(),
{
    if items.len() == 0 {
        Seq::<EntryView>::empty()
    } else {
        scan_entries(items.drop_last(), exclude) + if scanned_item(items.last(), exclude) {
            item_entries(items.last())
        } else {
            Seq::<EntryView>::empty()
        }
    }
}

/// How many entries satisfy `f`.
pub open spec fn count(es: Seq<EntryView>, f: spec_fn(EntryView) -> bool) -> nat
    decreases es.len(),
{
    if es.len() == 0 {
        0
    } else {
        count(es.drop_last(), f) + if f(es.last()) {
            1nat
        } else {
            0nat
        }
    }
}

pub open spec fn is_pack(e: EntryView) -> bool {
    e.3 == NodeKind::Pack
}

pub open spec fn pack_of(e: EntryView, c: Category) -> bool {
    e.3 == NodeKind::Pack && e.4 == c
}

pub open spec fn counts_nested(e: EntryView) -> bool {
    e.3 == NodeKind::Shell || pack_of(e, Category::Nested)
}

pub open spec fn counts_folder(e: EntryView) -> bool {
    e.3 == NodeKind::ClassificationFolder
}

/// Tagged Lunar, pure or stacked; supporting folders are not counted.
pub open spec fn counts_lunar(e: EntryView) -> bool {
    e.3 != NodeKind::SupportingFolder && (e.4 == Category::LunarIllegal || e.5.contains("lunar_escape"@))
}

/// The counts a report shows for its entries.
pub open spec fn counts_of(c: Counts, es: Seq<EntryView>) -> bool {
    &&& c.normal == count(es, |e: EntryView| pack_of(e, Category::Normal))
    &&& c.nested == count(es, |e: EntryView| counts_nested(e))
    &&& c.folder == count(es, |e: EntryView| counts_folder(e))
    &&& c.bloated == count(es, |e: EntryView| pack_of(e, Category::Bloated))
    &&& c.illegal == count(es, |e: EntryView| pack_of(e, Category::Illegal))
    &&& c.lunar == count(es, |e: EntryView| counts_lunar(e))
    &&& c.ignored == count(es, |e: EntryView| pack_of(e, Category::Ignored))
}

proof fn lemma_count_le(es: Seq<EntryView>, f: spec_fn(EntryView) -> bool)
    ensures
        count(es, f) <= es.len(),
    decreases es.len(),
{
    if es.len() > 0 {
        lemma_count_le(es.drop_last(), f);
    }
}

fn has_lunar_cause(causes: &Vec<String>) -> (r: bool)
    ensures
        r == strs(causes@).contains("lunar_escape"@),
{
    let lit = chars_of("lunar_escape");
    let mut i: usize = 0;
    while i < causes.len()
        invariant
            0 <= i <= causes@.len(),
            lit@ == "lunar_escape"@,
            forall|j: int| 0 <= j < i ==> strs(causes@)[j] != "lunar_escape"@,
        decreases causes@.len() - i,
    {
        if seq_eq(chars_of(causes[i].as_str()).as_slice(), lit.as_slice()) {
            assert(strs(causes@)[i as int] == "lunar_escape"@);
            return true;
        }
        i = i + 1;
    }
    false
}

/// Counts the entries of a scan.
pub fn tally(entries: &Vec<PackEntry>) -> (c: Counts)
    ensures
        counts_of(c, entries_view(entries@)),
{
    let ghost ev = entries_view(entries@);
    let mut c = Counts::zero();
    let mut i: usize = 0;
    while i < entries.len()
        invariant
            0 <= i <= entries@.len(),
            ev == entries_view(entries@),
            counts_of(c, ev.take(i as int)),
        decreases entries@.len() - i,
    {
        let ghost t = ev.take(i + 1);
        assert(t.drop_last() =~= ev.take(i as int));
        assert(t.last() == entries@[i as int]@);
        proof {
            lemma_count_le(ev.take(i as int), |e: EntryView| pack_of(e, Category::Normal));
            lemma_count_le(ev.take(i as int), |e: EntryView| counts_nested(e));
            lemma_count_le(ev.take(i as int), |e: EntryView| counts_folder(e));
            lemma_count_le(ev.take(i as int), |e: EntryView| pack_of(e, Category::Bloated));
            lemma_count_le(ev.take(i as int), |e: EntryView| pack_of(e, Category::Illegal));
            lemma_count_le(ev.take(i as int), |e: EntryView| counts_lunar(e));
            lemma_count_le(ev.take(i as int), |e: EntryView| pack_of(e, Category::Ignored));
        }
        let e = &entries[i];
        match e.kind {
            NodeKind::ClassificationFolder => {
                c.folder = c.folder + 1;
            },
            NodeKind::SupportingFolder => {},
            NodeKind::Shell => {
                c.nested = c.nested + 1;
            },
            NodeKind::Pack => match e.category {
                Category::Normal => {
                    c.normal = c.normal + 1;
                },
                Category::Nested => {
                    c.nested = c.nested + 1;
                },
                Category::Folder => {},
                Category::Bloated => {
                    c.bloated = c.bloated + 1;
                },
                Category::Illegal => {
                    c.illegal = c.illegal + 1;
                },
                Category::LunarIllegal => {},
                Category::Ignored => {
                    c.ignored = c.ignored + 1;
                },
            },
        }
        if e.kind != NodeKind::SupportingFolder && (e.category == Category::LunarIllegal || has_lunar_cause(&e.causes)) {
            c.lunar = c.lunar + 1;
        }
        i = i + 1;
    }
    assert(ev.take(entries@.len() as int) =~= ev);
    c
}

/// The report over the entries of a scan of the folder at `path`.
pub fn finish_report(path: String, entries: Vec<PackEntry>) -> (r: ScanReport)
    ensures
        r.path@ == path@,
        entries_view(r.entries@) == entries_view(entries@),
        r.total_packs == count(entries_view(entries@), |e: EntryView| is_pack(e)),
        r.status == (if r.total_packs == 0 {
            ScanStatus::NoPacks
        } else {
            ScanStatus::Scanned
        }),
        counts_of(r.counts, entries_view(entries@)),
{
    let counts = tally(&entries);
    let ghost ev = entries_view(entries@);
    let mut total: usize = 0;
    let mut i: usize = 0;
    while i < entries.len()
        invariant
            0 <= i <= entries@.len(),
            ev == entries_view(entries@),
            total == count(ev.take(i as int), |e: EntryView| is_pack(e)),
        decreases entries@.len() - i,
    {
        assert(ev.take(i + 1).drop_last() =~= ev.take(i as int));
        assert(ev.take(i + 1).last() == entries@[i as int]@);
        proof {
            lemma_count_le(ev.take(i as int), |e: EntryView| is_pack(e));
        }
        if entries[i].kind == NodeKind::Pack {
            total = total + 1;
        }
        i = i + 1;
    }
    assert(ev.take(entries@.len() as int) =~= ev);
    let status = if total == 0 {
        ScanStatus::NoPacks
    } else {
        ScanStatus::Scanned
    };
    ScanReport { path, status, total_packs: total, entries, counts }
}

/// The report for a path that is not a folder.
pub fn missing_dir_report(path: String) -> (r: ScanReport)
    ensures
        r.path@ == path@,
        r.status == ScanStatus::MissingDir,
        r.total_packs == 0,
        r.entries@.len() == 0,
        counts_of(r.counts, Seq::<EntryView>::empty()),
{
    ScanReport {
        path,
        status: ScanStatus::MissingDir,
        total_packs: 0,
        entries: Vec::new(),
        counts: Counts::zero(),
    }
}

fn excluded(exclude: &Vec<String>, name: &String) -> (r: bool)
    ensures
        r == strs(exclude@).contains(name@),
{
    let nm = chars_of(name.as_str());
    let mut i: usize = 0;
    while i < exclude.len()
        invariant
            0 <= i <= exclude@.len(),
            nm@ == name@,
            forall|j: int| 0 <= j < i ==> strs(exclude@)[j] != name@,
        decreases exclude@.len() - i,
    {
        if seq_eq(chars_of(exclude[i].as_str()).as_slice(), nm.as_slice()) {
            assert(strs(exclude@)[i as int] == name@);
            return true;
        }
        i = i + 1;
    }
    false
}

/// Whether the scan looks at this top-level item.
pub fn is_scanned_item(k: &FsNode, opts: &ScanOptions) -> (r: bool)
    ensures
        r == scanned_item(*k, strs(opts.exclude@)),
{
    let name = k.name();
    if is_junk_name(name.as_str()) {
        return false;
    }
    let is_dir = match k {
        FsNode::Dir { .. } => true,
        FsNode::File { .. } => false,
    };
    let l = lower_vec(chars_of(name.as_str()).as_slice());
    if is_dir && seq_eq(l.as_slice(), chars_of("plot_temp").as_slice()) {
        return false;
    }
    !excluded(&opts.exclude, name)
}

/// The entries one top-level item yields.
pub fn scan_item(k: &FsNode) -> (r: Vec<PackEntry>)
    ensures
        entries_view(r@) == item_entries(*k),
{
    let name = k.name().clone();
    match k {
        FsNode::Dir { .. } => scan_fs_directory_node(name.clone(), k, name, None),
        FsNode::File { .. } => scan_file_node(name.clone(), k, name, None),
    }
}

/// Scans the packs folder at `path`, given its top-level items in listing
/// order (`None`: the path is not a folder).
pub fn scan_with(path: String, items: Option<Vec<FsNode>>, opts: &ScanOptions) -> (r: ScanReport)
    ensures
        r.path@ == path@,
        match items {
            None => r.status == ScanStatus::MissingDir && r.total_packs == 0 && r.entries@.len() == 0,
            Some(v) => {
                let es = scan_entries(v@, strs(opts.exclude@));
                &&& entries_view(r.entries@) == es
                &&& r.total_packs == count(es, |e: EntryView| is_pack(e))
                &&& r.status == (if r.total_packs == 0 {
                    ScanStatus::NoPacks
                } else {
                    ScanStatus::Scanned
                })
            },
        },
        counts_of(r.counts, entries_view(r.entries@)),
{
    let items = match items {
        None => {
            let r = missing_dir_report(path);
            assert(entries_view(r.entries@) =~= Seq::<EntryView>::empty());
            return r;
        },
        Some(v) => v,
    };
    let ghost ex = strs(opts.exclude@);
    let mut entries: Vec<PackEntry> = Vec::new();
    let mut i: usize = 0;
    assert(items@.take(0) =~= Seq::<FsNode>::empty());
    assert(entries_view(entries@) =~= Seq::<EntryView>::empty());
    while i < items.len()
        invariant
            0 <= i <= items@.len(),
            ex == strs(opts.exclude@),
            entries_view(entries@) == scan_entries(items@.take(i as int), ex),
        decreases items@.len() - i,
    {
        assert(items@.take(i + 1).drop_last() =~= items@.take(i as int));
        assert(items@.take(i + 1).last() == items@[i as int]);
        let k = &items[i];
        if is_scanned_item(k, opts) {
            let mut group = scan_item(k);
            let ghost before = entries_view(entries@);
            let ghost gv = entries_view(group@);
            entries.append(&mut group);
            assert(entries_view(entries@) =~= before + gv);
        } else {
            assert(scan_entries(items@.take(i + 1), ex) =~= scan_entries(items@.take(i as int), ex));
        }
        i = i + 1;
    }
    assert(items@.take(items@.len() as int) =~= items@);
    finish_report(path, entries)
}

/// Scans the packs folder at `path` with nothing excluded.
pub fn scan(path: String, items: Option<Vec<FsNode>>) -> (r: ScanReport)
    ensures
        r.path@ == path@,
        match items {
            None => r.status == ScanStatus::MissingDir && r.total_packs == 0 && r.entries@.len() == 0,
            Some(v) => {
                let es = scan_entries(v@, Seq::<Seq<char>>::empty());
                &&& entries_view(r.entries@) == es
                &&& r.total_packs == count(es, |e: EntryView| is_pack(e))
                &&& r.status == (if r.total_packs == 0 {
                    ScanStatus::NoPacks
                } else {
                    ScanStatus::Scanned
                })
            },
        },
        counts_of(r.counts, entries_view(r.entries@)),
{
    let opts = ScanOptions { exclude: Vec::new() };
    assert(strs(opts.exclude@) =~= Seq::<Seq<char>>::empty());
    scan_with(path, items, &opts)
}

} // verus!
