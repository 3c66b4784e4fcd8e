//! Classification of one pack as it sits in the packs folder, a folder or a
//! file: structure verdict, high-version layout, Lunar tag and size.
use vstd::prelude::*;
use crate::archive::{
    catalog_names, decoded_files, decoded_names, decoded_zip_names, zip_catalog, zip_catalog_of,
    zip_names, CoreSearch, found_any,
};
use crate::classify::{
    classify_file_bytes, collect_zip_modern_texture_paths, file_verdict, flag_values,
    modern_reason, modern_zip_spec, search_verdict, verdict_from_search, ModernSet,
};
use crate::folder::{
    collect_fs_modern_texture_paths, contains_core, folder_contains_core, judgment_mcmeta,
    modern_fs_spec, read_judgment_mcmeta, search_fs, search_fs_spec,
};
use crate::fs::{
    dir_at, dir_facts, facts_from_dir, file_bytes, fs_core_modern_texture_paths, fs_modern_list,
    is_dir_at, lemma_kid_decreases, one_part, FsNode,
};
use crate::layout::{
    any_prefixed, any_starts_with, bloat_cause_texts, container_payload, core_modern_texture_paths,
    is_container_payload, modern_paths, texts,
};
use crate::lunar::{lunar_bad, mcmeta_has_lunar_escape};
use crate::model::{modern_reason_of, strs, Category, IgnoreReason, NodeKind, PackEntry, EntryView};
use crate::names::{is_junk_name, junk_name};
use crate::text::{chars_of, ends_with, is_suffix, lower, lower_vec};

verus! {

/// An ignore reason as plain values.
pub open spec fn reason_view(r: Option<IgnoreReason>) -> Option<(Seq<char>, Seq<Seq<char>>)> {
    match r {
        Some(x) => Some(x@),
        None => None,
    }
}

/// The root layer has an `assets` folder (for a zip file: a name under
/// `assets/`).
pub open spec fn root_has_assets_spec(n: FsNode) -> bool {
    if n is Dir {
        dir_at(n, seq!["assets"@])
    } else {
        match file_bytes(n) {
            Some(b) => match zip_catalog_of(b) {
                Some(cat) => any_prefixed(zip_names(cat), "assets/"@),
                None => false,
            },
            None => false,
        }
    }
}

/// The singular texture folders of the root core, item first.
pub open spec fn root_modern_values(n: FsNode) -> Seq<Seq<char>> {
    if n is Dir {
        fs_modern_list(n)
    } else {
        match file_bytes(n) {
            Some(b) => match zip_catalog_of(b) {
                Some(cat) => modern_paths(decoded_names(cat), decoded_files(cat), Seq::<char>::empty()),
                None => Seq::<Seq<char>>::empty(),
            },
            None => Seq::<Seq<char>>::empty(),
        }
    }
}

/// The singular texture folders of the nested cores, sorted.
pub open spec fn nested_modern_values(n: FsNode) -> Seq<Seq<char>> {
    if n is Dir {
        flag_values(modern_fs_spec(n, 1))
    } else {
        match file_bytes(n) {
            Some(b) => match zip_catalog_of(b) {
                Some(cat) => flag_values(modern_zip_spec(b, cat, Seq::<char>::empty(), 1)),
                None => Seq::<Seq<char>>::empty(),
            },
            None => Seq::<Seq<char>>::empty(),
        }
    }
}

/// The high-version texture folders that make a pack judged `category` be
/// left alone (empty: none).
pub open spec fn high_version_values(n: FsNode, category: Category) -> Seq<Seq<char>> {
    if root_has_assets_spec(n) {
        root_modern_values(n)
    } else if category == Category::Nested {
        nested_modern_values(n)
    } else {
        Seq::<Seq<char>>::empty()
    }
}

pub fn root_has_assets(n: &FsNode) -> (r: bool)
    ensures
        r == root_has_assets_spec(*n),
{
    match n {
        FsNode::Dir { .. } => is_dir_at(n, one_part("assets").as_slice()),
        FsNode::File { data, .. } => match data {
            Some(b) => match zip_catalog(b.as_slice()) {
                Some(cat) => {
                    let names = catalog_names(cat.as_slice());
                    any_starts_with(names.as_slice(), chars_of("assets/").as_slice())
                },
                None => false,
            },
            None => false,
        },
    }
}

fn reason_from_list(values: Vec<String>) -> (r: Option<IgnoreReason>)
    ensures
        reason_view(r) == modern_reason_of(strs(values@)),
{
    if values.len() == 0 {
        None
    } else {
        Some(IgnoreReason { key: "modern_texture_layout".to_owned(), values })
    }
}

fn strings_of(v: Vec<Vec<char>>) -> (r: Vec<String>)
    ensures
        strs(r@) == texts(v@),
{
    let mut out: Vec<String> = Vec::new();
    let mut i: usize = 0;
    while i < v.len()
        invariant
            0 <= i <= v@.len(),
            strs(out@) == texts(v@).take(i as int),
        decreases v@.len() - i,
    {
        let ghost before = strs(out@);
        out.push(crate::text::string_of(v[i].as_slice()));
        assert(strs(out@) =~= before.push(v@[i as int]@));
        i = i + 1;
        assert(texts(v@).take(i as int) =~= texts(v@).take(i - 1).push(v@[i - 1]@));
    }
    assert(texts(v@).take(v@.len() as int) =~= texts(v@));
    out
}

/// The ignore reason of a root core that uses the singular texture folders.
pub fn root_modern_texture_reason(n: &FsNode) -> (r: Option<IgnoreReason>)
    ensures
        reason_view(r) == modern_reason_of(root_modern_values(*n)),
{
    match n {
        FsNode::Dir { .. } => reason_from_list(fs_core_modern_texture_paths(n)),
        FsNode::File { data, .. } => match data {
            Some(b) => match zip_catalog(b.as_slice()) {
                Some(cat) => {
                    let (names, files) = decoded_zip_names(cat.as_slice());
                    let root: Vec<char> = Vec::new();
                    assert(root@ =~= Seq::<char>::empty());
                    let list = core_modern_texture_paths(names.as_slice(), files.as_slice(), root.as_slice());
                    reason_from_list(strings_of(list))
                },
                None => None,
            },
            None => None,
        },
    }
}

fn flags_reason(set: &ModernSet) -> (r: Option<IgnoreReason>)
    ensures
        reason_view(r) == modern_reason_of(flag_values((set.block, set.item))),
{
    let r = modern_reason(set);
    proof {
        assert(flag_values((set.block, set.item)).len() > 0 <==> (set.block || set.item));
    }
    r
}

/// The ignore reason of nested cores that use the singular texture folders.
pub fn nested_modern_texture_reason(n: &FsNode) -> (r: Option<IgnoreReason>)
    ensures
        reason_view(r) == modern_reason_of(nested_modern_values(*n)),
{
    let mut set = ModernSet { block: false, item: false };
    match n {
        FsNode::Dir { .. } => {
            collect_fs_modern_texture_paths(n, 1, &mut set);
        },
        FsNode::File { data, .. } => match data {
            Some(b) => match zip_catalog(b.as_slice()) {
                Some(cat) => {
                    let (names, files) = decoded_zip_names(cat.as_slice());
                    let root: Vec<char> = Vec::new();
                    assert(root@ =~= Seq::<char>::empty());
                    collect_zip_modern_texture_paths(b.as_slice(), &cat, &names, &files, root.as_slice(), 1, &mut set);
                },
                None => {
                    return None;
                },
            },
            None => {
                return None;
            },
        },
    }
    flags_reason(&set)
}

/// Why a pack judged `category` is left alone for using the 1.13+ layout.
pub fn high_version_ignore_reason(n: &FsNode, category: Category) -> (r: Option<IgnoreReason>)
    ensures
        reason_view(r) == modern_reason_of(high_version_values(*n, category)),
{
    if root_has_assets(n) {
        return root_modern_texture_reason(n);
    }
    if category == Category::Nested {
        nested_modern_texture_reason(n)
    } else {
        None
    }
}

/// The verdict once a bad mcmeta is taken into account: an illegal pack
/// keeps its verdict; a normal pack becomes Lunar-illegal; any other keeps
/// its category and gains the `lunar_escape` cause.
pub open spec fn lunar_tagged(category: Category, causes: Seq<Seq<char>>, mcmeta: Option<Seq<u8>>) -> (Category, Seq<Seq<char>>) {
    if category == Category::Illegal {
        (category, causes)
    } else {
        match mcmeta {
            Some(raw) => if lunar_bad(raw) {
                (
                    if category == Category::Normal {
                        Category::LunarIllegal
                    } else {
                        category
                    },
                    if causes.contains("lunar_escape"@) {
                        causes
                    } else {
                        causes.push("lunar_escape"@)
                    },
                )
            } else {
                (category, causes)
            },
            None => (category, causes),
        }
    }
}

fn has_lunar_cause(causes: &Vec<String>) -> (r: bool)
    ensures
        r == strs(causes@).contains("lunar_escape"@),
{
    let lit = chars_of("lunar_escape");
    let mut i: usize = 0;
    while i < causes.len()
        invariant
            0 <= i <= causes@.len(),
            lit@ == "lunar_escape"@,
            forall|j: int| 0 <= j < i ==> strs(causes@)[j] != "lunar_escape"@,
        decreases causes@.len() - i,
    {
        if crate::text::seq_eq(chars_of(causes[i].as_str()).as_slice(), lit.as_slice()) {
            assert(strs(causes@)[i as int] == "lunar_escape"@);
            return true;
        }
        i = i + 1;
    }
    false
}

/// Stacks the Lunar tag after the structural verdict of the pack `n`.
pub fn apply_lunar_tag(category: Category, causes: Vec<String>, n: &FsNode) -> (r: (Category, Vec<String>))
    ensures
        (r.0, strs(r.1@)) == lunar_tagged(category, strs(causes@), judgment_mcmeta(*n)),
{
    let mut causes = causes;
    if category == Category::Illegal {
        return (category, causes);
    }
    let raw = match read_judgment_mcmeta(n) {
        Some(raw) => raw,
        None => {
            return (category, causes);
        },
    };
    if !mcmeta_has_lunar_escape(raw.as_slice()) {
        return (category, causes);
    }
    if !has_lunar_cause(&causes) {
        let ghost before = strs(causes@);
        causes.push("lunar_escape".to_owned());
        assert(strs(causes@) =~= before.push("lunar_escape"@));
    }
    match category {
        Category::Normal => (Category::LunarIllegal, causes),
        other => (other, causes),
    }
}

/// The structural verdict on a folder pack.
pub open spec fn dir_verdict(n: FsNode) -> (Category, Seq<Seq<char>>) {
    let f = dir_facts(n);
    if f.has_assets && f.has_mcmeta {
        (Category::Bloated, seq!["folder_pack"@] + bloat_cause_texts(f))
    } else if f.has_assets {
        (Category::Nested, seq!["mcmeta_rescue"@])
    } else {
        search_verdict(search_fs_spec(n, 1))
    }
}

pub fn classify_dir(n: &FsNode) -> (r: (Category, Vec<String>))
    ensures
        r.0 == dir_verdict(*n).0,
        strs(r.1@) == dir_verdict(*n).1,
{
    let facts = facts_from_dir(n);
    if facts.has_assets && facts.has_mcmeta {
        let mut causes: Vec<String> = Vec::new();
        causes.push("folder_pack".to_owned());
        let mut extra = facts.bloat_causes();
        let ghost a = strs(causes@);
        let ghost b = strs(extra@);
        causes.append(&mut extra);
        assert(strs(causes@) =~= a + b);
        return (Category::Bloated, causes);
    }
    if facts.has_assets {
        let mut causes: Vec<String> = Vec::new();
        causes.push("mcmeta_rescue".to_owned());
        assert(strs(causes@) =~= seq!["mcmeta_rescue"@]);
        return (Category::Nested, causes);
    }
    let mut search = CoreSearch { found: Vec::new(), hit_cap: false };
    search_fs(n, 1, &mut search);
    verdict_from_search(search)
}

/// The bytes a read of the file gives; nothing when it cannot be read.
pub open spec fn bytes_or_empty(n: FsNode) -> Seq<u8> {
    match file_bytes(n) {
        Some(b) => b,
        None => Seq::<u8>::empty(),
    }
}

pub fn classify_file(n: &FsNode, name: &[char]) -> (r: (Category, Vec<String>))
    ensures
        r.0 == file_verdict(bytes_or_empty(*n), name@).0,
        strs(r.1@) == file_verdict(bytes_or_empty(*n), name@).1,
{
    match n {
        FsNode::File { data, .. } => match data {
            Some(b) => classify_file_bytes(b.as_slice(), name),
            None => {
                let empty: Vec<u8> = Vec::new();
                assert(empty@ =~= Seq::<u8>::empty());
                classify_file_bytes(empty.as_slice(), name)
            },
        },
        FsNode::Dir { .. } => {
            let empty: Vec<u8> = Vec::new();
            assert(empty@ =~= Seq::<u8>::empty());
            classify_file_bytes(empty.as_slice(), name)
        },
    }
}

/// Total size of the files below `n` (a file: its own size).
pub open spec fn fs_total(n: FsNode) -> int
    decreases n, 1int, 0int,
{
    match n {
        FsNode::File { size, .. } => size as int,
        FsNode::Dir { .. } => fs_total_kids(n, n.kids().len() as int),
    }
}

pub open spec fn fs_total_kids(n: FsNode, k: int) -> int
    decreases n, 0int, k,
{
    if k <= 0 || k > n.kids().len() {
        0
    } else {
        proof {
            lemma_kid_decreases(n, k - 1);
        }
        fs_total_kids(n, k - 1) + fs_total(n.kids()[k - 1])
    }
}

pub open spec fn saturated(x: int) -> u64 {
    if x > u64::MAX {
        u64::MAX
    } else {
        x as u64
    }
}

proof fn lemma_fs_total_nonneg(n: FsNode)
    ensures
        fs_total(n) >= 0,
    decreases n, 1int, 0int,
{
    if n is Dir {
        lemma_fs_total_kids_nonneg(n, n.kids().len() as int);
    }
}

proof fn lemma_fs_total_kids_nonneg(n: FsNode, k: int)
    ensures
        fs_total_kids(n, k) >= 0,
    decreases n, 0int, k,
{
    if k > 0 && k <= n.kids().len() {
        lemma_kid_decreases(n, k - 1);
        lemma_fs_total_kids_nonneg(n, k - 1);
        lemma_fs_total_nonneg(n.kids()[k - 1]);
    }
}

/// Total size of the files in a folder, stopping at the largest `u64`.
pub fn dir_size(n: &FsNode) -> (r: u64)
    ensures
        r == saturated(fs_total(*n)),
    decreases *n,
{
    match n {
        FsNode::File { size, .. } => *size,
        FsNode::Dir { children, .. } => {
            let mut total: u64 = 0;
            let mut i: usize = 0;
            while i < children.len()
                invariant
                    0 <= i <= children@.len(),
                    n.kids() == children@,
                    n is Dir,
                    total == saturated(fs_total_kids(*n, i as int)),
                decreases children@.len() - i,
            {
                proof {
                    lemma_kid_decreases(*n, i as int);
                    lemma_fs_total_kids_nonneg(*n, i as int);
                    lemma_fs_total_nonneg(n.kids()[i as int]);
                }
                let s = dir_size(&children[i]);
                total = total.saturating_add(s);
                i = i + 1;
            }
            total
        },
    }
}

/// The entry a classified pack gets: its verdict, the high-version reason
/// that overrides it, the Lunar tag, and its size.
pub open spec fn pack_entry_spec(name: Seq<char>, n: FsNode, relative_path: Seq<char>, parent_path: Option<Seq<char>>) -> EntryView {
    let v = if n is Dir {
        dir_verdict(n)
    } else {
        file_verdict(bytes_or_empty(n), name)
    };
    let ig = if v.0 == Category::Illegal {
        Seq::<Seq<char>>::empty()
    } else {
        high_version_values(n, v.0)
    };
    let t = if ig.len() > 0 {
        (Category::Ignored, Seq::<Seq<char>>::empty())
    } else {
        lunar_tagged(v.0, v.1, judgment_mcmeta(n))
    };
    (
        name,
        relative_path,
        parent_path,
        NodeKind::Pack,
        t.0,
        t.1,
        saturated(fs_total(n)),
        modern_reason_of(ig),
    )
}

pub open spec fn opt_text(o: Option<String>) -> Option<Seq<char>> {
    match o {
        Some(s) => Some(s@),
        None => None,
    }
}

pub fn classify_pack_entry(name: String, n: &FsNode, relative_path: String, parent_path: Option<String>) -> (e: PackEntry)
    ensures
        e@ == pack_entry_spec(name@, *n, relative_path@, opt_text(parent_path)),
{
    let name_chars = chars_of(name.as_str());
    let is_dir = match n {
        FsNode::Dir { .. } => true,
        FsNode::File { .. } => false,
    };
    let (mut category, mut causes) = if is_dir {
        classify_dir(n)
    } else {
        classify_file(n, name_chars.as_slice())
    };
    let ignore = if category == Category::Illegal {
        None
    } else {
        high_version_ignore_reason(n, category)
    };
    if ignore.is_some() {
        category = Category::Ignored;
        causes = Vec::new();
        assert(strs(causes@) =~= Seq::<Seq<char>>::empty());
    } else {
        let t = apply_lunar_tag(category, causes, n);
        category = t.0;
        causes = t.1;
    }
    let size_bytes = dir_size(n);
    PackEntry {
        name,
        relative_path,
        parent_path,
        kind: NodeKind::Pack,
        category,
        causes,
        size_bytes,
        ignore,
    }
}

/// A child a folder holds as a pack: a folder with a core somewhere below,
/// or a file named or shaped like a container.
pub open spec fn intended_child(k: FsNode) -> bool {
    if k is Dir {
        contains_core(k, 1)
    } else {
        let l = lower(k.name_of());
        is_suffix(".zip"@, l) || is_suffix(".rar"@, l) || is_suffix(".7z"@, l) || match file_bytes(k) {
            Some(b) => container_payload(k.name_of(), b),
            None => false,
        }
    }
}

pub open spec fn pack_child(k: FsNode) -> bool {
    !junk_name(k.name_of()) && intended_child(k)
}

/// Indices of the first `k` children that are packs, in order.
pub open spec fn pack_children_upto(n: FsNode, k: int) -> Seq<int>
    decreases k,
{
    if k <= 0 || k > n.kids().len() {
        Seq::<int>::empty()
    } else {
        let r = pack_children_upto(n, k - 1);
        if pack_child(n.kids()[k - 1]) {
            r.push(k - 1)
        } else {
            r
        }
    }
}

/// Indices of the children of `n` that are packs, in order.
pub open spec fn pack_children(n: FsNode) -> Seq<int> {
    pack_children_upto(n, n.kids().len() as int)
}

/// A non-junk child that is not a pack sits beside the packs.
pub open spec fn has_attachment(n: FsNode) -> bool {
    exists|i: int|
        0 <= i < n.kids().len() && !junk_name(n.kids()[i].name_of()) && !intended_child(
            #[trigger] n.kids()[i],
        )
}

pub fn is_pack_intended_child(k: &FsNode) -> (r: bool)
    ensures
        r == intended_child(*k),
{
    match k {
        FsNode::Dir { .. } => folder_contains_core(k, 1),
        FsNode::File { name, data, .. } => {
            let nm = chars_of(name.as_str());
            let l = lower_vec(nm.as_slice());
            if ends_with(l.as_slice(), chars_of(".zip").as_slice()) || ends_with(l.as_slice(), chars_of(".rar").as_slice())
                || ends_with(l.as_slice(), chars_of(".7z").as_slice()) {
                return true;
            }
            match data {
                Some(b) => is_container_payload(nm.as_slice(), b.as_slice()),
                None => false,
            }
        },
    }
}

/// Indices of the children of `n` that are packs, in order.
pub fn direct_pack_children(n: &FsNode) -> (r: Vec<usize>)
    ensures
        r@.map_values(|i: usize| i as int) == pack_children(*n),
        forall|j: int| 0 <= j < r@.len() ==> r@[j] < n.kids().len(),
{
    let mut out: Vec<usize> = Vec::new();
    match n {
        FsNode::File { .. } => {
            assert(out@.map_values(|i: usize| i as int) =~= pack_children(*n));
        },
        FsNode::Dir { children, .. } => {
            let mut i: usize = 0;
            while i < children.len()
                invariant
                    0 <= i <= children@.len(),
                    n.kids() == children@,
                    out@.map_values(|x: usize| x as int) == pack_children_upto(*n, i as int),
                    forall|j: int| 0 <= j < out@.len() ==> out@[j] < n.kids().len(),
                decreases children@.len() - i,
            {
                let k = &children[i];
                if !is_junk_name(k.name().as_str()) && is_pack_intended_child(k) {
                    out.push(i);
                }
                i = i + 1;
                assert(out@.map_values(|x: usize| x as int) =~= pack_children_upto(*n, i as int));
            }
        },
    }
    out
}

/// Whether a non-junk child that is not a pack sits beside the packs.
pub fn has_non_junk_attachment(n: &FsNode) -> (r: bool)
    ensures
        r == has_attachment(*n),
{
    match n {
        FsNode::File { .. } => false,
        FsNode::Dir { children, .. } => {
            let mut i: usize = 0;
            while i < children.len()
                invariant
                    0 <= i <= children@.len(),
                    n.kids() == children@,
                    forall|j: int| 0 <= j < i ==> !(!junk_name(n.kids()[j].name_of()) && !intended_child(#[trigger] n.kids()[j])),
                decreases children@.len() - i,
            {
                let k = &children[i];
                if !is_junk_name(k.name().as_str()) && !is_pack_intended_child(k) {
                    return true;
                }
                i = i + 1;
            }
            false
        },
    }
}

/// Illegal packs are never tagged Lunar.
pub proof fn law_lunar_tag_skips_illegal(causes: Seq<Seq<char>>, mcmeta: Option<Seq<u8>>)
    ensures
        lunar_tagged(Category::Illegal, causes, mcmeta) == (Category::Illegal, causes),
{
}

/// A bad mcmeta turns a plain normal pack Lunar-illegal and leaves every
/// other structural category in place, adding the `lunar_escape` cause.
pub proof fn law_lunar_tag_stacks(category: Category, causes: Seq<Seq<char>>, raw: Seq<u8>)
    requires
        category != Category::Illegal,
        lunar_bad(raw),
    ensures
        lunar_tagged(category, causes, Some(raw)).0 == (if category == Category::Normal {
            Category::LunarIllegal
        } else {
            category
        }),
        lunar_tagged(category, causes, Some(raw)).1.contains("lunar_escape"@),
{
    if !causes.contains("lunar_escape"@) {
        assert(causes.push("lunar_escape"@)[causes.len() as int] == "lunar_escape"@);
    }
}

/// Tagging twice is tagging once: the cause is never added twice.
pub proof fn law_lunar_tag_idempotent(category: Category, causes: Seq<Seq<char>>, mcmeta: Option<Seq<u8>>)
    ensures
        ({
            let t = lunar_tagged(category, causes, mcmeta);
            lunar_tagged(t.0, t.1, mcmeta) == t
        }),
{
    match mcmeta {
        Some(raw) => {
            if category != Category::Illegal && lunar_bad(raw) && !causes.contains("lunar_escape"@) {
                assert(causes.push("lunar_escape"@)[causes.len() as int] == "lunar_escape"@);
            }
        },
        None => {},
    }
}

/// A pack entry is ignored exactly when it carries a high-version reason,
/// and an ignored pack has no causes.
pub proof fn law_ignored_iff_reason(name: Seq<char>, n: FsNode, rel: Seq<char>, parent: Option<Seq<char>>)
    ensures
        ({
            let e = pack_entry_spec(name, n, rel, parent);
            &&& (e.4 == Category::Ignored) == (e.7 is Some)
            &&& e.4 == Category::Ignored ==> e.5.len() == 0
        }),
{
    let v = if n is Dir {
        dir_verdict(n)
    } else {
        file_verdict(bytes_or_empty(n), name)
    };
    assert(v.0 != Category::Ignored);
}

} // verus!
