//! Searches through folder trees: rescuable cores, cores anywhere below,
//! high-version layouts of nested cores, and the mcmeta a Lunar judgment reads.
use vstd::prelude::*;
use crate::archive::{
    catalog_names, search_inner_spec, search_zip, search_zip_spec, zip_catalog, zip_catalog_of,
    zip_names, CoreSearch, found_any, MAX_NESTING_DEPTH,
};
use crate::classify::{
    collect_zip_modern_texture_paths, core_modern_flags, modern_inner_spec, or2, ModernSet,
};
use crate::archive::{decoded_zip_names, catalog_view, entry_view, index_of_name, zip_entry_data_of, zip_read, ZipEntry};
use crate::classify::{trim_suffix_all, trim_suffix_all_exec};
use crate::layout::layer_has_assets;
use crate::text::{ends_with, is_suffix, seq_eq};
use crate::layout::zip_layer_has_assets;
use crate::fs::{
    dir_at, file_bytes, find_child, is_dir_at, lemma_kid_decreases, one_part, FsNode, fs_core_flags,
    fs_core_modern_flags, file_at, node_at, find_node,
};
use crate::layout::{any_prefixed, any_starts_with, starts_pk, starts_with_pk};
use crate::names::{file_stem_of, is_junk_name, junk_name};
use crate::text::{chars_of, string_of};

verus! {

/// (a core was found, the depth cap was hit) for the folder `n` searched at
/// `depth`.
pub open spec fn search_fs_spec(n: FsNode, depth: int) -> (bool, bool)
    decreases n, 1int, 0int,
{
    if depth > 10 {
        (false, true)
    } else {
        search_fs_kids(n, depth, n.kids().len() as int)
    }
}

/// The same over the first `k` entries of the folder.
pub open spec fn search_fs_kids(n: FsNode, depth: int, k: int) -> (bool, bool)
    decreases n, 0int, k,
{
    if k <= 0 || k > n.kids().len() || depth > 10 {
        (false, false)
    } else {
        let kid = n.kids()[k - 1];
        let x = if junk_name(kid.name_of()) {
            (false, false)
        } else if kid is Dir {
            if dir_at(kid, seq!["assets"@]) {
                (true, false)
            } else {
                proof {
                    lemma_kid_decreases(n, k - 1);
                }
                search_fs_spec(kid, depth + 1)
            }
        } else {
            search_inner_spec(file_bytes(kid), depth)
        };
        or2(search_fs_kids(n, depth, k - 1), x)
    }
}

/// Hunts the folder `n` for layers with an `assets/` folder, descending into
/// subfolders and zip files, at most `MAX_NESTING_DEPTH` levels deep.
pub fn search_fs(n: &FsNode, child_depth: usize, out: &mut CoreSearch)
    requires
        child_depth <= 11,
    ensures
        found_any(*final(out)) == (found_any(*old(out)) || search_fs_spec(*n, child_depth as int).0),
        final(out).hit_cap == (old(out).hit_cap || search_fs_spec(*n, child_depth as int).1),
    decreases *n,
{
    if child_depth > MAX_NESTING_DEPTH {
        out.hit_cap = true;
        return;
    }
    let ghost f0 = found_any(*out);
    let ghost h0 = out.hit_cap;
    match n {
        FsNode::File { .. } => {},
        FsNode::Dir { children, .. } => {
            let assets = one_part("assets");
            let mut i: usize = 0;
            while i < children.len()
                invariant
                    0 <= i <= children@.len(),
                    n.kids() == children@,
                    child_depth <= 10,
                    crate::layout::texts(assets@) == seq!["assets"@],
                    (found_any(*out), out.hit_cap) == or2((f0, h0), search_fs_kids(*n, child_depth as int, i as int)),
                decreases children@.len() - i,
            {
                let k = &children[i];
                proof {
                    lemma_kid_decreases(*n, i as int);
                }
                if !is_junk_name(k.name().as_str()) {
                    match k {
                        FsNode::Dir { name, .. } => {
                            if is_dir_at(k, assets.as_slice()) {
                                out.found.push(name.clone());
                            } else {
                                search_fs(k, child_depth + 1, out);
                            }
                        },
                        FsNode::File { name, data, .. } => {
                            match data {
                                Some(b) => {
                                    search_embedded(b.as_slice(), name, child_depth, out);
                                },
                                None => {},
                            }
                        },
                    }
                }
                i = i + 1;
            }
        },
    }
}

/// What one file found while searching contributes: a core if it is a zip
/// with `assets/` at its root, else whatever its own layers hold.
fn search_embedded(b: &[u8], name: &String, child_depth: usize, out: &mut CoreSearch)
    requires
        child_depth <= 10,
    ensures
        found_any(*final(out)) == (found_any(*old(out)) || search_inner_spec(Some(b@), child_depth as int).0),
        final(out).hit_cap == (old(out).hit_cap || search_inner_spec(Some(b@), child_depth as int).1),
{
    if !starts_with_pk(b) {
        return;
    }
    match zip_catalog(b) {
        Some(icat) => {
            let inames = catalog_names(icat.as_slice());
            if any_starts_with(inames.as_slice(), chars_of("assets/").as_slice()) {
                let nm = chars_of(name.as_str());
                out.found.push(string_of(file_stem_of(nm.as_slice()).as_slice()));
            } else {
                let root: Vec<char> = Vec::new();
                assert(root@ =~= Seq::<char>::empty());
                search_zip(b, &icat, &inames, root.as_slice(), child_depth + 1, out);
            }
        },
        None => {},
    }
}

/// Some layer with an `assets` folder lies below `n`, in folders or zips,
/// counting from `depth`.
pub open spec fn contains_core(n: FsNode, depth: int) -> bool
    decreases n, 1int, 0int,
{
    if depth > 10 {
        false
    } else {
        contains_core_kids(n, depth, n.kids().len() as int)
    }
}

pub open spec fn contains_core_kids(n: FsNode, depth: int, k: int) -> bool
    decreases n, 0int, k,
{
    if k <= 0 || k > n.kids().len() || depth > 10 {
        false
    } else {
        let kid = n.kids()[k - 1];
        contains_core_kids(n, depth, k - 1) || if kid is Dir {
            kid.name_of() == "assets"@ || {
                proof {
                    lemma_kid_decreases(n, k - 1);
                }
                contains_core(kid, depth + 1)
            }
        } else {
            zip_holds_core(file_bytes(kid), depth)
        }
    }
}

/// A readable zip whose root has `assets/`, or whose layers hold a core.
pub open spec fn zip_holds_core(data: Option<Seq<u8>>, depth: int) -> bool {
    match data {
        Some(b) => starts_pk(b) && match zip_catalog_of(b) {
            Some(cat) => any_prefixed(zip_names(cat), "assets/"@) || search_zip_spec(
                b,
                cat,
                Seq::<char>::empty(),
                depth + 1,
            ).0,
            None => false,
        },
        None => false,
    }
}

proof fn lemma_contains_grows(n: FsNode, depth: int, i: int, j: int)
    requires
        0 <= i <= j <= n.kids().len(),
        contains_core_kids(n, depth, i),
    ensures
        contains_core_kids(n, depth, j),
    decreases j - i,
{
    if i < j {
        lemma_contains_grows(n, depth, i, j - 1);
    }
}

fn zip_holds_core_exec(b: &[u8], depth: usize) -> (r: bool)
    requires
        depth <= 10,
    ensures
        r == zip_holds_core(Some(b@), depth as int),
{
    if !starts_with_pk(b) {
        return false;
    }
    match zip_catalog(b) {
        Some(cat) => {
            let names = catalog_names(cat.as_slice());
            if any_starts_with(names.as_slice(), chars_of("assets/").as_slice()) {
                return true;
            }
            let mut search = CoreSearch { found: Vec::new(), hit_cap: false };
            let root: Vec<char> = Vec::new();
            assert(root@ =~= Seq::<char>::empty());
            search_zip(b, &cat, &names, root.as_slice(), depth + 1, &mut search);
            search.found.len() > 0
        },
        None => false,
    }
}

/// Whether a folder holds a rescuable core anywhere below it.
pub fn folder_contains_core(n: &FsNode, depth: usize) -> (r: bool)
    requires
        depth <= 11,
    ensures
        r == contains_core(*n, depth as int),
    decreases *n,
{
    if depth > MAX_NESTING_DEPTH {
        return false;
    }
    match n {
        FsNode::File { .. } => false,
        FsNode::Dir { children, .. } => {
            let mut i: usize = 0;
            while i < children.len()
                invariant
                    0 <= i <= children@.len(),
                    n.kids() == children@,
                    depth <= 10,
                    !contains_core_kids(*n, depth as int, i as int),
                decreases children@.len() - i,
            {
                let k = &children[i];
                proof {
                    lemma_kid_decreases(*n, i as int);
                }
                let hit = match k {
                    FsNode::Dir { name, .. } => {
                        text_is(name, "assets") || folder_contains_core(k, depth + 1)
                    },
                    FsNode::File { data, .. } => match data {
                        Some(b) => zip_holds_core_exec(b.as_slice(), depth),
                        None => false,
                    },
                };
                if hit {
                    proof {
                        lemma_contains_grows(*n, depth as int, i + 1, n.kids().len() as int);
                    }
                    return true;
                }
                i = i + 1;
            }
            false
        },
    }
}

fn text_is(s: &String, lit: &str) -> (r: bool)
    ensures
        r == (s@ == lit@),
{
    crate::text::seq_eq(chars_of(s.as_str()).as_slice(), chars_of(lit).as_slice())
}

/// Singular texture folders used by the cores nested in the folder `n`.
pub open spec fn modern_fs_spec(n: FsNode, depth: int) -> (bool, bool)
    decreases n, 1int, 0int,
{
    if depth > 10 {
        (false, false)
    } else {
        modern_fs_kids(n, depth, n.kids().len() as int)
    }
}

pub open spec fn modern_fs_kids(n: FsNode, depth: int, k: int) -> (bool, bool)
    decreases n, 0int, k,
{
    if k <= 0 || k > n.kids().len() || depth > 10 {
        (false, false)
    } else {
        let kid = n.kids()[k - 1];
        let x = if junk_name(kid.name_of()) {
            (false, false)
        } else if kid is Dir {
            if dir_at(kid, seq!["assets"@]) {
                fs_core_flags(kid)
            } else {
                proof {
                    lemma_kid_decreases(n, k - 1);
                }
                modern_fs_spec(kid, depth + 1)
            }
        } else {
            modern_inner_spec(file_bytes(kid), depth)
        };
        or2(modern_fs_kids(n, depth, k - 1), x)
    }
}

/// The singular folders of the core held by one zip found while searching.
fn modern_embedded(b: &[u8], child_depth: usize, out: &mut ModernSet)
    requires
        child_depth <= 10,
    ensures
        (final(out).block, final(out).item) == or2((old(out).block, old(out).item), modern_inner_spec(Some(b@), child_depth as int)),
{
    if !starts_with_pk(b) {
        return;
    }
    match zip_catalog(b) {
        Some(icat) => {
            let (inames, ifiles) = decoded_zip_names(icat.as_slice());
            let root: Vec<char> = Vec::new();
            assert(root@ =~= Seq::<char>::empty());
            if zip_layer_has_assets(inames.as_slice(), root.as_slice()) {
                let f = core_modern_flags(inames.as_slice(), ifiles.as_slice(), root.as_slice());
                out.block = out.block || f.0;
                out.item = out.item || f.1;
            } else {
                collect_zip_modern_texture_paths(b, &icat, &inames, &ifiles, root.as_slice(), child_depth + 1, out);
            }
        },
        None => {},
    }
}

/// Collects the singular texture folders of every core nested in the folder
/// `n`, in subfolders and zip files.
pub fn collect_fs_modern_texture_paths(n: &FsNode, child_depth: usize, out: &mut ModernSet)
    requires
        child_depth <= 11,
    ensures
        (final(out).block, final(out).item) == or2((old(out).block, old(out).item), modern_fs_spec(*n, child_depth as int)),
    decreases *n,
{
    if child_depth > MAX_NESTING_DEPTH {
        return;
    }
    let ghost s0 = (out.block, out.item);
    match n {
        FsNode::File { .. } => {},
        FsNode::Dir { children, .. } => {
            let assets = one_part("assets");
            let mut i: usize = 0;
            while i < children.len()
                invariant
                    0 <= i <= children@.len(),
                    n.kids() == children@,
                    child_depth <= 10,
                    crate::layout::texts(assets@) == seq!["assets"@],
                    (out.block, out.item) == or2(s0, modern_fs_kids(*n, child_depth as int, i as int)),
                decreases children@.len() - i,
            {
                let k = &children[i];
                proof {
                    lemma_kid_decreases(*n, i as int);
                }
                if !is_junk_name(k.name().as_str()) {
                    match k {
                        FsNode::Dir { .. } => {
                            if is_dir_at(k, assets.as_slice()) {
                                let f = fs_core_modern_flags(k);
                                out.block = out.block || f.0;
                                out.item = out.item || f.1;
                            } else {
                                collect_fs_modern_texture_paths(k, child_depth + 1, out);
                            }
                        },
                        FsNode::File { data, .. } => {
                            match data {
                                Some(b) => {
                                    modern_embedded(b.as_slice(), child_depth, out);
                                },
                                None => {},
                            }
                        },
                    }
                }
                i = i + 1;
            }
        },
    }
}

/// The entry `by_name` opens for `n`: the one the archive names `n`, when
/// it can be opened.
pub open spec fn opened_index(cat: Seq<(Seq<char>, Option<(Seq<u8>, bool, bool)>, Option<u64>)>, n: Seq<char>) -> Option<int> {
    match index_of_name(cat, n) {
        Some(i) => if cat[i].2 is Some {
            Some(i)
        } else {
            None
        },
        None => None,
    }
}

/// The first name ending in `pack.mcmeta` whose layer holds `assets/` and
/// whose entry opens and reads.
pub open spec fn core_mcmeta_by_name(bytes: Seq<u8>, cat: Seq<(Seq<char>, Option<(Seq<u8>, bool, bool)>, Option<u64>)>, names: Seq<Seq<char>>) -> Option<Seq<u8>>
    decreases names.len(),
{
    if names.len() == 0 {
        None
    } else {
        let n = names[0];
        let here = if is_suffix("pack.mcmeta"@, n) && layer_has_assets(zip_names(cat), trim_suffix_all(n, "pack.mcmeta"@)) {
            match opened_index(cat, n) {
                Some(i) => zip_entry_data_of(bytes, i),
                None => None,
            }
        } else {
            None
        };
        match here {
            Some(d) => Some(d),
            None => core_mcmeta_by_name(bytes, cat, names.drop_first()),
        }
    }
}

/// The mcmeta a Lunar judgment reads from a zip file: its root
/// `pack.mcmeta` when that opens (a failed read gives nothing), else the one
/// of the first core layer.
pub open spec fn zip_judgment_mcmeta(bytes: Seq<u8>) -> Option<Seq<u8>> {
    match zip_catalog_of(bytes) {
        None => None,
        Some(cat) => match opened_index(cat, "pack.mcmeta"@) {
            Some(i) => zip_entry_data_of(bytes, i),
            None => core_mcmeta_by_name(bytes, cat, zip_names(cat)),
        },
    }
}

pub fn opened_index_exec(cat: &[ZipEntry], name: &[char]) -> (r: Option<usize>)
    ensures
        match r {
            Some(i) => opened_index(catalog_view(cat@), name@) == Some(i as int) && i < cat@.len(),
            None => opened_index(catalog_view(cat@), name@) is None,
        },
{
    let ghost c = catalog_view(cat@);
    let mut i: usize = 0;
    assert(c.skip(0) =~= c);
    while i < cat.len()
        invariant
            0 <= i <= cat@.len(),
            c == catalog_view(cat@),
            index_of_name(c, name@) == (match index_of_name(c.skip(i as int), name@) {
                Some(k) => Some(k + i),
                None => None,
            }),
        decreases cat@.len() - i,
    {
        assert(c.skip(i as int)[0] == entry_view(cat@[i as int]));
        assert(c[i as int] == entry_view(cat@[i as int]));
        if seq_eq(chars_of(cat[i].name.as_str()).as_slice(), name) {
            if cat[i].size.is_some() {
                return Some(i);
            }
            return None;
        }
        assert(c.skip(i as int).drop_first() =~= c.skip(i + 1));
        i = i + 1;
    }
    None
}

/// The mcmeta a Lunar judgment reads from a zip file.
pub fn zip_judgment_mcmeta_exec(bytes: &[u8]) -> (r: Option<Vec<u8>>)
    ensures
        match r {
            Some(v) => zip_judgment_mcmeta(bytes@) == Some(v@),
            None => zip_judgment_mcmeta(bytes@) is None,
        },
{
    let cat = match zip_catalog(bytes) {
        Some(c) => c,
        None => {
            return None;
        },
    };
    let ghost c = catalog_view(cat@);
    let mcmeta = chars_of("pack.mcmeta");
    match opened_index_exec(cat.as_slice(), mcmeta.as_slice()) {
        Some(i) => {
            return zip_read(bytes, i);
        },
        None => {},
    }
    let names = catalog_names(cat.as_slice());
    let ghost t = crate::layout::texts(names@);
    let mut i: usize = 0;
    assert(t.skip(0) =~= t);
    assert(zip_judgment_mcmeta(bytes@) == core_mcmeta_by_name(bytes@, c, t));
    while i < names.len()
        invariant
            0 <= i <= names@.len(),
            zip_judgment_mcmeta(bytes@) == core_mcmeta_by_name(bytes@, c, t.skip(i as int)),
            t == crate::layout::texts(names@),
            t == zip_names(c),
            c == catalog_view(cat@),
            mcmeta@ == "pack.mcmeta"@,
        decreases names@.len() - i,
    {
        let ghost s = t.skip(i as int);
        assert(s[0] == names@[i as int]@);
        assert(s.drop_first() =~= t.skip(i + 1));
        let n = names[i].as_slice();
        if ends_with(n, mcmeta.as_slice()) {
            let prefix = trim_suffix_all_exec(n, mcmeta.as_slice());
            if zip_layer_has_assets(names.as_slice(), prefix.as_slice()) {
                match opened_index_exec(cat.as_slice(), n) {
                    Some(k) => match zip_read(bytes, k) {
                        Some(d) => {
                            return Some(d);
                        },
                        None => {},
                    },
                    None => {},
                }
            }
        }
        i = i + 1;
    }
    None
}

/// The mcmeta of the first core found in the folder `n` (a folder with
/// `assets` and a `pack.mcmeta` file, or a zip file with one); the search
/// stops at such a folder even when its mcmeta cannot be read.
pub open spec fn core_mcmeta_fs(n: FsNode, depth: int) -> Option<Seq<u8>>
    decreases n, 1int, 0int,
{
    if depth > 10 {
        None
    } else {
        match core_mcmeta_from(n, depth, 0) {
            Some(x) => x,
            None => None,
        }
    }
}

/// `Some(result)` when the search over the entries from `i` on stops with
/// `result`; `None` when it runs out of entries.
pub open spec fn core_mcmeta_from(n: FsNode, depth: int, i: int) -> Option<Option<Seq<u8>>>
    decreases n, 0int, n.kids().len() - i,
{
    if i < 0 || i >= n.kids().len() || depth > 10 {
        None
    } else {
        let kid = n.kids()[i];
        let here: Option<Option<Seq<u8>>> = if junk_name(kid.name_of()) {
            None
        } else if kid is Dir {
            if dir_at(kid, seq!["assets"@]) {
                if file_at(kid, seq!["pack.mcmeta"@]) {
                    Some(
                        match node_at(kid, seq!["pack.mcmeta"@]) {
                            Some(f) => file_bytes(f),
                            None => None,
                        },
                    )
                } else {
                    None
                }
            } else {
                proof {
                    lemma_kid_decreases(n, i);
                }
                match core_mcmeta_fs(kid, depth + 1) {
                    Some(b) => Some(Some(b)),
                    None => None,
                }
            }
        } else {
            match file_bytes(kid) {
                Some(b) => if starts_pk(b) {
                    match zip_judgment_mcmeta(b) {
                        Some(m) => Some(Some(m)),
                        None => None,
                    }
                } else {
                    None
                },
                None => None,
            }
        };
        match here {
            Some(x) => Some(x),
            None => core_mcmeta_from(n, depth, i + 1),
        }
    }
}

fn node_bytes(k: &FsNode) -> (r: Option<Vec<u8>>)
    ensures
        match r {
            Some(v) => file_bytes(*k) == Some(v@),
            None => file_bytes(*k) is None,
        },
{
    match k {
        FsNode::File { data, .. } => match data {
            Some(b) => Some(crate::text::copy_bytes(b.as_slice())),
            None => None,
        },
        FsNode::Dir { .. } => None,
    }
}

/// The mcmeta of the first core found in the folder `n`.
pub fn find_fs_core_mcmeta(n: &FsNode, child_depth: usize) -> (r: Option<Vec<u8>>)
    requires
        child_depth <= 11,
    ensures
        match r {
            Some(v) => core_mcmeta_fs(*n, child_depth as int) == Some(v@),
            None => core_mcmeta_fs(*n, child_depth as int) is None,
        },
    decreases *n,
{
    if child_depth > MAX_NESTING_DEPTH {
        return None;
    }
    match n {
        FsNode::File { .. } => None,
        FsNode::Dir { children, .. } => {
            let assets = one_part("assets");
            let mcmeta = one_part("pack.mcmeta");
            let mut i: usize = 0;
            while i < children.len()
                invariant
                    0 <= i <= children@.len(),
                    n.kids() == children@,
                    child_depth <= 10,
                    crate::layout::texts(assets@) == seq!["assets"@],
                    crate::layout::texts(mcmeta@) == seq!["pack.mcmeta"@],
                    core_mcmeta_fs(*n, child_depth as int) == (match core_mcmeta_from(*n, child_depth as int, i as int) {
                        Some(x) => x,
                        None => None,
                    }),
                decreases children@.len() - i,
            {
                let k = &children[i];
                proof {
                    lemma_kid_decreases(*n, i as int);
                }
                if !is_junk_name(k.name().as_str()) {
                    match k {
                        FsNode::Dir { .. } => {
                            if is_dir_at(k, assets.as_slice()) {
                                match find_node(k, mcmeta.as_slice()) {
                                    Some(f) => match f {
                                        FsNode::File { .. } => {
                                            return node_bytes(f);
                                        },
                                        FsNode::Dir { .. } => {},
                                    },
                                    None => {},
                                }
                            } else {
                                match find_fs_core_mcmeta(k, child_depth + 1) {
                                    Some(b) => {
                                        return Some(b);
                                    },
                                    None => {},
                                }
                            }
                        },
                        FsNode::File { data, .. } => {
                            match data {
                                Some(b) => {
                                    if starts_with_pk(b.as_slice()) {
                                        match zip_judgment_mcmeta_exec(b.as_slice()) {
                                            Some(m) => {
                                                return Some(m);
                                            },
                                            None => {},
                                        }
                                    }
                                },
                                None => {},
                            }
                        },
                    }
                }
                i = i + 1;
            }
            None
        },
    }
}

/// The mcmeta a Lunar judgment reads: a folder's root `pack.mcmeta`, else
/// that of its first nested core; for a zip file, its judgment mcmeta.
pub open spec fn judgment_mcmeta(n: FsNode) -> Option<Seq<u8>> {
    match n {
        FsNode::Dir { .. } => if file_at(n, seq!["pack.mcmeta"@]) {
            match node_at(n, seq!["pack.mcmeta"@]) {
                Some(f) => file_bytes(f),
                None => None,
            }
        } else {
            core_mcmeta_fs(n, 1)
        },
        FsNode::File { .. } => match file_bytes(n) {
            Some(b) => zip_judgment_mcmeta(b),
            None => None,
        },
    }
}

pub fn read_judgment_mcmeta(n: &FsNode) -> (r: Option<Vec<u8>>)
    ensures
        match r {
            Some(v) => judgment_mcmeta(*n) == Some(v@),
            None => judgment_mcmeta(*n) is None,
        },
{
    match n {
        FsNode::Dir { .. } => {
            match find_node(n, one_part("pack.mcmeta").as_slice()) {
                Some(f) => match f {
                    FsNode::File { .. } => {
                        return node_bytes(f);
                    },
                    FsNode::Dir { .. } => {},
                },
                None => {},
            }
            find_fs_core_mcmeta(n, 1)
        },
        FsNode::File { data, .. } => match data {
            Some(b) => zip_judgment_mcmeta_exec(b.as_slice()),
            None => None,
        },
    }
}

} // verus!
