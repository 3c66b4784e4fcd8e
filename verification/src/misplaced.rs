//! Containers misplaced inside a pack's root (zips, archives, folders holding
//! cores) that are separated out when the pack is rebuilt.
use vstd::prelude::*;
use crate::archive::{
    by_name_data, catalog_names, catalog_view, decode_entry_name, decode_name, depth_left,
    read_by_name, zip_catalog, zip_catalog_of, zip_names, zip_read, zip_entry_data_of, CatalogView,
    ZipEntry, MAX_NESTING_DEPTH,
};
use crate::folder::{contains_core, folder_contains_core};
use crate::fs::{file_bytes, FsNode};
use crate::layout::{
    any_prefixed, any_starts_with, child_files, container_payload, is_container_payload, join,
    sorted_child_dirs, starts_pk, starts_with_pk, texts, zip_child_dirs, zip_child_files,
    zip_layer_has_assets, layer_has_assets, strip,
};
use crate::names::{is_junk_chars, is_junk_name, is_mcmeta_variant, is_png_variant, junk_name, mcmeta_variant, png_variant};
use crate::outcome::slashed;
use crate::text::{chars_of, copy_bytes, copy_chars, has_char, is_prefix, seq_eq, string_of};

verus! {

/// A core lies at or below `prefix` of a zip, in folders or embedded zips,
/// counting from `depth`.
pub open spec fn prefix_core(bytes: Seq<u8>, cat: CatalogView, names: Seq<Seq<char>>, prefix: Seq<char>, depth: int) -> bool
    decreases depth_left(depth), 2int, 0int,
{
    if depth > 10 {
        false
    } else {
        layer_has_assets(names, prefix) || prefix_core_dirs(bytes, cat, names, prefix, depth, sorted_child_dirs(names, prefix))
            || prefix_core_files(bytes, cat, names, prefix, depth, child_files(names, prefix))
    }
}

pub open spec fn prefix_core_dirs(bytes: Seq<u8>, cat: CatalogView, names: Seq<Seq<char>>, prefix: Seq<char>, depth: int, dirs: Seq<Seq<char>>) -> bool
    decreases depth_left(depth), 1int, dirs.len(),
{
    if dirs.len() == 0 || depth > 10 {
        false
    } else {
        prefix_core_dirs(bytes, cat, names, prefix, depth, dirs.drop_last()) || prefix_core(
            bytes,
            cat,
            names,
            prefix + dirs.last() + "/"@,
            depth + 1,
        )
    }
}

pub open spec fn prefix_core_files(bytes: Seq<u8>, cat: CatalogView, names: Seq<Seq<char>>, prefix: Seq<char>, depth: int, files: Seq<Seq<char>>) -> bool
    decreases depth_left(depth), 1int, files.len(),
{
    if files.len() == 0 || depth > 10 {
        false
    } else {
        prefix_core_files(bytes, cat, names, prefix, depth, files.drop_last()) || inner_core(
            by_name_data(bytes, cat, prefix + files.last()),
            depth,
        )
    }
}

pub open spec fn inner_core(data: Option<Seq<u8>>, depth: int) -> bool
    decreases depth_left(depth), 0int, 0int,
{
    match data {
        Some(d) => starts_pk(d) && depth <= 10 && match zip_catalog_of(d) {
            Some(ic) => prefix_core(d, ic, zip_names(ic), Seq::<char>::empty(), depth + 1),
            None => false,
        },
        None => false,
    }
}

proof fn lemma_dirs_grow(bytes: Seq<u8>, cat: CatalogView, names: Seq<Seq<char>>, prefix: Seq<char>, depth: int, dirs: Seq<Seq<char>>, i: int)
    requires
        0 <= i <= dirs.len(),
        prefix_core_dirs(bytes, cat, names, prefix, depth, dirs.take(i)),
    ensures
        prefix_core_dirs(bytes, cat, names, prefix, depth, dirs),
    decreases dirs.len() - i,
{
    if i < dirs.len() {
        assert(dirs.take(i + 1).drop_last() =~= dirs.take(i));
        lemma_dirs_grow(bytes, cat, names, prefix, depth, dirs, i + 1);
    } else {
        assert(dirs.take(i) =~= dirs);
    }
}

proof fn lemma_files_grow(bytes: Seq<u8>, cat: CatalogView, names: Seq<Seq<char>>, prefix: Seq<char>, depth: int, files: Seq<Seq<char>>, i: int)
    requires
        0 <= i <= files.len(),
        prefix_core_files(bytes, cat, names, prefix, depth, files.take(i)),
    ensures
        prefix_core_files(bytes, cat, names, prefix, depth, files),
    decreases files.len() - i,
{
    if i < files.len() {
        assert(files.take(i + 1).drop_last() =~= files.take(i));
        lemma_files_grow(bytes, cat, names, prefix, depth, files, i + 1);
    } else {
        assert(files.take(i) =~= files);
    }
}

/// Whether a core lies at or below `prefix` of the zip.
pub fn zip_prefix_contains_core(bytes: &[u8], cat: &Vec<ZipEntry>, names: &Vec<Vec<char>>, prefix: &[char], depth: usize) -> (r: bool)
    requires
        depth <= 11,
    ensures
        r == prefix_core(bytes@, catalog_view(cat@), texts(names@), prefix@, depth as int),
    decreases depth_left(depth as int),
{
    if depth > MAX_NESTING_DEPTH {
        return false;
    }
    let ghost c = catalog_view(cat@);
    let ghost t = texts(names@);
    if zip_layer_has_assets(names.as_slice(), prefix) {
        return true;
    }
    let dirs = zip_child_dirs(names.as_slice(), prefix);
    let ghost dt = texts(dirs@);
    let mut i: usize = 0;
    assert(dt.take(0) =~= Seq::<Seq<char>>::empty());
    while i < dirs.len()
        invariant
            0 <= i <= dirs@.len(),
            depth <= 10,
            dt == texts(dirs@),
            dt == sorted_child_dirs(t, prefix@),
            c == catalog_view(cat@),
            t == texts(names@),
            !prefix_core_dirs(bytes@, c, t, prefix@, depth as int, dt.take(i as int)),
        decreases dirs@.len() - i,
    {
        assert(dt.take(i + 1).drop_last() =~= dt.take(i as int));
        assert(dt.take(i + 1).last() == dirs@[i as int]@);
        let layer = join(join(prefix, dirs[i].as_slice()).as_slice(), chars_of("/").as_slice());
        if zip_prefix_contains_core(bytes, cat, names, layer.as_slice(), depth + 1) {
            proof {
                lemma_dirs_grow(bytes@, c, t, prefix@, depth as int, dt, i + 1);
            }
            return true;
        }
        i = i + 1;
    }
    assert(dt.take(dirs@.len() as int) =~= dt);
    let files = zip_child_files(names.as_slice(), prefix);
    let ghost ft = texts(files@);
    let mut j: usize = 0;
    assert(ft.take(0) =~= Seq::<Seq<char>>::empty());
    while j < files.len()
        invariant
            0 <= j <= files@.len(),
            depth <= 10,
            ft == texts(files@),
            ft == child_files(t, prefix@),
            c == catalog_view(cat@),
            t == texts(names@),
            !prefix_core_files(bytes@, c, t, prefix@, depth as int, ft.take(j as int)),
        decreases files@.len() - j,
    {
        assert(ft.take(j + 1).drop_last() =~= ft.take(j as int));
        assert(ft.take(j + 1).last() == files@[j as int]@);
        let full = join(prefix, files[j].as_slice());
        let ghost x = inner_core(by_name_data(bytes@, c, prefix@ + ft[j as int]), depth as int);
        assert(prefix_core_files(bytes@, c, t, prefix@, depth as int, ft.take(j + 1)) == (prefix_core_files(
            bytes@,
            c,
            t,
            prefix@,
            depth as int,
            ft.take(j as int),
        ) || x));
        let hit = match read_by_name(bytes, cat.as_slice(), full.as_slice()) {
            Some(d) => {
                if starts_with_pk(d.as_slice()) {
                    match zip_catalog(d.as_slice()) {
                        Some(icat) => {
                            let inames = catalog_names(icat.as_slice());
                            let root: Vec<char> = Vec::new();
                            assert(root@ =~= Seq::<char>::empty());
                            zip_prefix_contains_core(d.as_slice(), &icat, &inames, root.as_slice(), depth + 1)
                        },
                        None => false,
                    }
                } else {
                    false
                }
            },
            None => false,
        };
        assert(hit == x);
        if hit {
            proof {
                lemma_files_grow(bytes@, c, t, prefix@, depth as int, ft, j + 1);
            }
            return true;
        }
        j = j + 1;
    }
    assert(ft.take(files@.len() as int) =~= ft);
    false
}

/// What a root entry of a folder pack is, for separation: considered at all
/// (not junk, not the core), and a container when it is one.
pub open spec fn dir_considered(k: FsNode) -> bool {
    !junk_name(k.name_of()) && k.name_of() != "assets"@ && k.name_of() != "pack.mcmeta"@
}

/// Indices of the misplaced containers among the first `i` entries of a
/// folder pack: folders with a core below them and container files; `None`
/// when a file there cannot be read.
pub open spec fn misplaced_dir_upto(n: FsNode, i: int) -> Option<Seq<int>>
    decreases i,
{
    if i <= 0 || i > n.kids().len() {
        Some(Seq::<int>::empty())
    } else {
        match misplaced_dir_upto(n, i - 1) {
            None => None,
            Some(r) => {
                let k = n.kids()[i - 1];
                if !dir_considered(k) {
                    Some(r)
                } else if k is Dir {
                    if contains_core(k, 1) {
                        Some(r.push(i - 1))
                    } else {
                        Some(r)
                    }
                } else {
                    match file_bytes(k) {
                        None => None,
                        Some(b) => if container_payload(k.name_of(), b) {
                            Some(r.push(i - 1))
                        } else {
                            Some(r)
                        },
                    }
                }
            },
        }
    }
}

proof fn lemma_dir_stays_none(n: FsNode, i: int, j: int)
    requires
        0 < i <= j <= n.kids().len(),
        misplaced_dir_upto(n, i) is None,
    ensures
        misplaced_dir_upto(n, j) is None,
    decreases j - i,
{
    if i < j {
        lemma_dir_stays_none(n, i, j - 1);
    }
}

/// Indices of the misplaced containers in a folder pack's root.
pub fn misplaced_in_folder(n: &FsNode) -> (r: Option<Vec<usize>>)
    ensures
        match r {
            Some(v) => misplaced_dir_upto(*n, n.kids().len() as int) == Some(v@.map_values(|i: usize| i as int)),
            None => misplaced_dir_upto(*n, n.kids().len() as int) is None,
        },
{
    let mut out: Vec<usize> = Vec::new();
    match n {
        FsNode::File { .. } => {
            assert(out@.map_values(|i: usize| i as int) =~= Seq::<int>::empty());
            Some(out)
        },
        FsNode::Dir { children, .. } => {
            let mut i: usize = 0;
            assert(out@.map_values(|x: usize| x as int) =~= Seq::<int>::empty());
            while i < children.len()
                invariant
                    0 <= i <= children@.len(),
                    n.kids() == children@,
                    misplaced_dir_upto(*n, i as int) == Some(out@.map_values(|x: usize| x as int)),
                decreases children@.len() - i,
            {
                let k = &children[i];
                let name = k.name();
                let nm = chars_of(name.as_str());
                let considered = !is_junk_name(name.as_str()) && !seq_eq(nm.as_slice(), chars_of("assets").as_slice())
                    && !seq_eq(nm.as_slice(), chars_of("pack.mcmeta").as_slice());
                if considered {
                    match k {
                        FsNode::Dir { .. } => {
                            if folder_contains_core(k, 1) {
                                out.push(i);
                            }
                        },
                        FsNode::File { data, .. } => match data {
                            None => {
                                proof {
                                    lemma_dir_stays_none(*n, i as int + 1, n.kids().len() as int);
                                }
                                return None;
                            },
                            Some(b) => {
                                if is_container_payload(nm.as_slice(), b.as_slice()) {
                                    out.push(i);
                                }
                            },
                        },
                    }
                }
                i = i + 1;
                assert(misplaced_dir_upto(*n, i as int) == Some(out@.map_values(|x: usize| x as int)));
            }
            Some(out)
        },
    }
}

/// The raw header of an entry that `by_index` opens.
pub open spec fn opened_raw(e: (Seq<char>, Option<(Seq<u8>, bool, bool)>, Option<u64>)) -> Option<(Seq<u8>, bool, bool)> {
    match (e.1, e.2) {
        (Some(r), Some(_)) => Some(r),
        _ => None,
    }
}

/// Every entry opens.
pub open spec fn all_open(cat: CatalogView) -> bool {
    forall|i: int| 0 <= i < cat.len() ==> opened_raw(#[trigger] cat[i]) is Some
}

/// An entry's name decoded, with `\` read as `/`.
pub open spec fn fixed_name(raw: (Seq<u8>, bool, bool)) -> Seq<char> {
    slashed(decode_name(raw.0))
}

/// The decoded names of the first `k` entries that open.
pub open spec fn fixed_names_upto(cat: CatalogView, k: int) -> Seq<Seq<char>>
    decreases k,
{
    if k <= 0 || k > cat.len() {
        Seq::<Seq<char>>::empty()
    } else {
        match opened_raw(cat[k - 1]) {
            Some(raw) => fixed_names_upto(cat, k - 1).push(fixed_name(raw)),
            None => fixed_names_upto(cat, k - 1),
        }
    }
}

/// The files below `prefix` among the first `k` entries, paths taken
/// relative to it, with their contents; `None` when an entry does not open
/// or such a file does not read.
pub open spec fn folder_entries_upto(bytes: Seq<u8>, cat: CatalogView, prefix: Seq<char>, k: int) -> Option<Seq<(Seq<char>, Seq<u8>)>>
    decreases k,
{
    if k <= 0 || k > cat.len() {
        Some(Seq::<(Seq<char>, Seq<u8>)>::empty())
    } else {
        match folder_entries_upto(bytes, cat, prefix, k - 1) {
            None => None,
            Some(r) => match opened_raw(cat[k - 1]) {
                None => None,
                Some(raw) => if !raw.1 {
                    Some(r)
                } else {
                    let d = fixed_name(raw);
                    if is_prefix(prefix, d) && d.len() > prefix.len() {
                        match zip_entry_data_of(bytes, k - 1) {
                            None => None,
                            Some(data) => Some(r.push((d.skip(prefix.len() as int), data))),
                        }
                    } else {
                        Some(r)
                    }
                },
            },
        }
    }
}

pub open spec fn pairs_view(v: Seq<(String, Vec<u8>)>) -> Seq<(Seq<char>, Seq<u8>)> {
    v.map_values(|p: (String, Vec<u8>)| (p.0@, p.1@))
}

pub(crate) fn slash_fixed(s: &[char]) -> (r: Vec<char>)
    ensures
        r@ == slashed(s@),
{
    let mut out: Vec<char> = Vec::new();
    let mut i: usize = 0;
    while i < s.len()
        invariant
            0 <= i <= s@.len(),
            out@ == slashed(s@).take(i as int),
        decreases s@.len() - i,
    {
        let c = s[i];
        out.push(if c == '\\' {
            '/'
        } else {
            c
        });
        i = i + 1;
        assert(out@ =~= slashed(s@).take(i as int));
    }
    assert(slashed(s@).take(s@.len() as int) =~= slashed(s@));
    out
}

proof fn lemma_folder_stays_none(bytes: Seq<u8>, cat: CatalogView, prefix: Seq<char>, i: int, j: int)
    requires
        0 < i <= j <= cat.len(),
        folder_entries_upto(bytes, cat, prefix, i) is None,
    ensures
        folder_entries_upto(bytes, cat, prefix, j) is None,
    decreases j - i,
{
    if i < j {
        lemma_folder_stays_none(bytes, cat, prefix, i, j - 1);
    }
}

/// The files below `prefix` of a zip, relative to it, with their contents.
pub fn read_zip_folder_entries(bytes: &[u8], cat: &Vec<ZipEntry>, prefix: &[char]) -> (r: Option<Vec<(String, Vec<u8>)>>)
    ensures
        match r {
            Some(v) => folder_entries_upto(bytes@, catalog_view(cat@), prefix@, cat@.len() as int) == Some(pairs_view(v@)),
            None => folder_entries_upto(bytes@, catalog_view(cat@), prefix@, cat@.len() as int) is None,
        },
{
    let ghost c = catalog_view(cat@);
    let mut out: Vec<(String, Vec<u8>)> = Vec::new();
    let mut i: usize = 0;
    assert(pairs_view(out@) =~= Seq::<(Seq<char>, Seq<u8>)>::empty());
    while i < cat.len()
        invariant
            0 <= i <= cat@.len(),
            c == catalog_view(cat@),
            folder_entries_upto(bytes@, c, prefix@, i as int) == Some(pairs_view(out@)),
        decreases cat@.len() - i,
    {
        assert(c[i as int] == crate::archive::entry_view(cat@[i as int]));
        let e = &cat[i];
        let raw = match (&e.raw, &e.size) {
            (Some(raw), Some(_)) => raw,
            _ => {
                proof {
                    lemma_folder_stays_none(bytes@, c, prefix@, i as int + 1, cat@.len() as int);
                }
                return None;
            },
        };
        if raw.is_file {
            let d = slash_fixed(decode_entry_name(raw.name_raw.as_slice()).as_slice());
            if d.len() > prefix.len() {
                match strip(d.as_slice(), prefix) {
                    Some(rel) => {
                        match zip_read(bytes, i) {
                            None => {
                                proof {
                                    lemma_folder_stays_none(bytes@, c, prefix@, i as int + 1, cat@.len() as int);
                                }
                                return None;
                            },
                            Some(data) => {
                                let ghost before = pairs_view(out@);
                                let ghost pv = (rel@, data@);
                                out.push((string_of(rel.as_slice()), data));
                                assert(pairs_view(out@) =~= before.push(pv));
                            },
                        }
                    },
                    None => {},
                }
            }
        }
        i = i + 1;
    }
    Some(out)
}

/// A root file of a zip pack that is considered for separation: not junk,
/// not a core file, not a rescuable typo of one.
pub open spec fn root_file_considered(d: Seq<char>) -> bool {
    !d.contains('/') && !junk_name(d) && d != "pack.mcmeta"@ && d != "pack.png"@ && !mcmeta_variant(d) && !png_variant(d)
}

/// The container files at the root of a zip pack among the first `k`
/// entries, with their contents; `None` when one of them does not read.
pub open spec fn root_containers_upto(bytes: Seq<u8>, cat: CatalogView, k: int) -> Option<Seq<(Seq<char>, Seq<u8>)>>
    decreases k,
{
    if k <= 0 || k > cat.len() {
        Some(Seq::<(Seq<char>, Seq<u8>)>::empty())
    } else {
        match root_containers_upto(bytes, cat, k - 1) {
            None => None,
            Some(r) => match opened_raw(cat[k - 1]) {
                None => Some(r),
                Some(raw) => {
                    let d = fixed_name(raw);
                    if !root_file_considered(d) {
                        Some(r)
                    } else {
                        match zip_entry_data_of(bytes, k - 1) {
                            None => None,
                            Some(data) => if container_payload(d, data) {
                                Some(r.push((d, data)))
                            } else {
                                Some(r)
                            },
                        }
                    }
                },
            },
        }
    }
}

/// The root folders of a zip pack: its child folders other than `assets`.
pub open spec fn root_folders(names: Seq<Seq<char>>) -> Seq<Seq<char>> {
    without_assets(sorted_child_dirs(names, Seq::<char>::empty()))
}

/// The folders other than `assets`, in order.
pub open spec fn without_assets(dirs: Seq<Seq<char>>) -> Seq<Seq<char>>
    decreases dirs.len(),
{
    if dirs.len() == 0 {
        Seq::<Seq<char>>::empty()
    } else if dirs.last() == "assets"@ {
        without_assets(dirs.drop_last())
    } else {
        without_assets(dirs.drop_last()).push(dirs.last())
    }
}

/// The root folders among the first `k` that hold a core, with their files;
/// `None` when such a folder's files do not read.
pub open spec fn core_folders_upto(bytes: Seq<u8>, cat: CatalogView, names: Seq<Seq<char>>, dirs: Seq<Seq<char>>, k: int) -> Option<Seq<(Seq<char>, Seq<(Seq<char>, Seq<u8>)>)>>
    decreases k,
{
    if k <= 0 || k > dirs.len() {
        Some(Seq::<(Seq<char>, Seq<(Seq<char>, Seq<u8>)>)>::empty())
    } else {
        match core_folders_upto(bytes, cat, names, dirs, k - 1) {
            None => None,
            Some(r) => {
                let p = dirs[k - 1] + "/"@;
                if prefix_core(bytes, cat, names, p, 1) {
                    match folder_entries_upto(bytes, cat, p, cat.len() as int) {
                        None => None,
                        Some(es) => Some(r.push((dirs[k - 1], es))),
                    }
                } else {
                    Some(r)
                }
            },
        }
    }
}

/// The containers misplaced in a zip pack: its container files and its
/// folders that hold cores. `None` when the zip does not open, an entry does
/// not open, or a needed file does not read.
pub open spec fn misplaced_zip(bytes: Seq<u8>) -> Option<(Seq<(Seq<char>, Seq<u8>)>, Seq<(Seq<char>, Seq<(Seq<char>, Seq<u8>)>)>)> {
    match zip_catalog_of(bytes) {
        None => None,
        Some(cat) => if !all_open(cat) {
            None
        } else {
            let names = fixed_names_upto(cat, cat.len() as int);
            match root_containers_upto(bytes, cat, cat.len() as int) {
                None => None,
                Some(files) => {
                    let dirs = root_folders(names);
                    match core_folders_upto(bytes, cat, names, dirs, dirs.len() as int) {
                        None => None,
                        Some(folders) => Some((files, folders)),
                    }
                },
            }
        },
    }
}

/// The containers misplaced in a zip pack.
pub struct ZipMisplaced {
    pub files: Vec<(String, Vec<u8>)>,
    pub folders: Vec<(String, Vec<(String, Vec<u8>)>)>,
}

pub open spec fn folders_view(v: Seq<(String, Vec<(String, Vec<u8>)>)>) -> Seq<(Seq<char>, Seq<(Seq<char>, Seq<u8>)>)> {
    v.map_values(|p: (String, Vec<(String, Vec<u8>)>)| (p.0@, pairs_view(p.1@)))
}

proof fn lemma_root_stays_none(bytes: Seq<u8>, cat: CatalogView, i: int, j: int)
    requires
        0 < i <= j <= cat.len(),
        root_containers_upto(bytes, cat, i) is None,
    ensures
        root_containers_upto(bytes, cat, j) is None,
    decreases j - i,
{
    if i < j {
        lemma_root_stays_none(bytes, cat, i, j - 1);
    }
}

proof fn lemma_folders_stays_none(bytes: Seq<u8>, cat: CatalogView, names: Seq<Seq<char>>, dirs: Seq<Seq<char>>, i: int, j: int)
    requires
        0 < i <= j <= dirs.len(),
        core_folders_upto(bytes, cat, names, dirs, i) is None,
    ensures
        core_folders_upto(bytes, cat, names, dirs, j) is None,
    decreases j - i,
{
    if i < j {
        lemma_folders_stays_none(bytes, cat, names, dirs, i, j - 1);
    }
}

fn is_root_file_considered(d: &[char]) -> (r: bool)
    ensures
        r == root_file_considered(d@),
{
    !has_char(d, '/') && !is_junk_chars(d) && !seq_eq(d, chars_of("pack.mcmeta").as_slice()) && !seq_eq(
        d,
        chars_of("pack.png").as_slice(),
    ) && !is_mcmeta_variant(d) && !is_png_variant(d)
}

/// The containers misplaced in a zip pack.
pub fn misplaced_in_zip(bytes: &[u8]) -> (r: Option<ZipMisplaced>)
    ensures
        match r {
            Some(m) => misplaced_zip(bytes@) == Some((pairs_view(m.files@), folders_view(m.folders@))),
            None => misplaced_zip(bytes@) is None,
        },
{
    let cat = match zip_catalog(bytes) {
        Some(c) => c,
        None => {
            return None;
        },
    };
    let ghost c = catalog_view(cat@);
    let mut names: Vec<Vec<char>> = Vec::new();
    let mut i: usize = 0;
    while i < cat.len()
        invariant
            0 <= i <= cat@.len(),
            c == catalog_view(cat@),
            zip_catalog_of(bytes@) == Some(c),
            forall|k: int| 0 <= k < i ==> opened_raw(#[trigger] c[k]) is Some,
            texts(names@) == fixed_names_upto(c, i as int),
        decreases cat@.len() - i,
    {
        assert(c[i as int] == crate::archive::entry_view(cat@[i as int]));
        match (&cat[i].raw, &cat[i].size) {
            (Some(raw), Some(_)) => {
                let d = slash_fixed(decode_entry_name(raw.name_raw.as_slice()).as_slice());
                let ghost before = texts(names@);
                names.push(d);
                assert(texts(names@) =~= before.push(d@));
            },
            _ => {
                assert(!all_open(c));
                return None;
            },
        }
        i = i + 1;
    }
    assert(all_open(c));
    let mut files: Vec<(String, Vec<u8>)> = Vec::new();
    let mut j: usize = 0;
    assert(pairs_view(files@) =~= Seq::<(Seq<char>, Seq<u8>)>::empty());
    while j < cat.len()
        invariant
            0 <= j <= cat@.len(),
            c == catalog_view(cat@),
            zip_catalog_of(bytes@) == Some(c),
            all_open(c),
            texts(names@) == fixed_names_upto(c, cat@.len() as int),
            root_containers_upto(bytes@, c, j as int) == Some(pairs_view(files@)),
        decreases cat@.len() - j,
    {
        assert(c[j as int] == crate::archive::entry_view(cat@[j as int]));
        assert(opened_raw(c[j as int]) is Some);
        match &cat[j].raw {
            Some(raw) => {
                let d = slash_fixed(decode_entry_name(raw.name_raw.as_slice()).as_slice());
                if is_root_file_considered(d.as_slice()) {
                    match zip_read(bytes, j) {
                        None => {
                            proof {
                                lemma_root_stays_none(bytes@, c, j as int + 1, cat@.len() as int);
                            }
                            return None;
                        },
                        Some(data) => {
                            if is_container_payload(d.as_slice(), data.as_slice()) {
                                let ghost before = pairs_view(files@);
                                let ghost pv = (d@, data@);
                                files.push((string_of(d.as_slice()), data));
                                assert(pairs_view(files@) =~= before.push(pv));
                            }
                        },
                    }
                }
            },
            None => {},
        }
        j = j + 1;
    }
    let root: Vec<char> = Vec::new();
    assert(root@ =~= Seq::<char>::empty());
    let all_dirs = zip_child_dirs(names.as_slice(), root.as_slice());
    let mut dirs: Vec<Vec<char>> = Vec::new();
    let mut m: usize = 0;
    let ghost ad = texts(all_dirs@);
    assert(without_assets(ad.take(0)) =~= Seq::<Seq<char>>::empty());
    while m < all_dirs.len()
        invariant
            0 <= m <= all_dirs@.len(),
            ad == texts(all_dirs@),
            texts(dirs@) == without_assets(ad.take(m as int)),
        decreases all_dirs@.len() - m,
    {
        assert(ad.take(m + 1).drop_last() =~= ad.take(m as int));
        assert(ad.take(m + 1).last() == all_dirs@[m as int]@);
        if !seq_eq(all_dirs[m].as_slice(), chars_of("assets").as_slice()) {
            let ghost before = texts(dirs@);
            let cc = copy_chars(all_dirs[m].as_slice());
            dirs.push(cc);
            assert(texts(dirs@) =~= before.push(cc@));
        }
        m = m + 1;
    }
    assert(ad.take(all_dirs@.len() as int) =~= ad);
    assert(texts(dirs@) == root_folders(texts(names@)));
    let ghost dt = texts(dirs@);
    let ghost nt = texts(names@);
    let mut folders: Vec<(String, Vec<(String, Vec<u8>)>)> = Vec::new();
    let mut k: usize = 0;
    assert(folders_view(folders@) =~= Seq::<(Seq<char>, Seq<(Seq<char>, Seq<u8>)>)>::empty());
    while k < dirs.len()
        invariant
            0 <= k <= dirs@.len(),
            c == catalog_view(cat@),
            zip_catalog_of(bytes@) == Some(c),
            all_open(c),
            nt == fixed_names_upto(c, c.len() as int),
            root_containers_upto(bytes@, c, c.len() as int) == Some(pairs_view(files@)),
            dt == root_folders(nt),
            dt == texts(dirs@),
            nt == texts(names@),
            core_folders_upto(bytes@, c, nt, dt, k as int) == Some(folders_view(folders@)),
        decreases dirs@.len() - k,
    {
        let p = join(dirs[k].as_slice(), chars_of("/").as_slice());
        assert(dt[k as int] == dirs@[k as int]@);
        if zip_prefix_contains_core(bytes, &cat, &names, p.as_slice(), 1) {
            match read_zip_folder_entries(bytes, &cat, p.as_slice()) {
                None => {
                    proof {
                        lemma_folders_stays_none(bytes@, c, nt, dt, k as int + 1, dirs@.len() as int);
                    }
                    return None;
                },
                Some(es) => {
                    let ghost before = folders_view(folders@);
                    let ghost fv = (dirs@[k as int]@, pairs_view(es@));
                    folders.push((string_of(dirs[k].as_slice()), es));
                    assert(folders_view(folders@) =~= before.push(fv));
                },
            }
        }
        k = k + 1;
    }
    Some(ZipMisplaced { files, folders })
}

/// The containers misplaced in a pack, as a folder (child indices) or as a
/// zip file.
pub enum Misplaced {
    InFolder(Vec<usize>),
    InZip(ZipMisplaced),
}

/// The containers misplaced in a pack set aside for repair; `None` when a
/// needed file cannot be read or the zip cannot be opened.
pub fn collect_misplaced_containers(n: &FsNode) -> (r: Option<Misplaced>)
    ensures
        match r {
            Some(Misplaced::InFolder(v)) => n is Dir && misplaced_dir_upto(*n, n.kids().len() as int) == Some(
                v@.map_values(|i: usize| i as int),
            ),
            Some(Misplaced::InZip(m)) => n is File && (file_bytes(*n) matches Some(b) && misplaced_zip(b) == Some(
                (pairs_view(m.files@), folders_view(m.folders@)),
            )),
            None => if n is Dir {
                misplaced_dir_upto(*n, n.kids().len() as int) is None
            } else {
                match file_bytes(*n) {
                    Some(b) => misplaced_zip(b) is None,
                    None => true,
                }
            },
        },
{
    match n {
        FsNode::Dir { .. } => match misplaced_in_folder(n) {
            Some(v) => Some(Misplaced::InFolder(v)),
            None => None,
        },
        FsNode::File { data, .. } => match data {
            Some(b) => match misplaced_in_zip(b.as_slice()) {
                Some(m) => Some(Misplaced::InZip(m)),
                None => None,
            },
            None => None,
        },
    }
}

/// The components a zip entry is written to below an extraction folder:
/// empty and `.` components dropped, each kept one named safely; `None` when
/// a `..` component would leave the folder.
pub open spec fn safe_parts(comps: Seq<Seq<char>>) -> Option<Seq<Seq<char>>>
    decreases comps.len(),
{
    if comps.len() == 0 {
        Some(Seq::<Seq<char>>::empty())
    } else {
        match safe_parts(comps.drop_last()) {
            None => None,
            Some(r) => {
                let c = comps.last();
                if c.len() == 0 || c == "."@ {
                    Some(r)
                } else if c == ".."@ {
                    None
                } else {
                    Some(r.push(crate::names::sanitized(c)))
                }
            },
        }
    }
}

proof fn lemma_safe_stays_none(comps: Seq<Seq<char>>, i: int, j: int)
    requires
        0 < i <= j <= comps.len(),
        safe_parts(comps.take(i)) is None,
    ensures
        safe_parts(comps.take(j)) is None,
    decreases j - i,
{
    if i < j {
        lemma_safe_stays_none(comps, i, j - 1);
        assert(comps.take(j).drop_last() =~= comps.take(j - 1));
    }
}

/// Where an entry named `name` (with `/` separators) is written below an
/// extraction folder; `None` when its path climbs out.
pub fn safe_relative_path(name: &[char]) -> (r: Option<Vec<Vec<char>>>)
    ensures
        match r {
            Some(v) => safe_parts(crate::text::split(name@, '/')) == Some(texts(v@)),
            None => safe_parts(crate::text::split(name@, '/')) is None,
        },
{
    let parts = crate::text::split_vec(name, '/');
    let ghost sp = crate::text::split(name@, '/');
    let mut out: Vec<Vec<char>> = Vec::new();
    let mut i: usize = 0;
    assert(sp.take(0) =~= Seq::<Seq<char>>::empty());
    while i < parts.len()
        invariant
            0 <= i <= parts@.len(),
            sp == crate::text::split(name@, '/'),
            parts@.len() == sp.len(),
            forall|k: int| 0 <= k < parts@.len() ==> #[trigger] parts@[k]@ == sp[k],
            safe_parts(sp.take(i as int)) == Some(texts(out@)),
        decreases parts@.len() - i,
    {
        assert(sp.take(i + 1).drop_last() =~= sp.take(i as int));
        assert(sp.take(i + 1).last() == parts@[i as int]@);
        let c = parts[i].as_slice();
        if c.len() == 0 || seq_eq(c, chars_of(".").as_slice()) {
        } else if seq_eq(c, chars_of("..").as_slice()) {
            proof {
                reveal_strlit(".");
                reveal_strlit("..");
                assert(safe_parts(sp.take(i + 1)) is None);
                lemma_safe_stays_none(sp, i as int + 1, sp.len() as int);
                assert(sp.take(sp.len() as int) =~= sp);
            }
            return None;
        } else {
            let ghost before = texts(out@);
            let s = crate::names::sanitize_windows_name(c);
            out.push(s);
            assert(texts(out@) =~= before.push(s@));
        }
        i = i + 1;
    }
    assert(sp.take(parts@.len() as int) =~= sp);
    Some(out)
}

} // verus!
