//! Classification of one pack stored as zip bytes: structure verdict,
//! high-version layout, and the Lunar tag.
use vstd::prelude::*;
use crate::archive::{
    any_encrypted, catalog_any_encrypted, catalog_names, catalog_view, decoded_files, decoded_names,
    decoded_zip_names, depth_left, read_decoded, read_decoded_zip_file, search_zip, search_zip_spec,
    zip_catalog, zip_catalog_of, zip_names, CoreSearch, ZipEntry, MAX_NESTING_DEPTH, found_any,
};
use crate::layout::{
    bloat_cause_texts, child_files, contains_directory, contains_files, facts_from_zip_names, join,
    layer_has_assets, legacy_blocks_dir, legacy_items_dir, modern_block_dir, modern_item_dir,
    names_contain_directory, names_contain_files, root_facts, sorted_child_dirs, starts_pk,
    starts_with_pk, texts, zip_child_dirs, zip_child_files, zip_layer_has_assets, RootFacts,
};
use crate::model::{strs, Category, IgnoreReason};
use crate::text::{chars_of, ends_with, is_suffix, string_of, seq_eq, starts_with, is_prefix};
use crate::lunar::{lunar_bad, mcmeta_has_lunar_escape};
use crate::model::{NodeKind, PackEntry, EntryView};
use crate::archive::{index_of_name, by_name_data, zip_read, zip_entry_data_of, read_by_name};
use crate::layout::{any_prefixed, any_starts_with, modern_paths, core_modern_texture_paths};

verus! {

pub open spec fn rar_magic(b: Seq<u8>) -> bool {
    b.len() >= 4 && b[0] == 0x52 && b[1] == 0x61 && b[2] == 0x72 && b[3] == 0x21
}

pub open spec fn sevenz_magic(b: Seq<u8>) -> bool {
    b.len() >= 6 && b[0] == 0x37 && b[1] == 0x7a && b[2] == 0xbc && b[3] == 0xaf && b[4] == 0x27
        && b[5] == 0x1c
}

/// The verdict on a container, from what the search found.
pub open spec fn search_verdict(s: (bool, bool)) -> (Category, Seq<Seq<char>>) {
    if s.0 {
        (Category::Nested, seq!["nested_container"@])
    } else if s.1 {
        (Category::Illegal, seq!["too_deep"@])
    } else {
        (Category::Illegal, seq!["no_core_found"@])
    }
}

/// The structural verdict on a file-form pack from its bytes and its name.
pub open spec fn file_verdict(bytes: Seq<u8>, name: Seq<char>) -> (Category, Seq<Seq<char>>) {
    if !starts_pk(bytes) {
        (
            Category::Illegal,
            seq![
                if rar_magic(bytes) {
                    "rar_archive"@
                } else if sevenz_magic(bytes) {
                    "sevenz_archive"@
                } else {
                    "not_zip"@
                },
            ],
        )
    } else {
        match zip_catalog_of(bytes) {
            None => (Category::Illegal, seq!["corrupt_zip"@]),
            Some(cat) => if any_encrypted(cat) {
                (Category::Illegal, seq!["encrypted_zip"@])
            } else {
                let f = root_facts(zip_names(cat));
                if f.has_assets && f.has_mcmeta {
                    if !is_suffix(".zip"@, name) {
                        (Category::Nested, seq!["wrong_extension"@])
                    } else if bloat_cause_texts(f).len() > 0 {
                        (Category::Bloated, bloat_cause_texts(f))
                    } else {
                        (Category::Normal, Seq::<Seq<char>>::empty())
                    }
                } else if f.has_assets {
                    (Category::Nested, seq!["mcmeta_rescue"@])
                } else {
                    search_verdict(search_zip_spec(bytes, cat, Seq::<char>::empty(), 1))
                }
            },
        }
    }
}

pub fn verdict_from_search(search: CoreSearch) -> (r: (Category, Vec<String>))
    ensures
        r.0 == search_verdict((found_any(search), search.hit_cap)).0,
        strs(r.1@) == search_verdict((found_any(search), search.hit_cap)).1,
{
    let mut causes: Vec<String> = Vec::new();
    let cat;
    if search.found.len() > 0 {
        cat = Category::Nested;
        causes.push("nested_container".to_owned());
    } else if search.hit_cap {
        cat = Category::Illegal;
        causes.push("too_deep".to_owned());
    } else {
        cat = Category::Illegal;
        causes.push("no_core_found".to_owned());
    }
    assert(strs(causes@) =~= search_verdict((found_any(search), search.hit_cap)).1);
    (cat, causes)
}

fn one_cause(c: &str) -> (r: Vec<String>)
    ensures
        strs(r@) == seq![c@],
{
    let mut v: Vec<String> = Vec::new();
    v.push(c.to_owned());
    assert(strs(v@) =~= seq![c@]);
    v
}

/// The structural verdict on a file-form pack.
pub fn classify_file_bytes(bytes: &[u8], name: &[char]) -> (r: (Category, Vec<String>))
    ensures
        r.0 == file_verdict(bytes@, name@).0,
        strs(r.1@) == file_verdict(bytes@, name@).1,
{
    if !starts_with_pk(bytes) {
        let rar = bytes.len() >= 4 && bytes[0] == 0x52 && bytes[1] == 0x61 && bytes[2] == 0x72
            && bytes[3] == 0x21;
        let sevenz = bytes.len() >= 6 && bytes[0] == 0x37 && bytes[1] == 0x7a && bytes[2] == 0xbc
            && bytes[3] == 0xaf && bytes[4] == 0x27 && bytes[5] == 0x1c;
        let cause = if rar {
            "rar_archive"
        } else if sevenz {
            "sevenz_archive"
        } else {
            "not_zip"
        };
        return (Category::Illegal, one_cause(cause));
    }
    let cat = match zip_catalog(bytes) {
        Some(c) => c,
        None => {
            return (Category::Illegal, one_cause("corrupt_zip"));
        },
    };
    if catalog_any_encrypted(cat.as_slice()) {
        return (Category::Illegal, one_cause("encrypted_zip"));
    }
    let names = catalog_names(cat.as_slice());
    let facts = facts_from_zip_names(names.as_slice());
    if facts.has_assets && facts.has_mcmeta {
        if !ends_with(name, chars_of(".zip").as_slice()) {
            return (Category::Nested, one_cause("wrong_extension"));
        }
        let causes = facts.bloat_causes();
        if causes.len() > 0 {
            return (Category::Bloated, causes);
        }
        let none: Vec<String> = Vec::new();
        assert(strs(none@) =~= Seq::<Seq<char>>::empty());
        return (Category::Normal, none);
    }
    if facts.has_assets {
        return (Category::Nested, one_cause("mcmeta_rescue"));
    }
    let mut search = CoreSearch { found: Vec::new(), hit_cap: false };
    let root: Vec<char> = Vec::new();
    assert(root@ =~= Seq::<char>::empty());
    search_zip(bytes, &cat, &names, root.as_slice(), 1, &mut search);
    verdict_from_search(search)
}

/// (block folder used, item folder used) by the core at `prefix`.
pub open spec fn core_flags(names: Seq<Seq<char>>, files: Seq<Seq<char>>, prefix: Seq<char>) -> (bool, bool) {
    if contains_directory(names, prefix + legacy_items_dir()) || contains_directory(
        names,
        prefix + legacy_blocks_dir(),
    ) {
        (false, false)
    } else {
        (
            contains_directory(names, prefix + modern_block_dir()),
            contains_files(files, prefix + modern_item_dir()),
        )
    }
}

/// The sorted texture-folder list that a pair of flags stands for.
pub open spec fn flag_values(f: (bool, bool)) -> Seq<Seq<char>> {
    (if f.0 {
        seq![modern_block_dir()]
    } else {
        Seq::<Seq<char>>::empty()
    }) + (if f.1 {
        seq![modern_item_dir()]
    } else {
        Seq::<Seq<char>>::empty()
    })
}

pub open spec fn or2(a: (bool, bool), b: (bool, bool)) -> (bool, bool) {
    (a.0 || b.0, a.1 || b.1)
}

/// Singular texture folders used by any core nested below `prefix`.
pub open spec fn modern_zip_spec(bytes: Seq<u8>, cat: Seq<(Seq<char>, Option<(Seq<u8>, bool, bool)>, Option<u64>)>, prefix: Seq<char>, depth: int) -> (bool, bool)
    decreases depth_left(depth), 2nat, 0nat,
{
    if depth > 10 {
        (false, false)
    } else {
        let names = decoded_names(cat);
        or2(
            modern_dirs_spec(bytes, cat, prefix, depth, sorted_child_dirs(names, prefix)),
            modern_files_spec(bytes, cat, prefix, depth, child_files(names, prefix)),
        )
    }
}

pub open spec fn modern_dirs_spec(bytes: Seq<u8>, cat: Seq<(Seq<char>, Option<(Seq<u8>, bool, bool)>, Option<u64>)>, prefix: Seq<char>, depth: int, dirs: Seq<Seq<char>>) -> (bool, bool)
    decreases depth_left(depth), 1nat, dirs.len(),
{
    if dirs.len() == 0 || depth > 10 {
        (false, false)
    } else {
        let layer = prefix + dirs.last() + "/"@;
        let names = decoded_names(cat);
        or2(
            modern_dirs_spec(bytes, cat, prefix, depth, dirs.drop_last()),
            if layer_has_assets(names, layer) {
                core_flags(names, decoded_files(cat), layer)
            } else {
                modern_zip_spec(bytes, cat, layer, depth + 1)
            },
        )
    }
}

pub open spec fn modern_inner_spec(data: Option<Seq<u8>>, depth: int) -> (bool, bool)
    decreases depth_left(depth), 0nat, 0nat,
{
    match data {
        Some(b) => if starts_pk(b) && depth <= 10 {
            match zip_catalog_of(b) {
                Some(ic) => if layer_has_assets(decoded_names(ic), Seq::<char>::empty()) {
                    core_flags(decoded_names(ic), decoded_files(ic), Seq::<char>::empty())
                } else {
                    modern_zip_spec(b, ic, Seq::<char>::empty(), depth + 1)
                },
                None => (false, false),
            }
        } else {
            (false, false)
        },
        None => (false, false),
    }
}

pub open spec fn modern_files_spec(bytes: Seq<u8>, cat: Seq<(Seq<char>, Option<(Seq<u8>, bool, bool)>, Option<u64>)>, prefix: Seq<char>, depth: int, files: Seq<Seq<char>>) -> (bool, bool)
    decreases depth_left(depth), 1nat, files.len(),
{
    if files.len() == 0 || depth > 10 {
        (false, false)
    } else {
        or2(
            modern_files_spec(bytes, cat, prefix, depth, files.drop_last()),
            modern_inner_spec(read_decoded(bytes, cat, prefix + files.last()), depth),
        )
    }
}

/// Which singular texture folders have been seen.
pub struct ModernSet {
    pub block: bool,
    pub item: bool,
}

fn text(s: &str) -> (r: Vec<char>)
    ensures
        r@ == s@,
{
    chars_of(s)
}

/// Flags for the singular texture folders of the core at `prefix`.
pub fn core_modern_flags(names: &[Vec<char>], files: &[Vec<char>], prefix: &[char]) -> (r: (bool, bool))
    ensures
        r == core_flags(texts(names@), texts(files@), prefix@),
{
    if names_contain_directory(names, join(prefix, text("assets/minecraft/textures/items").as_slice()).as_slice())
        || names_contain_directory(names, join(prefix, text("assets/minecraft/textures/blocks").as_slice()).as_slice()) {
        return (false, false);
    }
    (
        names_contain_directory(names, join(prefix, text("assets/minecraft/textures/block").as_slice()).as_slice()),
        names_contain_files(files, join(prefix, text("assets/minecraft/textures/item").as_slice()).as_slice()),
    )
}

/// Collects the singular texture folders of every core nested below
/// `prefix`, in child folders and embedded zips.
pub fn collect_zip_modern_texture_paths(bytes: &[u8], cat: &Vec<ZipEntry>, names: &Vec<Vec<char>>, files: &Vec<Vec<char>>, prefix: &[char], child_depth: usize, out: &mut ModernSet)
    requires
        texts(names@) == decoded_names(catalog_view(cat@)),
        texts(files@) == decoded_files(catalog_view(cat@)),
        child_depth <= 11,
    ensures
        (final(out).block, final(out).item) == or2((old(out).block, old(out).item), modern_zip_spec(bytes@, catalog_view(cat@), prefix@, child_depth as int)),
    decreases depth_left(child_depth as int), 2nat,
{
    if child_depth > MAX_NESTING_DEPTH {
        return;
    }
    let ghost c = catalog_view(cat@);
    let ghost s0 = (out.block, out.item);
    let dirs = zip_child_dirs(names.as_slice(), prefix);
    let ghost dt = texts(dirs@);
    let mut i: usize = 0;
    assert(dt.take(0) =~= Seq::<Seq<char>>::empty());
    while i < dirs.len()
        invariant
            0 <= i <= dirs@.len(),
            child_depth <= 10,
            dt == texts(dirs@),
            dt == sorted_child_dirs(decoded_names(c), prefix@),
            c == catalog_view(cat@),
            texts(names@) == decoded_names(c),
            texts(files@) == decoded_files(c),
            (out.block, out.item) == or2(s0, modern_dirs_spec(bytes@, c, prefix@, child_depth as int, dt.take(i as int))),
        decreases dirs@.len() - i,
    {
        assert(dt.take(i + 1).drop_last() =~= dt.take(i as int));
        assert(dt.take(i + 1).last() == dirs@[i as int]@);
        let layer = join(join(prefix, dirs[i].as_slice()).as_slice(), text("/").as_slice());
        if zip_layer_has_assets(names.as_slice(), layer.as_slice()) {
            let f = core_modern_flags(names.as_slice(), files.as_slice(), layer.as_slice());
            out.block = out.block || f.0;
            out.item = out.item || f.1;
        } else {
            collect_zip_modern_texture_paths(bytes, cat, names, files, layer.as_slice(), child_depth + 1, out);
        }
        i = i + 1;
    }
    assert(dt.take(dirs@.len() as int) =~= dt);
    let ghost s1 = (out.block, out.item);
    let child = zip_child_files(names.as_slice(), prefix);
    let ghost ft = texts(child@);
    let mut j: usize = 0;
    assert(ft.take(0) =~= Seq::<Seq<char>>::empty());
    while j < child.len()
        invariant
            0 <= j <= child@.len(),
            child_depth <= 10,
            ft == texts(child@),
            ft == child_files(decoded_names(c), prefix@),
            c == catalog_view(cat@),
            (out.block, out.item) == or2(s1, modern_files_spec(bytes@, c, prefix@, child_depth as int, ft.take(j as int))),
        decreases child@.len() - j,
    {
        assert(ft.take(j + 1).drop_last() =~= ft.take(j as int));
        assert(ft.take(j + 1).last() == child@[j as int]@);
        let full = join(prefix, child[j].as_slice());
        let ghost x = modern_inner_spec(read_decoded(bytes@, c, prefix@ + ft[j as int]), child_depth as int);
        let ghost prev = modern_files_spec(bytes@, c, prefix@, child_depth as int, ft.take(j as int));
        assert(modern_files_spec(bytes@, c, prefix@, child_depth as int, ft.take(j + 1)) == or2(prev, x));
        match read_decoded_zip_file(bytes, cat.as_slice(), full.as_slice()) {
            Some(b) => {
                if starts_with_pk(b.as_slice()) {
                    match zip_catalog(b.as_slice()) {
                        Some(icat) => {
                            let (inames, ifiles) = decoded_zip_names(icat.as_slice());
                            let root: Vec<char> = Vec::new();
                            assert(root@ =~= Seq::<char>::empty());
                            if zip_layer_has_assets(inames.as_slice(), root.as_slice()) {
                                let f = core_modern_flags(inames.as_slice(), ifiles.as_slice(), root.as_slice());
                                out.block = out.block || f.0;
                                out.item = out.item || f.1;
                            } else {
                                collect_zip_modern_texture_paths(b.as_slice(), &icat, &inames, &ifiles, root.as_slice(), child_depth + 1, out);
                            }
                        },
                        None => {},
                    }
                }
            },
            None => {},
        }
        j = j + 1;
    }
    assert(ft.take(child@.len() as int) =~= ft);
}

/// The ignore reason for a high-version layout, from a set of flags.
pub fn modern_reason(flags: &ModernSet) -> (r: Option<IgnoreReason>)
    ensures
        match r {
            Some(reason) => (flags.block || flags.item) && reason.key@ == "modern_texture_layout"@
                && strs(reason.values@) == flag_values((flags.block, flags.item)),
            None => !(flags.block || flags.item),
        },
{
    if !(flags.block || flags.item) {
        return None;
    }
    let mut values: Vec<String> = Vec::new();
    if flags.block {
        values.push("assets/minecraft/textures/block".to_owned());
    }
    if flags.item {
        values.push("assets/minecraft/textures/item".to_owned());
    }
    assert(strs(values@) =~= flag_values((flags.block, flags.item)));
    Some(IgnoreReason { key: "modern_texture_layout".to_owned(), values })
}

/// The high-version flags of zip bytes judged as `category`: the root
/// core's singular folders, or for a nested pack those of every inner core.
pub open spec fn high_version_flags(bytes: Seq<u8>, category: Category) -> Option<(bool, bool)> {
    match zip_catalog_of(bytes) {
        None => None,
        Some(cat) => {
            let names = decoded_names(cat);
            let f = if layer_has_assets(names, Seq::<char>::empty()) {
                core_flags(names, decoded_files(cat), Seq::<char>::empty())
            } else if category == Category::Nested {
                modern_zip_spec(bytes, cat, Seq::<char>::empty(), 1)
            } else {
                (false, false)
            };
            if f.0 || f.1 {
                Some(f)
            } else {
                None
            }
        },
    }
}

/// An ignore reason stands for these flags.
pub open spec fn reason_is(r: Option<IgnoreReason>, f: Option<(bool, bool)>) -> bool {
    match (r, f) {
        (None, None) => true,
        (Some(reason), Some(flags)) => reason.key@ == "modern_texture_layout"@ && strs(reason.values@)
            == flag_values(flags),
        _ => false,
    }
}

pub fn high_version_ignore_reason_bytes(bytes: &[u8], category: Category) -> (r: Option<IgnoreReason>)
    ensures
        reason_is(r, high_version_flags(bytes@, category)),
{
    let cat = match zip_catalog(bytes) {
        Some(c) => c,
        None => {
            return None;
        },
    };
    let (names, files) = decoded_zip_names(cat.as_slice());
    let root: Vec<char> = Vec::new();
    assert(root@ =~= Seq::<char>::empty());
    let mut set = ModernSet { block: false, item: false };
    if zip_layer_has_assets(names.as_slice(), root.as_slice()) {
        let f = core_modern_flags(names.as_slice(), files.as_slice(), root.as_slice());
        set.block = f.0;
        set.item = f.1;
    } else if category == Category::Nested {
        collect_zip_modern_texture_paths(bytes, &cat, &names, &files, root.as_slice(), 1, &mut set);
    }
    modern_reason(&set)
}

/// Drops every trailing repetition of `suf` (`str::trim_end_matches`).
pub open spec fn trim_suffix_all(s: Seq<char>, suf: Seq<char>) -> Seq<char>
    decreases s.len(),
{
    if suf.len() > 0 && is_suffix(suf, s) {
        trim_suffix_all(s.take(s.len() - suf.len()), suf)
    } else {
        s
    }
}

pub fn trim_suffix_all_exec(s: &[char], suf: &[char]) -> (r: Vec<char>)
    ensures
        r@ == trim_suffix_all(s@, suf@),
{
    let mut end: usize = s.len();
    assert(s@.take(end as int) =~= s@);
    loop
        invariant
            0 <= end <= s@.len(),
            trim_suffix_all(s@, suf@) == trim_suffix_all(s@.take(end as int), suf@),
        decreases end,
    {
        let cur = prefix_of(s, end);
        if suf.len() > 0 && ends_with(cur.as_slice(), suf) {
            assert(cur@.take(cur@.len() - suf@.len()) =~= s@.take(end - suf@.len()));
            end = end - suf.len();
        } else {
            return cur;
        }
    }
}

fn prefix_of(s: &[char], k: usize) -> (r: Vec<char>)
    requires
        k <= s@.len(),
    ensures
        r@ == s@.take(k as int),
{
    let mut out: Vec<char> = Vec::new();
    let mut i: usize = 0;
    while i < k
        invariant
            0 <= i <= k <= s@.len(),
            out@ == s@.take(i as int),
        decreases k - i,
    {
        out.push(s[i]);
        i = i + 1;
        assert(out@ =~= s@.take(i as int));
    }
    out
}

/// The first decoded name ending in `pack.mcmeta` whose layer holds
/// `assets/` (by the archive's own names), read by its decoded name.
pub open spec fn judged_core_mcmeta(bytes: Seq<u8>, cat: Seq<(Seq<char>, Option<(Seq<u8>, bool, bool)>, Option<u64>)>, names: Seq<Seq<char>>) -> Option<Seq<u8>>
    decreases names.len(),
{
    if names.len() == 0 {
        None
    } else {
        let n = names[0];
        if is_suffix("pack.mcmeta"@, n) && layer_has_assets(zip_names(cat), trim_suffix_all(n, "pack.mcmeta"@)) {
            read_decoded(bytes, cat, n)
        } else {
            judged_core_mcmeta(bytes, cat, names.drop_first())
        }
    }
}

/// The mcmeta a Lunar judgment reads from zip bytes: the root one, else
/// the one of the first core layer.
pub open spec fn judgment_mcmeta_bytes(bytes: Seq<u8>) -> Option<Seq<u8>> {
    match zip_catalog_of(bytes) {
        None => None,
        Some(cat) => match read_decoded(bytes, cat, "pack.mcmeta"@) {
            Some(b) => Some(b),
            None => judged_core_mcmeta(bytes, cat, decoded_names(cat)),
        },
    }
}

pub fn read_judgment_mcmeta_bytes(bytes: &[u8]) -> (r: Option<Vec<u8>>)
    ensures
        match r {
            Some(v) => judgment_mcmeta_bytes(bytes@) == Some(v@),
            None => judgment_mcmeta_bytes(bytes@) is None,
        },
{
    let cat = match zip_catalog(bytes) {
        Some(c) => c,
        None => {
            return None;
        },
    };
    let ghost c = catalog_view(cat@);
    let mcmeta = text("pack.mcmeta");
    match read_decoded_zip_file(bytes, cat.as_slice(), mcmeta.as_slice()) {
        Some(b) => {
            return Some(b);
        },
        None => {},
    }
    let (names, _) = decoded_zip_names(cat.as_slice());
    let zn = catalog_names(cat.as_slice());
    let ghost t = texts(names@);
    let mut i: usize = 0;
    assert(t.skip(0) =~= t);
    assert(judgment_mcmeta_bytes(bytes@) == judged_core_mcmeta(bytes@, c, t));
    while i < names.len()
        invariant
            0 <= i <= names@.len(),
            judgment_mcmeta_bytes(bytes@) == judged_core_mcmeta(bytes@, c, t),
            t == texts(names@),
            t == decoded_names(c),
            c == catalog_view(cat@),
            texts(zn@) == zip_names(c),
            mcmeta@ == "pack.mcmeta"@,
            judged_core_mcmeta(bytes@, c, t) == judged_core_mcmeta(bytes@, c, t.skip(i as int)),
        decreases names@.len() - i,
    {
        assert(t.skip(i as int)[0] == names@[i as int]@);
        let n = names[i].as_slice();
        if ends_with(n, mcmeta.as_slice()) {
            let prefix = trim_suffix_all_exec(n, mcmeta.as_slice());
            if zip_layer_has_assets(zn.as_slice(), prefix.as_slice()) {
                proof {
                    let s = t.skip(i as int);
                    assert(s[0] == n@);
                    assert(is_suffix("pack.mcmeta"@, s[0]));
                    assert(layer_has_assets(zip_names(c), trim_suffix_all(s[0], "pack.mcmeta"@)));
                    assert(judged_core_mcmeta(bytes@, c, s) == read_decoded(bytes@, c, n@));
                }
                return read_decoded_zip_file(bytes, cat.as_slice(), n);
            }
        }
        assert(t.skip(i as int).drop_first() =~= t.skip(i + 1));
        i = i + 1;
    }
    None
}

/// (category, causes, high-version flags) of a pack held as zip bytes
/// inside a container.
pub open spec fn inner_pack_verdict(bytes: Seq<u8>, name: Seq<char>) -> (Category, Seq<Seq<char>>, Option<(bool, bool)>) {
    let v = file_verdict(bytes, name);
    let ig = if v.0 == Category::Illegal {
        None
    } else {
        high_version_flags(bytes, v.0)
    };
    if ig is Some {
        (Category::Ignored, Seq::<Seq<char>>::empty(), ig)
    } else if v.0 != Category::Illegal {
        match judgment_mcmeta_bytes(bytes) {
            Some(raw) => if lunar_bad(raw) {
                (
                    if v.0 == Category::Normal {
                        Category::LunarIllegal
                    } else {
                        v.0
                    },
                    v.1.push("lunar_escape"@),
                    None,
                )
            } else {
                (v.0, v.1, None)
            },
            None => (v.0, v.1, None),
        }
    } else {
        (v.0, v.1, None)
    }
}

/// The entry of a pack held as zip bytes inside a container.
pub open spec fn archive_child_view(name: Seq<char>, bytes: Seq<u8>, relative_path: Seq<char>, parent_path: Option<Seq<char>>) -> EntryView {
    let v = inner_pack_verdict(bytes, name);
    (
        name,
        relative_path,
        parent_path,
        NodeKind::Pack,
        v.0,
        v.1,
        bytes.len() as u64,
        match v.2 {
            Some(f) => Some(("modern_texture_layout"@, flag_values(f))),
            None => None,
        },
    )
}

/// Classifies a pack that sits inside a container as zip bytes.
pub fn classify_archive_child(name: String, bytes: Vec<u8>, relative_path: String, parent_path: Option<String>) -> (e: PackEntry)
    ensures
        e@ == archive_child_view(name@, bytes@, relative_path@, match parent_path {
            Some(p) => Some(p@),
            None => None,
        }),
        e.name == name,
        e.relative_path == relative_path,
        e.parent_path == parent_path,
        e.kind == NodeKind::Pack,
        e.category == inner_pack_verdict(bytes@, name@).0,
        strs(e.causes@) == inner_pack_verdict(bytes@, name@).1,
        reason_is(e.ignore, inner_pack_verdict(bytes@, name@).2),
        e.size_bytes == bytes@.len(),
{
    let name_chars = chars_of(name.as_str());
    let (mut category, mut causes) = classify_file_bytes(bytes.as_slice(), name_chars.as_slice());
    let ignore = if category == Category::Illegal {
        None
    } else {
        high_version_ignore_reason_bytes(bytes.as_slice(), category)
    };
    if ignore.is_some() {
        category = Category::Ignored;
        causes = Vec::new();
        assert(strs(causes@) =~= Seq::<Seq<char>>::empty());
    } else if category != Category::Illegal {
        match read_judgment_mcmeta_bytes(bytes.as_slice()) {
            Some(raw) => {
                if mcmeta_has_lunar_escape(raw.as_slice()) {
                    let ghost before = strs(causes@);
                    causes.push("lunar_escape".to_owned());
                    assert(strs(causes@) =~= before.push("lunar_escape"@));
                    if category == Category::Normal {
                        category = Category::LunarIllegal;
                    }
                }
            },
            None => {},
        }
    }
    let size = bytes.len() as u64;
    PackEntry {
        name,
        relative_path,
        parent_path,
        kind: NodeKind::Pack,
        category,
        causes,
        size_bytes: size,
        ignore,
    }
}

} // verus!
