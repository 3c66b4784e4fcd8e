//! The clean zip that replaces a broken pack: which files it holds, under
//! which names and with which bytes, from an archive or from a folder.
use vstd::prelude::*;
use crate::archive::{
    catalog_names, catalog_view, zip_catalog, zip_catalog_of, zip_entry_data_of, zip_names, zip_read,
    CatalogView, ZipEntry,
};
use crate::fixplan::{
    build_root_fix_plan, chosen_mcmeta, fix_target, law_fix_plan_writes_one_mcmeta, law_fix_targets_are_core_paths,
    law_fix_targets_distinct, lemma_best_mc_member, mc_candidate, targets_view,
};
use crate::text::{is_prefix, lemma_split_first, lemma_split_no_sep, lower, lower_char};
use crate::layout::{bloat_cause_texts, extra_root, first_component, root_facts};
use crate::names::{dead_path, png_variant};
use crate::fs::{lemma_kid_decreases, FsNode};
use crate::layout::{any_equal, join, texts};
use crate::lunar::{
    law_generated_mcmeta_is_lunar_legal, law_product_mcmeta_is_lunar_legal, lunar_bad, product_mcmeta,
    product_mcmeta_bytes, text_bytes,
};
use crate::names::{generated_mcmeta, generated_mcmeta_text};
use crate::text::{chars_of, copy_bytes, seq_eq, string_of};
use crate::zipwrite::{files_view, zip_archive, zip_archive_of};

verus! {

/// zip's own test for a folder entry: the name ends in a slash or a
/// backslash.
pub open spec fn zip_dir_name(n: Seq<char>) -> bool {
    n.len() > 0 && (n.last() == '/' || n.last() == '\\')
}

/// The bytes a kept file carries into the clean zip: `pack.mcmeta` goes
/// through the Lunar repair, anything else as it was read.
pub open spec fn kept_bytes(target: Seq<char>, data: Seq<u8>, stem: Seq<char>) -> Seq<u8> {
    if target == "pack.mcmeta"@ {
        product_mcmeta_bytes(data, stem)
    } else {
        data
    }
}

/// The kept files, followed by a generated `pack.mcmeta` when the pack has
/// none and no typo'd variant to rename.
pub open spec fn with_default(kept: Seq<(Seq<char>, Seq<u8>)>, names: Seq<Seq<char>>, stem: Seq<char>) -> Seq<(Seq<char>, Seq<u8>)> {
    if !any_equal(names, "pack.mcmeta"@) && chosen_mcmeta(names) is None {
        kept.push(("pack.mcmeta"@, vstd::utf8::encode_utf8(generated_mcmeta_text(stem))))
    } else {
        kept
    }
}

/// The kept files among the first `k` catalog entries of an archive:
/// folders and entries without a target are left out; `None` when an
/// entry cannot be opened, or a kept one cannot be read.
pub open spec fn zip_kept_upto(bytes: Seq<u8>, cat: CatalogView, stem: Seq<char>, k: int) -> Option<Seq<(Seq<char>, Seq<u8>)>>
    decreases k,
{
    if k <= 0 || k > cat.len() {
        Some(Seq::<(Seq<char>, Seq<u8>)>::empty())
    } else {
        match zip_kept_upto(bytes, cat, stem, k - 1) {
            None => None,
            Some(acc) => {
                let e = cat[k - 1];
                if e.2 is None {
                    None
                } else if zip_dir_name(e.0) {
                    Some(acc)
                } else {
                    match fix_target(zip_names(cat), e.0) {
                        None => Some(acc),
                        Some(t) => match zip_entry_data_of(bytes, k - 1) {
                            None => None,
                            Some(d) => Some(acc.push((t, kept_bytes(t, d, stem)))),
                        },
                    }
                }
            },
        }
    }
}

/// The files of the clean zip rebuilt from an archive's bytes; `None` when
/// the archive cannot be opened or a file it keeps cannot be read.
pub open spec fn zip_fixed_files(bytes: Seq<u8>, stem: Seq<char>) -> Option<Seq<(Seq<char>, Seq<u8>)>> {
    match zip_catalog_of(bytes) {
        None => None,
        Some(cat) => match zip_kept_upto(bytes, cat, stem, cat.len() as int) {
            None => None,
            Some(kept) => Some(with_default(kept, zip_names(cat), stem)),
        },
    }
}

proof fn lemma_zip_kept_stays_none(bytes: Seq<u8>, cat: CatalogView, stem: Seq<char>, k: int, m: int)
    requires
        0 < k <= m <= cat.len(),
        zip_kept_upto(bytes, cat, stem, k) is None,
    ensures
        zip_kept_upto(bytes, cat, stem, m) is None,
    decreases m - k,
{
    if m > k {
        lemma_zip_kept_stays_none(bytes, cat, stem, k, m - 1);
    }
}

fn is_text(s: &String, lit: &str) -> (r: bool)
    ensures
        r == (s@ == lit@),
{
    let a = chars_of(s.as_str());
    let b = chars_of(lit);
    seq_eq(a.as_slice(), b.as_slice())
}

fn ends_dir_like(n: &[char]) -> (r: bool)
    ensures
        r == zip_dir_name(n@),
{
    n.len() > 0 && (n[n.len() - 1] == '/' || n[n.len() - 1] == '\\')
}

/// The bytes a kept file carries, computed.
fn kept(target: &String, data: Vec<u8>, stem: &[char]) -> (r: Vec<u8>)
    ensures
        r@ == kept_bytes(target@, data@, stem@),
{
    if is_text(target, "pack.mcmeta") {
        product_mcmeta(data, stem)
    } else {
        data
    }
}

/// Appends the generated `pack.mcmeta` when the plan asks for one.
fn add_default(out: &mut Vec<(String, Vec<u8>)>, missing: bool, stem: &[char])
    ensures
        final(out)@.len() == old(out)@.len() + if missing { 1int } else { 0int },
        files_view(final(out)@) == if missing {
            files_view(old(out)@).push(("pack.mcmeta"@, vstd::utf8::encode_utf8(generated_mcmeta_text(stem@))))
        } else {
            files_view(old(out)@)
        },
{
    if missing {
        let ghost before = files_view(out@);
        let text = generated_mcmeta(stem);
        let bytes = text_bytes(&text);
        out.push(("pack.mcmeta".to_owned(), bytes));
        assert(files_view(out@) =~= before.push(("pack.mcmeta"@, vstd::utf8::encode_utf8(generated_mcmeta_text(stem@)))));
    }
}

/// Rebuilds an archive as the list of files its clean zip holds: the core
/// files at the root (typo'd names fixed, Lunar escapes repaired), the
/// `assets/` tree as it is, nothing else.
pub fn fixed_files_from_zip(bytes: &[u8], stem: &[char]) -> (r: Option<Vec<(String, Vec<u8>)>>)
    ensures
        match r {
            Some(v) => zip_fixed_files(bytes@, stem@) == Some(files_view(v@)),
            None => zip_fixed_files(bytes@, stem@) is None,
        },
{
    let cat = match zip_catalog(bytes) {
        Some(c) => c,
        None => return None,
    };
    let ghost cv = catalog_view(cat@);
    let names = catalog_names(cat.as_slice());
    let plan = build_root_fix_plan(names.as_slice());
    let mut out: Vec<(String, Vec<u8>)> = Vec::new();
    let mut i: usize = 0;
    while i < cat.len()
        invariant
            0 <= i <= cat@.len(),
            zip_catalog_of(bytes@) == Some(cv),
            cv == catalog_view(cat@),
            texts(names@) == zip_names(cv),
            targets_view(plan.targets@).len() == names@.len(),
            forall|j: int| 0 <= j < names@.len() ==> #[trigger] targets_view(plan.targets@)[j] == fix_target(texts(names@), names@[j]@),
            plan.mcmeta_missing == (!any_equal(texts(names@), "pack.mcmeta"@) && chosen_mcmeta(texts(names@)) is None),
            zip_kept_upto(bytes@, cv, stem@, i as int) == Some(files_view(out@)),
        decreases cat@.len() - i,
    {
        let ghost before = files_view(out@);
        assert(zip_names(cv).len() == cv.len());
        assert(names@.len() == cv.len()) by {
            assert(texts(names@).len() == names@.len());
        }
        assert(names@[i as int]@ == cv[i as int].0) by {
            assert(texts(names@)[i as int] == names@[i as int]@);
        }
        let e = &cat[i];
        assert(cv[i as int] == crate::archive::entry_view(cat@[i as int]));
        if e.size.is_none() {
            proof {
                assert(zip_kept_upto(bytes@, cv, stem@, i + 1) is None);
                lemma_zip_kept_stays_none(bytes@, cv, stem@, i + 1, cv.len() as int);
            }
            return None;
        }
        let n = chars_of(e.name.as_str());
        if ends_dir_like(n.as_slice()) {
            i = i + 1;
            continue;
        }
        match &plan.targets[i] {
            None => {
                assert(targets_view(plan.targets@)[i as int] is None);
                i = i + 1;
            },
            Some(t) => {
                assert(targets_view(plan.targets@)[i as int] == Some(t@));
                let data = match zip_read(bytes, i) {
                    Some(d) => d,
                    None => {
                        proof {
                            assert(zip_kept_upto(bytes@, cv, stem@, i + 1) is None);
                            lemma_zip_kept_stays_none(bytes@, cv, stem@, i + 1, cv.len() as int);
                        }
                        return None;
                    },
                };
                let b = kept(t, data, stem);
                let name = string_of(chars_of(t.as_str()).as_slice());
                out.push((name, b));
                assert(files_view(out@) =~= before.push((t@, b@)));
                i = i + 1;
            },
        }
    }
    add_default(&mut out, plan.mcmeta_missing, stem);
    Some(out)
}

/// `rel/name`, or just `name` at the top.
pub open spec fn rel_of(prefix: Seq<char>, name: Seq<char>) -> Seq<char> {
    if prefix.len() == 0 {
        name
    } else {
        prefix + "/"@ + name
    }
}

/// Every file below a folder, depth first in listing order, with its
/// `/`-joined path from the folder and its bytes (`None` when unreadable).
pub open spec fn tree_files(n: FsNode, prefix: Seq<char>) -> Seq<(Seq<char>, Option<Seq<u8>>)>
    decreases n, 1int, 0int,
{
    kids_files(n, prefix, n.kids().len() as int)
}

/// The same over the first `k` entries of the folder.
pub open spec fn kids_files(n: FsNode, prefix: Seq<char>, k: int) -> Seq<(Seq<char>, Option<Seq<u8>>)>
    decreases n, 0int, k,
{
    if k <= 0 || k > n.kids().len() {
        Seq::<(Seq<char>, Option<Seq<u8>>)>::empty()
    } else {
        let kid = n.kids()[k - 1];
        let rel = rel_of(prefix, kid.name_of());
        let x = match kid {
            FsNode::Dir { .. } => {
                proof {
                    lemma_kid_decreases(n, k - 1);
                }
                tree_files(kid, rel)
            },
            FsNode::File { data, .. } => seq![(rel, match data {
                Some(b) => Some(b@),
                None => None,
            })],
        };
        kids_files(n, prefix, k - 1) + x
    }
}

pub open spec fn listing_view(v: Seq<(Vec<char>, Option<Vec<u8>>)>) -> Seq<(Seq<char>, Option<Seq<u8>>)> {
    v.map_values(|e: (Vec<char>, Option<Vec<u8>>)| (e.0@, match e.1 {
        Some(b) => Some(b@),
        None => None,
    }))
}

/// Lists every file below `n` after what `out` already holds.
fn collect_relative_files(n: &FsNode, prefix: &[char], out: &mut Vec<(Vec<char>, Option<Vec<u8>>)>)
    ensures
        listing_view(final(out)@) == listing_view(old(out)@) + tree_files(*n, prefix@),
    decreases *n,
{
    let ghost start = listing_view(out@);
    match n {
        FsNode::File { .. } => {
            assert(tree_files(*n, prefix@) =~= Seq::<(Seq<char>, Option<Seq<u8>>)>::empty());
            assert(listing_view(out@) =~= start + tree_files(*n, prefix@));
        },
        FsNode::Dir { children, .. } => {
            let mut i: usize = 0;
            while i < children.len()
                invariant
                    0 <= i <= children@.len(),
                    n.kids() == children@,
                    listing_view(out@) == start + kids_files(*n, prefix@, i as int),
                decreases children@.len() - i,
            {
                let kid = &children[i];
                let name = chars_of(kid.name().as_str());
                let rel = if prefix.len() == 0 {
                    name
                } else {
                    let a = join(prefix, chars_of("/").as_slice());
                    join(a.as_slice(), name.as_slice())
                };
                assert(rel@ == rel_of(prefix@, kid.name_of())) by {
                    if prefix@.len() > 0 {
                        assert(rel@ =~= prefix@ + "/"@ + kid.name_of());
                    }
                }
                let ghost before = listing_view(out@);
                match kid {
                    FsNode::Dir { .. } => {
                        proof {
                            lemma_kid_decreases(*n, i as int);
                        }
                        collect_relative_files(kid, rel.as_slice(), out);
                    },
                    FsNode::File { data, .. } => {
                        let copy = match data {
                            Some(b) => Some(copy_bytes(b.as_slice())),
                            None => None,
                        };
                        out.push((rel, copy));
                        assert(listing_view(out@) =~= before + seq![(rel@, match data {
                            Some(b) => Some(b@),
                            None => None::<Seq<u8>>,
                        })]);
                    },
                }
                i = i + 1;
                assert(listing_view(out@) =~= start + kids_files(*n, prefix@, i as int));
            }
        },
    }
}

/// The kept files among the first `k` files of a folder listing.
pub open spec fn dir_kept_upto(files: Seq<(Seq<char>, Option<Seq<u8>>)>, names: Seq<Seq<char>>, stem: Seq<char>, k: int) -> Option<Seq<(Seq<char>, Seq<u8>)>>
    decreases k,
{
    if k <= 0 || k > files.len() {
        Some(Seq::<(Seq<char>, Seq<u8>)>::empty())
    } else {
        match dir_kept_upto(files, names, stem, k - 1) {
            None => None,
            Some(acc) => match fix_target(names, files[k - 1].0) {
                None => Some(acc),
                Some(t) => match files[k - 1].1 {
                    None => None,
                    Some(d) => Some(acc.push((t, kept_bytes(t, d, stem)))),
                },
            },
        }
    }
}

/// The paths of a folder listing.
pub open spec fn listing_names(files: Seq<(Seq<char>, Option<Seq<u8>>)>) -> Seq<Seq<char>> {
    files.map_values(|e: (Seq<char>, Option<Seq<u8>>)| e.0)
}

/// The files of the clean zip rebuilt from a folder; `None` when a file it
/// keeps cannot be read.
pub open spec fn dir_fixed_files(n: FsNode, stem: Seq<char>) -> Option<Seq<(Seq<char>, Seq<u8>)>> {
    let files = tree_files(n, Seq::<char>::empty());
    let names = listing_names(files);
    match dir_kept_upto(files, names, stem, files.len() as int) {
        None => None,
        Some(kept) => Some(with_default(kept, names, stem)),
    }
}

proof fn lemma_dir_kept_stays_none(files: Seq<(Seq<char>, Option<Seq<u8>>)>, names: Seq<Seq<char>>, stem: Seq<char>, k: int, m: int)
    requires
        0 < k <= m <= files.len(),
        dir_kept_upto(files, names, stem, k) is None,
    ensures
        dir_kept_upto(files, names, stem, m) is None,
    decreases m - k,
{
    if m > k {
        lemma_dir_kept_stays_none(files, names, stem, k, m - 1);
    }
}

fn names_init() -> (r: Vec<Vec<char>>)
    ensures
        r@.len() == 0,
{
    Vec::new()
}

/// Rebuilds a folder pack as the list of files its clean zip holds.
pub fn fixed_files_from_dir(n: &FsNode, stem: &[char]) -> (r: Option<Vec<(String, Vec<u8>)>>)
    ensures
        match r {
            Some(v) => dir_fixed_files(*n, stem@) == Some(files_view(v@)),
            None => dir_fixed_files(*n, stem@) is None,
        },
{
    let mut listing: Vec<(Vec<char>, Option<Vec<u8>>)> = Vec::new();
    let top: Vec<char> = Vec::new();
    collect_relative_files(n, top.as_slice(), &mut listing);
    assert(top@ =~= Seq::<char>::empty());
    let ghost files = tree_files(*n, Seq::<char>::empty());
    let ghost gnames = listing_names(files);
    assert(listing_view(listing@) =~= files);
    let mut names: Vec<Vec<char>> = names_init();
    assert(texts(names@) =~= gnames.take(0));
    let mut j: usize = 0;
    while j < listing.len()
        invariant
            0 <= j <= listing@.len(),
            listing_view(listing@) == files,
            listing@.len() == files.len(),
            gnames == listing_names(files),
            texts(names@) == gnames.take(j as int),
        decreases listing@.len() - j,
    {
        let ghost prev = texts(names@);
        let c = crate::text::copy_chars(listing[j].0.as_slice());
        names.push(c);
        j = j + 1;
        assert(texts(names@) =~= gnames.take(j as int)) by {
            assert(texts(names@) =~= prev.push(c@));
            assert(gnames[j - 1] == listing_view(listing@)[j - 1].0);
        }
    }
    assert(gnames.take(listing@.len() as int) =~= gnames);
    let plan = build_root_fix_plan(names.as_slice());
    let mut out: Vec<(String, Vec<u8>)> = Vec::new();
    let mut i: usize = 0;
    while i < listing.len()
        invariant
            0 <= i <= listing@.len(),
            listing_view(listing@) == files,
            files == tree_files(*n, Seq::<char>::empty()),
            gnames == listing_names(files),
            texts(names@) == gnames,
            gnames.len() == files.len(),
            forall|q: int| 0 <= q < files.len() ==> #[trigger] gnames[q] == files[q].0,
            targets_view(plan.targets@).len() == names@.len(),
            forall|q: int| 0 <= q < names@.len() ==> #[trigger] targets_view(plan.targets@)[q] == fix_target(texts(names@), names@[q]@),
            plan.mcmeta_missing == (!any_equal(texts(names@), "pack.mcmeta"@) && chosen_mcmeta(texts(names@)) is None),
            dir_kept_upto(files, gnames, stem@, i as int) == Some(files_view(out@)),
        decreases listing@.len() - i,
    {
        let ghost before = files_view(out@);
        assert(names@[i as int]@ == files[i as int].0) by {
            assert(texts(names@)[i as int] == names@[i as int]@);
        }
        assert(files[i as int] == listing_view(listing@)[i as int]);
        match &plan.targets[i] {
            None => {
                assert(targets_view(plan.targets@)[i as int] is None);
                i = i + 1;
            },
            Some(t) => {
                assert(targets_view(plan.targets@)[i as int] == Some(t@));
                match &listing[i].1 {
                    None => {
                        proof {
                            assert(dir_kept_upto(files, gnames, stem@, i + 1) is None);
                            lemma_dir_kept_stays_none(files, gnames, stem@, i + 1, files.len() as int);
                        }
                        return None;
                    },
                    Some(d) => {
                        let data = copy_bytes(d.as_slice());
                        let b = kept(t, data, stem);
                        let name = string_of(chars_of(t.as_str()).as_slice());
                        out.push((name, b));
                        assert(files_view(out@) =~= before.push((t@, b@)));
                        i = i + 1;
                    },
                }
            },
        }
    }
    add_default(&mut out, plan.mcmeta_missing, stem);
    Some(out)
}

/// The files of the clean zip rebuilt from a pack moved aside: a folder is
/// walked, a file is read as an archive (`None` when it cannot be read).
pub open spec fn fixed_files(moved: FsNode, stem: Seq<char>) -> Option<Seq<(Seq<char>, Seq<u8>)>> {
    match moved {
        FsNode::Dir { .. } => dir_fixed_files(moved, stem),
        FsNode::File { data, .. } => match data {
            Some(b) => zip_fixed_files(b@, stem),
            None => None,
        },
    }
}

/// Writes the clean zip of a pack moved aside, named after `stem` inside
/// its `pack.mcmeta` when one is generated: its bytes, or `None` exactly
/// when the pack cannot be read or the writer refuses its files.
pub fn write_fixed_zip(moved: &FsNode, stem: &[char]) -> (r: Option<Vec<u8>>)
    ensures
        match fixed_files(*moved, stem@) {
            None => r is None,
            Some(fs) => match r {
                Some(b) => zip_archive_of(fs) == Some(b@),
                None => zip_archive_of(fs) is None,
            },
        },
{
    let files = match moved {
        FsNode::Dir { .. } => fixed_files_from_dir(moved, stem),
        FsNode::File { data, .. } => match data {
            Some(b) => fixed_files_from_zip(b.as_slice(), stem),
            None => None,
        },
    };
    match files {
        Some(fs) => zip_archive(&fs),
        None => None,
    }
}

/// Where a file of a standard pack may sit.
pub open spec fn core_path(p: Seq<char>) -> bool {
    p == "pack.mcmeta"@ || p == "pack.png"@ || is_prefix("assets/"@, p)
}

pub open spec fn distinct_names(s: Seq<Seq<char>>) -> bool {
    forall|i: int, j: int| 0 <= i < j < s.len() ==> s[i] != s[j]
}

/// The files of a standard pack: each on a core path, no name twice, and a
/// `pack.mcmeta` among them.
pub open spec fn standard_files(fs: Seq<(Seq<char>, Seq<u8>)>) -> bool {
    &&& forall|j: int| 0 <= j < fs.len() ==> core_path(#[trigger] fs[j].0)
    &&& forall|a: int, b: int| 0 <= a < b < fs.len() ==> fs[a].0 != fs[b].0
    &&& exists|j: int| 0 <= j < fs.len() && fs[j].0 == "pack.mcmeta"@
}

/// A name that lands on `pack.mcmeta` ends in `a` or `t`, so zip never
/// takes it for a folder.
proof fn lemma_mcmeta_source_is_a_file(names: Seq<Seq<char>>, n: Seq<char>)
    requires
        fix_target(names, n) == Some("pack.mcmeta"@),
    ensures
        !zip_dir_name(n),
{
    reveal_strlit("pack.mcmeta");
    reveal_strlit("pack.png");
    reveal_strlit("pack.mcmeta.mcmeta");
    reveal_strlit("pack.mcmeta.txt");
    if n != "pack.mcmeta"@ {
        assert(!n.contains('/'));
        assert(n != "pack.png"@);
        assert("pack.png"@ != "pack.mcmeta"@) by {
            assert("pack.png"@.len() != "pack.mcmeta"@.len());
        }
        assert(chosen_mcmeta(names) == Some(n));
        lemma_best_mc_member(names, names.len() as int);
        assert(mc_candidate(n));
        let l = lower(n);
        assert(l.len() == n.len());
        assert(l == "pack.mcmeta"@ || l == "pack.mcmeta.mcmeta"@ || l == "pack.mcmeta.txt"@);
        assert(l[l.len() - 1] == lower_char(n[n.len() - 1]));
    }
}

/// The source index of every file kept from an archive, in order, and every
/// file entry with a target among them.
proof fn lemma_zip_kept_sources(bytes: Seq<u8>, cat: CatalogView, stem: Seq<char>, k: int) -> (src: Seq<int>)
    requires
        0 <= k <= cat.len(),
        zip_kept_upto(bytes, cat, stem, k) is Some,
    ensures
        src.len() == zip_kept_upto(bytes, cat, stem, k).unwrap().len(),
        forall|j: int| 0 <= j < src.len() ==> 0 <= #[trigger] src[j] < k && fix_target(zip_names(cat), cat[src[j]].0) == Some(
            zip_kept_upto(bytes, cat, stem, k).unwrap()[j].0,
        ),
        forall|a: int, b: int| 0 <= a < b < src.len() ==> src[a] < src[b],
        forall|i: int|
            0 <= i < k && !zip_dir_name(cat[i].0) && (#[trigger] fix_target(zip_names(cat), cat[i].0)) is Some ==> exists|j: int|
                0 <= j < src.len() && src[j] == i,
    decreases k,
{
    if k == 0 {
        Seq::<int>::empty()
    } else {
        let prev = lemma_zip_kept_sources(bytes, cat, stem, k - 1);
        let acc = zip_kept_upto(bytes, cat, stem, k - 1).unwrap();
        let e = cat[k - 1];
        if zip_dir_name(e.0) || fix_target(zip_names(cat), e.0) is None {
            prev
        } else {
            let src = prev.push(k - 1);
            assert forall|i: int|
                0 <= i < k && !zip_dir_name(cat[i].0) && (#[trigger] fix_target(zip_names(cat), cat[i].0)) is Some implies exists|j: int|
                    0 <= j < src.len() && src[j] == i by {
                if i == k - 1 {
                    assert(src[prev.len() as int] == i);
                } else {
                    let j = choose|j: int| 0 <= j < prev.len() && prev[j] == i;
                    assert(src[j] == i);
                }
            }
            src
        }
    }
}

/// A pack rebuilt from an archive whose entry names are distinct is a
/// standard pack: every file on a core path, no name twice, and exactly one
/// `pack.mcmeta`.
pub proof fn law_rebuilt_archive_is_standard(bytes: Seq<u8>, stem: Seq<char>)
    requires
        zip_fixed_files(bytes, stem) is Some,
        zip_catalog_of(bytes) matches Some(cat) && distinct_names(zip_names(cat)),
    ensures
        standard_files(zip_fixed_files(bytes, stem).unwrap()),
{
    reveal_strlit("pack.mcmeta");
    let cat = zip_catalog_of(bytes).unwrap();
    let names = zip_names(cat);
    let acc = zip_kept_upto(bytes, cat, stem, cat.len() as int).unwrap();
    let src = lemma_zip_kept_sources(bytes, cat, stem, cat.len() as int);
    let fs = zip_fixed_files(bytes, stem).unwrap();
    assert(fs == with_default(acc, names, stem));
    let added = !any_equal(names, "pack.mcmeta"@) && chosen_mcmeta(names) is None;
    law_fix_plan_writes_one_mcmeta(names);
    assert forall|j: int| 0 <= j < acc.len() implies fix_target(names, names[src[j]]) == Some(acc[j].0) && core_path(acc[j].0) by {
        assert(names[src[j]] == cat[src[j]].0);
        law_fix_targets_are_core_paths(names, names[src[j]]);
    }
    assert forall|j: int| 0 <= j < fs.len() implies core_path(#[trigger] fs[j].0) by {
        if j < acc.len() {
            assert(fs[j] == acc[j]);
        }
    }
    assert forall|a: int, b: int| 0 <= a < b < fs.len() implies fs[a].0 != fs[b].0 by {
        assert(fs[a] == acc[a]);
        if b < acc.len() {
            assert(fs[b] == acc[b]);
            assert(src[a] < src[b]);
            law_fix_targets_distinct(names, src[a], src[b]);
        } else {
            assert(added);
            assert(fix_target(names, names[src[a]]) != Some("pack.mcmeta"@));
        }
    }
    if added {
        assert(fs[acc.len() as int].0 == "pack.mcmeta"@);
    } else {
        let i = choose|i: int| 0 <= i < names.len() && fix_target(names, #[trigger] names[i]) == Some("pack.mcmeta"@);
        lemma_mcmeta_source_is_a_file(names, names[i]);
        assert(names[i] == cat[i].0);
        assert(fix_target(names, cat[i].0) is Some);
        let j = choose|j: int| 0 <= j < src.len() && src[j] == i;
        assert(fs[j] == acc[j]);
        assert(fs[j].0 == "pack.mcmeta"@);
    }
}

/// The source position of every file kept from a folder listing, in order,
/// and every listed file with a target among them.
proof fn lemma_dir_kept_sources(files: Seq<(Seq<char>, Option<Seq<u8>>)>, stem: Seq<char>, k: int) -> (src: Seq<int>)
    requires
        0 <= k <= files.len(),
        dir_kept_upto(files, listing_names(files), stem, k) is Some,
    ensures
        src.len() == dir_kept_upto(files, listing_names(files), stem, k).unwrap().len(),
        forall|j: int| 0 <= j < src.len() ==> 0 <= #[trigger] src[j] < k && fix_target(listing_names(files), files[src[j]].0) == Some(
            dir_kept_upto(files, listing_names(files), stem, k).unwrap()[j].0,
        ),
        forall|a: int, b: int| 0 <= a < b < src.len() ==> src[a] < src[b],
        forall|i: int|
            0 <= i < k && (#[trigger] fix_target(listing_names(files), files[i].0)) is Some ==> exists|j: int|
                0 <= j < src.len() && src[j] == i,
    decreases k,
{
    let names = listing_names(files);
    if k == 0 {
        Seq::<int>::empty()
    } else {
        let prev = lemma_dir_kept_sources(files, stem, k - 1);
        if fix_target(names, files[k - 1].0) is None {
            prev
        } else {
            let src = prev.push(k - 1);
            assert forall|i: int|
                0 <= i < k && (#[trigger] fix_target(names, files[i].0)) is Some implies exists|j: int|
                    0 <= j < src.len() && src[j] == i by {
                if i == k - 1 {
                    assert(src[prev.len() as int] == i);
                } else {
                    let j = choose|j: int| 0 <= j < prev.len() && prev[j] == i;
                    assert(src[j] == i);
                }
            }
            src
        }
    }
}

/// A folder pack whose file paths are distinct rebuilds into a standard
/// pack: every file on a core path, no name twice, and exactly one
/// `pack.mcmeta`.
pub proof fn law_rebuilt_folder_is_standard(n: FsNode, stem: Seq<char>)
    requires
        dir_fixed_files(n, stem) is Some,
        distinct_names(listing_names(tree_files(n, Seq::<char>::empty()))),
    ensures
        standard_files(dir_fixed_files(n, stem).unwrap()),
{
    reveal_strlit("pack.mcmeta");
    let files = tree_files(n, Seq::<char>::empty());
    let names = listing_names(files);
    let acc = dir_kept_upto(files, names, stem, files.len() as int).unwrap();
    let src = lemma_dir_kept_sources(files, stem, files.len() as int);
    let fs = dir_fixed_files(n, stem).unwrap();
    assert(fs == with_default(acc, names, stem));
    let added = !any_equal(names, "pack.mcmeta"@) && chosen_mcmeta(names) is None;
    law_fix_plan_writes_one_mcmeta(names);
    assert forall|j: int| 0 <= j < acc.len() implies fix_target(names, names[src[j]]) == Some(acc[j].0) && core_path(acc[j].0) by {
        assert(names[src[j]] == files[src[j]].0);
        law_fix_targets_are_core_paths(names, names[src[j]]);
    }
    assert forall|j: int| 0 <= j < fs.len() implies core_path(#[trigger] fs[j].0) by {
        if j < acc.len() {
            assert(fs[j] == acc[j]);
        }
    }
    assert forall|a: int, b: int| 0 <= a < b < fs.len() implies fs[a].0 != fs[b].0 by {
        assert(fs[a] == acc[a]);
        if b < acc.len() {
            assert(fs[b] == acc[b]);
            assert(src[a] < src[b]);
            law_fix_targets_distinct(names, src[a], src[b]);
        } else {
            assert(added);
            assert(fix_target(names, names[src[a]]) != Some("pack.mcmeta"@));
        }
    }
    if added {
        assert(fs[acc.len() as int].0 == "pack.mcmeta"@);
    } else {
        let i = choose|i: int| 0 <= i < names.len() && fix_target(names, #[trigger] names[i]) == Some("pack.mcmeta"@);
        assert(names[i] == files[i].0);
        assert(fix_target(names, files[i].0) is Some);
        let j = choose|j: int| 0 <= j < src.len() && src[j] == i;
        assert(fs[j] == acc[j]);
        assert(fs[j].0 == "pack.mcmeta"@);
    }
}

/// A path of a rebuilt pack: a core file at the root, or a live path under
/// `assets/`.
pub open spec fn kept_shape(t: Seq<char>) -> bool {
    t == "pack.mcmeta"@ || t == "pack.png"@ || (is_prefix("assets/"@, t) && !dead_path(t))
}

proof fn lemma_target_shape(names: Seq<Seq<char>>, n: Seq<char>)
    requires
        fix_target(names, n) is Some,
    ensures
        kept_shape(fix_target(names, n).unwrap()),
{
}

/// A path of a rebuilt pack adds nothing the scan counts as bloat.
proof fn lemma_clean_path(t: Seq<char>)
    requires
        kept_shape(t),
    ensures
        !extra_root(first_component(t)),
        !dead_path(t),
        !(!t.contains('/') && png_variant(t)),
{
    reveal_strlit("pack.mcmeta");
    reveal_strlit("pack.png");
    reveal_strlit("pack..png");
    reveal_strlit("pack.png.png");
    reveal_strlit("assets/");
    reveal_strlit("assets");
    if t == "pack.mcmeta"@ || t == "pack.png"@ {
        assert forall|i: int| 0 <= i < t.len() implies t[i] != '/' by {}
        lemma_split_no_sep(t, '/');
        assert(first_component(t) == t);
        assert(lower(t).len() == t.len());
    } else {
        let p = t.take(7);
        assert(p == "assets/"@);
        assert(p[6] == '/');
        assert(t[6] == p[6]);
        assert forall|i: int| 0 <= i < 6 implies t[i] != '/' by {
            assert(t[i] == p[i]);
        }
        lemma_split_first(t, '/', 6);
        assert(t.take(6) =~= "assets"@);
        assert(first_component(t) == "assets"@);
        assert(t.contains('/'));
    }
}

/// The names of a list of files.
pub open spec fn file_names(fs: Seq<(Seq<char>, Seq<u8>)>) -> Seq<Seq<char>> {
    fs.map_values(|e: (Seq<char>, Seq<u8>)| e.0)
}

/// Files whose paths all have the rebuilt shape, one of them `pack.mcmeta`,
/// lay out as the scan's clean pack.
proof fn lemma_clean_layout(fs: Seq<(Seq<char>, Seq<u8>)>)
    requires
        forall|j: int| 0 <= j < fs.len() ==> kept_shape(#[trigger] fs[j].0),
        exists|j: int| 0 <= j < fs.len() && fs[j].0 == "pack.mcmeta"@,
    ensures
        root_facts(file_names(fs)).has_mcmeta,
        bloat_cause_texts(root_facts(file_names(fs))).len() == 0,
{
    let names = file_names(fs);
    let j = choose|j: int| 0 <= j < fs.len() && fs[j].0 == "pack.mcmeta"@;
    assert(names[j] == "pack.mcmeta"@);
    let f = root_facts(names);
    assert(!f.has_extras) by {
        if f.has_extras {
            let i = choose|i: int| 0 <= i < names.len() && extra_root(first_component(#[trigger] names[i]));
            lemma_clean_path(fs[i].0);
        }
    }
    assert(!f.dead_path) by {
        if f.dead_path {
            let i = choose|i: int| 0 <= i < names.len() && dead_path(#[trigger] names[i]);
            lemma_clean_path(fs[i].0);
        }
    }
    assert(!f.png_rescuable) by {
        if f.png_rescuable {
            let i = choose|i: int| 0 <= i < names.len() && !(#[trigger] names[i]).contains('/') && png_variant(names[i]);
            lemma_clean_path(fs[i].0);
        }
    }
}

/// Every file of a pack rebuilt from an archive has the rebuilt shape, and
/// one of them is `pack.mcmeta`.
proof fn lemma_zip_fixed_shape(bytes: Seq<u8>, stem: Seq<char>)
    requires
        zip_fixed_files(bytes, stem) is Some,
    ensures
        forall|j: int| 0 <= j < zip_fixed_files(bytes, stem).unwrap().len() ==> kept_shape(#[trigger] zip_fixed_files(bytes, stem).unwrap()[j].0),
        exists|j: int| 0 <= j < zip_fixed_files(bytes, stem).unwrap().len() && zip_fixed_files(bytes, stem).unwrap()[j].0 == "pack.mcmeta"@,
{
    reveal_strlit("pack.mcmeta");
    let cat = zip_catalog_of(bytes).unwrap();
    let names = zip_names(cat);
    let acc = zip_kept_upto(bytes, cat, stem, cat.len() as int).unwrap();
    let src = lemma_zip_kept_sources(bytes, cat, stem, cat.len() as int);
    let fs = zip_fixed_files(bytes, stem).unwrap();
    let added = !any_equal(names, "pack.mcmeta"@) && chosen_mcmeta(names) is None;
    law_fix_plan_writes_one_mcmeta(names);
    assert forall|j: int| 0 <= j < fs.len() implies kept_shape(#[trigger] fs[j].0) by {
        if j < acc.len() {
            assert(fs[j] == acc[j]);
            assert(names[src[j]] == cat[src[j]].0);
            lemma_target_shape(names, names[src[j]]);
        }
    }
    if added {
        assert(fs[acc.len() as int].0 == "pack.mcmeta"@);
    } else {
        let i = choose|i: int| 0 <= i < names.len() && fix_target(names, #[trigger] names[i]) == Some("pack.mcmeta"@);
        lemma_mcmeta_source_is_a_file(names, names[i]);
        assert(names[i] == cat[i].0);
        assert(fix_target(names, cat[i].0) is Some);
        let j = choose|j: int| 0 <= j < src.len() && src[j] == i;
        assert(fs[j] == acc[j]);
    }
}

/// Every file of a pack rebuilt from a folder has the rebuilt shape, and
/// one of them is `pack.mcmeta`.
proof fn lemma_dir_fixed_shape(n: FsNode, stem: Seq<char>)
    requires
        dir_fixed_files(n, stem) is Some,
    ensures
        forall|j: int| 0 <= j < dir_fixed_files(n, stem).unwrap().len() ==> kept_shape(#[trigger] dir_fixed_files(n, stem).unwrap()[j].0),
        exists|j: int| 0 <= j < dir_fixed_files(n, stem).unwrap().len() && dir_fixed_files(n, stem).unwrap()[j].0 == "pack.mcmeta"@,
{
    reveal_strlit("pack.mcmeta");
    let files = tree_files(n, Seq::<char>::empty());
    let names = listing_names(files);
    let acc = dir_kept_upto(files, names, stem, files.len() as int).unwrap();
    let src = lemma_dir_kept_sources(files, stem, files.len() as int);
    let fs = dir_fixed_files(n, stem).unwrap();
    let added = !any_equal(names, "pack.mcmeta"@) && chosen_mcmeta(names) is None;
    law_fix_plan_writes_one_mcmeta(names);
    assert forall|j: int| 0 <= j < fs.len() implies kept_shape(#[trigger] fs[j].0) by {
        if j < acc.len() {
            assert(fs[j] == acc[j]);
            assert(names[src[j]] == files[src[j]].0);
            lemma_target_shape(names, names[src[j]]);
        }
    }
    if added {
        assert(fs[acc.len() as int].0 == "pack.mcmeta"@);
    } else {
        let i = choose|i: int| 0 <= i < names.len() && fix_target(names, #[trigger] names[i]) == Some("pack.mcmeta"@);
        assert(names[i] == files[i].0);
        assert(fix_target(names, files[i].0) is Some);
        let j = choose|j: int| 0 <= j < src.len() && src[j] == i;
        assert(fs[j] == acc[j]);
    }
}

/// A pack rebuilt from an archive lays out as the scan's clean pack: it has
/// a `pack.mcmeta`, and shows no bloat cause (no extras at the root, no
/// dead path, no typo'd icon left).
pub proof fn law_rebuilt_archive_layout_is_clean(bytes: Seq<u8>, stem: Seq<char>)
    requires
        zip_fixed_files(bytes, stem) is Some,
    ensures
        root_facts(file_names(zip_fixed_files(bytes, stem).unwrap())).has_mcmeta,
        bloat_cause_texts(root_facts(file_names(zip_fixed_files(bytes, stem).unwrap()))).len() == 0,
{
    lemma_zip_fixed_shape(bytes, stem);
    lemma_clean_layout(zip_fixed_files(bytes, stem).unwrap());
}

/// A pack rebuilt from a folder lays out as the scan's clean pack: it has a
/// `pack.mcmeta`, and shows no bloat cause.
pub proof fn law_rebuilt_folder_layout_is_clean(n: FsNode, stem: Seq<char>)
    requires
        dir_fixed_files(n, stem) is Some,
    ensures
        root_facts(file_names(dir_fixed_files(n, stem).unwrap())).has_mcmeta,
        bloat_cause_texts(root_facts(file_names(dir_fixed_files(n, stem).unwrap()))).len() == 0,
{
    lemma_dir_fixed_shape(n, stem);
    lemma_clean_layout(dir_fixed_files(n, stem).unwrap());
}

/// No file named `pack.mcmeta` among `fs` is illegal in Lunar.
pub open spec fn mcmeta_lunar_legal(fs: Seq<(Seq<char>, Seq<u8>)>) -> bool {
    forall|j: int| 0 <= j < fs.len() && (#[trigger] fs[j]).0 == "pack.mcmeta"@ ==> !lunar_bad(fs[j].1)
}

proof fn lemma_kept_push_legal(acc: Seq<(Seq<char>, Seq<u8>)>, t: Seq<char>, d: Seq<u8>, stem: Seq<char>)
    requires
        mcmeta_lunar_legal(acc),
    ensures
        mcmeta_lunar_legal(acc.push((t, kept_bytes(t, d, stem)))),
{
    if t == "pack.mcmeta"@ {
        law_product_mcmeta_is_lunar_legal(d, stem);
    }
    let out = acc.push((t, kept_bytes(t, d, stem)));
    assert forall|j: int| 0 <= j < out.len() && (#[trigger] out[j]).0 == "pack.mcmeta"@ implies !lunar_bad(out[j].1) by {
        if j < acc.len() {
            assert(out[j] == acc[j]);
        }
    }
}

proof fn lemma_default_legal(kept: Seq<(Seq<char>, Seq<u8>)>, names: Seq<Seq<char>>, stem: Seq<char>)
    requires
        mcmeta_lunar_legal(kept),
    ensures
        mcmeta_lunar_legal(with_default(kept, names, stem)),
{
    law_generated_mcmeta_is_lunar_legal(stem);
    let out = with_default(kept, names, stem);
    assert forall|j: int| 0 <= j < out.len() && (#[trigger] out[j]).0 == "pack.mcmeta"@ implies !lunar_bad(out[j].1) by {
        if j < kept.len() {
            assert(out[j] == kept[j]);
        }
    }
}

proof fn lemma_zip_kept_legal(bytes: Seq<u8>, cat: CatalogView, stem: Seq<char>, k: int)
    requires
        zip_kept_upto(bytes, cat, stem, k) is Some,
    ensures
        mcmeta_lunar_legal(zip_kept_upto(bytes, cat, stem, k).unwrap()),
    decreases k,
{
    if k > 0 && k <= cat.len() {
        lemma_zip_kept_legal(bytes, cat, stem, k - 1);
        let e = cat[k - 1];
        if !zip_dir_name(e.0) {
            if let Some(t) = fix_target(zip_names(cat), e.0) {
                lemma_kept_push_legal(zip_kept_upto(bytes, cat, stem, k - 1).unwrap(), t, zip_entry_data_of(bytes, k - 1).unwrap(), stem);
            }
        }
    }
}

proof fn lemma_dir_kept_legal(files: Seq<(Seq<char>, Option<Seq<u8>>)>, names: Seq<Seq<char>>, stem: Seq<char>, k: int)
    requires
        dir_kept_upto(files, names, stem, k) is Some,
    ensures
        mcmeta_lunar_legal(dir_kept_upto(files, names, stem, k).unwrap()),
    decreases k,
{
    if k > 0 && k <= files.len() {
        lemma_dir_kept_legal(files, names, stem, k - 1);
        if let Some(t) = fix_target(names, files[k - 1].0) {
            lemma_kept_push_legal(dir_kept_upto(files, names, stem, k - 1).unwrap(), t, files[k - 1].1.unwrap(), stem);
        }
    }
}

/// Law: whatever pack is rebuilt, from an archive or from a folder, the
/// `pack.mcmeta` its clean zip holds is never illegal in Lunar.
pub proof fn law_rebuilt_mcmeta_is_lunar_legal(moved: FsNode, stem: Seq<char>)
    requires
        fixed_files(moved, stem) is Some,
    ensures
        mcmeta_lunar_legal(fixed_files(moved, stem).unwrap()),
{
    match moved {
        FsNode::Dir { .. } => {
            let files = tree_files(moved, Seq::<char>::empty());
            let names = listing_names(files);
            lemma_dir_kept_legal(files, names, stem, files.len() as int);
            lemma_default_legal(dir_kept_upto(files, names, stem, files.len() as int).unwrap(), names, stem);
        },
        FsNode::File { data, .. } => {
            let b = data.unwrap()@;
            let cat = zip_catalog_of(b).unwrap();
            lemma_zip_kept_legal(b, cat, stem, cat.len() as int);
            lemma_default_legal(zip_kept_upto(b, cat, stem, cat.len() as int).unwrap(), zip_names(cat), stem);
        },
    }
}

} // verus!
