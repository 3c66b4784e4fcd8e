//! Unwrapping a container: where each entry of an archive is extracted to,
//! and what the walk for rescuable layers does with each item it meets.
use vstd::prelude::*;
use crate::archive::{
    catalog_view, decode_entry_name, decode_name, zip_catalog, zip_catalog_of, zip_entry_data_of,
    zip_read, CatalogView, MAX_NESTING_DEPTH,
};
use crate::layout::texts;
use crate::misplaced::{safe_parts, safe_relative_path, slash_fixed};
use crate::names::{
    file_stem_of, is_junk_chars, junk_name, law_sanitized_is_windows_safe, sanitize_windows_name, sanitized, stem_of,
    windows_illegal,
};
use crate::outcome::slashed;
use crate::rebuild::zip_dir_name;
use crate::text::{chars_of, split, string_of};

verus! {

/// Where an entry is extracted: its decoded name with backslashes read as
/// separators, split into safe, sanitized components; `None` when the path
/// climbs out of the extraction folder.
pub open spec fn extract_parts(raw: Seq<u8>) -> Option<Seq<Seq<char>>> {
    safe_parts(split(slashed(decode_name(raw)), '/'))
}

/// The files extracted from the first `k` catalog entries, each with its
/// path components and contents: folders, entries that climb out and
/// entries with no component left are skipped; `None` when an entry cannot
/// be opened or read.
pub open spec fn extract_upto(bytes: Seq<u8>, cat: CatalogView, k: int) -> Option<Seq<(Seq<Seq<char>>, Seq<u8>)>>
    decreases k,
{
    if k <= 0 || k > cat.len() {
        Some(Seq::<(Seq<Seq<char>>, Seq<u8>)>::empty())
    } else {
        match extract_upto(bytes, cat, k - 1) {
            None => None,
            Some(acc) => {
                let e = cat[k - 1];
                if e.2 is None {
                    None
                } else if zip_dir_name(e.0) {
                    Some(acc)
                } else {
                    match e.1 {
                        None => None,
                        Some(raw) => match extract_parts(raw.0) {
                            None => Some(acc),
                            Some(cs) => if cs.len() == 0 {
                                Some(acc)
                            } else {
                                match zip_entry_data_of(bytes, k - 1) {
                                    None => None,
                                    Some(d) => Some(acc.push((cs, d))),
                                }
                            },
                        },
                    }
                }
            },
        }
    }
}

/// Everything extracting the archive writes, in catalog order.
pub open spec fn extracted_files(bytes: Seq<u8>) -> Option<Seq<(Seq<Seq<char>>, Seq<u8>)>> {
    match zip_catalog_of(bytes) {
        None => None,
        Some(cat) => extract_upto(bytes, cat, cat.len() as int),
    }
}

pub open spec fn extracted_view(v: Seq<(Vec<String>, Vec<u8>)>) -> Seq<(Seq<Seq<char>>, Seq<u8>)> {
    v.map_values(|e: (Vec<String>, Vec<u8>)| (crate::model::strs(e.0@), e.1@))
}

proof fn lemma_extract_stays_none(bytes: Seq<u8>, cat: CatalogView, k: int, m: int)
    requires
        0 < k <= m <= cat.len(),
        extract_upto(bytes, cat, k) is None,
    ensures
        extract_upto(bytes, cat, m) is None,
    decreases m - k,
{
    if m > k {
        lemma_extract_stays_none(bytes, cat, k, m - 1);
    }
}

fn to_strings(v: Vec<Vec<char>>) -> (r: Vec<String>)
    ensures
        crate::model::strs(r@) == texts(v@),
{
    let mut out: Vec<String> = Vec::new();
    let mut i: usize = 0;
    while i < v.len()
        invariant
            0 <= i <= v@.len(),
            crate::model::strs(out@) == texts(v@).take(i as int),
        decreases v@.len() - i,
    {
        let ghost before = crate::model::strs(out@);
        let s = string_of(v[i].as_slice());
        out.push(s);
        i = i + 1;
        assert(crate::model::strs(out@) =~= texts(v@).take(i as int)) by {
            assert(crate::model::strs(out@) =~= before.push(s@));
        }
    }
    assert(texts(v@).take(v@.len() as int) =~= texts(v@));
    out
}

/// The files that extracting an archive writes: for each file entry, in
/// order, the safe path below the extraction folder and the contents.
pub fn extract_files(bytes: &[u8]) -> (r: Option<Vec<(Vec<String>, Vec<u8>)>>)
    ensures
        match r {
            Some(v) => extracted_files(bytes@) == Some(extracted_view(v@)),
            None => extracted_files(bytes@) is None,
        },
{
    let cat = match zip_catalog(bytes) {
        Some(c) => c,
        None => return None,
    };
    let ghost cv = catalog_view(cat@);
    let mut out: Vec<(Vec<String>, Vec<u8>)> = Vec::new();
    let mut i: usize = 0;
    while i < cat.len()
        invariant
            0 <= i <= cat@.len(),
            zip_catalog_of(bytes@) == Some(cv),
            cv == catalog_view(cat@),
            extract_upto(bytes@, cv, i as int) == Some(extracted_view(out@)),
        decreases cat@.len() - i,
    {
        let ghost before = extracted_view(out@);
        let e = &cat[i];
        assert(cv[i as int] == crate::archive::entry_view(cat@[i as int]));
        if e.size.is_none() {
            proof {
                lemma_extract_stays_none(bytes@, cv, i + 1, cv.len() as int);
            }
            return None;
        }
        let n = chars_of(e.name.as_str());
        let dir_like = n.len() > 0 && (n[n.len() - 1] == '/' || n[n.len() - 1] == '\\');
        if dir_like {
            i = i + 1;
            continue;
        }
        let raw = match &e.raw {
            Some(r) => r,
            None => {
                proof {
                    lemma_extract_stays_none(bytes@, cv, i + 1, cv.len() as int);
                }
                return None;
            },
        };
        let decoded = decode_entry_name(raw.name_raw.as_slice());
        let fixed = slash_fixed(decoded.as_slice());
        match safe_relative_path(fixed.as_slice()) {
            None => {
                i = i + 1;
            },
            Some(parts) => {
                if parts.len() == 0 {
                    proof {
                        assert(texts(parts@).len() == 0);
                    }
                    i = i + 1;
                } else {
                    let data = match zip_read(bytes, i) {
                        Some(d) => d,
                        None => {
                            proof {
                                lemma_extract_stays_none(bytes@, cv, i + 1, cv.len() as int);
                            }
                            return None;
                        },
                    };
                    let ghost cs = texts(parts@);
                    let strings = to_strings(parts);
                    out.push((strings, data));
                    assert(extracted_view(out@) =~= before.push((cs, data@)));
                    i = i + 1;
                }
            },
        }
    }
    Some(out)
}

/// What the walk for rescuable layers does with one item of a folder.
#[derive(PartialEq, Eq, Structural, Clone, Copy, Debug)]
pub enum LayerStep {
    /// Junk, or a file that is not an archive: passed over.
    Skip,
    /// A folder with an `assets/` folder: a layer to rebuild.
    Layer,
    /// A folder without one: walked one level deeper.
    Descend,
    /// An archive: extracted, then taken as a layer or walked.
    Unpack,
}

pub open spec fn layer_step_of(name: Seq<char>, is_dir: bool, has_assets: bool, zip_head: bool) -> LayerStep {
    if junk_name(name) {
        LayerStep::Skip
    } else if is_dir {
        if has_assets {
            LayerStep::Layer
        } else {
            LayerStep::Descend
        }
    } else if zip_head {
        LayerStep::Unpack
    } else {
        LayerStep::Skip
    }
}

/// Decides what the walk does with an item named `name`: `has_assets`
/// tells whether a folder holds an `assets` folder, `zip_head` whether a
/// file starts with `PK`.
pub fn layer_step(name: &[char], is_dir: bool, has_assets: bool, zip_head: bool) -> (r: LayerStep)
    ensures
        r == layer_step_of(name@, is_dir, has_assets, zip_head),
{
    if is_junk_chars(name) {
        LayerStep::Skip
    } else if is_dir {
        if has_assets {
            LayerStep::Layer
        } else {
            LayerStep::Descend
        }
    } else if zip_head {
        LayerStep::Unpack
    } else {
        LayerStep::Skip
    }
}

/// The walk goes no deeper than `MAX_NESTING_DEPTH` levels below the
/// container.
pub fn walk_allowed(child_depth: usize) -> (r: bool)
    ensures
        r == (child_depth <= 10),
{
    child_depth <= MAX_NESTING_DEPTH
}

/// The folder an archive met by the walk is extracted into (before any
/// " (n)" suffix): its sanitized stem with `.x` appended.
pub fn unpack_dir_name(name: &[char]) -> (r: Vec<char>)
    ensures
        r@ == sanitized(stem_of(name@)) + ".x"@,
{
    let stem = file_stem_of(name);
    let mut s = sanitize_windows_name(stem.as_slice());
    let ghost head = s@;
    s.push('.');
    s.push('x');
    proof {
        reveal_strlit(".x");
    }
    assert(s@ =~= head + ".x"@);
    s
}

/// A path component that names an entry of its own folder on Windows: not
/// empty, no separator or other refused character, and no trailing dot, so
/// never `.` or `..`.
pub open spec fn safe_component(c: Seq<char>) -> bool {
    &&& c.len() > 0
    &&& forall|i: int| 0 <= i < c.len() ==> !windows_illegal(#[trigger] c[i])
    &&& c.last() != '.'
}

proof fn lemma_safe_parts_components(comps: Seq<Seq<char>>)
    requires
        safe_parts(comps) is Some,
    ensures
        forall|k: int| 0 <= k < safe_parts(comps).unwrap().len() ==> safe_component(#[trigger] safe_parts(comps).unwrap()[k]),
    decreases comps.len(),
{
    if comps.len() > 0 {
        lemma_safe_parts_components(comps.drop_last());
        law_sanitized_is_windows_safe(comps.last());
    }
}

proof fn lemma_extract_components(bytes: Seq<u8>, cat: CatalogView, k: int)
    requires
        extract_upto(bytes, cat, k) is Some,
    ensures
        forall|j: int, c: int|
            0 <= j < extract_upto(bytes, cat, k).unwrap().len() && 0 <= c < extract_upto(bytes, cat, k).unwrap()[j].0.len()
                ==> safe_component(#[trigger] extract_upto(bytes, cat, k).unwrap()[j].0[c]),
    decreases k,
{
    if k > 0 && k <= cat.len() {
        lemma_extract_components(bytes, cat, k - 1);
        let e = cat[k - 1];
        if let Some(raw) = e.1 {
            if extract_parts(raw.0) is Some {
                lemma_safe_parts_components(split(slashed(decode_name(raw.0)), '/'));
            }
        }
    }
}

/// Extraction stays inside its folder: every component an archive entry is
/// written to is a name of its own (never empty, `.` or `..`, and without a
/// separator or another character Windows refuses).
pub proof fn law_extraction_stays_inside(bytes: Seq<u8>)
    requires
        extracted_files(bytes) is Some,
    ensures
        forall|j: int, c: int|
            0 <= j < extracted_files(bytes).unwrap().len() && 0 <= c < extracted_files(bytes).unwrap()[j].0.len()
                ==> safe_component(#[trigger] extracted_files(bytes).unwrap()[j].0[c]),
{
    let cat = zip_catalog_of(bytes).unwrap();
    lemma_extract_components(bytes, cat, cat.len() as int);
}

} // verus!
