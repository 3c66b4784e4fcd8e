//! Reading a wrapping zip: where each pack inside it comes from, and the
//! loose files that are released beside the packs.
use vstd::prelude::*;
use crate::archive::{
    catalog_view, decode_entry_name, decode_name, decoded_names, decoded_zip_names, read_decoded,
    read_decoded_zip_file, zip_catalog, zip_catalog_of, zip_entry_data_of, zip_read, CatalogView, ZipEntry,
};
use crate::misplaced::{folder_entries_upto, pairs_view, read_zip_folder_entries};
use crate::layout::texts;
use crate::misplaced::slash_fixed;
use crate::model::{entries_view, EntryView, NodeKind, PackEntry};
use crate::outcome::slashed;
use crate::rebuild::zip_dir_name;
use crate::shellplan::{
    archive_attachment_target, attachment_target, folder_source, inner_path, inner_path_of,
    is_folder_source, skip_attachment, skipped_attachment, sources_view,
};
use crate::text::chars_of;

verus! {

/// Where each pack of the shell comes from inside the zip: its path there,
/// and whether it is a folder (no file entry carries that path).
pub open spec fn pack_source_of(archive_names: Seq<Seq<char>>, shell_rel: Seq<char>, child: EntryView) -> (Seq<char>, bool) {
    let inner = inner_path_of(shell_rel, child);
    (inner, folder_source(archive_names, inner))
}

/// The sources of the packs among the picked descendants, in order.
pub open spec fn pack_sources_upto(es: Seq<EntryView>, idx: Seq<usize>, archive_names: Seq<Seq<char>>, shell_rel: Seq<char>, k: int) -> Seq<(Seq<char>, bool)>
    decreases k,
{
    if k <= 0 || k > idx.len() {
        Seq::<(Seq<char>, bool)>::empty()
    } else {
        let prev = pack_sources_upto(es, idx, archive_names, shell_rel, k - 1);
        let e = es[idx[k - 1] as int];
        if e.3 == NodeKind::Pack {
            prev.push(pack_source_of(archive_names, shell_rel, e))
        } else {
            prev
        }
    }
}

/// The sources of the shell's packs; `children` are the indices of its
/// descendants, `archive_names` the zip's decoded names.
pub fn pack_sources(entries: &Vec<PackEntry>, children: &Vec<usize>, shell: &PackEntry, archive_names: &Vec<Vec<char>>) -> (r: Vec<(Vec<char>, bool)>)
    requires
        forall|j: int| 0 <= j < children@.len() ==> children@[j] < entries@.len(),
    ensures
        sources_view(r@) == pack_sources_upto(entries_view(entries@), children@, texts(archive_names@), shell.relative_path@, children@.len() as int),
{
    let ghost ev = entries_view(entries@);
    let mut out: Vec<(Vec<char>, bool)> = Vec::new();
    let mut i: usize = 0;
    while i < children.len()
        invariant
            0 <= i <= children@.len(),
            ev == entries_view(entries@),
            forall|j: int| 0 <= j < children@.len() ==> children@[j] < entries@.len(),
            sources_view(out@) == pack_sources_upto(ev, children@, texts(archive_names@), shell.relative_path@, i as int),
        decreases children@.len() - i,
    {
        let ghost before = sources_view(out@);
        let child = &entries[children[i]];
        assert(ev[children@[i as int] as int] == child@);
        if child.kind == NodeKind::Pack {
            let inner = inner_path(shell, child);
            let folder = is_folder_source(archive_names.as_slice(), inner.as_slice());
            let ghost iv = inner@;
            out.push((inner, folder));
            assert(sources_view(out@) =~= before.push((iv, folder)));
        }
        i = i + 1;
    }
    out
}

/// The loose files of the zip released among the first `k` entries, each
/// with its target folder components and its contents: folders, files of
/// the packs, junk and files outside any kept folder are left out; `None`
/// when an entry cannot be opened or a released one cannot be read.
pub open spec fn attachments_upto(
    bytes: Seq<u8>,
    cat: CatalogView,
    es: Seq<EntryView>,
    idx: Seq<usize>,
    shell_rel: Seq<char>,
    sources: Seq<(Seq<char>, bool)>,
    k: int,
) -> Option<Seq<(Seq<Seq<char>>, Seq<u8>)>>
    decreases k,
{
    if k <= 0 || k > cat.len() {
        Some(Seq::<(Seq<Seq<char>>, Seq<u8>)>::empty())
    } else {
        match attachments_upto(bytes, cat, es, idx, shell_rel, sources, k - 1) {
            None => None,
            Some(acc) => {
                let e = cat[k - 1];
                if e.2 is None {
                    None
                } else if zip_dir_name(e.0) {
                    Some(acc)
                } else {
                    match e.1 {
                        None => None,
                        Some(raw) => {
                            let inner = slashed(decode_name(raw.0));
                            if skipped_attachment(inner, sources) {
                                Some(acc)
                            } else {
                                match attachment_target(es, idx, shell_rel, inner) {
                                    None => Some(acc),
                                    Some(t) => match zip_entry_data_of(bytes, k - 1) {
                                        None => None,
                                        Some(d) => Some(acc.push((t, d))),
                                    },
                                }
                            }
                        },
                    }
                }
            },
        }
    }
}

pub open spec fn placed_view(v: Seq<(Vec<Vec<char>>, Vec<u8>)>) -> Seq<(Seq<Seq<char>>, Seq<u8>)> {
    v.map_values(|e: (Vec<Vec<char>>, Vec<u8>)| (texts(e.0@), e.1@))
}

proof fn lemma_attachments_stay_none(
    bytes: Seq<u8>,
    cat: CatalogView,
    es: Seq<EntryView>,
    idx: Seq<usize>,
    shell_rel: Seq<char>,
    sources: Seq<(Seq<char>, bool)>,
    k: int,
    m: int,
)
    requires
        0 < k <= m <= cat.len(),
        attachments_upto(bytes, cat, es, idx, shell_rel, sources, k) is None,
    ensures
        attachments_upto(bytes, cat, es, idx, shell_rel, sources, m) is None,
    decreases m - k,
{
    if m > k {
        lemma_attachments_stay_none(bytes, cat, es, idx, shell_rel, sources, k, m - 1);
    }
}

/// The loose files of a wrapping zip released into the packs folder:
/// `None` when the zip cannot be opened or one of them cannot be read.
pub open spec fn shell_attachments(
    bytes: Seq<u8>,
    es: Seq<EntryView>,
    idx: Seq<usize>,
    shell_rel: Seq<char>,
    sources: Seq<(Seq<char>, bool)>,
) -> Option<Seq<(Seq<Seq<char>>, Seq<u8>)>> {
    match zip_catalog_of(bytes) {
        None => None,
        Some(cat) => attachments_upto(bytes, cat, es, idx, shell_rel, sources, cat.len() as int),
    }
}

/// The loose files of a wrapping zip that are released into the packs
/// folder, in catalog order, each with its target folder components (the
/// last one the file's name) and its contents. `children` are the indices
/// of the shell's descendants and `sources` the packs' sources.
pub fn archive_attachments(
    bytes: &[u8],
    entries: &Vec<PackEntry>,
    children: &Vec<usize>,
    shell: &PackEntry,
    sources: &Vec<(Vec<char>, bool)>,
) -> (r: Option<Vec<(Vec<Vec<char>>, Vec<u8>)>>)
    requires
        forall|j: int| 0 <= j < children@.len() ==> children@[j] < entries@.len(),
    ensures
        match r {
            Some(v) => shell_attachments(bytes@, entries_view(entries@), children@, shell.relative_path@, sources_view(sources@)) == Some(placed_view(v@)),
            None => shell_attachments(bytes@, entries_view(entries@), children@, shell.relative_path@, sources_view(sources@)) is None,
        },
{
    let cat = match crate::archive::zip_catalog(bytes) {
        Some(c) => c,
        None => return None,
    };
    let ghost cv = catalog_view(cat@);
    let ghost ev = entries_view(entries@);
    let ghost sv = sources_view(sources@);
    let ghost srel = shell.relative_path@;
    let mut out: Vec<(Vec<Vec<char>>, Vec<u8>)> = Vec::new();
    let mut i: usize = 0;
    while i < cat.len()
        invariant
            0 <= i <= cat@.len(),
            cv == catalog_view(cat@),
            zip_catalog_of(bytes@) == Some(cv),
            ev == entries_view(entries@),
            sv == sources_view(sources@),
            srel == shell.relative_path@,
            forall|j: int| 0 <= j < children@.len() ==> children@[j] < entries@.len(),
            attachments_upto(bytes@, cv, ev, children@, srel, sv, i as int) == Some(placed_view(out@)),
        decreases cat@.len() - i,
    {
        let ghost before = placed_view(out@);
        let e = &cat[i];
        assert(cv[i as int] == crate::archive::entry_view(cat@[i as int]));
        if e.size.is_none() {
            proof {
                lemma_attachments_stay_none(bytes@, cv, ev, children@, srel, sv, i + 1, cv.len() as int);
            }
            return None;
        }
        let n = chars_of(e.name.as_str());
        if n.len() > 0 && (n[n.len() - 1] == '/' || n[n.len() - 1] == '\\') {
            i = i + 1;
            continue;
        }
        let raw = match &e.raw {
            Some(r) => r,
            None => {
                proof {
                    lemma_attachments_stay_none(bytes@, cv, ev, children@, srel, sv, i + 1, cv.len() as int);
                }
                return None;
            },
        };
        let decoded = decode_entry_name(raw.name_raw.as_slice());
        let inner = slash_fixed(decoded.as_slice());
        if skip_attachment(inner.as_slice(), sources) {
            i = i + 1;
            continue;
        }
        match archive_attachment_target(entries, children, shell, inner.as_slice()) {
            None => {
                i = i + 1;
            },
            Some(target) => {
                let data = match zip_read(bytes, i) {
                    Some(d) => d,
                    None => {
                        proof {
                            lemma_attachments_stay_none(bytes@, cv, ev, children@, srel, sv, i + 1, cv.len() as int);
                        }
                        return None;
                    },
                };
                let ghost tv = texts(target@);
                out.push((target, data));
                assert(placed_view(out@) =~= before.push((tv, data@)));
                i = i + 1;
            },
        }
    }
    Some(out)
}

/// The decoded names of a zip's entries whose header can be read, in
/// order; `None` when the bytes are not an archive.
pub fn archive_names(bytes: &[u8]) -> (r: Option<Vec<Vec<char>>>)
    ensures
        match r {
            Some(v) => zip_catalog_of(bytes@) matches Some(cat) && texts(v@) == decoded_names(cat),
            None => zip_catalog_of(bytes@) is None,
        },
{
    match zip_catalog(bytes) {
        Some(cat) => {
            let (names, _) = decoded_zip_names(cat.as_slice());
            Some(names)
        },
        None => None,
    }
}

/// Where a pack inside a wrapping zip is read from: a file entry's bytes,
/// or the files of a folder, relative to it.
pub enum InnerSource {
    File(Vec<u8>),
    Folder(Vec<(String, Vec<u8>)>),
}

/// The source of the pack at `inner` inside a wrapping zip: the file whose
/// decoded name is `inner`, else the files below `inner/`; `None` when the
/// zip cannot be opened, a file below cannot be read, or there is none.
pub open spec fn inner_source_of(bytes: Seq<u8>, inner: Seq<char>) -> Option<(Option<Seq<u8>>, Seq<(Seq<char>, Seq<u8>)>)> {
    match zip_catalog_of(bytes) {
        None => None,
        Some(cat) => match read_decoded(bytes, cat, inner) {
            Some(d) => Some((Some(d), Seq::<(Seq<char>, Seq<u8>)>::empty())),
            None => match folder_entries_upto(bytes, cat, inner + "/"@, cat.len() as int) {
                Some(fs) => if fs.len() > 0 {
                    Some((None, fs))
                } else {
                    None
                },
                None => None,
            },
        },
    }
}

pub open spec fn inner_view(s: InnerSource) -> (Option<Seq<u8>>, Seq<(Seq<char>, Seq<u8>)>) {
    match s {
        InnerSource::File(d) => (Some(d@), Seq::<(Seq<char>, Seq<u8>)>::empty()),
        InnerSource::Folder(fs) => (None, pairs_view(fs@)),
    }
}

/// Reads the pack at `inner` out of a wrapping zip.
pub fn inner_pack_source(bytes: &[u8], inner: &[char]) -> (r: Option<InnerSource>)
    ensures
        match r {
            Some(s) => inner_source_of(bytes@, inner@) == Some(inner_view(s)),
            None => inner_source_of(bytes@, inner@) is None,
        },
{
    let cat = match zip_catalog(bytes) {
        Some(c) => c,
        None => return None,
    };
    match read_decoded_zip_file(bytes, cat.as_slice(), inner) {
        Some(d) => Some(InnerSource::File(d)),
        None => {
            let mut prefix = crate::text::copy_chars(inner);
            prefix.push('/');
            proof {
                reveal_strlit("/");
            }
            assert(prefix@ == inner@ + "/"@);
            match read_zip_folder_entries(bytes, &cat, prefix.as_slice()) {
                Some(files) => if files.len() > 0 {
                    Some(InnerSource::Folder(files))
                } else {
                    None
                },
                None => None,
            }
        },
    }
}

} // verus!
