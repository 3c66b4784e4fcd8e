//! Zip archives as plain values: the catalog of entries, entry contents,
//! name decoding, and the search for rescuable cores inside containers.
use vstd::prelude::*;
use vstd::utf8::{decode_utf8, valid_utf8};
use crate::layout::{
    any_prefixed, child_files, layer_has_assets, sorted_child_dirs, starts_pk, texts,
    any_starts_with, join, starts_with_pk, zip_child_dirs, zip_child_files, zip_layer_has_assets,
};
use crate::lunar::utf8_text;
use crate::names::{file_stem_of, stem_of};
use crate::text::{chars_of, seq_eq, string_of};

verus! {

/// What an entry's local header says, read without decompressing.
pub struct RawEntry {
    pub name_raw: Vec<u8>,
    pub is_file: bool,
    pub encrypted: bool,
}

/// One entry of a zip archive's catalog, in the archive's order: the name
/// the archive decoded, the raw header (when readable) and the size (when
/// the entry can be opened).
pub struct ZipEntry {
    pub name: String,
    pub raw: Option<RawEntry>,
    pub size: Option<u64>,
}

pub open spec fn raw_view(r: RawEntry) -> (Seq<u8>, bool, bool) {
    (r.name_raw@, r.is_file, r.encrypted)
}

pub open spec fn entry_view(e: ZipEntry) -> (Seq<char>, Option<(Seq<u8>, bool, bool)>, Option<u64>) {
    (
        e.name@,
        match e.raw {
            Some(r) => Some(raw_view(r)),
            None => None,
        },
        e.size,
    )
}

/// A catalog as plain values: per entry its name, raw header facts (raw
/// name, is a file, is encrypted) and size.
pub type CatalogView = Seq<(Seq<char>, Option<(Seq<u8>, bool, bool)>, Option<u64>)>;

pub open spec fn catalog_view(v: Seq<ZipEntry>) -> Seq<(Seq<char>, Option<(Seq<u8>, bool, bool)>, Option<u64>)> {
    v.map_values(|e: ZipEntry| entry_view(e))
}

/// Whether `ZipArchive::new` accepts the bytes as an archive.
pub uninterp spec fn zip_accepts(bytes: Seq<u8>) -> bool;

/// The number of entries `ZipArchive::len` gives for an archive.
pub uninterp spec fn zip_entry_count(bytes: Seq<u8>) -> nat;

/// The name `ZipArchive::name_for_index` gives entry `index`.
pub uninterp spec fn zip_entry_name(bytes: Seq<u8>, index: int) -> Seq<char>;

/// What `ZipArchive::by_index_raw` reads of entry `index` without
/// decompressing (raw name, is a file, is encrypted); `None` when it fails.
pub uninterp spec fn zip_entry_raw(bytes: Seq<u8>, index: int) -> Option<(Seq<u8>, bool, bool)>;

/// The size `ZipArchive::by_index` gives entry `index`; `None` when the
/// entry cannot be opened.
pub uninterp spec fn zip_entry_size(bytes: Seq<u8>, index: int) -> Option<u64>;

/// The catalog the `zip` crate reads from an archive's bytes: per entry, in
/// order, its name, raw header facts and size; `None` when the bytes are no
/// archive.
pub closed spec fn zip_catalog_of(bytes: Seq<u8>) -> Option<Seq<(Seq<char>, Option<(Seq<u8>, bool, bool)>, Option<u64>)>> {
    if zip_accepts(bytes) {
        Some(
            Seq::new(
                zip_entry_count(bytes),
                |i: int| (zip_entry_name(bytes, i), zip_entry_raw(bytes, i), zip_entry_size(bytes, i)),
            ),
        )
    } else {
        None
    }
}

/// The decompressed contents of entry `index`, as `by_index` and a read to
/// the end give them; `None` when the entry cannot be opened or read.
pub uninterp spec fn zip_entry_data_of(bytes: Seq<u8>, index: int) -> Option<Seq<u8>>;

/// The text `encoding_rs` decodes from bytes read as GBK.
pub uninterp spec fn gbk_text_of(bytes: Seq<u8>) -> Seq<char>;

/// An archive opened with `zip::ZipArchive::new` over the bytes in memory,
/// known through the bytes it holds (`reader_source`).
#[verifier::external_body]
pub struct ArchiveReader {
    inner: zip::ZipArchive<std::io::Cursor<Vec<u8>>>,
}

/// The bytes an archive reader holds.
pub uninterp spec fn reader_source(r: ArchiveReader) -> Seq<u8>;

/// `zip::ZipArchive::new` on the bytes: a reader holding them when the
/// crate can read the archive's catalog, else `None`, and then no entry of
/// those bytes can be read either.
#[verifier::external_body]
fn zip_open(bytes: &[u8]) -> (r: Option<ArchiveReader>)
    ensures
        match r {
            Some(z) => reader_source(z) == bytes@ && zip_accepts(bytes@),
            None => !zip_accepts(bytes@) && forall|i: int| (#[trigger] zip_entry_data_of(bytes@, i)) is None,
        },
{
    zip::ZipArchive::new(std::io::Cursor::new(bytes.to_vec())).ok().map(|inner| ArchiveReader { inner })
}

/// `ZipArchive::len`: the number of entries of the catalog.
#[verifier::external_body]
fn zip_len(r: &ArchiveReader) -> (n: usize)
    ensures
        n == zip_entry_count(reader_source(*r)),
{
    r.inner.len()
}

/// `ZipArchive::name_for_index`: the name the catalog gives entry `i`.
#[verifier::external_body]
fn zip_name_at(r: &ArchiveReader, i: usize) -> (s: String)
    requires
        i < zip_entry_count(reader_source(*r)),
    ensures
        s@ == zip_entry_name(reader_source(*r), i as int),
{
    r.inner.name_for_index(i).map(|n| n.to_string()).unwrap_or_default()
}

/// `ZipArchive::by_index_raw`: entry `i`'s header read without
/// decompressing (raw name, whether a file, whether encrypted), when it can
/// be read.
#[verifier::external_body]
fn zip_raw_at(r: &mut ArchiveReader, i: usize) -> (e: Option<RawEntry>)
    ensures
        reader_source(*final(r)) == reader_source(*old(r)),
        match e {
            Some(raw) => zip_entry_raw(reader_source(*old(r)), i as int) == Some(raw_view(raw)),
            None => zip_entry_raw(reader_source(*old(r)), i as int) is None,
        },
{
    r.inner.by_index_raw(i).ok().map(|f| RawEntry { name_raw: f.name_raw().to_vec(), is_file: f.is_file(), encrypted: f.encrypted() })
}

/// `ZipArchive::by_index`, then the entry's size, when it can be opened.
#[verifier::external_body]
fn zip_size_at(r: &mut ArchiveReader, i: usize) -> (n: Option<u64>)
    ensures
        reader_source(*final(r)) == reader_source(*old(r)),
        n == zip_entry_size(reader_source(*old(r)), i as int),
{
    r.inner.by_index(i).ok().map(|f| f.size())
}

/// `ZipArchive::by_index`, then the entry read to its end.
#[verifier::external_body]
fn zip_read_at(r: &mut ArchiveReader, i: usize) -> (d: Option<Vec<u8>>)
    ensures
        reader_source(*final(r)) == reader_source(*old(r)),
        match d {
            Some(v) => zip_entry_data_of(reader_source(*old(r)), i as int) == Some(v@),
            None => zip_entry_data_of(reader_source(*old(r)), i as int) is None,
        },
{
    let mut entry = r.inner.by_index(i).ok()?;
    let mut out = Vec::new();
    std::io::Read::read_to_end(&mut entry, &mut out).ok().map(|_| out)
}

/// The catalog of an archive: per entry, in order, its name, its raw
/// header and its size; `None` when the bytes are not an archive.
pub(crate) fn zip_catalog(bytes: &[u8]) -> (r: Option<Vec<ZipEntry>>)
    ensures
        match r {
            Some(v) => zip_catalog_of(bytes@) == Some(catalog_view(v@)),
            None => zip_catalog_of(bytes@) is None,
        },
{
    let mut z = match zip_open(bytes) {
        Some(z) => z,
        None => return None,
    };
    let ghost cat = zip_catalog_of(bytes@).unwrap();
    let n = zip_len(&z);
    assert(cat.len() == n);
    let mut out: Vec<ZipEntry> = Vec::new();
    let mut i: usize = 0;
    while i < n
        invariant
            0 <= i <= n,
            n == cat.len(),
            reader_source(z) == bytes@,
            zip_catalog_of(bytes@) == Some(cat),
            catalog_view(out@) == cat.take(i as int),
        decreases n - i,
    {
        let name = zip_name_at(&z, i);
        let raw = zip_raw_at(&mut z, i);
        let size = zip_size_at(&mut z, i);
        let ghost before = catalog_view(out@);
        let e = ZipEntry { name, raw, size };
        assert(entry_view(e) == cat[i as int]);
        out.push(e);
        i = i + 1;
        assert(catalog_view(out@) =~= cat.take(i as int)) by {
            assert(catalog_view(out@) =~= before.push(entry_view(e)));
        }
    }
    assert(cat.take(n as int) =~= cat);
    Some(out)
}

/// Entry `index` of an archive, read to its end; `None` when the archive or
/// the entry cannot be read.
pub(crate) fn zip_read(bytes: &[u8], index: usize) -> (r: Option<Vec<u8>>)
    ensures
        match r {
            Some(v) => zip_entry_data_of(bytes@, index as int) == Some(v@),
            None => zip_entry_data_of(bytes@, index as int) is None,
        },
{
    match zip_open(bytes) {
        Some(mut z) => zip_read_at(&mut z, index),
        None => {
            assert(zip_entry_data_of(bytes@, index as int) is None);
            None
        },
    }
}

/// `encoding_rs::GBK.decode`: the bytes read as GBK, malformed sequences
/// replaced. What the decoder produces is named, not restated.
#[verifier::external_body]
fn gbk_decode(bytes: &[u8]) -> (r: String)
    ensures
        r@ == gbk_text_of(bytes@),
{
    encoding_rs::GBK.decode(bytes).0.into_owned()
}

/// UTF-8 first, GBK as the fallback: how Chinese archivers write names
/// without the UTF-8 flag.
pub open spec fn decode_name(raw: Seq<u8>) -> Seq<char> {
    if valid_utf8(raw) {
        decode_utf8(raw)
    } else {
        gbk_text_of(raw)
    }
}

pub fn decode_entry_name(raw: &[u8]) -> (r: Vec<char>)
    ensures
        r@ == decode_name(raw@),
{
    match utf8_text(raw) {
        Some(s) => chars_of(s.as_str()),
        None => {
            let s = gbk_decode(raw);
            chars_of(s.as_str())
        },
    }
}

/// The archive's own names, in catalog order.
pub open spec fn zip_names(cat: Seq<(Seq<char>, Option<(Seq<u8>, bool, bool)>, Option<u64>)>) -> Seq<Seq<char>> {
    cat.map_values(|e: (Seq<char>, Option<(Seq<u8>, bool, bool)>, Option<u64>)| e.0)
}

/// Decoded names of the entries whose header can be read.
pub open spec fn decoded_names(cat: Seq<(Seq<char>, Option<(Seq<u8>, bool, bool)>, Option<u64>)>) -> Seq<Seq<char>>
    decreases cat.len(),
{
    if cat.len() == 0 {
        Seq::<Seq<char>>::empty()
    } else {
        let r = decoded_names(cat.drop_last());
        match cat.last().1 {
            Some(raw) => r.push(decode_name(raw.0)),
            None => r,
        }
    }
}

/// Decoded names of the file entries whose header can be read.
pub open spec fn decoded_files(cat: Seq<(Seq<char>, Option<(Seq<u8>, bool, bool)>, Option<u64>)>) -> Seq<Seq<char>>
    decreases cat.len(),
{
    if cat.len() == 0 {
        Seq::<Seq<char>>::empty()
    } else {
        let r = decoded_files(cat.drop_last());
        match cat.last().1 {
            Some(raw) => if raw.1 {
                r.push(decode_name(raw.0))
            } else {
                r
            },
            None => r,
        }
    }
}

pub open spec fn encrypted_entry(e: (Seq<char>, Option<(Seq<u8>, bool, bool)>, Option<u64>)) -> bool {
    match e.1 {
        Some(raw) => raw.2,
        None => false,
    }
}

/// Some readable header is flagged encrypted.
pub open spec fn any_encrypted(cat: Seq<(Seq<char>, Option<(Seq<u8>, bool, bool)>, Option<u64>)>) -> bool {
    exists|i: int| 0 <= i < cat.len() && encrypted_entry(#[trigger] cat[i])
}

/// Index of the entry the archive names `n`.
pub open spec fn index_of_name(cat: Seq<(Seq<char>, Option<(Seq<u8>, bool, bool)>, Option<u64>)>, n: Seq<char>) -> Option<int>
    decreases cat.len(),
{
    if cat.len() == 0 {
        None
    } else if cat[0].0 == n {
        Some(0)
    } else {
        match index_of_name(cat.drop_first(), n) {
            Some(i) => Some(i + 1),
            None => None,
        }
    }
}

/// `by_name(n)` then read to the end.
pub open spec fn by_name_data(bytes: Seq<u8>, cat: Seq<(Seq<char>, Option<(Seq<u8>, bool, bool)>, Option<u64>)>, n: Seq<char>) -> Option<Seq<u8>> {
    match index_of_name(cat, n) {
        Some(i) => zip_entry_data_of(bytes, i),
        None => None,
    }
}

/// The first entry whose header cannot be read, or that is a file whose
/// decoded name is `target`.
pub open spec fn decoded_stop(cat: Seq<(Seq<char>, Option<(Seq<u8>, bool, bool)>, Option<u64>)>, target: Seq<char>) -> Option<int>
    decreases cat.len(),
{
    if cat.len() == 0 {
        None
    } else if (match cat[0].1 {
        Some(raw) => raw.1 && decode_name(raw.0) == target,
        None => true,
    }) {
        Some(0)
    } else {
        match decoded_stop(cat.drop_first(), target) {
            Some(i) => Some(i + 1),
            None => None,
        }
    }
}

/// The contents of the file entry whose decoded name is `target`; an
/// unreadable header before it ends the search.
pub open spec fn read_decoded(bytes: Seq<u8>, cat: Seq<(Seq<char>, Option<(Seq<u8>, bool, bool)>, Option<u64>)>, target: Seq<char>) -> Option<Seq<u8>> {
    match decoded_stop(cat, target) {
        Some(i) => if cat[i].1 is Some {
            zip_entry_data_of(bytes, i)
        } else {
            None
        },
        None => None,
    }
}

/// The archive's own names.
pub fn catalog_names(cat: &[ZipEntry]) -> (r: Vec<Vec<char>>)
    ensures
        texts(r@) == zip_names(catalog_view(cat@)),
{
    let mut out: Vec<Vec<char>> = Vec::new();
    let mut i: usize = 0;
    while i < cat.len()
        invariant
            0 <= i <= cat@.len(),
            texts(out@) == zip_names(catalog_view(cat@)).take(i as int),
        decreases cat@.len() - i,
    {
        assert(zip_names(catalog_view(cat@))[i as int] == cat@[i as int].name@);
        let ghost prev = texts(out@);
        let v = chars_of(cat[i].name.as_str());
        assert(v@ == cat@[i as int].name@);
        out.push(v);
        assert(texts(out@) =~= prev.push(cat@[i as int].name@));
        i = i + 1;
        assert(texts(out@) =~= zip_names(catalog_view(cat@)).take(i as int));
    }
    assert(zip_names(catalog_view(cat@)).take(cat@.len() as int) =~= zip_names(catalog_view(cat@)));
    out
}

/// Decoded names and decoded file names of every readable entry.
pub fn decoded_zip_names(cat: &[ZipEntry]) -> (r: (Vec<Vec<char>>, Vec<Vec<char>>))
    ensures
        texts(r.0@) == decoded_names(catalog_view(cat@)),
        texts(r.1@) == decoded_files(catalog_view(cat@)),
{
    let mut names: Vec<Vec<char>> = Vec::new();
    let mut files: Vec<Vec<char>> = Vec::new();
    let mut i: usize = 0;
    while i < cat.len()
        invariant
            0 <= i <= cat@.len(),
            texts(names@) == decoded_names(catalog_view(cat@).take(i as int)),
            texts(files@) == decoded_files(catalog_view(cat@).take(i as int)),
        decreases cat@.len() - i,
    {
        assert(catalog_view(cat@).take(i + 1).drop_last() =~= catalog_view(cat@).take(i as int));
        assert(catalog_view(cat@).take(i + 1).last() == entry_view(cat@[i as int]));
        match &cat[i].raw {
            Some(raw) => {
                let name = decode_entry_name(raw.name_raw.as_slice());
                if raw.is_file {
                    files.push(copy_vec(&name));
                }
                names.push(name);
            },
            None => {},
        }
        i = i + 1;
        assert(texts(names@) =~= decoded_names(catalog_view(cat@).take(i as int)));
        assert(texts(files@) =~= decoded_files(catalog_view(cat@).take(i as int)));
    }
    assert(catalog_view(cat@).take(cat@.len() as int) =~= catalog_view(cat@));
    (names, files)
}

fn copy_vec(v: &Vec<char>) -> (r: Vec<char>)
    ensures
        r@ == v@,
{
    crate::text::copy_chars(v.as_slice())
}

/// Whether any readable header is flagged encrypted.
pub fn catalog_any_encrypted(cat: &[ZipEntry]) -> (r: bool)
    ensures
        r == any_encrypted(catalog_view(cat@)),
{
    let ghost c = catalog_view(cat@);
    let mut i: usize = 0;
    while i < cat.len()
        invariant
            0 <= i <= cat@.len(),
            c == catalog_view(cat@),
            forall|k: int| 0 <= k < i ==> !encrypted_entry(#[trigger] c[k]),
        decreases cat@.len() - i,
    {
        assert(c[i as int] == entry_view(cat@[i as int]));
        match &cat[i].raw {
            Some(raw) => {
                if raw.encrypted {
                    return true;
                }
            },
            None => {},
        }
        i = i + 1;
    }
    false
}

/// Contents of the entry the archive names `name` (`by_name`).
pub fn read_by_name(bytes: &[u8], cat: &[ZipEntry], name: &[char]) -> (r: Option<Vec<u8>>)
    ensures
        match r {
            Some(v) => by_name_data(bytes@, catalog_view(cat@), name@) == Some(v@),
            None => by_name_data(bytes@, catalog_view(cat@), name@) is None,
        },
{
    let ghost c = catalog_view(cat@);
    let mut i: usize = 0;
    assert(c.skip(0) =~= c);
    while i < cat.len()
        invariant
            0 <= i <= cat@.len(),
            c == catalog_view(cat@),
            index_of_name(c, name@) == (match index_of_name(c.skip(i as int), name@) {
                Some(k) => Some(k + i),
                None => None,
            }),
        decreases cat@.len() - i,
    {
        assert(c.skip(i as int)[0] == entry_view(cat@[i as int]));
        if seq_eq(chars_of(cat[i].name.as_str()).as_slice(), name) {
            return zip_read(bytes, i);
        }
        assert(c.skip(i as int).drop_first() =~= c.skip(i + 1));
        i = i + 1;
    }
    None
}

/// Contents of the file entry whose decoded name is `target`.
pub fn read_decoded_zip_file(bytes: &[u8], cat: &[ZipEntry], target: &[char]) -> (r: Option<Vec<u8>>)
    ensures
        match r {
            Some(v) => read_decoded(bytes@, catalog_view(cat@), target@) == Some(v@),
            None => read_decoded(bytes@, catalog_view(cat@), target@) is None,
        },
{
    let ghost c = catalog_view(cat@);
    let mut i: usize = 0;
    assert(c.skip(0) =~= c);
    while i < cat.len()
        invariant
            0 <= i <= cat@.len(),
            c == catalog_view(cat@),
            decoded_stop(c, target@) == (match decoded_stop(c.skip(i as int), target@) {
                Some(k) => Some(k + i),
                None => None,
            }),
        decreases cat@.len() - i,
    {
        assert(c.skip(i as int)[0] == entry_view(cat@[i as int]));
        assert(c[i as int] == entry_view(cat@[i as int]));
        match &cat[i].raw {
            None => {
                return None;
            },
            Some(raw) => {
                if raw.is_file && seq_eq(decode_entry_name(raw.name_raw.as_slice()).as_slice(), target) {
                    return zip_read(bytes, i);
                }
            },
        }
        assert(c.skip(i as int).drop_first() =~= c.skip(i + 1));
        i = i + 1;
    }
    None
}

/// Outcome of hunting for rescuable core layers inside a container.
pub struct CoreSearch {
    pub found: Vec<String>,
    pub hit_cap: bool,
}

/// Containers nested deeper than this are not worth rescuing.
pub const MAX_NESTING_DEPTH: usize = 10;

pub open spec fn depth_left(depth: int) -> nat {
    if depth > 10 {
        0
    } else {
        (11 - depth) as nat
    }
}

/// (a core was found, the depth cap was hit) for the layer at `prefix`.
pub open spec fn search_zip_spec(bytes: Seq<u8>, cat: Seq<(Seq<char>, Option<(Seq<u8>, bool, bool)>, Option<u64>)>, prefix: Seq<char>, depth: int) -> (bool, bool)
    decreases depth_left(depth), 2nat, 0nat,
{
    if depth > 10 {
        (false, true)
    } else {
        let names = zip_names(cat);
        let a = search_dirs_spec(bytes, cat, prefix, depth, sorted_child_dirs(names, prefix));
        let b = search_files_spec(bytes, cat, prefix, depth, child_files(names, prefix));
        (a.0 || b.0, a.1 || b.1)
    }
}

pub open spec fn search_dirs_spec(bytes: Seq<u8>, cat: Seq<(Seq<char>, Option<(Seq<u8>, bool, bool)>, Option<u64>)>, prefix: Seq<char>, depth: int, dirs: Seq<Seq<char>>) -> (bool, bool)
    decreases depth_left(depth), 1nat, dirs.len(),
{
    if dirs.len() == 0 || depth > 10 {
        (false, false)
    } else {
        let r = search_dirs_spec(bytes, cat, prefix, depth, dirs.drop_last());
        let layer = prefix + dirs.last() + "/"@;
        let x = if layer_has_assets(zip_names(cat), layer) {
            (true, false)
        } else {
            search_zip_spec(bytes, cat, layer, depth + 1)
        };
        (r.0 || x.0, r.1 || x.1)
    }
}

/// What one embedded file contributes to the search.
pub open spec fn search_inner_spec(data: Option<Seq<u8>>, depth: int) -> (bool, bool)
    decreases depth_left(depth), 0nat, 0nat,
{
    match data {
        Some(b) => if starts_pk(b) && depth <= 10 {
            match zip_catalog_of(b) {
                Some(icat) => if any_prefixed(zip_names(icat), "assets/"@) {
                    (true, false)
                } else {
                    search_zip_spec(b, icat, Seq::<char>::empty(), depth + 1)
                },
                None => (false, false),
            }
        } else {
            (false, false)
        },
        None => (false, false),
    }
}

pub open spec fn search_files_spec(bytes: Seq<u8>, cat: Seq<(Seq<char>, Option<(Seq<u8>, bool, bool)>, Option<u64>)>, prefix: Seq<char>, depth: int, files: Seq<Seq<char>>) -> (bool, bool)
    decreases depth_left(depth), 1nat, files.len(),
{
    if files.len() == 0 || depth > 10 {
        (false, false)
    } else {
        let r = search_files_spec(bytes, cat, prefix, depth, files.drop_last());
        let x = search_inner_spec(by_name_data(bytes, cat, prefix + files.last()), depth);
        (r.0 || x.0, r.1 || x.1)
    }
}

pub open spec fn found_any(s: CoreSearch) -> bool {
    s.found.len() > 0
}

fn slash() -> (r: Vec<char>)
    ensures
        r@ == "/"@,
{
    chars_of("/")
}

/// Hunts for layers with an `assets/` child below `prefix`, descending into
/// child folders and embedded zips, at most `MAX_NESTING_DEPTH` levels deep.
pub fn search_zip(bytes: &[u8], cat: &Vec<ZipEntry>, names: &Vec<Vec<char>>, prefix: &[char], child_depth: usize, out: &mut CoreSearch)
    requires
        texts(names@) == zip_names(catalog_view(cat@)),
        child_depth <= 11,
    ensures
        found_any(*final(out)) == (found_any(*old(out)) || search_zip_spec(bytes@, catalog_view(cat@), prefix@, child_depth as int).0),
        final(out).hit_cap == (old(out).hit_cap || search_zip_spec(bytes@, catalog_view(cat@), prefix@, child_depth as int).1),
    decreases depth_left(child_depth as int), 2nat,
{
    if child_depth > MAX_NESTING_DEPTH {
        out.hit_cap = true;
        return;
    }
    let ghost c = catalog_view(cat@);
    let ghost f0 = found_any(*out);
    let ghost h0 = out.hit_cap;
    let dirs = zip_child_dirs(names.as_slice(), prefix);
    let ghost dt = texts(dirs@);
    let mut i: usize = 0;
    assert(dt.take(0) =~= Seq::<Seq<char>>::empty());
    while i < dirs.len()
        invariant
            0 <= i <= dirs@.len(),
            child_depth <= 10,
            dt == texts(dirs@),
            dt == sorted_child_dirs(zip_names(c), prefix@),
            c == catalog_view(cat@),
            texts(names@) == zip_names(c),
            found_any(*out) == (f0 || search_dirs_spec(bytes@, c, prefix@, child_depth as int, dt.take(i as int)).0),
            out.hit_cap == (h0 || search_dirs_spec(bytes@, c, prefix@, child_depth as int, dt.take(i as int)).1),
        decreases dirs@.len() - i,
    {
        assert(dt.take(i + 1).drop_last() =~= dt.take(i as int));
        assert(dt.take(i + 1).last() == dirs@[i as int]@);
        let layer = join(join(prefix, dirs[i].as_slice()).as_slice(), slash().as_slice());
        if zip_layer_has_assets(names.as_slice(), layer.as_slice()) {
            out.found.push(string_of(dirs[i].as_slice()));
        } else {
            search_zip(bytes, cat, names, layer.as_slice(), child_depth + 1, out);
        }
        i = i + 1;
    }
    assert(dt.take(dirs@.len() as int) =~= dt);
    let ghost f1 = found_any(*out);
    let ghost h1 = out.hit_cap;
    let files = zip_child_files(names.as_slice(), prefix);
    let ghost ft = texts(files@);
    let mut j: usize = 0;
    assert(ft.take(0) =~= Seq::<Seq<char>>::empty());
    while j < files.len()
        invariant
            0 <= j <= files@.len(),
            child_depth <= 10,
            ft == texts(files@),
            ft == child_files(zip_names(c), prefix@),
            c == catalog_view(cat@),
            found_any(*out) == (f1 || search_files_spec(bytes@, c, prefix@, child_depth as int, ft.take(j as int)).0),
            out.hit_cap == (h1 || search_files_spec(bytes@, c, prefix@, child_depth as int, ft.take(j as int)).1),
        decreases files@.len() - j,
    {
        assert(ft.take(j + 1).drop_last() =~= ft.take(j as int));
        assert(ft.take(j + 1).last() == files@[j as int]@);
        let full = join(prefix, files[j].as_slice());
        let ghost x = search_inner_spec(by_name_data(bytes@, c, prefix@ + ft[j as int]), child_depth as int);
        let ghost prev = search_files_spec(bytes@, c, prefix@, child_depth as int, ft.take(j as int));
        assert(search_files_spec(bytes@, c, prefix@, child_depth as int, ft.take(j + 1)) == (prev.0 || x.0, prev.1 || x.1));
        match read_by_name(bytes, cat.as_slice(), full.as_slice()) {
            Some(b) => {
                if starts_with_pk(b.as_slice()) {
                    match zip_catalog(b.as_slice()) {
                        Some(icat) => {
                            let inames = catalog_names(icat.as_slice());
                            if any_starts_with(inames.as_slice(), chars_of("assets/").as_slice()) {
                                assert(x == (true, false));
                                out.found.push(string_of(file_stem_of(files[j].as_slice()).as_slice()));
                            } else {
                                let root: Vec<char> = Vec::new();
                                assert(root@ =~= Seq::<char>::empty());
                                search_zip(b.as_slice(), &icat, &inames, root.as_slice(), child_depth + 1, out);
                            }
                        },
                        None => {},
                    }
                }
            },
            None => {},
        }
        j = j + 1;
    }
    assert(ft.take(files@.len() as int) =~= ft);
}

} // verus!
