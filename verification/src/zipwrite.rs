//! Writing an archive in memory with the `zip` crate: the files staged in a
//! writer, and the bytes it finishes into.
use vstd::prelude::*;

verus! {

/// A `zip::ZipWriter` over an in-memory buffer, known through the files it
/// has been given (`zip_staged`) and whether it has refused a call
/// (`zip_intact`).
#[verifier::external_body]
pub struct ArchiveWriter {
    inner: zip::ZipWriter<std::io::Cursor<Vec<u8>>>,
}

/// One file of an archive: its name and its bytes.
pub open spec fn files_view(v: Seq<(String, Vec<u8>)>) -> Seq<(Seq<char>, Seq<u8>)> {
    v.map_values(|e: (String, Vec<u8>)| (e.0@, e.1@))
}

/// The files a writer that has refused nothing has been given, in order:
/// the name passed to `start_file` and the bytes of the one `write_all`
/// after it (none yet, until it is made).
pub uninterp spec fn zip_staged(w: ArchiveWriter) -> Seq<(Seq<char>, Seq<u8>)>;

/// Whether the writer has refused no call so far.
pub uninterp spec fn zip_intact(w: ArchiveWriter) -> bool;

/// What a fresh `ZipWriter` over an empty in-memory buffer gives when it is
/// handed each file in order, by `start_file` with the default options
/// (deflate, and the fixed 1980-01-01 timestamp the crate uses without its
/// `time` feature) and one `write_all` of the file's bytes, and then
/// `finish`ed: the bytes of the buffer, or `None` when any of these calls
/// refuses.
pub uninterp spec fn zip_archive_of(files: Seq<(Seq<char>, Seq<u8>)>) -> Option<Seq<u8>>;

/// `zip::ZipWriter::new` over an empty in-memory buffer: nothing staged,
/// nothing refused.
#[verifier::external_body]
fn zip_writer() -> (w: ArchiveWriter)
    ensures
        zip_intact(w),
        zip_staged(w) == Seq::<(Seq<char>, Seq<u8>)>::empty(),
{
    ArchiveWriter { inner: zip::ZipWriter::new(std::io::Cursor::new(Vec::new())) }
}

/// `ZipWriter::start_file` with the default options: on success a new,
/// empty file of that name is staged after the others. A writer that
/// refused is no longer intact, and the same calls made on a fresh writer
/// refuse there too, whatever follows them.
#[verifier::external_body]
fn zip_start(w: &mut ArchiveWriter, name: &String) -> (ok: bool)
    ensures
        zip_intact(*final(w)) == (ok && zip_intact(*old(w))),
        ok ==> zip_staged(*final(w)) == zip_staged(*old(w)).push((name@, Seq::<u8>::empty())),
        !ok && zip_intact(*old(w)) ==> forall|data: Seq<u8>, rest: Seq<(Seq<char>, Seq<u8>)>|
            (#[trigger] zip_archive_of(zip_staged(*old(w)).push((name@, data)) + rest)) is None,
{
    w.inner.start_file(name.as_str(), zip::write::SimpleFileOptions::default()).is_ok()
}

/// `Write::write_all` on the writer, once, for the file staged last: on
/// success its bytes are those written. A writer that refused is no longer
/// intact, and the same calls made on a fresh writer refuse there too,
/// whatever follows them.
#[verifier::external_body]
fn zip_write_all(w: &mut ArchiveWriter, data: &[u8]) -> (ok: bool)
    requires
        zip_staged(*old(w)).len() > 0,
        zip_staged(*old(w)).last().1 == Seq::<u8>::empty(),
    ensures
        zip_intact(*final(w)) == (ok && zip_intact(*old(w))),
        ok ==> zip_staged(*final(w)) == zip_staged(*old(w)).update(
            zip_staged(*old(w)).len() - 1,
            (zip_staged(*old(w)).last().0, data@),
        ),
        !ok && zip_intact(*old(w)) ==> forall|rest: Seq<(Seq<char>, Seq<u8>)>|
            (#[trigger] zip_archive_of(
                zip_staged(*old(w)).update(zip_staged(*old(w)).len() - 1, (zip_staged(*old(w)).last().0, data@))
                    + rest,
            )) is None,
{
    std::io::Write::write_all(&mut w.inner, data).is_ok()
}

/// `ZipWriter::finish`, then the buffer's bytes: for a writer that refused
/// nothing, what the staged files give.
#[verifier::external_body]
fn zip_finish(w: ArchiveWriter) -> (r: Option<Vec<u8>>)
    requires
        zip_intact(w),
    ensures
        match r {
            Some(b) => zip_archive_of(zip_staged(w)) == Some(b@),
            None => zip_archive_of(zip_staged(w)) is None,
        },
{
    w.inner.finish().ok().map(|c| c.into_inner())
}

/// Writes the files, in order, into a fresh archive: its bytes, or `None`
/// exactly when the writer refuses them.
pub fn zip_archive(files: &Vec<(String, Vec<u8>)>) -> (r: Option<Vec<u8>>)
    ensures
        match r {
            Some(b) => zip_archive_of(files_view(files@)) == Some(b@),
            None => zip_archive_of(files_view(files@)) is None,
        },
{
    let ghost fv = files_view(files@);
    let mut w = zip_writer();
    let mut i: usize = 0;
    while i < files.len()
        invariant
            0 <= i <= files@.len(),
            fv == files_view(files@),
            zip_intact(w),
            zip_staged(w) == fv.take(i as int),
        decreases files@.len() - i,
    {
        let ghost before = zip_staged(w);
        assert(fv[i as int] == (files@[i as int].0@, files@[i as int].1@));
        if !zip_start(&mut w, &files[i].0) {
            proof {
                assert(fv =~= before.push((files@[i as int].0@, files@[i as int].1@)) + fv.skip(i + 1));
                assert(zip_archive_of(before.push((files@[i as int].0@, files@[i as int].1@)) + fv.skip(i + 1)) is None);
            }
            return None;
        }
        let ghost started = zip_staged(w);
        assert(started.last().1 == Seq::<u8>::empty());
        if !zip_write_all(&mut w, files[i].1.as_slice()) {
            proof {
                let full = started.update(started.len() - 1, (started.last().0, files@[i as int].1@));
                assert(full =~= fv.take(i + 1));
                assert(fv =~= full + fv.skip(i + 1));
                assert(zip_archive_of(full + fv.skip(i + 1)) is None);
            }
            return None;
        }
        i = i + 1;
        assert(zip_staged(w) =~= fv.take(i as int));
    }
    assert(fv.take(files@.len() as int) =~= fv);
    zip_finish(w)
}

} // verus!
