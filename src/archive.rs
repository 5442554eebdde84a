use vstd::prelude::*;
use std::io::Cursor;
use std::io::Read;
use std::io::Write;
use zip::result::ZipError;
use zip::write::ExtendedFileOptions;
use zip::write::FileOptions;
use zip::CompressionMethod;
use zip::ZipArchive;
use zip::ZipWriter;
use crate::plan::Step;
use crate::plan::brings_new;
use crate::plan::create_steps;
use crate::plan::first_index;
use crate::plan::keep_step;
use crate::plan::keep_steps;
use crate::plan::add_steps;
use crate::plan::lemma_add_steps_shape;
use crate::plan::lemma_create_steps_at;
use crate::plan::lemma_keep_steps_at;
use crate::plan::lemma_first_index;
use crate::plan::lemma_new_names_from;
use crate::plan::lemma_update_idempotent;
use crate::plan::lemma_written_concat;
use crate::plan::lemma_written_push;
use crate::plan::merged_names;
use crate::plan::names_view;
use crate::plan::new_names;
use crate::plan::plan_create;
use crate::plan::plan_update;
use crate::plan::present_names;
use crate::plan::step_name;
use crate::plan::update_plan;
use crate::plan::written_names;

verus! {

/// Why an archive operation failed.
#[derive(Clone, Copy, Debug, PartialEq, Eq, Structural)]
pub enum ArchiveError {
    /// Reading or writing the underlying bytes failed.
    Io,
    /// The bytes are not a valid archive.
    InvalidArchive,
    /// The archive uses a feature this library does not read.
    Unsupported,
    /// An entry that was looked up is not in the archive.
    EntryNotFound,
    /// A candidate whose content replaces an original entry was not found on disk.
    CandidateMissing,
    /// An entry name is longer than an archive can hold.
    NameTooLong,
}

/// The longest entry name, in characters, that is written: an archive holds
/// a name in at most 65535 bytes, and a character takes at most four.
pub const NAME_MAX: usize = 16383;

/// The longest entry content, in bytes, that is promised to be written
/// without the large-file extension.
pub const DATA_MAX: usize = 0x7fff_ffff;

/// An entry as a name and its uncompressed content.
pub type EntryView = (Seq<char>, Seq<u8>);

#[verifier::external_type_specification]
#[verifier::external_body]
pub struct ExZipError(ZipError);

#[verifier::external_type_specification]
#[verifier::external_body]
#[verifier::reject_recursive_types(T)]
pub struct ExCursor<T>(Cursor<T>);

#[verifier::external_type_specification]
#[verifier::external_body]
#[verifier::reject_recursive_types(R)]
pub struct ExZipArchive<R>(ZipArchive<R>);

/// An open archive, read from an in-memory copy of its bytes.
pub type ArchiveReader = ZipArchive<Cursor<Vec<u8>>>;

/// An archive being written into memory. `ZipWriter` bounds its parameter by
/// `Write + Seek`, which a type declaration cannot carry, so the writer is
/// held here out of the verifier's sight.
#[verifier::external_body]
pub struct ArchiveWriter {
    inner: ZipWriter<Cursor<Vec<u8>>>,
}

/// The entries of an open archive, in index order.
pub uninterp spec fn reader_entries(r: ArchiveReader) -> Seq<EntryView>;

/// The entries started so far in an archive being written, in order.
pub uninterp spec fn writer_entries(w: ArchiveWriter) -> Seq<EntryView>;

/// Whether every entry of an open archive can be opened and read in full.
pub uninterp spec fn reader_readable(r: ArchiveReader) -> bool;

/// The entries that the archive held in `b` lists, in index order.
pub uninterp spec fn archive_entries(b: Seq<u8>) -> Seq<EntryView>;

/// Whether the bytes `b` open as an archive.
pub uninterp spec fn archive_opens(b: Seq<u8>) -> bool;

/// Whether every entry of the archive held in `b` can be opened and read in full.
pub uninterp spec fn archive_reads(b: Seq<u8>) -> bool;

/// Whether every entry of the archive held in `b` is stored with deflate.
pub uninterp spec fn archive_deflated(b: Seq<u8>) -> bool;

pub open spec fn entry_names(es: Seq<EntryView>) -> Seq<Seq<char>> {
    es.map_values(|e: EntryView| e.0)
}

/// Relies on zip::result::ZipError: tells its variants apart.
#[verifier::external_body]
fn error_kind(e: ZipError) -> (r: ArchiveError)
    ensures
        r != ArchiveError::CandidateMissing,
        r != ArchiveError::NameTooLong,
{
    match e {
        ZipError::Io(_) => ArchiveError::Io,
        ZipError::InvalidArchive(_) => ArchiveError::InvalidArchive,
        ZipError::FileNotFound => ArchiveError::EntryNotFound,
        _ => ArchiveError::Unsupported,
    }
}


/// Relies on zip::ZipArchive::new: it reads the central directory of the
/// bytes, whose entries, keyed by name, are then those of `archive_entries`.
#[verifier::external_body]
fn open_reader(bytes: Vec<u8>) -> (r: Result<ArchiveReader, ZipError>)
    ensures
        (r is Ok) == archive_opens(bytes@),
        r is Ok ==> reader_entries(r->Ok_0) == archive_entries(bytes@)
            && reader_readable(r->Ok_0) == archive_reads(bytes@)
            && entry_names(archive_entries(bytes@)).no_duplicates(),
{
    ZipArchive::new(Cursor::new(bytes))
}

/// Relies on zip::ZipArchive::len: the number of entries.
#[verifier::external_body]
fn reader_len(r: &ArchiveReader) -> (n: usize)
    ensures
        n == reader_entries(*r).len(),
{
    r.len()
}

/// Relies on zip::ZipArchive::name_for_index: the name of the entry at `i`,
/// looked up in the central directory without opening the entry.
#[verifier::external_body]
fn reader_name(r: &ArchiveReader, i: usize) -> (res: String)
    requires
        i < reader_entries(*r).len(),
    ensures
        res@ == reader_entries(*r)[i as int].0,
{
    match r.name_for_index(i) {
        Some(n) => n.to_string(),
        None => String::new(),
    }
}

/// Relies on zip::ZipArchive::by_index and the `Read` of zip::read::ZipFile:
/// the name and the uncompressed content of the entry at `i`.
#[verifier::external_body]
fn reader_entry(r: &mut ArchiveReader, i: usize) -> (res: Result<(String, Vec<u8>), ZipError>)
    requires
        i < reader_entries(*old(r)).len(),
    ensures
        reader_entries(*final(r)) == reader_entries(*old(r)),
        reader_readable(*final(r)) == reader_readable(*old(r)),
        reader_readable(*old(r)) ==> res is Ok,
        res is Ok ==> res->Ok_0.0@ == reader_entries(*old(r))[i as int].0
            && res->Ok_0.1@ == reader_entries(*old(r))[i as int].1,
{
    let mut f = r.by_index(i)?;
    let mut data: Vec<u8> = Vec::new();
    f.read_to_end(&mut data)?;
    Ok((f.name().to_string(), data))
}

/// Relies on zip::ZipWriter::new: a writer with no entries.
#[verifier::external_body]
fn new_writer() -> (w: ArchiveWriter)
    ensures
        writer_entries(w) == Seq::<EntryView>::empty(),
{
    ArchiveWriter { inner: ZipWriter::new(Cursor::new(Vec::new())) }
}

/// Relies on zip::ZipWriter::start_file and its `Write`: a new deflated entry
/// named `name` holding `data`. A name already written is refused; writing
/// into memory fails on nothing else while the content stays well below the
/// four-gigabyte mark of the large-file extension.
#[verifier::external_body]
fn writer_add(w: &mut ArchiveWriter, name: &str, data: &[u8]) -> (res: Result<(), ZipError>)
    requires
        name@.len() <= NAME_MAX,
    ensures
        !entry_names(writer_entries(*old(w))).contains(name@) && data@.len() <= DATA_MAX ==> res is Ok,
        res is Ok ==> !entry_names(writer_entries(*old(w))).contains(name@)
            && writer_entries(*final(w)) == writer_entries(*old(w)).push((name@, data@)),
{
    let options: FileOptions<ExtendedFileOptions> =
        FileOptions::default().compression_method(CompressionMethod::Deflated);
    w.inner.start_file(name, options)?;
    w.inner.write_all(data)?;
    Ok(())
}

/// Relies on zip::ZipWriter::finish: writing the central directory into
/// memory does not fail, and the finished archive opens and lists the
/// written entries in the order they were written. Every entry of this
/// writer was started by `writer_add`, with deflate.
#[verifier::external_body]
fn writer_finish(w: ArchiveWriter) -> (res: Result<Vec<u8>, ZipError>)
    ensures
        res is Ok,
        res is Ok ==> archive_opens(res->Ok_0@) && archive_reads(res->Ok_0@)
            && archive_deflated(res->Ok_0@)
            && archive_entries(res->Ok_0@) == writer_entries(w),
{
    match w.inner.finish() {
        Ok(c) => Ok(c.into_inner()),
        Err(e) => Err(e),
    }
}

/// The content of a candidate that was read, or nothing for one that was not found.
pub open spec fn content_of(c: Option<Vec<u8>>) -> Seq<u8> {
    match c {
        Some(v) => v@,
        None => Seq::empty(),
    }
}

/// The entry a step writes, if it writes one.
pub open spec fn step_entry(
    orig: Seq<EntryView>,
    cands: Seq<Seq<char>>,
    contents: Seq<Option<Vec<u8>>>,
    s: Step,
) -> Seq<EntryView> {
    match s {
        Step::Copy { at } => seq![orig[at as int]],
        Step::Replace { at, source } => seq![(orig[at as int].0, content_of(contents[source as int]))],
        Step::Add { source } => seq![(cands[source as int], content_of(contents[source as int]))],
        Step::Missing { source } => Seq::empty(),
    }
}

/// The entries that a list of steps writes, in order.
pub open spec fn planned_entries(
    orig: Seq<EntryView>,
    cands: Seq<Seq<char>>,
    contents: Seq<Option<Vec<u8>>>,
    steps: Seq<Step>,
) -> Seq<EntryView>
    decreases steps.len(),
{
    if steps.len() == 0 {
        Seq::empty()
    } else {
        planned_entries(orig, cands, contents, steps.drop_last()) + step_entry(orig, cands, contents, steps.last())
    }
}

/// The present flags of the candidates.
pub open spec fn presence(contents: Seq<Option<Vec<u8>>>) -> Seq<bool> {
    contents.map_values(|c: Option<Vec<u8>>| c is Some)
}

/// Whether an original entry named `name` is to be replaced by a candidate
/// that was not found.
pub open spec fn replacement_missing(orig: Seq<Seq<char>>, cands: Seq<Seq<char>>, contents: Seq<Option<Vec<u8>>>) -> bool {
    exists|i: int| 0 <= i < orig.len() && cands.contains(#[trigger] orig[i])
        && contents[first_index(cands, orig[i])] is None
}

/// Whether every candidate that was found has a name and content that fit.
pub open spec fn candidates_fit(cands: Seq<Seq<char>>, contents: Seq<Option<Vec<u8>>>) -> bool {
    forall|j: int| 0 <= j < cands.len() && (#[trigger] contents[j]) is Some
        ==> cands[j].len() <= NAME_MAX && content_of(contents[j]).len() <= DATA_MAX
}

/// Whether every entry has a name and content that fit.
pub open spec fn entries_fit(es: Seq<EntryView>) -> bool {
    forall|i: int| 0 <= i < es.len() ==> (#[trigger] es[i]).0.len() <= NAME_MAX && es[i].1.len() <= DATA_MAX
}

/// The entries of an updated archive.
pub open spec fn updated_entries(
    orig: Seq<EntryView>,
    cands: Seq<Seq<char>>,
    contents: Seq<Option<Vec<u8>>>,
) -> Seq<EntryView> {
    planned_entries(orig, cands, contents, update_plan(entry_names(orig), cands, presence(contents)))
}

/// The entries of a created archive.
pub open spec fn created_entries(cands: Seq<Seq<char>>, contents: Seq<Option<Vec<u8>>>) -> Seq<EntryView> {
    planned_entries(Seq::empty(), cands, contents, create_steps(presence(contents), cands.len() as int))
}

proof fn lemma_names_push(es: Seq<EntryView>, e: EntryView)
    ensures
        entry_names(es.push(e)) == entry_names(es).push(e.0),
{
    assert(entry_names(es.push(e)) =~= entry_names(es).push(e.0));
}

/// Where the names a whole plan writes are distinct, the name that step `k`
/// writes is not among those written before it.
proof fn lemma_fresh_step(o: Seq<Seq<char>>, c: Seq<Seq<char>>, steps: Seq<Step>, k: int, x: Seq<char>)
    requires
        0 <= k < steps.len(),
        written_names(o, c, steps).no_duplicates(),
        step_name(o, c, steps[k]) == seq![x],
    ensures
        !written_names(o, c, steps.take(k)).contains(x),
{
    let a = steps.take(k + 1);
    let b = steps.skip(k + 1);
    assert(a + b =~= steps);
    lemma_written_concat(o, c, a, b);
    assert(a.drop_last() =~= steps.take(k));
    let w = written_names(o, c, steps.take(k));
    let wa = written_names(o, c, a);
    assert(wa =~= w + seq![x]);
    let all = written_names(o, c, steps);
    assert(all =~= wa + written_names(o, c, b));
    if w.contains(x) {
        let t = choose|t: int| 0 <= t < w.len() && w[t] == x;
        assert(all[t] == x && all[w.len() as int] == x);
    }
}

proof fn lemma_merged_distinct(on: Seq<Seq<char>>, c: Seq<Seq<char>>, p: Seq<bool>)
    requires
        on.no_duplicates(),
    ensures
        merged_names(on, c, p).no_duplicates(),
{
    lemma_new_names_from(on, c, p, c.len() as int);
    let nn = new_names(on, c, p, c.len() as int);
    let m = merged_names(on, c, p);
    assert forall|a: int, b: int| 0 <= a < m.len() && 0 <= b < m.len() && a != b implies m[a] != m[b] by {
        if a < on.len() && b >= on.len() {
            let j = choose|j: int| 0 <= j < c.len() && brings_new(on, c, j) && p[j] && #[trigger] nn[b - on.len()] == c[j];
            assert(on.contains(m[a]));
        } else if b < on.len() && a >= on.len() {
            let j = choose|j: int| 0 <= j < c.len() && brings_new(on, c, j) && p[j] && #[trigger] nn[a - on.len()] == c[j];
            assert(on.contains(m[b]));
        } else if a >= on.len() {
            assert(m[a] == nn[a - on.len()] && m[b] == nn[b - on.len()]);
        }
    }
}

/// The names of the entries of an open archive, in order.
fn read_names(r: &ArchiveReader) -> (v: Vec<String>)
    ensures
        names_view(v@) == entry_names(reader_entries(*r)),
{
    let ghost es = reader_entries(*r);
    let n = reader_len(r);
    let mut names: Vec<String> = Vec::new();
    let mut i: usize = 0;
    while i < n
        invariant
            0 <= i <= n,
            n == es.len(),
            es == reader_entries(*r),
            names@.len() == i,
            names_view(names@) =~= entry_names(es).take(i as int),
        decreases n - i,
    {
        let nm = reader_name(r, i);
        let ghost nv = nm@;
        names.push(nm);
        proof {
            assert(entry_names(es)[i as int] == es[i as int].0);
            assert(names_view(names@)[i as int] == nv);
            assert(names_view(names@) =~= entry_names(es).take(i as int + 1));
        }
        i = i + 1;
    }
    proof {
        assert(entry_names(es).take(n as int) =~= entry_names(es));
    }
    names
}

/// Lists the names of the entries of the archive held in `bytes`, in order,
/// without reading any entry's content.
pub fn list_entries(bytes: Vec<u8>) -> (res: Result<Vec<String>, ArchiveError>)
    ensures
        (res is Ok) == archive_opens(bytes@),
        !archive_opens(bytes@) ==> res == Err::<Vec<String>, ArchiveError>(ArchiveError::InvalidArchive),
        res is Ok ==> names_view(res->Ok_0@) == entry_names(archive_entries(bytes@)),
{
    match open_reader(bytes) {
        Ok(r) => Ok(read_names(&r)),
        Err(_) => Err(ArchiveError::InvalidArchive),
    }
}

/// The length of a name in characters.
fn name_len(s: &String) -> (n: usize)
    ensures
        n == s@.len(),
{
    s.as_str().unicode_len()
}

/// Builds a new archive from the candidates named `cands`: each one whose
/// content was read is added as a deflated entry, in order; those not found
/// are skipped.
pub fn create_archive(cands: &Vec<String>, contents: &Vec<Option<Vec<u8>>>) -> (res: Result<Vec<u8>, ArchiveError>)
    requires
        cands.len() == contents.len(),
    ensures
        present_names(names_view(cands@), presence(contents@), cands.len() as int).no_duplicates()
            && candidates_fit(names_view(cands@), contents@) ==> res is Ok,
        res == Err::<Vec<u8>, ArchiveError>(ArchiveError::NameTooLong) ==> !candidates_fit(names_view(cands@), contents@),
        res is Ok ==> archive_opens(res->Ok_0@) && archive_reads(res->Ok_0@) && archive_deflated(res->Ok_0@),
        res is Ok ==> archive_entries(res->Ok_0@) == created_entries(names_view(cands@), contents@),
        res is Ok ==> entry_names(archive_entries(res->Ok_0@))
            == present_names(names_view(cands@), presence(contents@), cands.len() as int),
{
    let ghost cv = names_view(cands@);
    let ghost pr = presence(contents@);
    let ghost good = present_names(cv, pr, cands.len() as int).no_duplicates() && candidates_fit(cv, contents@);
    let present = presence_of(contents);
    proof { lemma_create_steps_at(pr, cands.len() as int); }
    let steps = plan_create(cands, &present);
    let mut w = new_writer();
    let mut k: usize = 0;
    while k < steps.len()
        invariant
            0 <= k <= steps.len(),
            cv == names_view(cands@),
            pr == presence(contents@),
            cands.len() == contents.len(),
            good == (present_names(cv, pr, cands.len() as int).no_duplicates() && candidates_fit(cv, contents@)),
            steps@ == create_steps(pr, cands.len() as int),
            steps@.len() == cands.len(),
            forall|j: int| 0 <= j < steps@.len() ==> #[trigger] steps@[j] == (if pr[j] {
                Step::Add { source: j as usize }
            } else {
                Step::Missing { source: j as usize }
            }),
            written_names(cv, cv, steps@) == present_names(cv, pr, cands.len() as int),
            writer_entries(w) == planned_entries(Seq::empty(), cv, contents@, steps@.take(k as int)),
            entry_names(writer_entries(w)) == written_names(cv, cv, steps@.take(k as int)),
        decreases steps.len() - k,
    {
        let ghost before = writer_entries(w);
        assert(steps@.take(k as int + 1).drop_last() =~= steps@.take(k as int));
        assert(steps@.take(k as int + 1).last() == steps@[k as int]);
        match &contents[k] {
            Some(d) => {
                assert(pr[k as int]);
                assert(cv[k as int] == cands@[k as int]@);
                if name_len(&cands[k]) > NAME_MAX {
                    return Err(ArchiveError::NameTooLong);
                }
                match writer_add(&mut w, cands[k].as_str(), d.as_slice()) {
                    Ok(()) => {},
                    Err(e) => {
                        proof {
                            if good {
                                lemma_fresh_step(cv, cv, steps@, k as int, cv[k as int]);
                            }
                        }
                        return Err(error_kind(e));
                    },
                }
                proof { lemma_names_push(before, (cv[k as int], d@)); }
            },
            None => {
                assert(!pr[k as int]);
            },
        }
        k = k + 1;
    }
    proof {
        assert(steps@.take(steps.len() as int) =~= steps@);
    }
    match writer_finish(w) {
        Ok(b) => Ok(b),
        Err(e) => Err(error_kind(e)),
    }
}

/// Whether the candidates were found, one flag each.
fn presence_of(contents: &Vec<Option<Vec<u8>>>) -> (v: Vec<bool>)
    ensures
        v@ == presence(contents@),
{
    let ghost pr = presence(contents@);
    let mut present: Vec<bool> = Vec::new();
    let mut i: usize = 0;
    while i < contents.len()
        invariant
            0 <= i <= contents.len(),
            pr == presence(contents@),
            present@ =~= pr.take(i as int),
        decreases contents.len() - i,
    {
        present.push(contents[i].is_some());
        proof {
            assert(pr[i as int] == contents@[i as int] is Some);
            assert(present@ =~= pr.take(i as int + 1));
        }
        i = i + 1;
    }
    assert(pr.take(contents.len() as int) =~= pr);
    present
}

/// Whether an update of the archive in `b` with these candidates is owed to succeed.
pub open spec fn update_fits(b: Seq<u8>, cands: Seq<Seq<char>>, contents: Seq<Option<Vec<u8>>>) -> bool {
    archive_opens(b) && archive_reads(b) && entries_fit(archive_entries(b))
        && !replacement_missing(entry_names(archive_entries(b)), cands, contents)
        && candidates_fit(cands, contents)
}

/// Rebuilds the archive held in `original` with the candidates named
/// `cands`: every original entry keeps its place, with the content of the
/// first candidate of its name where there is one; then each new name, at its
/// first candidate, is appended as a deflated entry if that candidate was
/// found and skipped if not. A replacement that was not found fails the
/// rebuild. Nothing is written over `original`: on failure the caller still
/// holds it unchanged.
pub fn update_archive(original: &Vec<u8>, cands: &Vec<String>, contents: &Vec<Option<Vec<u8>>>) -> (res: Result<Vec<u8>, ArchiveError>)
    requires
        cands.len() == contents.len(),
    ensures
        update_fits(original@, names_view(cands@), contents@) ==> res is Ok,
        !archive_opens(original@) ==> res == Err::<Vec<u8>, ArchiveError>(ArchiveError::InvalidArchive),
        res == Err::<Vec<u8>, ArchiveError>(ArchiveError::CandidateMissing)
            ==> replacement_missing(entry_names(archive_entries(original@)), names_view(cands@), contents@),
        res == Err::<Vec<u8>, ArchiveError>(ArchiveError::NameTooLong)
            ==> !entries_fit(archive_entries(original@)) || !candidates_fit(names_view(cands@), contents@),
        res is Ok ==> archive_opens(res->Ok_0@) && archive_reads(res->Ok_0@) && archive_deflated(res->Ok_0@),
        res is Ok ==> archive_entries(res->Ok_0@) == updated_entries(archive_entries(original@), names_view(cands@), contents@),
        res is Ok ==> entry_names(archive_entries(res->Ok_0@))
            == merged_names(entry_names(archive_entries(original@)), names_view(cands@), presence(contents@)),
{
    let ghost cv = names_view(cands@);
    let ghost b = original@;
    let ghost good = update_fits(b, cv, contents@);
    let copy = original.clone();
    assert(copy@ == b);
    let mut r = match open_reader(copy) {
        Ok(r) => r,
        Err(_) => return Err(ArchiveError::InvalidArchive),
    };
    let ghost oe = reader_entries(r);
    let names = read_names(&r);
    let ghost on = names_view(names@);
    let n = reader_len(&r);
    let present = presence_of(contents);
    let ghost pr = present@;
    let steps = plan_update(&names, cands, &present);
    proof {
        lemma_merged_distinct(on, cv, pr);
        lemma_keep_steps_at(on, cv, on.len() as int);
        lemma_add_steps_shape(on, cv, pr, cv.len() as int);
    }
    let mut w = new_writer();
    let mut k: usize = 0;
    while k < steps.len()
        invariant
            0 <= k <= steps.len(),
            cv == names_view(cands@),
            cands.len() == contents.len(),
            b == original@,
            good == update_fits(b, cv, contents@),
            oe == reader_entries(r),
            oe == archive_entries(b),
            archive_opens(b),
            reader_readable(r) == archive_reads(b),
            on == names_view(names@),
            on == entry_names(oe),
            on.no_duplicates(),
            n == oe.len(),
            n == names@.len(),
            pr == presence(contents@),
            steps@ == update_plan(on, cv, pr),
            written_names(on, cv, steps@) == merged_names(on, cv, pr),
            merged_names(on, cv, pr).no_duplicates(),
            keep_steps(on, cv, on.len() as int).len() == on.len(),
            forall|i: int| 0 <= i < on.len() ==> #[trigger] keep_steps(on, cv, on.len() as int)[i] == keep_step(on, cv, i),
            forall|t: int| 0 <= t < add_steps(on, cv, pr, cv.len() as int).len() ==> match #[trigger] add_steps(on, cv, pr, cv.len() as int)[t] {
                Step::Add { source } => source < cv.len() && pr[source as int] && brings_new(on, cv, source as int),
                Step::Missing { source } => source < cv.len() && !pr[source as int],
                _ => false,
            },
            writer_entries(w) == planned_entries(oe, cv, contents@, steps@.take(k as int)),
            entry_names(writer_entries(w)) == written_names(on, cv, steps@.take(k as int)),
        decreases steps.len() - k,
    {
        let ghost before = writer_entries(w);
        assert(steps@.take(k as int + 1).drop_last() =~= steps@.take(k as int));
        assert(steps@.take(k as int + 1).last() == steps@[k as int]);
        proof {
            if k < on.len() {
                assert(steps@[k as int] == keep_steps(on, cv, on.len() as int)[k as int]);
                lemma_first_index(cv, on[k as int]);
            } else {
                assert(steps@[k as int] == add_steps(on, cv, pr, cv.len() as int)[k - on.len()]);
            }
        }
        match steps[k] {
            Step::Copy { at } => {
                let (nm, data) = match reader_entry(&mut r, at) {
                    Ok(e) => e,
                    Err(e) => return Err(error_kind(e)),
                };
                assert(on[at as int] == oe[at as int].0);
                if name_len(&nm) > NAME_MAX {
                    return Err(ArchiveError::NameTooLong);
                }
                match writer_add(&mut w, nm.as_str(), data.as_slice()) {
                    Ok(()) => {},
                    Err(e) => {
                        proof {
                            if good {
                                lemma_fresh_step(on, cv, steps@, k as int, on[at as int]);
                            }
                        }
                        return Err(error_kind(e));
                    },
                }
                proof { lemma_names_push(before, (nm@, data@)); }
            },
            Step::Replace { at, source } => {
                assert(on[at as int] == names@[at as int]@);
                assert(on[at as int] == oe[at as int].0);
                match &contents[source] {
                    Some(d) => {
                        if name_len(&names[at]) > NAME_MAX {
                            return Err(ArchiveError::NameTooLong);
                        }
                        match writer_add(&mut w, names[at].as_str(), d.as_slice()) {
                            Ok(()) => {},
                            Err(e) => {
                                proof {
                                    if good {
                                        lemma_fresh_step(on, cv, steps@, k as int, on[at as int]);
                                    }
                                }
                                return Err(error_kind(e));
                            },
                        }
                        proof { lemma_names_push(before, (on[at as int], d@)); }
                    },
                    None => {
                        return Err(ArchiveError::CandidateMissing);
                    },
                }
            },
            Step::Add { source } => {
                assert(cv[source as int] == cands@[source as int]@);
                match &contents[source] {
                    Some(d) => {
                        if name_len(&cands[source]) > NAME_MAX {
                            return Err(ArchiveError::NameTooLong);
                        }
                        match writer_add(&mut w, cands[source].as_str(), d.as_slice()) {
                            Ok(()) => {},
                            Err(e) => {
                                proof {
                                    if good {
                                        lemma_fresh_step(on, cv, steps@, k as int, cv[source as int]);
                                    }
                                }
                                return Err(error_kind(e));
                            },
                        }
                        proof { lemma_names_push(before, (cv[source as int], d@)); }
                    },
                    None => {
                        assert(pr[source as int]);
                    },
                }
            },
            Step::Missing { source } => {},
        }
        k = k + 1;
    }
    proof {
        assert(steps@.take(steps.len() as int) =~= steps@);
    }
    match writer_finish(w) {
        Ok(out) => Ok(out),
        Err(e) => Err(error_kind(e)),
    }
}

/// The entries that an update appends for the first `n` candidates.
pub open spec fn new_entries(orig: Seq<Seq<char>>, cands: Seq<Seq<char>>, contents: Seq<Option<Vec<u8>>>, n: int) -> Seq<EntryView>
    decreases n,
{
    if n <= 0 {
        Seq::empty()
    } else if brings_new(orig, cands, n - 1) && contents[n - 1] is Some {
        new_entries(orig, cands, contents, n - 1).push((cands[n - 1], content_of(contents[n - 1])))
    } else {
        new_entries(orig, cands, contents, n - 1)
    }
}

/// The entry an update writes for the original entry at `k`.
pub open spec fn kept_entry(orig: Seq<EntryView>, cands: Seq<Seq<char>>, contents: Seq<Option<Vec<u8>>>, k: int) -> EntryView {
    if cands.contains(orig[k].0) {
        (orig[k].0, content_of(contents[first_index(cands, orig[k].0)]))
    } else {
        orig[k]
    }
}

proof fn lemma_kept_entries(o: Seq<EntryView>, c: Seq<Seq<char>>, x: Seq<Option<Vec<u8>>>, n: int)
    requires
        0 <= n <= o.len(),
        o.len() <= usize::MAX,
        c.len() <= usize::MAX,
    ensures
        planned_entries(o, c, x, keep_steps(entry_names(o), c, n)).len() == n,
        forall|k: int| 0 <= k < n ==> #[trigger] planned_entries(o, c, x, keep_steps(entry_names(o), c, n))[k]
            == kept_entry(o, c, x, k),
    decreases n,
{
    if n > 0 {
        let on = entry_names(o);
        lemma_kept_entries(o, c, x, n - 1);
        let prev = keep_steps(on, c, n - 1);
        let st = keep_step(on, c, n - 1);
        assert(prev.push(st).drop_last() =~= prev);
        assert(on[n - 1] == o[n - 1].0);
        lemma_first_index(c, on[n - 1]);
        let before = planned_entries(o, c, x, prev);
        let now = planned_entries(o, c, x, keep_steps(on, c, n));
        assert(now == before + step_entry(o, c, x, st));
        assert forall|k: int| 0 <= k < n implies #[trigger] now[k] == kept_entry(o, c, x, k) by {
            if k < n - 1 {
                assert(now[k] == before[k]);
            }
        }
    }
}

proof fn lemma_added_entries(o: Seq<EntryView>, c: Seq<Seq<char>>, x: Seq<Option<Vec<u8>>>, n: int)
    requires
        0 <= n <= c.len(),
        c.len() == x.len(),
        c.len() <= usize::MAX,
    ensures
        planned_entries(o, c, x, add_steps(entry_names(o), c, presence(x), n)) == new_entries(entry_names(o), c, x, n),
    decreases n,
{
    if n > 0 {
        let on = entry_names(o);
        let p = presence(x);
        lemma_added_entries(o, c, x, n - 1);
        assert(p[n - 1] == x[n - 1] is Some);
        let prev = add_steps(on, c, p, n - 1);
        let before = planned_entries(o, c, x, prev);
        if brings_new(on, c, n - 1) {
            if p[n - 1] {
                let st = Step::Add { source: (n - 1) as usize };
                assert(prev.push(st).drop_last() =~= prev);
                let e = (c[n - 1], content_of(x[n - 1]));
                assert(before + seq![e] =~= before.push(e));
            } else {
                let st = Step::Missing { source: (n - 1) as usize };
                assert(prev.push(st).drop_last() =~= prev);
                assert(before + Seq::<EntryView>::empty() =~= before);
            }
        }
    }
}

proof fn lemma_new_entries_from(on: Seq<Seq<char>>, c: Seq<Seq<char>>, x: Seq<Option<Vec<u8>>>, n: int)
    requires
        0 <= n <= c.len(),
    ensures
        new_entries(on, c, x, n).len() <= n,
        forall|t: int| 0 <= t < new_entries(on, c, x, n).len() ==> exists|j: int| 0 <= j < n
            && brings_new(on, c, j) && x[j] is Some && #[trigger] new_entries(on, c, x, n)[t] == (c[j], content_of(x[j])),
    decreases n,
{
    if n > 0 {
        lemma_new_entries_from(on, c, x, n - 1);
        let prev = new_entries(on, c, x, n - 1);
        let now = new_entries(on, c, x, n);
        assert forall|t: int| 0 <= t < now.len() implies exists|j: int| 0 <= j < n
            && brings_new(on, c, j) && x[j] is Some && #[trigger] now[t] == (c[j], content_of(x[j])) by {
            if t < prev.len() {
                assert(now[t] == prev[t]);
                let j = choose|j: int| 0 <= j < n - 1 && brings_new(on, c, j) && x[j] is Some && #[trigger] prev[t] == (c[j], content_of(x[j]));
                assert(now[t] == (c[j], content_of(x[j])));
            } else {
                assert(now[t] == (c[n - 1], content_of(x[n - 1])));
            }
        }
    }
}

proof fn lemma_planned_concat(o: Seq<EntryView>, c: Seq<Seq<char>>, x: Seq<Option<Vec<u8>>>, a: Seq<Step>, b: Seq<Step>)
    ensures
        planned_entries(o, c, x, a + b) == planned_entries(o, c, x, a) + planned_entries(o, c, x, b),
    decreases b.len(),
{
    if b.len() == 0 {
        assert(a + b =~= a);
        assert(planned_entries(o, c, x, a) + Seq::<EntryView>::empty() =~= planned_entries(o, c, x, a));
    } else {
        lemma_planned_concat(o, c, x, a, b.drop_last());
        assert((a + b).drop_last() =~= a + b.drop_last());
        assert((a + b).last() == b.last());
        assert(planned_entries(o, c, x, a) + planned_entries(o, c, x, b.drop_last()) + step_entry(o, c, x, b.last())
            =~= planned_entries(o, c, x, a) + (planned_entries(o, c, x, b.drop_last()) + step_entry(o, c, x, b.last())));
    }
}

/// Updating a second time with the same candidates and the same contents
/// leaves every entry, its name, place and content, as the first update left it.
pub proof fn lemma_update_twice(o: Seq<EntryView>, c: Seq<Seq<char>>, x: Seq<Option<Vec<u8>>>)
    requires
        c.len() == x.len(),
        o.len() + c.len() <= usize::MAX,
    ensures
        updated_entries(updated_entries(o, c, x), c, x) == updated_entries(o, c, x),
{
    let on = entry_names(o);
    let p = presence(x);
    let u1 = updated_entries(o, c, x);
    lemma_planned_concat(o, c, x, keep_steps(on, c, o.len() as int), add_steps(on, c, p, c.len() as int));
    lemma_kept_entries(o, c, x, o.len() as int);
    lemma_added_entries(o, c, x, c.len() as int);
    lemma_new_entries_from(on, c, x, c.len() as int);
    let kpart = planned_entries(o, c, x, keep_steps(on, c, o.len() as int));
    let apart = new_entries(on, c, x, c.len() as int);
    assert(u1 == kpart + apart);
    let n1 = entry_names(u1);
    assert(u1.len() <= usize::MAX);
    assert forall|j: int| 0 <= j < c.len() implies #[trigger] p[j] == (x[j] is Some) by {}
    let u2 = updated_entries(u1, c, x);
    lemma_planned_concat(u1, c, x, keep_steps(n1, c, u1.len() as int), add_steps(n1, c, p, c.len() as int));
    lemma_kept_entries(u1, c, x, u1.len() as int);
    lemma_added_entries(u1, c, x, c.len() as int);
    lemma_new_entries_from(n1, c, x, c.len() as int);
    if new_entries(n1, c, x, c.len() as int).len() > 0 {
        let j = choose|j: int| 0 <= j < c.len() && brings_new(n1, c, j) && x[j] is Some
            && #[trigger] new_entries(n1, c, x, c.len() as int)[0] == (c[j], content_of(x[j]));
        if on.contains(c[j]) {
            let i = choose|i: int| 0 <= i < on.len() && on[i] == c[j];
            assert(u1[i] == kpart[i]);
            assert(n1[i] == c[j]);
        } else {
            crate::plan::lemma_first_index(c, c[j]);
            assert(brings_new(on, c, j));
            lemma_apart_has(on, c, x, c.len() as int, j);
            let t = choose|t: int| 0 <= t < apart.len() && apart[t].0 == c[j];
            assert(u1[o.len() + t] == apart[t]);
            assert(n1[o.len() + t] == c[j]);
        }
    }
    let k2 = planned_entries(u1, c, x, keep_steps(n1, c, u1.len() as int));
    assert(u2 =~= k2 + new_entries(n1, c, x, c.len() as int));
    assert forall|k: int| 0 <= k < u1.len() implies #[trigger] k2[k] == u1[k] by {
        assert(k2[k] == kept_entry(u1, c, x, k));
        if k < o.len() {
            assert(u1[k] == kpart[k]);
            assert(kpart[k] == kept_entry(o, c, x, k));
        } else {
            let t = k - o.len();
            assert(u1[k] == apart[t]);
            let j = choose|j: int| 0 <= j < c.len() && brings_new(on, c, j) && x[j] is Some && #[trigger] apart[t] == (c[j], content_of(x[j]));
            assert(c.contains(c[j]));
        }
    }
    assert(u2 =~= u1);
}

proof fn lemma_apart_has(on: Seq<Seq<char>>, c: Seq<Seq<char>>, x: Seq<Option<Vec<u8>>>, n: int, j: int)
    requires
        0 <= j < n <= c.len(),
        brings_new(on, c, j),
        x[j] is Some,
    ensures
        exists|t: int| 0 <= t < new_entries(on, c, x, n).len() && new_entries(on, c, x, n)[t].0 == c[j],
    decreases n,
{
    let prev = new_entries(on, c, x, n - 1);
    let now = new_entries(on, c, x, n);
    if j < n - 1 {
        lemma_apart_has(on, c, x, n - 1, j);
        let t = choose|t: int| 0 <= t < prev.len() && prev[t].0 == c[j];
        if brings_new(on, c, n - 1) && x[n - 1] is Some {
            assert(now[t] == prev[t]);
        }
    } else {
        assert(now[prev.len() as int].0 == c[j]);
    }
}

/// Listing an archive that creation wrote gives back the names of the
/// candidates that were found, in the order they were given.
pub proof fn lemma_list_after_create(
    cands: Seq<Seq<char>>,
    contents: Seq<Option<Vec<u8>>>,
    built: Seq<u8>,
)
    requires
        cands.len() == contents.len(),
        cands.len() <= usize::MAX,
        archive_entries(built) == created_entries(cands, contents),
    ensures
        entry_names(archive_entries(built)) == present_names(cands, presence(contents), cands.len() as int),
{
    lemma_created_names(cands, contents, cands.len() as int);
}

proof fn lemma_created_names(cands: Seq<Seq<char>>, contents: Seq<Option<Vec<u8>>>, n: int)
    requires
        0 <= n <= cands.len(),
        cands.len() == contents.len(),
        cands.len() <= usize::MAX,
    ensures
        entry_names(planned_entries(Seq::empty(), cands, contents, create_steps(presence(contents), n)))
            == present_names(cands, presence(contents), n),
    decreases n,
{
    let p = presence(contents);
    if n > 0 {
        lemma_created_names(cands, contents, n - 1);
        let prev = create_steps(p, n - 1);
        let before = planned_entries(Seq::empty(), cands, contents, prev);
        if p[n - 1] {
            let st = Step::Add { source: (n - 1) as usize };
            assert(prev.push(st).drop_last() =~= prev);
            let e = (cands[n - 1], content_of(contents[n - 1]));
            assert(before + seq![e] =~= before.push(e));
            lemma_names_push(before, e);
        } else {
            let st = Step::Missing { source: (n - 1) as usize };
            assert(prev.push(st).drop_last() =~= prev);
            assert(before + Seq::<EntryView>::empty() =~= before);
        }
    }
}

/// Where an update is owed to succeed, updating its result again with the same
/// candidates is owed to succeed too.
pub proof fn lemma_update_again_fits(b: Seq<u8>, c: Seq<Seq<char>>, x: Seq<Option<Vec<u8>>>, b2: Seq<u8>)
    requires
        c.len() == x.len(),
        archive_entries(b).len() + c.len() <= usize::MAX,
        update_fits(b, c, x),
        archive_opens(b2),
        archive_reads(b2),
        archive_entries(b2) == updated_entries(archive_entries(b), c, x),
    ensures
        update_fits(b2, c, x),
{
    let o = archive_entries(b);
    let on = entry_names(o);
    let p = presence(x);
    let u1 = updated_entries(o, c, x);
    lemma_planned_concat(o, c, x, keep_steps(on, c, o.len() as int), add_steps(on, c, p, c.len() as int));
    lemma_kept_entries(o, c, x, o.len() as int);
    lemma_added_entries(o, c, x, c.len() as int);
    lemma_new_entries_from(on, c, x, c.len() as int);
    let kpart = planned_entries(o, c, x, keep_steps(on, c, o.len() as int));
    let apart = new_entries(on, c, x, c.len() as int);
    assert(u1 == kpart + apart);
    let n1 = entry_names(u1);
    assert forall|i: int| 0 <= i < u1.len() implies (#[trigger] u1[i]).0.len() <= NAME_MAX && u1[i].1.len() <= DATA_MAX
        && (c.contains(u1[i].0) ==> x[first_index(c, u1[i].0)] is Some) by {
        if i < o.len() {
            assert(u1[i] == kpart[i]);
            assert(kpart[i] == kept_entry(o, c, x, i));
            assert(on[i] == o[i].0);
            lemma_first_index(c, o[i].0);
            if c.contains(o[i].0) {
                assert(x[first_index(c, o[i].0)] is Some);
            }
        } else {
            let t = i - o.len();
            assert(u1[i] == apart[t]);
            let j = choose|j: int| 0 <= j < c.len() && brings_new(on, c, j) && x[j] is Some && #[trigger] apart[t] == (c[j], content_of(x[j]));
        }
    }
    assert(entries_fit(u1));
    if replacement_missing(n1, c, x) {
        let i = choose|i: int| 0 <= i < n1.len() && c.contains(#[trigger] n1[i]) && x[first_index(c, n1[i])] is None;
        assert(n1[i] == u1[i].0);
    }
}

} // verus!
