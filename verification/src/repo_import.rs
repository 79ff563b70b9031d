//! The project import: the archive URL derived from the repository URL of
//! the sidecar's configuration, the steps that unpack the archive inside the
//! target directory, and the outcome of an import.
use vstd::prelude::*;
use std::io::Cursor;
use std::io::Read;
use zip::read::ZipFile;
use zip::result::ZipError;
use zip::ZipArchive;
use crate::text::{
    chars_of, ends_with, push_range, range_ends_with, range_starts_with, split_on, starts_with,
    trim_end_char, trim_end_seq,
};

verus! {

broadcast use vstd::string::group_string_axioms;

/// Where the project was unpacked, and how many bytes were downloaded.
pub struct ImportOutcome {
    pub path: String,
    pub bytes: u64,
}

/// The archive URL for a repository URL: trailing `'/'` and `".git"`
/// suffixes removed; a URL that then ends with `".zip"` is used as it is; a
/// `https://github.com/OWNER/REPO` URL becomes the codeload URL of the
/// default branch's zip; any other URL is used as it is.
pub open spec fn zip_url(repo_url: Seq<char>) -> Seq<char> {
    let t = trim_end_seq(trim_end_char(repo_url, '/'), ".git"@);
    if ends_with(t, ".zip"@) {
        t
    } else if starts_with(t, "https://github.com/"@) {
        "https://codeload.github.com/"@ + t.subrange("https://github.com/"@.len() as int, t.len() as int)
            + "/zip/HEAD"@
    } else {
        t
    }
}

/// A URL that already ends with `".zip"` is used as it is.
pub proof fn law_zip_urls_pass_through(repo_url: Seq<char>)
    requires
        ends_with(repo_url, ".zip"@),
    ensures
        zip_url(repo_url) == repo_url,
{
    reveal_strlit(".zip");
    reveal_strlit(".git");
    let n = repo_url.len();
    assert(repo_url.subrange(n - 4, n as int)[3] == repo_url[n - 1]);
    assert(repo_url.last() == 'p');
    assert(trim_end_char(repo_url, '/') == repo_url);
    assert(!ends_with(repo_url, ".git"@)) by {
        if ends_with(repo_url, ".git"@) {
            assert(repo_url.subrange(n - 4, n as int)[3] == ".git"@[3]);
        }
    }
    assert(trim_end_seq(repo_url, ".git"@) == repo_url);
}

/// A GitHub repository URL becomes the codeload URL of the default
/// branch's zip, with the whole path after `https://github.com/` kept
/// verbatim, dots and slashes included, with or without a `.git` suffix.
pub proof fn law_github_path_kept(path: Seq<char>)
    requires
        path.len() > 0,
        path.last() != '/',
        !ends_with(path, ".git"@),
        !ends_with(path, ".zip"@),
    ensures
        zip_url("https://github.com/"@ + path) == "https://codeload.github.com/"@ + path
            + "/zip/HEAD"@,
        zip_url("https://github.com/"@ + path + ".git"@) == "https://codeload.github.com/"@
            + path + "/zip/HEAD"@,
{
    reveal_strlit("https://github.com/");
    reveal_strlit(".git");
    reveal_strlit(".zip");
    let gh = "https://github.com/"@;
    let u = gh + path;
    let n = u.len();
    assert(u.last() == path.last());
    assert(trim_end_char(u, '/') == u);
    if path.len() >= 4 {
        assert(u.subrange(n - 4, n as int) =~= path.subrange(path.len() - 4, path.len() as int));
    } else {
        assert(u[n - 4] != '.') by {
            assert(u[n - 4] == gh[gh.len() - 4 + path.len()]);
        }
    }
    assert(!ends_with(u, ".git"@)) by {
        if ends_with(u, ".git"@) {
            assert(u.subrange(n - 4, n as int)[0] == u[n - 4]);
        }
    }
    assert(!ends_with(u, ".zip"@)) by {
        if ends_with(u, ".zip"@) {
            assert(u.subrange(n - 4, n as int)[0] == u[n - 4]);
        }
    }
    assert(trim_end_seq(u, ".git"@) == u);
    assert(u.subrange(0, gh.len() as int) =~= gh);
    assert(starts_with(u, gh));
    assert(u.subrange(gh.len() as int, n as int) =~= path);
    let w = u + ".git"@;
    assert(w.last() == 't');
    assert(trim_end_char(w, '/') == w);
    assert(w.subrange(w.len() - 4, w.len() as int) =~= ".git"@);
    assert(w.subrange(0, w.len() - 4) =~= u);
    assert(trim_end_seq(w, ".git"@) == u);
    assert(gh + path + ".git"@ == w);
}

/// Turns a `https://github.com/owner/repo` URL into a zip download URL
/// pointing at the default branch. If the URL is already a zip it is passed
/// through.
pub fn zip_url_for(repo_url: &str) -> (r: String)
    ensures
        r@ == zip_url(repo_url@),
{
    let v = chars_of(repo_url);
    let mut end = v.len();
    assert(v@.subrange(0, v@.len() as int) =~= v@);
    while end > 0 && v[end - 1] == '/'
        invariant
            end <= v@.len(),
            v@ == repo_url@,
            trim_end_char(v@, '/') == trim_end_char(v@.subrange(0, end as int), '/'),
        decreases end,
    {
        assert(v@.subrange(0, end as int).drop_last() =~= v@.subrange(0, end - 1));
        end = end - 1;
    }
    assert(trim_end_char(v@.subrange(0, end as int), '/') == v@.subrange(0, end as int));
    let git = chars_of(".git");
    proof {
        reveal_strlit(".git");
    }
    while range_ends_with(&v, 0, end, &git)
        invariant
            end <= v@.len(),
            v@ == repo_url@,
            git@ == ".git"@,
            git@.len() == 4,
            trim_end_seq(trim_end_char(v@, '/'), ".git"@) == trim_end_seq(
                v@.subrange(0, end as int),
                ".git"@,
            ),
        decreases end,
    {
        assert(v@.subrange(0, end as int).subrange(0, end - 4) =~= v@.subrange(0, end - 4));
        end = end - git.len();
    }
    let ghost t = v@.subrange(0, end as int);
    assert(trim_end_seq(t, ".git"@) == t);
    let zip = chars_of(".zip");
    let gh = chars_of("https://github.com/");
    let mut r: String;
    if range_ends_with(&v, 0, end, &zip) {
        r = String::new();
        push_range(&mut r, &v, 0, end);
    } else if range_starts_with(&v, 0, end, &gh) {
        r = String::from_str("https://codeload.github.com/");
        push_range(&mut r, &v, gh.len(), end);
        assert(t.subrange(gh@.len() as int, t.len() as int) =~= v@.subrange(
            gh@.len() as int,
            end as int,
        ));
        r.append("/zip/HEAD");
    } else {
        r = String::new();
        push_range(&mut r, &v, 0, end);
    }
    r
}

/// The message for an I/O failure whose description is `msg`.
pub fn io_err(msg: &str) -> (r: String)
    ensures
        r@ == "io error: "@ + msg@,
{
    let mut r = String::from_str("io error: ");
    r.append(msg);
    r
}

// ---------------------------------------------------------------------------
// Unpacking the archive
// ---------------------------------------------------------------------------

/// `std::io::Cursor`, an in-memory reader, declared so that it can stand
/// in signatures; nothing is claimed of its content.
#[verifier::external_type_specification]
#[verifier::external_body]
#[verifier::reject_recursive_types(T)]
pub struct ExCursor<T>(Cursor<T>);

/// `zip::ZipArchive`, declared so that it can stand in signatures; what an
/// archive holds is named by `zip_entries`.
#[verifier::external_type_specification]
#[verifier::external_body]
#[verifier::reject_recursive_types(R)]
pub struct ExZipArchive<R>(ZipArchive<R>);

/// `zip::result::ZipError`, declared so that it can stand in signatures.
#[verifier::external_type_specification]
#[verifier::external_body]
pub struct ExZipError(ZipError);

/// An opened entry of an archive held in memory. Verus does not take the
/// declaration of `zip::read::ZipFile` (its parameter is bounded by
/// `std::io::Read`, a trait that Verus does not know), so the entry is held
/// here, out of Verus's sight.
#[verifier::external_body]
struct ZipFileHandle<'a> {
    file: ZipFile<'a, Cursor<Vec<u8>>>,
}

/// An opened entry with its file name as the archive records it, and what
/// reading it gives.
struct ZipEntry<'a> {
    handle: ZipFileHandle<'a>,
    name: String,
    content: Ghost<Option<Seq<u8>>>,
}

/// `std::io::Error`, declared so that it can stand in signatures.
#[verifier::external_type_specification]
#[verifier::external_body]
pub struct ExIoError(std::io::Error);

/// An archive held in memory.
pub type MemArchive = ZipArchive<Cursor<Vec<u8>>>;

/// What `zip::ZipArchive::new` reads out of these bytes: `None` when they
/// hold no archive, else the entries, as `zip_entries` gives them.
pub uninterp spec fn zip_open(bytes: Seq<u8>) -> Option<Seq<(Seq<char>, Option<Seq<u8>>)>>;

/// The entries of an archive, by index: the file name as the central
/// directory records it, and the decompressed content when the entry opens
/// and reads (`None` when opening or reading it fails).
pub uninterp spec fn zip_entries(archive: MemArchive) -> Seq<(Seq<char>, Option<Seq<u8>>)>;

/// Whether a zip entry name denotes a directory: it ends with `'/'` or
/// `'\\'` (`zip::read::ZipFile::is_dir`).
pub open spec fn is_dir_name(name: Seq<char>) -> bool {
    name.len() > 0 && (name.last() == '/' || name.last() == '\\')
}

/// The change of depth that one `'/'`-separated component of a path makes:
/// none for an empty component or `"."`, one level up for `".."`, one level
/// down for any other name.
pub open spec fn component_depth(c: Seq<char>) -> int {
    if c.len() == 0 || c == seq!['.'] {
        0
    } else if c == seq!['.', '.'] {
        -1
    } else {
        1
    }
}

/// The depth reached after the first `n` components of `parts`.
pub open spec fn depth_after(parts: Seq<Seq<char>>, n: int) -> int
    decreases n,
{
    if n <= 0 {
        0
    } else {
        depth_after(parts, n - 1) + component_depth(parts[n - 1])
    }
}

/// A path that stays inside the directory it is joined to, by the Unix
/// path rules: it holds no NUL, is not absolute, and no run of its leading
/// components climbs above that directory (`"a/../b"` stays inside,
/// `"a/../../b"` does not).
pub open spec fn enclosed(p: Seq<char>) -> bool {
    &&& forall|i: int| 0 <= i < p.len() ==> p[i] != '\0'
    &&& !(p.len() > 0 && p[0] == '/')
    &&& forall|n: int|
        0 <= n <= split_on(p, '/').len() ==> #[trigger] depth_after(split_on(p, '/'), n) >= 0
}

/// `zip::ZipArchive::new` on the archive's bytes: reads the central
/// directory. It succeeds exactly when the bytes hold an archive, and the
/// archive it returns holds the entries that the bytes list.
#[verifier::external_body]
fn zip_archive_new(bytes: Vec<u8>) -> (r: Result<MemArchive, ZipError>)
    ensures
        r is Ok <==> zip_open(bytes@) is Some,
        r matches Ok(a) ==> zip_open(bytes@) == Some(zip_entries(a)),
{
    ZipArchive::new(Cursor::new(bytes))
}

/// `zip::ZipArchive::len`: the number of entries.
#[verifier::external_body]
fn zip_len(archive: &MemArchive) -> (r: usize)
    ensures
        r == zip_entries(*archive).len(),
{
    archive.len()
}

/// `zip::ZipArchive::by_index`: the entry at `index`, with its file name
/// (`zip::read::ZipFile::name`) and what reading it gives, both as the
/// archive holds them at `index`. It fails when `index` is past the last
/// entry and succeeds for an entry that opens and reads; the entries stay
/// as they were.
#[verifier::external_body]
fn zip_by_index(archive: &mut MemArchive, index: usize) -> (r: Result<ZipEntry<'_>, ZipError>)
    ensures
        zip_entries(*final(archive)) == zip_entries(*old(archive)),
        index >= zip_entries(*old(archive)).len() ==> r is Err,
        index < zip_entries(*old(archive)).len() && zip_entries(*old(archive))[index as int].1 is Some
            ==> r is Ok,
        r matches Ok(e) ==> index < zip_entries(*old(archive)).len() && e.name@ == zip_entries(
            *old(archive),
        )[index as int].0 && e.content@ == zip_entries(*old(archive))[index as int].1,
{
    let ghost content = zip_entries(*archive)[index as int].1;
    match archive.by_index(index) {
        Ok(file) => {
            let name = file.name().to_string();
            Ok(ZipEntry { handle: ZipFileHandle { file }, name, content: Ghost(content) })
        },
        Err(e) => Err(e),
    }
}

/// `zip::read::ZipFile::enclosed_name`: the entry's name as a relative path
/// when it stays inside the directory it is joined to, else `None`. The path
/// is built from the file name itself. Which names stay inside is stated by
/// the Unix path rules (`enclosed`), those of the platform this application
/// runs on; on Windows, where `'\\'` and drive prefixes also count, the
/// crate's rules differ and this contract does not describe them.
#[verifier::external_body]
fn zip_enclosed_name(entry: &ZipEntry<'_>) -> (r: Option<String>)
    ensures
        r is Some <==> enclosed(entry.name@),
        r matches Some(p) ==> p@ == entry.name@,
{
    match entry.handle.file.enclosed_name() {
        Some(p) => Some(p.to_string_lossy().into_owned()),
        None => None,
    }
}

/// `zip::read::ZipFile::is_dir`: whether the entry's name ends with a path
/// separator.
#[verifier::external_body]
fn zip_is_dir(entry: &ZipEntry<'_>) -> (r: bool)
    ensures
        r == is_dir_name(entry.name@),
{
    entry.handle.file.is_dir()
}

/// `std::io::Read::read_to_end` on a freshly opened entry: it succeeds
/// exactly when the entry reads, and gives its decompressed content.
#[verifier::external_body]
fn zip_read_all(entry: ZipEntry<'_>) -> (r: Result<Vec<u8>, std::io::Error>)
    ensures
        r is Ok <==> entry.content@ is Some,
        r matches Ok(d) ==> entry.content@ == Some(d@),
{
    let mut entry = entry;
    let mut buf: Vec<u8> = Vec::new();
    match entry.handle.file.read_to_end(&mut buf) {
        Ok(_) => Ok(buf),
        Err(e) => Err(e),
    }
}

/// What to do with one archive entry.
pub enum EntryKind {
    /// The entry's name is not safe to extract.
    Skip,
    /// Create the directory at this relative path.
    Dir(String),
    /// Write the file at this relative path.
    File(String),
}

/// One step of unpacking: what to do on disk for one entry. A file's
/// content comes from `read_entry`, once the file is created.
pub enum ExtractStep {
    Skip,
    CreateDir(String),
    WriteFile(String),
}

/// The treatment of an entry from its enclosed name and whether it is a
/// directory: entries without an enclosed name are skipped, directories are
/// created, and everything else is written as a file.
pub fn entry_kind(enclosed_name: Option<String>, is_dir: bool) -> (r: EntryKind)
    ensures
        match enclosed_name {
            None => r is Skip,
            Some(p) => if is_dir {
                r matches EntryKind::Dir(d) && d@ == p@
            } else {
                r matches EntryKind::File(f) && f@ == p@
            },
        },
{
    match enclosed_name {
        None => EntryKind::Skip,
        Some(p) => if is_dir {
            EntryKind::Dir(p)
        } else {
            EntryKind::File(p)
        },
    }
}

/// The message for a failure whose description is `detail`, after `prefix`.
fn error_text(prefix: &str, detail: String) -> (r: String)
    ensures
        r@ == prefix@ + detail@,
{
    let mut r = String::from_str(prefix);
    r.append(detail.as_str());
    r
}

/// Opens the downloaded archive: it succeeds exactly when the bytes hold
/// one, and the archive holds the entries that the bytes list; a failure is
/// reported as `"zip: "` and the zip error's description.
pub fn open_archive(bytes: Vec<u8>) -> (r: Result<MemArchive, String>)
    ensures
        r is Ok <==> zip_open(bytes@) is Some,
        r matches Ok(a) ==> zip_open(bytes@) == Some(zip_entries(a)),
        r matches Err(e) ==> exists|d: Seq<char>| e@ == "zip: "@ + d,
{
    match zip_archive_new(bytes) {
        Ok(a) => Ok(a),
        Err(e) => Err(error_text("zip: ", e.to_string())),
    }
}

/// The number of entries of the archive; unpacking visits the indices below
/// it.
pub fn archive_len(archive: &MemArchive) -> (r: usize)
    ensures
        r == zip_entries(*archive).len(),
{
    zip_len(archive)
}

/// The step for entry `index` of the archive: skipped exactly when its name
/// does not stay inside the target directory, else the directory to create
/// or the file to write at the entry's name, as the name ends with a
/// separator or not. It succeeds for every entry that opens and reads. An
/// index past the last entry, like any failure to open the entry, is
/// reported as `"zip entry: "` and the zip error's description. The entries
/// stay as they were.
pub fn extract_step(archive: &mut MemArchive, index: usize) -> (r: Result<ExtractStep, String>)
    ensures
        zip_entries(*final(archive)) == zip_entries(*old(archive)),
        index >= zip_entries(*old(archive)).len() ==> r is Err,
        index < zip_entries(*old(archive)).len() && zip_entries(*old(archive))[index as int].1 is Some
            ==> r is Ok,
        r matches Ok(step) ==> index < zip_entries(*old(archive)).len() && ({
            let name = zip_entries(*old(archive))[index as int].0;
            match step {
                ExtractStep::Skip => !enclosed(name),
                ExtractStep::CreateDir(p) => p@ == name && enclosed(p@) && is_dir_name(p@),
                ExtractStep::WriteFile(p) => p@ == name && enclosed(p@) && !is_dir_name(p@),
            }
        }),
        r matches Err(e) ==> exists|d: Seq<char>| e@ == "zip entry: "@ + d,
{
    let entry = match zip_by_index(archive, index) {
        Ok(f) => f,
        Err(e) => {
            return Err(error_text("zip entry: ", e.to_string()));
        },
    };
    match entry_kind(zip_enclosed_name(&entry), zip_is_dir(&entry)) {
        EntryKind::Skip => Ok(ExtractStep::Skip),
        EntryKind::Dir(p) => Ok(ExtractStep::CreateDir(p)),
        EntryKind::File(p) => Ok(ExtractStep::WriteFile(p)),
    }
}

/// The decompressed content of entry `index`: it succeeds exactly when the
/// entry opens and reads. An index past the last entry, like any failure to
/// open the entry, is reported as `"zip entry: "` and the zip error's
/// description, a failure to read it as an I/O error. The entries stay as
/// they were.
pub fn read_entry(archive: &mut MemArchive, index: usize) -> (r: Result<Vec<u8>, String>)
    ensures
        zip_entries(*final(archive)) == zip_entries(*old(archive)),
        r is Ok <==> index < zip_entries(*old(archive)).len() && zip_entries(
            *old(archive),
        )[index as int].1 is Some,
        r matches Ok(d) ==> zip_entries(*old(archive))[index as int].1 == Some(d@),
        index >= zip_entries(*old(archive)).len() ==> (r matches Err(e) && exists|d: Seq<char>|
            e@ == "zip entry: "@ + d),
        r matches Err(e) ==> exists|d: Seq<char>|
            e@ == "zip entry: "@ + d || e@ == "io error: "@ + d,
{
    let entry = match zip_by_index(archive, index) {
        Ok(f) => f,
        Err(e) => {
            return Err(error_text("zip entry: ", e.to_string()));
        },
    };
    match zip_read_all(entry) {
        Ok(data) => Ok(data),
        Err(e) => {
            let text = e.to_string();
            Err(io_err(text.as_str()))
        },
    }
}

} // verus!
