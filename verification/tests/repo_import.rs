use amnia_desktop::repo_import::{
    archive_len, entry_kind, extract_step, io_err, open_archive, read_entry, zip_url_for,
    EntryKind, ExtractStep,
};
use std::io::{Cursor, Write};

#[test]
fn github_urls_become_codeload_urls() {
    assert_eq!(
        zip_url_for("https://github.com/owner/repo"),
        "https://codeload.github.com/owner/repo/zip/HEAD"
    );
    assert_eq!(
        zip_url_for("https://github.com/owner/repo.git"),
        "https://codeload.github.com/owner/repo/zip/HEAD"
    );
    assert_eq!(
        zip_url_for("https://github.com/owner/repo///"),
        "https://codeload.github.com/owner/repo/zip/HEAD"
    );
    assert_eq!(
        zip_url_for("https://github.com/owner/repo.git.git"),
        "https://codeload.github.com/owner/repo/zip/HEAD"
    );
    // `.git/` keeps its slash once `.git` is gone from the end.
    assert_eq!(
        zip_url_for("https://github.com/owner/repo.git/"),
        "https://codeload.github.com/owner/repo/zip/HEAD"
    );
}

#[test]
fn other_urls_pass_through() {
    assert_eq!(
        zip_url_for("https://example.com/project.zip"),
        "https://example.com/project.zip"
    );
    assert_eq!(
        zip_url_for("https://github.com/owner/repo/archive/main.zip"),
        "https://github.com/owner/repo/archive/main.zip"
    );
    assert_eq!(
        zip_url_for("https://gitlab.com/owner/repo.git/"),
        "https://gitlab.com/owner/repo"
    );
    assert_eq!(zip_url_for(""), "");
    assert_eq!(zip_url_for("///"), "");
}

#[test]
fn io_error_message() {
    assert_eq!(io_err("disk full"), "io error: disk full");
}

#[test]
fn entry_kinds() {
    assert!(matches!(entry_kind(None, true), EntryKind::Skip));
    assert!(matches!(entry_kind(None, false), EntryKind::Skip));
    match entry_kind(Some("d/".to_string()), true) {
        EntryKind::Dir(p) => assert_eq!(p, "d/"),
        _ => panic!("expected a directory"),
    }
    match entry_kind(Some("d/a.txt".to_string()), false) {
        EntryKind::File(p) => assert_eq!(p, "d/a.txt"),
        _ => panic!("expected a file"),
    }
}

fn sample_archive() -> Vec<u8> {
    let mut w = zip::ZipWriter::new(Cursor::new(Vec::new()));
    let opts = zip::write::SimpleFileOptions::default()
        .compression_method(zip::CompressionMethod::Stored);
    w.add_directory("d/", opts).unwrap();
    w.start_file("d/a.txt", opts).unwrap();
    w.write_all(b"hello").unwrap();
    w.start_file("../evil.txt", opts).unwrap();
    w.write_all(b"bad").unwrap();
    w.start_file("d/../b.txt", opts).unwrap();
    w.write_all(b"inside").unwrap();
    w.start_file("d/../../c.txt", opts).unwrap();
    w.write_all(b"outside").unwrap();
    w.finish().unwrap().into_inner()
}

#[test]
fn archive_steps() {
    let mut archive = open_archive(sample_archive()).unwrap();
    assert_eq!(archive_len(&archive), 5);
    match extract_step(&mut archive, 0).unwrap() {
        ExtractStep::CreateDir(p) => assert_eq!(p, "d/"),
        _ => panic!("expected a directory"),
    }
    match extract_step(&mut archive, 1).unwrap() {
        ExtractStep::WriteFile(p) => assert_eq!(p, "d/a.txt"),
        _ => panic!("expected a file"),
    }
    assert_eq!(read_entry(&mut archive, 1).unwrap(), b"hello".to_vec());
    assert!(matches!(extract_step(&mut archive, 2).unwrap(), ExtractStep::Skip));
    match extract_step(&mut archive, 3).unwrap() {
        ExtractStep::WriteFile(p) => assert_eq!(p, "d/../b.txt"),
        _ => panic!("expected a file"),
    }
    assert_eq!(read_entry(&mut archive, 3).unwrap(), b"inside".to_vec());
    assert!(matches!(extract_step(&mut archive, 4).unwrap(), ExtractStep::Skip));
    match extract_step(&mut archive, 5) {
        Err(e) => assert!(e.starts_with("zip entry: ")),
        Ok(_) => panic!("expected an error"),
    }
    match read_entry(&mut archive, 5) {
        Err(e) => assert!(e.starts_with("zip entry: ")),
        Ok(_) => panic!("expected an error"),
    }
    // Reading an entry twice gives the same bytes.
    assert_eq!(read_entry(&mut archive, 1).unwrap(), b"hello".to_vec());
}

#[test]
fn deflated_entry_reads_back() {
    let mut w = zip::ZipWriter::new(Cursor::new(Vec::new()));
    let opts = zip::write::SimpleFileOptions::default()
        .compression_method(zip::CompressionMethod::Deflated);
    w.start_file("p/q.txt", opts).unwrap();
    let body = "line\n".repeat(200);
    w.write_all(body.as_bytes()).unwrap();
    let bytes = w.finish().unwrap().into_inner();
    let mut archive = open_archive(bytes).unwrap();
    assert_eq!(archive_len(&archive), 1);
    assert!(matches!(extract_step(&mut archive, 0).unwrap(), ExtractStep::WriteFile(_)));
    assert_eq!(read_entry(&mut archive, 0).unwrap(), body.into_bytes());
}

#[test]
fn broken_archive() {
    match open_archive(b"not a zip".to_vec()) {
        Err(e) => assert!(e.starts_with("zip: ")),
        Ok(_) => panic!("expected an error"),
    }
}
