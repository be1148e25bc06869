use std::io::{Cursor, Read, Write};
use xpub::archive::{
    find_long_name, read_entries, rewrite_archive, write_entries, ArchiveError, MAX_NAME_BYTES,
};
use xpub::entries::{ArchiveEntry, EntryError, EntryFailure};
use xpub::html_parser::wrap_words_in_paragraphs;
use xpub::paragraphs::MarkupError;
use zip::write::SimpleFileOptions;
use zip::{CompressionMethod, ZipArchive, ZipWriter};

const IMAGE: [u8; 12] = [0x89, 0x50, 0x4e, 0x47, 0x0d, 0x0a, 0x1a, 0x0a, 0x00, 0xff, 0xfe, 0x3c];

fn entry(name: &str, bytes: &[u8]) -> ArchiveEntry {
    ArchiveEntry::new(name.to_string(), bytes.to_vec())
}

fn archive_of(files: &[(&str, &[u8])], method: CompressionMethod) -> Vec<u8> {
    let mut writer = ZipWriter::new(Cursor::new(Vec::new()));
    for (name, bytes) in files {
        let options = SimpleFileOptions::default().compression_method(method);
        writer.start_file(*name, options).unwrap();
        writer.write_all(bytes).unwrap();
    }
    writer.finish().unwrap().into_inner()
}

fn files_of(archive: &[u8]) -> Vec<(String, Vec<u8>, CompressionMethod)> {
    let mut archive = ZipArchive::new(Cursor::new(archive.to_vec())).unwrap();
    let mut files = Vec::new();
    for i in 0..archive.len() {
        let mut file = archive.by_index(i).unwrap();
        let mut bytes = Vec::new();
        file.read_to_end(&mut bytes).unwrap();
        files.push((file.name().to_string(), bytes, file.compression()));
    }
    files
}

#[test]
fn only_the_markup_entry_of_an_archive_changes() {
    let html = "<html><body><p>Hello world</p></body></html>";
    let input = archive_of(
        &[("chapter.xhtml", html.as_bytes()), ("cover.png", &IMAGE)],
        CompressionMethod::Stored,
    );
    let output = rewrite_archive(input, "es").unwrap();
    let files = files_of(&output);
    assert_eq!(files.len(), 2);
    assert_eq!(files[0].0, "chapter.xhtml");
    assert_eq!(
        files[0].1,
        wrap_words_in_paragraphs(html, "es").unwrap().into_bytes()
    );
    assert_ne!(files[0].1, html.as_bytes());
    assert_eq!(files[1].0, "cover.png");
    assert_eq!(files[1].1, IMAGE);
}

#[test]
fn every_entry_of_the_new_archive_is_deflated() {
    let input = archive_of(
        &[("a.html", b"<p>a</p>"), ("b.bin", &IMAGE), ("c.txt", b"")],
        CompressionMethod::Stored,
    );
    let output = rewrite_archive(input, "es").unwrap();
    for (_, _, method) in files_of(&output) {
        assert_eq!(method, CompressionMethod::Deflated);
    }
}

#[test]
fn the_entries_of_the_new_archive_stand_in_the_order_of_the_old() {
    let names = ["mimetype", "z.xhtml", "META-INF/container.xml", "a.css", "m.html", "b.jpg"];
    let files: Vec<(&str, &[u8])> = names.iter().map(|n| (*n, &b"<p>x y</p>"[..])).collect();
    let output = rewrite_archive(archive_of(&files, CompressionMethod::Deflated), "de").unwrap();
    let out_names: Vec<String> = files_of(&output).into_iter().map(|f| f.0).collect();
    assert_eq!(out_names, names);
}

#[test]
fn the_same_archive_gives_the_same_bytes() {
    let input = archive_of(
        &[("a.html", b"<p>a b</p>"), ("b.bin", &IMAGE)],
        CompressionMethod::Deflated,
    );
    assert_eq!(
        rewrite_archive(input.clone(), "es").unwrap(),
        rewrite_archive(input, "es").unwrap()
    );
}

#[test]
fn an_empty_archive_gives_an_empty_archive() {
    let output = rewrite_archive(archive_of(&[], CompressionMethod::Stored), "es").unwrap();
    assert!(files_of(&output).is_empty());
}

#[test]
fn bytes_that_are_no_archive_cannot_be_read() {
    assert!(matches!(
        rewrite_archive(b"this is no archive".to_vec(), "es"),
        Err(ArchiveError::Unreadable(_))
    ));
    assert!(matches!(
        rewrite_archive(Vec::new(), "es"),
        Err(ArchiveError::Unreadable(_))
    ));
    assert!(matches!(
        read_entries(vec![0x50, 0x4b, 0x03, 0x04]),
        Err(ArchiveError::Unreadable(_))
    ));
}

#[test]
fn an_entry_that_is_broken_cannot_be_read() {
    let mut input = archive_of(&[("a.txt", b"some stored text")], CompressionMethod::Stored);
    let at = input.windows(4).position(|w| w == b"some").unwrap();
    input[at] = b'S';
    assert!(matches!(read_entries(input), Err(ArchiveError::Unreadable(_))));
}

#[test]
fn an_archive_with_an_unclosed_paragraph_gives_no_archive() {
    let input = archive_of(
        &[("cover.png", &IMAGE), ("ok.xhtml", b"<p>ok</p>"), ("bad.xhtml", b"<p>Unclosed paragraph")],
        CompressionMethod::Deflated,
    );
    assert_eq!(
        rewrite_archive(input, "es"),
        Err(ArchiveError::Entry(EntryFailure {
            index: 2,
            error: EntryError::Markup(MarkupError::UnclosedParagraph),
        }))
    );
}

#[test]
fn an_archive_with_markup_that_is_not_utf8_gives_no_archive() {
    let input = archive_of(&[("bad.html", &IMAGE)], CompressionMethod::Deflated);
    assert_eq!(
        rewrite_archive(input, "es"),
        Err(ArchiveError::Entry(EntryFailure { index: 0, error: EntryError::NotUtf8 }))
    );
}

#[test]
fn the_entries_of_an_archive_are_read_in_order() {
    let input = archive_of(
        &[("b.xhtml", b"<p>b</p>"), ("a.png", &IMAGE), ("empty", b"")],
        CompressionMethod::Deflated,
    );
    assert_eq!(
        read_entries(input),
        Ok(vec![entry("b.xhtml", b"<p>b</p>"), entry("a.png", &IMAGE), entry("empty", b"")])
    );
}

#[test]
fn entries_that_are_written_can_be_read_again() {
    let entries = vec![
        entry("mimetype", b"application/epub+zip"),
        entry("text/ch1.xhtml", "<p>día</p>".as_bytes()),
        entry("img/c.png", &IMAGE),
        entry("empty.txt", b""),
    ];
    let bytes = write_entries(&entries).unwrap();
    assert_eq!(&bytes[..4], &[0x50, 0x4b, 0x03, 0x04]);
    assert_eq!(read_entries(bytes), Ok(entries));
}

#[test]
fn no_entries_are_written_to_an_archive_without_entries() {
    let bytes = write_entries(&[]).unwrap();
    assert_eq!(read_entries(bytes), Ok(vec![]));
}

#[test]
fn two_entries_of_one_name_are_not_written() {
    let entries = vec![entry("a.txt", b"one"), entry("a.txt", b"two")];
    assert_eq!(write_entries(&entries), Err(ArchiveError::RepeatedName(1)));
    let entries = vec![
        entry("a.txt", b"one"),
        entry("b.txt", b"two"),
        entry("c.txt", b"three"),
        entry("b.txt", b"four"),
        entry("a.txt", b"five"),
    ];
    assert_eq!(write_entries(&entries), Err(ArchiveError::RepeatedName(3)));
}

#[test]
fn a_name_that_the_format_cannot_hold_is_not_written() {
    let long = "n".repeat(65_536);
    let entries = vec![entry("a", b"one"), entry(&long, b"two"), entry("a", b"three")];
    assert_eq!(write_entries(&entries), Err(ArchiveError::RepeatedName(2)));
    let entries = vec![entry("a", b"one"), entry(&long, b"two"), entry(&"é".repeat(40_000), b"")];
    assert_eq!(write_entries(&entries), Err(ArchiveError::NameTooLong(1)));
    assert_eq!(find_long_name(&entries), Some(1));
    assert_eq!(find_long_name(&entries[..1]), None);
}

#[test]
fn the_longest_name_that_the_format_can_hold_is_written() {
    let longest = "n".repeat(65_535);
    let in_bytes = "é".repeat(32_767);
    let entries = vec![entry(&longest, b"one"), entry(&in_bytes, b"two")];
    let bytes = write_entries(&entries).unwrap();
    assert_eq!(read_entries(bytes), Ok(entries));
    let entries = vec![entry(&"é".repeat(32_768), b"one")];
    assert_eq!(write_entries(&entries), Err(ArchiveError::NameTooLong(0)));
}

#[test]
fn an_error_says_why() {
    match read_entries(b"this is no archive".to_vec()) {
        Err(ArchiveError::Unreadable(why)) => assert!(!why.is_empty()),
        other => panic!("read: {:?}", other),
    }
}

#[test]
fn the_greatest_number_of_bytes_of_a_name() {
    assert_eq!(MAX_NAME_BYTES, 65_535);
}
