use dirserve::zip_build::{build_zip, ZipEntry};
use std::io::Read;

fn file(path: &str, content: &[u8]) -> ZipEntry {
    ZipEntry { path: path.to_string(), is_directory: false, content: content.to_vec() }
}

fn dir(path: &str) -> ZipEntry {
    ZipEntry { path: path.to_string(), is_directory: true, content: Vec::new() }
}

#[test]
fn zip_tree_reads_back_identically() {
    let entries = vec![
        dir("sub"),
        file("sub/a.txt", b"alpha"),
        file("b.bin", &[9u8, 8, 7, 0, 255]),
    ];
    let bytes = build_zip(&entries).unwrap();
    let mut archive = zip::ZipArchive::new(std::io::Cursor::new(bytes)).unwrap();
    assert_eq!(archive.len(), 3);
    {
        let d = archive.by_name("sub/").unwrap();
        assert!(d.is_dir());
    }
    {
        let mut f = archive.by_name("sub/a.txt").unwrap();
        assert!(f.is_file());
        let mut content = Vec::new();
        f.read_to_end(&mut content).unwrap();
        assert_eq!(content, b"alpha");
    }
    {
        let mut f = archive.by_name("b.bin").unwrap();
        let mut content = Vec::new();
        f.read_to_end(&mut content).unwrap();
        assert_eq!(content, vec![9u8, 8, 7, 0, 255]);
    }
}

#[test]
fn empty_walk_gives_an_empty_archive() {
    let bytes = build_zip(&Vec::new()).unwrap();
    let archive = zip::ZipArchive::new(std::io::Cursor::new(bytes)).unwrap();
    assert_eq!(archive.len(), 0);
}

#[test]
fn file_entries_use_deflate_and_keep_sizes() {
    let big = vec![b'z'; 100_000];
    let entries = vec![file("big.txt", &big)];
    let bytes = build_zip(&entries).unwrap();
    // Deflate shrinks a run of one repeated byte well below its size.
    assert!(bytes.len() < big.len() / 2);
    let mut archive = zip::ZipArchive::new(std::io::Cursor::new(bytes)).unwrap();
    let mut f = archive.by_name("big.txt").unwrap();
    let mut content = Vec::new();
    f.read_to_end(&mut content).unwrap();
    assert_eq!(content, big);
}

#[test]
fn duplicate_names_abort_the_build() {
    let entries = vec![file("same.txt", b"one"), file("same.txt", b"two")];
    assert!(build_zip(&entries).is_err());
}
