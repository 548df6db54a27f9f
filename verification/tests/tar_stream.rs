use dirserve::tar::{tar_archive_bytes, tar_end_bytes, tar_entry_bytes, TarEntry};
use std::io::Read;

fn file(path: &str, content: &[u8]) -> TarEntry {
    TarEntry {
        path: path.as_bytes().to_vec(),
        is_directory: false,
        mode: 0o644,
        mtime: 1_600_000_000,
        content: content.to_vec(),
    }
}

fn dir(path: &str) -> TarEntry {
    TarEntry {
        path: path.as_bytes().to_vec(),
        is_directory: true,
        mode: 0o755,
        mtime: 1_600_000_000,
        content: Vec::new(),
    }
}

fn read_back(bytes: &[u8]) -> Vec<(String, bool, Vec<u8>)> {
    let mut archive = tar::Archive::new(bytes);
    let mut seen = Vec::new();
    for entry in archive.entries().unwrap() {
        let mut entry = entry.unwrap();
        let path = entry.path().unwrap().to_string_lossy().into_owned();
        let is_dir = entry.header().entry_type().is_dir();
        let mut content = Vec::new();
        entry.read_to_end(&mut content).unwrap();
        seen.push((path.trim_end_matches('/').to_string(), is_dir, content));
    }
    seen
}

#[test]
fn tar_tree_reads_back_identically() {
    let entries = vec![
        dir("sub"),
        file("sub/hello.txt", b"hello world\n"),
        file("empty.bin", b""),
        file("data.bin", &[0u8, 1, 2, 255, 254, 128]),
    ];
    let bytes = tar_archive_bytes(&entries);
    let seen = read_back(&bytes);
    assert_eq!(seen.len(), 4);
    assert_eq!(seen[0], ("sub".to_string(), true, Vec::new()));
    assert_eq!(seen[1], ("sub/hello.txt".to_string(), false, b"hello world\n".to_vec()));
    assert_eq!(seen[2], ("empty.bin".to_string(), false, Vec::new()));
    assert_eq!(seen[3], ("data.bin".to_string(), false, vec![0u8, 1, 2, 255, 254, 128]));
}

#[test]
fn long_names_survive_through_the_long_name_entry() {
    let long = format!("deep/{}/leaf-{}.txt", "d".repeat(80), "x".repeat(40));
    assert!(long.len() > 100);
    let entries = vec![file(&long, b"deep content")];
    let bytes = tar_archive_bytes(&entries);
    let seen = read_back(&bytes);
    assert_eq!(seen.len(), 1);
    assert_eq!(seen[0], (long, false, b"deep content".to_vec()));
}

#[test]
fn name_of_exactly_one_hundred_bytes_fits_the_classic_field() {
    let name = "n".repeat(100);
    let entries = vec![file(&name, b"x")];
    let bytes = tar_archive_bytes(&entries);
    // No long-name entry: header, one content block, end marker.
    assert_eq!(bytes.len(), 512 + 512 + 1024);
    let seen = read_back(&bytes);
    assert_eq!(seen, vec![(name, false, b"x".to_vec())]);
}

#[test]
fn name_of_one_hundred_one_bytes_takes_a_long_name_entry() {
    let name = "n".repeat(101);
    let entries = vec![file(&name, b"x")];
    let bytes = tar_archive_bytes(&entries);
    // Long-name header and data block precede the real entry.
    assert_eq!(bytes.len(), 512 + 512 + 512 + 512 + 1024);
    let seen = read_back(&bytes);
    assert_eq!(seen, vec![(name, false, b"x".to_vec())]);
}

#[test]
fn stream_is_block_aligned_and_ends_with_two_zero_blocks() {
    let entries = vec![dir("d"), file("d/f", b"abc")];
    let bytes = tar_archive_bytes(&entries);
    assert_eq!(bytes.len() % 512, 0);
    let tail = &bytes[bytes.len() - 1024..];
    assert!(tail.iter().all(|&b| b == 0));
}

#[test]
fn file_contents_are_padded_to_a_block() {
    let e = file("f", b"abc");
    let chunk = tar_entry_bytes(&e);
    assert_eq!(chunk.len(), 1024);
    assert_eq!(&chunk[512..515], b"abc");
    assert!(chunk[515..].iter().all(|&b| b == 0));
}

#[test]
fn directory_entry_is_one_header_block_with_trailing_slash() {
    let e = dir("sub");
    let chunk = tar_entry_bytes(&e);
    assert_eq!(chunk.len(), 512);
    assert_eq!(&chunk[0..4], b"sub/");
    assert_eq!(chunk[156], b'5');
    // ustar magic at offset 257
    assert_eq!(&chunk[257..263], b"ustar\0");
}

#[test]
fn end_marker_is_two_zero_blocks() {
    let end = tar_end_bytes();
    assert_eq!(end.len(), 1024);
    assert!(end.iter().all(|&b| b == 0));
}
