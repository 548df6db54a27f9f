use dirserve::listing::{render_listing, DirectoryEntry};

fn entry(name: &str, is_directory: bool, size_bytes: u64) -> DirectoryEntry {
    DirectoryEntry { name: name.to_string(), is_directory, size_bytes }
}

#[test]
fn file_row_links_and_size() {
    let page = render_listing("/docs/", &vec![entry("report.txt", false, 4096)]);
    assert!(page.contains("<a href='/docs/report.txt'>report.txt</a>"));
    assert!(page.contains("4 Kb"));
}

#[test]
fn directory_row_gets_slash_and_tar_link() {
    let page = render_listing("/docs/", &vec![entry("sub", true, 0)]);
    assert!(page.contains("<a href='/docs/sub/'>sub/</a>"));
    assert!(page.contains("<a href='/docs/sub.tar'>.tar</a>"));
}

#[test]
fn awkward_name_has_two_distinct_encodings() {
    let name = "a&\"<b>'.txt";
    let page = render_listing("/d/", &vec![entry(name, false, 100)]);
    // Inside the href the name is percent-encoded under the control
    // class: none of these characters is a control, so it stands as is.
    let href = "href='/d/a&\"<b>'.txt'";
    // On display all five special characters become entities.
    let display = ">a&amp;&quot;&lt;b&gt;&#x27;.txt</a>";
    assert!(page.contains(href));
    assert!(page.contains(display));
    // The two encodings of the same bytes differ.
    assert_ne!(href.replace("href='/d/", ""), display.replace(">", "").replace("</a", ""));
    assert!(!page.contains(">a&\"<b>'.txt</a>"));
}

#[test]
fn control_characters_are_percent_encoded_in_href() {
    let page = render_listing("/d/", &vec![entry("a\nb\u{1}.txt", false, 0)]);
    assert!(page.contains("href='/d/a%0Ab%01.txt'"));
}

#[test]
fn non_ascii_name_is_utf8_percent_encoded_in_href() {
    let page = render_listing("/d/", &vec![entry("caf\u{e9}.txt", false, 0)]);
    assert!(page.contains("href='/d/caf%C3%A9.txt'"));
    assert!(page.contains(">caf\u{e9}.txt</a>"));
}

#[test]
fn large_sizes_show_kilobytes_with_separators() {
    let page = render_listing("/d/", &vec![entry("big.iso", false, 1_500_000_000)]);
    // 1500000000 / 1024 = 1464843 kilobytes.
    assert!(page.contains("1,464,843 Kb"));
}

#[test]
fn header_shows_decoded_path() {
    let page = render_listing("/a%20b/", &vec![]);
    assert!(page.contains("<h1>Current Dir /a b </h1>"));
    assert!(page.contains("<title>/a b</title>"));
}

#[test]
fn root_listing_uses_underscore_tar_target() {
    let page = render_listing("/", &vec![]);
    assert!(page.contains("<a href=\"_.tar\""));
}

#[test]
fn page_is_a_complete_document_with_upload_form() {
    let page = render_listing("/x/", &vec![]);
    assert!(page.starts_with("<!DOCTYPE html>"));
    assert!(page.ends_with("</body></html>\n"));
    assert!(page.contains("<form method='POST' action='/upload'"));
    assert!(page.contains("<a href='../'>../</a>"));
}

#[test]
fn base_without_trailing_slash_gets_one() {
    let page = render_listing("/docs", &vec![entry("f.txt", false, 0)]);
    assert!(page.contains("href='/docs/f.txt'"));
}
