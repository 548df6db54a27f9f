use dirserve::paths::{
    basename, is_descendant, not_found_message, tar_request_action, trim_slashes,
    zip_download_name, zip_request_action, TarAction, ZipAction,
};

#[test]
fn trim_removes_trailing_slashes_only() {
    assert_eq!(trim_slashes("/a/b///"), "/a/b");
    assert_eq!(trim_slashes("/a/b"), "/a/b");
    assert_eq!(trim_slashes("///"), "");
    assert_eq!(trim_slashes(""), "");
}

#[test]
fn descendant_accepts_inside_paths() {
    assert!(is_descendant("/srv/root", "/srv/root"));
    assert!(is_descendant("/srv/root", "/srv/root/a"));
    assert!(is_descendant("/srv/root", "/srv/root/a/b.txt"));
    assert!(is_descendant("/", "/anything"));
}

#[test]
fn descendant_rejects_escapes() {
    assert!(!is_descendant("/srv/root", "/etc/passwd"));
    assert!(!is_descendant("/srv/root", "/srv/rootkit"));
    assert!(!is_descendant("/srv/root", "/srv"));
    assert!(!is_descendant("/srv/root", ""));
}

#[test]
fn traversal_outside_root_is_not_found() {
    // A request like /../../etc/passwd.tar canonicalizes outside the
    // root; whatever else holds of it, the answer is NotFound.
    let a = tar_request_action(
        "/srv/root",
        Some("/etc/passwd"),
        Some("/etc/passwd.tar"),
        true,
        false,
    );
    assert_eq!(a, TarAction::NotFound);
    let z = zip_request_action("/srv/root", Some("/etc"), true);
    assert_eq!(z, ZipAction::NotFound);
}

#[test]
fn missing_target_is_not_found() {
    assert_eq!(tar_request_action("/srv/root", None, None, false, false), TarAction::NotFound);
    assert_eq!(zip_request_action("/srv/root", None, true), ZipAction::NotFound);
}

#[test]
fn existing_tar_file_is_served_without_walking() {
    let a = tar_request_action(
        "/srv/root",
        Some("/srv/root/x"),
        Some("/srv/root/x.tar"),
        true,
        true,
    );
    assert_eq!(a, TarAction::ServeExisting);
}

#[test]
fn tar_file_is_served_even_when_the_bare_path_is_absent() {
    // Only x.tar exists on disk: the stripped path has no canonical
    // form, and the file is still served.
    let a = tar_request_action("/srv/root", None, Some("/srv/root/x.tar"), true, false);
    assert_eq!(a, TarAction::ServeExisting);
}

#[test]
fn tar_file_outside_the_root_is_never_served() {
    let a = tar_request_action("/srv/root", None, Some("/etc/shadow.tar"), true, false);
    assert_eq!(a, TarAction::NotFound);
}

#[test]
fn directory_inside_root_streams_a_fresh_tar() {
    let a = tar_request_action("/srv/root", Some("/srv/root/d"), None, false, true);
    assert_eq!(a, TarAction::StreamArchive);
}

#[test]
fn plain_file_without_tar_sibling_is_not_found() {
    let a = tar_request_action("/srv/root", Some("/srv/root/f.txt"), None, false, false);
    assert_eq!(a, TarAction::NotFound);
}

#[test]
fn zip_builds_only_for_directories() {
    assert_eq!(zip_request_action("/srv/root", Some("/srv/root/d"), true), ZipAction::BuildArchive);
    assert_eq!(zip_request_action("/srv/root", Some("/srv/root/f"), false), ZipAction::NotFound);
}

#[test]
fn zip_name_comes_from_the_basename() {
    assert_eq!(zip_download_name("a/b/photos/"), "photos.zip");
    assert_eq!(zip_download_name("docs"), "docs.zip");
    assert_eq!(zip_download_name(""), ".zip");
}

#[test]
fn basename_takes_the_last_component() {
    assert_eq!(basename("a/b/c.txt"), "c.txt");
    assert_eq!(basename("plain"), "plain");
    assert_eq!(basename("dir/"), "");
}

#[test]
fn not_found_body_text() {
    assert_eq!(not_found_message(), "Directory not found\n");
}
