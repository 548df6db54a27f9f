//! The directory listing page.
//!
//! Given the request path and the visible children of the directory it
//! names, the renderer produces a complete, self-contained HTML
//! document: one row per entry, a parent link, a whole-directory tar
//! link and an upload form. Every entry name is HTML-entity-escaped
//! where it is displayed and, independently, percent-encoded where it
//! stands inside an `href`.

use vstd::prelude::*;
use vstd::string::*;
use crate::encoding::{
    html_escape, html_escape_spec, percent_decode_lossy, percent_decoded_display, percent_encode,
    percent_encode_spec,
};
use crate::paths::{trim_slashes, trim_trailing_slashes};
use crate::size_format::{format_size, format_size_spec};

verus! {

/// One visible child of the listed directory, as the caller read it
/// from a directory scan: its bare name, whether it is a directory, and
/// its size in bytes (zero for directories).
#[derive(Debug)]
pub struct DirectoryEntry {
    pub name: String,
    pub is_directory: bool,
    pub size_bytes: u64,
}

/// The request-relative location of an entry: the request path joined
/// with the entry name, inserting a `/` unless one is already there.
pub open spec fn href_path(base: Seq<char>, name: Seq<char>) -> Seq<char> {
    if base.len() > 0 && base.last() == '/' {
        base + name
    } else {
        base + seq!['/'] + name
    }
}

/// The table row for a directory entry: a trailing-slash link plus a
/// sibling link to `<name>.tar`.
pub open spec fn dir_row(url: Seq<char>, disp: Seq<char>) -> Seq<char> {
    "<tr><td>📂 <a href='"@ + url + "/'>"@ + disp
        + "/</a></td> <td><small>[<a href='"@ + url + ".tar'>.tar</a>]</small></td></tr>\n"@
}

/// The table row for a file entry: a direct download link plus a
/// human-readable size.
pub open spec fn file_row(url: Seq<char>, disp: Seq<char>, size: Seq<char>) -> Seq<char> {
    "<tr><td>🗎 <a href='"@ + url + "'>"@ + disp + "</a></td> <td>"@ + size + " Kb</td></tr>\n"@
}

/// The row for one entry: its href percent-encoded, its display name
/// HTML-escaped, and for files the size in kilobytes with thousands
/// separators.
pub open spec fn entry_row(base: Seq<char>, e: DirectoryEntry) -> Seq<char> {
    let url = percent_encode_spec(href_path(base, e.name@));
    let disp = html_escape_spec(e.name@);
    if e.is_directory {
        dir_row(url, disp)
    } else {
        file_row(url, disp, format_size_spec((e.size_bytes / 1024) as nat))
    }
}

/// All rows, in the order the entries were given.
pub open spec fn listing_rows(base: Seq<char>, entries: Seq<DirectoryEntry>) -> Seq<char>
    decreases entries.len(),
{
    if entries.len() == 0 {
        Seq::empty()
    } else {
        entry_row(base, entries[0]) + listing_rows(base, entries.drop_first())
    }
}

proof fn lemma_rows_snoc(base: Seq<char>, entries: Seq<DirectoryEntry>, i: int)
    requires
        0 <= i < entries.len(),
    ensures
        listing_rows(base, entries.take(i + 1)) == listing_rows(base, entries.take(i)) + entry_row(
            base,
            entries[i],
        ),
    decreases i,
{
    if i == 0 {
        assert(entries.take(1).len() == 1);
        assert(entries.take(1)[0] == entries[0]);
        assert(entries.take(1).drop_first() =~= Seq::<DirectoryEntry>::empty());
        assert(listing_rows(base, entries.take(1)) == entry_row(base, entries[0]) + listing_rows(
            base,
            entries.take(1).drop_first(),
        ));
        assert(listing_rows(base, Seq::<DirectoryEntry>::empty()) == Seq::<char>::empty());
        assert(entries.take(0) =~= Seq::<DirectoryEntry>::empty());
        assert(listing_rows(base, entries.take(1)) =~= listing_rows(base, entries.take(0))
            + entry_row(base, entries[0]));
    } else {
        let tl = entries.drop_first();
        lemma_rows_snoc(base, tl, i - 1);
        assert(entries.take(i + 1)[0] == entries[0]);
        assert(entries.take(i + 1).drop_first() =~= tl.take(i));
        assert(entries.take(i)[0] == entries[0]);
        assert(entries.take(i).drop_first() =~= tl.take(i - 1));
        assert(tl[i - 1] == entries[i]);
        assert(listing_rows(base, entries.take(i + 1)) =~= listing_rows(base, entries.take(i))
            + entry_row(base, entries[i]));
    }
}

/// The full page: document head with the decoded request path as the
/// title, an inline stylesheet, a header showing the decoded path, a
/// whole-directory tar link (`_` for the root), an upload form, the
/// parent link, one row per entry, in order.
pub open spec fn listing_page_spec(request_path: Seq<char>, entries: Seq<DirectoryEntry>) -> Seq<
    char,
> {
    let disp = percent_decoded_display(trim_trailing_slashes(request_path));
    let tar_target = if disp.len() == 0 {
        "_"@
    } else {
        disp
    };
    "<!DOCTYPE html>\n<html>\n<head>\n<meta charset=\"utf-8\" />\n<title>"@ + disp
        + "</title>\n<style>table{width:100%}td{padding:2px 8px}body{font-family:sans-serif}</style></head>\n<body>\n<h1>Current Dir "@
        + disp + " </h1>\n<div class=\"dir-download\">\n<a href=\""@ + tar_target
        + ".tar\" class=\"download-btn\">⬇️ Download .tar</a>\n</div>\n<form method='POST' action='/upload' enctype='multipart/form-data' style='margin-top:1em;'>\n<input type='file' name='file' multiple>\n<input type='submit' value='Upload'>\n</form>\n<table>\n<tr>\n<td>📁 <a href='../'>../</a></td>\n<td>Size</td>\n</tr>\n"@
        + listing_rows(request_path, entries) + "</table>\n</body></html>\n"@
}

/// Renders the listing page for `request_path` over the given entries;
/// see `listing_page_spec`.
pub fn render_listing(request_path: &str, entries: &Vec<DirectoryEntry>) -> (r: String)
    ensures
        r@ == listing_page_spec(request_path@, entries@),
{
    let trimmed = trim_slashes(request_path);
    let disp = percent_decode_lossy(trimmed);
    let rp_len = request_path.unicode_len();
    let base_has_slash = rp_len > 0 && request_path.get_char(rp_len - 1) == '/';
    let mut body = String::new();
    let n = entries.len();
    let mut i: usize = 0;
    while i < n
        invariant
            0 <= i <= n,
            n == entries@.len(),
            rp_len == request_path@.len(),
            base_has_slash == (request_path@.len() > 0 && request_path@.last() == '/'),
            body@ == listing_rows(request_path@, entries@.take(i as int)),
        decreases n - i,
    {
        let e = &entries[i];
        let mut raw = String::new();
        raw.append(request_path);
        if !base_has_slash {
            raw.append("/");
        }
        raw.append(e.name.as_str());
        proof {
            reveal_strlit("/");
            assert(raw@ =~= href_path(request_path@, e.name@));
        }
        let url = percent_encode(raw.as_str());
        let dispname = html_escape(e.name.as_str());
        if e.is_directory {
            body.append("<tr><td>📂 <a href='");
            body.append(url.as_str());
            body.append("/'>");
            body.append(dispname.as_str());
            body.append("/</a></td> <td><small>[<a href='");
            body.append(url.as_str());
            body.append(".tar'>.tar</a>]</small></td></tr>\n");
        } else {
            let size = format_size(e.size_bytes / 1024);
            body.append("<tr><td>🗎 <a href='");
            body.append(url.as_str());
            body.append("'>");
            body.append(dispname.as_str());
            body.append("</a></td> <td>");
            body.append(size.as_str());
            body.append(" Kb</td></tr>\n");
        }
        proof {
            lemma_rows_snoc(request_path@, entries@, i as int);
            assert(body@ =~= listing_rows(request_path@, entries@.take(i as int + 1)));
        }
        i = i + 1;
    }
    proof {
        assert(entries@.take(n as int) =~= entries@);
    }
    let mut page = String::new();
    page.append("<!DOCTYPE html>\n<html>\n<head>\n<meta charset=\"utf-8\" />\n<title>");
    page.append(disp.as_str());
    page.append(
        "</title>\n<style>table{width:100%}td{padding:2px 8px}body{font-family:sans-serif}</style></head>\n<body>\n<h1>Current Dir ",
    );
    page.append(disp.as_str());
    page.append(" </h1>\n<div class=\"dir-download\">\n<a href=\"");
    if disp.unicode_len() == 0 {
        page.append("_");
    } else {
        page.append(disp.as_str());
    }
    page.append(
        ".tar\" class=\"download-btn\">⬇️ Download .tar</a>\n</div>\n<form method='POST' action='/upload' enctype='multipart/form-data' style='margin-top:1em;'>\n<input type='file' name='file' multiple>\n<input type='submit' value='Upload'>\n</form>\n<table>\n<tr>\n<td>📁 <a href='../'>../</a></td>\n<td>Size</td>\n</tr>\n",
    );
    page.append(body.as_str());
    page.append("</table>\n</body></html>\n");
    proof {
        assert(page@ =~= listing_page_spec(request_path@, entries@));
    }
    page
}

} // verus!
