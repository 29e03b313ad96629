//! How file-system paths are shown to the user.
use vstd::prelude::*;

use crate::text::{chars_of, has_prefix, slice_chars, starts_with, string_of};

verus! {

/// A Windows path without its verbatim prefix: `\\?\UNC\server\share`
/// becomes `\\server\share`, `\\?\D:\dir` becomes `D:\dir`, anything else is kept.
pub open spec fn display_path(s: Seq<char>) -> Seq<char> {
    let unc = "\\\\?\\UNC\\"@;
    let verbatim = "\\\\?\\"@;
    if has_prefix(s, unc) {
        "\\\\"@ + s.subrange(unc.len() as int, s.len() as int)
    } else if has_prefix(s, verbatim) {
        s.subrange(verbatim.len() as int, s.len() as int)
    } else {
        s
    }
}

/// Strips the Windows `\\?\` prefix so UI paths look like `D:\Dev\...`.
pub fn display_windows_path(s: &str) -> (r: String)
    ensures
        r@ == display_path(s@),
{
    let v = chars_of(s);
    let unc = chars_of("\\\\?\\UNC\\");
    let verbatim = chars_of("\\\\?\\");
    if starts_with(&v, &unc) {
        let mut out = chars_of("\\\\");
        let rest = slice_chars(&v, unc.len(), v.len());
        crate::text::push_all(&mut out, &rest);
        return string_of(&out);
    }
    if starts_with(&v, &verbatim) {
        let rest = slice_chars(&v, verbatim.len(), v.len());
        return string_of(&rest);
    }
    string_of(&v)
}

/// The text shown for a path: its display form without the verbatim prefix.
pub fn to_display_path(path: &str) -> (r: String)
    ensures
        r@ == display_path(path@),
{
    display_windows_path(path)
}

/// The directories and files the application keeps under its root directory.
pub enum AppPath {
    ConfigDir,
    DataDir,
    WebviewDataDir,
    Settings,
    WindowState,
    Tasks,
}

/// The components of `p` below the root: `config`, `data`, `data/webview`,
/// `config/settings.json`, `config/window.json`, `data/tasks.json`.
pub open spec fn app_path_parts(p: AppPath) -> Seq<Seq<char>> {
    match p {
        AppPath::ConfigDir => seq!["config"@],
        AppPath::DataDir => seq!["data"@],
        AppPath::WebviewDataDir => seq!["data"@, "webview"@],
        AppPath::Settings => seq!["config"@, "settings.json"@],
        AppPath::WindowState => seq!["config"@, "window.json"@],
        AppPath::Tasks => seq!["data"@, "tasks.json"@],
    }
}

/// The components to join onto the root directory to reach `p`.
pub fn app_path(p: AppPath) -> (r: Vec<String>)
    ensures
        r@.len() == app_path_parts(p).len(),
        forall|i: int| 0 <= i < r@.len() ==> #[trigger] r@[i]@ == app_path_parts(p)[i],
{
    let (dir, file) = match p {
        AppPath::ConfigDir => ("config", None),
        AppPath::DataDir => ("data", None),
        AppPath::WebviewDataDir => ("data", Some("webview")),
        AppPath::Settings => ("config", Some("settings.json")),
        AppPath::WindowState => ("config", Some("window.json")),
        AppPath::Tasks => ("data", Some("tasks.json")),
    };
    let mut r: Vec<String> = Vec::new();
    r.push(string_of(&chars_of(dir)));
    match file {
        Some(f) => r.push(string_of(&chars_of(f))),
        None => {},
    }
    r
}

} // verus!
