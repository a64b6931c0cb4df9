use vstd::prelude::*;

use crate::output::{join_path, join_text};
use crate::query::opt_view;

verus! {

/// The search base: the working directory, or the path argument joined onto it.
pub open spec fn search_base_text(cwd: Seq<char>, path: Option<Seq<char>>) -> Seq<char> {
    match path {
        None => cwd,
        Some(p) => join_text(cwd, p),
    }
}

/// `$XDG_CONFIG_HOME/fd/ignore` when that variable is set and not empty, else
/// `$HOME/.config/fd/ignore` when `HOME` is set and not empty.
pub open spec fn global_fd_ignore_text(xdg: Option<Seq<char>>, home: Option<Seq<char>>) -> Option<
    Seq<char>,
> {
    if xdg matches Some(x) && x.len() > 0 {
        Some(join_text(join_text(xdg->0, "fd"@), "ignore"@))
    } else if home matches Some(h) && h.len() > 0 {
        Some(join_text(join_text(join_text(home->0, ".config"@), "fd"@), "ignore"@))
    } else {
        None
    }
}

/// The directory to search: the working directory when no path argument was
/// given, else the argument resolved against it.
pub fn resolve_search_base(cwd: &str, path: Option<&str>) -> (r: String)
    ensures
        r@ == search_base_text(cwd@, opt_view(path)),
{
    match path {
        None => cwd.to_owned(),
        Some(p) => join_path(cwd, p),
    }
}

/// Where the global tool-specific ignore file lives, from the values of
/// `XDG_CONFIG_HOME` and `HOME`.
pub fn global_fd_ignore_path(xdg: Option<&str>, home: Option<&str>) -> (r: Option<String>)
    ensures
        match r {
            Some(s) => global_fd_ignore_text(opt_view(xdg), opt_view(home)) == Some(s@),
            None => global_fd_ignore_text(opt_view(xdg), opt_view(home)) is None,
        },
{
    if let Some(x) = xdg {
        if !x.is_empty() {
            let fd = join_path(x, "fd");
            return Some(join_path(fd.as_str(), "ignore"));
        }
    }
    if let Some(h) = home {
        if !h.is_empty() {
            let config = join_path(h, ".config");
            let fd = join_path(config.as_str(), "fd");
            return Some(join_path(fd.as_str(), "ignore"));
        }
    }
    None
}

} // verus!
