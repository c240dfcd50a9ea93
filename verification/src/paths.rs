//! Where the prompt database lives.
use vstd::prelude::*;

use crate::error::{fails_with, message, Error};
use crate::text::push_str;

verus! {

/// `base` joined with the relative path `relative`, as `Path::join` does
/// on Unix: a `/` goes between them unless `base` is empty or already ends
/// with one.
pub open spec fn path_join(base: Seq<char>, relative: Seq<char>) -> Seq<char> {
    if base.len() == 0 {
        relative
    } else if base.last() == '/' {
        base + relative
    } else {
        base + "/"@ + relative
    }
}

/// Joins `base` and the relative path `relative` (see [`path_join`]).
pub fn join_path(base: &str, relative: &str) -> (result: String)
    ensures
        result@ == path_join(base@, relative@),
{
    let mut path = base.to_owned();
    if base.is_empty() {
        return relative.to_owned();
    }
    let chars = crate::text::chars_of(base);
    if chars[chars.len() - 1] != '/' {
        push_str(&mut path, "/");
    }
    push_str(&mut path, relative);
    path
}

/// The data directory: `XDG_DATA_HOME` when it is set and not empty, else
/// `$HOME/.local/share`.
pub open spec fn data_home(xdg_data_home: Option<Seq<char>>, home: Option<Seq<char>>) -> Option<Seq<char>> {
    match xdg_data_home {
        Some(x) if x.len() > 0 => Some(x),
        _ => match home {
            Some(h) if h.len() > 0 => Some(path_join(h, ".local/share"@)),
            _ => None,
        },
    }
}

/// The database path, `pm/pm.db` under the data directory, given the values
/// of `XDG_DATA_HOME` and `HOME`.
pub fn database_path_from(xdg_data_home: Option<&str>, home: Option<&str>) -> (result: Result<String, Error>)
    ensures
        match data_home(
            match xdg_data_home { Some(x) => Some(x@), None => None },
            match home { Some(h) => Some(h@), None => None },
        ) {
            Some(dir) => result matches Ok(path) && path@ == path_join(dir, "pm/pm.db"@),
            None => fails_with(result, "cannot determine data directory: XDG_DATA_HOME and HOME are unset"@),
        },
{
    let directory = match xdg_data_home {
        Some(x) if !x.is_empty() => x.to_owned(),
        _ => match home {
            Some(h) if !h.is_empty() => join_path(h, ".local/share"),
            _ => {
                return Err(message("cannot determine data directory: XDG_DATA_HOME and HOME are unset"));
            },
        },
    };
    Ok(join_path(directory.as_str(), "pm/pm.db"))
}

} // verus!
