//! The watcher daemon's decisions: which changed files matter, and how an
//! IPC request is answered.

use vstd::prelude::*;
use crate::names::{one_of, texts};
use crate::text::str_eq;

verus! {

/// Directory names whose contents the watcher ignores.
pub open spec fn ignored_dir_names() -> Seq<Seq<char>> {
    seq!["target"@, "node_modules"@, "build"@, ".git"@]
}

/// File names that always count as build inputs.
pub open spec fn watched_file_names() -> Seq<Seq<char>> {
    seq!["Cargo.toml"@, "Makefile"@, "CMakeLists.txt"@, "package.json"@]
}

/// File extensions that count as build inputs.
pub open spec fn watched_extensions() -> Seq<Seq<char>> {
    seq!["rs"@, "c"@, "h"@, "cpp"@, "js"@, "ts"@, "py"@, "toml"@, "json"@, "cmake"@, "mk"@]
}

/// The directories whose contents the watcher ignores are exactly
/// `target`, `node_modules`, `build` and `.git`.
pub proof fn ignored_dirs_are_exactly(d: Seq<char>)
    ensures
        ignored_dir_names().contains(d) <==> (d == "target"@ || d == "node_modules"@
            || d == "build"@ || d == ".git"@),
{
    if d == "target"@ || d == "node_modules"@ || d == "build"@ || d == ".git"@ {
        let s = ignored_dir_names();
        assert(s[0] == "target"@ && s[1] == "node_modules"@ && s[2] == "build"@ && s[3] == ".git"@);
    }
}

/// The file names that always count as build inputs are exactly
/// `Cargo.toml`, `Makefile`, `CMakeLists.txt` and `package.json`.
pub proof fn watched_file_names_are_exactly(n: Seq<char>)
    ensures
        watched_file_names().contains(n) <==> (n == "Cargo.toml"@ || n == "Makefile"@
            || n == "CMakeLists.txt"@ || n == "package.json"@),
{
    let s = watched_file_names();
    assert(s[0] == "Cargo.toml"@ && s[1] == "Makefile"@ && s[2] == "CMakeLists.txt"@ && s[3] == "package.json"@);
}

/// The extensions of build inputs are exactly rs, c, h, cpp, js, ts, py,
/// toml, json, cmake and mk.
pub proof fn watched_extensions_are_exactly(e: Seq<char>)
    ensures
        watched_extensions().contains(e) <==> (e == "rs"@ || e == "c"@ || e == "h"@ || e == "cpp"@
            || e == "js"@ || e == "ts"@ || e == "py"@ || e == "toml"@ || e == "json"@
            || e == "cmake"@ || e == "mk"@),
{
    let s = watched_extensions();
    assert(s[0] == "rs"@ && s[1] == "c"@ && s[2] == "h"@ && s[3] == "cpp"@ && s[4] == "js"@ && s[5] == "ts"@ && s[6] == "py"@ && s[7] == "toml"@ && s[8] == "json"@ && s[9] == "cmake"@ && s[10] == "mk"@);
}

/// Whether a changed path lies under an ignored directory: one of its
/// normal components (as text) is an ignored directory name.
pub fn should_ignore(components: &Vec<&str>) -> (ignore: bool)
    ensures
        ignore == exists|i: int|
            0 <= i < components@.len() && ignored_dir_names().contains(#[trigger] components@[i]@),
        ignore == exists|i: int|
            0 <= i < components@.len() && (#[trigger] components@[i]@ == "target"@
                || components@[i]@ == "node_modules"@ || components@[i]@ == "build"@
                || components@[i]@ == ".git"@),
{
    proof {
        assert forall|d: Seq<char>| ignored_dir_names().contains(d) <==> (d == "target"@
            || d == "node_modules"@ || d == "build"@ || d == ".git"@) by {
            ignored_dirs_are_exactly(d);
        }
    }
    let names = vec!["target", "node_modules", "build", ".git"];
    assert(texts(names@) =~= ignored_dir_names());
    let mut i: usize = 0;
    while i < components.len()
        invariant
            i <= components@.len(),
            texts(names@) == ignored_dir_names(),
            forall|j: int| 0 <= j < i ==> !ignored_dir_names().contains(#[trigger] components@[j]@),
        decreases components@.len() - i,
    {
        if one_of(components[i], &names) {
            return true;
        }
        i = i + 1;
    }
    false
}

/// Whether a changed file is a build input: its file name is a watched
/// name, or its extension a watched extension (each given as text, when
/// the path has one).
pub fn is_source_file(file_name: Option<&str>, extension: Option<&str>) -> (source: bool)
    ensures
        source == ((file_name matches Some(n) && watched_file_names().contains(n@)) || (
        extension matches Some(e) && watched_extensions().contains(e@))),
        source == ((file_name matches Some(n) && (n@ == "Cargo.toml"@ || n@ == "Makefile"@
            || n@ == "CMakeLists.txt"@ || n@ == "package.json"@))
            || (extension matches Some(e) && (
        e@ == "rs"@ || e@ == "c"@ || e@ == "h"@ || e@ == "cpp"@ || e@ == "js"@ || e@ == "ts"@
            || e@ == "py"@ || e@ == "toml"@ || e@ == "json"@ || e@ == "cmake"@ || e@ == "mk"@))),
{
    proof {
        if let Some(n) = file_name {
            watched_file_names_are_exactly(n@);
        }
        if let Some(e) = extension {
            watched_extensions_are_exactly(e@);
        }
    }
    let names = vec!["Cargo.toml", "Makefile", "CMakeLists.txt", "package.json"];
    assert(texts(names@) =~= watched_file_names());
    let exts = vec!["rs", "c", "h", "cpp", "js", "ts", "py", "toml", "json", "cmake", "mk"];
    assert(texts(exts@) =~= watched_extensions());
    if let Some(n) = file_name {
        if one_of(n, &names) {
            return true;
        }
    }
    match extension {
        Some(e) => one_of(e, &exts),
        None => false,
    }
}

/// A request to the daemon: its `type` and optional `path`.
pub struct IpcRequest {
    pub kind: String,
    pub path: Option<String>,
}

/// The data of an answer.
pub enum ResponseData {
    /// A JSON string.
    Text(String),
    /// The cache statistics object: total size in bytes and number of files.
    Stats { size: u64, entries: usize },
}

/// An answer of the daemon: a status and optional data.
pub struct IpcResponse {
    pub status: String,
    pub data: Option<ResponseData>,
}

/// What the daemon does with a request.
pub enum RequestAction {
    /// Send this answer.
    Reply(IpcResponse),
    /// Measure the cache directory and answer with `stats_response`.
    ReportStats,
    /// Drop the cached builds that depend on the request's path (see
    /// `CacheEngine::invalidate`) and answer with `invalidated_response`.
    Invalidate,
}

/// An answer with status "ok" or "error" and a text.
pub open spec fn text_reply(r: IpcResponse, status: Seq<char>, text: Seq<char>) -> bool {
    &&& r.status@ == status
    &&& (r.data matches Some(ResponseData::Text(t)) && t@ == text)
}

/// Decides what to do with one request line: `None` when it did not
/// parse as a request, else by its type: "ping" is answered "pong",
/// "stats" and "invalidate" need the daemon's work, anything else is an
/// unknown command.
pub fn dispatch(request: Option<&IpcRequest>) -> (action: RequestAction)
    ensures
        request is None ==> (action matches RequestAction::Reply(r) && text_reply(r, "error"@, "parse error"@)),
        request matches Some(q) ==> {
            if q.kind@ == "ping"@ {
                (action matches RequestAction::Reply(r) && text_reply(r, "ok"@, "pong"@))
            } else if q.kind@ == "stats"@ {
                action is ReportStats
            } else if q.kind@ == "invalidate"@ {
                action is Invalidate
            } else {
                (action matches RequestAction::Reply(r) && text_reply(r, "error"@, "unknown command"@))
            }
        },
{
    match request {
        None => RequestAction::Reply(
            IpcResponse {
                status: String::from_str("error"),
                data: Some(ResponseData::Text(String::from_str("parse error"))),
            },
        ),
        Some(q) => {
            if str_eq(q.kind.as_str(), "ping") {
                RequestAction::Reply(
                    IpcResponse {
                        status: String::from_str("ok"),
                        data: Some(ResponseData::Text(String::from_str("pong"))),
                    },
                )
            } else if str_eq(q.kind.as_str(), "stats") {
                RequestAction::ReportStats
            } else if str_eq(q.kind.as_str(), "invalidate") {
                RequestAction::Invalidate
            } else {
                RequestAction::Reply(
                    IpcResponse {
                        status: String::from_str("error"),
                        data: Some(ResponseData::Text(String::from_str("unknown command"))),
                    },
                )
            }
        },
    }
}

/// The answer to "stats": status "ok" with the cache's size and file count.
pub fn stats_response(size: u64, entries: usize) -> (r: IpcResponse)
    ensures
        r.status@ == "ok"@,
        r.data == Some(ResponseData::Stats { size, entries }),
{
    IpcResponse { status: String::from_str("ok"), data: Some(ResponseData::Stats { size, entries }) }
}

/// The answer to "invalidate": status "ok" and no data.
pub fn invalidated_response() -> (r: IpcResponse)
    ensures
        r.status@ == "ok"@,
        r.data is None,
{
    IpcResponse { status: String::from_str("ok"), data: None }
}

} // verus!
