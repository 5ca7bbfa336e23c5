//! Requests and responses, and where the daemon is found.
use vstd::prelude::*;

use crate::order::views;
use crate::text::chars_of;
use crate::types::{Entry, EntryView, MimePayload};

verus! {

/// What a client asks of the daemon.
#[derive(Debug, Clone, Copy, PartialEq, Eq, Structural)]
pub enum Request {
    /// List the most recently used entries.
    List { limit: Option<usize> },
    /// Hand over the payloads of an entry.
    Decode { id: i64 },
    /// Delete an entry.
    Delete { id: i64 },
    /// Offer an entry on the clipboard again.
    Restore { id: i64 },
    /// Delete all entries.
    Clear,
    /// Tell that the daemon is there.
    Ping,
}

/// What the daemon answers.
#[derive(Debug, Clone)]
pub enum Response {
    /// What was asked was done.
    Done,
    List { entries: Vec<Entry> },
    Decode { payloads: Vec<MimePayload> },
    Error { message: String },
    Pong,
}

/// What an answer is.
pub enum ResponseView {
    Done,
    List { entries: Seq<EntryView> },
    Decode { payloads: Seq<(Seq<char>, Seq<char>)> },
    Error { message: Seq<char> },
    Pong,
}

impl View for Response {
    type V = ResponseView;

    open spec fn view(&self) -> ResponseView {
        match self {
            Response::Done => ResponseView::Done,
            Response::List { entries } => ResponseView::List { entries: views(entries@) },
            Response::Decode { payloads } => ResponseView::Decode { payloads: views(payloads@) },
            Response::Error { message } => ResponseView::Error { message: message@ },
            Response::Pong => ResponseView::Pong,
        }
    }
}

/// A message as it goes over the socket: on a line of its own.
pub fn frame_line(message: String) -> (line: String)
    ensures
        line@ == message@.push('\n'),
{
    let mut line = message;
    line.push('\n');
    line
}

/// The path of `name` in the directory `base`.
pub open spec fn joined(base: Seq<char>, name: Seq<char>) -> Seq<char> {
    if base.len() == 0 || base.last() == '/' {
        base + name
    } else {
        base.push('/') + name
    }
}

/// The path of `name` in the directory `base`.
fn join_path(base: &str, name: &str) -> (path: String)
    ensures
        path@ == joined(base@, name@),
{
    let chars = chars_of(base);
    let mut path = base.to_string();
    if chars.len() > 0 && chars[chars.len() - 1] != '/' {
        path.push('/');
    }
    path.append(name);
    path
}

/// A setting, or what stands for it if it is not made.
pub open spec fn setting_or(setting: Option<&str>, otherwise: Seq<char>) -> Seq<char> {
    match setting {
        Some(s) => s@,
        None => otherwise,
    }
}

/// The path of the socket in the runtime directory.
pub fn socket_path(runtime: Option<&str>) -> (path: String)
    ensures
        path@ == joined(setting_or(runtime, "/tmp"@), "mimeclipd.sock"@),
{
    let base = match runtime {
        Some(dir) => dir,
        None => "/tmp",
    };
    join_path(base, "mimeclipd.sock")
}

/// The directory that the history is kept in.
pub open spec fn data_dir_of(data_home: Option<&str>, home: Option<&str>) -> Seq<char> {
    joined(
        setting_or(data_home, joined(setting_or(home, "/tmp"@), ".local/share"@)),
        "mimeclip"@,
    )
}

/// The directory that the history is kept in.
pub fn data_dir(data_home: Option<&str>, home: Option<&str>) -> (path: String)
    ensures
        path@ == data_dir_of(data_home, home),
{
    match data_home {
        Some(dir) => join_path(dir, "mimeclip"),
        None => {
            let base = match home {
                Some(dir) => dir,
                None => "/tmp",
            };
            let data = join_path(base, ".local/share");
            join_path(data.as_str(), "mimeclip")
        },
    }
}

/// The path of the history.
pub fn db_path(data_home: Option<&str>, home: Option<&str>) -> (path: String)
    ensures
        path@ == joined(data_dir_of(data_home, home), "history.db"@),
{
    let dir = data_dir(data_home, home);
    join_path(dir.as_str(), "history.db")
}

} // verus!
