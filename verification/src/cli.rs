//! What the command-line client asks for, and how it shows the answer.
use vstd::prelude::*;

use crate::ipc::{Request, Response, ResponseView};
use crate::order::views;
use crate::outside::clock_text;
use crate::text::{chars_of, push_signed_decimal, signed_decimal};
use crate::types::{kind_name, Entry, EntryKind, EntryView, MimePayload};

verus! {

/// How many entries are listed if the command does not say.
pub const DEFAULT_LIMIT: usize = 50;

/// What the client is told to do.
#[derive(Debug, Clone, Copy, PartialEq, Eq, Structural)]
pub enum Command {
    List { limit: usize, json: bool },
    Decode { id: i64 },
    Delete { id: i64 },
    Restore { id: i64 },
    Clear,
    Ping,
}

/// The request for a command.
pub open spec fn request_of(command: Command) -> Request {
    match command {
        Command::List { limit, .. } => Request::List { limit: Some(limit) },
        Command::Decode { id } => Request::Decode { id },
        Command::Delete { id } => Request::Delete { id },
        Command::Restore { id } => Request::Restore { id },
        Command::Clear => Request::Clear,
        Command::Ping => Request::Ping,
    }
}

/// The request for a command.
pub fn request_for(command: &Command) -> (r: Request)
    ensures
        r == request_of(*command),
{
    match *command {
        Command::List { limit, .. } => Request::List { limit: Some(limit) },
        Command::Decode { id } => Request::Decode { id },
        Command::Delete { id } => Request::Delete { id },
        Command::Restore { id } => Request::Restore { id },
        Command::Clear => Request::Clear,
        Command::Ping => Request::Ping,
    }
}

/// So many spaces.
pub open spec fn spaces(n: int) -> Seq<char> {
    Seq::new(
        if n > 0 {
            n as nat
        } else {
            0
        },
        |i: int| ' ',
    )
}

/// Text moved to the right end of a column.
pub open spec fn right_aligned(s: Seq<char>, width: int) -> Seq<char> {
    spaces(width - s.len()) + s
}

/// Text at the left end of a column.
pub open spec fn left_aligned(s: Seq<char>, width: int) -> Seq<char> {
    s + spaces(width - s.len())
}

/// The line that lists an entry: its id, kind, time of last use and label.
pub open spec fn line_of(
    id: i64,
    kind: EntryKind,
    clock: Seq<char>,
    label: Seq<char>,
) -> Seq<char> {
    right_aligned(signed_decimal(id as int), 6) + "  "@ + left_aligned(kind_name(kind), 5) + "  "@
        + clock + "  "@ + label
}

/// How an entry is listed.
pub open spec fn entry_line(entry: EntryView) -> Seq<char> {
    line_of(
        entry.id,
        entry.kind,
        clock_text(entry.last_used_at.0, entry.last_used_at.1),
        entry.label,
    )
}

/// Appends spaces to fill a column that holds text of the given length.
fn push_spaces(line: &mut String, len: usize, width: usize)
    ensures
        final(line)@ == old(line)@ + spaces(width - len),
{
    let mut n: usize = len;
    assert(line@ =~= old(line)@ + spaces(0));
    while n < width
        invariant
            len <= n,
            n <= width || n == len,
            line@ == old(line)@ + spaces(n - len),
        decreases width - n,
    {
        line.push(' ');
        assert(line@ =~= old(line)@ + spaces(n + 1 - len));
        n += 1;
    }
    assert(spaces(n - len) =~= spaces(width - len));
}

/// Writes the line that lists an entry.
pub fn format_line(id: i64, kind: EntryKind, clock: &str, label: &str) -> (line: String)
    ensures
        line@ == line_of(id, kind, clock@, label@),
{
    let mut digits = String::new();
    push_signed_decimal(&mut digits, id);
    let name = kind.label();
    let mut line = String::new();
    let digits_len = chars_of(digits.as_str()).len();
    push_spaces(&mut line, digits_len, 6);
    line.append(digits.as_str());
    line.append("  ");
    line.append(name);
    let name_len = chars_of(name).len();
    push_spaces(&mut line, name_len, 5);
    line.append("  ");
    line.append(clock);
    line.append("  ");
    line.append(label);
    assert(line@ =~= line_of(id, kind, clock@, label@));
    line
}

/// Writes the lines that list entries.
pub fn list_lines(entries: &[Entry]) -> (lines: Vec<String>)
    ensures
        views(lines@) == views(entries@).map_values(|e: EntryView| entry_line(e)),
{
    let mut lines: Vec<String> = Vec::new();
    let mut i: usize = 0;
    while i < entries.len()
        invariant
            i <= entries@.len(),
            lines@.len() == i,
            forall|j: int| 0 <= j < i ==> #[trigger] lines@[j]@ == entry_line(entries@[j]@),
        decreases entries@.len() - i,
    {
        let e = &entries[i];
        let clock = e.last_used_at.clock();
        lines.push(format_line(e.id, e.kind, clock.as_str(), e.label.as_str()));
        i += 1;
    }
    assert(views(lines@) =~= views(entries@).map_values(|e: EntryView| entry_line(e)));
    lines
}

/// What the client shows.
#[derive(Debug)]
pub enum Output {
    /// A message on standard error, and failure.
    Failure { message: String },
    /// Lines on standard output.
    Lines { lines: Vec<String> },
    /// Entries in JSON.
    Entries { entries: Vec<Entry> },
    /// Payloads in JSON.
    Payloads { payloads: Vec<MimePayload> },
    /// Nothing.
    Nothing,
}

/// What the client shows.
pub enum OutputView {
    Failure { message: Seq<char> },
    Lines { lines: Seq<Seq<char>> },
    Entries { entries: Seq<EntryView> },
    Payloads { payloads: Seq<(Seq<char>, Seq<char>)> },
    Nothing,
}

impl View for Output {
    type V = OutputView;

    open spec fn view(&self) -> OutputView {
        match self {
            Output::Failure { message } => OutputView::Failure { message: message@ },
            Output::Lines { lines } => OutputView::Lines { lines: views(lines@) },
            Output::Entries { entries } => OutputView::Entries { entries: views(entries@) },
            Output::Payloads { payloads } => OutputView::Payloads { payloads: views(payloads@) },
            Output::Nothing => OutputView::Nothing,
        }
    }
}

/// What the client shows for an answer to a command.
pub open spec fn output_of(command: Command, response: ResponseView) -> OutputView {
    match response {
        ResponseView::Error { message } => OutputView::Failure { message: "error: "@ + message },
        ResponseView::Pong => OutputView::Lines { lines: seq!["pong"@] },
        ResponseView::Done => OutputView::Nothing,
        ResponseView::List { entries } => match command {
            Command::List { json, .. } => if json {
                OutputView::Entries { entries }
            } else {
                OutputView::Lines { lines: entries.map_values(|e: EntryView| entry_line(e)) }
            },
            _ => OutputView::Nothing,
        },
        ResponseView::Decode { payloads } => match command {
            Command::Decode { .. } => OutputView::Payloads { payloads },
            _ => OutputView::Nothing,
        },
    }
}

/// Decides what the client shows for an answer to a command.
pub fn present(command: &Command, response: Response) -> (output: Output)
    ensures
        output@ == output_of(*command, response@),
{
    match response {
        Response::Error { message } => {
            let mut text = "error: ".to_string();
            text.append(message.as_str());
            Output::Failure { message: text }
        },
        Response::Pong => {
            let mut lines: Vec<String> = Vec::new();
            lines.push("pong".to_string());
            assert(views(lines@) =~= seq!["pong"@]);
            Output::Lines { lines }
        },
        Response::Done => Output::Nothing,
        Response::List { entries } => match *command {
            Command::List { json, .. } => if json {
                Output::Entries { entries }
            } else {
                Output::Lines { lines: list_lines(entries.as_slice()) }
            },
            _ => Output::Nothing,
        },
        Response::Decode { payloads } => match *command {
            Command::Decode { .. } => Output::Payloads { payloads },
            _ => Output::Nothing,
        },
    }
}

} // verus!
