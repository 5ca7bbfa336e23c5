//! Answering requests.
use vstd::prelude::*;

use crate::db::{
    error_text, fit_base64, in_base64, listing, payloads_of, stores_moment, Database,
    DatabaseView, DbError,
};
use crate::ipc::{Request, Response, ResponseView};
use crate::order::views;
use crate::outside::{rfc3339_text, DURATION_MAX_NANOS};
use crate::payload::PayloadView;
use crate::rows::{lemma_row_absent, row_with_id, touched, without_id};
use crate::suppress::{armed, SuppressState, SuppressView, SUPPRESS_TTL};
use crate::text::{push_signed_decimal, same_text, signed_decimal};
use crate::time::{Moment, Timestamp};

verus! {

/// How many entries are listed if the request does not say.
pub const DEFAULT_LIST_LIMIT: usize = 200;

/// An entry that is to be offered on the clipboard again.
#[derive(Debug)]
pub struct Restoration {
    pub hash: String,
    pub payloads: Vec<(String, Vec<u8>)>,
}

/// What a restoration is.
pub struct RestorationView {
    pub hash: Seq<char>,
    pub payloads: Seq<PayloadView>,
}

impl View for Restoration {
    type V = RestorationView;

    open spec fn view(&self) -> RestorationView {
        RestorationView { hash: self.hash@, payloads: views(self.payloads@) }
    }
}

/// The answer to a request, and what is to be offered on the clipboard on its account.
#[derive(Debug)]
pub struct Reply {
    pub response: Response,
    pub restore: Option<Restoration>,
}

/// What a reply is.
pub struct ReplyView {
    pub response: ResponseView,
    pub restore: Option<RestorationView>,
}

impl View for Reply {
    type V = ReplyView;

    open spec fn view(&self) -> ReplyView {
        ReplyView {
            response: self.response@,
            restore: match self.restore {
                Some(restoration) => Some(restoration@),
                None => None,
            },
        }
    }
}

/// A reply that has nothing offered.
pub open spec fn plain(response: ResponseView) -> ReplyView {
    ReplyView { response, restore: None }
}

/// How it is said that there is no entry with an id.
pub open spec fn missing_text(id: i64) -> Seq<char> {
    "no entry with id "@ + signed_decimal(id as int)
}

/// How it is said that a request could not be read.
pub open spec fn unreadable_text(reason: Seq<char>) -> Seq<char> {
    "parse error: "@ + reason
}

/// The reply to a request at the moment `now`.
pub open spec fn reply_to(db: DatabaseView, request: Request, now: (i64, u32)) -> ReplyView {
    match request {
        Request::Ping => plain(ResponseView::Pong),
        Request::List { limit } => plain(
            ResponseView::List {
                entries: listing(
                    db.rows,
                    match limit {
                        Some(n) => n as nat,
                        None => DEFAULT_LIST_LIMIT as nat,
                    },
                    now,
                ),
            },
        ),
        Request::Decode { id } => plain(
            if fit_base64(payloads_of(db.rows, id)) {
                ResponseView::Decode { payloads: in_base64(payloads_of(db.rows, id)) }
            } else {
                ResponseView::Error { message: error_text(DbError::TooLong) }
            },
        ),
        Request::Delete { id } => plain(
            if row_with_id(db.rows, id) is Some {
                ResponseView::Done
            } else {
                ResponseView::Error { message: missing_text(id) }
            },
        ),
        Request::Clear => plain(ResponseView::Done),
        Request::Restore { id } => match row_with_id(db.rows, id) {
            Some(row) => ReplyView {
                response: ResponseView::Done,
                restore: Some(RestorationView { hash: row.hash, payloads: row.payloads }),
            },
            None => plain(ResponseView::Error { message: missing_text(id) }),
        },
    }
}

/// The history after a request, `stamp` being the text of the moment it came at.
pub open spec fn after_request(
    db: DatabaseView,
    request: Request,
    stamp: Seq<char>,
) -> DatabaseView {
    match request {
        Request::Delete { id } => DatabaseView { rows: without_id(db.rows, id), ..db },
        Request::Clear => DatabaseView { rows: Seq::empty(), ..db },
        Request::Restore { id } => DatabaseView { rows: touched(db.rows, id, stamp), ..db },
        _ => db,
    }
}

/// Whether a request that came at the moment `now` got the reply and left the history that it
/// should. What a restored entry is stamped with stands for that moment.
pub open spec fn dispatched(
    db: DatabaseView,
    request: Request,
    now: (i64, u32),
    reply: ReplyView,
    after: DatabaseView,
) -> bool {
    &&& reply == reply_to(db, request, now)
    &&& after == after_request(db, request, rfc3339_text(now.0, now.1))
    &&& reply.restore is Some ==> stores_moment(now)
}

/// A reply that reports an error.
fn failure(message: String) -> (reply: Reply)
    ensures
        reply@ == plain(ResponseView::Error { message: message@ }),
{
    Reply { response: Response::Error { message }, restore: None }
}

/// A reply that has nothing offered.
fn answer(response: Response) -> (reply: Reply)
    ensures
        reply@ == plain(response@),
{
    Reply { response, restore: None }
}

/// A reply that reports that there is no entry with an id.
fn missing(id: i64) -> (reply: Reply)
    ensures
        reply@ == plain(ResponseView::Error { message: missing_text(id) }),
{
    let mut message = "no entry with id ".to_string();
    push_signed_decimal(&mut message, id);
    failure(message)
}

/// Answers a request.
pub fn dispatch(request: Request, db: &mut Database) -> (reply: Reply)
    requires
        old(db).wf(),
    ensures
        final(db).wf(),
        final(db).stored_rows() == old(db).stored_rows(),
        exists|now: (i64, u32)| #[trigger]
            dispatched(old(db)@, request, now, reply@, final(db)@),
{
    let now = Timestamp::now();
    let reply = dispatch_at(request, db, now);
    assert(dispatched(old(db)@, request, now@, reply@, db@));
    reply
}

/// Answers a request at the moment `now`.
pub fn dispatch_at(request: Request, db: &mut Database, now: Timestamp) -> (reply: Reply)
    requires
        old(db).wf(),
    ensures
        final(db).wf(),
        final(db).stored_rows() == old(db).stored_rows(),
        dispatched(old(db)@, request, now@, reply@, final(db)@),
{
    match request {
        Request::Ping => answer(Response::Pong),
        Request::List { limit } => {
            let limit: usize = match limit {
                Some(n) => n,
                None => DEFAULT_LIST_LIMIT,
            };
            let entries = db.list_at(limit, now);
            answer(Response::List { entries })
        },
        Request::Decode { id } => match db.get_payloads(id) {
            Ok(payloads) => answer(Response::Decode { payloads }),
            Err(e) => failure(e.message().to_string()),
        },
        Request::Delete { id } => {
            if db.delete(id) {
                answer(Response::Done)
            } else {
                missing(id)
            }
        },
        Request::Clear => {
            db.clear();
            answer(Response::Done)
        },
        Request::Restore { id } => {
            match db.get_hash(id) {
                Some(hash) => {
                    let payloads = db.get_raw_payloads(id);
                    db.touch_last_used_at(id, now);
                    Reply {
                        response: Response::Done,
                        restore: Some(Restoration { hash, payloads }),
                    }
                },
                None => {
                    proof {
                        let rows = old(db)@.rows;
                        lemma_row_absent(rows, id);
                        assert(touched(rows, id, rfc3339_text(now@.0, now@.1)) =~= rows);
                    }
                    missing(id)
                },
            }
        },
    }
}

/// Answers a line that a client sent; `parsed` is what it was read as. An empty line is not
/// answered.
pub fn handle_line(
    line: &str,
    parsed: Result<Request, String>,
    db: &mut Database,
    now: Timestamp,
) -> (reply: Option<Reply>)
    requires
        old(db).wf(),
    ensures
        final(db).wf(),
        final(db).stored_rows() == old(db).stored_rows(),
        reply is None <==> line@.len() == 0,
        reply matches Some(r) ==> match parsed {
            Ok(request) => dispatched(old(db)@, request, now@, r@, final(db)@),
            Err(reason) => {
                &&& r@ == plain(ResponseView::Error { message: unreadable_text(reason@) })
                &&& final(db)@ == old(db)@
            },
        },
        reply is None ==> final(db)@ == old(db)@,
{
    if same_text(line, "") {
        proof {
            reveal_strlit("");
        }
        return None;
    }
    proof {
        reveal_strlit("");
        if line@.len() == 0 {
            assert(line@ =~= ""@);
        }
    }
    match parsed {
        Ok(request) => Some(dispatch_at(request, db, now)),
        Err(reason) => {
            let mut message = "parse error: ".to_string();
            message.append(reason.as_str());
            Some(failure(message))
        },
    }
}

/// The answer that is sent in the end: an error, if the changes could not be written to disk.
pub open spec fn settled_response(reply: ReplyView, written: Result<(), String>) -> ResponseView {
    match written {
        Ok(_) => reply.response,
        Err(message) => ResponseView::Error { message: message@ },
    }
}

/// What is offered on the clipboard in the end: nothing, if the changes could not be written to
/// disk.
pub open spec fn settled_restore(reply: ReplyView, written: Result<(), String>) -> Option<
    RestorationView,
> {
    match written {
        Ok(_) => reply.restore,
        Err(_) => None,
    }
}

/// The view of an optional list of payloads.
pub open spec fn payloads_view(payloads: Option<Vec<(String, Vec<u8>)>>) -> Option<
    Seq<PayloadView>,
> {
    match payloads {
        Some(p) => Some(views(p@)),
        None => None,
    }
}

/// The payloads of a restoration.
pub open spec fn restored_payloads(restore: Option<RestorationView>) -> Option<Seq<PayloadView>> {
    match restore {
        Some(r) => Some(r.payloads),
        None => None,
    }
}

/// What is waited for in the end: an entry that is offered.
pub open spec fn settled_suppress(
    reply: ReplyView,
    written: Result<(), String>,
    suppress: SuppressView,
    now: Moment,
) -> SuppressView {
    match settled_restore(reply, written) {
        Some(restoration) => armed(restoration.hash, now),
        None => suppress,
    }
}

/// Completes a reply once it is known whether the changes were written to disk: gives the answer
/// that is sent and the payloads that are offered. An entry that is offered is waited for.
pub fn settle(reply: Reply, written: Result<(), String>, suppress: &mut SuppressState) -> (r: (
    Response,
    Option<Vec<(String, Vec<u8>)>>,
))
    ensures
        r.0@ == settled_response(reply@, written),
        payloads_view(r.1) == restored_payloads(settled_restore(reply@, written)),
        exists|now: Moment|
            now.nanos <= DURATION_MAX_NANOS && final(suppress)@ == #[trigger] settled_suppress(
                reply@,
                written,
                old(suppress)@,
                now,
            ),
{
    let now = suppress.now();
    settle_at(reply, written, suppress, now)
}

/// Completes a reply at the moment `now`.
pub fn settle_at(
    reply: Reply,
    written: Result<(), String>,
    suppress: &mut SuppressState,
    now: Moment,
) -> (r: (Response, Option<Vec<(String, Vec<u8>)>>))
    requires
        now.nanos + SUPPRESS_TTL <= u128::MAX,
    ensures
        r.0@ == settled_response(reply@, written),
        payloads_view(r.1) == restored_payloads(settled_restore(reply@, written)),
        final(suppress)@ == settled_suppress(reply@, written, old(suppress)@, now),
{
    match written {
        Ok(_) => match reply.restore {
            Some(restoration) => {
                suppress.arm_at(restoration.hash, now);
                (reply.response, Some(restoration.payloads))
            },
            None => (reply.response, None),
        },
        Err(message) => (Response::Error { message }, None),
    }
}

} // verus!
