//! Recording what is copied: which offers are read, and what becomes of what was read.
use vstd::prelude::*;

use std::collections::HashMap;

use crate::db::{
    after_insert, insert_result, mime_types_of, mimes_of, stores_moment, Database, DatabaseView,
    DbError, NewEntry, NewEntryView,
};
use crate::hash::{hash_text, message_len, try_payload_hash};
use crate::label::{build_label, label_decodes, label_text};
use crate::order::views;
use crate::outside::{rfc3339_text, DURATION_MAX_NANOS, SHA256_LIMIT};
use crate::payload::{
    is_portal_session, normal_form, normalize_payloads, should_skip, total_len, PayloadView,
};
use crate::suppress::{after_offer, suppresses, SuppressState, SuppressView};
use crate::text::same_text;
use crate::time::{Moment, Timestamp};
use crate::types::{classify_kind, kind_of, EntryKind};

verus! {

// ---------------------------------------------------------------------------
// Globals of the compositor
// ---------------------------------------------------------------------------

/// What is done about a global that the compositor announces.
#[derive(Debug, Clone, Copy, PartialEq, Eq, Structural)]
pub enum Binding {
    /// It is bound as the clipboard manager.
    Manager { version: u32 },
    /// It is bound as the seat.
    Seat { version: u32 },
    /// It is not bound.
    Ignored,
}

/// The smaller of two versions.
pub open spec fn lower_version(a: u32, b: u32) -> u32 {
    if a < b {
        a
    } else {
        b
    }
}

/// The smaller of two versions.
fn lower(a: u32, b: u32) -> (r: u32)
    ensures
        r == lower_version(a, b),
{
    if a < b {
        a
    } else {
        b
    }
}

/// What is done about a global: a clipboard manager is bound, up to version 2, and a seat, up to
/// version 7, if none is bound yet.
pub open spec fn binding_of(interface: Seq<char>, version: u32, has_seat: bool) -> Binding {
    if interface == "zwlr_data_control_manager_v1"@ {
        Binding::Manager { version: lower_version(version, 2) }
    } else if interface == "wl_seat"@ && !has_seat {
        Binding::Seat { version: lower_version(version, 7) }
    } else {
        Binding::Ignored
    }
}

/// Decides what is done about a global.
pub fn bind_global(interface: &str, version: u32, has_seat: bool) -> (r: Binding)
    ensures
        r == binding_of(interface@, version, has_seat),
{
    if same_text(interface, "zwlr_data_control_manager_v1") {
        Binding::Manager { version: lower(version, 2) }
    } else if same_text(interface, "wl_seat") && !has_seat {
        Binding::Seat { version: lower(version, 7) }
    } else {
        Binding::Ignored
    }
}

// ---------------------------------------------------------------------------
// Offers
// ---------------------------------------------------------------------------

/// The offers that were announced and not yet selected, with the MIME types of each.
pub struct Offers {
    pending: HashMap<u32, Vec<String>>,
}

/// What is pending: the MIME types of each offer.
pub type OffersView = Map<u32, Seq<Seq<char>>>;

impl View for Offers {
    type V = OffersView;

    closed spec fn view(&self) -> OffersView {
        self.pending@.map_values(|mimes: Vec<String>| views(mimes@))
    }
}

/// The offers after another one was announced.
pub open spec fn announced(offers: OffersView, id: u32) -> OffersView {
    offers.insert(id, Seq::empty())
}

/// The offers after one of them named a MIME type.
pub open spec fn offered(offers: OffersView, id: u32, mime: Seq<char>) -> OffersView {
    if offers.dom().contains(id) && !is_portal_session(mime) {
        offers.insert(id, offers[id].push(mime))
    } else {
        offers
    }
}

/// What is done about the offer that was selected.
#[derive(Debug)]
pub enum Selected {
    /// Nothing: no offer was selected, or one that was not announced.
    Nothing,
    /// The offer is given back: it has no MIME type that is recorded.
    Dropped,
    /// The offer is read.
    Ready { mime_types: Vec<String> },
}

/// What is done about the offer that was selected.
pub enum SelectedView {
    Nothing,
    Dropped,
    Ready { mime_types: Seq<Seq<char>> },
}

impl View for Selected {
    type V = SelectedView;

    open spec fn view(&self) -> SelectedView {
        match self {
            Selected::Nothing => SelectedView::Nothing,
            Selected::Dropped => SelectedView::Dropped,
            Selected::Ready { mime_types } => SelectedView::Ready {
                mime_types: views(mime_types@),
            },
        }
    }
}

/// What is done about the offer that was selected.
pub open spec fn selected_of(offers: OffersView, id: Option<u32>) -> SelectedView {
    match id {
        Some(oid) => if !offers.dom().contains(oid) {
            SelectedView::Nothing
        } else if offers[oid].len() == 0 {
            SelectedView::Dropped
        } else {
            SelectedView::Ready { mime_types: offers[oid] }
        },
        None => SelectedView::Nothing,
    }
}

impl Offers {
    /// No offers.
    pub fn new() -> (r: Self)
        ensures
            r@ == OffersView::empty(),
    {
        let r = Offers { pending: HashMap::new() };
        assert(r@ =~= OffersView::empty());
        r
    }

    /// Notes an offer that was announced.
    pub fn data_offer(&mut self, id: u32)
        ensures
            final(self)@ == announced(old(self)@, id),
    {
        let none: Vec<String> = Vec::new();
        assert(views(none@) =~= Seq::empty());
        self.pending.insert(id, none);
        assert(self@ =~= announced(old(self)@, id));
    }

    /// Notes a MIME type that an offer named. Types of portal sessions are left out.
    pub fn offer(&mut self, id: u32, mime: String)
        ensures
            final(self)@ == offered(old(self)@, id, mime@),
    {
        if should_skip(mime.as_str()) {
            return;
        }
        match self.pending.remove(&id) {
            Some(mut mimes) => {
                let ghost before = views(mimes@);
                let ghost name = mime@;
                mimes.push(mime);
                assert(views(mimes@) =~= before.push(name));
                self.pending.insert(id, mimes);
                assert(self@ =~= offered(old(self)@, id, name));
            },
            None => {
                assert(self@ =~= old(self)@);
            },
        }
    }

    /// Decides what is done about the offer that was selected. All others are forgotten.
    pub fn selection(&mut self, id: Option<u32>) -> (r: Selected)
        ensures
            r@ == selected_of(old(self)@, id),
            final(self)@ == OffersView::empty(),
    {
        let mimes = match id {
            Some(oid) => self.pending.remove(&oid),
            None => None,
        };
        self.pending.clear();
        assert(self@ =~= OffersView::empty());
        match mimes {
            Some(mime_types) => if mime_types.len() == 0 {
                Selected::Dropped
            } else {
                Selected::Ready { mime_types }
            },
            None => Selected::Nothing,
        }
    }
}

/// The offers after one of them named MIME types, one after the other.
pub open spec fn offered_all(offers: OffersView, id: u32, mimes: Seq<Seq<char>>) -> OffersView
    decreases mimes.len(),
{
    if mimes.len() == 0 {
        offers
    } else {
        offered(offered_all(offers, id, mimes.drop_last()), id, mimes.last())
    }
}

/// The MIME types of an offer that are recorded.
pub open spec fn recorded_types(mimes: Seq<Seq<char>>) -> Seq<Seq<char>> {
    mimes.filter(|mime: Seq<char>| !is_portal_session(mime))
}

/// Every MIME type that an offer names after it was announced is read, in the order they are named
/// in, but for those of portal sessions.
pub proof fn law_all_types_read(offers: OffersView, id: u32, mimes: Seq<Seq<char>>)
    ensures
        ({
            let types = recorded_types(mimes);
            let after = offered_all(announced(offers, id), id, mimes);
            &&& after == offers.insert(id, types)
            &&& selected_of(after, Some(id)) == (if types.len() == 0 {
                SelectedView::Dropped
            } else {
                SelectedView::Ready { mime_types: types }
            })
        }),
    decreases mimes.len(),
{
    reveal(Seq::filter);
    let types = recorded_types(mimes);
    let after = offered_all(announced(offers, id), id, mimes);
    if mimes.len() == 0 {
        assert(types =~= Seq::empty());
    } else {
        law_all_types_read(offers, id, mimes.drop_last());
        let head = recorded_types(mimes.drop_last());
        assert(after =~= offers.insert(id, types)) by {
            if is_portal_session(mimes.last()) {
                assert(types == head);
            } else {
                assert(types == head.push(mimes.last()));
            }
        }
    }
}

/// Whether no offer has a MIME type of a portal session.
pub open spec fn portal_free(offers: OffersView) -> bool {
    forall|id: u32, i: int|
        offers.dom().contains(id) && 0 <= i < offers[id].len() ==> !is_portal_session(
            #[trigger] offers[id][i],
        )
}

/// MIME types of portal sessions are never read: there are none among the offers in the beginning,
/// announcing and naming types adds none, and what is selected has none.
pub proof fn law_portal_types_never_read(
    offers: OffersView,
    id: u32,
    mime: Seq<char>,
    selected: Option<u32>,
)
    requires
        portal_free(offers),
    ensures
        portal_free(OffersView::empty()),
        portal_free(announced(offers, id)),
        portal_free(offered(offers, id, mime)),
        selected_of(offers, selected) matches SelectedView::Ready { mime_types } ==> forall|i: int|
            0 <= i < mime_types.len() ==> !is_portal_session(#[trigger] mime_types[i]),
{
    let after = offered(offers, id, mime);
    assert forall|k: u32, i: int|
        after.dom().contains(k) && 0 <= i < after[k].len() implies !is_portal_session(
        #[trigger] after[k][i],
    ) by {
        if k == id && offers.dom().contains(id) && !is_portal_session(mime) {
            if i < offers[id].len() {
                assert(after[k][i] == offers[id][i]);
            }
        } else {
            assert(after[k][i] == offers[k][i]);
        }
    }
}

// ---------------------------------------------------------------------------
// Reading an offer
// ---------------------------------------------------------------------------

/// How many bytes an offer may have altogether to be recorded: 64 MiB.
pub const MAX_PAYLOAD_BYTES: usize = 67_108_864;

/// What has been read of an offer so far.
#[derive(Debug)]
pub struct Capture {
    payloads: Vec<(String, Vec<u8>)>,
    raw_total: usize,
    too_large: bool,
}

/// What has been read of an offer: the payloads that have bytes, how many bytes there were, and
/// whether there were more than are recorded.
pub struct CaptureView {
    pub payloads: Seq<PayloadView>,
    pub raw_total: nat,
    pub too_large: bool,
}

impl View for Capture {
    type V = CaptureView;

    closed spec fn view(&self) -> CaptureView {
        CaptureView {
            payloads: views(self.payloads@),
            raw_total: self.raw_total as nat,
            too_large: self.too_large,
        }
    }
}

/// Nothing read yet.
pub open spec fn nothing_captured() -> CaptureView {
    CaptureView { payloads: Seq::empty(), raw_total: 0, too_large: false }
}

/// What has been read after one more MIME type was.
pub open spec fn captured(capture: CaptureView, p: PayloadView) -> CaptureView {
    if capture.too_large {
        capture
    } else if capture.raw_total + p.1.len() > MAX_PAYLOAD_BYTES {
        CaptureView { payloads: Seq::empty(), too_large: true, ..capture }
    } else {
        CaptureView {
            payloads: if p.1.len() > 0 {
                capture.payloads.push(p)
            } else {
                capture.payloads
            },
            raw_total: capture.raw_total + p.1.len(),
            ..capture
        }
    }
}

/// What has been read after MIME types were, one after the other.
pub open spec fn captured_all(reads: Seq<PayloadView>) -> CaptureView
    decreases reads.len(),
{
    if reads.len() == 0 {
        nothing_captured()
    } else {
        captured(captured_all(reads.drop_last()), reads.last())
    }
}

impl Capture {
    #[verifier::type_invariant]
    spec fn bounded(self) -> bool {
        &&& self.raw_total <= MAX_PAYLOAD_BYTES
        &&& total_len(views(self.payloads@)) <= self.raw_total
    }

    /// Nothing read yet.
    pub fn new() -> (r: Self)
        ensures
            r@ == nothing_captured(),
    {
        let payloads: Vec<(String, Vec<u8>)> = Vec::new();
        assert(views(payloads@) =~= Seq::empty());
        Capture { payloads, raw_total: 0, too_large: false }
    }

    /// Adds what was read for a MIME type, and tells whether reading goes on.
    pub fn add(&mut self, mime: String, data: Vec<u8>) -> (more: bool)
        ensures
            final(self)@ == captured(old(self)@, (mime@, data@)),
            more == !final(self)@.too_large,
    {
        proof {
            use_type_invariant(&*self);
        }
        if self.too_large {
            return false;
        }
        let mut payloads: Vec<(String, Vec<u8>)> = Vec::new();
        assert(views(payloads@) =~= Seq::empty());
        std::mem::swap(&mut payloads, &mut self.payloads);
        if data.len() > MAX_PAYLOAD_BYTES - self.raw_total {
            self.too_large = true;
            return false;
        }
        let raw_total = self.raw_total + data.len();
        if data.len() > 0 {
            let ghost before = views(payloads@);
            let ghost p: PayloadView = (mime@, data@);
            payloads.push((mime, data));
            proof {
                assert(views(payloads@) =~= before.push(p));
                lemma_total_len_push(before, p);
            }
        }
        *self = Capture { payloads, raw_total, too_large: false };
        true
    }

    /// The payloads that were read, unless there were too many bytes.
    fn into_payloads(self) -> (r: Option<Vec<(String, Vec<u8>)>>)
        ensures
            r is None <==> self@.too_large,
            r matches Some(payloads) ==> views(payloads@) == self@.payloads && total_len(
                views(payloads@),
            ) <= MAX_PAYLOAD_BYTES,
    {
        proof {
            use_type_invariant(&self);
        }
        if self.too_large {
            None
        } else {
            Some(self.payloads)
        }
    }
}

/// The payloads that have bytes.
pub open spec fn with_bytes(reads: Seq<PayloadView>) -> Seq<PayloadView> {
    reads.filter(|p: PayloadView| p.1.len() > 0)
}

/// An offer that has more than 64 MiB is not recorded; of another one, all payloads that have
/// bytes are.
pub proof fn law_capture_is_complete(reads: Seq<PayloadView>)
    ensures
        captured_all(reads).too_large <==> total_len(reads) > MAX_PAYLOAD_BYTES,
        total_len(reads) <= MAX_PAYLOAD_BYTES ==> captured_all(reads) == (CaptureView {
            payloads: with_bytes(reads),
            raw_total: total_len(reads),
            too_large: false,
        }),
    decreases reads.len(),
{
    reveal(Seq::filter);
    if reads.len() > 0 {
        law_capture_is_complete(reads.drop_last());
        lemma_total_len_push(reads.drop_last(), reads.last());
        assert(reads =~= reads.drop_last().push(reads.last()));
    } else {
        assert(with_bytes(reads) =~= Seq::empty());
    }
}

/// One more payload adds its bytes.
pub proof fn lemma_total_len_push(payloads: Seq<PayloadView>, p: PayloadView)
    ensures
        total_len(payloads.push(p)) == total_len(payloads) + p.1.len(),
    decreases payloads.len(),
{
    if payloads.len() == 0 {
        assert(payloads.push(p).drop_first() =~= payloads);
    } else {
        assert(payloads.push(p).drop_first() =~= payloads.drop_first().push(p));
        lemma_total_len_push(payloads.drop_first(), p);
    }
}

// ---------------------------------------------------------------------------
// Recording an offer
// ---------------------------------------------------------------------------

/// What became of an offer that was read.
#[derive(Debug)]
pub enum Outcome {
    /// It had more bytes than are recorded.
    TooLarge,
    /// It had no bytes.
    Empty,
    /// It is too long to be hashed.
    Unhashable,
    /// It was the entry that had just been restored.
    Suppressed { hash: String },
    /// It was recorded.
    Stored { id: i64, kind: EntryKind, label: String },
    /// It could not be recorded.
    Failed { error: DbError },
}

/// What became of an offer that was read.
pub enum OutcomeView {
    TooLarge,
    Empty,
    Unhashable,
    Suppressed { hash: Seq<char> },
    Stored { id: i64, kind: EntryKind, label: Seq<char> },
    Failed { error: DbError },
}

impl View for Outcome {
    type V = OutcomeView;

    open spec fn view(&self) -> OutcomeView {
        match self {
            Outcome::TooLarge => OutcomeView::TooLarge,
            Outcome::Empty => OutcomeView::Empty,
            Outcome::Unhashable => OutcomeView::Unhashable,
            Outcome::Suppressed { hash } => OutcomeView::Suppressed { hash: hash@ },
            Outcome::Stored { id, kind, label } => OutcomeView::Stored {
                id: *id,
                kind: *kind,
                label: label@,
            },
            Outcome::Failed { error } => OutcomeView::Failed { error: *error },
        }
    }
}

/// The daemon as far as recording is concerned: the history, and the entry that is waited for.
pub struct DaemonView {
    pub db: DatabaseView,
    pub suppress: SuppressView,
}

/// The kind of an entry with the given payloads.
pub open spec fn kind_of_payloads(payloads: Seq<PayloadView>) -> EntryKind {
    kind_of(mimes_of(payloads))
}

/// The entry that payloads are recorded as.
pub open spec fn entry_for(
    hash: Seq<char>,
    kind: EntryKind,
    label: Seq<char>,
    payloads: Seq<PayloadView>,
    now: (i64, u32),
) -> NewEntryView {
    NewEntryView {
        hash,
        kind,
        label,
        preview: label,
        size: total_len(payloads) as usize,
        created_at: now,
        payloads,
    }
}

/// What becomes of payloads that are recorded.
pub open spec fn stored_outcome(db: DatabaseView, entry: NewEntryView) -> OutcomeView {
    match insert_result(db, entry) {
        Ok(id) => OutcomeView::Stored { id, kind: entry.kind, label: entry.label },
        Err(error) => OutcomeView::Failed { error },
    }
}

/// What becomes of payloads with the given hash that were read at the moment `now`, or `moment`
/// on the monotonic clock.
pub open spec fn hashed_outcome(
    daemon: DaemonView,
    hash: Seq<char>,
    payloads: Seq<PayloadView>,
    now: (i64, u32),
    moment: Moment,
) -> OutcomeView {
    let kind = kind_of_payloads(payloads);
    if suppresses(daemon.suppress, hash, moment) {
        OutcomeView::Suppressed { hash }
    } else {
        stored_outcome(daemon.db, entry_for(hash, kind, label_text(kind, payloads), payloads, now))
    }
}

/// The daemon after payloads with the given hash were read.
pub open spec fn after_hashed(
    daemon: DaemonView,
    hash: Seq<char>,
    payloads: Seq<PayloadView>,
    now: (i64, u32),
    moment: Moment,
) -> DaemonView {
    let kind = kind_of_payloads(payloads);
    DaemonView {
        db: if suppresses(daemon.suppress, hash, moment) {
            daemon.db
        } else {
            after_insert(
                daemon.db,
                entry_for(hash, kind, label_text(kind, payloads), payloads, now),
                rfc3339_text(now.0, now.1),
            )
        },
        suppress: after_offer(daemon.suppress, hash, moment),
    }
}

/// What becomes of an offer.
pub open spec fn ready_outcome(
    daemon: DaemonView,
    capture: CaptureView,
    now: (i64, u32),
    moment: Moment,
) -> OutcomeView {
    let payloads = normal_form(capture.payloads);
    if capture.too_large {
        OutcomeView::TooLarge
    } else if capture.payloads.len() == 0 {
        OutcomeView::Empty
    } else if message_len(payloads) >= SHA256_LIMIT {
        OutcomeView::Unhashable
    } else {
        hashed_outcome(daemon, hash_text(payloads), payloads, now, moment)
    }
}

/// The daemon after an offer was read.
pub open spec fn after_ready(
    daemon: DaemonView,
    capture: CaptureView,
    now: (i64, u32),
    moment: Moment,
) -> DaemonView {
    let payloads = normal_form(capture.payloads);
    if capture.too_large || capture.payloads.len() == 0 || message_len(payloads) >= SHA256_LIMIT {
        daemon
    } else {
        after_hashed(daemon, hash_text(payloads), payloads, now, moment)
    }
}

/// Adds up the bytes of payloads.
fn payload_bytes(payloads: &[(String, Vec<u8>)]) -> (n: usize)
    requires
        total_len(views(payloads@)) <= usize::MAX,
    ensures
        n == total_len(views(payloads@)),
{
    let ghost all = views(payloads@);
    let mut n: usize = 0;
    let mut i: usize = 0;
    assert(all.skip(0) =~= all);
    while i < payloads.len()
        invariant
            all == views(payloads@),
            i <= payloads@.len(),
            n + total_len(all.skip(i as int)) == total_len(all),
            total_len(all) <= usize::MAX,
        decreases payloads@.len() - i,
    {
        assert(all.skip(i as int)[0] == payloads@[i as int]@);
        assert(all.skip(i as int).drop_first() =~= all.skip(i + 1));
        n += payloads[i].1.len();
        i += 1;
    }
    n
}

/// Records what was read of an offer, unless it is the entry that had just been restored.
pub fn process_ready(capture: Capture, db: &mut Database, suppress: &mut SuppressState) -> (r:
    Outcome)
    requires
        old(db).wf(),
    ensures
        final(db).wf(),
        final(db).stored_rows() == old(db).stored_rows(),
        exists|now: (i64, u32), moment: Moment|
            moment.nanos <= DURATION_MAX_NANOS && #[trigger] processed(
                DaemonView { db: old(db)@, suppress: old(suppress)@ },
                capture@,
                now,
                moment,
                r@,
                DaemonView { db: final(db)@, suppress: final(suppress)@ },
            ),
{
    let now = Timestamp::now();
    let moment = suppress.now();
    let ghost before = DaemonView { db: db@, suppress: suppress@ };
    let r = process_ready_at(capture, db, suppress, now, moment);
    assert(processed(
        before,
        capture@,
        now@,
        moment,
        r@,
        DaemonView { db: db@, suppress: suppress@ },
    ));
    r
}

/// Whether an offer that was read at the moment `now`, or `moment` on the monotonic clock, came to
/// what it should. What an entry is stamped with stands for that moment, and its label is made from
/// the text that its payload encodes, if it encodes one.
pub open spec fn processed(
    daemon: DaemonView,
    capture: CaptureView,
    now: (i64, u32),
    moment: Moment,
    outcome: OutcomeView,
    after: DaemonView,
) -> bool {
    &&& outcome == ready_outcome(daemon, capture, now, moment)
    &&& after == after_ready(daemon, capture, now, moment)
    &&& outcome is Stored || outcome is Failed ==> {
        let payloads = normal_form(capture.payloads);
        stores_moment(now) && label_decodes(kind_of_payloads(payloads), payloads)
    }
}

/// Records what was read of an offer at the moment `now`, or `moment` on the monotonic clock.
pub fn process_ready_at(
    capture: Capture,
    db: &mut Database,
    suppress: &mut SuppressState,
    now: Timestamp,
    moment: Moment,
) -> (r: Outcome)
    requires
        old(db).wf(),
    ensures
        final(db).wf(),
        final(db).stored_rows() == old(db).stored_rows(),
        processed(
            DaemonView { db: old(db)@, suppress: old(suppress)@ },
            capture@,
            now@,
            moment,
            r@,
            DaemonView { db: final(db)@, suppress: final(suppress)@ },
        ),
{
    let read = match capture.into_payloads() {
        Some(read) => read,
        None => {
            return Outcome::TooLarge;
        },
    };
    if read.len() == 0 {
        return Outcome::Empty;
    }
    let payloads = normalize_payloads(read);
    match try_payload_hash(payloads.as_slice()) {
        Some(hash) => process_hashed(hash, payloads.as_slice(), db, suppress, now, moment),
        None => Outcome::Unhashable,
    }
}

/// Records payloads in normal form under their hash.
pub fn process_hashed(
    hash: String,
    payloads: &[(String, Vec<u8>)],
    db: &mut Database,
    suppress: &mut SuppressState,
    now: Timestamp,
    moment: Moment,
) -> (r: Outcome)
    requires
        old(db).wf(),
        total_len(views(payloads@)) <= usize::MAX,
    ensures
        final(db).wf(),
        final(db).stored_rows() == old(db).stored_rows(),
        r@ == hashed_outcome(
            DaemonView { db: old(db)@, suppress: old(suppress)@ },
            hash@,
            views(payloads@),
            now@,
            moment,
        ),
        (DaemonView { db: final(db)@, suppress: final(suppress)@ }) == after_hashed(
            DaemonView { db: old(db)@, suppress: old(suppress)@ },
            hash@,
            views(payloads@),
            now@,
            moment,
        ),
        !(r@ is Suppressed) ==> stores_moment(now@) && label_decodes(
            kind_of_payloads(views(payloads@)),
            views(payloads@),
        ),
{
    if suppress.should_suppress_at(hash.as_str(), moment) {
        return Outcome::Suppressed { hash };
    }
    let mime_types = mime_types_of(payloads);
    let kind = classify_kind(mime_types.as_slice());
    let label = build_label(&kind, payloads);
    store_labelled(hash, kind, label, payloads, db, now)
}

/// Records payloads under their hash, kind and label.
pub fn store_labelled(
    hash: String,
    kind: EntryKind,
    label: String,
    payloads: &[(String, Vec<u8>)],
    db: &mut Database,
    now: Timestamp,
) -> (r: Outcome)
    requires
        old(db).wf(),
        total_len(views(payloads@)) <= usize::MAX,
    ensures
        final(db).wf(),
        final(db).stored_rows() == old(db).stored_rows(),
        r@ == stored_outcome(old(db)@, entry_for(hash@, kind, label@, views(payloads@), now@)),
        final(db)@ == after_insert(
            old(db)@,
            entry_for(hash@, kind, label@, views(payloads@), now@),
            rfc3339_text(now@.0, now@.1),
        ),
        stores_moment(now@),
{
    let size = payload_bytes(payloads);
    let entry = NewEntry {
        hash: hash.as_str(),
        kind: &kind,
        label: label.as_str(),
        preview: label.as_str(),
        size,
        created_at: now,
        payloads,
    };
    assert(entry@ == entry_for(hash@, kind, label@, views(payloads@), now@));
    match db.insert(entry) {
        Ok(id) => Outcome::Stored { id, kind, label },
        Err(error) => Outcome::Failed { error },
    }
}

} // verus!
