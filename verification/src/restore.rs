//! Offering an entry on the clipboard again.
use vstd::prelude::*;

use crate::db::mime_types_of;
use crate::order::views;
use crate::payload::PayloadView;
use crate::text::same_text;

verus! {

/// What is served for each MIME type. Where a type occurs more than once, the last payload counts.
pub open spec fn served(payloads: Seq<PayloadView>) -> Map<Seq<char>, Seq<u8>>
    decreases payloads.len(),
{
    if payloads.len() == 0 {
        Map::empty()
    } else {
        served(payloads.drop_last()).insert(payloads.last().0, payloads.last().1)
    }
}

/// What happens to the source that offers an entry, or to the clipboard device.
#[derive(Debug)]
pub enum SourceEvent {
    /// The bytes of a MIME type are asked for.
    Send { mime_type: String },
    /// The clipboard was taken over.
    Cancelled,
    /// The clipboard device is gone.
    Finished,
}

/// What is done about it.
#[derive(Debug)]
pub enum SourceAction {
    /// The bytes are written.
    Write { data: Vec<u8> },
    /// The type is not offered: nothing is written.
    Refuse,
    /// The offer ends.
    Stop,
}

/// What is done about an event.
pub enum SourceActionView {
    Write { data: Seq<u8> },
    Refuse,
    Stop,
}

impl View for SourceAction {
    type V = SourceActionView;

    open spec fn view(&self) -> SourceActionView {
        match self {
            SourceAction::Write { data } => SourceActionView::Write { data: data@ },
            SourceAction::Refuse => SourceActionView::Refuse,
            SourceAction::Stop => SourceActionView::Stop,
        }
    }
}

/// What an entry that is being offered is: what is served, and whether the offer has ended.
pub struct RestoreView {
    pub served: Map<Seq<char>, Seq<u8>>,
    pub done: bool,
}

/// What is done about an event.
pub open spec fn action_for(
    served: Map<Seq<char>, Seq<u8>>,
    event: SourceEvent,
) -> SourceActionView {
    match event {
        SourceEvent::Send { mime_type } => if served.dom().contains(mime_type@) {
            SourceActionView::Write { data: served[mime_type@] }
        } else {
            SourceActionView::Refuse
        },
        SourceEvent::Cancelled => SourceActionView::Stop,
        SourceEvent::Finished => SourceActionView::Stop,
    }
}

/// An entry that is being offered.
#[derive(Debug)]
pub struct RestoreState {
    payloads: Vec<(String, Vec<u8>)>,
    done: bool,
}

impl View for RestoreState {
    type V = RestoreView;

    closed spec fn view(&self) -> RestoreView {
        RestoreView { served: served(views(self.payloads@)), done: self.done }
    }
}

/// Whether no MIME type occurs twice.
spec fn types_differ(payloads: Seq<PayloadView>) -> bool {
    forall|i: int, j: int| 0 <= i < j < payloads.len() ==> payloads[i].0 != payloads[j].0
}

/// What is served for a type is the last payload of that type.
pub proof fn lemma_served(payloads: Seq<PayloadView>, k: int)
    requires
        0 <= k < payloads.len(),
        forall|j: int| k < j < payloads.len() ==> #[trigger] payloads[j].0 != payloads[k].0,
    ensures
        served(payloads).dom().contains(payloads[k].0),
        served(payloads)[payloads[k].0] == payloads[k].1,
    decreases payloads.len(),
{
    if k < payloads.len() - 1 {
        assert(payloads[payloads.len() - 1].0 != payloads[k].0);
        lemma_served(payloads.drop_last(), k);
    }
}

/// A type is served exactly if there is a payload of it.
pub proof fn lemma_served_types(payloads: Seq<PayloadView>, mime: Seq<char>)
    ensures
        served(payloads).dom().contains(mime) <==> exists|i: int|
            0 <= i < payloads.len() && #[trigger] payloads[i].0 == mime,
    decreases payloads.len(),
{
    if payloads.len() > 0 {
        let head = payloads.drop_last();
        lemma_served_types(head, mime);
        if exists|i: int| 0 <= i < head.len() && #[trigger] head[i].0 == mime {
            let i = choose|i: int| 0 <= i < head.len() && #[trigger] head[i].0 == mime;
            assert(payloads[i].0 == mime);
        }
        if exists|i: int| 0 <= i < payloads.len() && #[trigger] payloads[i].0 == mime {
            let i = choose|i: int| 0 <= i < payloads.len() && #[trigger] payloads[i].0 == mime;
            if i < head.len() {
                assert(head[i].0 == mime);
            }
        }
    }
}

/// Leaving out a payload that another one of its type follows changes nothing about what is
/// served.
proof fn lemma_served_update(payloads: Seq<PayloadView>, k: int, p: PayloadView)
    requires
        types_differ(payloads),
        0 <= k < payloads.len(),
        payloads[k].0 == p.0,
    ensures
        served(payloads.update(k, p)) == served(payloads.push(p)),
        types_differ(payloads.update(k, p)),
{
    let changed = payloads.update(k, p);
    assert forall|i: int, j: int| 0 <= i < j < changed.len() implies changed[i].0
        != changed[j].0 by {
        assert(payloads[i].0 != payloads[j].0);
    }
    assert(payloads.push(p).drop_last() =~= payloads);
    let (a, b) = (served(changed), served(payloads.push(p)));
    assert forall|mime: Seq<char>| #[trigger] a.dom().contains(mime) <==> b.dom().contains(
        mime,
    ) by {
        lemma_served_types(changed, mime);
        lemma_served_types(payloads, mime);
        assert(forall|i: int|
            0 <= i < payloads.len() ==> changed[i].0 == #[trigger] payloads[i].0);
        assert(forall|i: int|
            0 <= i < payloads.len() ==> #[trigger] changed[i].0 == payloads[i].0);
        assert(changed[k].0 == p.0);
    }
    assert forall|mime: Seq<char>| #[trigger] a.dom().contains(mime) implies a[mime] == b[mime] by {
        lemma_served_types(changed, mime);
        let i = choose|i: int| 0 <= i < changed.len() && #[trigger] changed[i].0 == mime;
        lemma_served(changed, i);
        if i != k {
            assert(changed[i] == payloads[i]);
            assert(changed[i].0 != changed[k].0) by {
                if i < k {
                    assert(changed[i].0 != changed[k].0);
                } else {
                    assert(changed[k].0 != changed[i].0);
                }
            }
            lemma_served(payloads, i);
        }
    }
    assert(a =~= b);
}

impl RestoreState {
    #[verifier::type_invariant]
    spec fn unique_types(self) -> bool {
        types_differ(views(self.payloads@))
    }

    /// An entry with the given payloads, about to be offered.
    pub fn new(payloads: Vec<(String, Vec<u8>)>) -> (r: Self)
        ensures
            r@ == (RestoreView { served: served(views(payloads@)), done: false }),
    {
        let ghost all = views(payloads@);
        let mut unique: Vec<(String, Vec<u8>)> = Vec::new();
        let mut i: usize = 0;
        assert(views(unique@) =~= all.take(0));
        while i < payloads.len()
            invariant
                all == views(payloads@),
                i <= payloads@.len(),
                types_differ(views(unique@)),
                served(views(unique@)) == served(all.take(i as int)),
            decreases payloads@.len() - i,
        {
            let ghost before = views(unique@);
            let ghost p = all[i as int];
            let mut data: Vec<u8> = Vec::new();
            data.extend_from_slice(payloads[i].1.as_slice());
            let mime = payloads[i].0.clone();
            assert(data@ =~= p.1);
            let mut k: usize = 0;
            while k < unique.len() && !same_text(unique[k].0.as_str(), mime.as_str())
                invariant
                    k <= unique@.len(),
                    before == views(unique@),
                    p.0 == mime@,
                    forall|j: int| 0 <= j < k ==> #[trigger] before[j].0 != p.0,
                decreases unique@.len() - k,
            {
                assert(before[k as int].0 == unique@[k as int].0@);
                k += 1;
            }
            if k < unique.len() {
                assert(before[k as int].0 == unique@[k as int].0@);
                unique.set(k, (mime, data));
                proof {
                    assert(views(unique@) =~= before.update(k as int, p));
                    lemma_served_update(before, k as int, p);
                }
            } else {
                unique.push((mime, data));
                assert(views(unique@) =~= before.push(p));
            }
            proof {
                assert(all.take(i + 1).drop_last() =~= all.take(i as int));
                assert(before.push(p).drop_last() =~= before);
            }
            i += 1;
        }
        assert(all.take(i as int) =~= all);
        RestoreState { payloads: unique, done: false }
    }

    /// The bytes served for a MIME type.
    pub fn payload_for(&self, mime: &str) -> (r: Option<&Vec<u8>>)
        ensures
            match r {
                Some(data) => self@.served.dom().contains(mime@) && data@ == self@.served[mime@],
                None => !self@.served.dom().contains(mime@),
            },
    {
        proof {
            use_type_invariant(self);
        }
        let ghost all = views(self.payloads@);
        let mut k: usize = 0;
        while k < self.payloads.len()
            invariant
                all == views(self.payloads@),
                types_differ(all),
                k <= self.payloads@.len(),
                forall|j: int| 0 <= j < k ==> #[trigger] all[j].0 != mime@,
                self@.served == served(all),
            decreases self.payloads@.len() - k,
        {
            assert(all[k as int] == self.payloads@[k as int]@);
            if same_text(self.payloads[k].0.as_str(), mime) {
                proof {
                    lemma_served(all, k as int);
                }
                return Some(&self.payloads[k].1);
            }
            k += 1;
        }
        proof {
            lemma_served_types(all, mime@);
        }
        None
    }

    /// The MIME types that are offered: each that is served, once.
    pub fn mime_types(&self) -> (r: Vec<String>)
        ensures
            views(r@).to_set() == self@.served.dom(),
            views(r@).no_duplicates(),
    {
        proof {
            use_type_invariant(self);
        }
        let ghost all = views(self.payloads@);
        let types = mime_types_of(self.payloads.as_slice());
        proof {
            let names = views(types@);
            assert forall|i: int| 0 <= i < all.len() implies names[i] == #[trigger] all[i].0 by {}
            assert forall|mime: Seq<char>| #[trigger]
                names.to_set().contains(mime) <==> self@.served.dom().contains(mime) by {
                lemma_served_types(all, mime);
                if names.contains(mime) {
                    let i = choose|i: int| 0 <= i < names.len() && names[i] == mime;
                    assert(all[i].0 == mime);
                }
                if exists|i: int| 0 <= i < all.len() && #[trigger] all[i].0 == mime {
                    let i = choose|i: int| 0 <= i < all.len() && #[trigger] all[i].0 == mime;
                    assert(names[i] == mime);
                }
            }
            assert(names.to_set() =~= self@.served.dom());
            assert forall|i: int, j: int| 0 <= i < names.len() && 0 <= j < names.len() && i
                != j implies names[i] != names[j] by {
                assert(names[i] == all[i].0 && names[j] == all[j].0);
                if i < j {
                    assert(all[i].0 != all[j].0);
                } else {
                    assert(all[j].0 != all[i].0);
                }
            }
        }
        types
    }

    /// Tells whether the offer has ended.
    pub fn is_done(&self) -> (r: bool)
        ensures
            r == self@.done,
    {
        self.done
    }

    /// Decides what is done about an event.
    pub fn event(&mut self, event: SourceEvent) -> (r: SourceAction)
        ensures
            r@ == action_for(old(self)@.served, event),
            event matches SourceEvent::Send { mime_type } ==> {
                &&& old(self)@.served.dom().contains(mime_type@) ==> r@ == (
                SourceActionView::Write { data: old(self)@.served[mime_type@] })
                &&& !old(self)@.served.dom().contains(mime_type@) ==> r@ is Refuse
            },
            final(self)@ == (RestoreView {
                served: old(self)@.served,
                done: old(self)@.done || r@ is Stop,
            }),
    {
        match event {
            SourceEvent::Send { mime_type } => match self.payload_for(mime_type.as_str()) {
                Some(data) => {
                    let mut copy: Vec<u8> = Vec::new();
                    copy.extend_from_slice(data.as_slice());
                    assert(copy@ =~= data@);
                    SourceAction::Write { data: copy }
                },
                None => SourceAction::Refuse,
            },
            SourceEvent::Cancelled | SourceEvent::Finished => {
                proof {
                    use_type_invariant(&*self);
                }
                self.done = true;
                SourceAction::Stop
            },
        }
    }
}

/// Begins to offer an entry; there is nothing to offer of one without payloads.
pub fn restore_entry(payloads: Vec<(String, Vec<u8>)>) -> (r: Option<RestoreState>)
    ensures
        r is None <==> payloads@.len() == 0,
        r matches Some(state) ==> state@ == (RestoreView {
            served: served(views(payloads@)),
            done: false,
        }),
{
    if payloads.len() == 0 {
        None
    } else {
        Some(RestoreState::new(payloads))
    }
}

} // verus!
