//! The channels that are to be closed when the session ends.
//!
//! The requests are kept in a set, to tell whether a channel is registered
//! for closing, and in a list, in the order in which they were made.

use vstd::prelude::*;
use std::collections::BTreeSet;
use crate::hrmp::channels::key_of;
use crate::primitives::HrmpChannelId;

verus! {

/// The requests to close a channel, as mathematical values.
#[verifier::ext_equal]
pub struct CloseRequestsView {
    /// The channels that are to be closed.
    pub set: Set<HrmpChannelId>,
    /// The same channels, in the order of the asking.
    pub list: Seq<HrmpChannelId>,
}

impl CloseRequestsView {
    /// The state without any request.
    pub open spec fn empty() -> CloseRequestsView {
        CloseRequestsView { set: Set::empty(), list: Seq::empty() }
    }

    /// The list names each channel of the set, once.
    pub open spec fn inv(self) -> bool {
        &&& self.list.no_duplicates()
        &&& forall|c: HrmpChannelId| self.set.contains(c) <==> self.list.contains(c)
    }

    /// The state after the closing of the channel `id` was asked for; the
    /// state itself where it was asked for before.
    pub open spec fn request(self, id: HrmpChannelId) -> CloseRequestsView {
        if self.set.contains(id) {
            self
        } else {
            CloseRequestsView { set: self.set.insert(id), list: self.list.push(id) }
        }
    }
}

/// Asking for the closing of a channel keeps the invariant, and the channel
/// is registered afterwards.
pub proof fn lemma_request_inv(state: CloseRequestsView, id: HrmpChannelId)
    requires
        state.inv(),
    ensures
        state.request(id).inv(),
        state.request(id).set.contains(id),
        state.request(id).request(id) == state.request(id),
{
    let after = state.request(id);
    if !state.set.contains(id) {
        assert(!state.list.contains(id));
        assert forall|i: int, j: int| 0 <= i < j < after.list.len() implies after.list[i]
            != after.list[j] by {
            if j == state.list.len() {
                assert(state.list[i] == after.list[i]);
                assert(state.list.contains(state.list[i]));
            }
        }
        assert forall|c: HrmpChannelId| after.set.contains(c) <==> after.list.contains(c) by {
            if after.list.contains(c) {
                let k = choose|k: int| 0 <= k < after.list.len() && after.list[k] == c;
                if k < state.list.len() {
                    assert(state.list[k] == c);
                }
            }
            if state.list.contains(c) {
                let k = choose|k: int| 0 <= k < state.list.len() && state.list[k] == c;
                assert(after.list[k] == c);
            }
            if c == id {
                assert(after.list[after.list.len() - 1] == id);
            }
        }
    }
}

/// The requests to close a channel.
pub struct CloseRequests {
    set: BTreeSet<(u32, u32)>,
    list: Vec<HrmpChannelId>,
}

impl View for CloseRequests {
    type V = CloseRequestsView;

    closed spec fn view(&self) -> CloseRequestsView {
        CloseRequestsView {
            set: Set::new(|c: HrmpChannelId| self.set@.contains(key_of(c))),
            list: self.list@,
        }
    }
}

impl CloseRequests {
    /// The invariant of the requests holds.
    pub closed spec fn wf(&self) -> bool {
        self@.inv()
    }

    /// A well-formed state satisfies the invariant of its view.
    pub proof fn lemma_wf(&self)
        requires
            self.wf(),
        ensures
            self@.inv(),
    {
    }

    /// The state without any request.
    pub fn new() -> (requests: CloseRequests)
        ensures
            requests.wf(),
            requests@ == CloseRequestsView::empty(),
    {
        let requests = CloseRequests { set: BTreeSet::new(), list: Vec::new() };
        assert(requests@.set =~= CloseRequestsView::empty().set);
        requests
    }

    /// Whether the closing of the channel `id` was asked for.
    pub fn contains(&self, id: HrmpChannelId) -> (registered: bool)
        ensures
            registered == self@.set.contains(id),
    {
        self.set.contains(&(id.sender.0, id.recipient.0))
    }

    /// Registers the channel `id` for closing, unless it is registered.
    pub fn request(&mut self, id: HrmpChannelId)
        requires
            old(self).wf(),
        ensures
            final(self).wf(),
            final(self)@ == old(self)@.request(id),
    {
        if self.set.insert((id.sender.0, id.recipient.0)) {
            self.list.push(id);
        }
        proof {
            let want = old(self)@.request(id);
            assert(self@.set =~= want.set);
            lemma_request_inv(old(self)@, id);
        }
    }

    /// Hands out the channels registered for closing, in the order of the
    /// asking, and forgets them.
    pub fn take(&mut self) -> (list: Vec<HrmpChannelId>)
        requires
            old(self).wf(),
        ensures
            final(self).wf(),
            final(self)@ == CloseRequestsView::empty(),
            list@ == old(self)@.list,
    {
        let mut list: Vec<HrmpChannelId> = Vec::new();
        core::mem::swap(&mut list, &mut self.list);
        self.set.clear();
        assert(self@.set =~= CloseRequestsView::empty().set);
        list
    }
}

} // verus!
