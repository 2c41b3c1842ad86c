//! The pending requests to open a channel.
//!
//! A request is made by the sender, confirmed by the recipient, and turned
//! into a channel when the session ends. The requests are kept in a map and,
//! in the order in which they were made, in a list; two counters per para say
//! how many requests it has made and how many made to it it has confirmed.

use vstd::prelude::*;
use std::collections::BTreeMap;
use crate::hrmp::channels::key_of;
use crate::primitives::{Balance, HrmpChannelId, ParaId, SessionIndex};

verus! {

/// A request to open a channel.
#[derive(Clone, Copy, Debug, PartialEq, Eq, Structural)]
pub struct HrmpOpenChannelRequest {
    /// Whether the recipient has confirmed the request.
    pub confirmed: bool,
    /// The number of session ends that the request has seen.
    pub age: SessionIndex,
    /// The deposit that the sender put down.
    pub sender_deposit: Balance,
    /// The deposit that the recipient put down when it confirmed.
    pub recipient_deposit: Balance,
    /// The number of messages that may wait in the channel at once.
    pub limit_used_places: u32,
    /// The number of payload bytes that may wait in the channel at once.
    pub limit_used_bytes: u32,
    /// The largest message that may be put into the channel.
    pub limit_message_size: u32,
}

/// The number of channels in the list that lead from `sender`.
pub open spec fn requests_from(list: Seq<HrmpChannelId>, sender: ParaId) -> nat
    decreases list.len(),
{
    if list.len() == 0 {
        0
    } else {
        requests_from(list.drop_last(), sender) + if list.last().sender == sender {
            1nat
        } else {
            0nat
        }
    }
}

/// Whether `id` is a confirmed request to `recipient`, as 1 or 0.
pub open spec fn counts_to(
    requests: Map<HrmpChannelId, Option<HrmpOpenChannelRequest>>,
    id: HrmpChannelId,
    recipient: ParaId,
) -> nat {
    match requests[id] {
        Some(request) => if request.confirmed && id.recipient == recipient {
            1
        } else {
            0
        },
        None => 0,
    }
}

/// The number of channels in the list that lead to `recipient` and whose
/// request is confirmed.
pub open spec fn confirmed_to(
    list: Seq<HrmpChannelId>,
    requests: Map<HrmpChannelId, Option<HrmpOpenChannelRequest>>,
    recipient: ParaId,
) -> nat
    decreases list.len(),
{
    if list.len() == 0 {
        0
    } else {
        confirmed_to(list.drop_last(), requests, recipient) + counts_to(
            requests,
            list.last(),
            recipient,
        )
    }
}

/// The list with every occurrence of `id` taken out.
pub open spec fn without_channel(list: Seq<HrmpChannelId>, id: HrmpChannelId) -> Seq<HrmpChannelId>
    decreases list.len(),
{
    if list.len() == 0 {
        list
    } else if list.last() == id {
        without_channel(list.drop_last(), id)
    } else {
        without_channel(list.drop_last(), id).push(list.last())
    }
}

/// A list that lacks `id` is left as it is when `id` is taken out.
pub proof fn lemma_without_channel_absent(list: Seq<HrmpChannelId>, id: HrmpChannelId)
    requires
        !list.contains(id),
    ensures
        without_channel(list, id) == list,
    decreases list.len(),
{
    if list.len() > 0 {
        let front = list.drop_last();
        assert(list[list.len() - 1] != id);
        assert forall|x: HrmpChannelId| front.contains(x) implies list.contains(x) by {
            let k = choose|k: int| 0 <= k < front.len() && front[k] == x;
            assert(list[k] == x);
        }
        lemma_without_channel_absent(front, id);
        assert(front.push(list.last()) =~= list);
    }
}

/// In a list without duplicates, taking out the channel that stands at `at`
/// means removing that one entry.
pub proof fn lemma_without_channel_removes(list: Seq<HrmpChannelId>, id: HrmpChannelId, at: int)
    requires
        list.no_duplicates(),
        0 <= at < list.len(),
        list[at] == id,
    ensures
        without_channel(list, id) == list.remove(at),
    decreases list.len(),
{
    let front = list.drop_last();
    if at == list.len() - 1 {
        assert(!front.contains(id)) by {
            if front.contains(id) {
                let k = choose|k: int| 0 <= k < front.len() && front[k] == id;
                assert(list[k] == list[at]);
            }
        }
        lemma_without_channel_absent(front, id);
        assert(list.remove(at) =~= front);
    } else {
        assert(list[list.len() - 1] != list[at]);
        lemma_without_channel_removes(front, id, at);
        assert(front.remove(at).push(list.last()) =~= list.remove(at));
    }
}

/// Taking a channel out of a list without duplicates gives a list without
/// duplicates that holds what the list held but for that channel.
pub proof fn lemma_without_channel(list: Seq<HrmpChannelId>, id: HrmpChannelId)
    requires
        list.no_duplicates(),
    ensures
        without_channel(list, id).no_duplicates(),
        forall|x: HrmpChannelId|
            #![trigger without_channel(list, id).contains(x)]
            #![trigger list.contains(x)]
            without_channel(list, id).contains(x) <==> (x != id && list.contains(x)),
        !without_channel(list, id).contains(id),
    decreases list.len(),
{
    if list.contains(id) {
        let at = choose|at: int| 0 <= at < list.len() && list[at] == id;
        lemma_without_channel_removes(list, id, at);
        let rest = list.remove(at);
        assert forall|x: HrmpChannelId| rest.contains(x) <==> (x != id && list.contains(x)) by {
            if rest.contains(x) {
                let k = choose|k: int| 0 <= k < rest.len() && rest[k] == x;
                if k < at {
                    assert(list[k] == x);
                } else {
                    assert(list[k + 1] == x);
                }
            }
            if x != id && list.contains(x) {
                let k = choose|k: int| 0 <= k < list.len() && list[k] == x;
                if k < at {
                    assert(rest[k] == x);
                } else {
                    assert(rest[k - 1] == x);
                }
            }
        }
        assert forall|i: int, j: int| 0 <= i < j < rest.len() implies rest[i] != rest[j] by {
            let a = if i < at { i } else { i + 1 };
            let b = if j < at { j } else { j + 1 };
            assert(rest[i] == list[a] && rest[j] == list[b]);
        }
    } else {
        lemma_without_channel_absent(list, id);
    }
}

/// Striking an entry from the list lowers the count of its sender by one.
pub proof fn lemma_requests_from_remove(list: Seq<HrmpChannelId>, at: int, sender: ParaId)
    requires
        0 <= at < list.len(),
    ensures
        requests_from(list, sender) == requests_from(list.remove(at), sender) + if list[at].sender
            == sender {
            1nat
        } else {
            0nat
        },
    decreases list.len(),
{
    let front = list.drop_last();
    if at == list.len() - 1 {
        assert(list.remove(at) =~= front);
    } else {
        lemma_requests_from_remove(front, at, sender);
        assert(list.remove(at).drop_last() =~= front.remove(at));
        assert(list.remove(at).last() == list.last());
    }
}

/// Striking an entry from the list lowers the count of confirmed requests by
/// what the entry counted.
pub proof fn lemma_confirmed_to_remove(
    list: Seq<HrmpChannelId>,
    requests: Map<HrmpChannelId, Option<HrmpOpenChannelRequest>>,
    at: int,
    recipient: ParaId,
)
    requires
        0 <= at < list.len(),
    ensures
        confirmed_to(list, requests, recipient) == confirmed_to(
            list.remove(at),
            requests,
            recipient,
        ) + counts_to(requests, list[at], recipient),
    decreases list.len(),
{
    let front = list.drop_last();
    if at == list.len() - 1 {
        assert(list.remove(at) =~= front);
    } else {
        lemma_confirmed_to_remove(front, requests, at, recipient);
        assert(list.remove(at).drop_last() =~= front.remove(at));
        assert(list.remove(at).last() == list.last());
    }
}

/// The count of confirmed requests depends only on the requests of the
/// channels in the list.
pub proof fn lemma_confirmed_to_agree(
    list: Seq<HrmpChannelId>,
    first: Map<HrmpChannelId, Option<HrmpOpenChannelRequest>>,
    second: Map<HrmpChannelId, Option<HrmpOpenChannelRequest>>,
    recipient: ParaId,
)
    requires
        forall|i: int|
            0 <= i < list.len() ==> counts_to(first, #[trigger] list[i], recipient) == counts_to(
                second,
                list[i],
                recipient,
            ),
    ensures
        confirmed_to(list, first, recipient) == confirmed_to(list, second, recipient),
    decreases list.len(),
{
    if list.len() > 0 {
        let front = list.drop_last();
        assert forall|i: int| 0 <= i < front.len() implies counts_to(
            first,
            #[trigger] front[i],
            recipient,
        ) == counts_to(second, front[i], recipient) by {
            assert(front[i] == list[i]);
        }
        lemma_confirmed_to_agree(front, first, second, recipient);
        assert(list.last() == list[list.len() - 1]);
    }
}

/// Where no channel of the list leads from `sender`, the count is zero.
pub proof fn lemma_requests_from_none(list: Seq<HrmpChannelId>, sender: ParaId)
    requires
        forall|i: int| 0 <= i < list.len() ==> (#[trigger] list[i]).sender != sender,
    ensures
        requests_from(list, sender) == 0,
    decreases list.len(),
{
    if list.len() > 0 {
        let front = list.drop_last();
        assert forall|i: int| 0 <= i < front.len() implies (#[trigger] front[i]).sender
            != sender by {
            assert(front[i] == list[i]);
        }
        lemma_requests_from_none(front, sender);
        assert(list.last() == list[list.len() - 1]);
    }
}

/// Where no channel of the list leads to `recipient`, the count of confirmed
/// requests is zero.
pub proof fn lemma_confirmed_to_none(
    list: Seq<HrmpChannelId>,
    requests: Map<HrmpChannelId, Option<HrmpOpenChannelRequest>>,
    recipient: ParaId,
)
    requires
        forall|i: int| 0 <= i < list.len() ==> (#[trigger] list[i]).recipient != recipient,
    ensures
        confirmed_to(list, requests, recipient) == 0,
    decreases list.len(),
{
    if list.len() > 0 {
        let front = list.drop_last();
        assert forall|i: int| 0 <= i < front.len() implies (#[trigger] front[i]).recipient
            != recipient by {
            assert(front[i] == list[i]);
        }
        lemma_confirmed_to_none(front, requests, recipient);
        assert(list.last() == list[list.len() - 1]);
    }
}

/// The channels of the list that lead from `sender`.
pub open spec fn listed_from(list: Seq<HrmpChannelId>, sender: ParaId) -> Set<HrmpChannelId> {
    Set::new(|c: HrmpChannelId| list.contains(c) && c.sender == sender)
}

/// The channels of the list that lead to `recipient` and whose request is
/// confirmed.
pub open spec fn listed_confirmed_to(
    list: Seq<HrmpChannelId>,
    requests: Map<HrmpChannelId, Option<HrmpOpenChannelRequest>>,
    recipient: ParaId,
) -> Set<HrmpChannelId> {
    Set::new(|c: HrmpChannelId| list.contains(c) && counts_to(requests, c, recipient) == 1)
}

/// In a list without duplicates, the counts are the sizes of the sets of the
/// channels counted.
pub proof fn lemma_counts_are_cardinalities(
    list: Seq<HrmpChannelId>,
    requests: Map<HrmpChannelId, Option<HrmpOpenChannelRequest>>,
    para: ParaId,
)
    requires
        list.no_duplicates(),
    ensures
        listed_from(list, para).finite(),
        listed_from(list, para).len() == requests_from(list, para),
        listed_confirmed_to(list, requests, para).finite(),
        listed_confirmed_to(list, requests, para).len() == confirmed_to(list, requests, para),
    decreases list.len(),
{
    if list.len() == 0 {
        assert(listed_from(list, para) =~= Set::empty());
        assert(listed_confirmed_to(list, requests, para) =~= Set::empty());
    } else {
        let front = list.drop_last();
        let last = list.last();
        lemma_counts_are_cardinalities(front, requests, para);
        assert(!front.contains(last)) by {
            if front.contains(last) {
                let k = choose|k: int| 0 <= k < front.len() && front[k] == last;
                assert(list[k] == list[list.len() - 1]);
            }
        }
        assert forall|c: HrmpChannelId| list.contains(c) <==> (front.contains(c) || c == last) by {
            if list.contains(c) {
                let k = choose|k: int| 0 <= k < list.len() && list[k] == c;
                if k < front.len() {
                    assert(front[k] == c);
                }
            }
            if front.contains(c) {
                let k = choose|k: int| 0 <= k < front.len() && front[k] == c;
                assert(list[k] == c);
            }
            if c == last {
                assert(list[list.len() - 1] == c);
            }
        }
        if last.sender == para {
            assert(listed_from(list, para) =~= listed_from(front, para).insert(last));
        } else {
            assert(listed_from(list, para) =~= listed_from(front, para));
        }
        if counts_to(requests, last, para) == 1 {
            assert(listed_confirmed_to(list, requests, para) =~= listed_confirmed_to(
                front,
                requests,
                para,
            ).insert(last));
        } else {
            assert(listed_confirmed_to(list, requests, para) =~= listed_confirmed_to(
                front,
                requests,
                para,
            ));
        }
    }
}

/// The pending requests with their bookkeeping, as mathematical values. All
/// maps are total: a channel that nobody asked for has no request, a para
/// without requests has the counts zero.
#[verifier::ext_equal]
pub struct OpenRequestsView {
    /// The request for each channel that was asked for.
    pub requests: Map<HrmpChannelId, Option<HrmpOpenChannelRequest>>,
    /// The channels that were asked for, in the order of the asking.
    pub list: Seq<HrmpChannelId>,
    /// For each para, the number of requests that it has made.
    pub open_count: Map<ParaId, u32>,
    /// For each para, the number of requests to it that it has confirmed.
    pub accepted_count: Map<ParaId, u32>,
}

impl OpenRequestsView {
    /// The state without any request.
    pub open spec fn empty() -> OpenRequestsView {
        OpenRequestsView {
            requests: Map::total(|c: HrmpChannelId| None),
            list: Seq::empty(),
            open_count: Map::total(|p: ParaId| 0u32),
            accepted_count: Map::total(|p: ParaId| 0u32),
        }
    }

    /// All maps are total.
    pub open spec fn total(self) -> bool {
        &&& forall|c: HrmpChannelId| self.requests.dom().contains(c)
        &&& forall|p: ParaId| self.open_count.dom().contains(p)
        &&& forall|p: ParaId| self.accepted_count.dom().contains(p)
    }

    /// The list names each channel with a request, once.
    pub open spec fn list_ok(self) -> bool {
        &&& self.list.no_duplicates()
        &&& forall|c: HrmpChannelId| (#[trigger] self.requests[c]) is Some <==> self.list.contains(c)
    }

    /// The counters say how many requests each para has made and how many
    /// requests to it are confirmed.
    pub open spec fn counts_ok(self) -> bool {
        &&& forall|p: ParaId| (#[trigger] self.open_count[p]) == requests_from(self.list, p)
        &&& forall|p: ParaId|
            (#[trigger] self.accepted_count[p]) == confirmed_to(self.list, self.requests, p)
    }

    /// No request is so old that it could not age once more.
    pub open spec fn ages_ok(self) -> bool {
        forall|c: HrmpChannelId| (#[trigger] self.requests[c]) matches Some(r) ==> r.age < u32::MAX
    }

    /// The invariant of the pending requests.
    pub open spec fn inv(self) -> bool {
        &&& self.total()
        &&& self.list_ok()
        &&& self.counts_ok()
        &&& self.ages_ok()
    }

    /// The channels that `sender` has asked for and that are still pending.
    pub open spec fn requests_made_by(self, sender: ParaId) -> Set<HrmpChannelId> {
        Set::new(|c: HrmpChannelId| self.requests[c] is Some && c.sender == sender)
    }

    /// The channels to `recipient` whose pending request it has confirmed.
    pub open spec fn requests_confirmed_by(self, recipient: ParaId) -> Set<HrmpChannelId> {
        Set::new(
            |c: HrmpChannelId|
                c.recipient == recipient && (self.requests[c] matches Some(r) && r.confirmed),
        )
    }

    /// The state after a fresh request for the channel `id` was put in.
    pub open spec fn insert(self, id: HrmpChannelId, request: HrmpOpenChannelRequest) -> OpenRequestsView
        recommends
            self.requests[id] is None,
            !request.confirmed,
    {
        OpenRequestsView {
            requests: self.requests.insert(id, Some(request)),
            list: self.list.push(id),
            open_count: self.open_count.insert(
                id.sender,
                (self.open_count[id.sender] + 1) as u32,
            ),
            accepted_count: self.accepted_count,
        }
    }

    /// The state after the recipient confirmed the request for the channel
    /// `id` and put down `recipient_deposit`.
    pub open spec fn confirm(self, id: HrmpChannelId, recipient_deposit: Balance) -> OpenRequestsView
        recommends
            self.requests[id] matches Some(r) && !r.confirmed,
    {
        let request = self.requests[id]->0;
        OpenRequestsView {
            requests: self.requests.insert(
                id,
                Some(HrmpOpenChannelRequest { confirmed: true, recipient_deposit, ..request }),
            ),
            accepted_count: self.accepted_count.insert(
                id.recipient,
                (self.accepted_count[id.recipient] + 1) as u32,
            ),
            ..self
        }
    }

    /// The state after the request for the channel `id` saw one more session
    /// end.
    pub open spec fn age(self, id: HrmpChannelId) -> OpenRequestsView
        recommends
            self.requests[id] is Some,
    {
        let request = self.requests[id]->0;
        OpenRequestsView {
            requests: self.requests.insert(
                id,
                Some(HrmpOpenChannelRequest { age: (request.age + 1) as u32, ..request }),
            ),
            ..self
        }
    }

    /// The state after the request for the channel `id` was removed, or the
    /// state itself where there is no such request.
    pub open spec fn remove(self, id: HrmpChannelId) -> OpenRequestsView {
        match self.requests[id] {
            Some(request) => OpenRequestsView {
                requests: self.requests.insert(id, None),
                list: without_channel(self.list, id),
                open_count: self.open_count.insert(
                    id.sender,
                    (self.open_count[id.sender] - 1) as u32,
                ),
                accepted_count: if request.confirmed {
                    self.accepted_count.insert(
                        id.recipient,
                        (self.accepted_count[id.recipient] - 1) as u32,
                    )
                } else {
                    self.accepted_count
                },
            },
            None => self,
        }
    }
}

/// The counter of a para is the number of pending requests that the para
/// made, and its counter of confirmations is the number of pending requests
/// made to it that are confirmed.
pub proof fn lemma_counts_match_requests(state: OpenRequestsView, para: ParaId)
    requires
        state.inv(),
    ensures
        state.requests_made_by(para).finite(),
        state.open_count[para] == state.requests_made_by(para).len(),
        state.requests_confirmed_by(para).finite(),
        state.accepted_count[para] == state.requests_confirmed_by(para).len(),
{
    lemma_counts_are_cardinalities(state.list, state.requests, para);
    assert(state.requests_made_by(para) =~= listed_from(state.list, para)) by {
        assert forall|c: HrmpChannelId|
            state.requests_made_by(para).contains(c) <==> listed_from(state.list, para).contains(
                c,
            ) by {
            assert(state.requests[c] is Some <==> state.list.contains(c));
        }
    }
    assert(state.requests_confirmed_by(para) =~= listed_confirmed_to(
        state.list,
        state.requests,
        para,
    )) by {
        assert forall|c: HrmpChannelId|
            state.requests_confirmed_by(para).contains(c) <==> listed_confirmed_to(
                state.list,
                state.requests,
                para,
            ).contains(c) by {
            assert(state.requests[c] is Some <==> state.list.contains(c));
        }
    }
    assert(state.open_count[para] == requests_from(state.list, para));
    assert(state.accepted_count[para] == confirmed_to(state.list, state.requests, para));
}

/// Putting in an unconfirmed request for a channel without request keeps the
/// invariant, where the count of the sender can still grow.
pub proof fn lemma_insert_inv(state: OpenRequestsView, id: HrmpChannelId, request: HrmpOpenChannelRequest)
    requires
        state.inv(),
        state.requests[id] is None,
        !request.confirmed,
        request.age < u32::MAX,
        state.open_count[id.sender] < u32::MAX,
    ensures
        state.insert(id, request).inv(),
{
    let after = state.insert(id, request);
    assert(!state.list.contains(id));
    assert(after.list.drop_last() =~= state.list);
    assert(after.list.no_duplicates()) by {
        assert forall|i: int, j: int| 0 <= i < j < after.list.len() implies after.list[i]
            != after.list[j] by {
            if j == state.list.len() {
                assert(state.list[i] == after.list[i]);
                assert(state.list.contains(state.list[i]));
            }
        }
    }
    assert forall|c: HrmpChannelId|
        (#[trigger] after.requests[c]) is Some <==> after.list.contains(c) by {
        assert(state.requests[c] is Some <==> state.list.contains(c));
        if after.list.contains(c) {
            let k = choose|k: int| 0 <= k < after.list.len() && after.list[k] == c;
            if k < state.list.len() {
                assert(state.list[k] == c);
            }
        }
        if state.list.contains(c) {
            let k = choose|k: int| 0 <= k < state.list.len() && state.list[k] == c;
            assert(after.list[k] == c);
        }
        if c == id {
            assert(after.list[after.list.len() - 1] == id);
        }
    }
    assert forall|p: ParaId| (#[trigger] after.open_count[p]) == requests_from(after.list, p) by {
        assert(state.open_count[p] == requests_from(state.list, p));
    }
    assert forall|p: ParaId|
        (#[trigger] after.accepted_count[p]) == confirmed_to(after.list, after.requests, p) by {
        assert(state.accepted_count[p] == confirmed_to(state.list, state.requests, p));
        assert forall|i: int| 0 <= i < state.list.len() implies counts_to(
            state.requests,
            #[trigger] state.list[i],
            p,
        ) == counts_to(after.requests, state.list[i], p) by {
            assert(state.list.contains(state.list[i]));
        }
        lemma_confirmed_to_agree(state.list, state.requests, after.requests, p);
    }
    assert forall|c: HrmpChannelId|
        ((#[trigger] after.requests[c]) matches Some(r) ==> r.age < u32::MAX) by {
        if c != id {
            assert(after.requests[c] == state.requests[c]);
        }
    }
}

/// Confirming an unconfirmed request keeps the invariant, where the count of
/// the recipient can still grow.
pub proof fn lemma_confirm_inv(state: OpenRequestsView, id: HrmpChannelId, recipient_deposit: Balance)
    requires
        state.inv(),
        state.requests[id] matches Some(r) && !r.confirmed,
        state.accepted_count[id.recipient] < u32::MAX,
    ensures
        state.confirm(id, recipient_deposit).inv(),
{
    let after = state.confirm(id, recipient_deposit);
    assert(state.list.contains(id));
    let at = choose|at: int| 0 <= at < state.list.len() && state.list[at] == id;
    let rest = state.list.remove(at);
    lemma_without_channel_removes(state.list, id, at);
    lemma_without_channel(state.list, id);
    assert forall|c: HrmpChannelId|
        (#[trigger] after.requests[c]) is Some <==> after.list.contains(c) by {
        assert(state.requests[c] is Some <==> state.list.contains(c));
    }
    assert forall|p: ParaId| (#[trigger] after.open_count[p]) == requests_from(after.list, p) by {
        assert(state.open_count[p] == requests_from(state.list, p));
    }
    assert forall|p: ParaId|
        (#[trigger] after.accepted_count[p]) == confirmed_to(after.list, after.requests, p) by {
        assert(state.accepted_count[p] == confirmed_to(state.list, state.requests, p));
        lemma_confirmed_to_remove(state.list, state.requests, at, p);
        lemma_confirmed_to_remove(state.list, after.requests, at, p);
        assert forall|i: int| 0 <= i < rest.len() implies counts_to(
            state.requests,
            #[trigger] rest[i],
            p,
        ) == counts_to(after.requests, rest[i], p) by {
            assert(rest.contains(rest[i]));
        }
        lemma_confirmed_to_agree(rest, state.requests, after.requests, p);
    }
    assert forall|c: HrmpChannelId|
        ((#[trigger] after.requests[c]) matches Some(r) ==> r.age < u32::MAX) by {
        if c != id {
            assert(after.requests[c] == state.requests[c]);
        } else {
            assert(state.requests[id]->0.age < u32::MAX);
        }
    }
}

/// Ageing a request that can still age keeps the invariant.
pub proof fn lemma_age_inv(state: OpenRequestsView, id: HrmpChannelId)
    requires
        state.inv(),
        state.requests[id] matches Some(r) && r.age + 1 < u32::MAX,
    ensures
        state.age(id).inv(),
{
    let after = state.age(id);
    assert forall|c: HrmpChannelId|
        (#[trigger] after.requests[c]) is Some <==> after.list.contains(c) by {
        assert(state.requests[c] is Some <==> state.list.contains(c));
    }
    assert forall|p: ParaId| (#[trigger] after.open_count[p]) == requests_from(after.list, p) by {
        assert(state.open_count[p] == requests_from(state.list, p));
    }
    assert forall|p: ParaId|
        (#[trigger] after.accepted_count[p]) == confirmed_to(after.list, after.requests, p) by {
        assert(state.accepted_count[p] == confirmed_to(state.list, state.requests, p));
        lemma_confirmed_to_agree(state.list, state.requests, after.requests, p);
    }
    assert forall|c: HrmpChannelId|
        ((#[trigger] after.requests[c]) matches Some(r) ==> r.age < u32::MAX) by {
        if c != id {
            assert(after.requests[c] == state.requests[c]);
        }
    }
}

/// Removing a request keeps the invariant and leaves the channel without
/// request.
pub proof fn lemma_remove_inv(state: OpenRequestsView, id: HrmpChannelId)
    requires
        state.inv(),
    ensures
        state.remove(id).inv(),
        state.remove(id).requests[id] is None,
{
    let after = state.remove(id);
    if state.requests[id] is Some {
        assert(state.list.contains(id));
        let at = choose|at: int| 0 <= at < state.list.len() && state.list[at] == id;
        let rest = state.list.remove(at);
        lemma_without_channel_removes(state.list, id, at);
        lemma_without_channel(state.list, id);
        assert forall|c: HrmpChannelId|
            (#[trigger] after.requests[c]) is Some <==> after.list.contains(c) by {
            assert(state.requests[c] is Some <==> state.list.contains(c));
        }
        assert forall|p: ParaId| (#[trigger] after.open_count[p]) == requests_from(
            after.list,
            p,
        ) by {
            assert(state.open_count[p] == requests_from(state.list, p));
            lemma_requests_from_remove(state.list, at, p);
        }
        assert forall|p: ParaId|
            (#[trigger] after.accepted_count[p]) == confirmed_to(after.list, after.requests, p) by {
            assert(state.accepted_count[p] == confirmed_to(state.list, state.requests, p));
            lemma_confirmed_to_remove(state.list, state.requests, at, p);
            assert forall|i: int| 0 <= i < rest.len() implies counts_to(
                state.requests,
                #[trigger] rest[i],
                p,
            ) == counts_to(after.requests, rest[i], p) by {
                assert(rest.contains(rest[i]));
            }
            lemma_confirmed_to_agree(rest, state.requests, after.requests, p);
        }
        assert forall|c: HrmpChannelId|
            ((#[trigger] after.requests[c]) matches Some(r) ==> r.age < u32::MAX) by {
            if c != id {
                assert(after.requests[c] == state.requests[c]);
            }
        }
    }
}

/// The pending requests to open a channel, with their bookkeeping.
pub struct OpenRequests {
    requests: BTreeMap<(u32, u32), HrmpOpenChannelRequest>,
    list: Vec<HrmpChannelId>,
    open_count: BTreeMap<u32, u32>,
    accepted_count: BTreeMap<u32, u32>,
}

impl View for OpenRequests {
    type V = OpenRequestsView;

    closed spec fn view(&self) -> OpenRequestsView {
        OpenRequestsView {
            requests: Map::total(
                |c: HrmpChannelId|
                    if self.requests@.contains_key(key_of(c)) {
                        Some(self.requests@[key_of(c)])
                    } else {
                        None
                    },
            ),
            list: self.list@,
            open_count: Map::total(
                |p: ParaId|
                    if self.open_count@.contains_key(p.0) {
                        self.open_count@[p.0]
                    } else {
                        0u32
                    },
            ),
            accepted_count: Map::total(
                |p: ParaId|
                    if self.accepted_count@.contains_key(p.0) {
                        self.accepted_count@[p.0]
                    } else {
                        0u32
                    },
            ),
        }
    }
}

impl OpenRequests {
    /// The invariant of the pending requests holds.
    pub closed spec fn wf(&self) -> bool {
        self@.inv()
    }

    /// A well-formed state satisfies the invariant of its view.
    pub proof fn lemma_wf(&self)
        requires
            self.wf(),
        ensures
            self@.inv(),
    {
    }

    /// The state without any request.
    pub fn new() -> (requests: OpenRequests)
        ensures
            requests.wf(),
            requests@ == OpenRequestsView::empty(),
    {
        let requests = OpenRequests {
            requests: BTreeMap::new(),
            list: Vec::new(),
            open_count: BTreeMap::new(),
            accepted_count: BTreeMap::new(),
        };
        assert(requests@.requests =~~= OpenRequestsView::empty().requests);
        assert(requests@.open_count =~~= OpenRequestsView::empty().open_count);
        assert(requests@.accepted_count =~~= OpenRequestsView::empty().accepted_count);
        requests
    }

    /// The request for the channel `id`, if there is one.
    pub fn request(&self, id: HrmpChannelId) -> (request: Option<HrmpOpenChannelRequest>)
        ensures
            request == self@.requests[id],
    {
        match self.requests.get(&(id.sender.0, id.recipient.0)) {
            Some(r) => Some(*r),
            None => None,
        }
    }

    /// The number of requests that `para` has made.
    pub fn open_count(&self, para: ParaId) -> (count: u32)
        ensures
            count == self@.open_count[para],
    {
        match self.open_count.get(&para.0) {
            Some(c) => *c,
            None => 0,
        }
    }

    /// The number of requests to `para` that it has confirmed.
    pub fn accepted_count(&self, para: ParaId) -> (count: u32)
        ensures
            count == self@.accepted_count[para],
    {
        match self.accepted_count.get(&para.0) {
            Some(c) => *c,
            None => 0,
        }
    }

    /// The channels that were asked for, in the order of the asking.
    pub fn list(&self) -> (list: &Vec<HrmpChannelId>)
        ensures
            list@ == self@.list,
    {
        &self.list
    }

    /// Puts in a fresh request for the channel `id`.
    pub fn insert(&mut self, id: HrmpChannelId, request: HrmpOpenChannelRequest)
        requires
            old(self).wf(),
            old(self)@.requests[id] is None,
            !request.confirmed,
            request.age < u32::MAX,
            old(self)@.open_count[id.sender] < u32::MAX,
        ensures
            final(self).wf(),
            final(self)@ == old(self)@.insert(id, request),
    {
        let count = self.open_count(id.sender);
        self.requests.insert((id.sender.0, id.recipient.0), request);
        self.list.push(id);
        self.open_count.insert(id.sender.0, count + 1);
        proof {
            let want = old(self)@.insert(id, request);
            assert(self@.requests =~~= want.requests);
            assert(self@.open_count =~~= want.open_count);
            assert(self@.accepted_count =~~= want.accepted_count);
            lemma_insert_inv(old(self)@, id, request);
        }
    }

    /// Marks the request for the channel `id` as confirmed and records the
    /// deposit of the recipient.
    pub fn confirm(&mut self, id: HrmpChannelId, recipient_deposit: Balance)
        requires
            old(self).wf(),
            old(self)@.requests[id] matches Some(r) && !r.confirmed,
            old(self)@.accepted_count[id.recipient] < u32::MAX,
        ensures
            final(self).wf(),
            final(self)@ == old(self)@.confirm(id, recipient_deposit),
    {
        let count = self.accepted_count(id.recipient);
        match self.requests.remove(&(id.sender.0, id.recipient.0)) {
            Some(mut request) => {
                request.confirmed = true;
                request.recipient_deposit = recipient_deposit;
                self.requests.insert((id.sender.0, id.recipient.0), request);
                self.accepted_count.insert(id.recipient.0, count + 1);
            },
            None => {},
        }
        proof {
            let want = old(self)@.confirm(id, recipient_deposit);
            assert(self@.requests =~~= want.requests);
            assert(self@.open_count =~~= want.open_count);
            assert(self@.accepted_count =~~= want.accepted_count);
            lemma_confirm_inv(old(self)@, id, recipient_deposit);
        }
    }

    /// Lets the request for the channel `id` see one more session end.
    pub fn age(&mut self, id: HrmpChannelId)
        requires
            old(self).wf(),
            old(self)@.requests[id] matches Some(r) && r.age + 1 < u32::MAX,
        ensures
            final(self).wf(),
            final(self)@ == old(self)@.age(id),
    {
        match self.requests.remove(&(id.sender.0, id.recipient.0)) {
            Some(mut request) => {
                request.age = request.age + 1;
                self.requests.insert((id.sender.0, id.recipient.0), request);
            },
            None => {},
        }
        proof {
            let want = old(self)@.age(id);
            assert(self@.requests =~~= want.requests);
            assert(self@.open_count =~~= want.open_count);
            assert(self@.accepted_count =~~= want.accepted_count);
            lemma_age_inv(old(self)@, id);
        }
    }

    /// Removes the request that stands at `at` in the list.
    pub fn remove_at(&mut self, at: usize)
        requires
            old(self).wf(),
            at < old(self)@.list.len(),
        ensures
            final(self).wf(),
            final(self)@ == old(self)@.remove(old(self)@.list[at as int]),
            final(self)@.list == old(self)@.list.remove(at as int),
    {
        let id = self.list[at];
        let ghost before = self@;
        proof {
            assert(before.list.contains(id));
            assert(before.requests[id] is Some);
            lemma_without_channel_removes(before.list, id, at as int);
            lemma_requests_from_remove(before.list, at as int, id.sender);
            lemma_confirmed_to_remove(before.list, before.requests, at as int, id.recipient);
            assert(before.open_count[id.sender] == requests_from(before.list, id.sender));
            assert(before.accepted_count[id.recipient] == confirmed_to(
                before.list,
                before.requests,
                id.recipient,
            ));
        }
        let made = self.open_count(id.sender);
        let accepted = self.accepted_count(id.recipient);
        match self.requests.remove(&(id.sender.0, id.recipient.0)) {
            Some(request) => {
                self.list.remove(at);
                self.open_count.insert(id.sender.0, made - 1);
                if request.confirmed {
                    self.accepted_count.insert(id.recipient.0, accepted - 1);
                }
            },
            None => {},
        }
        proof {
            let want = before.remove(id);
            assert(self@.requests =~~= want.requests);
            assert(self@.open_count =~~= want.open_count);
            assert(self@.accepted_count =~~= want.accepted_count);
            lemma_remove_inv(before, id);
        }
    }
}

} // verus!
