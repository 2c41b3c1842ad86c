//! Horizontal message passing: from one para to another, by way of the relay
//! chain, which stores the messages until the recipient has taken note.
//!
//! A channel is asked for by its sender, confirmed by its recipient and
//! opened when the session ends; it is closed when the session ends after
//! one of its ends asked for that. While it is open the sender puts
//! messages into it, within the limits agreed, and the recipient
//! acknowledges them by moving its watermark.

pub mod channels;
pub mod closing;
pub mod inbox;
pub mod requests;

use vstd::prelude::*;
use crate::configuration::HostConfiguration;
use crate::error::Error;
use crate::hrmp::channels::{Channels, ChannelsView, ChannelTerms, HrmpChannel};
use crate::hrmp::closing::{CloseRequests, CloseRequestsView};
use crate::hrmp::inbox::{not_after, Inbox, InboxView};
use crate::hrmp::requests::{HrmpOpenChannelRequest, OpenRequests, OpenRequestsView};
use crate::primitives::{Balance, BlockNumber, HrmpChannelId, ParaId, SessionIndex};

verus! {

/// The state of horizontal message passing, as mathematical values.
#[verifier::ext_equal]
pub struct HrmpView {
    /// The pending requests to open a channel.
    pub open: OpenRequestsView,
    /// The requests to close a channel.
    pub closing: CloseRequestsView,
    /// The open channels with their contents and indexes.
    pub channels: ChannelsView,
    /// The watermarks and digests of the recipients.
    pub inbox: InboxView,
}

/// The limits that the sender of a channel asks for.
#[derive(Clone, Copy, Debug, PartialEq, Eq, Structural)]
pub struct ProposedLimits {
    /// The number of messages that may wait in the channel at once.
    pub limit_used_places: u32,
    /// The number of payload bytes that may wait in the channel at once.
    pub limit_used_bytes: u32,
    /// The largest message that may be put into the channel.
    pub limit_message_size: u32,
}

/// The request that a sender makes with `limits` and `sender_deposit`: not
/// confirmed, and of age zero.
pub open spec fn fresh_request(limits: ProposedLimits, sender_deposit: Balance) -> HrmpOpenChannelRequest {
    HrmpOpenChannelRequest {
        confirmed: false,
        age: 0,
        sender_deposit,
        recipient_deposit: 0,
        limit_used_places: limits.limit_used_places,
        limit_used_bytes: limits.limit_used_bytes,
        limit_message_size: limits.limit_message_size,
    }
}

/// The terms of the channel that a request turns into.
pub open spec fn terms_of(request: HrmpOpenChannelRequest) -> ChannelTerms {
    ChannelTerms {
        sender_deposit: request.sender_deposit,
        recipient_deposit: request.recipient_deposit,
        limit_used_places: request.limit_used_places,
        limit_used_bytes: request.limit_used_bytes,
        limit_message_size: request.limit_message_size,
    }
}

/// The channel from `sender` to `recipient`.
pub open spec fn channel_id(sender: ParaId, recipient: ParaId) -> HrmpChannelId {
    HrmpChannelId { sender, recipient }
}

impl HrmpView {
    /// The state without any channel, request or activity.
    pub open spec fn empty() -> HrmpView {
        HrmpView {
            open: OpenRequestsView::empty(),
            closing: CloseRequestsView::empty(),
            channels: ChannelsView::empty(),
            inbox: InboxView::empty(),
        }
    }

    /// No channel is both open and asked for.
    pub open spec fn requests_are_new(self) -> bool {
        forall|c: HrmpChannelId|
            (#[trigger] self.open.requests[c]) is Some ==> self.channels.channels[c] is None
    }

    /// The invariant of horizontal message passing: that of each part, and no
    /// channel is both open and asked for.
    pub open spec fn inv(self) -> bool {
        &&& self.open.inv()
        &&& self.closing.inv()
        &&& self.channels.inv()
        &&& self.inbox.inv()
        &&& self.requests_are_new()
    }

    /// Whether the channel `id` may be asked for with `limits`: it is neither
    /// open nor asked for, its sender has fewer requests pending than a para
    /// may have outbound channels, and the limits are within those of the
    /// configuration.
    pub open spec fn open_request_allowed(
        self,
        config: HostConfiguration,
        id: HrmpChannelId,
        limits: ProposedLimits,
    ) -> bool {
        &&& self.channels.channels[id] is None
        &&& self.open.requests[id] is None
        &&& self.open.open_count[id.sender] < config.hrmp_max_parachain_outbound_channels
        &&& limits.limit_used_places <= config.hrmp_channel_max_places
        &&& limits.limit_used_bytes <= config.hrmp_channel_max_bytes
        &&& limits.limit_message_size <= config.hrmp_channel_max_message_size
    }

    /// The state after the sender asked for the channel `id`.
    pub open spec fn init_open_channel(
        self,
        id: HrmpChannelId,
        limits: ProposedLimits,
        sender_deposit: Balance,
    ) -> HrmpView {
        HrmpView { open: self.open.insert(id, fresh_request(limits, sender_deposit)), ..self }
    }

    /// Whether the recipient may confirm the request for the channel `id`:
    /// there is such a request, it is not confirmed yet, and the recipient
    /// has confirmed fewer requests than a para may have inbound channels.
    pub open spec fn accept_allowed(self, config: HostConfiguration, id: HrmpChannelId) -> bool {
        &&& self.open.requests[id] matches Some(request) && !request.confirmed
        &&& self.open.accepted_count[id.recipient] < config.hrmp_max_parachain_inbound_channels
    }

    /// The state after the recipient confirmed the request for the channel
    /// `id` with `recipient_deposit`.
    pub open spec fn accept_open_channel(self, id: HrmpChannelId, recipient_deposit: Balance) -> HrmpView {
        HrmpView { open: self.open.confirm(id, recipient_deposit), ..self }
    }

    /// The state after `origin` asked for the closing of the channel `id`.
    /// Only the two ends of a channel can ask for that.
    pub open spec fn close_channel(self, origin: ParaId, id: HrmpChannelId) -> HrmpView {
        if origin == id.sender || origin == id.recipient {
            HrmpView { closing: self.closing.request(id), ..self }
        } else {
            self
        }
    }

    /// What the end of a session does to the request for the channel `id`,
    /// where requests live for `ttl` sessions: the request ages by one
    /// session; where it has reached `ttl` it is dropped; else it is turned
    /// into a channel where it is confirmed, and kept where it is not.
    pub open spec fn settle_request(self, id: HrmpChannelId, ttl: SessionIndex) -> HrmpView {
        match self.open.requests[id] {
            Some(request) => if request.age + 1 >= ttl {
                HrmpView { open: self.open.remove(id), ..self }
            } else if request.confirmed {
                HrmpView {
                    open: self.open.remove(id),
                    channels: self.channels.open(id, terms_of(request)),
                    ..self
                }
            } else {
                HrmpView { open: self.open.age(id), ..self }
            },
            None => self,
        }
    }

    /// The state after the requests for the channels `ids` were settled, one
    /// after the other.
    pub open spec fn settle_requests(self, ids: Seq<HrmpChannelId>, ttl: SessionIndex) -> HrmpView
        decreases ids.len(),
    {
        if ids.len() == 0 {
            self
        } else {
            self.settle_requests(ids.drop_last(), ttl).settle_request(ids.last(), ttl)
        }
    }

    /// The state after the channels `ids` were closed, one after the other.
    pub open spec fn close_channels(self, ids: Seq<HrmpChannelId>) -> HrmpView
        decreases ids.len(),
    {
        if ids.len() == 0 {
            self
        } else {
            let before = self.close_channels(ids.drop_last());
            HrmpView { channels: before.channels.close(ids.last()), ..before }
        }
    }

    /// The state after a session ended, where requests live for `ttl`
    /// sessions: first every pending request is settled, in the order of the
    /// asking, then every channel registered for closing is closed.
    pub open spec fn on_session_end(self, ttl: SessionIndex) -> HrmpView {
        let settled = self.settle_requests(self.open.list, ttl);
        HrmpView {
            closing: CloseRequestsView::empty(),
            ..settled.close_channels(settled.closing.list)
        }
    }

    /// The state after the closing of the channels from each of `senders` to
    /// `para` was asked for.
    pub open spec fn close_ingress(self, senders: Seq<ParaId>, para: ParaId) -> HrmpView
        decreases senders.len(),
    {
        if senders.len() == 0 {
            self
        } else {
            let before = self.close_ingress(senders.drop_last(), para);
            HrmpView {
                closing: before.closing.request(channel_id(senders.last(), para)),
                ..before
            }
        }
    }

    /// The state after the closing of the channels from `para` to each of
    /// `recipients` was asked for.
    pub open spec fn close_egress(self, recipients: Seq<ParaId>, para: ParaId) -> HrmpView
        decreases recipients.len(),
    {
        if recipients.len() == 0 {
            self
        } else {
            let before = self.close_egress(recipients.drop_last(), para);
            HrmpView {
                closing: before.closing.request(channel_id(para, recipients.last())),
                ..before
            }
        }
    }

    /// The state after those of the requests for the channels `ids` were
    /// dropped that `para` made or that were made to it.
    pub open spec fn drop_requests(self, ids: Seq<HrmpChannelId>, para: ParaId) -> HrmpView
        decreases ids.len(),
    {
        if ids.len() == 0 {
            self
        } else {
            let before = self.drop_requests(ids.drop_last(), para);
            if ids.last().sender == para || ids.last().recipient == para {
                HrmpView { open: before.open.remove(ids.last()), ..before }
            } else {
                before
            }
        }
    }

    /// The state after `para` left: the closing of every channel that leads
    /// to it or from it is asked for, the requests that it made or that were
    /// made to it are dropped, and its watermark and digest are removed.
    pub open spec fn remove_para(self, para: ParaId) -> HrmpView {
        let closing = self.close_ingress(self.channels.ingress[para], para).close_egress(
            self.channels.egress[para],
            para,
        );
        let dropped = closing.drop_requests(closing.open.list, para);
        HrmpView { inbox: dropped.inbox.remove_para(para), ..dropped }
    }

    /// Whether `sender` may send `data` to `recipient`.
    pub open spec fn message_allowed(self, sender: ParaId, recipient: ParaId, data: Seq<u8>) -> bool {
        self.channels.message_allowed(channel_id(sender, recipient), data)
    }

    /// The state after `sender` sent `data` to `recipient` in block `now`:
    /// the message waits in the channel, and the digest of the recipient
    /// names the sender for that block.
    pub open spec fn send(self, sender: ParaId, recipient: ParaId, data: Seq<u8>, now: BlockNumber) -> HrmpView {
        HrmpView {
            channels: self.channels.send(channel_id(sender, recipient), data, now),
            inbox: self.inbox.note(recipient, sender, now),
            ..self
        }
    }

    /// The state after the channels from each of `senders` to `recipient`
    /// were pruned up to `watermark`.
    pub open spec fn prune_channels(self, senders: Seq<ParaId>, recipient: ParaId, watermark: BlockNumber) -> HrmpView
        decreases senders.len(),
    {
        if senders.len() == 0 {
            self
        } else {
            let before = self.prune_channels(senders.drop_last(), recipient, watermark);
            HrmpView {
                channels: before.channels.prune(channel_id(senders.last(), recipient), watermark),
                ..before
            }
        }
    }

    /// Whether `recipient` may move its watermark to `watermark` in block
    /// `now`.
    pub open spec fn watermark_allowed(self, recipient: ParaId, now: BlockNumber, watermark: BlockNumber) -> bool {
        self.inbox.watermark_allowed(recipient, now, watermark)
    }

    /// The state after `recipient` moved its watermark to `watermark`: each
    /// channel that leads to it is pruned up to there, and so is its digest.
    pub open spec fn advance_watermark(self, recipient: ParaId, watermark: BlockNumber) -> HrmpView {
        let pruned = self.prune_channels(self.channels.ingress[recipient], recipient, watermark);
        HrmpView { inbox: pruned.inbox.advance(recipient, watermark), ..pruned }
    }
}

/// Settling a request keeps the invariant and touches neither the requests
/// to close nor the watermarks and digests.
pub proof fn lemma_settle_request_inv(state: HrmpView, id: HrmpChannelId, ttl: SessionIndex)
    requires
        state.inv(),
    ensures
        state.settle_request(id, ttl).inv(),
        state.settle_request(id, ttl).closing == state.closing,
        state.settle_request(id, ttl).inbox == state.inbox,
        forall|c: HrmpChannelId|
            (#[trigger] state.settle_request(id, ttl).open.requests[c]) is Some
                ==> state.open.requests[c] is Some,
        forall|c: HrmpChannelId|
            (#[trigger] state.settle_request(id, ttl).channels.channels[c]) is Some ==> (
            state.channels.channels[c] is Some || state.open.requests[c] is Some),
{
    let after = state.settle_request(id, ttl);
    match state.open.requests[id] {
        Some(request) => {
            if request.age + 1 >= ttl {
                crate::hrmp::requests::lemma_remove_inv(state.open, id);
                assert forall|c: HrmpChannelId|
                    (#[trigger] after.open.requests[c]) is Some implies after.channels.channels[c] is None by {
                    assert(state.open.requests[c] is Some);
                }
            } else if request.confirmed {
                crate::hrmp::requests::lemma_remove_inv(state.open, id);
                crate::hrmp::channels::lemma_open_inv(state.channels, id, terms_of(request));
                assert forall|c: HrmpChannelId|
                    (#[trigger] after.open.requests[c]) is Some implies after.channels.channels[c] is None by {
                    assert(state.open.requests[c] is Some);
                }
            } else {
                crate::hrmp::requests::lemma_age_inv(state.open, id);
                assert forall|c: HrmpChannelId|
                    (#[trigger] after.open.requests[c]) is Some implies after.channels.channels[c] is None by {
                    assert(state.open.requests[c] is Some);
                }
            }
        },
        None => {},
    }
}

/// Settling requests keeps the invariant and touches neither the requests to
/// close nor the watermarks and digests.
pub proof fn lemma_settle_requests_inv(state: HrmpView, ids: Seq<HrmpChannelId>, ttl: SessionIndex)
    requires
        state.inv(),
    ensures
        state.settle_requests(ids, ttl).inv(),
        state.settle_requests(ids, ttl).closing == state.closing,
        state.settle_requests(ids, ttl).inbox == state.inbox,
        forall|c: HrmpChannelId|
            (#[trigger] state.settle_requests(ids, ttl).open.requests[c]) is Some
                ==> state.open.requests[c] is Some,
        forall|c: HrmpChannelId|
            (#[trigger] state.settle_requests(ids, ttl).channels.channels[c]) is Some ==> (
            state.channels.channels[c] is Some || state.open.requests[c] is Some),
    decreases ids.len(),
{
    if ids.len() > 0 {
        let before = state.settle_requests(ids.drop_last(), ttl);
        let after = state.settle_requests(ids, ttl);
        lemma_settle_requests_inv(state, ids.drop_last(), ttl);
        lemma_settle_request_inv(before, ids.last(), ttl);
        assert forall|c: HrmpChannelId| (#[trigger] after.open.requests[c]) is Some
            implies state.open.requests[c] is Some by {
            assert(before.open.requests[c] is Some);
        }
        assert forall|c: HrmpChannelId| (#[trigger] after.channels.channels[c]) is Some implies (
        state.channels.channels[c] is Some || state.open.requests[c] is Some) by {
            if before.channels.channels[c] is Some {
            } else {
                assert(before.open.requests[c] is Some);
            }
        }
    }
}

/// Closing channels keeps the invariant, leaves each of them closed, and
/// touches nothing but the channels.
pub proof fn lemma_close_channels_inv(state: HrmpView, ids: Seq<HrmpChannelId>)
    requires
        state.inv(),
    ensures
        state.close_channels(ids).inv(),
        state.close_channels(ids).open == state.open,
        state.close_channels(ids).closing == state.closing,
        state.close_channels(ids).inbox == state.inbox,
        forall|c: HrmpChannelId|
            ids.contains(c) ==> (#[trigger] state.close_channels(ids).channels.channels[c]) is None,
        forall|c: HrmpChannelId|
            state.channels.channels[c] is None ==> (#[trigger] state.close_channels(
                ids,
            ).channels.channels[c]) is None,
    decreases ids.len(),
{
    if ids.len() > 0 {
        let front = ids.drop_last();
        let before = state.close_channels(front);
        let after = state.close_channels(ids);
        lemma_close_channels_inv(state, front);
        crate::hrmp::channels::lemma_close_inv(before.channels, ids.last());
        assert forall|c: HrmpChannelId|
            (#[trigger] after.open.requests[c]) is Some implies after.channels.channels[c] is None by {
            assert(before.open.requests[c] is Some);
            assert(before.channels.channels[c] is None);
        }
        assert forall|c: HrmpChannelId| ids.contains(c) implies (#[trigger] after.channels.channels[c]) is None by {
            let k = choose|k: int| 0 <= k < ids.len() && ids[k] == c;
            if k < front.len() {
                assert(front[k] == c);
                assert(before.channels.channels[c] is None);
            }
        }
        assert forall|c: HrmpChannelId| state.channels.channels[c] is None implies (#[trigger] after.channels.channels[c]) is None by {
            assert(before.channels.channels[c] is None);
        }
    }
}

/// The end of a session keeps the invariant and leaves no request to close
/// behind.
pub proof fn lemma_on_session_end_inv(state: HrmpView, ttl: SessionIndex)
    requires
        state.inv(),
    ensures
        state.on_session_end(ttl).inv(),
        state.on_session_end(ttl).closing == CloseRequestsView::empty(),
        forall|c: HrmpChannelId|
            state.closing.set.contains(c) ==> (#[trigger] state.on_session_end(
                ttl,
            ).channels.channels[c]) is None,
{
    let settled = state.settle_requests(state.open.list, ttl);
    lemma_settle_requests_inv(state, state.open.list, ttl);
    lemma_close_channels_inv(settled, settled.closing.list);
    let closed = settled.close_channels(settled.closing.list);
    assert forall|c: HrmpChannelId| state.closing.set.contains(c) implies (#[trigger] closed.channels.channels[c]) is None by {
        assert(settled.closing.list.contains(c));
    }
}

/// Asking for the closing of the channels that lead to a para keeps the
/// invariant, registers each of them, keeps what was registered, and touches
/// nothing but the requests to close.
pub proof fn lemma_close_ingress_inv(state: HrmpView, senders: Seq<ParaId>, para: ParaId)
    requires
        state.inv(),
    ensures
        state.close_ingress(senders, para).inv(),
        state.close_ingress(senders, para).open == state.open,
        state.close_ingress(senders, para).channels == state.channels,
        state.close_ingress(senders, para).inbox == state.inbox,
        forall|s: ParaId|
            senders.contains(s) ==> state.close_ingress(senders, para).closing.set.contains(
                #[trigger] channel_id(s, para),
            ),
        forall|c: HrmpChannelId|
            state.closing.set.contains(c) ==> state.close_ingress(senders, para).closing.set.contains(c),
    decreases senders.len(),
{
    if senders.len() > 0 {
        let front = senders.drop_last();
        let before = state.close_ingress(front, para);
        let after = state.close_ingress(senders, para);
        lemma_close_ingress_inv(state, front, para);
        crate::hrmp::closing::lemma_request_inv(before.closing, channel_id(senders.last(), para));
        assert forall|s: ParaId| senders.contains(s) implies after.closing.set.contains(
            #[trigger] channel_id(s, para),
        ) by {
            let k = choose|k: int| 0 <= k < senders.len() && senders[k] == s;
            if k < front.len() {
                assert(front[k] == s);
                assert(before.closing.set.contains(channel_id(s, para)));
            }
        }
    }
}

/// Asking for the closing of the channels that lead from a para keeps the
/// invariant, registers each of them, keeps what was registered, and touches
/// nothing but the requests to close.
pub proof fn lemma_close_egress_inv(state: HrmpView, recipients: Seq<ParaId>, para: ParaId)
    requires
        state.inv(),
    ensures
        state.close_egress(recipients, para).inv(),
        state.close_egress(recipients, para).open == state.open,
        state.close_egress(recipients, para).channels == state.channels,
        state.close_egress(recipients, para).inbox == state.inbox,
        forall|r: ParaId|
            recipients.contains(r) ==> state.close_egress(recipients, para).closing.set.contains(
                #[trigger] channel_id(para, r),
            ),
        forall|c: HrmpChannelId|
            state.closing.set.contains(c) ==> state.close_egress(recipients, para).closing.set.contains(c),
    decreases recipients.len(),
{
    if recipients.len() > 0 {
        let front = recipients.drop_last();
        let before = state.close_egress(front, para);
        let after = state.close_egress(recipients, para);
        lemma_close_egress_inv(state, front, para);
        crate::hrmp::closing::lemma_request_inv(before.closing, channel_id(para, recipients.last()));
        assert forall|r: ParaId| recipients.contains(r) implies after.closing.set.contains(
            #[trigger] channel_id(para, r),
        ) by {
            let k = choose|k: int| 0 <= k < recipients.len() && recipients[k] == r;
            if k < front.len() {
                assert(front[k] == r);
                assert(before.closing.set.contains(channel_id(para, r)));
            }
        }
    }
}

/// Dropping the requests of a para keeps the invariant, leaves none of the
/// listed requests that names the para, and touches nothing but the
/// requests to open.
pub proof fn lemma_drop_requests_inv(state: HrmpView, ids: Seq<HrmpChannelId>, para: ParaId)
    requires
        state.inv(),
    ensures
        state.drop_requests(ids, para).inv(),
        state.drop_requests(ids, para).closing == state.closing,
        state.drop_requests(ids, para).channels == state.channels,
        state.drop_requests(ids, para).inbox == state.inbox,
        forall|c: HrmpChannelId|
            ids.contains(c) && (c.sender == para || c.recipient == para) ==> (
            #[trigger] state.drop_requests(ids, para).open.requests[c]) is None,
        forall|c: HrmpChannelId|
            state.open.requests[c] is None ==> (#[trigger] state.drop_requests(
                ids,
                para,
            ).open.requests[c]) is None,
        forall|c: HrmpChannelId|
            !(c.sender == para || c.recipient == para) ==> (#[trigger] state.drop_requests(
                ids,
                para,
            ).open.requests[c]) == state.open.requests[c],
    decreases ids.len(),
{
    if ids.len() > 0 {
        let front = ids.drop_last();
        let last = ids.last();
        let before = state.drop_requests(front, para);
        let after = state.drop_requests(ids, para);
        lemma_drop_requests_inv(state, front, para);
        if last.sender == para || last.recipient == para {
            crate::hrmp::requests::lemma_remove_inv(before.open, last);
            assert forall|c: HrmpChannelId|
                (#[trigger] after.open.requests[c]) is Some implies after.channels.channels[c] is None by {
                assert(before.open.requests[c] is Some);
            }
        }
        assert forall|c: HrmpChannelId|
            ids.contains(c) && (c.sender == para || c.recipient == para) implies (
            #[trigger] after.open.requests[c]) is None by {
            let k = choose|k: int| 0 <= k < ids.len() && ids[k] == c;
            if k < front.len() {
                assert(front[k] == c);
                assert(before.open.requests[c] is None);
            }
        }
        assert forall|c: HrmpChannelId| state.open.requests[c] is None implies (
        #[trigger] after.open.requests[c]) is None by {
            assert(before.open.requests[c] is None);
        }
        assert forall|c: HrmpChannelId| !(c.sender == para || c.recipient == para) implies (
        #[trigger] after.open.requests[c]) == state.open.requests[c] by {
            assert(before.open.requests[c] == state.open.requests[c]);
        }
    }
}

/// Pruning channels keeps the invariant and touches nothing but the
/// metadata and the contents of channels.
pub proof fn lemma_prune_channels_inv(
    state: HrmpView,
    senders: Seq<ParaId>,
    recipient: ParaId,
    watermark: BlockNumber,
)
    requires
        state.inv(),
    ensures
        state.prune_channels(senders, recipient, watermark).inv(),
        state.prune_channels(senders, recipient, watermark).open == state.open,
        state.prune_channels(senders, recipient, watermark).closing == state.closing,
        state.prune_channels(senders, recipient, watermark).inbox == state.inbox,
        state.prune_channels(senders, recipient, watermark).channels.ingress == state.channels.ingress,
        state.prune_channels(senders, recipient, watermark).channels.egress == state.channels.egress,
        forall|c: HrmpChannelId|
            (#[trigger] state.prune_channels(senders, recipient, watermark).channels.channels[c]) is Some
                <==> state.channels.channels[c] is Some,
    decreases senders.len(),
{
    if senders.len() > 0 {
        let front = senders.drop_last();
        let before = state.prune_channels(front, recipient, watermark);
        let after = state.prune_channels(senders, recipient, watermark);
        let id = channel_id(senders.last(), recipient);
        lemma_prune_channels_inv(state, front, recipient, watermark);
        crate::hrmp::channels::lemma_prune_inv(before.channels, id, watermark);
        assert forall|c: HrmpChannelId|
            (#[trigger] after.channels.channels[c]) is Some <==> state.channels.channels[c] is Some by {
            assert(before.channels.channels[c] is Some <==> state.channels.channels[c] is Some);
        }
        assert forall|c: HrmpChannelId|
            (#[trigger] after.open.requests[c]) is Some implies after.channels.channels[c] is None by {
            assert(before.open.requests[c] is Some);
            assert(before.channels.channels[c] is None);
        }
    }
}

/// Asking for a channel that may be asked for keeps the invariant.
pub proof fn lemma_init_open_channel_inv(
    state: HrmpView,
    config: HostConfiguration,
    id: HrmpChannelId,
    limits: ProposedLimits,
    sender_deposit: Balance,
)
    requires
        state.inv(),
        state.open_request_allowed(config, id, limits),
    ensures
        state.init_open_channel(id, limits, sender_deposit).inv(),
{
    let after = state.init_open_channel(id, limits, sender_deposit);
    crate::hrmp::requests::lemma_insert_inv(state.open, id, fresh_request(limits, sender_deposit));
    assert forall|c: HrmpChannelId|
        (#[trigger] after.open.requests[c]) is Some implies after.channels.channels[c] is None by {
        if c != id {
            assert(state.open.requests[c] is Some);
        }
    }
}

/// Confirming a request that may be confirmed keeps the invariant.
pub proof fn lemma_accept_open_channel_inv(
    state: HrmpView,
    config: HostConfiguration,
    id: HrmpChannelId,
    recipient_deposit: Balance,
)
    requires
        state.inv(),
        state.accept_allowed(config, id),
    ensures
        state.accept_open_channel(id, recipient_deposit).inv(),
{
    let after = state.accept_open_channel(id, recipient_deposit);
    crate::hrmp::requests::lemma_confirm_inv(state.open, id, recipient_deposit);
    assert forall|c: HrmpChannelId|
        (#[trigger] after.open.requests[c]) is Some implies after.channels.channels[c] is None by {
        assert(state.open.requests[c] is Some);
    }
}

/// Asking for the closing of a channel keeps the invariant.
pub proof fn lemma_close_channel_inv(state: HrmpView, origin: ParaId, id: HrmpChannelId)
    requires
        state.inv(),
    ensures
        state.close_channel(origin, id).inv(),
{
    crate::hrmp::closing::lemma_request_inv(state.closing, id);
}

/// Sending an allowed message in a block that is not before the last one
/// keeps the invariant.
pub proof fn lemma_send_inv(
    state: HrmpView,
    sender: ParaId,
    recipient: ParaId,
    data: Seq<u8>,
    now: BlockNumber,
)
    requires
        state.inv(),
        state.message_allowed(sender, recipient, data),
        not_after(state.inbox.digests[recipient], now),
    ensures
        state.send(sender, recipient, data, now).inv(),
{
    let after = state.send(sender, recipient, data, now);
    crate::hrmp::channels::lemma_send_inv(state.channels, channel_id(sender, recipient), data, now);
    crate::hrmp::inbox::lemma_noted_ok(state.inbox.digests[recipient], sender, now);
    assert forall|c: HrmpChannelId|
        (#[trigger] after.open.requests[c]) is Some implies after.channels.channels[c] is None by {
        assert(state.open.requests[c] is Some);
        assert(state.channels.channels[c] is None);
    }
}

/// Moving a watermark keeps the invariant.
pub proof fn lemma_advance_watermark_inv(state: HrmpView, recipient: ParaId, watermark: BlockNumber)
    requires
        state.inv(),
    ensures
        state.advance_watermark(recipient, watermark).inv(),
        state.advance_watermark(recipient, watermark).inbox.watermarks[recipient] == Some(
            watermark,
        ),
{
    lemma_prune_channels_inv(state, state.channels.ingress[recipient], recipient, watermark);
    crate::hrmp::inbox::lemma_after_watermark_ok(state.inbox.digests[recipient], watermark);
}

/// Whether the channel `id` leads to `para` or from it.
pub open spec fn involves(id: HrmpChannelId, para: ParaId) -> bool {
    id.sender == para || id.recipient == para
}

impl HrmpView {
    /// `para` is on its way out: its open channels are registered for
    /// closing, no pending request names it, and it has neither watermark
    /// nor digest.
    pub open spec fn leaving(self, para: ParaId) -> bool {
        &&& forall|c: HrmpChannelId|
            involves(c, para) && (#[trigger] self.channels.channels[c]) is Some
                ==> self.closing.set.contains(c)
        &&& forall|c: HrmpChannelId|
            involves(c, para) ==> (#[trigger] self.open.requests[c]) is None
        &&& self.inbox.watermarks[para] is None
        &&& self.inbox.digests[para].len() == 0
    }

    /// Nothing is left of `para`: no channel leads to it or from it and none
    /// is asked for, no message waits for it or from it, its indexes are
    /// empty and no index names it, its counters are zero, and it has
    /// neither watermark nor digest.
    pub open spec fn gone(self, para: ParaId) -> bool {
        &&& forall|c: HrmpChannelId|
            involves(c, para) ==> (#[trigger] self.channels.channels[c]) is None
        &&& forall|c: HrmpChannelId|
            involves(c, para) ==> (#[trigger] self.channels.contents[c]).len() == 0
        &&& forall|c: HrmpChannelId|
            involves(c, para) ==> (#[trigger] self.open.requests[c]) is None
        &&& self.channels.ingress[para].len() == 0
        &&& self.channels.egress[para].len() == 0
        &&& forall|q: ParaId| !(#[trigger] self.channels.ingress[q]).contains(para)
        &&& forall|q: ParaId| !(#[trigger] self.channels.egress[q]).contains(para)
        &&& self.open.open_count[para] == 0
        &&& self.open.accepted_count[para] == 0
        &&& self.inbox.watermarks[para] is None
        &&& self.inbox.digests[para].len() == 0
    }
}

/// Removing a para keeps the invariant and puts the para on its way out; a
/// para that was on its way out stays so.
pub proof fn lemma_remove_para(state: HrmpView, para: ParaId, other: ParaId)
    requires
        state.inv(),
    ensures
        state.remove_para(para).inv(),
        state.remove_para(para).leaving(para),
        state.leaving(other) ==> state.remove_para(para).leaving(other),
{
    let ingress = state.channels.ingress[para];
    let egress = state.channels.egress[para];
    let first = state.close_ingress(ingress, para);
    let closing = first.close_egress(egress, para);
    let dropped = closing.drop_requests(closing.open.list, para);
    let after = state.remove_para(para);
    lemma_close_ingress_inv(state, ingress, para);
    lemma_close_egress_inv(first, egress, para);
    lemma_drop_requests_inv(closing, closing.open.list, para);
    assert forall|c: HrmpChannelId|
        involves(c, para) && (#[trigger] after.channels.channels[c]) is Some
            implies after.closing.set.contains(c) by {
        assert(state.channels.channels[c] is Some);
        if c.recipient == para {
            assert(ingress.contains(c.sender));
            assert(first.closing.set.contains(channel_id(c.sender, para)));
            assert(channel_id(c.sender, para) == c);
        } else {
            assert(egress.contains(c.recipient));
            assert(closing.closing.set.contains(channel_id(para, c.recipient)));
            assert(channel_id(para, c.recipient) == c);
        }
    }
    assert forall|c: HrmpChannelId| involves(c, para) implies (#[trigger] after.open.requests[c]) is None by {
        if closing.open.requests[c] is Some {
            assert(closing.open.list.contains(c));
        }
    }
    assert(after.inbox.inv()) by {
        assert forall|p: ParaId| crate::hrmp::inbox::digest_ok(#[trigger] after.inbox.digests[p]) by {
            if p != para {
                assert(after.inbox.digests[p] == state.inbox.digests[p]);
            }
        }
    }
    if state.leaving(other) {
        assert forall|c: HrmpChannelId|
            involves(c, other) && (#[trigger] after.channels.channels[c]) is Some
                implies after.closing.set.contains(c) by {
            assert(state.channels.channels[c] is Some);
            assert(state.closing.set.contains(c));
            assert(first.closing.set.contains(c));
        }
        assert forall|c: HrmpChannelId| involves(c, other) implies (#[trigger] after.open.requests[c]) is None by {
            assert(state.open.requests[c] is None);
        }
    }
}

/// At the end of a session nothing is left of a para that was on its way out.
pub proof fn lemma_session_end_removes(state: HrmpView, para: ParaId, ttl: SessionIndex)
    requires
        state.inv(),
        state.leaving(para),
    ensures
        state.on_session_end(ttl).inv(),
        state.on_session_end(ttl).gone(para),
{
    let settled = state.settle_requests(state.open.list, ttl);
    let after = state.on_session_end(ttl);
    lemma_settle_requests_inv(state, state.open.list, ttl);
    lemma_close_channels_inv(settled, settled.closing.list);
    lemma_on_session_end_inv(state, ttl);
    assert forall|c: HrmpChannelId| involves(c, para) implies (#[trigger] after.channels.channels[c]) is None by {
        if settled.channels.channels[c] is Some {
            assert(state.open.requests[c] is None);
            assert(state.channels.channels[c] is Some);
            assert(state.closing.set.contains(c));
            assert(settled.closing.list.contains(c));
        }
    }
    assert forall|c: HrmpChannelId| involves(c, para) implies (#[trigger] after.open.requests[c]) is None by {
        if after.open.requests[c] is Some {
            assert(settled.open.requests[c] is Some);
            assert(state.open.requests[c] is Some);
        }
    }
    assert forall|c: HrmpChannelId| involves(c, para) implies (#[trigger] after.channels.contents[c]).len() == 0 by {
        assert(after.channels.channels[c] is None);
    }
    assert(after.channels.ingress[para].len() == 0) by {
        let list = after.channels.ingress[para];
        if list.len() > 0 {
            let c = channel_id(list[0], para);
            assert(list.contains(c.sender));
            assert(after.channels.channels[c] is Some);
        }
    }
    assert(after.channels.egress[para].len() == 0) by {
        let list = after.channels.egress[para];
        if list.len() > 0 {
            let c = channel_id(para, list[0]);
            assert(list.contains(c.recipient));
            assert(after.channels.channels[c] is Some);
        }
    }
    assert forall|q: ParaId| !(#[trigger] after.channels.ingress[q]).contains(para) by {
        let c = channel_id(para, q);
        assert(after.channels.channels[c] is None);
    }
    assert forall|q: ParaId| !(#[trigger] after.channels.egress[q]).contains(para) by {
        let c = channel_id(q, para);
        assert(after.channels.channels[c] is None);
    }
    assert forall|i: int| 0 <= i < after.open.list.len() implies (#[trigger] after.open.list[i]).sender
        != para && after.open.list[i].recipient != para by {
        let c = after.open.list[i];
        assert(after.open.list.contains(c));
        assert(after.open.requests[c] is Some);
    }
    crate::hrmp::requests::lemma_requests_from_none(after.open.list, para);
    crate::hrmp::requests::lemma_confirmed_to_none(after.open.list, after.open.requests, para);
    assert(after.open.open_count[para] == crate::hrmp::requests::requests_from(
        after.open.list,
        para,
    ));
    assert(after.open.accepted_count[para] == crate::hrmp::requests::confirmed_to(
        after.open.list,
        after.open.requests,
        para,
    ));
}

/// Every open channel is listed in the ingress index of its recipient and in
/// the egress index of its sender, the indexes list nothing else, and both
/// are strictly ascending.
pub proof fn lemma_channels_indexed(state: HrmpView, id: HrmpChannelId)
    requires
        state.inv(),
    ensures
        state.channels.channels[id] is Some <==> state.channels.ingress[id.recipient].contains(
            id.sender,
        ),
        state.channels.channels[id] is Some <==> state.channels.egress[id.sender].contains(
            id.recipient,
        ),
        crate::para_list::strictly_ascending(state.channels.ingress[id.recipient]),
        crate::para_list::strictly_ascending(state.channels.egress[id.sender]),
{
}

/// The metadata of an open channel counts the messages and the payload bytes
/// that wait in it, and both are within the limits of the channel.
pub proof fn lemma_channel_usage(state: HrmpView, id: HrmpChannelId)
    requires
        state.inv(),
        state.channels.channels[id] is Some,
    ensures
        state.channels.channels[id]->0.used_places == state.channels.contents[id].len(),
        state.channels.channels[id]->0.used_bytes == crate::hrmp::channels::payload_bytes(
            state.channels.contents[id],
        ),
        state.channels.channels[id]->0.used_places <= state.channels.channels[id]->0.limit_used_places,
        state.channels.channels[id]->0.used_bytes <= state.channels.channels[id]->0.limit_used_bytes,
{
}

/// Every entry of a digest names at least one sender, and the blocks of a
/// digest ascend strictly.
pub proof fn lemma_digest_order(state: HrmpView, para: ParaId, i: int, j: int)
    requires
        state.inv(),
        0 <= i < j < state.inbox.digests[para].len(),
    ensures
        state.inbox.digests[para][i].1.len() > 0,
        state.inbox.digests[para][j].1.len() > 0,
        state.inbox.digests[para][i].0 < state.inbox.digests[para][j].0,
{
    assert(crate::hrmp::inbox::digest_ok(state.inbox.digests[para]));
}

/// A watermark on the current block is allowed if and only if it does not
/// lie before the last one and the digest of the recipient either has an
/// entry for the current block or has none up to it. Where the digest names
/// no later block, the last means that it is empty.
pub proof fn lemma_watermark_at_current_block(state: HrmpView, recipient: ParaId, now: BlockNumber)
    requires
        state.inv(),
    ensures
        state.watermark_allowed(recipient, now, now) <==> {
            &&& (state.inbox.watermarks[recipient] matches Some(prior) ==> prior <= now)
            &&& (crate::hrmp::inbox::has_block(state.inbox.digests[recipient], now)
                || crate::hrmp::inbox::none_up_to(state.inbox.digests[recipient], now))
        },
        not_after(state.inbox.digests[recipient], now) ==> (crate::hrmp::inbox::none_up_to(
            state.inbox.digests[recipient],
            now,
        ) <==> state.inbox.digests[recipient].len() == 0),
{
    let digest = state.inbox.digests[recipient];
    if not_after(digest, now) && crate::hrmp::inbox::none_up_to(digest, now) && digest.len() > 0 {
        assert(digest[0].0 <= now);
        assert(digest[0].0 > now);
    }
}

/// The state of horizontal message passing.
pub struct Hrmp {
    open: OpenRequests,
    closing: CloseRequests,
    channels: Channels,
    inbox: Inbox,
}

impl View for Hrmp {
    type V = HrmpView;

    closed spec fn view(&self) -> HrmpView {
        HrmpView {
            open: self.open@,
            closing: self.closing@,
            channels: self.channels@,
            inbox: self.inbox@,
        }
    }
}

impl Hrmp {
    /// The invariant of horizontal message passing holds.
    pub closed spec fn wf(&self) -> bool {
        &&& self.open.wf()
        &&& self.closing.wf()
        &&& self.channels.wf()
        &&& self.inbox.wf()
        &&& self@.requests_are_new()
    }

    /// A well-formed state satisfies the invariant of its view.
    pub proof fn lemma_wf(&self)
        requires
            self.wf(),
        ensures
            self@.inv(),
    {
        self.open.lemma_wf();
        self.closing.lemma_wf();
        self.channels.lemma_wf();
        self.inbox.lemma_wf();
    }

    /// The state without any channel, request or activity.
    pub fn new() -> (hrmp: Hrmp)
        ensures
            hrmp.wf(),
            hrmp@ == HrmpView::empty(),
    {
        Hrmp {
            open: OpenRequests::new(),
            closing: CloseRequests::new(),
            channels: Channels::new(),
            inbox: Inbox::new(),
        }
    }

    /// Asks for the channel `id` on behalf of its sender.
    ///
    /// The request is refused where the channel is open or asked for
    /// already, where the sender has as many requests pending as a para may
    /// have outbound channels, and where a limit is above that of the
    /// configuration. Else it is recorded as unconfirmed and of age zero,
    /// with the deposit of the sender.
    pub fn init_open_channel(
        &mut self,
        config: &HostConfiguration,
        id: HrmpChannelId,
        limits: ProposedLimits,
        sender_deposit: Balance,
    ) -> (result: Result<(), Error>)
        requires
            old(self).wf(),
        ensures
            final(self).wf(),
            old(self)@.open_request_allowed(*config, id, limits) ==> result is Ok && final(self)@
                == old(self)@.init_open_channel(id, limits, sender_deposit),
            !old(self)@.open_request_allowed(*config, id, limits) ==> result == Err::<(), Error>(
                Error::HrmpOpenRequestInvalid,
            ) && final(self)@ == old(self)@,
    {
        if self.channels.is_open(id) {
            return Err(Error::HrmpOpenRequestInvalid);
        }
        if self.open.request(id).is_some() {
            return Err(Error::HrmpOpenRequestInvalid);
        }
        if self.open.open_count(id.sender) >= config.hrmp_max_parachain_outbound_channels {
            return Err(Error::HrmpOpenRequestInvalid);
        }
        if limits.limit_used_places > config.hrmp_channel_max_places || limits.limit_used_bytes
            > config.hrmp_channel_max_bytes || limits.limit_message_size
            > config.hrmp_channel_max_message_size {
            return Err(Error::HrmpOpenRequestInvalid);
        }
        let request = HrmpOpenChannelRequest {
            confirmed: false,
            age: 0,
            sender_deposit,
            recipient_deposit: 0,
            limit_used_places: limits.limit_used_places,
            limit_used_bytes: limits.limit_used_bytes,
            limit_message_size: limits.limit_message_size,
        };
        self.open.insert(id, request);
        proof {
            assert forall|c: HrmpChannelId|
                (#[trigger] self@.open.requests[c]) is Some implies self@.channels.channels[c] is None by {
                if c != id {
                    assert(old(self)@.open.requests[c] is Some);
                }
            }
        }
        Ok(())
    }

    /// Confirms the request for the channel `id` on behalf of its recipient.
    ///
    /// The confirmation is refused where there is no unconfirmed request for
    /// the channel, and where the recipient has confirmed as many requests
    /// as a para may have inbound channels. Else the request is marked
    /// confirmed and the deposit of the recipient is recorded.
    pub fn accept_open_channel(
        &mut self,
        config: &HostConfiguration,
        id: HrmpChannelId,
        recipient_deposit: Balance,
    ) -> (result: Result<(), Error>)
        requires
            old(self).wf(),
        ensures
            final(self).wf(),
            old(self)@.accept_allowed(*config, id) ==> result is Ok && final(self)@ == old(
                self,
            )@.accept_open_channel(id, recipient_deposit),
            !old(self)@.accept_allowed(*config, id) ==> result == Err::<(), Error>(
                Error::HrmpAcceptInvalid,
            ) && final(self)@ == old(self)@,
    {
        match self.open.request(id) {
            Some(request) => {
                if request.confirmed {
                    return Err(Error::HrmpAcceptInvalid);
                }
            },
            None => {
                return Err(Error::HrmpAcceptInvalid);
            },
        }
        if self.open.accepted_count(id.recipient) >= config.hrmp_max_parachain_inbound_channels {
            return Err(Error::HrmpAcceptInvalid);
        }
        self.open.confirm(id, recipient_deposit);
        proof {
            assert forall|c: HrmpChannelId|
                (#[trigger] self@.open.requests[c]) is Some implies self@.channels.channels[c] is None by {
                assert(old(self)@.open.requests[c] is Some);
            }
        }
        Ok(())
    }

    /// Registers the channel `id` for closing at the end of the session, on
    /// behalf of `origin`. Nothing is registered where `origin` is neither
    /// the sender nor the recipient of the channel.
    pub fn close_channel(&mut self, origin: ParaId, id: HrmpChannelId)
        requires
            old(self).wf(),
        ensures
            final(self).wf(),
            final(self)@ == old(self)@.close_channel(origin, id),
    {
        if origin.0 == id.sender.0 || origin.0 == id.recipient.0 {
            self.closing.request(id);
        }
    }

    /// Settles every pending request at the end of a session, in the order
    /// of the asking.
    fn process_open_requests(&mut self, ttl: SessionIndex)
        requires
            old(self).wf(),
        ensures
            final(self).wf(),
            final(self)@ == old(self)@.settle_requests(old(self)@.open.list, ttl),
    {
        let ghost start = self@;
        let ghost snapshot = start.open.list;
        let ghost mut done: int = 0;
        let mut at: usize = 0;
        proof {
            self.lemma_wf();
        }
        while at < self.open.list().len()
            invariant
                self.wf(),
                start.inv(),
                snapshot == start.open.list,
                0 <= done <= snapshot.len(),
                0 <= at <= self@.open.list.len(),
                self@.open.list.len() - at == snapshot.len() - done,
                self@.open.list.skip(at as int) == snapshot.skip(done),
                self@ == start.settle_requests(snapshot.take(done), ttl),
            decreases self@.open.list.len() - at,
        {
            let id = self.open.list()[at];
            let ghost before = self@;
            proof {
                self.lemma_wf();
                assert(before.open.list.skip(at as int)[0] == snapshot.skip(done)[0]);
                assert(id == snapshot[done]);
                assert(snapshot.take(done + 1).drop_last() =~= snapshot.take(done));
                assert(before.open.list.contains(id));
                lemma_settle_request_inv(before, id, ttl);
            }
            match self.open.request(id) {
                Some(request) => {
                    if request.age + 1 >= ttl {
                        self.open.remove_at(at);
                        proof {
                            assert(self@.open.list.skip(at as int) =~= before.open.list.skip(
                                at as int,
                            ).drop_first());
                            assert(snapshot.skip(done + 1) =~= snapshot.skip(done).drop_first());
                        }
                    } else if request.confirmed {
                        self.open.remove_at(at);
                        self.channels.open(
                            id,
                            ChannelTerms {
                                sender_deposit: request.sender_deposit,
                                recipient_deposit: request.recipient_deposit,
                                limit_used_places: request.limit_used_places,
                                limit_used_bytes: request.limit_used_bytes,
                                limit_message_size: request.limit_message_size,
                            },
                        );
                        proof {
                            assert(self@.open.list.skip(at as int) =~= before.open.list.skip(
                                at as int,
                            ).drop_first());
                            assert(snapshot.skip(done + 1) =~= snapshot.skip(done).drop_first());
                        }
                    } else {
                        self.open.age(id);
                        at = at + 1;
                        proof {
                            assert(self@.open.list.skip(at as int) =~= before.open.list.skip(
                                at - 1,
                            ).drop_first());
                            assert(snapshot.skip(done + 1) =~= snapshot.skip(done).drop_first());
                        }
                    }
                },
                None => {
                    at = at + 1;
                },
            }
            proof {
                done = done + 1;
                assert(self@ == before.settle_request(id, ttl));
            }
        }
        proof {
            assert(snapshot.take(done) =~= snapshot);
        }
    }

    /// Closes every channel registered for closing, and forgets the
    /// registrations.
    fn process_close_requests(&mut self)
        requires
            old(self).wf(),
        ensures
            final(self).wf(),
            final(self)@ == (HrmpView {
                closing: CloseRequestsView::empty(),
                ..old(self)@.close_channels(old(self)@.closing.list)
            }),
    {
        let ghost start = self@;
        proof {
            self.lemma_wf();
        }
        let list = self.closing.take();
        let ghost cleared = self@;
        let mut i: usize = 0;
        while i < list.len()
            invariant
                self.wf(),
                start.inv(),
                list@ == start.closing.list,
                0 <= i <= list@.len(),
                self@ == (HrmpView {
                    closing: CloseRequestsView::empty(),
                    ..start.close_channels(list@.take(i as int))
                }),
            decreases list@.len() - i,
        {
            let ghost before = self@;
            proof {
                assert(list@.take(i + 1).drop_last() =~= list@.take(i as int));
                lemma_close_channels_inv(start, list@.take(i + 1));
            }
            self.channels.close(list[i]);
            proof {
                assert forall|c: HrmpChannelId|
                    (#[trigger] self@.open.requests[c]) is Some implies self@.channels.channels[c] is None by {
                    assert(start.close_channels(list@.take(i + 1)).open.requests[c] is Some);
                }
            }
            i = i + 1;
        }
        proof {
            assert(list@.take(i as int) =~= list@);
        }
    }

    /// Does what the end of a session asks for: settles the pending
    /// requests, which live for `ttl` sessions, then closes the channels
    /// registered for closing.
    pub fn on_session_end(&mut self, ttl: SessionIndex)
        requires
            old(self).wf(),
        ensures
            final(self).wf(),
            final(self)@ == old(self)@.on_session_end(ttl),
    {
        proof {
            self.lemma_wf();
            lemma_settle_requests_inv(self@, self@.open.list, ttl);
        }
        self.process_open_requests(ttl);
        self.process_close_requests();
    }

    /// Prepares the removal of `para`: registers every channel that leads to
    /// it or from it for closing, drops the requests that it made or that
    /// were made to it, and removes its watermark and digest.
    pub fn remove_para(&mut self, para: ParaId)
        requires
            old(self).wf(),
        ensures
            final(self).wf(),
            final(self)@ == old(self)@.remove_para(para),
    {
        let ghost start = self@;
        proof {
            self.lemma_wf();
        }
        let senders = self.channels.ingress(para);
        let mut i: usize = 0;
        while i < senders.len()
            invariant
                self.wf(),
                start.inv(),
                senders@ == start.channels.ingress[para],
                0 <= i <= senders@.len(),
                self@ == start.close_ingress(senders@.take(i as int), para),
            decreases senders@.len() - i,
        {
            proof {
                assert(senders@.take(i + 1).drop_last() =~= senders@.take(i as int));
                lemma_close_ingress_inv(start, senders@.take(i as int), para);
            }
            self.closing.request(HrmpChannelId { sender: senders[i], recipient: para });
            i = i + 1;
        }
        proof {
            assert(senders@.take(i as int) =~= senders@);
            lemma_close_ingress_inv(start, senders@, para);
        }
        let ghost middle = self@;
        let recipients = self.channels.egress(para);
        let mut j: usize = 0;
        while j < recipients.len()
            invariant
                self.wf(),
                middle.inv(),
                recipients@ == start.channels.egress[para],
                0 <= j <= recipients@.len(),
                self@ == middle.close_egress(recipients@.take(j as int), para),
            decreases recipients@.len() - j,
        {
            proof {
                assert(recipients@.take(j + 1).drop_last() =~= recipients@.take(j as int));
                lemma_close_egress_inv(middle, recipients@.take(j as int), para);
            }
            self.closing.request(HrmpChannelId { sender: para, recipient: recipients[j] });
            j = j + 1;
        }
        proof {
            assert(recipients@.take(j as int) =~= recipients@);
            lemma_close_egress_inv(middle, recipients@, para);
        }
        let ghost closing = self@;
        let ghost snapshot = closing.open.list;
        let ghost mut done: int = 0;
        let mut at: usize = 0;
        while at < self.open.list().len()
            invariant
                self.wf(),
                closing.inv(),
                snapshot == closing.open.list,
                0 <= done <= snapshot.len(),
                0 <= at <= self@.open.list.len(),
                self@.open.list.len() - at == snapshot.len() - done,
                self@.open.list.skip(at as int) == snapshot.skip(done),
                self@ == closing.drop_requests(snapshot.take(done), para),
            decreases self@.open.list.len() - at,
        {
            let id = self.open.list()[at];
            let ghost before = self@;
            proof {
                self.lemma_wf();
                assert(before.open.list.skip(at as int)[0] == snapshot.skip(done)[0]);
                assert(id == snapshot[done]);
                assert(snapshot.take(done + 1).drop_last() =~= snapshot.take(done));
                lemma_drop_requests_inv(closing, snapshot.take(done + 1), para);
            }
            if id.sender.0 == para.0 || id.recipient.0 == para.0 {
                self.open.remove_at(at);
                proof {
                    assert(self@.open.list.skip(at as int) =~= before.open.list.skip(
                        at as int,
                    ).drop_first());
                    assert(snapshot.skip(done + 1) =~= snapshot.skip(done).drop_first());
                    assert forall|c: HrmpChannelId|
                        (#[trigger] self@.open.requests[c]) is Some implies self@.channels.channels[c] is None by {
                        assert(closing.drop_requests(snapshot.take(done + 1), para).open.requests[c] is Some);
                    }
                }
            } else {
                at = at + 1;
                proof {
                    assert(self@.open.list.skip(at as int) =~= before.open.list.skip(
                        at - 1,
                    ).drop_first());
                    assert(snapshot.skip(done + 1) =~= snapshot.skip(done).drop_first());
                }
            }
            proof {
                done = done + 1;
            }
        }
        proof {
            assert(snapshot.take(done) =~= snapshot);
        }
        self.inbox.remove_para(para);
    }

    /// Whether `sender` may send `data` to `recipient`: the channel between
    /// them is open, the message is no larger than the channel allows, and
    /// the channel has a place and the bytes left for it.
    pub fn check_outbound_message(&self, sender: ParaId, recipient: ParaId, data: &[u8]) -> (result: Result<(), Error>)
        requires
            self.wf(),
        ensures
            self@.message_allowed(sender, recipient, data@) ==> result is Ok,
            !self@.message_allowed(sender, recipient, data@) ==> result == Err::<(), Error>(
                Error::HrmpMessageRejected,
            ),
    {
        if self.channels.check_message(HrmpChannelId { sender, recipient }, data) {
            Ok(())
        } else {
            Err(Error::HrmpMessageRejected)
        }
    }

    /// Sends `data` from `sender` to `recipient` in block `now`.
    ///
    /// The message is refused where the check refuses it. Else it is put
    /// into the channel, the message queue chain of the channel is extended
    /// by it, and the digest of the recipient names the sender for the
    /// block. Block numbers do not go back: `now` must not lie before a
    /// block that the digest of the recipient names.
    pub fn send(&mut self, sender: ParaId, recipient: ParaId, data: Vec<u8>, now: BlockNumber) -> (result: Result<(), Error>)
        requires
            old(self).wf(),
            not_after(old(self)@.inbox.digests[recipient], now),
        ensures
            final(self).wf(),
            old(self)@.message_allowed(sender, recipient, data@) ==> result is Ok && final(self)@
                == old(self)@.send(sender, recipient, data@, now),
            !old(self)@.message_allowed(sender, recipient, data@) ==> result == Err::<(), Error>(
                Error::HrmpMessageRejected,
            ) && final(self)@ == old(self)@,
    {
        let id = HrmpChannelId { sender, recipient };
        if !self.channels.check_message(id, data.as_slice()) {
            return Err(Error::HrmpMessageRejected);
        }
        proof {
            self.lemma_wf();
        }
        self.channels.send(id, data, now);
        self.inbox.note(recipient, sender, now);
        proof {
            assert forall|c: HrmpChannelId|
                (#[trigger] self@.open.requests[c]) is Some implies self@.channels.channels[c] is None by {
                assert(old(self)@.open.requests[c] is Some);
                assert(old(self)@.channels.channels[c] is None);
            }
        }
        Ok(())
    }

    /// Whether a message to `recipient` can be sent in block `now`: no
    /// entry of the digest of the recipient is of a later block.
    pub fn block_in_order(&self, recipient: ParaId, now: BlockNumber) -> (ok: bool)
        requires
            self.wf(),
        ensures
            ok == not_after(self@.inbox.digests[recipient], now),
    {
        self.inbox.in_order(recipient, now)
    }

    /// Whether `recipient` may move its watermark to `watermark` in block
    /// `now`: not backwards, not beyond `now`, and onto a block in which a
    /// message arrived, unless none arrived up to there.
    pub fn check_watermark(&self, recipient: ParaId, now: BlockNumber, watermark: BlockNumber) -> (result: Result<(), Error>)
        requires
            self.wf(),
        ensures
            self@.watermark_allowed(recipient, now, watermark) ==> result is Ok,
            !self@.watermark_allowed(recipient, now, watermark) ==> result == Err::<(), Error>(
                Error::HrmpWatermarkInvalid,
            ),
    {
        if self.inbox.check_watermark(recipient, now, watermark) {
            Ok(())
        } else {
            Err(Error::HrmpWatermarkInvalid)
        }
    }

    /// Moves the watermark of `recipient` to `watermark` in block `now`.
    ///
    /// The move is refused where the check refuses it. Else every channel
    /// that leads to the recipient loses, from its front, as many messages
    /// as were sent up to the watermark, and the digest of the recipient
    /// loses the entries of the blocks up to the watermark.
    pub fn advance_watermark(&mut self, recipient: ParaId, now: BlockNumber, watermark: BlockNumber) -> (result: Result<(), Error>)
        requires
            old(self).wf(),
        ensures
            final(self).wf(),
            old(self)@.watermark_allowed(recipient, now, watermark) ==> result is Ok && final(self)@ == old(self)@.advance_watermark(recipient, watermark),
            !old(self)@.watermark_allowed(recipient, now, watermark) ==> result == Err::<(), Error>(
                Error::HrmpWatermarkInvalid,
            ) && final(self)@ == old(self)@,
    {
        if !self.inbox.check_watermark(recipient, now, watermark) {
            return Err(Error::HrmpWatermarkInvalid);
        }
        let ghost start = self@;
        proof {
            self.lemma_wf();
        }
        let senders = self.channels.ingress(recipient);
        let mut i: usize = 0;
        while i < senders.len()
            invariant
                self.wf(),
                start.inv(),
                senders@ == start.channels.ingress[recipient],
                0 <= i <= senders@.len(),
                self@ == start.prune_channels(senders@.take(i as int), recipient, watermark),
            decreases senders@.len() - i,
        {
            proof {
                assert(senders@.take(i + 1).drop_last() =~= senders@.take(i as int));
                lemma_prune_channels_inv(start, senders@.take(i + 1), recipient, watermark);
            }
            self.channels.prune(HrmpChannelId { sender: senders[i], recipient }, watermark);
            i = i + 1;
        }
        proof {
            assert(senders@.take(i as int) =~= senders@);
        }
        self.inbox.advance(recipient, watermark);
        Ok(())
    }

    /// The metadata of the channel from `sender` to `recipient`, if it is
    /// open.
    pub fn channel(&self, sender: ParaId, recipient: ParaId) -> (channel: Option<HrmpChannel>)
        ensures
            match channel {
                Some(c) => self@.channels.channels[channel_id(sender, recipient)] == Some(c@),
                None => self@.channels.channels[channel_id(sender, recipient)] is None,
            },
    {
        self.channels.channel(HrmpChannelId { sender, recipient })
    }

    /// The number of messages that wait in the channel from `sender` to
    /// `recipient`.
    pub fn channel_pending(&self, sender: ParaId, recipient: ParaId) -> (count: usize)
        ensures
            count == self@.channels.contents[channel_id(sender, recipient)].len(),
    {
        self.channels.pending(HrmpChannelId { sender, recipient })
    }

    /// The senders of the channels that lead to `para`, in ascending order.
    pub fn ingress_channels(&self, para: ParaId) -> (senders: Vec<ParaId>)
        ensures
            senders@ == self@.channels.ingress[para],
    {
        self.channels.ingress(para)
    }

    /// The recipients of the channels that lead from `para`, in ascending
    /// order.
    pub fn egress_channels(&self, para: ParaId) -> (recipients: Vec<ParaId>)
        ensures
            recipients@ == self@.channels.egress[para],
    {
        self.channels.egress(para)
    }

    /// The request for the channel from `sender` to `recipient`, if one is
    /// pending.
    pub fn open_request(&self, sender: ParaId, recipient: ParaId) -> (request: Option<HrmpOpenChannelRequest>)
        ensures
            request == self@.open.requests[channel_id(sender, recipient)],
    {
        self.open.request(HrmpChannelId { sender, recipient })
    }

    /// The number of requests that `para` has pending.
    pub fn open_request_count(&self, para: ParaId) -> (count: u32)
        ensures
            count == self@.open.open_count[para],
    {
        self.open.open_count(para)
    }

    /// The number of pending requests to `para` that it has confirmed.
    pub fn accepted_request_count(&self, para: ParaId) -> (count: u32)
        ensures
            count == self@.open.accepted_count[para],
    {
        self.open.accepted_count(para)
    }

    /// The watermark of `para`, if it has acknowledged anything yet.
    pub fn watermark(&self, para: ParaId) -> (watermark: Option<BlockNumber>)
        ensures
            watermark == self@.inbox.watermarks[para],
    {
        self.inbox.watermark(para)
    }
}

} // verus!
