//! The open channels: their metadata, the messages that wait in them, and
//! the indexes that list, for each para, the senders it receives from and the
//! recipients it sends to.

use vstd::prelude::*;
use std::collections::BTreeMap;
use crate::mqc;
use crate::para_list;
use crate::para_list::{strictly_ascending, with_para, without_para};
use crate::primitives::{Balance, BlockNumber, H256, HrmpChannelId, InboundHrmpMessage, InboundHrmpMessageView, ParaId};

verus! {

/// The metadata of an open channel.
#[derive(Clone, Copy, Debug)]
pub struct HrmpChannel {
    /// The deposit that the sender put down when it asked for the channel.
    pub sender_deposit: Balance,
    /// The deposit that the recipient put down when it accepted the channel.
    pub recipient_deposit: Balance,
    /// The number of messages that may wait in the channel at once.
    pub limit_used_places: u32,
    /// The number of payload bytes that may wait in the channel at once.
    pub limit_used_bytes: u32,
    /// The largest message that may be put into the channel.
    pub limit_message_size: u32,
    /// The number of messages that wait in the channel.
    pub used_places: u32,
    /// The number of payload bytes that wait in the channel.
    pub used_bytes: u32,
    /// The head of the message queue chain of the channel, or `None` while
    /// nothing was sent over it.
    pub mqc_head: Option<H256>,
}

/// What an [`HrmpChannel`] holds, as mathematical values.
pub struct HrmpChannelView {
    pub sender_deposit: Balance,
    pub recipient_deposit: Balance,
    pub limit_used_places: u32,
    pub limit_used_bytes: u32,
    pub limit_message_size: u32,
    pub used_places: u32,
    pub used_bytes: u32,
    pub mqc_head: Option<Seq<u8>>,
}

impl View for HrmpChannel {
    type V = HrmpChannelView;

    open spec fn view(&self) -> HrmpChannelView {
        HrmpChannelView {
            sender_deposit: self.sender_deposit,
            recipient_deposit: self.recipient_deposit,
            limit_used_places: self.limit_used_places,
            limit_used_bytes: self.limit_used_bytes,
            limit_message_size: self.limit_message_size,
            used_places: self.used_places,
            used_bytes: self.used_bytes,
            mqc_head: mqc::head_view(self.mqc_head),
        }
    }
}

/// The terms on which a channel is opened.
#[derive(Clone, Copy, Debug, PartialEq, Eq, Structural)]
pub struct ChannelTerms {
    pub sender_deposit: Balance,
    pub recipient_deposit: Balance,
    pub limit_used_places: u32,
    pub limit_used_bytes: u32,
    pub limit_message_size: u32,
}

/// The channel that is opened on `terms`: nothing waits in it, and nothing
/// was sent over it.
pub open spec fn fresh_channel(terms: ChannelTerms) -> HrmpChannelView {
    HrmpChannelView {
        sender_deposit: terms.sender_deposit,
        recipient_deposit: terms.recipient_deposit,
        limit_used_places: terms.limit_used_places,
        limit_used_bytes: terms.limit_used_bytes,
        limit_message_size: terms.limit_message_size,
        used_places: 0,
        used_bytes: 0,
        mqc_head: None,
    }
}

/// The number of payload bytes in a sequence of waiting messages.
pub open spec fn payload_bytes(contents: Seq<InboundHrmpMessageView>) -> nat
    decreases contents.len(),
{
    if contents.len() == 0 {
        0
    } else {
        payload_bytes(contents.drop_last()) + contents.last().data.len()
    }
}

/// The number of waiting messages that were sent in a block up to
/// `watermark`.
pub open spec fn sent_up_to(contents: Seq<InboundHrmpMessageView>, watermark: BlockNumber) -> nat
    decreases contents.len(),
{
    if contents.len() == 0 {
        0
    } else {
        sent_up_to(contents.drop_last(), watermark) + if contents.last().sent_at <= watermark {
            1nat
        } else {
            0nat
        }
    }
}

/// The payload of a sequence of messages is that of any front part of it and
/// that of the rest.
pub proof fn lemma_payload_bytes_concat(
    first: Seq<InboundHrmpMessageView>,
    second: Seq<InboundHrmpMessageView>,
)
    ensures
        payload_bytes(first + second) == payload_bytes(first) + payload_bytes(second),
    decreases second.len(),
{
    if second.len() == 0 {
        assert(first + second =~= first);
    } else {
        lemma_payload_bytes_concat(first, second.drop_last());
        assert((first + second).drop_last() =~= first + second.drop_last());
    }
}

/// No more messages were sent up to a watermark than there are.
pub proof fn lemma_sent_up_to_bound(contents: Seq<InboundHrmpMessageView>, watermark: BlockNumber)
    ensures
        sent_up_to(contents, watermark) <= contents.len(),
    decreases contents.len(),
{
    if contents.len() > 0 {
        lemma_sent_up_to_bound(contents.drop_last(), watermark);
    }
}

/// The channels with their contents and indexes, as mathematical values. All
/// maps are total: where there is no channel, the map of channels holds
/// `None` and the contents are empty; a para without channels has empty
/// indexes.
#[verifier::ext_equal]
pub struct ChannelsView {
    /// The metadata of each open channel.
    pub channels: Map<HrmpChannelId, Option<HrmpChannelView>>,
    /// For each para, the senders of the channels that lead to it.
    pub ingress: Map<ParaId, Seq<ParaId>>,
    /// For each para, the recipients of the channels that lead from it.
    pub egress: Map<ParaId, Seq<ParaId>>,
    /// The messages that wait in each channel, oldest first.
    pub contents: Map<HrmpChannelId, Seq<InboundHrmpMessageView>>,
}

impl ChannelsView {
    /// The state without any channel.
    pub open spec fn empty() -> ChannelsView {
        ChannelsView {
            channels: Map::total(|c: HrmpChannelId| None),
            ingress: Map::total(|p: ParaId| Seq::empty()),
            egress: Map::total(|p: ParaId| Seq::empty()),
            contents: Map::total(|c: HrmpChannelId| Seq::empty()),
        }
    }

    /// All maps are total.
    pub open spec fn total(self) -> bool {
        &&& forall|c: HrmpChannelId| self.channels.dom().contains(c)
        &&& forall|p: ParaId| self.ingress.dom().contains(p)
        &&& forall|p: ParaId| self.egress.dom().contains(p)
        &&& forall|c: HrmpChannelId| self.contents.dom().contains(c)
    }

    /// The indexes are strictly ascending and list exactly the open
    /// channels: a channel is open if and only if its sender is in the
    /// ingress index of its recipient, and if and only if its recipient is in
    /// the egress index of its sender.
    pub open spec fn indexes_ok(self) -> bool {
        &&& forall|p: ParaId| strictly_ascending(#[trigger] self.ingress[p])
        &&& forall|p: ParaId| strictly_ascending(#[trigger] self.egress[p])
        &&& forall|c: HrmpChannelId|
            (#[trigger] self.channels[c]) is Some <==> self.ingress[c.recipient].contains(c.sender)
        &&& forall|c: HrmpChannelId|
            (#[trigger] self.channels[c]) is Some <==> self.egress[c.sender].contains(c.recipient)
    }

    /// The metadata of each channel counts the messages and the payload bytes
    /// that wait in it, both within the limits of the channel; where there
    /// is no channel, no message waits.
    pub open spec fn contents_ok(self) -> bool {
        forall|c: HrmpChannelId|
            match #[trigger] self.channels[c] {
                Some(channel) => {
                    &&& channel.used_places == self.contents[c].len()
                    &&& channel.used_bytes == payload_bytes(self.contents[c])
                    &&& channel.used_places <= channel.limit_used_places
                    &&& channel.used_bytes <= channel.limit_used_bytes
                },
                None => self.contents[c].len() == 0,
            }
    }

    /// The invariant of the channels.
    pub open spec fn inv(self) -> bool {
        &&& self.total()
        &&& self.indexes_ok()
        &&& self.contents_ok()
    }

    /// The state after the channel `id` was opened on `terms`.
    pub open spec fn open(self, id: HrmpChannelId, terms: ChannelTerms) -> ChannelsView
        recommends
            self.channels[id] is None,
    {
        ChannelsView {
            channels: self.channels.insert(id, Some(fresh_channel(terms))),
            ingress: self.ingress.insert(
                id.recipient,
                with_para(self.ingress[id.recipient], id.sender),
            ),
            egress: self.egress.insert(id.sender, with_para(self.egress[id.sender], id.recipient)),
            contents: self.contents,
        }
    }

    /// The state after the channel `id` was closed: its metadata and
    /// contents are gone, and so are its entries in the indexes.
    pub open spec fn close(self, id: HrmpChannelId) -> ChannelsView {
        ChannelsView {
            channels: self.channels.insert(id, None),
            ingress: self.ingress.insert(
                id.recipient,
                without_para(self.ingress[id.recipient], id.sender),
            ),
            egress: self.egress.insert(
                id.sender,
                without_para(self.egress[id.sender], id.recipient),
            ),
            contents: self.contents.insert(id, Seq::empty()),
        }
    }

    /// Whether a message may be put into the channel `id`: the channel is
    /// open, the message is no larger than the channel allows, and with it
    /// the channel stays within its limits of places and bytes.
    pub open spec fn message_allowed(self, id: HrmpChannelId, data: Seq<u8>) -> bool {
        match self.channels[id] {
            Some(channel) => {
                &&& data.len() <= channel.limit_message_size
                &&& channel.used_places + 1 <= channel.limit_used_places
                &&& channel.used_bytes + data.len() <= channel.limit_used_bytes
            },
            None => false,
        }
    }

    /// The state after a message was put into the channel `id` in block
    /// `now`.
    pub open spec fn send(self, id: HrmpChannelId, data: Seq<u8>, now: BlockNumber) -> ChannelsView
        recommends
            self.message_allowed(id, data),
    {
        let channel = self.channels[id]->0;
        ChannelsView {
            channels: self.channels.insert(
                id,
                Some(
                    HrmpChannelView {
                        used_places: (channel.used_places + 1) as u32,
                        used_bytes: (channel.used_bytes + data.len()) as u32,
                        mqc_head: Some(mqc::next_head(channel.mqc_head, now, data)),
                        ..channel
                    },
                ),
            ),
            contents: self.contents.insert(
                id,
                self.contents[id].push(InboundHrmpMessageView { sent_at: now, data }),
            ),
            ..self
        }
    }

    /// The state after the recipient of the channel `id` acknowledged the
    /// blocks up to `watermark`: as many messages as were sent up to there
    /// are dropped from the front, and the metadata is lowered by them.
    pub open spec fn prune(self, id: HrmpChannelId, watermark: BlockNumber) -> ChannelsView {
        match self.channels[id] {
            Some(channel) => {
                let dropped = sent_up_to(self.contents[id], watermark) as int;
                let gone = self.contents[id].take(dropped);
                ChannelsView {
                    channels: self.channels.insert(
                        id,
                        Some(
                            HrmpChannelView {
                                used_places: (channel.used_places - dropped) as u32,
                                used_bytes: (channel.used_bytes - payload_bytes(gone)) as u32,
                                ..channel
                            },
                        ),
                    ),
                    contents: self.contents.insert(id, self.contents[id].skip(dropped)),
                    ..self
                }
            },
            None => self,
        }
    }
}

/// Opening a channel that is not open keeps the invariant.
pub proof fn lemma_open_inv(state: ChannelsView, id: HrmpChannelId, terms: ChannelTerms)
    requires
        state.inv(),
        state.channels[id] is None,
    ensures
        state.open(id, terms).inv(),
{
    let after = state.open(id, terms);
    para_list::lemma_with_para(state.ingress[id.recipient], id.sender);
    para_list::lemma_with_para(state.egress[id.sender], id.recipient);
    assert(payload_bytes(Seq::<InboundHrmpMessageView>::empty()) == 0);
    assert forall|c: HrmpChannelId|
        (#[trigger] after.channels[c]) is Some <==> after.ingress[c.recipient].contains(
            c.sender,
        ) by {
        assert(state.channels[c] is Some <==> state.ingress[c.recipient].contains(c.sender));
    }
    assert forall|c: HrmpChannelId|
        (#[trigger] after.channels[c]) is Some <==> after.egress[c.sender].contains(
            c.recipient,
        ) by {
        assert(state.channels[c] is Some <==> state.egress[c.sender].contains(c.recipient));
    }
    assert forall|c: HrmpChannelId|
        match #[trigger] after.channels[c] {
            Some(channel) => {
                &&& channel.used_places == after.contents[c].len()
                &&& channel.used_bytes == payload_bytes(after.contents[c])
                &&& channel.used_places <= channel.limit_used_places
                &&& channel.used_bytes <= channel.limit_used_bytes
            },
            None => after.contents[c].len() == 0,
        } by {
        if c == id {
            assert(state.channels[id] is None);
            assert(state.contents[id].len() == 0);
            assert(after.contents[id] =~= Seq::empty());
        } else {
            assert(after.channels[c] == state.channels[c]);
        }
    }
}

/// Closing a channel keeps the invariant.
pub proof fn lemma_close_inv(state: ChannelsView, id: HrmpChannelId)
    requires
        state.inv(),
    ensures
        state.close(id).inv(),
        state.close(id).channels[id] is None,
{
    let after = state.close(id);
    para_list::lemma_without_para(state.ingress[id.recipient], id.sender);
    para_list::lemma_without_para(state.egress[id.sender], id.recipient);
    assert forall|c: HrmpChannelId|
        (#[trigger] after.channels[c]) is Some <==> after.ingress[c.recipient].contains(
            c.sender,
        ) by {
        assert(state.channels[c] is Some <==> state.ingress[c.recipient].contains(c.sender));
    }
    assert forall|c: HrmpChannelId|
        (#[trigger] after.channels[c]) is Some <==> after.egress[c.sender].contains(
            c.recipient,
        ) by {
        assert(state.channels[c] is Some <==> state.egress[c.sender].contains(c.recipient));
    }
    assert forall|c: HrmpChannelId|
        match #[trigger] after.channels[c] {
            Some(channel) => {
                &&& channel.used_places == after.contents[c].len()
                &&& channel.used_bytes == payload_bytes(after.contents[c])
                &&& channel.used_places <= channel.limit_used_places
                &&& channel.used_bytes <= channel.limit_used_bytes
            },
            None => after.contents[c].len() == 0,
        } by {
        if c != id {
            assert(after.channels[c] == state.channels[c]);
        }
    }
}

/// Putting an allowed message into a channel keeps the invariant.
pub proof fn lemma_send_inv(state: ChannelsView, id: HrmpChannelId, data: Seq<u8>, now: BlockNumber)
    requires
        state.inv(),
        state.message_allowed(id, data),
    ensures
        state.send(id, data, now).inv(),
{
    let after = state.send(id, data, now);
    assert forall|c: HrmpChannelId|
        (#[trigger] after.channels[c]) is Some <==> after.ingress[c.recipient].contains(
            c.sender,
        ) by {
        assert(state.channels[c] is Some <==> state.ingress[c.recipient].contains(c.sender));
    }
    assert forall|c: HrmpChannelId|
        (#[trigger] after.channels[c]) is Some <==> after.egress[c.sender].contains(
            c.recipient,
        ) by {
        assert(state.channels[c] is Some <==> state.egress[c.sender].contains(c.recipient));
    }
    assert forall|c: HrmpChannelId|
        match #[trigger] after.channels[c] {
            Some(channel) => {
                &&& channel.used_places == after.contents[c].len()
                &&& channel.used_bytes == payload_bytes(after.contents[c])
                &&& channel.used_places <= channel.limit_used_places
                &&& channel.used_bytes <= channel.limit_used_bytes
            },
            None => after.contents[c].len() == 0,
        } by {
        if c == id {
            assert(state.channels[id] is Some);
            assert(after.contents[id].drop_last() =~= state.contents[id]);
        } else {
            assert(after.channels[c] == state.channels[c]);
        }
    }
}

/// Pruning a channel keeps the invariant.
pub proof fn lemma_prune_inv(state: ChannelsView, id: HrmpChannelId, watermark: BlockNumber)
    requires
        state.inv(),
    ensures
        state.prune(id, watermark).inv(),
{
    let after = state.prune(id, watermark);
    if state.channels[id] is Some {
        let contents = state.contents[id];
        let dropped = sent_up_to(contents, watermark) as int;
        lemma_sent_up_to_bound(contents, watermark);
        assert(contents.take(dropped) + contents.skip(dropped) =~= contents);
        lemma_payload_bytes_concat(contents.take(dropped), contents.skip(dropped));
        assert forall|c: HrmpChannelId|
            (#[trigger] after.channels[c]) is Some <==> after.ingress[c.recipient].contains(
                c.sender,
            ) by {
            assert(state.channels[c] is Some <==> state.ingress[c.recipient].contains(c.sender));
        }
        assert forall|c: HrmpChannelId|
            (#[trigger] after.channels[c]) is Some <==> after.egress[c.sender].contains(
                c.recipient,
            ) by {
            assert(state.channels[c] is Some <==> state.egress[c.sender].contains(c.recipient));
        }
        assert forall|c: HrmpChannelId|
            match #[trigger] after.channels[c] {
                Some(channel) => {
                    &&& channel.used_places == after.contents[c].len()
                    &&& channel.used_bytes == payload_bytes(after.contents[c])
                    &&& channel.used_places <= channel.limit_used_places
                    &&& channel.used_bytes <= channel.limit_used_bytes
                },
                None => after.contents[c].len() == 0,
            } by {
            if c != id {
                assert(after.channels[c] == state.channels[c]);
            }
        }
    }
}

/// What the stored contents of a channel hold, as mathematical values.
pub open spec fn contents_view(contents: Seq<InboundHrmpMessage>) -> Seq<InboundHrmpMessageView> {
    contents.map_values(|m: InboundHrmpMessage| m@)
}

/// The key under which a channel is stored.
pub open spec fn key_of(id: HrmpChannelId) -> (u32, u32) {
    (id.sender.0, id.recipient.0)
}

/// The open channels with their contents and indexes.
pub struct Channels {
    channels: BTreeMap<(u32, u32), HrmpChannel>,
    ingress: BTreeMap<u32, Vec<ParaId>>,
    egress: BTreeMap<u32, Vec<ParaId>>,
    contents: BTreeMap<(u32, u32), Vec<InboundHrmpMessage>>,
}

impl View for Channels {
    type V = ChannelsView;

    closed spec fn view(&self) -> ChannelsView {
        ChannelsView {
            channels: Map::total(
                |c: HrmpChannelId|
                    if self.channels@.contains_key(key_of(c)) {
                        Some(self.channels@[key_of(c)]@)
                    } else {
                        None
                    },
            ),
            ingress: Map::total(
                |p: ParaId|
                    if self.ingress@.contains_key(p.0) {
                        self.ingress@[p.0]@
                    } else {
                        Seq::empty()
                    },
            ),
            egress: Map::total(
                |p: ParaId|
                    if self.egress@.contains_key(p.0) {
                        self.egress@[p.0]@
                    } else {
                        Seq::empty()
                    },
            ),
            contents: Map::total(
                |c: HrmpChannelId|
                    if self.contents@.contains_key(key_of(c)) {
                        contents_view(self.contents@[key_of(c)]@)
                    } else {
                        Seq::empty()
                    },
            ),
        }
    }
}

/// Puts `para` into the index of `owner`.
fn index_insert(index: &mut BTreeMap<u32, Vec<ParaId>>, owner: ParaId, para: ParaId)
    requires
        old(index)@.contains_key(owner.0) ==> strictly_ascending(old(index)@[owner.0]@),
    ensures
        final(index)@.dom() == old(index)@.dom().insert(owner.0),
        final(index)@[owner.0]@ == with_para(
            if old(index)@.contains_key(owner.0) {
                old(index)@[owner.0]@
            } else {
                Seq::empty()
            },
            para,
        ),
        forall|k: u32| k != owner.0 && old(index)@.contains_key(k) ==> final(index)@[k] == old(index)@[k],
{
    let mut list = match index.remove(&owner.0) {
        Some(l) => l,
        None => Vec::new(),
    };
    para_list::insert(&mut list, para);
    index.insert(owner.0, list);
    assert(final(index)@.dom() =~= old(index)@.dom().insert(owner.0));
}

/// Takes `para` out of the index of `owner`.
fn index_remove(index: &mut BTreeMap<u32, Vec<ParaId>>, owner: ParaId, para: ParaId)
    requires
        old(index)@.contains_key(owner.0) ==> strictly_ascending(old(index)@[owner.0]@),
    ensures
        final(index)@.dom() == old(index)@.dom(),
        old(index)@.contains_key(owner.0) ==> final(index)@[owner.0]@ == without_para(
            old(index)@[owner.0]@,
            para,
        ),
        forall|k: u32| k != owner.0 && old(index)@.contains_key(k) ==> final(index)@[k] == old(index)@[k],
{
    match index.remove(&owner.0) {
        Some(mut list) => {
            para_list::remove(&mut list, para);
            index.insert(owner.0, list);
            assert(final(index)@.dom() =~= old(index)@.dom());
        },
        None => {},
    }
}

impl Channels {
    /// The invariant of the channels holds.
    pub closed spec fn wf(&self) -> bool {
        self@.inv()
    }

    /// A well-formed state satisfies the invariant of its view.
    pub proof fn lemma_wf(&self)
        requires
            self.wf(),
        ensures
            self@.inv(),
    {
    }

    /// The state without any channel.
    pub fn new() -> (channels: Channels)
        ensures
            channels.wf(),
            channels@ == ChannelsView::empty(),
    {
        let channels = Channels {
            channels: BTreeMap::new(),
            ingress: BTreeMap::new(),
            egress: BTreeMap::new(),
            contents: BTreeMap::new(),
        };
        assert(channels@.channels =~~= ChannelsView::empty().channels);
        assert(channels@.ingress =~~= ChannelsView::empty().ingress);
        assert(channels@.egress =~~= ChannelsView::empty().egress);
        assert(channels@.contents =~~= ChannelsView::empty().contents);
        channels
    }

    /// The metadata of the channel `id`, if it is open.
    pub fn channel(&self, id: HrmpChannelId) -> (channel: Option<HrmpChannel>)
        ensures
            match channel {
                Some(c) => self@.channels[id] == Some(c@),
                None => self@.channels[id] is None,
            },
    {
        match self.channels.get(&(id.sender.0, id.recipient.0)) {
            Some(c) => Some(*c),
            None => None,
        }
    }

    /// Whether the channel `id` is open.
    pub fn is_open(&self, id: HrmpChannelId) -> (open: bool)
        ensures
            open == self@.channels[id] is Some,
    {
        self.channels.contains_key(&(id.sender.0, id.recipient.0))
    }

    /// The senders of the channels that lead to `para`, in ascending order.
    pub fn ingress(&self, para: ParaId) -> (senders: Vec<ParaId>)
        ensures
            senders@ == self@.ingress[para],
    {
        match self.ingress.get(&para.0) {
            Some(list) => copy_list(list),
            None => Vec::new(),
        }
    }

    /// The recipients of the channels that lead from `para`, in ascending
    /// order.
    pub fn egress(&self, para: ParaId) -> (recipients: Vec<ParaId>)
        ensures
            recipients@ == self@.egress[para],
    {
        match self.egress.get(&para.0) {
            Some(list) => copy_list(list),
            None => Vec::new(),
        }
    }

    /// The number of messages that wait in the channel `id`.
    pub fn pending(&self, id: HrmpChannelId) -> (count: usize)
        ensures
            count == self@.contents[id].len(),
    {
        match self.contents.get(&(id.sender.0, id.recipient.0)) {
            Some(contents) => contents.len(),
            None => 0,
        }
    }

    /// Opens the channel `id` on `terms`.
    pub fn open(&mut self, id: HrmpChannelId, terms: ChannelTerms)
        requires
            old(self).wf(),
            old(self)@.channels[id] is None,
        ensures
            final(self).wf(),
            final(self)@ == old(self)@.open(id, terms),
    {
        let channel = HrmpChannel {
            sender_deposit: terms.sender_deposit,
            recipient_deposit: terms.recipient_deposit,
            limit_used_places: terms.limit_used_places,
            limit_used_bytes: terms.limit_used_bytes,
            limit_message_size: terms.limit_message_size,
            used_places: 0,
            used_bytes: 0,
            mqc_head: None,
        };
        proof {
            assert(strictly_ascending(old(self)@.ingress[id.recipient]));
            assert(strictly_ascending(old(self)@.egress[id.sender]));
        }
        self.channels.insert((id.sender.0, id.recipient.0), channel);
        index_insert(&mut self.ingress, id.recipient, id.sender);
        index_insert(&mut self.egress, id.sender, id.recipient);
        proof {
            let want = old(self)@.open(id, terms);
            assert(self@.channels =~~= want.channels);
            assert(self@.ingress =~~= want.ingress);
            assert(self@.egress =~~= want.egress);
            assert(self@.contents =~~= want.contents);
            lemma_open_inv(old(self)@, id, terms);
        }
    }

    /// Closes the channel `id`: removes its metadata, its contents and its
    /// entries in the indexes.
    pub fn close(&mut self, id: HrmpChannelId)
        requires
            old(self).wf(),
        ensures
            final(self).wf(),
            final(self)@ == old(self)@.close(id),
    {
        proof {
            assert(strictly_ascending(old(self)@.ingress[id.recipient]));
            assert(strictly_ascending(old(self)@.egress[id.sender]));
        }
        self.channels.remove(&(id.sender.0, id.recipient.0));
        self.contents.remove(&(id.sender.0, id.recipient.0));
        index_remove(&mut self.ingress, id.recipient, id.sender);
        index_remove(&mut self.egress, id.sender, id.recipient);
        proof {
            let want = old(self)@.close(id);
            assert(without_para(Seq::<ParaId>::empty(), id.sender) =~= Seq::empty());
            assert(without_para(Seq::<ParaId>::empty(), id.recipient) =~= Seq::empty());
            assert(self@.channels =~~= want.channels);
            assert(self@.ingress =~~= want.ingress);
            assert(self@.egress =~~= want.egress);
            assert(self@.contents =~~= want.contents);
            lemma_close_inv(old(self)@, id);
        }
    }

    /// Whether a message may be put into the channel `id`.
    pub fn check_message(&self, id: HrmpChannelId, data: &[u8]) -> (allowed: bool)
        requires
            self.wf(),
        ensures
            allowed == self@.message_allowed(id, data@),
    {
        match self.channels.get(&(id.sender.0, id.recipient.0)) {
            Some(channel) => {
                assert(self@.channels[id] == Some(channel@));
                if data.len() > channel.limit_message_size as usize {
                    return false;
                }
                if channel.used_places >= channel.limit_used_places {
                    return false;
                }
                if data.len() > (channel.limit_used_bytes - channel.used_bytes) as usize {
                    return false;
                }
                true
            },
            None => false,
        }
    }

    /// Puts a message into the channel `id` in block `now` and extends the
    /// message queue chain of the channel by it.
    pub fn send(&mut self, id: HrmpChannelId, data: Vec<u8>, now: BlockNumber)
        requires
            old(self).wf(),
            old(self)@.message_allowed(id, data@),
        ensures
            final(self).wf(),
            final(self)@ == old(self)@.send(id, data@, now),
    {
        let key = (id.sender.0, id.recipient.0);
        match self.channels.remove(&key) {
            Some(mut channel) => {
                assert(old(self)@.channels[id] == Some(channel@));
                let head = mqc::append(&channel.mqc_head, now, &data);
                channel.used_places = channel.used_places + 1;
                channel.used_bytes = channel.used_bytes + data.len() as u32;
                channel.mqc_head = Some(head);
                self.channels.insert(key, channel);
                let mut contents = match self.contents.remove(&key) {
                    Some(c) => c,
                    None => Vec::new(),
                };
                let ghost before = contents@;
                let message = InboundHrmpMessage { sent_at: now, data };
                contents.push(message);
                assert(contents_view(contents@) =~= contents_view(before).push(message@));
                self.contents.insert(key, contents);
            },
            None => {},
        }
        proof {
            let want = old(self)@.send(id, data@, now);
            assert(self@.channels =~~= want.channels);
            assert(self@.ingress =~~= want.ingress);
            assert(self@.egress =~~= want.egress);
            assert(self@.contents =~~= want.contents);
            lemma_send_inv(old(self)@, id, data@, now);
        }
    }

    /// Drops from the front of the channel `id` as many messages as were sent
    /// in blocks up to `watermark`, and lowers the metadata of the channel
    /// by them.
    pub fn prune(&mut self, id: HrmpChannelId, watermark: BlockNumber)
        requires
            old(self).wf(),
        ensures
            final(self).wf(),
            final(self)@ == old(self)@.prune(id, watermark),
    {
        let key = (id.sender.0, id.recipient.0);
        match self.channels.remove(&key) {
            Some(mut channel) => {
                assert(old(self)@.channels[id] == Some(channel@));
                let mut contents = match self.contents.remove(&key) {
                    Some(c) => c,
                    None => Vec::new(),
                };
                let ghost before = contents_view(contents@);
                assert(before == old(self)@.contents[id]);
                let mut dropped: usize = 0;
                let mut i: usize = 0;
                while i < contents.len()
                    invariant
                        0 <= i <= contents@.len(),
                        before == contents_view(contents@),
                        dropped == sent_up_to(before.take(i as int), watermark),
                        dropped <= i,
                    decreases contents@.len() - i,
                {
                    proof {
                        assert(before.take(i + 1).drop_last() =~= before.take(i as int));
                        assert(before.take(i + 1).last().sent_at == contents@[i as int].sent_at);
                    }
                    if contents[i].sent_at <= watermark {
                        dropped = dropped + 1;
                    }
                    i = i + 1;
                }
                assert(before.take(i as int) =~= before);
                let mut bytes: u32 = 0;
                let mut j: usize = 0;
                while j < dropped
                    invariant
                        0 <= j <= dropped <= contents@.len(),
                        before == contents_view(contents@),
                        bytes == payload_bytes(before.take(j as int)),
                        payload_bytes(before) == channel.used_bytes,
                    decreases dropped - j,
                {
                    proof {
                        assert(before.take(j + 1).drop_last() =~= before.take(j as int));
                        assert(before.take(j + 1).last().data.len() == contents@[j as int].data@.len());
                        assert(before.take(j + 1) + before.skip(j + 1) =~= before);
                        lemma_payload_bytes_concat(before.take(j + 1), before.skip(j + 1));
                    }
                    bytes = bytes + contents[j].data.len() as u32;
                    j = j + 1;
                }
                proof {
                    assert(before.take(dropped as int) + before.skip(dropped as int) =~= before);
                    lemma_payload_bytes_concat(
                        before.take(dropped as int),
                        before.skip(dropped as int),
                    );
                }
                let rest = contents.split_off(dropped);
                assert(contents_view(rest@) =~= before.skip(dropped as int));
                channel.used_places = channel.used_places - dropped as u32;
                channel.used_bytes = channel.used_bytes - bytes;
                self.channels.insert(key, channel);
                self.contents.insert(key, rest);
            },
            None => {},
        }
        proof {
            let want = old(self)@.prune(id, watermark);
            assert(self@.channels =~~= want.channels);
            assert(self@.ingress =~~= want.ingress);
            assert(self@.egress =~~= want.egress);
            assert(self@.contents =~~= want.contents);
            lemma_prune_inv(old(self)@, id, watermark);
        }
    }
}

/// A copy of a list of paras.
pub fn copy_list(list: &Vec<ParaId>) -> (copy: Vec<ParaId>)
    ensures
        copy@ == list@,
{
    let mut copy: Vec<ParaId> = Vec::new();
    let mut i: usize = 0;
    while i < list.len()
        invariant
            0 <= i <= list@.len(),
            copy@ == list@.take(i as int),
        decreases list@.len() - i,
    {
        copy.push(list[i]);
        assert(list@.take(i + 1) =~= list@.take(i as int).push(list@[i as int]));
        i = i + 1;
    }
    assert(list@.take(i as int) =~= list@);
    copy
}

} // verus!
