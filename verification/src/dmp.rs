//! Downward message passing: from the relay chain to a para.
//!
//! Each para has a queue of the messages sent to it and the head of the
//! message queue chain over everything that was ever put into that queue.
//! A para consumes messages from the front; pruning them leaves the head
//! alone.

use vstd::prelude::*;
use std::collections::BTreeMap;
use crate::configuration::HostConfiguration;
use crate::error::Error;
use crate::mqc;
use crate::primitives::{BlockNumber, DownwardMessage, H256, InboundDownwardMessage, InboundDownwardMessageView, ParaId};
use crate::scale::{encode_bytes, encoded_len, lemma_encoded_bytes_len};

verus! {

/// The downward queues and their chain heads, as mathematical values. Both
/// maps are total: a para that never got a message has the empty queue and no
/// head.
#[verifier::ext_equal]
pub struct DmpView {
    pub queues: Map<ParaId, Seq<InboundDownwardMessageView>>,
    pub heads: Map<ParaId, Option<Seq<u8>>>,
}

/// Whether a downward message is small enough to be queued: its encoding must
/// not be longer than the configured size.
pub open spec fn downward_message_fits(config: HostConfiguration, msg: Seq<u8>) -> bool {
    encoded_len(msg.len()) <= config.critical_downward_message_size
}

impl DmpView {
    /// The state in which no para has a message or a head.
    pub open spec fn empty() -> DmpView {
        DmpView {
            queues: Map::total(|p: ParaId| Seq::empty()),
            heads: Map::total(|p: ParaId| None),
        }
    }

    /// Both maps are total, and a para without a head has no message.
    pub open spec fn inv(self) -> bool {
        &&& forall|p: ParaId| self.queues.dom().contains(p)
        &&& forall|p: ParaId| self.heads.dom().contains(p)
        &&& forall|p: ParaId| (#[trigger] self.heads[p]) is None ==> self.queues[p].len() == 0
    }

    /// The state after `msg` was queued for `para` in block `now`.
    pub open spec fn queue_message(self, para: ParaId, msg: Seq<u8>, now: BlockNumber) -> DmpView {
        DmpView {
            queues: self.queues.insert(
                para,
                self.queues[para].push(InboundDownwardMessageView { sent_at: now, msg }),
            ),
            heads: self.heads.insert(para, Some(mqc::next_head(self.heads[para], now, msg))),
        }
    }

    /// Whether a candidate of `para` may claim to have processed `processed`
    /// messages: none where the queue is empty, else at least one and no
    /// more than wait.
    pub open spec fn processed_allowed(self, para: ParaId, processed: u32) -> bool {
        let pending = self.queues[para].len();
        (pending == 0 && processed == 0) || (pending > 0 && 1 <= processed <= pending)
    }

    /// The state after the first `processed` messages of `para` were dropped,
    /// or all of them where fewer wait. The head stays.
    pub open spec fn prune(self, para: ParaId, processed: u32) -> DmpView {
        let queue = self.queues[para];
        DmpView {
            queues: self.queues.insert(
                para,
                if processed > queue.len() {
                    Seq::empty()
                } else {
                    queue.skip(processed as int)
                },
            ),
            heads: self.heads,
        }
    }

    /// The state after the queue and the head of `para` were removed.
    pub open spec fn remove_para(self, para: ParaId) -> DmpView {
        DmpView { queues: self.queues.insert(para, Seq::empty()), heads: self.heads.insert(para, None) }
    }

    /// The length of the queue of `para`, capped at the largest `u32`.
    pub open spec fn length(self, para: ParaId) -> u32 {
        if self.queues[para].len() > u32::MAX {
            u32::MAX
        } else {
            self.queues[para].len() as u32
        }
    }
}

/// Queueing a message keeps the invariant.
pub proof fn lemma_queue_message_inv(state: DmpView, para: ParaId, msg: Seq<u8>, now: BlockNumber)
    requires
        state.inv(),
    ensures
        state.queue_message(para, msg, now).inv(),
        state.queue_message(para, msg, now).queues[para].len() == state.queues[para].len() + 1,
        state.queue_message(para, msg, now).heads[para] is Some,
{
}

/// Pruning keeps the invariant and leaves every head as it is.
pub proof fn lemma_prune_inv(state: DmpView, para: ParaId, processed: u32)
    requires
        state.inv(),
    ensures
        state.prune(para, processed).inv(),
        state.prune(para, processed).heads == state.heads,
{
}

/// Removing a para keeps the invariant and leaves the para without message
/// and without head.
pub proof fn lemma_remove_para_inv(state: DmpView, para: ParaId)
    requires
        state.inv(),
    ensures
        state.remove_para(para).inv(),
        state.remove_para(para).queues[para].len() == 0,
        state.remove_para(para).heads[para] is None,
{
}

/// Pruning no message changes nothing.
pub proof fn lemma_prune_nothing(state: DmpView, para: ParaId)
    requires
        state.inv(),
    ensures
        state.prune(para, 0) == state,
{
    assert(state.queues[para].skip(0) =~= state.queues[para]);
    assert(state.prune(para, 0).queues =~= state.queues);
}

/// Pruning a number of messages that the check allows shortens the queue of
/// the para by that number: none is left over and none too many goes.
pub proof fn lemma_prune_after_check(state: DmpView, para: ParaId, processed: u32)
    requires
        state.inv(),
        state.processed_allowed(para, processed),
    ensures
        state.prune(para, processed).queues[para].len() == state.queues[para].len() - processed,
        state.queues[para].len() <= u32::MAX ==> state.prune(para, processed).length(para)
            == state.length(para) - processed,
{
}

/// A message whose encoding has exactly the critical size fits; one byte more
/// and it does not.
pub proof fn lemma_critical_size(config: HostConfiguration, msg: Seq<u8>)
    ensures
        encoded_len(msg.len()) == config.critical_downward_message_size ==> downward_message_fits(
            config,
            msg,
        ),
        encoded_len(msg.len()) == config.critical_downward_message_size + 1
            ==> !downward_message_fits(config, msg),
{
}

/// What a stored queue holds, as mathematical values.
pub open spec fn queue_view(queue: Seq<InboundDownwardMessage>) -> Seq<InboundDownwardMessageView> {
    queue.map_values(|m: InboundDownwardMessage| m@)
}

/// The downward queues and chain heads of all paras.
pub struct Dmp {
    queues: BTreeMap<u32, Vec<InboundDownwardMessage>>,
    heads: BTreeMap<u32, H256>,
}

impl View for Dmp {
    type V = DmpView;

    closed spec fn view(&self) -> DmpView {
        DmpView {
            queues: Map::total(
                |p: ParaId|
                    if self.queues@.contains_key(p.0) {
                        queue_view(self.queues@[p.0]@)
                    } else {
                        Seq::empty()
                    },
            ),
            heads: Map::total(
                |p: ParaId|
                    if self.heads@.contains_key(p.0) {
                        Some(self.heads@[p.0]@)
                    } else {
                        None
                    },
            ),
        }
    }
}

impl Dmp {
    /// The invariant of the downward queues holds.
    pub closed spec fn wf(&self) -> bool {
        self@.inv()
    }

    /// A well-formed state satisfies the invariant of its view.
    pub proof fn lemma_wf(&self)
        requires
            self.wf(),
        ensures
            self@.inv(),
    {
    }

    /// The state without any message.
    pub fn new() -> (dmp: Dmp)
        ensures
            dmp.wf(),
            dmp@ == DmpView::empty(),
    {
        let dmp = Dmp { queues: BTreeMap::new(), heads: BTreeMap::new() };
        assert(dmp@.queues =~= DmpView::empty().queues);
        assert(dmp@.heads =~= DmpView::empty().heads);
        dmp
    }

    /// Queues a downward message for `para` in block `now` and extends the
    /// message queue chain of the para by it. A message whose encoding is
    /// longer than `config.critical_downward_message_size` is refused.
    pub fn queue_message(
        &mut self,
        config: &HostConfiguration,
        para: ParaId,
        msg: DownwardMessage,
        now: BlockNumber,
    ) -> (result: Result<(), Error>)
        requires
            old(self).wf(),
        ensures
            final(self).wf(),
            downward_message_fits(*config, msg@) ==> result is Ok && final(self)@ == old(
                self,
            )@.queue_message(para, msg@, now),
            !downward_message_fits(*config, msg@) ==> result == Err::<(), Error>(
                Error::DownwardMessageTooLarge,
            ) && final(self)@ == old(self)@,
    {
        if msg.len() > u32::MAX as usize {
            return Err(Error::DownwardMessageTooLarge);
        }
        let encoded = encode_bytes(&msg);
        proof {
            lemma_encoded_bytes_len(msg@);
        }
        if encoded.len() > config.critical_downward_message_size as usize {
            return Err(Error::DownwardMessageTooLarge);
        }
        let head: Option<H256> = match self.heads.get(&para.0) {
            Some(h) => Some(*h),
            None => None,
        };
        let new_head = mqc::append_encoded(&head, now, Ghost(msg@), &encoded);
        self.heads.insert(para.0, new_head);
        let mut queue = match self.queues.remove(&para.0) {
            Some(q) => q,
            None => Vec::new(),
        };
        let ghost before = queue@;
        let inbound = InboundDownwardMessage { sent_at: now, msg };
        queue.push(inbound);
        assert(queue_view(queue@) =~= queue_view(before).push(inbound@));
        self.queues.insert(para.0, queue);
        proof {
            let want = old(self)@.queue_message(para, msg@, now);
            assert(self@.queues =~~= want.queues);
            assert(self@.heads =~= want.heads);
        }
        Ok(())
    }

    /// Whether a candidate of `para` may claim to have processed `processed`
    /// downward messages.
    pub fn check_processed(&self, para: ParaId, processed: u32) -> (allowed: bool)
        requires
            self.wf(),
        ensures
            allowed == self@.processed_allowed(para, processed),
    {
        let pending = self.length(para);
        if pending > 0 && processed == 0 {
            return false;
        }
        if pending < processed {
            return false;
        }
        true
    }

    /// Drops the first `processed` messages from the queue of `para`, or all
    /// of them where fewer wait.
    pub fn prune(&mut self, para: ParaId, processed: u32)
        requires
            old(self).wf(),
        ensures
            final(self).wf(),
            final(self)@ == old(self)@.prune(para, processed),
    {
        match self.queues.remove(&para.0) {
            Some(mut queue) => {
                let ghost before = queue@;
                if processed as usize > queue.len() {
                    queue.clear();
                } else {
                    queue = queue.split_off(processed as usize);
                    assert(queue_view(queue@) =~= queue_view(before).skip(processed as int));
                }
                self.queues.insert(para.0, queue);
            },
            None => {},
        }
        proof {
            let want = old(self)@.prune(para, processed);
            assert(self@.queues =~~= want.queues);
            assert(self@.heads =~= want.heads);
        }
    }

    /// The head of the message queue chain of `para`, if a message was ever
    /// queued for it.
    pub fn mqc_head(&self, para: ParaId) -> (head: Option<H256>)
        requires
            self.wf(),
        ensures
            mqc::head_view(head) == self@.heads[para],
    {
        match self.heads.get(&para.0) {
            Some(h) => Some(*h),
            None => None,
        }
    }

    /// The number of messages that wait for `para`, capped at the largest
    /// `u32`.
    pub fn length(&self, para: ParaId) -> (len: u32)
        requires
            self.wf(),
        ensures
            len == self@.length(para),
    {
        match self.queues.get(&para.0) {
            Some(queue) => {
                if queue.len() > u32::MAX as usize {
                    u32::MAX
                } else {
                    queue.len() as u32
                }
            },
            None => 0,
        }
    }

    /// Removes the queue and the head of `para`.
    pub fn remove_para(&mut self, para: ParaId)
        requires
            old(self).wf(),
        ensures
            final(self).wf(),
            final(self)@ == old(self)@.remove_para(para),
    {
        self.queues.remove(&para.0);
        self.heads.remove(&para.0);
        proof {
            let want = old(self)@.remove_para(para);
            assert(self@.queues =~~= want.queues);
            assert(self@.heads =~= want.heads);
        }
    }
}

} // verus!
