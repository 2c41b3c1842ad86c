//! The router: the state of all messaging and the hooks that the host calls.
//!
//! Once per block the host calls [`Module::initializer_initialize`], then the
//! acceptance checks and enactments for each candidate, then
//! [`Module::process_pending_upward_messages`] and
//! [`Module::initializer_finalize`]. At a session boundary it calls
//! [`Module::initializer_on_new_session`], which removes every trace of the
//! paras that were scheduled for cleanup.

use vstd::prelude::*;
use core::marker::PhantomData;
use crate::configuration::HostConfiguration;
use crate::dmp::{downward_message_fits, Dmp, DmpView};
use crate::error::Error;
use crate::hrmp::{channel_id, Hrmp, HrmpView, ProposedLimits};
use crate::hrmp::inbox::not_after;
use crate::mqc;
use crate::para_list;
use crate::para_list::{strictly_ascending, with_para};
use crate::primitives::{Balance, BlockNumber, DownwardMessage, H256, HrmpChannelId, ParaId, SessionIndex, UpwardMessage, Weight};
use crate::ump::{messages_view, Ump, UmpView};
use crate::weights::{reads_writes, RuntimeDbWeight};

verus! {

/// What the router needs to know of the host it runs in.
pub trait Trait: Sized {
    /// The cost of storage access in this host. The router asks for it once,
    /// when it is made.
    fn db_weight() -> (weight: RuntimeDbWeight);
}

/// The host in which storage access costs nothing.
impl Trait for () {
    fn db_weight() -> (weight: RuntimeDbWeight)
        ensures
            weight == (RuntimeDbWeight { read: 0, write: 0 }),
    {
        RuntimeDbWeight { read: 0, write: 0 }
    }
}

/// What the host tells its modules when a session ends.
#[derive(Clone, Copy, Debug)]
pub struct SessionChangeNotification {
    /// The configuration of the session that ended.
    pub prev_config: HostConfiguration,
    /// The configuration of the session that begins.
    pub new_config: HostConfiguration,
    /// The number of the session that begins.
    pub session_index: SessionIndex,
}

impl Default for SessionChangeNotification {
    fn default() -> (notification: SessionChangeNotification)
        ensures
            notification.prev_config == HostConfiguration::zero(),
            notification.new_config == HostConfiguration::zero(),
            notification.session_index == 0,
    {
        SessionChangeNotification {
            prev_config: HostConfiguration::default(),
            new_config: HostConfiguration::default(),
            session_index: 0,
        }
    }
}

/// The state of the router, as mathematical values.
#[verifier::ext_equal]
pub struct RouterView {
    /// The cost of storage access in the host.
    pub db_weight: RuntimeDbWeight,
    /// The paras to be cleaned up when the session ends, in ascending order.
    pub outgoing_paras: Seq<ParaId>,
    /// Downward message passing.
    pub dmp: DmpView,
    /// Upward message passing.
    pub ump: UmpView,
    /// Horizontal message passing.
    pub hrmp: HrmpView,
}

impl RouterView {
    /// The state in which nothing was sent and nothing is scheduled, in a
    /// host with the given cost of storage access.
    pub open spec fn empty(db_weight: RuntimeDbWeight) -> RouterView {
        RouterView {
            db_weight,
            outgoing_paras: Seq::empty(),
            dmp: DmpView::empty(),
            ump: UmpView::empty(),
            hrmp: HrmpView::empty(),
        }
    }

    /// The list of outgoing paras is strictly ascending, and the invariants
    /// of each messaging discipline hold.
    pub open spec fn inv(self) -> bool {
        &&& strictly_ascending(self.outgoing_paras)
        &&& self.dmp.inv()
        &&& self.ump.inv()
        &&& self.hrmp.inv()
    }

    /// The state after `id` was scheduled for cleanup.
    pub open spec fn schedule_para_cleanup(self, id: ParaId) -> RouterView {
        RouterView { outgoing_paras: with_para(self.outgoing_paras, id), ..self }
    }

    /// The state after everything about `para` was removed. Its channels
    /// are registered for closing; they go when the session ends.
    pub open spec fn remove_para(self, para: ParaId) -> RouterView {
        RouterView {
            dmp: self.dmp.remove_para(para),
            ump: self.ump.remove_para(para),
            hrmp: self.hrmp.remove_para(para),
            ..self
        }
    }

    /// The state after everything about each of `paras` was removed, one
    /// para after the other.
    pub open spec fn remove_paras(self, paras: Seq<ParaId>) -> RouterView
        decreases paras.len(),
    {
        if paras.len() == 0 {
            self
        } else {
            self.remove_paras(paras.drop_last()).remove_para(paras.last())
        }
    }

    /// The state after a session ended, where requests to open a channel
    /// live for `ttl` sessions: the outgoing paras are removed and none is
    /// scheduled any more, the pending requests are settled, and the channels
    /// registered for closing are closed.
    pub open spec fn on_new_session(self, ttl: SessionIndex) -> RouterView {
        let removed = self.remove_paras(self.outgoing_paras);
        RouterView {
            outgoing_paras: Seq::empty(),
            hrmp: removed.hrmp.on_session_end(ttl),
            ..removed
        }
    }
}

/// The router of a relay chain that runs in the host `T`.
pub struct Module<T: Trait> {
    db_weight: RuntimeDbWeight,
    outgoing_paras: Vec<ParaId>,
    dmp: Dmp,
    ump: Ump,
    hrmp: Hrmp,
    host: PhantomData<T>,
}

impl<T: Trait> View for Module<T> {
    type V = RouterView;

    closed spec fn view(&self) -> RouterView {
        RouterView {
            db_weight: self.db_weight,
            outgoing_paras: self.outgoing_paras@,
            dmp: self.dmp@,
            ump: self.ump@,
            hrmp: self.hrmp@,
        }
    }
}

impl<T: Trait> Module<T> {
    /// The invariants of the router hold.
    pub closed spec fn wf(&self) -> bool {
        &&& strictly_ascending(self.outgoing_paras@)
        &&& self.dmp.wf()
        &&& self.ump.wf()
        &&& self.hrmp.wf()
    }

    /// A well-formed router satisfies the invariant of its view.
    pub proof fn lemma_wf(&self)
        requires
            self.wf(),
        ensures
            self@.inv(),
    {
        self.dmp.lemma_wf();
        self.ump.lemma_wf();
        self.hrmp.lemma_wf();
    }

    /// The router of a chain on which nothing happened yet. It takes the
    /// cost of storage access from the host.
    pub fn new() -> (router: Self)
        ensures
            router.wf(),
            router@ == RouterView::empty(router@.db_weight),
    {
        Module {
            db_weight: T::db_weight(),
            outgoing_paras: Vec::new(),
            dmp: Dmp::new(),
            ump: Ump::new(),
            hrmp: Hrmp::new(),
            host: PhantomData,
        }
    }

    /// Called when a block begins. The router has nothing to do then and
    /// reports no weight.
    pub fn initializer_initialize(&mut self, now: BlockNumber) -> (weight: Weight)
        ensures
            weight == 0,
            *final(self) == *old(self),
    {
        0
    }

    /// Called when a block ends. The router has nothing to do then.
    pub fn initializer_finalize(&mut self)
        ensures
            *final(self) == *old(self),
    {
    }

    /// Called when a session ends: removes the queues, heads and bookkeeping
    /// of every para scheduled for cleanup and empties the schedule, then
    /// settles the pending requests to open a channel and closes the
    /// channels registered for closing. Requests live as long as the
    /// configuration of the session that ended says.
    pub fn initializer_on_new_session(&mut self, notification: &SessionChangeNotification)
        requires
            old(self).wf(),
        ensures
            final(self).wf(),
            final(self)@ == old(self)@.on_new_session(
                notification.prev_config.hrmp_open_request_ttl,
            ),
    {
        let mut outgoing: Vec<ParaId> = Vec::new();
        core::mem::swap(&mut outgoing, &mut self.outgoing_paras);
        let ghost start = self@;
        let mut i: usize = 0;
        while i < outgoing.len()
            invariant
                0 <= i <= outgoing@.len(),
                self.outgoing_paras@ == Seq::<ParaId>::empty(),
                self.dmp.wf(),
                self.ump.wf(),
                self.hrmp.wf(),
                self@ == start.remove_paras(outgoing@.take(i as int)),
            decreases outgoing@.len() - i,
        {
            let outgoing_para = outgoing[i];
            self.dmp.remove_para(outgoing_para);
            self.ump.remove_para(outgoing_para);
            self.hrmp.remove_para(outgoing_para);
            proof {
                assert(outgoing@.take(i + 1).drop_last() =~= outgoing@.take(i as int));
            }
            i = i + 1;
        }
        proof {
            assert(outgoing@.take(i as int) =~= outgoing@);
            lemma_remove_paras_keeps_schedule(start, outgoing@);
            lemma_remove_paras_keeps_schedule(old(self)@, outgoing@);
            lemma_remove_paras_ignores_schedule(start, old(self)@, outgoing@);
        }
        self.hrmp.on_session_end(notification.prev_config.hrmp_open_request_ttl);
    }

    /// Schedules a para to be cleaned up when the session ends.
    pub fn schedule_para_cleanup(&mut self, id: ParaId)
        requires
            old(self).wf(),
        ensures
            final(self).wf(),
            final(self)@ == old(self)@.schedule_para_cleanup(id),
    {
        para_list::insert(&mut self.outgoing_paras, id);
    }

    /// Queues a downward message for `para` in block `now`.
    ///
    /// The message is refused where its encoding is longer than
    /// `config.critical_downward_message_size`. Else it is put at the end of
    /// the queue of the para, and the head of the message queue chain of
    /// the para is extended by it.
    pub fn queue_downward_message(
        &mut self,
        config: &HostConfiguration,
        para: ParaId,
        msg: DownwardMessage,
        now: BlockNumber,
    ) -> (result: Result<(), Error>)
        requires
            old(self).wf(),
        ensures
            final(self).wf(),
            downward_message_fits(*config, msg@) ==> result is Ok && final(self)@ == (RouterView {
                dmp: old(self)@.dmp.queue_message(para, msg@, now),
                ..old(self)@
            }),
            !downward_message_fits(*config, msg@) ==> result == Err::<(), Error>(
                Error::DownwardMessageTooLarge,
            ) && final(self)@ == old(self)@,
    {
        self.dmp.queue_message(config, para, msg, now)
    }

    /// Whether a candidate of `para` may claim to have processed
    /// `processed_downward_messages` messages: none where no message waits,
    /// else at least one and no more than wait.
    pub fn check_processed_downward_messages(
        &self,
        para: ParaId,
        processed_downward_messages: u32,
    ) -> (allowed: bool)
        requires
            self.wf(),
        ensures
            allowed == self@.dmp.processed_allowed(para, processed_downward_messages),
    {
        self.dmp.check_processed(para, processed_downward_messages)
    }

    /// Whether the upward messages of a candidate of `para` may be enacted.
    pub fn check_upward_messages(
        &self,
        config: &HostConfiguration,
        para: ParaId,
        upward_messages: &[UpwardMessage],
    ) -> (allowed: bool)
        requires
            self.wf(),
        ensures
            allowed == self@.ump.messages_allowed(*config, para, messages_view(upward_messages@)),
    {
        self.ump.check_messages(config, para, upward_messages)
    }

    /// Whether the upward messages of a candidate of `para` can be enacted
    /// without the cached size of its queue leaving the range of a `u32`.
    /// Messages that the check allows always can.
    pub fn upward_messages_fit(&self, para: ParaId, upward_messages: &[UpwardMessage]) -> (fit: bool)
        requires
            self.wf(),
        ensures
            fit == self@.ump.size_fits(para, messages_view(upward_messages@)),
    {
        self.ump.messages_fit(para, upward_messages)
    }

    /// Puts the upward messages of a candidate of `para` into its dispatch
    /// queue and returns the weight of doing so: that of three reads and
    /// three writes, or none where there is no message.
    pub fn enact_upward_messages(&mut self, para: ParaId, upward_messages: &[UpwardMessage]) -> (weight:
        Weight)
        requires
            old(self).wf(),
            old(self)@.ump.size_fits(para, messages_view(upward_messages@)),
        ensures
            final(self).wf(),
            final(self)@ == (RouterView {
                ump: old(self)@.ump.enact(para, messages_view(upward_messages@)),
                ..old(self)@
            }),
            weight == if upward_messages@.len() == 0 {
                0
            } else {
                old(self)@.db_weight.spec_reads_writes(3, 3)
            },
    {
        let mut weight: Weight = 0;
        if upward_messages.len() > 0 {
            self.ump.enact(para, upward_messages);
            weight = reads_writes(self.db_weight, 3, 3);
        }
        weight
    }

    /// Drops the first `processed_downward_messages` messages from the
    /// downward queue of `para`, or all of them where fewer wait, and returns
    /// the weight of one read and one write. The head of the message queue
    /// chain stays as it is.
    pub fn prune_dmq(&mut self, para: ParaId, processed_downward_messages: u32) -> (weight: Weight)
        requires
            old(self).wf(),
        ensures
            final(self).wf(),
            final(self)@ == (RouterView {
                dmp: old(self)@.dmp.prune(para, processed_downward_messages),
                ..old(self)@
            }),
            weight == old(self)@.db_weight.spec_reads_writes(1, 1),
    {
        self.dmp.prune(para, processed_downward_messages);
        reads_writes(self.db_weight, 1, 1)
    }

    /// The head of the message queue chain of the downward queue of `para`,
    /// or `None` where no message was queued for the para since it was last
    /// cleaned up.
    pub fn dmq_mqc_head(&self, para: ParaId) -> (head: Option<H256>)
        requires
            self.wf(),
        ensures
            mqc::head_view(head) == self@.dmp.heads[para],
    {
        self.dmp.mqc_head(para)
    }

    /// The number of downward messages that wait for `para`, capped at the
    /// largest `u32`.
    pub fn dmq_length(&self, para: ParaId) -> (len: u32)
        requires
            self.wf(),
        ensures
            len == self@.dmp.length(para),
    {
        self.dmp.length(para)
    }

    /// Spends the budget of one block on dispatching upward messages.
    pub fn process_pending_upward_messages(&mut self, config: &HostConfiguration)
        requires
            old(self).wf(),
        ensures
            final(self).wf(),
            final(self)@ == (RouterView {
                ump: old(self)@.ump.process_pending(*config),
                ..old(self)@
            }),
    {
        self.ump.process_pending(config);
    }

    /// Asks for a channel from `sender` to `recipient` with `limits`, and
    /// records the deposit of the sender.
    ///
    /// The request is refused where the channel is open or asked for
    /// already, where the sender has as many requests pending as a para may
    /// have outbound channels, and where a limit is above that of the
    /// configuration.
    pub fn hrmp_init_open_channel(
        &mut self,
        config: &HostConfiguration,
        sender: ParaId,
        recipient: ParaId,
        limits: ProposedLimits,
        sender_deposit: Balance,
    ) -> (result: Result<(), Error>)
        requires
            old(self).wf(),
        ensures
            final(self).wf(),
            old(self)@.hrmp.open_request_allowed(*config, channel_id(sender, recipient), limits)
                ==> result is Ok && final(self)@ == (RouterView {
                hrmp: old(self)@.hrmp.init_open_channel(
                    channel_id(sender, recipient),
                    limits,
                    sender_deposit,
                ),
                ..old(self)@
            }),
            !old(self)@.hrmp.open_request_allowed(*config, channel_id(sender, recipient), limits)
                ==> result == Err::<(), Error>(Error::HrmpOpenRequestInvalid) && final(self)@
                == old(self)@,
    {
        self.hrmp.init_open_channel(
            config,
            HrmpChannelId { sender, recipient },
            limits,
            sender_deposit,
        )
    }

    /// Confirms, for `recipient`, the request for a channel from `sender`,
    /// and records the deposit of the recipient.
    ///
    /// The confirmation is refused where there is no unconfirmed request for
    /// the channel, and where the recipient has confirmed as many requests
    /// as a para may have inbound channels.
    pub fn hrmp_accept_open_channel(
        &mut self,
        config: &HostConfiguration,
        recipient: ParaId,
        sender: ParaId,
        recipient_deposit: Balance,
    ) -> (result: Result<(), Error>)
        requires
            old(self).wf(),
        ensures
            final(self).wf(),
            old(self)@.hrmp.accept_allowed(*config, channel_id(sender, recipient)) ==> result is Ok
                && final(self)@ == (RouterView {
                hrmp: old(self)@.hrmp.accept_open_channel(
                    channel_id(sender, recipient),
                    recipient_deposit,
                ),
                ..old(self)@
            }),
            !old(self)@.hrmp.accept_allowed(*config, channel_id(sender, recipient)) ==> result
                == Err::<(), Error>(Error::HrmpAcceptInvalid) && final(self)@ == old(self)@,
    {
        self.hrmp.accept_open_channel(config, HrmpChannelId { sender, recipient }, recipient_deposit)
    }

    /// Registers the channel `id` for closing at the end of the session, on
    /// behalf of `origin`, which must be one of its two ends; for any other
    /// para nothing is registered.
    pub fn hrmp_close_channel(&mut self, origin: ParaId, id: HrmpChannelId)
        requires
            old(self).wf(),
        ensures
            final(self).wf(),
            final(self)@ == (RouterView {
                hrmp: old(self)@.hrmp.close_channel(origin, id),
                ..old(self)@
            }),
    {
        self.hrmp.close_channel(origin, id);
    }

    /// Whether `sender` may send `data` to `recipient`: the channel between
    /// them is open, the message is no larger than the channel allows, and
    /// the channel has a place and the bytes left for it.
    pub fn check_outbound_hrmp(&self, sender: ParaId, recipient: ParaId, data: &[u8]) -> (result: Result<
        (),
        Error,
    >)
        requires
            self.wf(),
        ensures
            self@.hrmp.message_allowed(sender, recipient, data@) ==> result is Ok,
            !self@.hrmp.message_allowed(sender, recipient, data@) ==> result == Err::<(), Error>(
                Error::HrmpMessageRejected,
            ),
    {
        self.hrmp.check_outbound_message(sender, recipient, data)
    }

    /// Sends `data` from `sender` to `recipient` in block `now`; refused
    /// where the check refuses it. Block numbers do not go back: `now` must
    /// not lie before a block that the digest of the recipient names.
    pub fn queue_outbound_hrmp(
        &mut self,
        sender: ParaId,
        recipient: ParaId,
        data: Vec<u8>,
        now: BlockNumber,
    ) -> (result: Result<(), Error>)
        requires
            old(self).wf(),
            not_after(old(self)@.hrmp.inbox.digests[recipient], now),
        ensures
            final(self).wf(),
            old(self)@.hrmp.message_allowed(sender, recipient, data@) ==> result is Ok && final(self)@ == (RouterView {
                hrmp: old(self)@.hrmp.send(sender, recipient, data@, now),
                ..old(self)@
            }),
            !old(self)@.hrmp.message_allowed(sender, recipient, data@) ==> result == Err::<
                (),
                Error,
            >(Error::HrmpMessageRejected) && final(self)@ == old(self)@,
    {
        self.hrmp.send(sender, recipient, data, now)
    }

    /// Whether `recipient` may move its watermark to `watermark` in block
    /// `now`.
    pub fn check_hrmp_watermark(&self, recipient: ParaId, now: BlockNumber, watermark: BlockNumber) -> (result:
        Result<(), Error>)
        requires
            self.wf(),
        ensures
            self@.hrmp.watermark_allowed(recipient, now, watermark) ==> result is Ok,
            !self@.hrmp.watermark_allowed(recipient, now, watermark) ==> result == Err::<(), Error>(
                Error::HrmpWatermarkInvalid,
            ),
    {
        self.hrmp.check_watermark(recipient, now, watermark)
    }

    /// Moves the watermark of `recipient` to `watermark` in block `now` and
    /// drops what the recipient has acknowledged with that; refused where
    /// the check refuses it.
    pub fn prune_hrmp(&mut self, recipient: ParaId, now: BlockNumber, watermark: BlockNumber) -> (result:
        Result<(), Error>)
        requires
            old(self).wf(),
        ensures
            final(self).wf(),
            old(self)@.hrmp.watermark_allowed(recipient, now, watermark) ==> result is Ok && final(self)@ == (RouterView {
                hrmp: old(self)@.hrmp.advance_watermark(recipient, watermark),
                ..old(self)@
            }),
            !old(self)@.hrmp.watermark_allowed(recipient, now, watermark) ==> result == Err::<
                (),
                Error,
            >(Error::HrmpWatermarkInvalid) && final(self)@ == old(self)@,
    {
        self.hrmp.advance_watermark(recipient, now, watermark)
    }

    /// The cost of storage access that the router reckons with.
    pub fn db_weight(&self) -> (weight: RuntimeDbWeight)
        ensures
            weight == self@.db_weight,
    {
        self.db_weight
    }

    /// The state of horizontal message passing, for queries.
    pub fn hrmp(&self) -> (hrmp: &Hrmp)
        ensures
            hrmp@ == self@.hrmp,
            self.wf() ==> hrmp.wf(),
    {
        &self.hrmp
    }

    /// The paras scheduled for cleanup, in ascending order.
    pub fn outgoing_paras(&self) -> (list: &Vec<ParaId>)
        ensures
            list@ == self@.outgoing_paras,
    {
        &self.outgoing_paras
    }

    /// The cached size of the upward queue of `para`: the number of its
    /// messages and of their payload bytes.
    pub fn relay_dispatch_queue_size(&self, para: ParaId) -> (size: (u32, u32))
        requires
            self.wf(),
        ensures
            size == self@.ump.sizes[para],
            size.0 == self@.ump.queues[para].len(),
            size.1 == crate::ump::total_bytes(self@.ump.queues[para]),
    {
        self.ump.queue_size(para)
    }

    /// The paras whose upward queue holds a message, in ascending order.
    pub fn needs_dispatch(&self) -> (list: &Vec<ParaId>)
        ensures
            list@ == self@.ump.needs_dispatch,
    {
        self.ump.needs_dispatch()
    }

    /// The para with which the next round of dispatching starts.
    pub fn next_dispatch_round_start_with(&self) -> (cursor: Option<ParaId>)
        ensures
            cursor == self@.ump.next_dispatch_round_start_with,
    {
        self.ump.next_dispatch_round_start_with()
    }
}

/// Scheduling a para twice is the same as scheduling it once.
pub proof fn lemma_schedule_idempotent(state: RouterView, id: ParaId)
    requires
        state.inv(),
    ensures
        state.schedule_para_cleanup(id).schedule_para_cleanup(id) == state.schedule_para_cleanup(
            id,
        ),
        state.schedule_para_cleanup(id).inv(),
        state.schedule_para_cleanup(id).outgoing_paras.contains(id),
{
    para_list::lemma_with_para(state.outgoing_paras, id);
    para_list::lemma_with_para_idempotent(state.outgoing_paras, id);
}

/// Removing a list of paras keeps the invariant, leaves each of them without
/// a downward message, a chain head or an upward message, out of the list of
/// paras in need of dispatch and away from the cursor, and on its way out of
/// horizontal message passing; it leaves the queues and heads of every other
/// para as they were.
pub proof fn lemma_remove_paras(state: RouterView, paras: Seq<ParaId>, para: ParaId)
    requires
        state.inv(),
    ensures
        state.remove_paras(paras).inv(),
        state.ump.cursor_valid() ==> state.remove_paras(paras).ump.cursor_valid(),
        state.hrmp.leaving(para) ==> state.remove_paras(paras).hrmp.leaving(para),
        paras.contains(para) ==> {
            let after = state.remove_paras(paras);
            &&& after.dmp.queues[para].len() == 0
            &&& after.dmp.heads[para] is None
            &&& after.ump.queues[para].len() == 0
            &&& after.ump.sizes[para] == (0u32, 0u32)
            &&& !after.ump.needs_dispatch.contains(para)
            &&& after.ump.next_dispatch_round_start_with != Some(para)
            &&& after.hrmp.leaving(para)
        },
        !paras.contains(para) ==> {
            let after = state.remove_paras(paras);
            &&& after.dmp.queues[para] == state.dmp.queues[para]
            &&& after.dmp.heads[para] == state.dmp.heads[para]
            &&& after.ump.queues[para] == state.ump.queues[para]
            &&& after.ump.sizes[para] == state.ump.sizes[para]
            &&& after.ump.needs_dispatch.contains(para) == state.ump.needs_dispatch.contains(para)
        },
    decreases paras.len(),
{
    if paras.len() > 0 {
        let front = paras.drop_last();
        let last = paras.last();
        let mid = state.remove_paras(front);
        lemma_remove_paras(state, front, para);
        crate::dmp::lemma_remove_para_inv(mid.dmp, last);
        crate::ump::lemma_remove_para_inv(mid.ump, last);
        crate::hrmp::lemma_remove_para(mid.hrmp, last, para);
        para_list::lemma_without_para(mid.ump.needs_dispatch, last);
        if paras.contains(para) {
            let k = choose|k: int| 0 <= k < paras.len() && paras[k] == para;
            if k < front.len() {
                assert(front[k] == para);
            }
        } else {
            assert(paras[paras.len() - 1] != para);
            if front.contains(para) {
                let k = choose|k: int| 0 <= k < front.len() && front[k] == para;
                assert(paras[k] == para);
            }
        }
    }
}

/// The end of a session keeps the invariant, empties the schedule and
/// removes what the router held of every para that was scheduled: its
/// downward queue and chain head, its upward queue with its bookkeeping, its
/// channels with their contents, the requests that name it, its entries in
/// the indexes of its peers, its watermark and its digest. The queues and
/// heads of every other para stay as they were.
pub proof fn lemma_on_new_session(state: RouterView, ttl: SessionIndex, para: ParaId)
    requires
        state.inv(),
    ensures
        state.on_new_session(ttl).inv(),
        state.on_new_session(ttl).outgoing_paras.len() == 0,
        state.ump.cursor_valid() ==> state.on_new_session(ttl).ump.cursor_valid(),
        state.outgoing_paras.contains(para) ==> {
            let after = state.on_new_session(ttl);
            &&& after.dmp.queues[para].len() == 0
            &&& after.dmp.heads[para] is None
            &&& after.ump.queues[para].len() == 0
            &&& after.ump.sizes[para] == (0u32, 0u32)
            &&& !after.ump.needs_dispatch.contains(para)
            &&& after.ump.next_dispatch_round_start_with != Some(para)
            &&& after.hrmp.gone(para)
        },
        !state.outgoing_paras.contains(para) ==> {
            let after = state.on_new_session(ttl);
            &&& after.dmp.queues[para] == state.dmp.queues[para]
            &&& after.dmp.heads[para] == state.dmp.heads[para]
            &&& after.ump.queues[para] == state.ump.queues[para]
            &&& after.ump.sizes[para] == state.ump.sizes[para]
        },
{
    let removed = state.remove_paras(state.outgoing_paras);
    lemma_remove_paras(state, state.outgoing_paras, para);
    crate::hrmp::lemma_on_session_end_inv(removed.hrmp, ttl);
    if state.outgoing_paras.contains(para) {
        crate::hrmp::lemma_session_end_removes(removed.hrmp, para, ttl);
    }
}

/// Removing paras leaves the schedule as it is.
proof fn lemma_remove_paras_keeps_schedule(state: RouterView, paras: Seq<ParaId>)
    ensures
        state.remove_paras(paras).outgoing_paras == state.outgoing_paras,
    decreases paras.len(),
{
    if paras.len() > 0 {
        lemma_remove_paras_keeps_schedule(state, paras.drop_last());
    }
}

/// What removing paras does to the queues does not depend on the schedule.
proof fn lemma_remove_paras_ignores_schedule(first: RouterView, second: RouterView, paras: Seq<ParaId>)
    requires
        first.dmp == second.dmp,
        first.ump == second.ump,
        first.hrmp == second.hrmp,
        first.db_weight == second.db_weight,
    ensures
        first.remove_paras(paras).db_weight == second.remove_paras(paras).db_weight,
        first.remove_paras(paras).dmp == second.remove_paras(paras).dmp,
        first.remove_paras(paras).ump == second.remove_paras(paras).ump,
        first.remove_paras(paras).hrmp == second.remove_paras(paras).hrmp,
    decreases paras.len(),
{
    if paras.len() > 0 {
        lemma_remove_paras_ignores_schedule(first, second, paras.drop_last());
    }
}

} // verus!
