//! Upward message passing: from a para to the relay chain.
//!
//! The messages that a para sent wait in its dispatch queue, first in, first
//! out. The sizes of the queues are cached, the paras whose queue is not
//! empty are listed in ascending order, and a cursor remembers with which
//! para the next round of dispatching starts.

use vstd::prelude::*;
use std::collections::BTreeMap;
use std::collections::VecDeque;
use crate::configuration::HostConfiguration;
use crate::para_list;
use crate::para_list::{position, strictly_ascending, with_para, without_para};
use crate::primitives::{ParaId, UpwardMessage, Weight};
use crate::xcm::{estimate_weight, execute, Xcm};

verus! {

/// The upward queues with their bookkeeping, as mathematical values. Both
/// maps are total: a para without messages has the empty queue and the size
/// `(0, 0)`.
#[verifier::ext_equal]
pub struct UmpView {
    /// The messages that wait for dispatch, per para, oldest first.
    pub queues: Map<ParaId, Seq<Seq<u8>>>,
    /// Per para, the number of waiting messages and of their payload bytes.
    pub sizes: Map<ParaId, (u32, u32)>,
    /// The paras whose queue is not empty.
    pub needs_dispatch: Seq<ParaId>,
    /// The para with which the next round of dispatching starts.
    pub next_dispatch_round_start_with: Option<ParaId>,
}

/// The number of payload bytes in a sequence of messages.
pub open spec fn total_bytes(msgs: Seq<Seq<u8>>) -> nat
    decreases msgs.len(),
{
    if msgs.len() == 0 {
        0
    } else {
        total_bytes(msgs.drop_last()) + msgs.last().len()
    }
}

/// What a slice of messages holds, as mathematical values.
pub open spec fn messages_view(msgs: Seq<UpwardMessage>) -> Seq<Seq<u8>> {
    msgs.map_values(|m: UpwardMessage| m@)
}

/// The bytes of a sequence of messages are the bytes of any front part of it
/// and the bytes of the rest.
pub proof fn lemma_total_bytes_concat(first: Seq<Seq<u8>>, second: Seq<Seq<u8>>)
    ensures
        total_bytes(first + second) == total_bytes(first) + total_bytes(second),
    decreases second.len(),
{
    if second.len() == 0 {
        assert(first + second =~= first);
    } else {
        lemma_total_bytes_concat(first, second.drop_last());
        assert((first + second).drop_last() =~= first + second.drop_last());
    }
}

/// Taking the first message away lowers the bytes by its length.
pub proof fn lemma_total_bytes_drop_first(msgs: Seq<Seq<u8>>)
    requires
        msgs.len() > 0,
    ensures
        total_bytes(msgs) == msgs[0].len() + total_bytes(msgs.drop_first()),
{
    let head = seq![msgs[0]];
    assert(head + msgs.drop_first() =~= msgs);
    lemma_total_bytes_concat(head, msgs.drop_first());
    assert(head.drop_last() =~= Seq::<Seq<u8>>::empty());
    assert(total_bytes(head) == total_bytes(head.drop_last()) + head.last().len());
}

/// One step round a ring of `len` places leads to the next place, and from the
/// last place to the first.
proof fn lemma_step_wraps(at: int, len: int)
    requires
        0 <= at < len,
    ensures
        (at + 1) % len == if at + 1 == len {
            0
        } else {
            at + 1
        },
{
    if at + 1 == len {
        assert(len % len == 0) by (nonlinear_arith)
            requires
                len > 0,
        ;
    } else {
        assert((at + 1) % len == at + 1) by (nonlinear_arith)
            requires
                0 <= at + 1 < len,
        ;
    }
}

/// The number of messages that wait in the queues of the listed paras.
pub open spec fn pending(needs: Seq<ParaId>, queues: Map<ParaId, Seq<Seq<u8>>>) -> nat
    decreases needs.len(),
{
    if needs.len() == 0 {
        0
    } else {
        pending(needs.drop_last(), queues) + queues[needs.last()].len()
    }
}

/// The count of waiting messages depends only on the lengths of the queues of
/// the listed paras.
proof fn lemma_pending_agree(
    needs: Seq<ParaId>,
    first: Map<ParaId, Seq<Seq<u8>>>,
    second: Map<ParaId, Seq<Seq<u8>>>,
)
    requires
        forall|i: int| 0 <= i < needs.len() ==> first[needs[i]].len() == second[needs[i]].len(),
    ensures
        pending(needs, first) == pending(needs, second),
    decreases needs.len(),
{
    if needs.len() > 0 {
        let front = needs.drop_last();
        assert forall|i: int| 0 <= i < front.len() implies first[front[i]].len()
            == second[front[i]].len() by {
            assert(front[i] == needs[i]);
        }
        lemma_pending_agree(front, first, second);
        assert(needs.last() == needs[needs.len() - 1]);
    }
}

/// Striking a para from the list lowers the count by the length of its queue.
proof fn lemma_pending_remove(needs: Seq<ParaId>, queues: Map<ParaId, Seq<Seq<u8>>>, at: int)
    requires
        0 <= at < needs.len(),
    ensures
        pending(needs, queues) == pending(needs.remove(at), queues) + queues[needs[at]].len(),
    decreases needs.len(),
{
    let front = needs.drop_last();
    if at == needs.len() - 1 {
        assert(needs.remove(at) =~= front);
    } else {
        lemma_pending_remove(front, queues, at);
        assert(needs.remove(at).drop_last() =~= front.remove(at));
        assert(needs.remove(at).last() == needs.last());
    }
}

impl UmpView {
    /// The state in which no para has an upward message.
    pub open spec fn empty() -> UmpView {
        UmpView {
            queues: Map::total(|p: ParaId| Seq::empty()),
            sizes: Map::total(|p: ParaId| (0u32, 0u32)),
            needs_dispatch: Seq::empty(),
            next_dispatch_round_start_with: None,
        }
    }

    /// Both maps are total; the cached size of every queue is its number of
    /// messages and of payload bytes; the list of paras in need of dispatch
    /// is strictly ascending and holds exactly the paras with a message.
    pub open spec fn inv(self) -> bool {
        &&& forall|p: ParaId| self.queues.dom().contains(p)
        &&& forall|p: ParaId| self.sizes.dom().contains(p)
        &&& forall|p: ParaId|
            (#[trigger] self.sizes[p]).0 == self.queues[p].len() && self.sizes[p].1 == total_bytes(
                self.queues[p],
            )
        &&& strictly_ascending(self.needs_dispatch)
        &&& forall|p: ParaId| #[trigger]
            self.needs_dispatch.contains(p) <==> self.queues[p].len() > 0
    }

    /// The cursor, where it is set, names a para in need of dispatch.
    pub open spec fn cursor_valid(self) -> bool {
        match self.next_dispatch_round_start_with {
            Some(p) => self.needs_dispatch.contains(p),
            None => true,
        }
    }

    /// Whether a candidate of `para` may send `msgs`: no more messages than
    /// one candidate may send, and with them the queue of the para stays
    /// within the configured count and size.
    pub open spec fn messages_allowed(
        self,
        config: HostConfiguration,
        para: ParaId,
        msgs: Seq<Seq<u8>>,
    ) -> bool {
        &&& msgs.len() <= config.max_upward_message_num_per_candidate
        &&& self.sizes[para].0 + msgs.len() <= config.max_upward_queue_count
        &&& self.sizes[para].1 + total_bytes(msgs) <= config.max_upward_queue_size
    }

    /// Whether the cached size of the queue of `para` can take `msgs` without
    /// leaving the range of a `u32`.
    pub open spec fn size_fits(self, para: ParaId, msgs: Seq<Seq<u8>>) -> bool {
        &&& self.sizes[para].0 + msgs.len() <= u32::MAX
        &&& self.sizes[para].1 + total_bytes(msgs) <= u32::MAX
    }

    /// The state after the messages of a candidate of `para` were put at the
    /// end of its queue. Without messages, the state stays as it is.
    pub open spec fn enact(self, para: ParaId, msgs: Seq<Seq<u8>>) -> UmpView {
        if msgs.len() == 0 {
            self
        } else {
            UmpView {
                queues: self.queues.insert(para, self.queues[para] + msgs),
                sizes: self.sizes.insert(
                    para,
                    (
                        (self.sizes[para].0 + msgs.len()) as u32,
                        (self.sizes[para].1 + total_bytes(msgs)) as u32,
                    ),
                ),
                needs_dispatch: with_para(self.needs_dispatch, para),
                next_dispatch_round_start_with: self.next_dispatch_round_start_with,
            }
        }
    }

    /// The index in the list of paras in need of dispatch at which a round
    /// starts: that of the para that the cursor names, or the first where the
    /// cursor is not set or names a para that is not in the list.
    pub open spec fn start_index(self) -> int {
        match self.next_dispatch_round_start_with {
            Some(p) => if self.needs_dispatch.contains(p) {
                position(self.needs_dispatch, p)
            } else {
                0
            },
            None => 0,
        }
    }

    /// The state after one run of the dispatcher.
    ///
    /// The dispatcher visits the paras in need of dispatch in turn, beginning
    /// at the cursor, and takes one message from the queue of each until the
    /// weight spent reaches the budget of the configuration or no message is
    /// left. The cursor moves past a para before the budget is looked at. No
    /// message can be decoded, so each is dropped at no weight: with a budget
    /// of zero the run ends at the first para and only the cursor moves, and
    /// with any other budget the run empties every queue.
    pub open spec fn process_pending(self, config: HostConfiguration) -> UmpView {
        let needs = self.needs_dispatch;
        if needs.len() == 0 {
            UmpView { next_dispatch_round_start_with: None, ..self }
        } else if config.preferred_dispatchable_upward_messages_step_weight == 0 {
            UmpView {
                next_dispatch_round_start_with: Some(
                    needs[(self.start_index() + 1) % (needs.len() as int)],
                ),
                ..self
            }
        } else {
            UmpView::empty()
        }
    }

    /// The state after everything about `para` was removed. The cursor is
    /// cleared where it named the para.
    pub open spec fn remove_para(self, para: ParaId) -> UmpView {
        UmpView {
            queues: self.queues.insert(para, Seq::empty()),
            sizes: self.sizes.insert(para, (0u32, 0u32)),
            needs_dispatch: without_para(self.needs_dispatch, para),
            next_dispatch_round_start_with: if self.next_dispatch_round_start_with == Some(para) {
                None
            } else {
                self.next_dispatch_round_start_with
            },
        }
    }
}

/// Enacting messages whose sizes fit keeps the invariant and the validity of
/// the cursor.
pub proof fn lemma_enact_inv(state: UmpView, para: ParaId, msgs: Seq<Seq<u8>>)
    requires
        state.inv(),
        state.size_fits(para, msgs),
    ensures
        state.enact(para, msgs).inv(),
        state.cursor_valid() ==> state.enact(para, msgs).cursor_valid(),
{
    if msgs.len() > 0 {
        para_list::lemma_with_para(state.needs_dispatch, para);
        lemma_total_bytes_concat(state.queues[para], msgs);
    }
}

/// Removing a para keeps the invariant and the validity of the cursor, and
/// leaves the para without message.
pub proof fn lemma_remove_para_inv(state: UmpView, para: ParaId)
    requires
        state.inv(),
    ensures
        state.remove_para(para).inv(),
        state.cursor_valid() ==> state.remove_para(para).cursor_valid(),
        state.remove_para(para).queues[para].len() == 0,
        !state.remove_para(para).needs_dispatch.contains(para),
        state.remove_para(para).next_dispatch_round_start_with != Some(para),
{
    para_list::lemma_without_para(state.needs_dispatch, para);
    assert(total_bytes(Seq::<Seq<u8>>::empty()) == 0);
}

/// A run of the dispatcher keeps the invariant and leaves a valid cursor.
pub proof fn lemma_process_pending_inv(state: UmpView, config: HostConfiguration)
    requires
        state.inv(),
    ensures
        state.process_pending(config).inv(),
        state.process_pending(config).cursor_valid(),
{
    let needs = state.needs_dispatch;
    let after = state.process_pending(config);
    if needs.len() == 0 {
    } else if config.preferred_dispatchable_upward_messages_step_weight == 0 {
        lemma_start_index_in_range(state);
        lemma_step_wraps(state.start_index(), needs.len() as int);
        let next = (state.start_index() + 1) % (needs.len() as int);
        assert(needs[next] == after.next_dispatch_round_start_with->0);
    } else {
        assert(total_bytes(Seq::<Seq<u8>>::empty()) == 0);
    }
}

/// The index at which a round starts lies in the list, where the list is not
/// empty.
pub proof fn lemma_start_index_in_range(state: UmpView)
    requires
        state.needs_dispatch.len() > 0,
    ensures
        0 <= state.start_index() < state.needs_dispatch.len(),
{
}

/// Messages that the check allows can be enacted, and with them the queue
/// stays within the configured count and size.
pub proof fn lemma_allowed_messages_fit(
    state: UmpView,
    config: HostConfiguration,
    para: ParaId,
    msgs: Seq<Seq<u8>>,
)
    requires
        state.inv(),
        state.messages_allowed(config, para, msgs),
    ensures
        state.size_fits(para, msgs),
        state.enact(para, msgs).sizes[para].0 <= config.max_upward_queue_count,
        state.enact(para, msgs).sizes[para].1 <= config.max_upward_queue_size,
{
}

/// Messages that bring the queue to exactly the configured count are
/// allowed, where nothing else stands against them; one message more than
/// that is not.
pub proof fn lemma_queue_count_limit(
    state: UmpView,
    config: HostConfiguration,
    para: ParaId,
    msgs: Seq<Seq<u8>>,
)
    requires
        state.inv(),
    ensures
        state.sizes[para].0 + msgs.len() == config.max_upward_queue_count && msgs.len()
            <= config.max_upward_message_num_per_candidate && state.sizes[para].1 + total_bytes(
            msgs,
        ) <= config.max_upward_queue_size ==> state.messages_allowed(config, para, msgs),
        state.sizes[para].0 + msgs.len() == config.max_upward_queue_count + 1
            ==> !state.messages_allowed(config, para, msgs),
{
}

/// Where no para needs dispatch and the cursor is valid, a run of the
/// dispatcher changes nothing.
pub proof fn lemma_nothing_to_dispatch(state: UmpView, config: HostConfiguration)
    requires
        state.needs_dispatch.len() == 0,
        state.cursor_valid(),
    ensures
        state.process_pending(config) == state,
{
    match state.next_dispatch_round_start_with {
        Some(p) => {
            let at = choose|at: int| 0 <= at < state.needs_dispatch.len() && state.needs_dispatch[at] == p;
            assert(false);
        },
        None => {},
    }
}

/// With a budget above zero no para is left waiting: a run of the dispatcher
/// serves every para that needs dispatch until its queue is empty.
pub proof fn lemma_no_para_left_waiting(state: UmpView, config: HostConfiguration, para: ParaId)
    requires
        state.inv(),
        config.preferred_dispatchable_upward_messages_step_weight > 0,
    ensures
        state.process_pending(config).queues[para].len() == 0,
        state.process_pending(config).needs_dispatch.len() == 0,
{
    if state.needs_dispatch.len() == 0 {
        assert(!state.needs_dispatch.contains(para));
    }
}

/// With a budget of zero a run of the dispatcher only moves the cursor, to
/// the para that follows the one it stood at, and from the last para of the
/// list to the first.
pub proof fn lemma_cursor_moves_on(state: UmpView, config: HostConfiguration)
    requires
        state.inv(),
        state.needs_dispatch.len() > 0,
        config.preferred_dispatchable_upward_messages_step_weight == 0,
    ensures
        state.process_pending(config).queues == state.queues,
        state.process_pending(config).sizes == state.sizes,
        state.process_pending(config).needs_dispatch == state.needs_dispatch,
        state.process_pending(config).next_dispatch_round_start_with == Some(
            state.needs_dispatch[if state.start_index() + 1 == state.needs_dispatch.len() {
                0
            } else {
                state.start_index() + 1
            }],
        ),
{
    lemma_start_index_in_range(state);
    lemma_step_wraps(state.start_index(), state.needs_dispatch.len() as int);
}

/// Dispatches one upward message and returns the weight to charge for it:
/// what the executor reports, whether it succeeded or failed, where the
/// message decodes and is not estimated above the critical weight of the
/// configuration. Any other message is dropped at no charge.
fn dispatch(upward_msg: &UpwardMessage, config: &HostConfiguration) -> (charged: Weight)
    ensures
        charged == 0,
{
    match Xcm::decode(upward_msg.as_slice()) {
        Some(xcm) => {
            if estimate_weight(&xcm) <= config.dispatchable_upward_message_critical_weight {
                match execute(xcm) {
                    Ok(w) => w,
                    Err(w) => w,
                }
            } else {
                0
            }
        },
        None => 0,
    }
}

/// The upward queues of all paras with their bookkeeping.
pub struct Ump {
    queues: BTreeMap<u32, VecDeque<UpwardMessage>>,
    sizes: BTreeMap<u32, (u32, u32)>,
    needs_dispatch: Vec<ParaId>,
    next_dispatch_round_start_with: Option<ParaId>,
}

impl View for Ump {
    type V = UmpView;

    closed spec fn view(&self) -> UmpView {
        UmpView {
            queues: Map::total(
                |p: ParaId|
                    if self.queues@.contains_key(p.0) {
                        messages_view(self.queues@[p.0]@)
                    } else {
                        Seq::empty()
                    },
            ),
            sizes: Map::total(
                |p: ParaId|
                    if self.sizes@.contains_key(p.0) {
                        self.sizes@[p.0]
                    } else {
                        (0u32, 0u32)
                    },
            ),
            needs_dispatch: self.needs_dispatch@,
            next_dispatch_round_start_with: self.next_dispatch_round_start_with,
        }
    }
}

impl Ump {
    /// The invariant of the upward queues holds.
    pub closed spec fn wf(&self) -> bool {
        self@.inv()
    }

    /// A well-formed state satisfies the invariant of its view.
    pub proof fn lemma_wf(&self)
        requires
            self.wf(),
        ensures
            self@.inv(),
    {
    }

    /// The state without any message.
    pub fn new() -> (ump: Ump)
        ensures
            ump.wf(),
            ump@ == UmpView::empty(),
    {
        let ump = Ump {
            queues: BTreeMap::new(),
            sizes: BTreeMap::new(),
            needs_dispatch: Vec::new(),
            next_dispatch_round_start_with: None,
        };
        assert(ump@.queues =~~= UmpView::empty().queues);
        assert(ump@.sizes =~~= UmpView::empty().sizes);
        ump
    }

    /// The cached size of the queue of `para`.
    fn size_of(&self, para: ParaId) -> (size: (u32, u32))
        ensures
            size == self@.sizes[para],
    {
        match self.sizes.get(&para.0) {
            Some(size) => *size,
            None => (0, 0),
        }
    }

    /// Whether a candidate of `para` may send `upward_messages`.
    pub fn check_messages(
        &self,
        config: &HostConfiguration,
        para: ParaId,
        upward_messages: &[UpwardMessage],
    ) -> (allowed: bool)
        requires
            self.wf(),
        ensures
            allowed == self@.messages_allowed(*config, para, messages_view(upward_messages@)),
    {
        let ghost msgs = messages_view(upward_messages@);
        if upward_messages.len() > config.max_upward_message_num_per_candidate as usize {
            return false;
        }
        let (mut count, mut bytes) = self.size_of(para);
        if count > config.max_upward_queue_count || bytes > config.max_upward_queue_size {
            return false;
        }
        let mut i: usize = 0;
        while i < upward_messages.len()
            invariant
                msgs == messages_view(upward_messages@),
                0 <= i <= upward_messages@.len(),
                count == self@.sizes[para].0 + i,
                bytes == self@.sizes[para].1 + total_bytes(msgs.take(i as int)),
                count <= config.max_upward_queue_count,
                bytes <= config.max_upward_queue_size,
            decreases upward_messages@.len() - i,
        {
            let len = upward_messages[i].len();
            proof {
                assert(msgs.take(i + 1).drop_last() =~= msgs.take(i as int));
                assert(msgs.take(i + 1).last().len() == len);
                assert(msgs =~= msgs.take(i + 1) + msgs.skip(i + 1));
                lemma_total_bytes_concat(msgs.take(i + 1), msgs.skip(i + 1));
            }
            if count >= config.max_upward_queue_count {
                return false;
            }
            if len > (config.max_upward_queue_size - bytes) as usize {
                return false;
            }
            count = count + 1;
            bytes = bytes + len as u32;
            i = i + 1;
        }
        proof {
            assert(msgs.take(i as int) =~= msgs);
        }
        true
    }

    /// Whether the cached size of the queue of `para` can take
    /// `upward_messages` without leaving the range of a `u32`. Messages that
    /// the check allows always fit.
    pub fn messages_fit(&self, para: ParaId, upward_messages: &[UpwardMessage]) -> (fit: bool)
        requires
            self.wf(),
        ensures
            fit == self@.size_fits(para, messages_view(upward_messages@)),
    {
        let ghost msgs = messages_view(upward_messages@);
        let (mut count, mut bytes) = self.size_of(para);
        let mut i: usize = 0;
        while i < upward_messages.len()
            invariant
                msgs == messages_view(upward_messages@),
                0 <= i <= upward_messages@.len(),
                count == self@.sizes[para].0 + i,
                bytes == self@.sizes[para].1 + total_bytes(msgs.take(i as int)),
            decreases upward_messages@.len() - i,
        {
            let len = upward_messages[i].len();
            proof {
                assert(msgs.take(i + 1).drop_last() =~= msgs.take(i as int));
                assert(msgs.take(i + 1).last().len() == len);
                assert(msgs =~= msgs.take(i + 1) + msgs.skip(i + 1));
                lemma_total_bytes_concat(msgs.take(i + 1), msgs.skip(i + 1));
            }
            if count == u32::MAX {
                return false;
            }
            if len > (u32::MAX - bytes) as usize {
                return false;
            }
            count = count + 1;
            bytes = bytes + len as u32;
            i = i + 1;
        }
        proof {
            assert(msgs.take(i as int) =~= msgs);
        }
        true
    }

    /// Puts the messages of a candidate of `para` at the end of its queue and
    /// notes that the para needs dispatch.
    pub fn enact(&mut self, para: ParaId, upward_messages: &[UpwardMessage])
        requires
            old(self).wf(),
            old(self)@.size_fits(para, messages_view(upward_messages@)),
        ensures
            final(self).wf(),
            final(self)@ == old(self)@.enact(para, messages_view(upward_messages@)),
    {
        let ghost msgs = messages_view(upward_messages@);
        if upward_messages.len() == 0 {
            return ;
        }
        let (mut count, mut bytes) = self.size_of(para);
        let mut queue = match self.queues.remove(&para.0) {
            Some(q) => q,
            None => VecDeque::new(),
        };
        let ghost before = messages_view(queue@);
        let mut i: usize = 0;
        while i < upward_messages.len()
            invariant
                msgs == messages_view(upward_messages@),
                0 <= i <= upward_messages@.len(),
                count == old(self)@.sizes[para].0 + i,
                bytes == old(self)@.sizes[para].1 + total_bytes(msgs.take(i as int)),
                old(self)@.size_fits(para, msgs),
                messages_view(queue@) == before + msgs.take(i as int),
            decreases upward_messages@.len() - i,
        {
            let msg = upward_messages[i].clone();
            assert(msg@ =~= upward_messages@[i as int]@);
            proof {
                assert(msgs.take(i + 1).drop_last() =~= msgs.take(i as int));
                assert(msgs.take(i + 1).last().len() == msg@.len());
                assert(msgs =~= msgs.take(i + 1) + msgs.skip(i + 1));
                lemma_total_bytes_concat(msgs.take(i + 1), msgs.skip(i + 1));
            }
            count = count + 1;
            bytes = bytes + msg.len() as u32;
            let ghost shorter = queue@;
            queue.push_back(msg);
            assert(messages_view(queue@) =~= messages_view(shorter).push(msg@));
            assert(before + msgs.take(i + 1) =~= (before + msgs.take(i as int)).push(msg@));
            i = i + 1;
        }
        self.queues.insert(para.0, queue);
        self.sizes.insert(para.0, (count, bytes));
        para_list::insert(&mut self.needs_dispatch, para);
        proof {
            assert(msgs.take(i as int) =~= msgs);
            let want = old(self)@.enact(para, msgs);
            assert(self@.queues =~~= want.queues);
            assert(self@.sizes =~~= want.sizes);
            lemma_total_bytes_concat(before, msgs);
            para_list::lemma_with_para(old(self)@.needs_dispatch, para);
        }
    }

    /// The index at which the next round of dispatching starts.
    fn start_index(&self) -> (idx: usize)
        requires
            self.wf(),
        ensures
            idx == self@.start_index(),
            self@.needs_dispatch.len() > 0 ==> idx < self@.needs_dispatch.len(),
    {
        match self.next_dispatch_round_start_with {
            Some(para) => match para_list::search(&self.needs_dispatch, para) {
                Ok(found) => {
                    proof {
                        para_list::lemma_position(self.needs_dispatch@, para, found as int);
                    }
                    found
                },
                Err(_) => 0,
            },
            None => 0,
        }
    }

    /// Spends the budget of one block on the waiting upward messages: visits
    /// the paras in need of dispatch round-robin, beginning where the last
    /// run stopped, and dispatches one message of each in turn. The queues
    /// are held in memory, so a message leaves its queue, and the cached size
    /// follows, as soon as it is dispatched.
    pub fn process_pending(&mut self, config: &HostConfiguration)
        requires
            old(self).wf(),
        ensures
            final(self).wf(),
            final(self)@ == old(self)@.process_pending(*config),
    {
        let budget = config.preferred_dispatchable_upward_messages_step_weight;
        let mut weight: Weight = 0;
        let mut idx: usize = self.start_index();
        loop
            invariant_except_break
                self.needs_dispatch@.len() > 0 ==> idx < self.needs_dispatch@.len(),
                self.needs_dispatch@.len() == 0 ==> idx == 0 || budget == 0,
                budget == 0 ==> self@ == old(self)@ && idx == old(self)@.start_index(),
            invariant
                weight == 0,
                self@.inv(),
                self.next_dispatch_round_start_with == old(self).next_dispatch_round_start_with,
                budget == config.preferred_dispatchable_upward_messages_step_weight,
            ensures
                self.needs_dispatch@.len() == 0 || (budget == 0 && self@ == old(self)@ && idx == (
                old(self)@.start_index() + 1) % (self.needs_dispatch@.len() as int)),
                budget == 0 ==> self@ == old(self)@,
                self.needs_dispatch@.len() > 0 ==> idx < self.needs_dispatch@.len(),
            decreases pending(self@.needs_dispatch, self@.queues),
        {
            if idx >= self.needs_dispatch.len() {
                break ;
            }
            let at = idx;
            let dispatchee = self.needs_dispatch[at];
            idx = (idx + 1) % self.needs_dispatch.len();
            assert(idx == if at + 1 == self.needs_dispatch@.len() {
                0
            } else {
                at + 1
            }) by {
                lemma_step_wraps(at as int, self.needs_dispatch@.len() as int);
            }
            if weight >= budget {
                break ;
            }
            let ghost before = self@;
            proof {
                assert(before.needs_dispatch.contains(dispatchee));
                lemma_pending_remove(before.needs_dispatch, before.queues, at as int);
            }
            let (count, bytes) = self.size_of(dispatchee);
            let mut queue = match self.queues.remove(&dispatchee.0) {
                Some(q) => q,
                None => VecDeque::new(),
            };
            let ghost waiting = messages_view(queue@);
            assert(waiting == before.queues[dispatchee]);
            let mut left: (u32, u32) = (count, bytes);
            match queue.pop_front() {
                Some(upward_msg) => {
                    proof {
                        lemma_total_bytes_drop_first(waiting);
                        assert(messages_view(queue@) =~= waiting.drop_first());
                    }
                    weight = weight + dispatch(&upward_msg, config);
                    left = (count - 1, bytes - upward_msg.len() as u32);
                },
                None => {},
            }
            if queue.len() == 0 {
                self.sizes.remove(&dispatchee.0);
                self.needs_dispatch.remove(at);
                if at < idx {
                    idx = idx - 1;
                }
                proof {
                    let after = self@;
                    assert(after.needs_dispatch == before.needs_dispatch.remove(at as int));
                    para_list::lemma_without_para_removes(
                        before.needs_dispatch,
                        dispatchee,
                        at as int,
                    );
                    para_list::lemma_without_para(before.needs_dispatch, dispatchee);
                    assert forall|p: ParaId| #[trigger]
                        after.needs_dispatch.contains(p) <==> after.queues[p].len() > 0 by {
                        if p != dispatchee {
                            assert(after.queues[p] == before.queues[p]);
                        }
                    }
                    assert forall|p: ParaId|
                        (#[trigger] after.sizes[p]).0 == after.queues[p].len() && after.sizes[p].1
                            == total_bytes(after.queues[p]) by {
                        if p != dispatchee {
                            assert(after.queues[p] == before.queues[p]);
                            assert(after.sizes[p] == before.sizes[p]);
                        }
                    }
                    assert forall|i: int| 0 <= i < after.needs_dispatch.len() implies before.queues[
                        after.needs_dispatch[i]
                    ].len() == after.queues[after.needs_dispatch[i]].len() by {
                        assert(after.needs_dispatch.contains(after.needs_dispatch[i]));
                    }
                    lemma_pending_agree(after.needs_dispatch, before.queues, after.queues);
                }
            } else {
                self.sizes.insert(dispatchee.0, left);
                self.queues.insert(dispatchee.0, queue);
                proof {
                    let after = self@;
                    assert forall|p: ParaId| #[trigger]
                        after.needs_dispatch.contains(p) <==> after.queues[p].len() > 0 by {
                        if p != dispatchee {
                            assert(after.queues[p] == before.queues[p]);
                        }
                    }
                    assert forall|p: ParaId|
                        (#[trigger] after.sizes[p]).0 == after.queues[p].len() && after.sizes[p].1
                            == total_bytes(after.queues[p]) by {
                        if p != dispatchee {
                            assert(after.queues[p] == before.queues[p]);
                            assert(after.sizes[p] == before.sizes[p]);
                        }
                    }
                    lemma_pending_remove(after.needs_dispatch, after.queues, at as int);
                    let rest = before.needs_dispatch.remove(at as int);
                    para_list::lemma_without_para_removes(
                        before.needs_dispatch,
                        dispatchee,
                        at as int,
                    );
                    para_list::lemma_without_para(before.needs_dispatch, dispatchee);
                    assert forall|i: int| 0 <= i < rest.len() implies before.queues[rest[i]].len()
                        == after.queues[rest[i]].len() by {
                        assert(rest.contains(rest[i]));
                    }
                    lemma_pending_agree(rest, before.queues, after.queues);
                }
            }
        }
        let ghost drained = self@;
        self.next_dispatch_round_start_with = if idx < self.needs_dispatch.len() {
            Some(self.needs_dispatch[idx])
        } else {
            None
        };
        proof {
            let want = old(self)@.process_pending(*config);
            assert(self@.queues == drained.queues);
            assert(self@.sizes == drained.sizes);
            if drained.needs_dispatch.len() == 0 {
                assert forall|p: ParaId| #[trigger]
                    drained.queues[p] =~= Seq::empty() && drained.sizes[p] == (0u32, 0u32) by {
                    assert(!drained.needs_dispatch.contains(p));
                    assert(total_bytes(drained.queues[p]) == 0);
                    assert(drained.sizes[p].0 == 0 && drained.sizes[p].1 == 0);
                }
                assert(drained.queues =~~= UmpView::empty().queues);
                assert(drained.sizes =~~= UmpView::empty().sizes);
                assert(drained.needs_dispatch =~= Seq::empty());
                if old(self)@.needs_dispatch.len() == 0 {
                    assert(forall|p: ParaId| !old(self)@.needs_dispatch.contains(p));
                    assert forall|p: ParaId| #[trigger]
                        old(self)@.queues[p] =~= Seq::empty() && old(self)@.sizes[p] == (
                            0u32,
                            0u32,
                        ) by {
                        assert(!old(self)@.needs_dispatch.contains(p));
                        assert(total_bytes(old(self)@.queues[p]) == 0);
                        assert(old(self)@.sizes[p].0 == 0 && old(self)@.sizes[p].1 == 0);
                    }
                    assert(old(self)@.queues =~~= UmpView::empty().queues);
                    assert(old(self)@.sizes =~~= UmpView::empty().sizes);
                }
            }
            assert(self@.queues =~~= want.queues);
            assert(self@.sizes =~~= want.sizes);
            assert(self@.needs_dispatch =~= want.needs_dispatch);
        }
    }

    /// The cached size of the queue of `para`: the number of its messages and
    /// of their payload bytes.
    pub fn queue_size(&self, para: ParaId) -> (size: (u32, u32))
        requires
            self.wf(),
        ensures
            size == self@.sizes[para],
            size.0 == self@.queues[para].len(),
            size.1 == total_bytes(self@.queues[para]),
    {
        self.size_of(para)
    }

    /// The paras whose queue holds a message, in ascending order.
    pub fn needs_dispatch(&self) -> (list: &Vec<ParaId>)
        ensures
            list@ == self@.needs_dispatch,
    {
        &self.needs_dispatch
    }

    /// The para with which the next round of dispatching starts.
    pub fn next_dispatch_round_start_with(&self) -> (cursor: Option<ParaId>)
        ensures
            cursor == self@.next_dispatch_round_start_with,
    {
        self.next_dispatch_round_start_with
    }

    /// Removes the queue of `para` with its bookkeeping.
    pub fn remove_para(&mut self, para: ParaId)
        requires
            old(self).wf(),
        ensures
            final(self).wf(),
            final(self)@ == old(self)@.remove_para(para),
    {
        self.queues.remove(&para.0);
        self.sizes.remove(&para.0);
        para_list::remove(&mut self.needs_dispatch, para);
        let clear = match self.next_dispatch_round_start_with {
            Some(p) => p.0 == para.0,
            None => false,
        };
        if clear {
            self.next_dispatch_round_start_with = None;
        }
        proof {
            let want = old(self)@.remove_para(para);
            assert(self@.queues =~~= want.queues);
            assert(self@.sizes =~~= want.sizes);
            para_list::lemma_without_para(old(self)@.needs_dispatch, para);
        }
    }
}

} // verus!
