//! What a recipient has to take note of: per para, the blocks in which
//! messages arrived together with their senders, and the watermark up to
//! which the para has acknowledged them.

use vstd::prelude::*;
use std::collections::BTreeMap;
use crate::para_list;
use crate::para_list::{strictly_ascending, with_para};
use crate::primitives::{BlockNumber, ParaId};

verus! {

/// The digest of one recipient: for each block in which a message arrived,
/// the paras that sent one.
pub type Digest = Seq<(BlockNumber, Seq<ParaId>)>;

/// Watermarks and digests, as mathematical values. Both maps are total: a
/// para without activity has no watermark and the empty digest.
#[verifier::ext_equal]
pub struct InboxView {
    pub watermarks: Map<ParaId, Option<BlockNumber>>,
    pub digests: Map<ParaId, Digest>,
}

/// The blocks of a digest ascend strictly, and each entry names at least one
/// sender, the senders in ascending order.
pub open spec fn digest_ok(digest: Digest) -> bool {
    &&& forall|i: int, j: int| 0 <= i < j < digest.len() ==> digest[i].0 < digest[j].0
    &&& forall|i: int|
        0 <= i < digest.len() ==> (#[trigger] digest[i]).1.len() > 0 && strictly_ascending(
            digest[i].1,
        )
}

/// No entry of the digest is of a block after `now`.
pub open spec fn not_after(digest: Digest, now: BlockNumber) -> bool {
    forall|i: int| 0 <= i < digest.len() ==> (#[trigger] digest[i]).0 <= now
}

/// The digest has an entry for the block `block`.
pub open spec fn has_block(digest: Digest, block: BlockNumber) -> bool {
    exists|i: int| 0 <= i < digest.len() && (#[trigger] digest[i]).0 == block
}

/// The digest has no entry for `block` or for a block before it.
pub open spec fn none_up_to(digest: Digest, block: BlockNumber) -> bool {
    forall|i: int| 0 <= i < digest.len() ==> (#[trigger] digest[i]).0 > block
}

/// The digest after `sender` sent a message in block `now`: the sender joins
/// the last entry where that is of the same block, else a new entry is
/// added.
pub open spec fn noted(digest: Digest, sender: ParaId, now: BlockNumber) -> Digest {
    if digest.len() > 0 && digest.last().0 == now {
        digest.update(digest.len() - 1, (now, with_para(digest.last().1, sender)))
    } else {
        digest.push((now, seq![sender]))
    }
}

/// The digest without the entries of blocks up to `watermark`.
pub open spec fn after_watermark(digest: Digest, watermark: BlockNumber) -> Digest
    decreases digest.len(),
{
    if digest.len() == 0 {
        digest
    } else if digest.last().0 <= watermark {
        after_watermark(digest.drop_last(), watermark)
    } else {
        after_watermark(digest.drop_last(), watermark).push(digest.last())
    }
}

/// In a digest whose blocks ascend, the entries of blocks up to the watermark
/// are the first `cut` ones, where `cut` is the index of the first later one.
pub proof fn lemma_after_watermark_skips(digest: Digest, watermark: BlockNumber, cut: int)
    requires
        digest_ok(digest),
        0 <= cut <= digest.len(),
        forall|i: int| 0 <= i < cut ==> (#[trigger] digest[i]).0 <= watermark,
        forall|i: int| cut <= i < digest.len() ==> (#[trigger] digest[i]).0 > watermark,
    ensures
        after_watermark(digest, watermark) == digest.skip(cut),
    decreases digest.len(),
{
    if digest.len() == 0 {
        assert(digest.skip(cut) =~= digest);
    } else {
        let front = digest.drop_last();
        let last = digest.last();
        assert(last == digest[digest.len() - 1]);
        assert forall|i: int| 0 <= i < front.len() implies front[i] == digest[i] by {}
        if last.0 <= watermark {
            assert(cut == digest.len());
            lemma_after_watermark_skips(front, watermark, cut - 1);
            assert(front.skip(cut - 1) =~= digest.skip(cut));
        } else {
            assert(cut < digest.len());
            lemma_after_watermark_skips(front, watermark, cut);
            assert(front.skip(cut).push(last) =~= digest.skip(cut));
        }
    }
}

/// Noting a sender in a block that is not before the last entry keeps the
/// digest in order.
pub proof fn lemma_noted_ok(digest: Digest, sender: ParaId, now: BlockNumber)
    requires
        digest_ok(digest),
        not_after(digest, now),
    ensures
        digest_ok(noted(digest, sender, now)),
        not_after(noted(digest, sender, now), now),
        has_block(noted(digest, sender, now), now),
        noted(digest, sender, now).last().1.contains(sender),
{
    let after = noted(digest, sender, now);
    if digest.len() > 0 && digest.last().0 == now {
        let at = digest.len() - 1;
        para_list::lemma_with_para(digest[at].1, sender);
        assert(forall|i: int| 0 <= i < at ==> after[i] == digest[i]);
        assert(after[at].0 == now);
        assert forall|i: int| 0 <= i < after.len() implies (#[trigger] after[i]).1.len() > 0
            && strictly_ascending(after[i].1) by {
            if i == at {
                assert(after[at].1.contains(sender));
            } else {
                assert(after[i] == digest[i]);
            }
        }
        assert forall|i: int, j: int| 0 <= i < j < after.len() implies after[i].0 < after[j].0 by {
            assert(after[i].0 == digest[i].0);
            assert(after[j].0 == digest[j].0);
        }
    } else {
        let at = digest.len() as int;
        assert(after[at] == (now, seq![sender]));
        assert(seq![sender][0] == sender);
        assert forall|i: int| 0 <= i < after.len() implies (#[trigger] after[i]).1.len() > 0
            && strictly_ascending(after[i].1) by {
            if i < at {
                assert(after[i] == digest[i]);
            }
        }
        assert forall|i: int, j: int| 0 <= i < j < after.len() implies after[i].0 < after[j].0 by {
            assert(after[i] == digest[i]);
            if j == at {
                assert(digest[i].0 <= now);
                if digest[i].0 == now {
                    assert(digest[i].0 <= digest[at - 1].0);
                }
            } else {
                assert(after[j] == digest[j]);
            }
        }
    }
}

/// Cutting a digest at a watermark keeps it in order and leaves only later
/// blocks.
pub proof fn lemma_after_watermark_ok(digest: Digest, watermark: BlockNumber)
    requires
        digest_ok(digest),
    ensures
        digest_ok(after_watermark(digest, watermark)),
        none_up_to(after_watermark(digest, watermark), watermark),
        forall|now: BlockNumber|
            not_after(digest, now) ==> not_after(
                #[trigger] after_watermark(digest, watermark),
                now,
            ),
    decreases digest.len(),
{
    if digest.len() > 0 {
        let cut = first_after(digest, watermark);
        lemma_first_after(digest, watermark);
        lemma_after_watermark_skips(digest, watermark, cut);
        let after = digest.skip(cut);
        assert forall|i: int| 0 <= i < after.len() implies after[i] == digest[i + cut] by {}
        assert forall|now: BlockNumber| not_after(digest, now) implies not_after(after, now) by {
            assert forall|i: int| 0 <= i < after.len() implies (#[trigger] after[i]).0 <= now by {
                assert(after[i] == digest[i + cut]);
            }
        }
    }
}

/// The number of entries at the front of the digest that are of blocks up to
/// `watermark`.
pub open spec fn first_after(digest: Digest, watermark: BlockNumber) -> int
    decreases digest.len(),
{
    if digest.len() == 0 || digest.first().0 > watermark {
        0
    } else {
        1 + first_after(digest.drop_first(), watermark)
    }
}

/// In a digest whose blocks ascend, every entry of a block up to the watermark
/// stands before every later one.
pub proof fn lemma_first_after(digest: Digest, watermark: BlockNumber)
    requires
        digest_ok(digest),
    ensures
        0 <= first_after(digest, watermark) <= digest.len(),
        forall|i: int|
            0 <= i < first_after(digest, watermark) ==> (#[trigger] digest[i]).0 <= watermark,
        forall|i: int|
            first_after(digest, watermark) <= i < digest.len() ==> (#[trigger] digest[i]).0
                > watermark,
    decreases digest.len(),
{
    if digest.len() == 0 {
    } else if digest.first().0 > watermark {
        assert forall|i: int| 0 <= i < digest.len() implies (#[trigger] digest[i]).0
            > watermark by {
            if i > 0 {
                assert(digest[0].0 < digest[i].0);
            }
        }
    } else {
        let rest = digest.drop_first();
        assert forall|i: int| 0 <= i < rest.len() implies rest[i] == digest[i + 1] by {}
        assert(digest_ok(rest)) by {
            assert forall|i: int, j: int| 0 <= i < j < rest.len() implies rest[i].0
                < rest[j].0 by {
                assert(rest[i] == digest[i + 1] && rest[j] == digest[j + 1]);
            }
            assert forall|i: int| 0 <= i < rest.len() implies (#[trigger] rest[i]).1.len() > 0
                && strictly_ascending(rest[i].1) by {
                assert(rest[i] == digest[i + 1]);
            }
        }
        lemma_first_after(rest, watermark);
        let cut = first_after(rest, watermark);
        assert forall|i: int| 0 <= i < cut + 1 implies (#[trigger] digest[i]).0 <= watermark by {
            if i > 0 {
                assert(digest[i] == rest[i - 1]);
            }
        }
        assert forall|i: int| cut + 1 <= i < digest.len() implies (#[trigger] digest[i]).0
            > watermark by {
            assert(digest[i] == rest[i - 1]);
        }
    }
}

impl InboxView {
    /// The state in which no para has a watermark or a digest entry.
    pub open spec fn empty() -> InboxView {
        InboxView {
            watermarks: Map::total(|p: ParaId| None),
            digests: Map::total(|p: ParaId| Seq::empty()),
        }
    }

    /// Both maps are total, and every digest is in order.
    pub open spec fn inv(self) -> bool {
        &&& forall|p: ParaId| self.watermarks.dom().contains(p)
        &&& forall|p: ParaId| self.digests.dom().contains(p)
        &&& forall|p: ParaId| digest_ok(#[trigger] self.digests[p])
    }

    /// The state after `sender` sent a message to `recipient` in block `now`.
    pub open spec fn note(self, recipient: ParaId, sender: ParaId, now: BlockNumber) -> InboxView {
        InboxView {
            watermarks: self.watermarks,
            digests: self.digests.insert(recipient, noted(self.digests[recipient], sender, now)),
        }
    }

    /// Whether `recipient` may move its watermark to `watermark` in block
    /// `now`: not backwards, not beyond the current block, and onto a block
    /// in which a message arrived, unless none arrived up to there.
    pub open spec fn watermark_allowed(
        self,
        recipient: ParaId,
        now: BlockNumber,
        watermark: BlockNumber,
    ) -> bool {
        &&& match self.watermarks[recipient] {
            Some(prior) => prior <= watermark,
            None => true,
        }
        &&& watermark <= now
        &&& (has_block(self.digests[recipient], watermark) || none_up_to(
            self.digests[recipient],
            watermark,
        ))
    }

    /// The state after `recipient` moved its watermark to `watermark`: the
    /// digest entries of blocks up to there are gone.
    pub open spec fn advance(self, recipient: ParaId, watermark: BlockNumber) -> InboxView {
        InboxView {
            watermarks: self.watermarks.insert(recipient, Some(watermark)),
            digests: self.digests.insert(
                recipient,
                after_watermark(self.digests[recipient], watermark),
            ),
        }
    }

    /// The state after the watermark and the digest of `para` were removed.
    pub open spec fn remove_para(self, para: ParaId) -> InboxView {
        InboxView {
            watermarks: self.watermarks.insert(para, None),
            digests: self.digests.insert(para, Seq::empty()),
        }
    }
}

/// What a stored digest holds, as mathematical values.
pub open spec fn digest_view(digest: Seq<(BlockNumber, Vec<ParaId>)>) -> Digest {
    digest.map_values(|entry: (BlockNumber, Vec<ParaId>)| (entry.0, entry.1@))
}

/// The watermarks and digests of all paras.
pub struct Inbox {
    watermarks: BTreeMap<u32, BlockNumber>,
    digests: BTreeMap<u32, Vec<(BlockNumber, Vec<ParaId>)>>,
}

impl View for Inbox {
    type V = InboxView;

    closed spec fn view(&self) -> InboxView {
        InboxView {
            watermarks: Map::total(
                |p: ParaId|
                    if self.watermarks@.contains_key(p.0) {
                        Some(self.watermarks@[p.0])
                    } else {
                        None
                    },
            ),
            digests: Map::total(
                |p: ParaId|
                    if self.digests@.contains_key(p.0) {
                        digest_view(self.digests@[p.0]@)
                    } else {
                        Seq::empty()
                    },
            ),
        }
    }
}

impl Inbox {
    /// The invariant of the digests holds.
    pub closed spec fn wf(&self) -> bool {
        self@.inv()
    }

    /// A well-formed state satisfies the invariant of its view.
    pub proof fn lemma_wf(&self)
        requires
            self.wf(),
        ensures
            self@.inv(),
    {
    }

    /// The state without any activity.
    pub fn new() -> (inbox: Inbox)
        ensures
            inbox.wf(),
            inbox@ == InboxView::empty(),
    {
        let inbox = Inbox { watermarks: BTreeMap::new(), digests: BTreeMap::new() };
        assert(inbox@.watermarks =~~= InboxView::empty().watermarks);
        assert(inbox@.digests =~~= InboxView::empty().digests);
        inbox
    }

    /// Notes that `sender` sent a message to `recipient` in block `now`.
    pub fn note(&mut self, recipient: ParaId, sender: ParaId, now: BlockNumber)
        requires
            old(self).wf(),
            not_after(old(self)@.digests[recipient], now),
        ensures
            final(self).wf(),
            final(self)@ == old(self)@.note(recipient, sender, now),
    {
        let mut digest = match self.digests.remove(&recipient.0) {
            Some(d) => d,
            None => Vec::new(),
        };
        let ghost before = digest_view(digest@);
        assert(before == old(self)@.digests[recipient]);
        let n = digest.len();
        if n > 0 && digest[n - 1].0 == now {
            let last = digest.pop();
            let ghost front = digest_view(digest@);
            assert(front =~= before.drop_last());
            match last {
                Some(entry) => {
                    let (block, mut senders) = entry;
                    assert(senders@ == before.last().1);
                    para_list::insert(&mut senders, sender);
                    digest.push((block, senders));
                    assert(digest_view(digest@) =~= noted(before, sender, now));
                },
                None => {},
            }
        } else {
            let mut senders: Vec<ParaId> = Vec::new();
            senders.push(sender);
            assert(senders@ =~= seq![sender]);
            digest.push((now, senders));
            assert(digest_view(digest@) =~= noted(before, sender, now));
        }
        self.digests.insert(recipient.0, digest);
        proof {
            lemma_noted_ok(before, sender, now);
            let want = old(self)@.note(recipient, sender, now);
            assert(self@.watermarks =~~= want.watermarks);
            assert(self@.digests =~~= want.digests);
        }
    }

    /// Whether `recipient` may move its watermark to `watermark` in block
    /// `now`.
    pub fn check_watermark(&self, recipient: ParaId, now: BlockNumber, watermark: BlockNumber) -> (allowed:
        bool)
        requires
            self.wf(),
        ensures
            allowed == self@.watermark_allowed(recipient, now, watermark),
    {
        match self.watermarks.get(&recipient.0) {
            Some(prior) => {
                if *prior > watermark {
                    return false;
                }
            },
            None => {},
        }
        if watermark > now {
            return false;
        }
        match self.digests.get(&recipient.0) {
            Some(digest) => {
                let ghost view = digest_view(digest@);
                assert(view == self@.digests[recipient]);
                assert(digest_ok(self@.digests[recipient]));
                let mut i: usize = 0;
                while i < digest.len()
                    invariant
                        0 <= i <= digest@.len(),
                        view == digest_view(digest@),
                        view == self@.digests[recipient],
                        digest_ok(view),
                        watermark <= now,
                        self@.watermarks[recipient] matches Some(prior) ==> prior <= watermark,
                        forall|k: int| 0 <= k < i ==> (#[trigger] view[k]).0 < watermark,
                    decreases digest@.len() - i,
                {
                    let block = digest[i].0;
                    assert(view[i as int].0 == block);
                    if block == watermark {
                        assert(has_block(view, watermark));
                        return true;
                    }
                    if block > watermark {
                        proof {
                            assert forall|k: int| 0 <= k < view.len() implies (#[trigger] view[k]).0
                                != watermark && (k >= i ==> view[k].0 > watermark) by {
                                if k > i {
                                    assert(view[i as int].0 < view[k].0);
                                }
                            }
                        }
                        assert(i > 0 ==> view[0].0 < watermark);
                        return i == 0;
                    }
                    i = i + 1;
                }
                assert(i > 0 ==> view[0].0 < watermark);
                i == 0
            },
            None => {
                assert(self@.digests[recipient] =~= Seq::empty());
                true
            },
        }
    }

    /// Moves the watermark of `recipient` to `watermark` and drops the digest
    /// entries of blocks up to there.
    pub fn advance(&mut self, recipient: ParaId, watermark: BlockNumber)
        requires
            old(self).wf(),
        ensures
            final(self).wf(),
            final(self)@ == old(self)@.advance(recipient, watermark),
    {
        match self.digests.remove(&recipient.0) {
            Some(mut digest) => {
                let ghost before = digest_view(digest@);
                assert(before == old(self)@.digests[recipient]);
                assert(digest_ok(old(self)@.digests[recipient]));
                let mut cut: usize = 0;
                while cut < digest.len() && digest[cut].0 <= watermark
                    invariant
                        0 <= cut <= digest@.len(),
                        before == digest_view(digest@),
                        forall|k: int| 0 <= k < cut ==> (#[trigger] before[k]).0 <= watermark,
                    decreases digest@.len() - cut,
                {
                    assert(before[cut as int].0 == digest@[cut as int].0);
                    cut = cut + 1;
                }
                proof {
                    assert forall|k: int| cut <= k < before.len() implies (#[trigger] before[k]).0
                        > watermark by {
                        assert(before[cut as int].0 == digest@[cut as int].0);
                        if k > cut {
                            assert(before[cut as int].0 < before[k].0);
                        }
                    }
                    lemma_after_watermark_skips(before, watermark, cut as int);
                    lemma_after_watermark_ok(before, watermark);
                }
                let rest = digest.split_off(cut);
                assert(digest_view(rest@) =~= before.skip(cut as int));
                self.digests.insert(recipient.0, rest);
            },
            None => {
                assert(after_watermark(Seq::<(BlockNumber, Seq<ParaId>)>::empty(), watermark)
                    =~= Seq::empty());
            },
        }
        self.watermarks.insert(recipient.0, watermark);
        proof {
            let want = old(self)@.advance(recipient, watermark);
            assert(self@.watermarks =~~= want.watermarks);
            assert(self@.digests =~~= want.digests);
        }
    }

    /// Removes the watermark and the digest of `para`.
    pub fn remove_para(&mut self, para: ParaId)
        requires
            old(self).wf(),
        ensures
            final(self).wf(),
            final(self)@ == old(self)@.remove_para(para),
    {
        self.watermarks.remove(&para.0);
        self.digests.remove(&para.0);
        proof {
            let want = old(self)@.remove_para(para);
            assert(self@.watermarks =~~= want.watermarks);
            assert(self@.digests =~~= want.digests);
        }
    }

    /// Whether no entry of the digest of `para` is of a block after `now`.
    pub fn in_order(&self, para: ParaId, now: BlockNumber) -> (ok: bool)
        requires
            self.wf(),
        ensures
            ok == not_after(self@.digests[para], now),
    {
        match self.digests.get(&para.0) {
            Some(digest) => {
                let ghost view = digest_view(digest@);
                assert(view == self@.digests[para]);
                assert(digest_ok(self@.digests[para]));
                let n = digest.len();
                if n == 0 {
                    true
                } else {
                    let last = digest[n - 1].0;
                    proof {
                        assert(view[n - 1].0 == last);
                        if last <= now {
                            assert forall|i: int| 0 <= i < view.len() implies (#[trigger] view[i]).0
                                <= now by {
                                if i < n - 1 {
                                    assert(view[i].0 < view[n - 1].0);
                                }
                            }
                        }
                    }
                    last <= now
                }
            },
            None => true,
        }
    }

    /// The watermark of `para`, if it has acknowledged anything yet.
    pub fn watermark(&self, para: ParaId) -> (watermark: Option<BlockNumber>)
        ensures
            watermark == self@.watermarks[para],
    {
        match self.watermarks.get(&para.0) {
            Some(w) => Some(*w),
            None => None,
        }
    }
}

} // verus!
