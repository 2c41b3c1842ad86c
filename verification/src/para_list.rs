//! Lists of para ids kept in strictly ascending order.
//!
//! The router keeps several such lists: the paras scheduled for removal, the
//! paras whose upward queue waits for dispatch, the channel indexes. Being
//! strictly ascending, a list holds no para twice.

use vstd::prelude::*;
use crate::primitives::ParaId;

verus! {

/// Every para in the list is smaller than all that follow it.
pub open spec fn strictly_ascending(s: Seq<ParaId>) -> bool {
    forall|i: int, j: int| 0 <= i < j < s.len() ==> s[i].0 < s[j].0
}

/// The list with `id` put in at its place, or the list itself where it holds
/// `id` already.
pub open spec fn with_para(s: Seq<ParaId>, id: ParaId) -> Seq<ParaId>
    decreases s.len(),
{
    if s.len() == 0 {
        seq![id]
    } else if s.last().0 < id.0 {
        s.push(id)
    } else if s.last().0 == id.0 {
        s
    } else {
        with_para(s.drop_last(), id).push(s.last())
    }
}

/// The list with `id` taken out.
pub open spec fn without_para(s: Seq<ParaId>, id: ParaId) -> Seq<ParaId>
    decreases s.len(),
{
    if s.len() == 0 {
        s
    } else if s.last() == id {
        without_para(s.drop_last(), id)
    } else {
        without_para(s.drop_last(), id).push(s.last())
    }
}

/// The index at which the list holds `id`.
pub open spec fn position(s: Seq<ParaId>, id: ParaId) -> int
    recommends
        s.contains(id),
{
    choose|at: int| 0 <= at < s.len() && s[at] == id
}

/// An ascending list holds a para at one index only.
pub proof fn lemma_position(s: Seq<ParaId>, id: ParaId, at: int)
    requires
        strictly_ascending(s),
        0 <= at < s.len(),
        s[at] == id,
    ensures
        s.contains(id),
        position(s, id) == at,
{
    let found = position(s, id);
    if found < at {
        assert(s[found].0 < s[at].0);
    } else if at < found {
        assert(s[at].0 < s[found].0);
    }
}

/// `at` is the place of `id` in the ascending list: what stands before is
/// smaller, what stands from there on is not.
pub open spec fn is_place_of(s: Seq<ParaId>, id: ParaId, at: int) -> bool {
    &&& 0 <= at <= s.len()
    &&& forall|k: int| 0 <= k < at ==> s[k].0 < id.0
    &&& forall|k: int| at <= k < s.len() ==> id.0 <= s[k].0
}

/// In an ascending list that lacks `id`, putting it in means inserting it at
/// its place.
pub proof fn lemma_with_para_inserts(s: Seq<ParaId>, id: ParaId, at: int)
    requires
        strictly_ascending(s),
        is_place_of(s, id, at),
        !s.contains(id),
    ensures
        with_para(s, id) == s.insert(at, id),
    decreases s.len(),
{
    if s.len() == 0 {
        assert(s.insert(at, id) =~= seq![id]);
    } else if s.last().0 < id.0 {
        assert(at == s.len());
        assert(s.insert(at, id) =~= s.push(id));
    } else if s.last().0 == id.0 {
        assert(s[s.len() - 1] == id);
    } else {
        let front = s.drop_last();
        assert(at < s.len());
        assert forall|x: ParaId| front.contains(x) implies s.contains(x) by {
            let k = choose|k: int| 0 <= k < front.len() && front[k] == x;
            assert(s[k] == x);
        }
        lemma_with_para_inserts(front, id, at);
        assert(front.insert(at, id).push(s.last()) =~= s.insert(at, id));
    }
}

/// A list that holds `id` is left as it is.
pub proof fn lemma_with_para_present(s: Seq<ParaId>, id: ParaId)
    requires
        strictly_ascending(s),
        s.contains(id),
    ensures
        with_para(s, id) == s,
    decreases s.len(),
{
    let k = choose|k: int| 0 <= k < s.len() && s[k] == id;
    if s.last().0 < id.0 {
        assert(s[k].0 <= s[s.len() - 1].0);
    } else if s.last().0 == id.0 {
    } else {
        let front = s.drop_last();
        assert(front[k] == id);
        lemma_with_para_present(front, id);
        assert(front.push(s.last()) =~= s);
    }
}

/// Putting a para into an ascending list gives an ascending list that holds
/// the para, everything the list held, and nothing else.
pub proof fn lemma_with_para(s: Seq<ParaId>, id: ParaId)
    requires
        strictly_ascending(s),
    ensures
        strictly_ascending(with_para(s, id)),
        forall|x: ParaId|
            #![trigger with_para(s, id).contains(x)]
            #![trigger s.contains(x)]
            with_para(s, id).contains(x) <==> (x == id || s.contains(x)),
        with_para(s, id).contains(id),
    decreases s.len(),
{
    let t = with_para(s, id);
    if s.len() == 0 {
        assert(t[0] == id);
        assert forall|x: ParaId| t.contains(x) <==> (x == id || s.contains(x)) by {
            if t.contains(x) {
                let k = choose|k: int| 0 <= k < t.len() && t[k] == x;
            }
        }
    } else if s.last().0 < id.0 {
        assert(t[t.len() - 1] == id);
        assert forall|x: ParaId| t.contains(x) <==> (x == id || s.contains(x)) by {
            if t.contains(x) {
                let k = choose|k: int| 0 <= k < t.len() && t[k] == x;
                if k < s.len() {
                    assert(s[k] == x);
                }
            }
            if s.contains(x) {
                let k = choose|k: int| 0 <= k < s.len() && s[k] == x;
                assert(t[k] == x);
            }
        }
    } else if s.last().0 == id.0 {
        assert(s[s.len() - 1] == id);
    } else {
        let front = s.drop_last();
        let u = with_para(front, id);
        lemma_with_para(front, id);
        assert(t =~= u.push(s.last()));
        assert forall|i: int, j: int| 0 <= i < j < t.len() implies t[i].0 < t[j].0 by {
            if j == t.len() - 1 {
                assert(t[i] == u[i]);
                assert(u.contains(u[i]));
                assert(u[i] == id || front.contains(u[i]));
                if u[i] != id {
                    let k = choose|k: int| 0 <= k < front.len() && front[k] == u[i];
                    assert(s[k] == u[i]);
                    assert(s[k].0 < s[s.len() - 1].0);
                }
            } else {
                assert(t[i] == u[i] && t[j] == u[j]);
            }
        }
        assert forall|x: ParaId| t.contains(x) <==> (x == id || s.contains(x)) by {
            if t.contains(x) {
                let k = choose|k: int| 0 <= k < t.len() && t[k] == x;
                if k < u.len() {
                    assert(u.contains(x));
                    if x != id {
                        let m = choose|m: int| 0 <= m < front.len() && front[m] == x;
                        assert(s[m] == x);
                    }
                } else {
                    assert(s[s.len() - 1] == x);
                }
            }
            if x == id {
                assert(u.contains(id));
                let k = choose|k: int| 0 <= k < u.len() && u[k] == id;
                assert(t[k] == id);
            }
            if s.contains(x) {
                let k = choose|k: int| 0 <= k < s.len() && s[k] == x;
                if k < front.len() {
                    assert(front[k] == x);
                    assert(u.contains(x));
                    let m = choose|m: int| 0 <= m < u.len() && u[m] == x;
                    assert(t[m] == x);
                } else {
                    assert(t[t.len() - 1] == x);
                }
            }
        }
    }
}

/// Putting a para in twice is the same as putting it in once.
pub proof fn lemma_with_para_idempotent(s: Seq<ParaId>, id: ParaId)
    requires
        strictly_ascending(s),
    ensures
        with_para(with_para(s, id), id) == with_para(s, id),
{
    lemma_with_para(s, id);
    lemma_with_para_present(with_para(s, id), id);
}

/// A list that lacks `id` is left as it is when `id` is taken out.
pub proof fn lemma_without_para_absent(s: Seq<ParaId>, id: ParaId)
    requires
        !s.contains(id),
    ensures
        without_para(s, id) == s,
    decreases s.len(),
{
    if s.len() > 0 {
        let front = s.drop_last();
        assert(s[s.len() - 1] != id);
        assert forall|x: ParaId| front.contains(x) implies s.contains(x) by {
            let k = choose|k: int| 0 <= k < front.len() && front[k] == x;
            assert(s[k] == x);
        }
        lemma_without_para_absent(front, id);
        assert(front.push(s.last()) =~= s);
    }
}

/// In an ascending list, taking out the para that stands at `at` means
/// removing that one entry.
pub proof fn lemma_without_para_removes(s: Seq<ParaId>, id: ParaId, at: int)
    requires
        strictly_ascending(s),
        0 <= at < s.len(),
        s[at] == id,
    ensures
        without_para(s, id) == s.remove(at),
    decreases s.len(),
{
    let front = s.drop_last();
    if at == s.len() - 1 {
        assert(!front.contains(id)) by {
            if front.contains(id) {
                let k = choose|k: int| 0 <= k < front.len() && front[k] == id;
                assert(s[k].0 < s[at].0);
            }
        }
        lemma_without_para_absent(front, id);
        assert(s.remove(at) =~= front);
    } else {
        assert(s[at].0 < s[s.len() - 1].0);
        lemma_without_para_removes(front, id, at);
        assert(front.remove(at).push(s.last()) =~= s.remove(at));
    }
}

/// Taking a para out of an ascending list gives an ascending list that holds
/// what the list held but for that para.
pub proof fn lemma_without_para(s: Seq<ParaId>, id: ParaId)
    requires
        strictly_ascending(s),
    ensures
        strictly_ascending(without_para(s, id)),
        forall|x: ParaId|
            #![trigger without_para(s, id).contains(x)]
            #![trigger s.contains(x)]
            without_para(s, id).contains(x) <==> (x != id && s.contains(x)),
        !without_para(s, id).contains(id),
        without_para(s, id).len() <= s.len(),
    decreases s.len(),
{
    let t = without_para(s, id);
    if s.len() > 0 {
        let front = s.drop_last();
        let u = without_para(front, id);
        lemma_without_para(front, id);
        assert forall|i: int, j: int| 0 <= i < j < t.len() implies t[i].0 < t[j].0 by {
            if s.last() != id && j == t.len() - 1 {
                assert(u.contains(u[i]));
                let k = choose|k: int| 0 <= k < front.len() && front[k] == u[i];
                assert(s[k] == u[i]);
            }
        }
        assert forall|x: ParaId| t.contains(x) <==> (x != id && s.contains(x)) by {
            if t.contains(x) {
                let k = choose|k: int| 0 <= k < t.len() && t[k] == x;
                if k < u.len() {
                    assert(u.contains(x));
                    let m = choose|m: int| 0 <= m < front.len() && front[m] == x;
                    assert(s[m] == x);
                } else {
                    assert(s[s.len() - 1] == x);
                }
            }
            if x != id && s.contains(x) {
                let k = choose|k: int| 0 <= k < s.len() && s[k] == x;
                if k < front.len() {
                    assert(front[k] == x);
                    assert(u.contains(x));
                    let m = choose|m: int| 0 <= m < u.len() && u[m] == x;
                    assert(t[m] == x);
                } else {
                    assert(t[t.len() - 1] == x);
                }
            }
        }
    }
}

/// Looks `id` up in an ascending list by bisection: `Ok` with its index where
/// the list holds it, else `Err` with the index at which it would stand.
pub fn search(list: &Vec<ParaId>, id: ParaId) -> (found: Result<usize, usize>)
    requires
        strictly_ascending(list@),
    ensures
        match found {
            Ok(at) => at < list@.len() && list@[at as int] == id,
            Err(at) => !list@.contains(id) && is_place_of(list@, id, at as int),
        },
{
    let mut low: usize = 0;
    let mut high: usize = list.len();
    while low < high
        invariant
            strictly_ascending(list@),
            0 <= low <= high <= list@.len(),
            forall|k: int| 0 <= k < low ==> list@[k].0 < id.0,
            forall|k: int| high <= k < list@.len() ==> id.0 < list@[k].0,
        decreases high - low,
    {
        let mid: usize = low + (high - low) / 2;
        let probe: u32 = list[mid].0;
        if probe == id.0 {
            return Ok(mid);
        } else if probe < id.0 {
            low = mid + 1;
        } else {
            high = mid;
        }
    }
    proof {
        if list@.contains(id) {
            let k = choose|k: int| 0 <= k < list@.len() && list@[k] == id;
            assert(list@[k].0 == id.0);
        }
    }
    Err(low)
}

/// Puts `id` into an ascending list, unless the list holds it already.
pub fn insert(list: &mut Vec<ParaId>, id: ParaId)
    requires
        strictly_ascending(old(list)@),
    ensures
        final(list)@ == with_para(old(list)@, id),
        strictly_ascending(final(list)@),
{
    proof {
        lemma_with_para(list@, id);
    }
    match search(list, id) {
        Ok(_) => {
            proof {
                lemma_with_para_present(list@, id);
            }
        },
        Err(at) => {
            proof {
                lemma_with_para_inserts(list@, id, at as int);
            }
            list.insert(at, id);
        },
    }
}

/// Takes `id` out of an ascending list, if the list holds it.
pub fn remove(list: &mut Vec<ParaId>, id: ParaId)
    requires
        strictly_ascending(old(list)@),
    ensures
        final(list)@ == without_para(old(list)@, id),
        strictly_ascending(final(list)@),
{
    proof {
        lemma_without_para(list@, id);
    }
    match search(list, id) {
        Ok(at) => {
            proof {
                lemma_without_para_removes(list@, id, at as int);
            }
            list.remove(at);
        },
        Err(_) => {
            proof {
                lemma_without_para_absent(list@, id);
            }
        },
    }
}

} // verus!
