use vstd::prelude::*;

use crate::key::{xor_bytes, Key};
use crate::metric::lex_lt;
use crate::node::Node;
use crate::routing::{merge_candidates, merged_count, NodeAndDistance};
use crate::ALPHA;

verus! {

/// An identifier the lookup has already asked.
pub open spec fn id_queried(queried: Seq<Vec<u8>>, id: Seq<u8>) -> bool {
    exists|w: int| 0 <= w < queried.len() && (#[trigger] queried[w])@ == id
}

/// Which peers the next round of the iterative lookup asks: the first
/// shortlist entries not yet queried, up to ALPHA of them. When the
/// round comes back short, every shortlist peer outside it has already
/// been asked — an empty round is the lookup's termination condition.
pub fn select_round(candidates: &Vec<NodeAndDistance>, queried: &Vec<Vec<u8>>) -> (r: Vec<Node>)
    ensures
        r@.len() <= ALPHA,
        forall|m: int|
            0 <= m < r@.len() ==> (exists|q: int|
                0 <= q < candidates@.len() && (#[trigger] candidates@[q]).0@ == (
                #[trigger] r@[m])@) && !id_queried(queried@, r@[m]@.id),
        r@.len() < ALPHA ==> (forall|q: int|
            0 <= q < candidates@.len() ==> id_queried(
                queried@,
                (#[trigger] candidates@[q]).0@.id,
            ) || (exists|m: int| 0 <= m < r@.len() && (#[trigger] r@[m])@ == candidates@[q].0@)),
{
    let mut r: Vec<Node> = Vec::new();
    let mut q: usize = 0;
    while q < candidates.len() && r.len() < ALPHA
        invariant
            r@.len() <= ALPHA,
            q <= candidates@.len(),
            forall|m: int|
                0 <= m < r@.len() ==> (exists|q2: int|
                    0 <= q2 < candidates@.len() && (#[trigger] candidates@[q2]).0@ == (
                    #[trigger] r@[m])@) && !id_queried(queried@, r@[m]@.id),
            forall|q2: int|
                0 <= q2 < q ==> id_queried(queried@, (#[trigger] candidates@[q2]).0@.id) || (
                exists|m: int| 0 <= m < r@.len() && (#[trigger] r@[m])@ == candidates@[q2].0@),
        decreases candidates@.len() - q,
    {
        let mut w: usize = 0;
        let mut asked = false;
        while w < queried.len() && !asked
            invariant
                w <= queried@.len(),
                q < candidates@.len(),
                asked ==> id_queried(queried@, candidates@[q as int].0@.id),
                !asked ==> forall|v: int|
                    0 <= v < w ==> (#[trigger] queried@[v])@ != candidates@[q as int].0@.id,
            decreases queried@.len() - w, (if asked {
                0int
            } else {
                1int
            }),
        {
            if crate::key::eq_bytes(&queried[w], &candidates[q].0.id.0) {
                asked = true;
            } else {
                w = w + 1;
            }
        }
        if !asked {
            let ghost oldr = r@;
            r.push(candidates[q].0.clone());
            proof {
                assert(r@[oldr.len() as int]@ == candidates@[q as int].0@);
                assert(!id_queried(queried@, candidates@[q as int].0@.id)) by {
                    if id_queried(queried@, candidates@[q as int].0@.id) {
                        let v = choose|v: int|
                            0 <= v < queried@.len() && (#[trigger] queried@[v])@
                                == candidates@[q as int].0@.id;
                        assert(queried@[v]@ != candidates@[q as int].0@.id);
                    }
                }
                assert forall|m: int| 0 <= m < r@.len() implies (exists|q2: int|
                    0 <= q2 < candidates@.len() && (#[trigger] candidates@[q2]).0@ == (
                    #[trigger] r@[m])@) && !id_queried(queried@, r@[m]@.id) by {
                    if m < oldr.len() {
                        assert(r@[m] == oldr[m]);
                        let q2 = choose|q2: int|
                            0 <= q2 < candidates@.len() && (#[trigger] candidates@[q2]).0@
                                == oldr[m]@;
                        assert(candidates@[q2].0@ == r@[m]@);
                    } else {
                        assert(r@[m]@ == candidates@[q as int].0@);
                    }
                }
                assert forall|q2: int| 0 <= q2 < q + 1 implies id_queried(
                    queried@,
                    (#[trigger] candidates@[q2]).0@.id,
                ) || (exists|m: int|
                    0 <= m < r@.len() && (#[trigger] r@[m])@ == candidates@[q2].0@) by {
                    if q2 == q as int {
                        assert(r@[oldr.len() as int]@ == candidates@[q2].0@);
                    } else {
                        if !id_queried(queried@, candidates@[q2].0@.id) {
                            let m = choose|m: int|
                                0 <= m < oldr.len() && (#[trigger] oldr[m])@
                                    == candidates@[q2].0@;
                            assert(r@[m]@ == candidates@[q2].0@);
                        }
                    }
                }
            }
        }
        q = q + 1;
    }
    r
}

/// The lookup's answer: the responsive peers, ascending by distance to
/// the target, repeated identifiers folded away, at most `k` kept —
/// and any peer cut off lies strictly farther from the target than
/// everything returned.
pub fn finish_lookup(responsive: Vec<Node>, target: &Key, k: usize) -> (r: Vec<Node>)
    requires
        target.wf(),
        forall|m: int|
            0 <= m < responsive@.len() ==> (#[trigger] responsive@[m])@.id.len() == crate::KEY_LEN,
    ensures
        r@.len() == if k as nat <= merged_count(Seq::<NodeAndDistance>::empty(), responsive@) {
            k as nat
        } else {
            merged_count(Seq::<NodeAndDistance>::empty(), responsive@)
        },
        forall|m: int, n: int|
            0 <= m < n < r@.len() ==> lex_lt(
                xor_bytes((#[trigger] r@[m])@.id, target@),
                xor_bytes((#[trigger] r@[n])@.id, target@),
            ),
        forall|m: int, n: int| 0 <= m < n < r@.len() ==> r@[m]@.id != r@[n]@.id,
        forall|m: int|
            0 <= m < r@.len() ==> exists|q: int|
                0 <= q < responsive@.len() && (#[trigger] responsive@[q])@ == (#[trigger] r@[m])@,
{
    let none_yet: Vec<NodeAndDistance> = Vec::new();
    let ghost ev = none_yet@;
    proof {
        assert(ev =~= Seq::<NodeAndDistance>::empty());
    }
    let entries = merge_candidates(none_yet, responsive, target, k);
    let mut r: Vec<Node> = Vec::new();
    let mut i: usize = 0;
    while i < entries.len()
        invariant
            i <= entries@.len(),
            r@.len() == i,
            forall|m: int| 0 <= m < i ==> (#[trigger] r@[m])@ == entries@[m].0@,
        decreases entries@.len() - i,
    {
        r.push(entries[i].0.clone());
        i = i + 1;
    }
    proof {
        assert forall|m: int, n: int| 0 <= m < n < r@.len() implies lex_lt(
            xor_bytes((#[trigger] r@[m])@.id, target@),
            xor_bytes((#[trigger] r@[n])@.id, target@),
        ) by {
            assert(entries@[m].1@ == xor_bytes(entries@[m].0@.id, target@));
            assert(entries@[n].1@ == xor_bytes(entries@[n].0@.id, target@));
            assert(lex_lt(entries@[m].1@, entries@[n].1@));
        }
        assert forall|m: int| 0 <= m < r@.len() implies exists|q: int|
            0 <= q < responsive@.len() && (#[trigger] responsive@[q])@ == (#[trigger] r@[m])@ by {
            assert(!crate::routing::collected(ev, entries@[m].0@));
            let q = choose|q: int|
                0 <= q < responsive@.len() && (#[trigger] responsive@[q])@ == entries@[m].0@;
            assert(responsive@[q]@ == r@[m]@);
        }
    }
    r
}

} // verus!
