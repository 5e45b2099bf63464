use vstd::prelude::*;

use crate::key::Key;

verus! {

/// The transport's pending-request registry: which correlation tokens
/// still await a response, and the delivery slot each one resolves to.
/// The slots themselves — the channel ends a response is pushed into —
/// stay with the socket code; this table takes the decisions: a known
/// token resolves exactly once, an unknown or repeated one is dropped.
pub struct PendingTable {
    pub entries: Vec<(Key, u64)>,
}

impl PendingTable {
    pub open spec fn has_token(&self, t: Seq<u8>) -> bool {
        exists|i: int| 0 <= i < self.entries@.len() && (#[trigger] self.entries@[i]).0@ == t
    }

    /// No token is pending twice.
    pub open spec fn wf(&self) -> bool {
        forall|i: int, j: int|
            0 <= i < j < self.entries@.len() ==> (#[trigger] self.entries@[i]).0@ != (
            #[trigger] self.entries@[j]).0@
    }

    pub fn new() -> (r: Self)
        ensures
            r.entries@ == Seq::<(Key, u64)>::empty(),
            r.wf(),
    {
        let r = PendingTable { entries: Vec::new() };
        proof {
            assert(r.entries@ =~= Seq::<(Key, u64)>::empty());
        }
        r
    }

    fn find(&self, token: &Key) -> (r: Option<usize>)
        ensures
            match r {
                Some(i) => i < self.entries@.len() && self.entries@[i as int].0@ == token@,
                None => !self.has_token(token@),
            },
    {
        let mut i: usize = 0;
        while i < self.entries.len()
            invariant
                i <= self.entries@.len(),
                forall|q: int| 0 <= q < i ==> (#[trigger] self.entries@[q]).0@ != token@,
            decreases self.entries@.len() - i,
        {
            if crate::key::eq_bytes(&self.entries[i].0.0, &token.0) {
                return Some(i);
            }
            i = i + 1;
        }
        None
    }

    /// Register a fresh request under its token. A token already
    /// pending is refused, so an accidental reuse never silently
    /// unhooks the earlier request.
    pub fn register(&mut self, token: Key, slot: u64) -> (r: bool)
        requires
            old(self).wf(),
        ensures
            final(self).wf(),
            r == !old(self).has_token(token@),
            r ==> final(self).entries@ == old(self).entries@.push((token, slot)),
            !r ==> final(self).entries@ == old(self).entries@,
            final(self).has_token(token@),
    {
        match self.find(&token) {
            Some(_) => false,
            None => {
                self.entries.push((token, slot));
                proof {
                    let last = self.entries@.len() - 1;
                    assert(self.entries@[last].0@ == token@);
                    assert forall|i: int, j: int|
                        0 <= i < j < self.entries@.len() implies (
                    #[trigger] self.entries@[i]).0@ != (#[trigger] self.entries@[j]).0@ by {
                        if j == last {
                            assert(self.entries@[i] == old(self).entries@[i]);
                        }
                    }
                }
                true
            },
        }
    }

    /// Resolve a response's token: the slot to deliver into, if the
    /// token is pending; the entry leaves the table, so a second
    /// response under the same token finds nothing and is dropped, as
    /// is one whose token was never registered or has timed out.
    pub fn resolve(&mut self, token: &Key) -> (r: Option<u64>)
        requires
            old(self).wf(),
        ensures
            final(self).wf(),
            !final(self).has_token(token@),
            ({
                let ov = old(self).entries@;
                match r {
                    Some(slot) => {
                        &&& old(self).has_token(token@)
                        &&& (forall|i: int|
                            0 <= i < ov.len() && (#[trigger] ov[i]).0@ == token@ ==> ov[i].1
                                == slot && final(self).entries@ == ov.remove(i))
                    },
                    None => !old(self).has_token(token@) && final(self).entries@ == ov,
                }
            }),
    {
        match self.find(token) {
            None => None,
            Some(i) => {
                let (_, slot) = self.entries.remove(i);
                proof {
                    let oldv = old(self).entries@;
                    assert forall|i2: int|
                        0 <= i2 < oldv.len() && (#[trigger] oldv[i2]).0@ == token@ implies oldv[i2].1
                        == slot && self.entries@ == oldv.remove(i2) by {
                        assert(i2 == i);
                    }
                    assert(!self.has_token(token@)) by {
                        if self.has_token(token@) {
                            let q = choose|q: int|
                                0 <= q < self.entries@.len() && (#[trigger] self.entries@[q]).0@
                                    == token@;
                            let oq = if q < i { q } else { q + 1 };
                            assert(self.entries@[q] == oldv[oq]);
                            assert(oq != i);
                            if oq < i {
                                assert(oldv[oq].0@ != oldv[i as int].0@);
                            } else {
                                assert(oldv[i as int].0@ != oldv[oq].0@);
                            }
                        }
                    }
                    assert forall|a: int, b: int|
                        0 <= a < b < self.entries@.len() implies (#[trigger] self.entries@[a]).0@
                        != (#[trigger] self.entries@[b]).0@ by {
                        let oa = if a < i { a } else { a + 1 };
                        let ob = if b < i { b } else { b + 1 };
                        assert(self.entries@[a] == oldv[oa]);
                        assert(self.entries@[b] == oldv[ob]);
                    }
                }
                Some(slot)
            },
        }
    }
}

} // verus!
