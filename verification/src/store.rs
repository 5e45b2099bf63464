use vstd::prelude::*;

verus! {

/// What the store answers for a key: the value written last.
pub open spec fn spec_get(s: Seq<(String, String)>, k: Seq<char>) -> Option<Seq<char>>
    decreases s.len(),
{
    if s.len() == 0 {
        None
    } else if s.last().0@ == k {
        Some(s.last().1@)
    } else {
        spec_get(s.drop_last(), k)
    }
}

/// The node's local key/value store, keyed by the plain string key, not
/// its hash. The latest write wins; nothing survives the process.
pub struct KvStore {
    pub entries: Vec<(String, String)>,
}

impl KvStore {
    pub fn new() -> (r: Self)
        ensures
            r.entries@ == Seq::<(String, String)>::empty(),
    {
        let r = KvStore { entries: Vec::new() };
        proof {
            assert(r.entries@ =~= Seq::<(String, String)>::empty());
        }
        r
    }

    /// Write a pair; a later write to the same key shadows it.
    pub fn insert(&mut self, k: String, v: String)
        ensures
            spec_get(final(self).entries@, k@) == Some(v@),
            forall|k2: Seq<char>|
                k2 != k@ ==> spec_get(final(self).entries@, k2) == spec_get(
                    old(self).entries@,
                    k2,
                ),
    {
        let ghost kv = k@;
        let ghost vv = v@;
        self.entries.push((k, v));
        proof {
            assert(self.entries@.last().0@ == kv);
            assert(self.entries@.last().1@ == vv);
            assert(self.entries@.drop_last() =~= old(self).entries@);
        }
    }

    /// Look the key up; None when it was never written.
    pub fn get(&self, k: &String) -> (r: Option<String>)
        ensures
            match r {
                Some(v) => spec_get(self.entries@, k@) == Some(v@),
                None => spec_get(self.entries@, k@) is None,
            },
    {
        let mut i: usize = self.entries.len();
        proof {
            assert(self.entries@.take(i as int) =~= self.entries@);
        }
        while i > 0
            invariant
                i <= self.entries@.len(),
                spec_get(self.entries@, k@) == spec_get(self.entries@.take(i as int), k@),
            decreases i,
        {
            i = i - 1;
            let hit = self.entries[i].0 == *k;
            proof {
                assert(self.entries@.take(i + 1).last() == self.entries@[i as int]);
                assert(self.entries@.take(i + 1).drop_last() =~= self.entries@.take(i as int));
            }
            if hit {
                return Some(self.entries[i].1.clone());
            }
        }
        proof {
            assert(self.entries@.take(0) =~= Seq::<(String, String)>::empty());
        }
        None
    }
}

} // verus!
