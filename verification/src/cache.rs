//! The session directory cache: a small process-id to folded-name map.
//! It avoids re-resolving the same process within a short run and is
//! cleared wholesale by the engine's frame-count amnesty.

use vstd::prelude::*;
use crate::text::lower_spec;
use crate::text::lower_bytes;
use crate::protocol::copy_range;

verus! {

/// Whether the cache rows hold `pid`.
pub open spec fn has_pid(s: Seq<(u32, Vec<u8>)>, pid: u32) -> bool {
    exists|i: int| 0 <= i < s.len() && (#[trigger] s[i]).0 == pid
}

/// The name cached for `pid`: the first row's name, or empty when the
/// process was never resolved. An unresolved process reads as the empty
/// name, exactly as a failed resolution records one.
pub open spec fn name_of(s: Seq<(u32, Vec<u8>)>, pid: u32) -> Seq<u8>
    decreases s.len(),
{
    if s.len() == 0 {
        Seq::empty()
    } else if s[0].0 == pid {
        s[0].1@
    } else {
        name_of(s.skip(1), pid)
    }
}

proof fn lemma_name_of_skip(s: Seq<(u32, Vec<u8>)>, pid: u32, k: int)
    requires
        0 <= k <= s.len(),
        forall|i: int| 0 <= i < k ==> (#[trigger] s[i]).0 != pid,
    ensures
        name_of(s, pid) == name_of(s.skip(k), pid),
    decreases k,
{
    if k == 0 {
        assert(s.skip(0) =~= s);
    } else {
        assert(s[0].0 != pid);
        lemma_name_of_skip(s.skip(1), pid, k - 1);
        assert(s.skip(1).skip(k - 1) =~= s.skip(k));
    }
}

proof fn lemma_name_of_push(s: Seq<(u32, Vec<u8>)>, e: (u32, Vec<u8>), pid: u32)
    ensures
        name_of(s.push(e), pid) == if has_pid(s, pid) {
            name_of(s, pid)
        } else if e.0 == pid {
            e.1@
        } else {
            Seq::<u8>::empty()
        },
    decreases s.len(),
{
    if s.len() == 0 {
        assert(s.push(e)[0] == e);
        assert(s.push(e).skip(1) =~= Seq::<(u32, Vec<u8>)>::empty());
        if e.0 != pid {
            assert(name_of(s.push(e), pid) == name_of(s.push(e).skip(1), pid));
            assert(name_of(s.push(e).skip(1), pid) == name_of(
                Seq::<(u32, Vec<u8>)>::empty(),
                pid,
            ));
        }
        assert(!has_pid(s, pid));
    } else {
        assert(s.push(e)[0] == s[0]);
        if s[0].0 == pid {
            assert(has_pid(s, pid));
            assert(name_of(s.push(e), pid) == s[0].1@);
            assert(name_of(s, pid) == s[0].1@);
        } else {
            assert(s.push(e).skip(1) =~= s.skip(1).push(e));
            lemma_name_of_push(s.skip(1), e, pid);
            assert(name_of(s.push(e), pid) == name_of(s.push(e).skip(1), pid));
            assert(name_of(s.push(e).skip(1), pid) == name_of(s.skip(1).push(e), pid));
            assert(name_of(s, pid) == name_of(s.skip(1), pid));
            assert(has_pid(s, pid) == has_pid(s.skip(1), pid)) by {
                if has_pid(s, pid) {
                    let i = choose|i: int| 0 <= i < s.len() && (#[trigger] s[i]).0 == pid;
                    assert(i >= 1);
                    assert(s.skip(1)[i - 1] == s[i]);
                    assert(has_pid(s.skip(1), pid));
                }
                if has_pid(s.skip(1), pid) {
                    let i = choose|i: int|
                        0 <= i < s.skip(1).len() && (#[trigger] s.skip(1)[i]).0 == pid;
                    assert(s[i + 1] == s.skip(1)[i]);
                    assert(has_pid(s, pid));
                }
            }
        }
    }
}

/// The process-id to name cache.
pub struct SessionCache {
    pub entries: Vec<(u32, Vec<u8>)>,
}

impl SessionCache {
    pub fn new() -> (r: SessionCache)
        ensures
            r.entries@.len() == 0,
    {
        SessionCache { entries: Vec::new() }
    }

    pub fn clear(&mut self)
        ensures
            final(self).entries@.len() == 0,
    {
        self.entries.clear();
    }

    /// Whether a row for `pid` is cached.
    pub fn contains(&self, pid: u32) -> (r: bool)
        ensures
            r == has_pid(self.entries@, pid),
    {
        let mut i: usize = 0;
        while i < self.entries.len()
            invariant
                i <= self.entries@.len(),
                forall|j: int| 0 <= j < i ==> (#[trigger] self.entries@[j]).0 != pid,
            decreases self.entries@.len() - i,
        {
            if self.entries[i].0 == pid {
                return true;
            }
            i = i + 1;
        }
        false
    }

    /// The cached name for `pid`, or the empty name when absent.
    pub fn name_or_empty(&self, pid: u32) -> (r: Vec<u8>)
        ensures
            r@ == name_of(self.entries@, pid),
    {
        let mut i: usize = 0;
        while i < self.entries.len()
            invariant
                i <= self.entries@.len(),
                forall|j: int| 0 <= j < i ==> (#[trigger] self.entries@[j]).0 != pid,
            decreases self.entries@.len() - i,
        {
            if self.entries[i].0 == pid {
                proof {
                    lemma_name_of_skip(self.entries@, pid, i as int);
                    assert(self.entries@.skip(i as int)[0] == self.entries@[i as int]);
                }
                let row = &self.entries[i];
                return copy_range(row.1.as_slice(), 0, row.1.len());
            }
            i = i + 1;
        }
        proof {
            lemma_name_of_skip(self.entries@, pid, self.entries@.len() as int);
        }
        Vec::new()
    }

    /// Records a resolved name, folded, for a process that has no row
    /// yet; the id zero (the system idle process) is never recorded.
    pub fn record(&mut self, pid: u32, name: &[u8])
        ensures
            pid == 0 || has_pid(old(self).entries@, pid) ==> final(self).entries@ == old(
                self,
            ).entries@,
            pid != 0 && !has_pid(old(self).entries@, pid) ==> {
                &&& final(self).entries@.len() == old(self).entries@.len() + 1
                &&& final(self).entries@.drop_last() == old(self).entries@
                &&& final(self).entries@.last().0 == pid
                &&& final(self).entries@.last().1@ == lower_spec(name@)
            },
            pid != 0 ==> name_of(final(self).entries@, pid) == if has_pid(
                old(self).entries@,
                pid,
            ) {
                name_of(old(self).entries@, pid)
            } else {
                lower_spec(name@)
            },
    {
        if pid == 0 {
            return ;
        }
        if self.contains(pid) {
            return ;
        }
        let folded = lower_bytes(name);
        proof {
            assert(folded@ == lower_spec(name@));
        }
        let ghost pre = self.entries@;
        self.entries.push((pid, folded));
        proof {
            let e = self.entries@.last();
            assert(self.entries@ =~= pre.push(e));
            assert(e.0 == pid && e.1@ == lower_spec(name@));
            lemma_name_of_push(pre, e, pid);
            assert(self.entries@.drop_last() =~= pre);
        }
    }
}

} // verus!
