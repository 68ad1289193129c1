//! A symbol-name dictionary: names get sequential ids in insertion order.

use vstd::prelude::*;
use vstd::string::StringExecFns;

verus! {

/// A bidirectional symbol dictionary: the id of a name is its position.
#[derive(Debug)]
pub struct SymbolMap {
    pub names: Vec<String>,
}

/// The first position of a name, if present.
pub open spec fn spec_name_idx(names: Seq<String>, name: Seq<char>) -> Option<int>
    decreases names.len(),
{
    if names.len() == 0 {
        None
    } else if names[0]@ == name {
        Some(0)
    } else {
        match spec_name_idx(names.drop_first(), name) {
            Some(i) => Some(i + 1),
            None => None,
        }
    }
}

impl SymbolMap {
    /// Names are unique.
    pub open spec fn wf(self) -> bool {
        forall|i: int, j: int|
            0 <= i < j < self.names@.len() ==> (#[trigger] self.names@[i])@ != (
            #[trigger] self.names@[j])@
    }

    /// An empty dictionary.
    pub fn new() -> (r: SymbolMap)
        ensures
            r.wf(),
            r.names@.len() == 0,
    {
        SymbolMap { names: Vec::new() }
    }

    /// The id of a name, inserting it with the next id when absent.
    pub fn get_or_insert(&mut self, name: &str) -> (id: u64)
        requires
            old(self).wf(),
            old(self).names@.len() < 0xffff_ffff,
        ensures
            final(self).wf(),
            (id as int) < final(self).names@.len(),
            final(self).names@[id as int]@ == name@,
            match spec_name_idx(old(self).names@, name@) {
                Some(i) => id == i && final(self).names@ == old(self).names@,
                None => id == old(self).names@.len() && final(self).names@ == old(
                    self,
                ).names@.push(final(self).names@[id as int]),
            },
    {
        let key = name.to_owned();
        let n = self.names.len();
        let mut i: usize = 0;
        while i < n
            invariant
                i <= n,
                n == self.names@.len(),
                key@ == name@,
                *self == *old(self),
                old(self).wf(),
                forall|k: int| 0 <= k < i ==> (#[trigger] self.names@[k])@ != name@,
            decreases n - i,
        {
            if self.names[i] == key {
                proof {
                    lemma_name_idx_found(self.names@, name@, i as int);
                }
                return i as u64;
            }
            i = i + 1;
        }
        proof {
            lemma_name_idx_absent(self.names@, name@);
        }
        let owned = name.to_owned();
        self.names.push(owned);
        proof {
            assert forall|a: int, b: int|
                0 <= a < b < self.names@.len() implies (#[trigger] self.names@[a])@ != (
            #[trigger] self.names@[b])@ by {
                if b < self.names@.len() - 1 {
                    assert(old(self).names@[a]@ != old(self).names@[b]@);
                }
            }
        }
        n as u64
    }

    /// The id of a name, if present.
    pub fn get_id(&self, name: &str) -> (r: Option<u64>)
        requires
            self.names@.len() < 0xffff_ffff,
        ensures
            match spec_name_idx(self.names@, name@) {
                Some(i) => r == Some(i as u64),
                None => r is None,
            },
    {
        let key = name.to_owned();
        let n = self.names.len();
        let mut i: usize = 0;
        while i < n
            invariant
                i <= n,
                n == self.names@.len(),
                n < 0xffff_ffff,
                key@ == name@,
                forall|k: int| 0 <= k < i ==> (#[trigger] self.names@[k])@ != name@,
            decreases n - i,
        {
            if self.names[i] == key {
                proof {
                    lemma_name_idx_found(self.names@, name@, i as int);
                }
                return Some(i as u64);
            }
            i = i + 1;
        }
        proof {
            lemma_name_idx_absent(self.names@, name@);
        }
        None
    }

    /// The name of an id, if assigned.
    pub fn get_name(&self, id: u64) -> (r: Option<&String>)
        ensures
            id < self.names@.len() ==> (r matches Some(s) && s@ == self.names@[id as int]@),
            id >= self.names@.len() ==> r is None,
    {
        if id < self.names.len() as u64 {
            Some(&self.names[id as usize])
        } else {
            None
        }
    }
}

/// A linear scan that stops at `i` finds the first occurrence.
proof fn lemma_name_idx_found(names: Seq<String>, name: Seq<char>, i: int)
    requires
        0 <= i < names.len(),
        names[i]@ == name,
        forall|k: int| 0 <= k < i ==> (#[trigger] names[k])@ != name,
    ensures
        spec_name_idx(names, name) == Some(i),
    decreases i,
{
    if i == 0 {
    } else {
        assert(names[0]@ != name);
        lemma_name_idx_found(names.drop_first(), name, i - 1);
    }
}

/// A scan that reaches the end finds nothing.
proof fn lemma_name_idx_absent(names: Seq<String>, name: Seq<char>)
    requires
        forall|k: int| 0 <= k < names.len() ==> (#[trigger] names[k])@ != name,
    ensures
        spec_name_idx(names, name) is None,
    decreases names.len(),
{
    if names.len() > 0 {
        lemma_name_idx_absent(names.drop_first(), name);
    }
}

} // verus!
