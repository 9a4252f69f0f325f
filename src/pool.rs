//! Per-endpoint pools of independently lockable scratch buffers, used when
//! stream data is pulled out of the engine.
use vstd::prelude::*;

use crate::engine::lockable;
use vstd::slice::slice_to_vec;

verus! {

/// The buffers registered under one endpoint identifier.
pub struct PoolEntry {
    module: Vec<u8>,
    size: usize,
    slots: Vec<parking_lot::Mutex<Vec<u8>>>,
}

/// A mapping from endpoint identifier to its buffers. Once an identifier has
/// buffers, their number and size never change.
pub struct BufferPool {
    entries: Vec<PoolEntry>,
    shape: Ghost<Map<Seq<u8>, (nat, nat)>>,
}

/// The pool, as a map, after `buffer_init(module, num, size)`: unchanged where
/// `module` already has buffers.
pub open spec fn after_init(pool: Map<Seq<u8>, (nat, nat)>, module: Seq<u8>, num: nat, size: nat) -> Map<
    Seq<u8>,
    (nat, nat),
> {
    if pool.contains_key(module) {
        pool
    } else {
        pool.insert(module, (num, size))
    }
}

impl BufferPool {
    /// For each identifier: how many buffers it has, and the size of each.
    pub closed spec fn view(&self) -> Map<Seq<u8>, (nat, nat)> {
        self.shape@
    }

    /// The buffers of `module`, in order (empty where it has none).
    pub closed spec fn slots_of(&self, module: Seq<u8>) -> Seq<parking_lot::Mutex<Vec<u8>>> {
        if exists|i: int| 0 <= i < self.entries@.len() && (#[trigger] self.entries@[i]).module@ == module {
            let i = choose|i: int| 0 <= i < self.entries@.len() && (#[trigger] self.entries@[i]).module@ == module;
            self.entries@[i].slots@
        } else {
            Seq::empty()
        }
    }

    pub closed spec fn wf(&self) -> bool {
        &&& forall|i: int, j: int|
            0 <= i < j < self.entries@.len() ==> (#[trigger] self.entries@[i]).module@
                != (#[trigger] self.entries@[j]).module@
        &&& forall|i: int|
            0 <= i < self.entries@.len() ==> {
                let e = #[trigger] self.entries@[i];
                &&& self.shape@.contains_key(e.module@)
                &&& self.shape@[e.module@] == (e.slots@.len(), e.size as nat)
            }
        &&& forall|m: Seq<u8>|
            #[trigger] self.shape@.contains_key(m) ==> exists|i: int|
                0 <= i < self.entries@.len() && (#[trigger] self.entries@[i]).module@ == m
    }

    pub fn new() -> (r: Self)
        ensures
            r.wf(),
            r@ == Map::<Seq<u8>, (nat, nat)>::empty(),
    {
        BufferPool { entries: Vec::new(), shape: Ghost(Map::empty()) }
    }

    /// The position of the entry for `module`, if there is one.
    fn position(&self, module: &[u8]) -> (r: Option<usize>)
        requires
            self.wf(),
        ensures
            r is None <==> !self@.contains_key(module@),
            r matches Some(i) ==> i < self.entries@.len() && self.entries@[i as int].module@
                == module@,
    {
        let mut i: usize = 0;
        while i < self.entries.len()
            invariant
                self.wf(),
                i <= self.entries@.len(),
                forall|j: int| 0 <= j < i ==> (#[trigger] self.entries@[j]).module@ != module@,
            decreases self.entries@.len() - i,
        {
            if bytes_equal(self.entries[i].module.as_slice(), module) {
                return Some(i);
            }
            i = i + 1;
        }
        None
    }

    /// Gives `module` `num` buffers of `size` bytes each, unless it has buffers
    /// already: then nothing changes.
    pub fn buffer_init(&mut self, module: &[u8], num: u64, size: usize)
        requires
            old(self).wf(),
        ensures
            final(self).wf(),
            final(self)@ == after_init(old(self)@, module@, num as nat, size as nat),
    {
        if self.position(module).is_some() {
            return;
        }
        let mut slots: Vec<parking_lot::Mutex<Vec<u8>>> = Vec::new();
        let mut k: u64 = 0;
        while k < num
            invariant
                k <= num,
                slots@.len() == k,
            decreases num - k,
        {
            let buf: Vec<u8> = vec![0u8; size];
            slots.push(lockable(buf));
            k = k + 1;
        }
        let ghost old_entries = self.entries@;
        assert(forall|i: int| 0 <= i < old_entries.len() ==> (#[trigger] old_entries[i]).module@ != module@);
        self.entries.push(PoolEntry { module: slice_to_vec(module), size, slots });
        self.shape = Ghost(self.shape@.insert(module@, (num as nat, size as nat)));
        assert forall|m: Seq<u8>| #[trigger] self.shape@.contains_key(m) implies exists|i: int|
            0 <= i < self.entries@.len() && (#[trigger] self.entries@[i]).module@ == m by {
            if m == module@ {
                assert(self.entries@[old_entries.len() as int].module@ == m);
            } else {
                let i = choose|i: int|
                    0 <= i < old_entries.len() && (#[trigger] old_entries[i]).module@ == m;
                assert(self.entries@[i] == old_entries[i]);
            }
        }
    }

    /// The number of buffers that `module` has (zero where it has none).
    pub fn slot_count(&self, module: &[u8]) -> (r: usize)
        requires
            self.wf(),
        ensures
            self@.contains_key(module@) ==> r == self@[module@].0,
            !self@.contains_key(module@) ==> r == 0,
    {
        match self.position(module) {
            Some(i) => self.entries[i].slots.len(),
            None => 0,
        }
    }

    /// The buffer that a caller reading stream data for `module` should lock:
    /// the one at `pick` modulo the number of buffers, if `module` has any.
    pub fn slot(&self, module: &[u8], pick: u64) -> (r: Option<&parking_lot::Mutex<Vec<u8>>>)
        requires
            self.wf(),
        ensures
            r is Some <==> self@.contains_key(module@) && self@[module@].0 > 0,
    {
        match self.position(module) {
            Some(i) => {
                assert(forall|k: int| 0 <= k < self.entries@.len() && (#[trigger] self.entries@[k]).module@ == module@ ==> k == i);
                let slots = &self.entries[i].slots;
                if slots.len() == 0 {
                    None
                } else {
                    let j = (pick % (slots.len() as u64)) as usize;
                    Some(&slots[j])
                }
            },
            None => {
                assert(!(exists|i: int| 0 <= i < self.entries@.len() && (#[trigger] self.entries@[i]).module@ == module@));
                None
            },
        }
    }
}

/// Whether two byte strings are equal.
pub fn bytes_equal(a: &[u8], b: &[u8]) -> (r: bool)
    ensures
        r == (a@ == b@),
{
    if a.len() != b.len() {
        return false;
    }
    let mut i: usize = 0;
    while i < a.len()
        invariant
            a@.len() == b@.len(),
            i <= a@.len(),
            forall|j: int| 0 <= j < i ==> a@[j] == b@[j],
        decreases a@.len() - i,
    {
        if a[i] != b[i] {
            return false;
        }
        i = i + 1;
    }
    assert(a@ =~= b@);
    true
}

/// Initialising an identifier a second time keeps what the first call gave it,
/// whatever the second call asks for.
pub proof fn lemma_init_keeps_first(
    pool: Map<Seq<u8>, (nat, nat)>,
    module: Seq<u8>,
    num1: nat,
    size1: nat,
    num2: nat,
    size2: nat,
)
    requires
        !pool.contains_key(module),
    ensures
        after_init(after_init(pool, module, num1, size1), module, num2, size2) == after_init(
            pool,
            module,
            num1,
            size1,
        ),
        after_init(after_init(pool, module, num1, size1), module, num2, size2)[module] == (
            num1,
            size1,
        ),
{
}

} // verus!
