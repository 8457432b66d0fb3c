use vstd::prelude::*;

verus! {

/// Alignment of every block: the width of an address-sized integer.
pub const ALIGN: usize = 8;

/// Most slots the memory keeps; a released slot is handed out again. It
/// keeps every block address below `usize::MAX` on 32-bit and 64-bit
/// targets alike.
pub const MAX_BLOCKS: usize = 0x1000_0000;

/// The slot that a block address names.
pub open spec fn slot_of(addr: usize) -> int {
    addr as int / ALIGN as int - 2
}

/// The address of slot `i`: aligned, and never `0` or `ALIGN`.
pub open spec fn addr_of(i: int) -> int {
    (i + 2) * ALIGN as int
}

/// `s` cut to `n` bytes, or grown to `n` bytes with zeros.
pub open spec fn resized(s: Seq<u8>, n: nat) -> Seq<u8> {
    if n <= s.len() {
        s.subrange(0, n as int)
    } else {
        s + Seq::new((n - s.len()) as nat, |i: int| 0u8)
    }
}

/// `s` with `b` written over it from `start` on.
pub open spec fn overwritten(s: Seq<u8>, start: int, b: Seq<u8>) -> Seq<u8> {
    s.subrange(0, start) + b + s.subrange(start + b.len(), s.len() as int)
}

/// Resizing keeps every byte below both the old and the new length.
pub proof fn lemma_resize_keeps_prefix(s: Seq<u8>, n: nat)
    ensures
        resized(s, n).len() == n,
        forall|i: int| 0 <= i < s.len() && i < n ==> #[trigger] resized(s, n)[i] == s[i],
{
}

/// Reading back the span just written gives the bytes written, and the
/// bytes around it are as they were.
pub proof fn lemma_write_then_read(s: Seq<u8>, start: int, b: Seq<u8>)
    requires
        0 <= start,
        start + b.len() <= s.len(),
    ensures
        overwritten(s, start, b).len() == s.len(),
        overwritten(s, start, b).subrange(start, start + b.len()) == b,
        overwritten(s, start, b).subrange(0, start) == s.subrange(0, start),
        overwritten(s, start, b).subrange(start + b.len(), s.len() as int) == s.subrange(
            start + b.len(),
            s.len() as int,
        ),
{
    let w = overwritten(s, start, b);
    assert(w.subrange(start, start + b.len()) =~= b);
    assert(w.subrange(0, start) =~= s.subrange(0, start));
    assert(w.subrange(start + b.len(), s.len() as int) =~= s.subrange(
        start + b.len(),
        s.len() as int,
    ));
}

/// A slot table with room for one more block: a free slot, or room to add one.
pub open spec fn has_free_slot(s: Seq<Option<Vec<u8>>>) -> bool {
    s.len() < MAX_BLOCKS || exists|j: int| 0 <= j < s.len() && #[trigger] s[j] is None
}

/// Refilling a live slot leaves the table's room as it was.
proof fn lemma_refill_keeps_free_slot(s: Seq<Option<Vec<u8>>>, i: int, v: Option<Vec<u8>>)
    requires
        0 <= i < s.len(),
        s[i] is Some,
        v is Some,
    ensures
        has_free_slot(s.update(i, v)) == has_free_slot(s),
{
    let t = s.update(i, v);
    if exists|j: int| 0 <= j < s.len() && #[trigger] s[j] is None {
        let j = choose|j: int| 0 <= j < s.len() && #[trigger] s[j] is None;
        assert(t[j] is None);
    }
    if exists|j: int| 0 <= j < t.len() && #[trigger] t[j] is None {
        let j = choose|j: int| 0 <= j < t.len() && #[trigger] t[j] is None;
        assert(s[j] is None);
    }
}

pub open spec fn slot_len(o: Option<Vec<u8>>) -> nat {
    match o {
        Some(v) => v@.len(),
        None => 0,
    }
}

/// Bytes held by the live blocks of a slot table.
pub open spec fn live_bytes(s: Seq<Option<Vec<u8>>>) -> nat
    decreases s.len(),
{
    if s.len() == 0 {
        0
    } else {
        live_bytes(s.drop_last()) + slot_len(s.last())
    }
}

proof fn lemma_live_bytes_update(s: Seq<Option<Vec<u8>>>, i: int, v: Option<Vec<u8>>)
    requires
        0 <= i < s.len(),
    ensures
        live_bytes(s.update(i, v)) + slot_len(s[i]) == live_bytes(s) + slot_len(v),
    decreases s.len(),
{
    let t = s.update(i, v);
    if i < s.len() - 1 {
        assert(t.drop_last() =~= s.drop_last().update(i, v));
        lemma_live_bytes_update(s.drop_last(), i, v);
    } else {
        assert(t.drop_last() =~= s.drop_last());
    }
}

/// The system-level memory under the allocators: a table of byte blocks,
/// each named by an aligned address, with a fixed budget of bytes.
pub struct Memory {
    slots: Vec<Option<Vec<u8>>>,
    used: usize,
    capacity: usize,
}

impl Memory {
    /// The live blocks, by address.
    pub closed spec fn blocks(&self) -> Map<usize, Seq<u8>> {
        Map::new(
            |a: usize|
                a % ALIGN == 0 && a >= 2 * ALIGN && slot_of(a) < self.slots@.len()
                    && self.slots@[slot_of(a)] is Some,
            |a: usize| self.slots@[slot_of(a)].unwrap()@,
        )
    }

    /// Bytes held by live blocks.
    pub closed spec fn used(&self) -> nat {
        self.used as nat
    }

    /// The byte budget fixed at creation.
    pub closed spec fn capacity(&self) -> nat {
        self.capacity as nat
    }

    /// Whether one more block can get an address.
    pub closed spec fn has_address(&self) -> bool {
        has_free_slot(self.slots@)
    }

    pub closed spec fn wf(&self) -> bool {
        &&& self.used as nat == live_bytes(self.slots@)
        &&& self.used <= self.capacity
        &&& self.slots@.len() <= MAX_BLOCKS
    }

    /// Every live block address is aligned and above `ALIGN`.
    pub proof fn lemma_block_addresses(&self, a: usize)
        requires
            self.blocks().contains_key(a),
        ensures
            a % ALIGN == 0,
            a > ALIGN,
    {
    }

    /// A well-formed memory never holds more than its budget.
    pub proof fn lemma_within_budget(&self)
        requires
            self.wf(),
        ensures
            self.used() <= self.capacity(),
    {
    }

    proof fn lemma_addr_slot(i: int)
        requires
            0 <= i < MAX_BLOCKS,
        ensures
            addr_of(i) < usize::MAX,
            slot_of(addr_of(i) as usize) == i,
            addr_of(i) % ALIGN as int == 0,
            addr_of(i) >= 2 * ALIGN,
    {
    }

    /// An empty memory with a budget of `capacity` bytes.
    pub fn new(capacity: usize) -> (r: Memory)
        ensures
            r.wf(),
            r.blocks() == Map::<usize, Seq<u8>>::empty(),
            r.used() == 0,
            r.capacity() == capacity,
            r.has_address(),
    {
        let r = Memory { slots: Vec::new(), used: 0, capacity };
        assert(r.blocks() =~= Map::<usize, Seq<u8>>::empty());
        r
    }

    /// Bytes still free in the budget.
    pub fn room(&self) -> (r: usize)
        requires
            self.wf(),
        ensures
            r == self.capacity() - self.used(),
    {
        self.capacity - self.used
    }

    /// Hands out a zeroed block of `size` bytes at a fresh address, in the
    /// first free slot or else a new one; `None`, with nothing changed, when
    /// the budget or the address space is spent.
    pub fn acquire(&mut self, size: usize) -> (r: Option<usize>)
        requires
            old(self).wf(),
        ensures
            final(self).wf(),
            final(self).capacity() == old(self).capacity(),
            r is Some <==> size <= old(self).capacity() - old(self).used() && old(self).has_address(),
            r matches Some(a) ==> {
                &&& !old(self).blocks().contains_key(a)
                &&& a % ALIGN == 0
                &&& a > ALIGN
                &&& final(self).blocks() == old(self).blocks().insert(
                    a,
                    Seq::new(size as nat, |i: int| 0u8),
                )
                &&& final(self).used() == old(self).used() + size
            },
            r is None ==> *final(self) == *old(self),
    {
        if size > self.capacity - self.used {
            return None;
        }
        let n = self.slots.len();
        let mut i: usize = 0;
        while i < n && self.slots[i].is_some()
            invariant
                n == self.slots@.len(),
                i <= n,
                forall|j: int| 0 <= j < i ==> #[trigger] self.slots@[j] is Some,
            decreases n - i,
        {
            i = i + 1;
        }
        if i == n && n >= MAX_BLOCKS {
            assert(!has_free_slot(self.slots@));
            return None;
        }
        let block: Vec<u8> = vec![0u8; size];
        assert(block@ =~= Seq::new(size as nat, |k: int| 0u8));
        let ghost before = self.blocks();
        let ghost old_slots = self.slots@;
        proof {
            Self::lemma_addr_slot(i as int);
        }
        if i < n {
            proof {
                lemma_live_bytes_update(old_slots, i as int, Some(block));
            }
            self.slots[i] = Some(block);
        } else {
            proof {
                assert(old_slots.push(Some(block)).drop_last() =~= old_slots);
            }
            self.slots.push(Some(block));
        }
        self.used = self.used + size;
        let a = (i + 2) * ALIGN;
        assert(slot_of(a) == i);
        assert(self.blocks() =~= before.insert(a, Seq::new(size as nat, |k: int| 0u8)));
        Some(a)
    }

    /// Length of the block at `a`.
    pub fn block_len(&self, a: usize) -> (r: usize)
        requires
            self.wf(),
            self.blocks().contains_key(a),
        ensures
            r == self.blocks()[a].len(),
    {
        let i = a / ALIGN - 2;
        match &self.slots[i] {
            Some(b) => b.len(),
            None => 0,
        }
    }

    /// Takes the block at `a` out of its slot.
    fn take(&mut self, a: usize) -> (r: Vec<u8>)
        requires
            old(self).wf(),
            old(self).blocks().contains_key(a),
        ensures
            r@ == old(self).blocks()[a],
            final(self).slots@ == old(self).slots@.update(slot_of(a), None),
            final(self).used == old(self).used,
            final(self).capacity == old(self).capacity,
    {
        let i = a / ALIGN - 2;
        let mut out: Option<Vec<u8>> = None;
        std::mem::swap(&mut self.slots[i], &mut out);
        match out {
            Some(b) => b,
            None => Vec::new(),
        }
    }

    /// Returns the block at `a` to the memory.
    pub fn free(&mut self, a: usize)
        requires
            old(self).wf(),
            old(self).blocks().contains_key(a),
        ensures
            final(self).wf(),
            final(self).capacity() == old(self).capacity(),
            final(self).has_address(),
            final(self).blocks() == old(self).blocks().remove(a),
            final(self).used() == old(self).used() - old(self).blocks()[a].len(),
    {
        let ghost before = self.blocks();
        let ghost old_slots = self.slots@;
        let b = self.take(a);
        proof {
            lemma_live_bytes_update(old_slots, slot_of(a), None);
        }
        self.used = self.used - b.len();
        assert(self.slots@[slot_of(a)] is None);
        assert(self.blocks() =~= before.remove(a));
    }

    /// Resizes the block at `a` in place to `n` bytes, keeping the first
    /// `min(old, n)` bytes and zeroing any new ones; `false`, with nothing
    /// changed, when growing it would exceed the budget.
    pub fn resize(&mut self, a: usize, n: usize) -> (r: bool)
        requires
            old(self).wf(),
            old(self).blocks().contains_key(a),
        ensures
            final(self).wf(),
            final(self).capacity() == old(self).capacity(),
            final(self).has_address() == old(self).has_address(),
            r <==> n <= old(self).blocks()[a].len() || n - old(self).blocks()[a].len()
                <= old(self).capacity() - old(self).used(),
            r ==> final(self).blocks() == old(self).blocks().insert(
                a,
                resized(old(self).blocks()[a], n as nat),
            ),
            r ==> final(self).used() == old(self).used() - old(self).blocks()[a].len() + n,
            !r ==> *final(self) == *old(self),
    {
        let len = self.block_len(a);
        if n > len && n - len > self.capacity - self.used {
            return false;
        }
        let ghost before = self.blocks();
        let ghost old_slots = self.slots@;
        proof {
            lemma_live_bytes_update(old_slots, slot_of(a), None);
        }
        let mut b = self.take(a);
        let ghost ob = b@;
        if n <= len {
            b.truncate(n);
        } else {
            b.resize(n, 0u8);
        }
        assert(b@ =~= resized(ob, n as nat));
        let i = a / ALIGN - 2;
        proof {
            lemma_live_bytes_update(old_slots, slot_of(a), Some(b));
            lemma_refill_keeps_free_slot(old_slots, slot_of(a), Some(b));
            assert(old_slots.update(slot_of(a), None).update(slot_of(a), Some(b)) =~= old_slots.update(
                slot_of(a),
                Some(b),
            ));
        }
        self.used = self.used - len + n;
        self.slots[i] = Some(b);
        assert(self.blocks() =~= before.insert(a, resized(ob, n as nat)));
        true
    }

    /// Copies `len` bytes from `start` on out of the block at `a`.
    pub fn read(&self, a: usize, start: usize, len: usize) -> (r: Vec<u8>)
        requires
            self.wf(),
            self.blocks().contains_key(a),
            start + len <= self.blocks()[a].len(),
        ensures
            r@ == self.blocks()[a].subrange(start as int, start + len),
    {
        let i = a / ALIGN - 2;
        let mut r: Vec<u8> = Vec::new();
        match &self.slots[i] {
            Some(b) => {
                let blen = b.len();
                let mut k: usize = 0;
                while k < len
                    invariant
                        self.blocks().contains_key(a),
                        b@ == self.blocks()[a],
                        blen == b@.len(),
                        start + len <= b@.len(),
                        k <= len,
                        r@ == b@.subrange(start as int, start + k),
                    decreases len - k,
                {
                    r.push(b[start + k]);
                    k = k + 1;
                    assert(r@ =~= b@.subrange(start as int, start + k));
                }
            },
            None => {},
        }
        r
    }

    /// Writes `bytes` into the block at `a` from `start` on.
    pub fn write(&mut self, a: usize, start: usize, bytes: &[u8])
        requires
            old(self).wf(),
            old(self).blocks().contains_key(a),
            start + bytes@.len() <= old(self).blocks()[a].len(),
        ensures
            final(self).wf(),
            final(self).capacity() == old(self).capacity(),
            final(self).used() == old(self).used(),
            final(self).has_address() == old(self).has_address(),
            final(self).blocks() == old(self).blocks().insert(
                a,
                overwritten(old(self).blocks()[a], start as int, bytes@),
            ),
    {
        let ghost before = self.blocks();
        let ghost old_slots = self.slots@;
        let mut b = self.take(a);
        let ghost ob = b@;
        let blen = b.len();
        let mut k: usize = 0;
        while k < bytes.len()
            invariant
                b@.len() == ob.len(),
                blen == ob.len(),
                start + bytes@.len() <= ob.len(),
                k <= bytes@.len(),
                b@ == overwritten(ob, start as int, bytes@.subrange(0, k as int)),
            decreases bytes@.len() - k,
        {
            b[start + k] = bytes[k];
            k = k + 1;
            assert(b@ =~= overwritten(ob, start as int, bytes@.subrange(0, k as int)));
        }
        assert(bytes@.subrange(0, bytes@.len() as int) =~= bytes@);
        let i = a / ALIGN - 2;
        proof {
            lemma_live_bytes_update(old_slots, slot_of(a), Some(b));
            lemma_refill_keeps_free_slot(old_slots, slot_of(a), Some(b));
            assert(old_slots.update(slot_of(a), None).update(slot_of(a), Some(b)) =~= old_slots.update(
                slot_of(a),
                Some(b),
            ));
        }
        self.slots[i] = Some(b);
        assert(self.blocks() =~= before.insert(a, overwritten(ob, start as int, bytes@)));
    }
}

} // verus!
