use vstd::prelude::*;

use crate::header::{decode_header, encode_header, is_header_of, HEADER_SIZE};
use crate::memory::{overwritten, resized, Memory, ALIGN};

verus! {

/// The address handed out for a zero-size request: aligned, non-null, never
/// the address of a block, and never read or written through.
pub const DANGLING: usize = ALIGN;

/// Why an allocation or reallocation could not be satisfied.
#[derive(Debug, Clone, Copy, PartialEq, Eq, Structural)]
pub enum AllocError {
    /// The payload and its header do not fit in the address space.
    SizeOverflow,
    /// The memory cannot supply the bytes or the address.
    OutOfMemory,
}

/// `n` zero bytes.
pub open spec fn zeros(n: nat) -> Seq<u8> {
    Seq::new(n, |i: int| 0u8)
}

/// Allocator whose blocks carry no header: the caller hands the payload size
/// back on every reallocation and release.
pub struct BareAllocator {
    mem: Memory,
}

impl BareAllocator {
    pub closed spec fn wf(&self) -> bool {
        self.mem.wf()
    }

    /// The live blocks, by address.
    pub closed spec fn blocks(&self) -> Map<usize, Seq<u8>> {
        self.mem.blocks()
    }

    /// Bytes still free in the budget.
    pub closed spec fn room(&self) -> nat {
        (self.mem.capacity() - self.mem.used()) as nat
    }

    /// Whether one more block can get an address.
    pub closed spec fn has_address(&self) -> bool {
        self.mem.has_address()
    }

    /// `ptr` with `size` is what an allocation of this allocator returned
    /// and has not been released since.
    pub open spec fn owns(&self, ptr: usize, size: usize) -> bool {
        if size == 0 {
            ptr == DANGLING
        } else {
            self.blocks().contains_key(ptr) && self.blocks()[ptr].len() == size
        }
    }

    /// The bytes of the allocation `ptr` of `size` bytes.
    pub open spec fn contents(&self, ptr: usize, size: usize) -> Seq<u8> {
        if size == 0 {
            Seq::empty()
        } else {
            self.blocks()[ptr]
        }
    }

    /// The zero-size address is accepted as an allocation of size zero and
    /// is never the address of a block.
    pub proof fn lemma_zero_size(&self)
        requires
            self.wf(),
        ensures
            DANGLING != 0,
            self.owns(DANGLING, 0),
            !self.blocks().contains_key(DANGLING),
    {
        if self.blocks().contains_key(DANGLING) {
            self.mem.lemma_block_addresses(DANGLING);
        }
    }

    /// An allocator over a memory of `capacity` bytes.
    pub fn new(capacity: usize) -> (r: BareAllocator)
        ensures
            r.wf(),
            r.blocks() == Map::<usize, Seq<u8>>::empty(),
            r.room() == capacity,
            r.has_address(),
    {
        BareAllocator { mem: Memory::new(capacity) }
    }

    /// Bytes still free in the budget.
    pub fn free_bytes(&self) -> (r: usize)
        requires
            self.wf(),
        ensures
            r == self.room(),
    {
        self.mem.room()
    }

    /// Allocates `size` zeroed bytes. Size zero gives `DANGLING` and touches
    /// nothing.
    pub fn allocate(&mut self, size: usize) -> (r: Result<usize, AllocError>)
        requires
            old(self).wf(),
        ensures
            final(self).wf(),
            r is Ok <==> size == 0 || (size <= old(self).room() && old(self).has_address()),
            r matches Ok(p) ==> {
                &&& final(self).owns(p, size)
                &&& final(self).contents(p, size) == zeros(size as nat)
                &&& size == 0 ==> p == DANGLING && *final(self) == *old(self)
                &&& size > 0 ==> !old(self).blocks().contains_key(p) && final(self).blocks()
                    == old(self).blocks().insert(p, zeros(size as nat))
                &&& final(self).room() == old(self).room() - size
            },
            r matches Err(e) ==> e == AllocError::OutOfMemory && *final(self) == *old(self),
    {
        proof {
            self.mem.lemma_within_budget();
        }
        if size == 0 {
            return Ok(DANGLING);
        }
        let r = self.mem.acquire(size);
        proof {
            self.mem.lemma_within_budget();
        }
        match r {
            Some(p) => Ok(p),
            None => Err(AllocError::OutOfMemory),
        }
    }

    /// Resizes the allocation `ptr` of `old_size` bytes to `new_size` bytes,
    /// keeping the first `min(old_size, new_size)` bytes. On failure the old
    /// allocation stays as it was.
    pub fn reallocate(&mut self, ptr: usize, old_size: usize, new_size: usize) -> (r: Result<
        usize,
        AllocError,
    >)
        requires
            old(self).wf(),
            old(self).owns(ptr, old_size),
        ensures
            final(self).wf(),
            r is Ok <==> new_size <= old_size || (new_size - old_size <= old(self).room() && (
            old_size == 0 ==> old(self).has_address())),
            r matches Ok(p) ==> {
                &&& final(self).owns(p, new_size)
                &&& final(self).contents(p, new_size) == resized(
                    old(self).contents(ptr, old_size),
                    new_size as nat,
                )
                &&& final(self).blocks().remove(p) == old(self).blocks().remove(ptr)
                &&& final(self).room() == old(self).room() + old_size - new_size
            },
            r matches Err(e) ==> e == AllocError::OutOfMemory && *final(self) == *old(self),
    {
        proof {
            self.lemma_zero_size();
            self.mem.lemma_within_budget();
        }
        if old_size == 0 {
            let ghost before = self.blocks();
            let r = self.allocate(new_size);
            assert(resized(Seq::empty(), new_size as nat) =~= zeros(new_size as nat));
            if let Ok(p) = r {
                if new_size > 0 {
                    assert(self.blocks().remove(p) =~= before.remove(ptr));
                }
            }
            return r;
        }
        if new_size == 0 {
            let ghost before = self.blocks();
            self.mem.free(ptr);
            proof {
                self.lemma_zero_size();
                self.mem.lemma_within_budget();
            }
            assert(self.blocks().remove(DANGLING) =~= before.remove(ptr));
            assert(resized(before[ptr], 0) =~= Seq::<u8>::empty());
            return Ok(DANGLING);
        }
        let ghost before = self.blocks();
        let ok = self.mem.resize(ptr, new_size);
        proof {
            self.mem.lemma_within_budget();
        }
        if ok {
            assert(self.blocks().remove(ptr) =~= before.remove(ptr));
            Ok(ptr)
        } else {
            Err(AllocError::OutOfMemory)
        }
    }

    /// Gives the allocation `ptr` of `size` bytes back. Size zero is a no-op.
    pub fn release(&mut self, ptr: usize, size: usize)
        requires
            old(self).wf(),
            old(self).owns(ptr, size),
        ensures
            final(self).wf(),
            final(self).blocks() == old(self).blocks().remove(ptr),
            final(self).room() == old(self).room() + size,
    {
        proof {
            self.lemma_zero_size();
            self.mem.lemma_within_budget();
        }
        if size == 0 {
            assert(self.blocks().remove(ptr) =~= self.blocks());
            return;
        }
        self.mem.free(ptr);
        proof {
            self.mem.lemma_within_budget();
        }
    }

    /// Copies `len` bytes from `start` on out of the allocation `ptr`.
    pub fn read(&self, ptr: usize, size: usize, start: usize, len: usize) -> (r: Vec<u8>)
        requires
            self.wf(),
            self.owns(ptr, size),
            start + len <= size,
        ensures
            r@ == self.contents(ptr, size).subrange(start as int, start + len),
    {
        if size == 0 {
            let r: Vec<u8> = Vec::new();
            assert(r@ =~= self.contents(ptr, size).subrange(start as int, start + len));
            return r;
        }
        self.mem.read(ptr, start, len)
    }

    /// Writes `bytes` into the allocation `ptr` from `start` on.
    pub fn write(&mut self, ptr: usize, size: usize, start: usize, bytes: &[u8])
        requires
            old(self).wf(),
            old(self).owns(ptr, size),
            start + bytes@.len() <= size,
        ensures
            final(self).wf(),
            final(self).owns(ptr, size),
            final(self).contents(ptr, size) == overwritten(
                old(self).contents(ptr, size),
                start as int,
                bytes@,
            ),
            final(self).blocks().remove(ptr) == old(self).blocks().remove(ptr),
            final(self).room() == old(self).room(),
    {
        if size == 0 {
            assert(overwritten(Seq::empty(), start as int, bytes@) =~= Seq::<u8>::empty());
            return;
        }
        let ghost before = self.blocks();
        self.mem.write(ptr, start, bytes);
        proof {
            self.mem.lemma_within_budget();
        }
        assert(self.blocks().remove(ptr) =~= before.remove(ptr));
    }
}

/// A block that starts with a header holding the length of the rest.
pub open spec fn framed(b: Seq<u8>) -> bool {
    b.len() >= HEADER_SIZE && is_header_of(
        b.subrange(0, HEADER_SIZE as int),
        (b.len() - HEADER_SIZE) as nat,
    )
}

/// The payload of a framed block: what follows its header.
pub open spec fn payload_of(b: Seq<u8>) -> Seq<u8> {
    b.subrange(HEADER_SIZE as int, b.len() as int)
}

/// Allocator whose blocks describe themselves: each starts with a
/// big-endian header holding its payload size, so reallocation and release
/// need only the address.
pub struct SelfDescribingAllocator {
    mem: Memory,
}

impl SelfDescribingAllocator {
    pub closed spec fn wf(&self) -> bool {
        &&& self.mem.wf()
        &&& forall|a: usize| #[trigger]
            self.mem.blocks().contains_key(a) ==> framed(self.mem.blocks()[a])
    }

    /// The live blocks whole, header and payload, by address.
    pub closed spec fn framed_blocks(&self) -> Map<usize, Seq<u8>> {
        self.mem.blocks()
    }

    /// The payloads of the live blocks, by address.
    pub open spec fn payloads(&self) -> Map<usize, Seq<u8>> {
        self.framed_blocks().map_values(|b: Seq<u8>| payload_of(b))
    }

    /// Bytes still free in the budget; each block spends its payload and
    /// its header.
    pub closed spec fn room(&self) -> nat {
        (self.mem.capacity() - self.mem.used()) as nat
    }

    /// Whether one more block can get an address.
    pub closed spec fn has_address(&self) -> bool {
        self.mem.has_address()
    }

    /// Whether a payload of `size` bytes can be allocated now.
    pub open spec fn can_allocate(&self, size: nat) -> bool {
        size == 0 || (size + HEADER_SIZE <= usize::MAX && size + HEADER_SIZE <= self.room()
            && self.has_address())
    }

    /// `ptr` is what an allocation of this allocator returned and has not
    /// been released since.
    pub open spec fn owns(&self, ptr: usize) -> bool {
        ptr == DANGLING || self.payloads().contains_key(ptr)
    }

    /// The payload at `ptr`; the zero-size address has an empty one.
    pub open spec fn payload(&self, ptr: usize) -> Seq<u8> {
        if ptr == DANGLING {
            Seq::empty()
        } else {
            self.payloads()[ptr]
        }
    }

    /// Every live block is its header followed by its payload, and the
    /// header holds the payload's current size.
    pub proof fn lemma_header_tracks_payload(&self, ptr: usize)
        requires
            self.wf(),
            self.payloads().contains_key(ptr),
        ensures
            is_header_of(
                self.framed_blocks()[ptr].subrange(0, HEADER_SIZE as int),
                self.payload(ptr).len(),
            ),
            self.framed_blocks()[ptr] == self.framed_blocks()[ptr].subrange(0, HEADER_SIZE as int)
                + self.payload(ptr),
    {
        self.lemma_zero_size();
        let b = self.framed_blocks()[ptr];
        assert(b =~= b.subrange(0, HEADER_SIZE as int) + payload_of(b));
    }

    /// The zero-size address is accepted as an allocation and is never the
    /// address of a block.
    pub proof fn lemma_zero_size(&self)
        requires
            self.wf(),
        ensures
            DANGLING != 0,
            self.owns(DANGLING),
            !self.payloads().contains_key(DANGLING),
    {
        if self.mem.blocks().contains_key(DANGLING) {
            self.mem.lemma_block_addresses(DANGLING);
        }
    }

    /// An allocator over a memory of `capacity` bytes.
    pub fn new(capacity: usize) -> (r: SelfDescribingAllocator)
        ensures
            r.wf(),
            r.payloads() == Map::<usize, Seq<u8>>::empty(),
            r.room() == capacity,
            r.has_address(),
    {
        let r = SelfDescribingAllocator { mem: Memory::new(capacity) };
        assert(r.payloads() =~= Map::<usize, Seq<u8>>::empty());
        r
    }

    /// Bytes still free in the budget.
    pub fn free_bytes(&self) -> (r: usize)
        requires
            self.wf(),
        ensures
            r == self.room(),
    {
        self.mem.room()
    }

    /// Width of the header in front of every payload.
    pub fn header_size(&self) -> (r: usize)
        ensures
            r == HEADER_SIZE,
    {
        HEADER_SIZE
    }

    /// Writes a fresh header for `size` over the first bytes of block `p`.
    fn stamp(&mut self, p: usize, size: usize)
        requires
            old(self).mem.wf(),
            old(self).mem.blocks().contains_key(p),
            old(self).mem.blocks()[p].len() == size + HEADER_SIZE,
        ensures
            final(self).mem.wf(),
            final(self).mem.capacity() == old(self).mem.capacity(),
            final(self).mem.used() == old(self).mem.used(),
            final(self).mem.has_address() == old(self).mem.has_address(),
            final(self).mem.blocks() == old(self).mem.blocks().insert(
                p,
                final(self).mem.blocks()[p],
            ),
            framed(final(self).mem.blocks()[p]),
            payload_of(final(self).mem.blocks()[p]) == payload_of(old(self).mem.blocks()[p]),
    {
        let hdr = encode_header(size as u64);
        let ghost ob = self.mem.blocks()[p];
        self.mem.write(p, 0, hdr.as_slice());
        let ghost nb = self.mem.blocks()[p];
        assert(nb.subrange(0, HEADER_SIZE as int) =~= hdr@);
        assert(payload_of(nb) =~= payload_of(ob));
    }

    /// Allocates a zeroed payload of `size` bytes behind a header holding
    /// `size`. Size zero gives `DANGLING` and touches nothing.
    pub fn allocate(&mut self, size: usize) -> (r: Result<usize, AllocError>)
        requires
            old(self).wf(),
        ensures
            final(self).wf(),
            r is Ok <==> old(self).can_allocate(size as nat),
            r matches Ok(p) ==> {
                &&& final(self).owns(p)
                &&& final(self).payload(p) == zeros(size as nat)
                &&& size == 0 ==> p == DANGLING && *final(self) == *old(self)
                &&& size > 0 ==> !old(self).payloads().contains_key(p) && final(self).payloads()
                    == old(self).payloads().insert(p, zeros(size as nat))
                    && final(self).room() == old(self).room() - size - HEADER_SIZE
            },
            r matches Err(e) ==> *final(self) == *old(self) && (e == AllocError::SizeOverflow
                <==> size + HEADER_SIZE > usize::MAX),
    {
        proof {
            self.lemma_zero_size();
            self.mem.lemma_within_budget();
        }
        if size == 0 {
            return Ok(DANGLING);
        }
        if size > usize::MAX - HEADER_SIZE {
            return Err(AllocError::SizeOverflow);
        }
        let ghost before = self.mem.blocks();
        let r = self.mem.acquire(size + HEADER_SIZE);
        match r {
            Some(p) => {
                self.stamp(p, size);
                proof {
                    self.mem.lemma_within_budget();
                    assert(payload_of(zeros((size + HEADER_SIZE) as nat)) =~= zeros(size as nat));
                    assert(self.mem.blocks() =~= before.insert(p, self.mem.blocks()[p]));
                    assert(self.payloads() =~= before.map_values(|b: Seq<u8>| payload_of(b)).insert(
                        p,
                        zeros(size as nat),
                    ));
                }
                Ok(p)
            },
            None => Err(AllocError::OutOfMemory),
        }
    }

    /// The payload size of `ptr`, read back from its header; zero for the
    /// zero-size address.
    pub fn payload_size(&self, ptr: usize) -> (r: usize)
        requires
            self.wf(),
            self.owns(ptr),
        ensures
            r == self.payload(ptr).len(),
    {
        if ptr == DANGLING {
            return 0;
        }
        let total = self.mem.block_len(ptr);
        let hdr = self.mem.read(ptr, 0, HEADER_SIZE);
        match decode_header(hdr.as_slice()) {
            Some(v) => v as usize,
            None => total - HEADER_SIZE,
        }
    }

    /// The header of block `ptr`, as it lies in memory.
    pub fn header(&self, ptr: usize) -> (r: Vec<u8>)
        requires
            self.wf(),
            self.payloads().contains_key(ptr),
        ensures
            is_header_of(r@, self.payload(ptr).len()),
            r@ == self.framed_blocks()[ptr].subrange(0, HEADER_SIZE as int),
    {
        proof {
            self.lemma_header_tracks_payload(ptr);
        }
        self.mem.read(ptr, 0, HEADER_SIZE)
    }

    /// Block `ptr` whole: its header, then its payload.
    pub fn framed_block(&self, ptr: usize) -> (r: Vec<u8>)
        requires
            self.wf(),
            self.payloads().contains_key(ptr),
        ensures
            r@ == self.framed_blocks()[ptr],
            framed(r@),
            payload_of(r@) == self.payload(ptr),
    {
        proof {
            self.lemma_zero_size();
        }
        let total = self.mem.block_len(ptr);
        let r = self.mem.read(ptr, 0, total);
        assert(r@ =~= self.framed_blocks()[ptr]);
        r
    }

    /// Copies `len` bytes from `start` on out of the payload at `ptr`.
    pub fn read(&self, ptr: usize, start: usize, len: usize) -> (r: Vec<u8>)
        requires
            self.wf(),
            self.owns(ptr),
            start + len <= self.payload(ptr).len(),
        ensures
            r@ == self.payload(ptr).subrange(start as int, start + len),
    {
        if ptr == DANGLING {
            let r: Vec<u8> = Vec::new();
            assert(r@ =~= self.payload(ptr).subrange(start as int, start + len));
            return r;
        }
        let total = self.mem.block_len(ptr);
        let r = self.mem.read(ptr, total - self.payload_size(ptr) + start, len);
        assert(r@ =~= self.payload(ptr).subrange(start as int, start + len));
        r
    }

    /// Writes `bytes` into the payload at `ptr` from `start` on; the header
    /// is out of reach.
    pub fn write(&mut self, ptr: usize, start: usize, bytes: &[u8])
        requires
            old(self).wf(),
            old(self).owns(ptr),
            start + bytes@.len() <= old(self).payload(ptr).len(),
        ensures
            final(self).wf(),
            final(self).owns(ptr),
            final(self).payload(ptr) == overwritten(old(self).payload(ptr), start as int, bytes@),
            final(self).payloads().remove(ptr) == old(self).payloads().remove(ptr),
            final(self).room() == old(self).room(),
            final(self).has_address() == old(self).has_address(),
    {
        proof {
            self.lemma_zero_size();
        }
        if ptr == DANGLING {
            assert(overwritten(Seq::empty(), start as int, bytes@) =~= Seq::<u8>::empty());
            return;
        }
        let ghost before = self.mem.blocks();
        let total = self.mem.block_len(ptr);
        let offset = total - self.payload_size(ptr);
        self.mem.write(ptr, offset + start, bytes);
        proof {
            let ob = before[ptr];
            let nb = self.mem.blocks()[ptr];
            assert(nb.subrange(0, HEADER_SIZE as int) =~= ob.subrange(0, HEADER_SIZE as int));
            assert(payload_of(nb) =~= overwritten(payload_of(ob), start as int, bytes@));
            assert(self.payloads().remove(ptr) =~= before.map_values(|b: Seq<u8>| payload_of(b)).remove(ptr));
        }
    }

    /// Gives block `ptr` back; its size comes from its header. The zero-size
    /// address is a no-op.
    pub fn release(&mut self, ptr: usize)
        requires
            old(self).wf(),
            old(self).owns(ptr),
        ensures
            final(self).wf(),
            final(self).payloads() == old(self).payloads().remove(ptr),
            final(self).room() == old(self).room() + if ptr == DANGLING {
                0
            } else {
                old(self).payload(ptr).len() + HEADER_SIZE
            },
    {
        proof {
            self.lemma_zero_size();
            self.mem.lemma_within_budget();
        }
        if ptr == DANGLING {
            assert(self.payloads().remove(ptr) =~= self.payloads());
            return;
        }
        let ghost before = self.mem.blocks();
        self.mem.free(ptr);
        proof {
            self.mem.lemma_within_budget();
            assert(self.payloads() =~= before.map_values(|b: Seq<u8>| payload_of(b)).remove(ptr));
        }
    }

    /// Resizes the payload at `ptr` to `new_size` bytes, keeping its first
    /// `min(old, new_size)` bytes and rewriting the header. On failure the
    /// old block stays as it was.
    pub fn reallocate(&mut self, ptr: usize, new_size: usize) -> (r: Result<usize, AllocError>)
        requires
            old(self).wf(),
            old(self).owns(ptr),
        ensures
            final(self).wf(),
            r is Ok <==> new_size == 0 || (new_size + HEADER_SIZE <= usize::MAX && if ptr
                == DANGLING {
                new_size + HEADER_SIZE <= old(self).room() && old(self).has_address()
            } else {
                new_size <= old(self).payload(ptr).len() || new_size - old(self).payload(ptr).len()
                    <= old(self).room()
            }),
            r matches Ok(p) ==> {
                &&& final(self).owns(p)
                &&& final(self).payload(p) == resized(old(self).payload(ptr), new_size as nat)
                &&& final(self).payloads().remove(p) == old(self).payloads().remove(ptr)
            },
            r matches Err(e) ==> *final(self) == *old(self) && (e == AllocError::SizeOverflow
                <==> new_size + HEADER_SIZE > usize::MAX),
    {
        proof {
            self.lemma_zero_size();
            self.mem.lemma_within_budget();
        }
        if ptr == DANGLING {
            let ghost before = self.payloads();
            let r = self.allocate(new_size);
            assert(resized(Seq::empty(), new_size as nat) =~= zeros(new_size as nat));
            if let Ok(p) = r {
                if new_size > 0 {
                    assert(self.payloads().remove(p) =~= before.remove(ptr));
                }
            }
            return r;
        }
        if new_size == 0 {
            let ghost before = self.payloads();
            self.release(ptr);
            proof {
                self.lemma_zero_size();
            }
            assert(self.payloads().remove(DANGLING) =~= before.remove(ptr));
            assert(resized(before[ptr], 0) =~= Seq::<u8>::empty());
            return Ok(DANGLING);
        }
        if new_size > usize::MAX - HEADER_SIZE {
            return Err(AllocError::SizeOverflow);
        }
        let ghost before = self.mem.blocks();
        let ok = self.mem.resize(ptr, new_size + HEADER_SIZE);
        if !ok {
            return Err(AllocError::OutOfMemory);
        }
        self.stamp(ptr, new_size);
        proof {
            self.mem.lemma_within_budget();
            let ob = before[ptr];
            assert(payload_of(resized(ob, (new_size + HEADER_SIZE) as nat)) =~= resized(
                payload_of(ob),
                new_size as nat,
            ));
            assert(self.mem.blocks() =~= before.insert(ptr, self.mem.blocks()[ptr]));
            assert(self.payloads().remove(ptr) =~= before.map_values(|b: Seq<u8>| payload_of(b)).remove(ptr));
        }
        Ok(ptr)
    }
}

} // verus!
