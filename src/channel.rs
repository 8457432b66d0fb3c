use vstd::prelude::*;
use vstd::string::StringExecFns;
use vstd::utf8::{decode_utf8, encode_utf8, encode_utf8_decode_utf8, valid_utf8};

use crate::allocator::{BareAllocator, SelfDescribingAllocator, DANGLING};
use crate::failure::{alloc_failure, Failure};

verus! {

/// Relies on `String::from_utf8`: it succeeds exactly on well-formed UTF-8,
/// and the string it gives is made of those very bytes.
#[verifier::external_body]
fn string_from_utf8(bytes: Vec<u8>) -> (r: Option<String>)
    ensures
        r is Some <==> valid_utf8(bytes@),
        r matches Some(s) ==> encode_utf8(s@) == bytes@,
{
    String::from_utf8(bytes).ok()
}

/// The diagnostic thrown for a byte span that is not UTF-8, naming the call
/// that received it.
pub open spec fn invalid_utf8_message(context: Seq<char>) -> Seq<char> {
    context + ": invalid utf8 string"@
}

/// A failure that throws exactly `msg` to the host.
pub open spec fn throws(f: Failure, msg: Seq<char>) -> bool {
    f matches Failure::Thrown(m) && m@ == msg
}

/// Turns bytes that arrived across the boundary into text, throwing to the
/// host when they are not UTF-8.
pub fn decode_text(context: &str, bytes: Vec<u8>) -> (r: Result<String, Failure>)
    ensures
        r is Ok <==> valid_utf8(bytes@),
        r matches Ok(s) ==> s@ == decode_utf8(bytes@) && encode_utf8(s@) == bytes@,
        r matches Err(f) ==> throws(f, invalid_utf8_message(context@)),
{
    match string_from_utf8(bytes) {
        Some(s) => {
            proof {
                encode_utf8_decode_utf8(s@);
            }
            Ok(s)
        },
        None => {
            let mut m = context.to_owned();
            m.append(": invalid utf8 string");
            Err(Failure::Thrown(m))
        },
    }
}

/// Turns the bytes of a host-owned string into text, throwing exactly
/// `invalid utf8 string` to the host when they are not UTF-8.
pub fn decode_host_text(bytes: Vec<u8>) -> (r: Result<String, Failure>)
    ensures
        r is Ok <==> valid_utf8(bytes@),
        r matches Ok(s) ==> s@ == decode_utf8(bytes@) && encode_utf8(s@) == bytes@,
        r matches Err(f) ==> throws(f, "invalid utf8 string"@),
{
    match string_from_utf8(bytes) {
        Some(s) => {
            proof {
                encode_utf8_decode_utf8(s@);
            }
            Ok(s)
        },
        None => Err(Failure::Thrown("invalid utf8 string".to_owned())),
    }
}

/// Reads the text argument at `ptr`; its length comes from the block's header.
pub fn read_str_arg(heap: &SelfDescribingAllocator, ptr: usize, context: &str) -> (r: Result<
    String,
    Failure,
>)
    requires
        heap.wf(),
        heap.owns(ptr),
    ensures
        r is Ok <==> valid_utf8(heap.payload(ptr)),
        r matches Ok(s) ==> s@ == decode_utf8(heap.payload(ptr)),
        r matches Err(f) ==> throws(f, invalid_utf8_message(context@)),
{
    let len = heap.payload_size(ptr);
    let bytes = heap.read(ptr, 0, len);
    assert(bytes@ =~= heap.payload(ptr));
    decode_text(context, bytes)
}

/// Reads the text argument of `len` bytes at `ptr`.
pub fn read_str_arg_bare(heap: &BareAllocator, ptr: usize, len: usize, context: &str) -> (r:
    Result<String, Failure>)
    requires
        heap.wf(),
        heap.owns(ptr, len),
    ensures
        r is Ok <==> valid_utf8(heap.contents(ptr, len)),
        r matches Ok(s) ==> s@ == decode_utf8(heap.contents(ptr, len)),
        r matches Err(f) ==> throws(f, invalid_utf8_message(context@)),
{
    let bytes = heap.read(ptr, len, 0, len);
    assert(bytes@ =~= heap.contents(ptr, len));
    decode_text(context, bytes)
}

/// Hands `s` to the host in a block of exactly its encoded length; the host
/// learns the length from the header and frees the block when done.
pub fn return_str(heap: &mut SelfDescribingAllocator, s: &str) -> (r: Result<usize, Failure>)
    requires
        old(heap).wf(),
    ensures
        final(heap).wf(),
        r is Ok <==> old(heap).can_allocate(encode_utf8(s@).len()),
        r matches Ok(p) ==> {
            &&& final(heap).owns(p)
            &&& final(heap).payload(p) == encode_utf8(s@)
            &&& final(heap).payloads().remove(p) == old(heap).payloads()
            &&& s@.len() > 0 ==> !old(heap).payloads().contains_key(p) && final(heap).payloads()
                == old(heap).payloads().insert(p, encode_utf8(s@))
        },
        r matches Err(f) ==> f == Failure::Abort && *final(heap) == *old(heap),
{
    let bytes = s.as_bytes();
    let len = bytes.len();
    let ghost before = heap.payloads();
    proof {
        heap.lemma_zero_size();
    }
    match heap.allocate(len) {
        Ok(p) => {
            proof {
                heap.lemma_zero_size();
            }
            heap.write(p, 0, bytes);
            proof {
                assert(heap.payload(p) =~= encode_utf8(s@));
                assert(heap.payloads().remove(p) =~= before);
                if s@.len() > 0 {
                    vstd::utf8::encode_utf8_first_scalar(s@);
                    heap.lemma_zero_size();
                    assert(heap.payloads() =~= before.insert(p, encode_utf8(s@)));
                }
            }
            Ok(p)
        },
        Err(e) => Err(alloc_failure(e)),
    }
}

/// Hands `s` to the host in a bare block, paired with its length, which a
/// bare block cannot tell.
pub fn return_str_bare(heap: &mut BareAllocator, s: &str) -> (r: Result<(usize, usize), Failure>)
    requires
        old(heap).wf(),
    ensures
        final(heap).wf(),
        r is Ok <==> encode_utf8(s@).len() == 0 || (encode_utf8(s@).len() <= old(heap).room()
            && old(heap).has_address()),
        r matches Ok(pl) ==> {
            &&& pl.1 == encode_utf8(s@).len()
            &&& final(heap).owns(pl.0, pl.1)
            &&& final(heap).contents(pl.0, pl.1) == encode_utf8(s@)
            &&& final(heap).blocks().remove(pl.0) == old(heap).blocks()
        },
        r matches Err(f) ==> f == Failure::Abort && *final(heap) == *old(heap),
{
    let bytes = s.as_bytes();
    let len = bytes.len();
    let ghost before = heap.blocks();
    proof {
        heap.lemma_zero_size();
    }
    match heap.allocate(len) {
        Ok(p) => {
            heap.write(p, len, 0, bytes);
            proof {
                assert(heap.contents(p, len) =~= encode_utf8(s@));
                assert(heap.blocks().remove(p) =~= before);
            }
            Ok((p, len))
        },
        Err(e) => Err(alloc_failure(e)),
    }
}

/// First step of reading a host-owned string of `size` bytes: a guest
/// buffer of exactly that size for the host to copy into.
pub fn stage_host_read(heap: &mut SelfDescribingAllocator, size: usize) -> (r: Result<
    usize,
    Failure,
>)
    requires
        old(heap).wf(),
    ensures
        final(heap).wf(),
        r is Ok <==> old(heap).can_allocate(size as nat),
        r matches Ok(p) ==> final(heap).owns(p) && final(heap).payload(p).len() == size
            && final(heap).payloads().remove(p) == old(heap).payloads(),
        r matches Err(f) ==> f == Failure::Abort && *final(heap) == *old(heap),
{
    let ghost before = heap.payloads();
    proof {
        heap.lemma_zero_size();
    }
    match heap.allocate(size) {
        Ok(p) => {
            assert(heap.payloads().remove(p) =~= before);
            Ok(p)
        },
        Err(e) => Err(alloc_failure(e)),
    }
}

/// Last step of reading a host-owned string: takes the text out of the
/// buffer the host filled, releases the buffer, and checks the text.
pub fn finish_host_read(heap: &mut SelfDescribingAllocator, ptr: usize) -> (r: Result<
    String,
    Failure,
>)
    requires
        old(heap).wf(),
        old(heap).owns(ptr),
    ensures
        final(heap).wf(),
        final(heap).payloads() == old(heap).payloads().remove(ptr),
        r is Ok <==> valid_utf8(old(heap).payload(ptr)),
        r matches Ok(s) ==> s@ == decode_utf8(old(heap).payload(ptr)),
        r matches Err(f) ==> throws(f, "invalid utf8 string"@),
{
    let len = heap.payload_size(ptr);
    let bytes = heap.read(ptr, 0, len);
    assert(bytes@ =~= heap.payload(ptr));
    heap.release(ptr);
    decode_host_text(bytes)
}

} // verus!
