use wasm_str::allocator::{AllocError, BareAllocator, SelfDescribingAllocator, DANGLING};
use wasm_str::header::{encode_header, HEADER_SIZE};

fn pattern(n: usize) -> Vec<u8> {
    (0..n).map(|i| (i * 31 + 7) as u8).collect()
}

#[test]
fn self_describing_round_trip() {
    let mut heap = SelfDescribingAllocator::new(1 << 20);
    for n in [0, 1, HEADER_SIZE - 1, HEADER_SIZE, HEADER_SIZE + 1, 50_000] {
        let p = heap.allocate(n).unwrap();
        assert_eq!(heap.payload_size(p), n);
        assert_eq!(heap.read(p, 0, n), vec![0u8; n]);
        let data = pattern(n);
        heap.write(p, 0, &data);
        assert_eq!(heap.read(p, 0, n), data);
        assert_eq!(heap.payload_size(p), n);
        heap.release(p);
    }
    assert_eq!(heap.free_bytes(), 1 << 20);
}

#[test]
fn self_describing_header_precedes_payload() {
    let mut heap = SelfDescribingAllocator::new(1024);
    let p = heap.allocate(3).unwrap();
    heap.write(p, 0, b"abc");
    assert_eq!(heap.header(p), encode_header(3));
    let mut whole = encode_header(3);
    whole.extend_from_slice(b"abc");
    assert_eq!(heap.framed_block(p), whole);
    assert_eq!(heap.header_size(), HEADER_SIZE);
    assert_eq!(heap.free_bytes(), 1024 - 3 - HEADER_SIZE);
}

#[test]
fn bare_round_trip() {
    let mut heap = BareAllocator::new(1 << 20);
    for n in [0, 1, HEADER_SIZE - 1, HEADER_SIZE, HEADER_SIZE + 1, 50_000] {
        let p = heap.allocate(n).unwrap();
        let data = pattern(n);
        heap.write(p, n, 0, &data);
        assert_eq!(heap.read(p, n, 0, n), data);
        heap.release(p, n);
    }
    assert_eq!(heap.free_bytes(), 1 << 20);
}

#[test]
fn partial_write_keeps_the_rest() {
    let mut heap = SelfDescribingAllocator::new(1024);
    let p = heap.allocate(6).unwrap();
    heap.write(p, 0, b"abcdef");
    heap.write(p, 2, b"XY");
    assert_eq!(heap.read(p, 0, 6), b"abXYef".to_vec());
    assert_eq!(heap.read(p, 3, 2), b"Ye".to_vec());
}

#[test]
fn realloc_grow_keeps_prefix() {
    let mut heap = SelfDescribingAllocator::new(1024);
    let p = heap.allocate(4).unwrap();
    heap.write(p, 0, &[1, 2, 3, 4]);
    let q = heap.reallocate(p, 16).unwrap();
    assert_eq!(heap.payload_size(q), 16);
    let mut expected = vec![1, 2, 3, 4];
    expected.resize(16, 0);
    assert_eq!(heap.read(q, 0, 16), expected);
    assert_eq!(heap.header(q), encode_header(16));
}

#[test]
fn realloc_shrink_keeps_prefix() {
    let mut heap = SelfDescribingAllocator::new(1024);
    let p = heap.allocate(16).unwrap();
    let data = pattern(16);
    heap.write(p, 0, &data);
    let q = heap.reallocate(p, 4).unwrap();
    assert_eq!(heap.payload_size(q), 4);
    assert_eq!(heap.read(q, 0, 4), data[..4].to_vec());
    assert_eq!(heap.free_bytes(), 1024 - 4 - HEADER_SIZE);
}

#[test]
fn realloc_ten_to_three_reads_first_three() {
    let mut heap = SelfDescribingAllocator::new(1024);
    let p = heap.allocate(10).unwrap();
    let data = b"0123456789";
    heap.write(p, 0, data);
    let q = heap.reallocate(p, 3).unwrap();
    assert_eq!(heap.read(q, 0, 3), b"012".to_vec());

    let mut bare = BareAllocator::new(1024);
    let p = bare.allocate(10).unwrap();
    bare.write(p, 10, 0, data);
    let q = bare.reallocate(p, 10, 3).unwrap();
    assert_eq!(bare.read(q, 3, 0, 3), b"012".to_vec());
}

#[test]
fn bare_realloc_both_ways() {
    let mut heap = BareAllocator::new(1024);
    let p = heap.allocate(5).unwrap();
    heap.write(p, 5, 0, b"hello");
    let q = heap.reallocate(p, 5, 8).unwrap();
    assert_eq!(heap.read(q, 8, 0, 8), b"hello\0\0\0".to_vec());
    let r = heap.reallocate(q, 8, 2).unwrap();
    assert_eq!(heap.read(r, 2, 0, 2), b"he".to_vec());
    assert_eq!(heap.free_bytes(), 1022);
}

#[test]
fn zero_size_is_dangling_and_accepted() {
    assert_ne!(DANGLING, 0);
    let mut heap = SelfDescribingAllocator::new(64);
    let a = heap.allocate(0).unwrap();
    let b = heap.allocate(0).unwrap();
    assert_eq!(a, DANGLING);
    assert_eq!(b, DANGLING);
    assert_eq!(heap.payload_size(a), 0);
    assert_eq!(heap.free_bytes(), 64);
    heap.release(a);
    let c = heap.reallocate(b, 5).unwrap();
    assert_ne!(c, DANGLING);
    assert_eq!(heap.read(c, 0, 5), vec![0u8; 5]);
    let d = heap.reallocate(c, 0).unwrap();
    assert_eq!(d, DANGLING);
    assert_eq!(heap.free_bytes(), 64);

    let mut bare = BareAllocator::new(64);
    let z = bare.allocate(0).unwrap();
    assert_eq!(z, DANGLING);
    bare.release(z, 0);
    let y = bare.reallocate(z, 0, 3).unwrap();
    assert_ne!(y, DANGLING);
    let x = bare.reallocate(y, 3, 0).unwrap();
    assert_eq!(x, DANGLING);
    assert_eq!(bare.free_bytes(), 64);
}

#[test]
fn addresses_are_aligned_and_distinct() {
    let mut heap = SelfDescribingAllocator::new(1024);
    let a = heap.allocate(1).unwrap();
    let b = heap.allocate(1).unwrap();
    assert_ne!(a, b);
    assert_ne!(a, DANGLING);
    assert_eq!(a % 8, 0);
    assert_eq!(b % 8, 0);
}

#[test]
fn size_overflow_is_reported() {
    let mut heap = SelfDescribingAllocator::new(1024);
    assert_eq!(
        heap.allocate(usize::MAX - HEADER_SIZE + 1),
        Err(AllocError::SizeOverflow)
    );
    let p = heap.allocate(2).unwrap();
    assert_eq!(heap.reallocate(p, usize::MAX), Err(AllocError::SizeOverflow));
    assert_eq!(heap.payload_size(p), 2);
}

#[test]
fn exhaustion_is_reported_and_leaves_blocks_intact() {
    let mut heap = SelfDescribingAllocator::new(32);
    assert_eq!(heap.allocate(25), Err(AllocError::OutOfMemory));
    let p = heap.allocate(24).unwrap();
    assert_eq!(heap.free_bytes(), 0);
    heap.write(p, 0, &pattern(24));
    assert_eq!(heap.reallocate(p, 25), Err(AllocError::OutOfMemory));
    assert_eq!(heap.read(p, 0, 24), pattern(24));
    assert_eq!(heap.payload_size(p), 24);

    let mut bare = BareAllocator::new(10);
    assert_eq!(bare.allocate(11), Err(AllocError::OutOfMemory));
    let q = bare.allocate(10).unwrap();
    bare.write(q, 10, 0, &pattern(10));
    assert_eq!(bare.reallocate(q, 10, 11), Err(AllocError::OutOfMemory));
    assert_eq!(bare.read(q, 10, 0, 10), pattern(10));
}
