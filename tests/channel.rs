use wasm_str::allocator::{BareAllocator, SelfDescribingAllocator, DANGLING};
use wasm_str::channel::{
    decode_host_text, decode_text, finish_host_read, read_str_arg, read_str_arg_bare, return_str, return_str_bare,
    stage_host_read,
};
use wasm_str::failure::{alloc_failure, Failure};
use wasm_str::allocator::AllocError;

#[test]
fn invalid_utf8_reaches_the_failure_channel() {
    let r = decode_text("greet", vec![0xFF, 0xFE]);
    assert_eq!(
        r,
        Err(Failure::Thrown("greet: invalid utf8 string".to_string()))
    );
}

#[test]
fn valid_utf8_decodes() {
    assert_eq!(decode_text("x", "héllo".as_bytes().to_vec()), Ok("héllo".to_string()));
    assert_eq!(decode_text("x", vec![]), Ok(String::new()));
    assert!(decode_text("x", vec![0xC3]).is_err());
}

#[test]
fn string_out_and_back_through_header_block() {
    let mut heap = SelfDescribingAllocator::new(256);
    let p = return_str(&mut heap, "grüße").unwrap();
    assert_eq!(heap.payload_size(p), "grüße".len());
    assert_eq!(read_str_arg(&heap, p, "echo"), Ok("grüße".to_string()));
    let e = return_str(&mut heap, "").unwrap();
    assert_eq!(e, DANGLING);
    assert_eq!(read_str_arg(&heap, e, "echo"), Ok(String::new()));
}

#[test]
fn string_out_through_bare_block_carries_length() {
    let mut heap = BareAllocator::new(256);
    let (p, len) = return_str_bare(&mut heap, "abc").unwrap();
    assert_eq!(len, 3);
    assert_eq!(heap.read(p, len, 0, len), b"abc".to_vec());
    assert_eq!(read_str_arg_bare(&heap, p, len, "echo"), Ok("abc".to_string()));
    heap.release(p, len);
}

#[test]
fn invalid_argument_block_is_thrown() {
    let mut heap = SelfDescribingAllocator::new(256);
    let p = heap.allocate(2).unwrap();
    heap.write(p, 0, &[0xFF, 0xFE]);
    assert_eq!(
        read_str_arg(&heap, p, "greet"),
        Err(Failure::Thrown("greet: invalid utf8 string".to_string()))
    );
}

#[test]
fn out_of_memory_aborts() {
    let mut heap = SelfDescribingAllocator::new(10);
    assert_eq!(return_str(&mut heap, "abc"), Err(Failure::Abort));
    assert_eq!(heap.free_bytes(), 10);
    let mut bare = BareAllocator::new(2);
    assert_eq!(return_str_bare(&mut bare, "abc"), Err(Failure::Abort));
    assert_eq!(alloc_failure(AllocError::SizeOverflow), Failure::Abort);
}

#[test]
fn host_owned_string_is_materialised() {
    let mut heap = SelfDescribingAllocator::new(256);
    let buf = stage_host_read(&mut heap, 5).unwrap();
    assert_eq!(heap.payload_size(buf), 5);
    heap.write(buf, 0, b"hello");
    assert_eq!(finish_host_read(&mut heap, buf), Ok("hello".to_string()));
    assert_eq!(heap.free_bytes(), 256);

    let bad = stage_host_read(&mut heap, 2).unwrap();
    heap.write(bad, 0, &[0xFF, 0xFE]);
    assert_eq!(
        finish_host_read(&mut heap, bad),
        Err(Failure::Thrown("invalid utf8 string".to_string()))
    );
    assert_eq!(heap.free_bytes(), 256);
}

#[test]
fn host_string_failure_has_plain_text() {
    assert_eq!(
        decode_host_text(vec![0xFF, 0xFE]),
        Err(Failure::Thrown("invalid utf8 string".to_string()))
    );
    assert_eq!(decode_host_text(b"hello".to_vec()), Ok("hello".to_string()));
}

#[test]
fn released_slots_are_handed_out_again() {
    let mut heap = SelfDescribingAllocator::new(64);
    let a = heap.allocate(4).unwrap();
    heap.release(a);
    let b = heap.allocate(4).unwrap();
    assert_eq!(a, b);
    assert_eq!(heap.read(b, 0, 4), vec![0u8; 4]);
}
