use wasm_str::allocator::SelfDescribingAllocator;
use wasm_str::channel::read_str_arg;
use wasm_str::failure::Failure;
use wasm_str::greet::{
    greet_call, greet_error_message, greet_panic_message, greeting_for, throw_greet_call, Person,
};

#[test]
fn greeting_scenario() {
    let mut heap = SelfDescribingAllocator::new(1024);
    let arg = heap.allocate(5).unwrap();
    heap.write(arg, 0, b"hello");
    let out = greet_call(&mut heap, arg).unwrap();
    assert_eq!(read_str_arg(&heap, out, "test"), Ok("Hello, hello".to_string()));
    assert_eq!(heap.payload_size(out), 12);
    heap.release(arg);
    heap.release(out);
    assert_eq!(heap.free_bytes(), 1024);
}

#[test]
fn invalid_argument_never_reaches_greeting() {
    let mut heap = SelfDescribingAllocator::new(1024);
    let arg = heap.allocate(2).unwrap();
    heap.write(arg, 0, &[0xFF, 0xFE]);
    let before = heap.free_bytes();
    assert_eq!(
        greet_call(&mut heap, arg),
        Err(Failure::Thrown("greet: invalid utf8 string".to_string()))
    );
    assert_eq!(heap.free_bytes(), before);
}

#[test]
fn greeting_without_room_aborts() {
    let mut heap = SelfDescribingAllocator::new(20);
    let arg = heap.allocate(5).unwrap();
    heap.write(arg, 0, b"hello");
    assert_eq!(greet_call(&mut heap, arg), Err(Failure::Abort));
    assert_eq!(heap.free_bytes(), 7);
}

#[test]
fn greeting_texts() {
    let g = greeting_for(&Person { name: "Ana".to_string() });
    assert_eq!(g.message, "Hello, Ana");
    assert_eq!(greet_error_message("Bo"), "greet error: Bo");
    assert_eq!(greet_panic_message("Cy"), "greet panic: Cy");
}

#[test]
fn throwing_greeting_names_the_person() {
    let mut heap = SelfDescribingAllocator::new(1024);
    let arg = heap.allocate(3).unwrap();
    heap.write(arg, 0, b"Eve");
    assert_eq!(
        throw_greet_call(&heap, arg),
        Failure::Thrown("greet error: Eve".to_string())
    );
    heap.write(arg, 0, &[b'a', 0xFF, b'b']);
    assert_eq!(
        throw_greet_call(&heap, arg),
        Failure::Thrown("throw_greet: invalid utf8 string".to_string())
    );
}
