use vstd::prelude::*;
use vstd::string::StringExecFns;
use vstd::utf8::{decode_utf8, encode_utf8, valid_utf8};

use crate::allocator::SelfDescribingAllocator;
use crate::channel::{invalid_utf8_message, read_str_arg, return_str, throws};
use crate::failure::Failure;

verus! {

/// Who is to be greeted.
pub struct Person {
    pub name: String,
}

/// What the greeting call answers.
pub struct Greeting {
    pub message: String,
}

/// The greeting for `name`.
pub open spec fn greeting_text(name: Seq<char>) -> Seq<char> {
    "Hello, "@ + name
}

/// The diagnostic that the throwing greeting sends for `name`.
pub open spec fn greet_error_text(name: Seq<char>) -> Seq<char> {
    "greet error: "@ + name
}

/// The message that the panicking greeting traps with for `name`.
pub open spec fn greet_panic_text(name: Seq<char>) -> Seq<char> {
    "greet panic: "@ + name
}

/// `prefix` followed by `rest`, as a new string.
fn joined(prefix: &str, rest: &str) -> (r: String)
    ensures
        r@ == prefix@ + rest@,
{
    let mut r = prefix.to_owned();
    r.append(rest);
    r
}

/// Greets `person` by name.
pub fn greeting_for(person: &Person) -> (r: Greeting)
    ensures
        r.message@ == greeting_text(person.name@),
{
    Greeting { message: joined("Hello, ", person.name.as_str()) }
}

/// The diagnostic that the throwing greeting sends for `name`.
pub fn greet_error_message(name: &str) -> (r: String)
    ensures
        r@ == greet_error_text(name@),
{
    joined("greet error: ", name)
}

/// The message that the panicking greeting traps with for `name`.
pub fn greet_panic_message(name: &str) -> (r: String)
    ensures
        r@ == greet_panic_text(name@),
{
    joined("greet panic: ", name)
}

/// The greeting call across the boundary: reads the name at `arg`, and
/// answers with a new block holding the greeting. Text that is not UTF-8
/// is thrown back before any greeting is made; a heap that cannot hold the
/// answer aborts.
pub fn greet_call(heap: &mut SelfDescribingAllocator, arg: usize) -> (r: Result<usize, Failure>)
    requires
        old(heap).wf(),
        old(heap).owns(arg),
    ensures
        final(heap).wf(),
        r is Ok <==> valid_utf8(old(heap).payload(arg)) && old(heap).can_allocate(
            encode_utf8(greeting_text(decode_utf8(old(heap).payload(arg)))).len(),
        ),
        r matches Ok(p) ==> {
            &&& !old(heap).payloads().contains_key(p)
            &&& final(heap).payloads() == old(heap).payloads().insert(
                p,
                encode_utf8(greeting_text(decode_utf8(old(heap).payload(arg)))),
            )
        },
        r matches Err(f) ==> *final(heap) == *old(heap) && if valid_utf8(old(heap).payload(arg)) {
            f == Failure::Abort
        } else {
            throws(f, invalid_utf8_message("greet"@))
        },
{
    let name = match read_str_arg(heap, arg, "greet") {
        Ok(s) => s,
        Err(f) => return Err(f),
    };
    let greeting = greeting_for(&Person { name });
    proof {
        reveal_strlit("Hello, ");
    }
    return_str(heap, greeting.message.as_str())
}

/// The throwing greeting: reads the name at `arg`, then always throws a
/// diagnostic that names it. The heap is left as it was.
pub fn throw_greet_call(heap: &SelfDescribingAllocator, arg: usize) -> (r: Failure)
    requires
        heap.wf(),
        heap.owns(arg),
    ensures
        if valid_utf8(heap.payload(arg)) {
            throws(r, greet_error_text(decode_utf8(heap.payload(arg))))
        } else {
            throws(r, invalid_utf8_message("throw_greet"@))
        },
{
    match read_str_arg(heap, arg, "throw_greet") {
        Ok(name) => Failure::Thrown(greet_error_message(name.as_str())),
        Err(f) => f,
    }
}

} // verus!
