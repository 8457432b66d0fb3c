use vstd::prelude::*;

verus! {

/// Width in bytes of the size header that prefixes every self-describing
/// block. It is 8 on every target, 32-bit ones included, rather than the
/// width of the target's own address-sized integer: one layout for all
/// hosts, so tooling that inspects blocks never needs to know the target.
pub const HEADER_SIZE: usize = 8;

/// `256` raised to the power `n`.
pub open spec fn pow256(n: nat) -> nat
    decreases n,
{
    if n == 0 {
        1
    } else {
        256 * pow256((n - 1) as nat)
    }
}

/// The number that a big-endian byte string stands for.
pub open spec fn be_value(bytes: Seq<u8>) -> nat
    decreases bytes.len(),
{
    if bytes.len() == 0 {
        0
    } else {
        be_value(bytes.drop_last()) * 256 + bytes.last() as nat
    }
}

proof fn lemma_pow256_positive(n: nat)
    ensures
        pow256(n) >= 1,
    decreases n,
{
    if n > 0 {
        lemma_pow256_positive((n - 1) as nat);
    }
}

/// A leading byte weighs `256` to the power of the number of bytes after it.
proof fn lemma_be_value_prepend(b: u8, s: Seq<u8>)
    ensures
        be_value(seq![b] + s) == b as nat * pow256(s.len()) + be_value(s),
    decreases s.len(),
{
    let t = seq![b] + s;
    if s.len() == 0 {
        assert(t.drop_last() =~= Seq::<u8>::empty());
        assert(be_value(t) == be_value(t.drop_last()) * 256 + b as nat);
        assert(be_value(t.drop_last()) == 0);
        assert(pow256(s.len()) == 1);
        assert(b as nat * pow256(s.len()) == b as nat) by (nonlinear_arith)
            requires
                pow256(s.len()) == 1,
        ;
    } else {
        assert(t.drop_last() =~= seq![b] + s.drop_last());
        lemma_be_value_prepend(b, s.drop_last());
        assert(t.last() == s.last());
        assert(be_value(t) == be_value(t.drop_last()) * 256 + t.last() as nat);
        assert(pow256(s.len()) == 256 * pow256((s.len() - 1) as nat));
        let p = pow256((s.len() - 1) as nat);
        let rest = be_value(s.drop_last());
        assert((b as nat * p + rest) * 256 + s.last() as nat == b as nat * (256 * p) + (rest * 256
            + s.last() as nat)) by (nonlinear_arith);
    }
}

/// What a header holds: `Some` of the size it encodes when it is exactly
/// `HEADER_SIZE` bytes long, `None` otherwise.
pub open spec fn header_decoded(bytes: Seq<u8>) -> Option<nat> {
    if bytes.len() == HEADER_SIZE {
        Some(be_value(bytes))
    } else {
        None
    }
}

/// `bytes` is a header that encodes `size`.
pub open spec fn is_header_of(bytes: Seq<u8>, size: nat) -> bool {
    bytes.len() == HEADER_SIZE && be_value(bytes) == size
}

proof fn lemma_pow256_monotone(a: nat, b: nat)
    requires
        a <= b,
    ensures
        pow256(a) <= pow256(b),
    decreases b,
{
    if a < b {
        lemma_pow256_monotone(a, (b - 1) as nat);
    }
}

/// A big-endian string of `n` bytes stands for a number below `256^n`.
proof fn lemma_be_value_bound(s: Seq<u8>)
    ensures
        be_value(s) < pow256(s.len()),
    decreases s.len(),
{
    if s.len() > 0 {
        lemma_be_value_bound(s.drop_last());
        let r = be_value(s.drop_last());
        let p = pow256((s.len() - 1) as nat);
        assert(r * 256 + (s.last() as nat) < 256 * p) by (nonlinear_arith)
            requires
                r < p,
                s.last() < 256,
        ;
    }
}

/// Two byte strings of one length that stand for the same number are equal.
proof fn lemma_be_value_injective(a: Seq<u8>, b: Seq<u8>)
    requires
        a.len() == b.len(),
        be_value(a) == be_value(b),
    ensures
        a == b,
    decreases a.len(),
{
    if a.len() > 0 {
        let ra = be_value(a.drop_last());
        let rb = be_value(b.drop_last());
        let la = a.last() as int;
        let lb = b.last() as int;
        assert(ra == rb && la == lb) by (nonlinear_arith)
            requires
                ra * 256 + la == rb * 256 + lb,
                0 <= la < 256,
                0 <= lb < 256,
                ra >= 0,
                rb >= 0,
        ;
        lemma_be_value_injective(a.drop_last(), b.drop_last());
        assert(a =~= a.drop_last().push(a.last()));
        assert(b =~= b.drop_last().push(b.last()));
    } else {
        assert(a =~= b);
    }
}

/// Decoding a header that was written for `size` gives `size` back.
pub proof fn lemma_header_round_trip(size: u64, bytes: Seq<u8>)
    requires
        is_header_of(bytes, size as nat),
    ensures
        header_decoded(bytes) == Some(size as nat),
{
}

/// A size has exactly one header: encoding is a function of the size, so
/// any header that decodes to a size is the one written for it.
pub proof fn lemma_header_unique(a: Seq<u8>, b: Seq<u8>, size: nat)
    requires
        is_header_of(a, size),
        is_header_of(b, size),
    ensures
        a == b,
{
    lemma_be_value_injective(a, b);
}

/// Every header decodes to a size that fits in 64 bits.
pub proof fn lemma_header_fits(bytes: Seq<u8>)
    requires
        bytes.len() == HEADER_SIZE,
    ensures
        be_value(bytes) < 0x1_0000_0000_0000_0000,
{
    lemma_be_value_bound(bytes);
    reveal_with_fuel(pow256, 9);
}

/// Reads the size that a header holds; `None` unless `bytes` is exactly
/// `HEADER_SIZE` bytes long.
pub fn decode_header(bytes: &[u8]) -> (r: Option<u64>)
    ensures
        r matches Some(v) ==> header_decoded(bytes@) == Some(v as nat),
        r is None ==> header_decoded(bytes@) is None,
{
    if bytes.len() != HEADER_SIZE {
        return None;
    }
    let mut acc: u64 = 0;
    let mut i: usize = 0;
    assert(bytes@.subrange(0, 0) =~= Seq::<u8>::empty());
    while i < HEADER_SIZE
        invariant
            bytes@.len() == HEADER_SIZE,
            i <= HEADER_SIZE,
            acc == be_value(bytes@.subrange(0, i as int)),
        decreases HEADER_SIZE - i,
    {
        let ghost next = bytes@.subrange(0, i + 1);
        proof {
            assert(next.drop_last() =~= bytes@.subrange(0, i as int));
            lemma_be_value_bound(next);
            lemma_pow256_monotone(next.len(), 8);
            reveal_with_fuel(pow256, 9);
        }
        acc = acc * 256 + bytes[i] as u64;
        i = i + 1;
    }
    assert(bytes@.subrange(0, HEADER_SIZE as int) =~= bytes@);
    Some(acc)
}

/// Writes `size` as `HEADER_SIZE` big-endian bytes.
pub fn encode_header(size: u64) -> (r: Vec<u8>)
    ensures
        is_header_of(r@, size as nat),
{
    let mut r: Vec<u8> = vec![0u8; HEADER_SIZE];
    let mut v: u64 = size;
    let mut i: usize = HEADER_SIZE;
    assert(r@.subrange(8, 8) =~= Seq::<u8>::empty());
    assert(be_value(r@.subrange(8, 8)) == 0);
    assert(pow256(0) == 1);
    assert(pow256((HEADER_SIZE - i) as nat) == 1);
    assert(v * pow256((HEADER_SIZE - i) as nat) == v) by (nonlinear_arith)
        requires
            pow256((HEADER_SIZE - i) as nat) == 1,
    ;
    while i > 0
        invariant
            r@.len() == HEADER_SIZE,
            i <= HEADER_SIZE,
            size == be_value(r@.subrange(i as int, HEADER_SIZE as int)) + v * pow256(
                (HEADER_SIZE - i) as nat,
            ),
            v * pow256((HEADER_SIZE - i) as nat) < 0x1_0000_0000_0000_0000,
        decreases i,
    {
        let ghost old_suffix = r@.subrange(i as int, HEADER_SIZE as int);
        let ghost p = pow256((HEADER_SIZE - i) as nat);
        let byte = (v % 256) as u8;
        i = i - 1;
        r[i] = byte;
        let q = v / 256;
        proof {
            assert(r@.subrange(i as int, HEADER_SIZE as int) =~= seq![byte] + old_suffix);
            lemma_be_value_prepend(byte, old_suffix);
            assert(pow256((HEADER_SIZE - i) as nat) == 256 * p);
            assert(v == q * 256 + byte as nat);
            assert(v * p == byte as nat * p + q * (256 * p)) by (nonlinear_arith)
                requires
                    v == q * 256 + byte as nat,
            ;
        }
        v = q;
    }
    proof {
        assert(r@.subrange(0, HEADER_SIZE as int) =~= r@);
        reveal_with_fuel(pow256, 9);
        assert(pow256(8) == 0x1_0000_0000_0000_0000);
        assert(v == 0) by (nonlinear_arith)
            requires
                v * 0x1_0000_0000_0000_0000 < 0x1_0000_0000_0000_0000int,
        ;
    }
    r
}

} // verus!
