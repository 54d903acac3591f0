//! The little-endian encoding of integers and byte arrays that every on-disk structure is made
//! of, and the calls into `bincode` that write and read single fields.

use vstd::prelude::*;

verus! {

/// The `n` bytes of `v`, least significant byte first.
pub open spec fn le_bytes(v: nat, n: nat) -> Seq<u8>
    decreases n,
{
    if n == 0 {
        Seq::empty()
    } else {
        seq![(v % 256) as u8] + le_bytes(v / 256, (n - 1) as nat)
    }
}

/// The number whose bytes, least significant byte first, are `s`.
pub open spec fn le_value(s: Seq<u8>) -> nat
    decreases s.len(),
{
    if s.len() == 0 {
        0
    } else {
        s[0] as nat + 256 * le_value(s.drop_first())
    }
}

/// The first number that `n` bytes cannot hold.
pub open spec fn byte_range(n: nat) -> nat
    decreases n,
{
    if n == 0 {
        1
    } else {
        256 * byte_range((n - 1) as nat)
    }
}

/// What is left of `s` from position `offset` on: nothing, if `s` ends before.
pub open spec fn tail_at(s: Seq<u8>, offset: int) -> Seq<u8> {
    if offset <= s.len() {
        s.skip(offset)
    } else {
        Seq::empty()
    }
}

pub proof fn lemma_le_bytes_len(v: nat, n: nat)
    ensures
        le_bytes(v, n).len() == n,
    decreases n,
{
    if n > 0 {
        lemma_le_bytes_len(v / 256, (n - 1) as nat);
    }
}

/// Reading back the bytes of a number gives the number, where the bytes can hold it.
pub proof fn lemma_le_value_of_bytes(v: nat, n: nat)
    requires
        v < byte_range(n),
    ensures
        le_value(le_bytes(v, n)) == v,
    decreases n,
{
    lemma_le_bytes_len(v, n);
    if n > 0 {
        lemma_le_bytes_len(v / 256, (n - 1) as nat);
        lemma_le_value_of_bytes(v / 256, (n - 1) as nat);
        assert(le_bytes(v, n).drop_first() =~= le_bytes(v / 256, (n - 1) as nat));
    }
}

/// Writing the number that some bytes stand for gives those bytes.
pub proof fn lemma_le_bytes_of_value(s: Seq<u8>)
    ensures
        le_bytes(le_value(s), s.len()) == s,
        le_value(s) < byte_range(s.len()),
    decreases s.len(),
{
    if s.len() > 0 {
        lemma_le_bytes_of_value(s.drop_first());
        let rest = le_value(s.drop_first());
        assert(le_value(s) / 256 == rest && le_value(s) % 256 == s[0]);
        assert(le_bytes(le_value(s), s.len()) =~= s);
    }
}

pub proof fn lemma_byte_ranges()
    ensures
        byte_range(2) == 0x1_0000,
        byte_range(4) == 0x1_0000_0000,
        byte_range(8) == 0x1_0000_0000_0000_0000,
{
    reveal_with_fuel(byte_range, 9);
}

/// The error type of `bincode`, opaque here.
#[verifier::external_type_specification]
#[verifier::external_body]
pub struct ExBincodeErrorKind(bincode::ErrorKind);

/// `bincode::serialize` on a `u16`: its two bytes, least significant first. It never fails: the
/// size is not limited and the bytes go to a vector.
#[verifier::external_body]
pub(crate) fn encode_u16(v: u16) -> (r: Vec<u8>)
    ensures
        r@ == le_bytes(v as nat, 2),
{
    bincode::serialize(&v).expect("could not serialize")
}

/// `bincode::serialize` on a `u32`: its four bytes, least significant first. It never fails: the
/// size is not limited and the bytes go to a vector.
#[verifier::external_body]
pub(crate) fn encode_u32(v: u32) -> (r: Vec<u8>)
    ensures
        r@ == le_bytes(v as nat, 4),
{
    bincode::serialize(&v).expect("could not serialize")
}

/// `bincode::serialize` on a `u64`: its eight bytes, least significant first. It never fails: the
/// size is not limited and the bytes go to a vector.
#[verifier::external_body]
pub(crate) fn encode_u64(v: u64) -> (r: Vec<u8>)
    ensures
        r@ == le_bytes(v as nat, 8),
{
    bincode::serialize(&v).expect("could not serialize")
}

/// `bincode::deserialize` into a `u16`: the number that the first two bytes stand for, least
/// significant first; whatever follows them is ignored. It fails on fewer than two bytes, and
/// only then.
#[verifier::external_body]
pub(crate) fn decode_u16(bytes: &[u8]) -> (r: Result<u16, bincode::Error>)
    ensures
        r is Ok <==> bytes@.len() >= 2,
        r matches Ok(v) ==> v as nat == le_value(bytes@.take(2)),
{
    bincode::deserialize(bytes)
}

/// `bincode::deserialize` into a `u32`: the number that the first four bytes stand for, least
/// significant first; whatever follows them is ignored. It fails on fewer than four bytes, and
/// only then.
#[verifier::external_body]
pub(crate) fn decode_u32(bytes: &[u8]) -> (r: Result<u32, bincode::Error>)
    ensures
        r is Ok <==> bytes@.len() >= 4,
        r matches Ok(v) ==> v as nat == le_value(bytes@.take(4)),
{
    bincode::deserialize(bytes)
}

/// `bincode::deserialize` into a `u64`: the number that the first eight bytes stand for, least
/// significant first; whatever follows them is ignored. It fails on fewer than eight bytes, and
/// only then.
#[verifier::external_body]
pub(crate) fn decode_u64(bytes: &[u8]) -> (r: Result<u64, bincode::Error>)
    ensures
        r is Ok <==> bytes@.len() >= 8,
        r matches Ok(v) ==> v as nat == le_value(bytes@.take(8)),
{
    bincode::deserialize(bytes)
}

/// `bincode::deserialize` into four bytes: the first four, as they are. It fails on fewer than
/// four bytes, and only then.
#[verifier::external_body]
pub(crate) fn decode_array_4(bytes: &[u8]) -> (r: Result<[u8; 4], bincode::Error>)
    ensures
        r is Ok <==> bytes@.len() >= 4,
        r matches Ok(v) ==> v@ == bytes@.take(4),
{
    bincode::deserialize(bytes)
}

/// `bincode::deserialize` into eight bytes: the first eight, as they are. It fails on fewer than
/// eight bytes, and only then.
#[verifier::external_body]
pub(crate) fn decode_array_8(bytes: &[u8]) -> (r: Result<[u8; 8], bincode::Error>)
    ensures
        r is Ok <==> bytes@.len() >= 8,
        r matches Ok(v) ==> v@ == bytes@.take(8),
{
    bincode::deserialize(bytes)
}

/// `bincode::deserialize` into sixteen bytes: the first sixteen, as they are. It fails on fewer
/// than sixteen bytes, and only then.
#[verifier::external_body]
pub(crate) fn decode_array_16(bytes: &[u8]) -> (r: Result<[u8; 16], bincode::Error>)
    ensures
        r is Ok <==> bytes@.len() >= 16,
        r matches Ok(v) ==> v@ == bytes@.take(16),
{
    bincode::deserialize(bytes)
}

/// The part of `bytes` from `offset` on, which is empty past the end.
pub(crate) fn tail(bytes: &[u8], offset: usize) -> (r: &[u8])
    ensures
        r@ == tail_at(bytes@, offset as int),
{
    let len = bytes.len();
    if offset <= len {
        vstd::slice::slice_subrange(bytes, offset, len)
    } else {
        vstd::slice::slice_subrange(bytes, len, len)
    }
}

/// Appends `src` to `dst`.
pub(crate) fn append_bytes(dst: &mut Vec<u8>, src: &[u8])
    ensures
        final(dst)@ == old(dst)@ + src@,
{
    dst.extend_from_slice(src);
    assert(dst@ =~= old(dst)@ + src@);
}

} // verus!
