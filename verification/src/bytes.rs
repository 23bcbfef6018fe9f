use vstd::prelude::*;

verus! {

/// `<[T]>::copy_from_slice` of the standard library: the destination takes the
/// contents of the source. It panics unless both have one length.
pub assume_specification<T: Copy>[ <[T]>::copy_from_slice ](destination: &mut [T], source: &[T])
    requires
        old(destination)@.len() == source@.len(),
    ensures
        final(destination)@ == source@,
;

/// The big-endian encoding of a 32-bit number.
pub open spec fn be32(value: u32) -> Seq<u8> {
    seq![
        (value / 0x100_0000) as u8,
        (value / 0x1_0000 % 0x100) as u8,
        (value / 0x100 % 0x100) as u8,
        (value % 0x100) as u8,
    ]
}

/// The number that four bytes encode, most significant byte first.
pub open spec fn from_be32(bytes: Seq<u8>) -> u32 {
    (bytes[0] * 0x100_0000 + bytes[1] * 0x1_0000 + bytes[2] * 0x100 + bytes[3]) as u32
}

/// The big-endian encoding of a 64-bit number.
pub open spec fn be64(value: u64) -> Seq<u8> {
    be32((value / 0x1_0000_0000) as u32) + be32((value % 0x1_0000_0000) as u32)
}

/// Decoding undoes encoding: every number comes back from its four bytes.
pub proof fn lemma_be32_round_trip(value: u32)
    ensures
        be32(value).len() == 4,
        from_be32(be32(value)) == value,
{
}

/// Two 64-bit numbers with one encoding are equal.
pub proof fn lemma_be64_injective(left: u64, right: u64)
    requires
        be64(left) == be64(right),
    ensures
        left == right,
{
    let high = be32((left / 0x1_0000_0000) as u32);
    let low = be32((left % 0x1_0000_0000) as u32);
    assert(be64(left).subrange(0, 4) =~= high);
    assert(be64(left).subrange(4, 8) =~= low);
    assert(be64(right).subrange(0, 4) =~= be32((right / 0x1_0000_0000) as u32));
    assert(be64(right).subrange(4, 8) =~= be32((right % 0x1_0000_0000) as u32));
    lemma_be32_round_trip((left / 0x1_0000_0000) as u32);
    lemma_be32_round_trip((left % 0x1_0000_0000) as u32);
    lemma_be32_round_trip((right / 0x1_0000_0000) as u32);
    lemma_be32_round_trip((right % 0x1_0000_0000) as u32);
}

pub(crate) fn encode_be32(value: u32) -> (bytes: [u8; 4])
    ensures
        bytes@ == be32(value),
{
    let bytes = [
        (value / 0x100_0000) as u8,
        (value / 0x1_0000 % 0x100) as u8,
        (value / 0x100 % 0x100) as u8,
        (value % 0x100) as u8,
    ];
    assert(bytes@ =~= be32(value));
    bytes
}

pub(crate) fn decode_be32(bytes: [u8; 4]) -> (value: u32)
    ensures
        value == from_be32(bytes@),
{
    bytes[0] as u32 * 0x100_0000 + bytes[1] as u32 * 0x1_0000 + bytes[2] as u32 * 0x100
        + bytes[3] as u32
}

pub(crate) fn encode_be64(value: u64) -> (bytes: [u8; 8])
    ensures
        bytes@ == be64(value),
{
    let high = encode_be32((value / 0x1_0000_0000) as u32);
    let low = encode_be32((value % 0x1_0000_0000) as u32);
    let bytes = [high[0], high[1], high[2], high[3], low[0], low[1], low[2], low[3]];
    assert(bytes@ =~= be64(value));
    bytes
}

/// Borrows `bytes[start..end]`.
pub(crate) fn range_mut(bytes: &mut [u8], start: usize, end: usize) -> (range: &mut [u8])
    requires
        start <= end <= old(bytes)@.len(),
    ensures
        range@ == old(bytes)@.subrange(start as int, end as int),
        final(bytes)@ == old(bytes)@.subrange(0, start as int) + final(range)@
            + old(bytes)@.subrange(end as int, old(bytes)@.len() as int),
        final(range)@.len() == end - start ==> final(bytes)@.len() == old(bytes)@.len()
            && final(bytes)@.subrange(start as int, end as int) == final(range)@,
{
    let (_, tail) = bytes.split_at_mut(start);
    let (range, _) = tail.split_at_mut(end - start);
    range
}

/// Borrows `bytes[start..]`.
pub(crate) fn tail_mut(bytes: &mut [u8], start: usize) -> (tail: &mut [u8])
    requires
        start <= old(bytes)@.len(),
    ensures
        tail@ == old(bytes)@.skip(start as int),
        final(tail)@.len() == tail@.len() ==> final(bytes)@.len() == old(bytes)@.len()
            && final(bytes)@.take(start as int) == old(bytes)@.take(start as int)
            && final(bytes)@.skip(start as int) == final(tail)@,
{
    let (_, tail) = bytes.split_at_mut(start);
    tail
}

/// Copies `bytes[start..start + N]` into an array.
pub(crate) fn array_at<const N: usize>(bytes: &[u8], start: usize) -> (array: [u8; N])
    requires
        start + N <= bytes.len(),
    ensures
        array@ == bytes@.subrange(start as int, start + N),
{
    let mut array = [0u8; N];
    array.copy_from_slice(&bytes[start..start + N]);
    array
}

/// The array that holds `bytes`.
pub open spec fn array_of<const N: usize>(bytes: Seq<u8>) -> [u8; N] {
    choose|array: [u8; N]| #[trigger] array@ == bytes
}

/// An array is the one that holds its bytes.
pub proof fn lemma_array_of<const N: usize>(array: [u8; N])
    ensures
        array_of::<N>(array@) == array,
{
    let other = array_of::<N>(array@);
    assert(other@ == array@);
    assert forall|i: int| 0 <= i < N implies other[i] == array[i] by {
        assert(other@[i] == array@[i]);
    }
    assert(other =~= array);
}

pub(crate) fn bytes_equal(left: &[u8], right: &[u8]) -> (equal: bool)
    ensures
        equal == (left@ == right@),
{
    if left.len() != right.len() {
        return false;
    }
    let mut index: usize = 0;
    while index < left.len()
        invariant
            left@.len() == right@.len(),
            index <= left@.len(),
            forall|i: int| 0 <= i < index ==> left@[i] == right@[i],
        decreases left@.len() - index,
    {
        if left[index] != right[index] {
            return false;
        }
        index += 1;
    }
    assert(left@ =~= right@);
    true
}

/// All parts in order, one after another.
pub open spec fn concat(parts: Seq<&[u8]>) -> Seq<u8>
    decreases parts.len(),
{
    if parts.len() == 0 {
        Seq::empty()
    } else {
        concat(parts.drop_last()) + parts.last()@
    }
}

pub(crate) fn join(parts: &[&[u8]]) -> (joined: Vec<u8>)
    ensures
        joined@ == concat(parts@),
{
    let mut joined: Vec<u8> = Vec::new();
    let mut index: usize = 0;
    while index < parts.len()
        invariant
            index <= parts@.len(),
            joined@ == concat(parts@.take(index as int)),
        decreases parts@.len() - index,
    {
        joined.extend_from_slice(parts[index]);
        index += 1;
        assert(parts@.take(index as int).drop_last() =~= parts@.take(index - 1));
    }
    assert(parts@.take(index as int) =~= parts@);
    joined
}

} // verus!
