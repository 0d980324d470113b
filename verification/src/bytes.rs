//! Byte-sequence helpers.

use vstd::prelude::*;

verus! {

/// `target` with `source` laid over it from index `at` on.
pub open spec fn laid_over(target: Seq<u8>, at: int, source: Seq<u8>) -> Seq<u8> {
    Seq::new(
        target.len(),
        |i: int| if at <= i < at + source.len() { source[i - at] } else { target[i] },
    )
}

/// The `len` bytes of `memory` from index `at` on.
pub open spec fn bytes_at(memory: Seq<u8>, at: int, len: nat) -> Seq<u8> {
    memory.subrange(at, at + len)
}

/// A run of zero bytes.
pub open spec fn zeros(len: nat) -> Seq<u8> {
    Seq::new(len, |i: int| 0u8)
}

pub fn copy_slice(source: &[u8]) -> (copy: Vec<u8>)
    ensures
        copy@ == source@,
{
    let mut copy: Vec<u8> = Vec::new();
    copy.extend_from_slice(source);
    assert(copy@ =~= source@);
    copy
}

pub fn zero_bytes(len: usize) -> (bytes: Vec<u8>)
    ensures
        bytes@ == zeros(len as nat),
{
    let bytes: Vec<u8> = vec![0u8; len];
    assert(bytes@ =~= zeros(len as nat));
    bytes
}

/// Copies `source[from..from + count]` over `target[at..at + count]`.
pub fn lay_over(target: &mut Vec<u8>, at: usize, source: &[u8], from: usize, count: usize)
    requires
        at + count <= old(target)@.len(),
        from + count <= source@.len(),
    ensures
        final(target)@ == laid_over(old(target)@, at as int, source@.subrange(from as int, from + count)),
{
    let ghost before = target@;
    let target_len: usize = target.len();
    let source_len: usize = source.len();
    let mut i: usize = 0;
    while i < count
        invariant
            i <= count,
            target_len == before.len(),
            source_len == source@.len(),
            at + count <= target_len,
            from + count <= source_len,
            target@.len() == before.len(),
            forall|j: int| 0 <= j < before.len() ==> #[trigger] target@[j] == (if at <= j < at + i { source@[from + j - at] } else { before[j] }),
        decreases count - i,
    {
        target.set(at + i, source[from + i]);
        i += 1;
    }
    assert(target@ =~= laid_over(before, at as int, source@.subrange(from as int, from + count)));
}

/// Copies `source` over `target[at..at + source.len()]`.
pub fn lay_over_slice(target: &mut [u8], at: usize, source: &[u8])
    requires
        at + source@.len() <= old(target)@.len(),
    ensures
        final(target)@ == laid_over(old(target)@, at as int, source@),
{
    let ghost before = target@;
    let total: usize = target.len();
    let count: usize = source.len();
    let mut i: usize = 0;
    while i < count
        invariant
            i <= count,
            count == source@.len(),
            at + count <= total,
            total == before.len(),
            target@.len() == before.len(),
            forall|j: int| 0 <= j < before.len() ==> #[trigger] target@[j] == (if at <= j < at + i { source@[j - at] } else { before[j] }),
        decreases count - i,
    {
        target[at + i] = source[i];
        i += 1;
    }
    assert(target@ =~= laid_over(before, at as int, source@));
}

/// Bytes that are laid over others stand where they were laid; all others stay as they were.
pub proof fn laid_bytes_stand_where_they_were_laid(target: Seq<u8>, at: int, source: Seq<u8>, i: int)
    requires
        0 <= at,
        at + source.len() <= target.len(),
        0 <= i < target.len(),
    ensures
        laid_over(target, at, source).len() == target.len(),
        laid_over(target, at, source).subrange(at, at + source.len()) == source,
        i < at || at + source.len() <= i ==> laid_over(target, at, source)[i] == target[i],
{
    assert(laid_over(target, at, source).subrange(at, at + source.len()) =~= source);
}

/// A run of zeros has its length, and no byte but zero.
pub proof fn zeros_are_zero(len: nat, i: int)
    requires
        0 <= i < len,
    ensures
        zeros(len).len() == len,
        zeros(len)[i] == 0,
{
}

/// What is read of memory is its bytes, one for one; where bytes were laid, those bytes are read, and
/// apart from them what was there.
pub proof fn laid_bytes_are_read_back(memory: Seq<u8>, at: int, source: Seq<u8>, from: int, len: nat, i: int)
    requires
        0 <= at,
        at + source.len() <= memory.len(),
        0 <= from,
        from + len <= memory.len(),
        0 <= i < len,
    ensures
        bytes_at(memory, from, len).len() == len,
        bytes_at(memory, from, len)[i] == memory[from + i],
        bytes_at(laid_over(memory, at, source), at, source.len()) == source,
        from + len <= at || at + source.len() <= from ==> bytes_at(laid_over(memory, at, source), from, len) == bytes_at(memory, from, len),
{
    assert(bytes_at(laid_over(memory, at, source), at, source.len()) =~= source);
    if from + len <= at || at + source.len() <= from {
        assert(bytes_at(laid_over(memory, at, source), from, len) =~= bytes_at(memory, from, len));
    }
}

} // verus!
