use vstd::prelude::*;

verus! {

/// Bytes at the start of every segment reserved for the bucket tag.
pub const HEADER_SIZE: usize = 8;

/// Byte `k` (little-endian) of the tag `tag`.
pub open spec fn header_byte(tag: u64, k: int) -> u8 {
    (tag >> ((8 * k) as u64)) as u8
}

/// The bytes of `mem` starting at `at` hold the encoding of `tag`.
pub open spec fn header_holds(mem: Seq<u8>, at: int, tag: u64) -> bool {
    &&& 0 <= at
    &&& at + HEADER_SIZE <= mem.len()
    &&& forall|k: int| 0 <= k < HEADER_SIZE ==> mem[at + k] == #[trigger] header_byte(tag, k)
}

proof fn lemma_decode_encode(tag: u64)
    ensures
        (tag as u8) as u64 | ((((tag >> 8u64) as u8) as u64) << 8u64) | ((((tag >> 16u64) as u8) as u64) << 16u64)
            | ((((tag >> 24u64) as u8) as u64) << 24u64) | ((((tag >> 32u64) as u8) as u64) << 32u64)
            | ((((tag >> 40u64) as u8) as u64) << 40u64) | ((((tag >> 48u64) as u8) as u64) << 48u64)
            | ((((tag >> 56u64) as u8) as u64) << 56u64) == tag,
{
    assert((tag as u8) as u64 | ((((tag >> 8u64) as u8) as u64) << 8u64) | ((((tag >> 16u64) as u8) as u64) << 16u64)
        | ((((tag >> 24u64) as u8) as u64) << 24u64) | ((((tag >> 32u64) as u8) as u64) << 32u64)
        | ((((tag >> 40u64) as u8) as u64) << 40u64) | ((((tag >> 48u64) as u8) as u64) << 48u64)
        | ((((tag >> 56u64) as u8) as u64) << 56u64) == tag) by (bit_vector);
}

/// A header survives any write that leaves its bytes alone.
pub proof fn lemma_header_frame(before: Seq<u8>, after: Seq<u8>, at: int, tag: u64, lo: int, hi: int)
    requires
        header_holds(before, at, tag),
        after.len() == before.len(),
        at + HEADER_SIZE <= lo || hi <= at,
        forall|i: int| 0 <= i < before.len() && !(lo <= i < hi) ==> #[trigger] after[i] == before[i],
    ensures
        header_holds(after, at, tag),
{
    assert forall|k: int| 0 <= k < HEADER_SIZE implies after[at + k] == #[trigger] header_byte(tag, k) by {
        assert(after[at + k] == before[at + k]);
    }
}

/// Writes the tag into the header bytes at `at`, leaving every other byte alone.
pub fn write_header(mem: &mut Vec<u8>, at: usize, tag: u64)
    requires
        at + HEADER_SIZE <= old(mem)@.len(),
    ensures
        final(mem)@.len() == old(mem)@.len(),
        header_holds(final(mem)@, at as int, tag),
        forall|i: int|
            0 <= i < old(mem)@.len() && !(at <= i < at + HEADER_SIZE) ==> #[trigger] final(mem)@[i]
                == old(mem)@[i],
{
    let mut k: usize = 0;
    while k < HEADER_SIZE
        invariant
            k <= HEADER_SIZE,
            mem@.len() == mem.len(),
            at + HEADER_SIZE <= mem@.len(),
            mem@.len() == old(mem)@.len(),
            forall|j: int| 0 <= j < k ==> #[trigger] mem@[at + j] == header_byte(tag, j),
            forall|i: int|
                0 <= i < old(mem)@.len() && !(at <= i < at + k) ==> #[trigger] mem@[i] == old(mem)@[i],
        decreases HEADER_SIZE - k,
    {
        mem.set(at + k, #[verifier::truncate] ((tag >> ((8 * k) as u64)) as u8));
        k = k + 1;
    }
    assert forall|j: int| 0 <= j < HEADER_SIZE implies #[trigger] mem@[at as int + j] == header_byte(tag, j) by {
        assert(mem@[at + j] == header_byte(tag, j));
    }
}

/// Reads back the tag stored in the header bytes at `at`.
pub fn read_header(mem: &Vec<u8>, at: usize) -> (tag: u64)
    requires
        at + HEADER_SIZE <= mem@.len(),
    ensures
        forall|t: u64| header_holds(mem@, at as int, t) ==> tag == t,
{
    proof {
        assert(mem@.len() == mem.len());
    }
    let b0 = mem[at] as u64;
    let b1 = mem[at + 1] as u64;
    let b2 = mem[at + 2] as u64;
    let b3 = mem[at + 3] as u64;
    let b4 = mem[at + 4] as u64;
    let b5 = mem[at + 5] as u64;
    let b6 = mem[at + 6] as u64;
    let b7 = mem[at + 7] as u64;
    let tag = b0 | (b1 << 8u64) | (b2 << 16u64) | (b3 << 24u64) | (b4 << 32u64) | (b5 << 40u64) | (b6
        << 48u64) | (b7 << 56u64);
    proof {
        assert forall|t: u64| header_holds(mem@, at as int, t) implies tag == t by {
            assert(mem@[at + 0] == header_byte(t, 0));
            assert(header_byte(t, 0) == (t >> 0u64) as u8);
            assert(mem@[at + 1] == header_byte(t, 1));
            assert(header_byte(t, 1) == (t >> 8u64) as u8);
            assert(mem@[at + 2] == header_byte(t, 2));
            assert(header_byte(t, 2) == (t >> 16u64) as u8);
            assert(mem@[at + 3] == header_byte(t, 3));
            assert(header_byte(t, 3) == (t >> 24u64) as u8);
            assert(mem@[at + 4] == header_byte(t, 4));
            assert(header_byte(t, 4) == (t >> 32u64) as u8);
            assert(mem@[at + 5] == header_byte(t, 5));
            assert(header_byte(t, 5) == (t >> 40u64) as u8);
            assert(mem@[at + 6] == header_byte(t, 6));
            assert(header_byte(t, 6) == (t >> 48u64) as u8);
            assert(mem@[at + 7] == header_byte(t, 7));
            assert(header_byte(t, 7) == (t >> 56u64) as u8);
            lemma_decode_encode(t);
            assert(t >> 0u64 == t) by (bit_vector);
        }
    }
    tag
}

} // verus!
