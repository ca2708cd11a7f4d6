//! Decoded posting data of one block: 16-bit local document ids read from
//! little-endian byte buffers, and the global document id encoding.
use vstd::prelude::*;

verus! {

/// Number of local ids a block can address.
pub const BLOCK_SIZE: u64 = 65536;

/// Largest block id whose global ids stay below `u64::MAX`.
pub const MAX_BLOCK_ID: u64 = 0xFFFF_FFFF_FFFE;

/// Every element is smaller than the next one: sorted and duplicate-free.
pub open spec fn strictly_increasing(s: Seq<u16>) -> bool {
    forall|i: int, j: int| 0 <= i < j < s.len() ==> s[i] < s[j]
}

/// The `i`-th little-endian 16-bit value of a byte sequence.
pub open spec fn le_u16_at(bytes: Seq<u8>, i: int) -> u16 {
    (bytes[2 * i] as int + 256 * bytes[2 * i + 1] as int) as u16
}

/// The first `n` 16-bit values held by a byte sequence.
pub open spec fn decoded(bytes: Seq<u8>, n: nat) -> Seq<u16> {
    Seq::new(n, |i: int| le_u16_at(bytes, i))
}

/// Global id of local id `local` in block `block`: `(block << 16) | local`.
pub open spec fn global_id(block: int, local: int) -> int {
    block * 65536 + local
}

/// The first `i + 1` elements hold what the first `i` hold, and `s[i]`.
pub proof fn lemma_take_contains(s: Seq<u16>, i: int)
    requires
        0 <= i < s.len(),
    ensures
        forall|x: u16| s.take(i + 1).contains(x) <==> (s.take(i).contains(x) || x == s[i]),
{
    let t1 = s.take(i + 1);
    let t0 = s.take(i);
    assert forall|x: u16| t1.contains(x) <==> (t0.contains(x) || x == s[i]) by {
        if t1.contains(x) {
            let j = choose|j: int| 0 <= j < t1.len() && t1[j] == x;
            if j < i {
                assert(t0[j] == x);
            }
        }
        if t0.contains(x) {
            let j = choose|j: int| 0 <= j < t0.len() && t0[j] == x;
            assert(t1[j] == x);
        }
        if x == s[i] {
            assert(t1[i] == x);
        }
    }
}

/// Why a posting buffer was rejected.
#[derive(Debug, Clone, Copy, PartialEq, Eq, Structural)]
pub enum DecodeError {
    /// The buffer holds fewer than two bytes per announced id.
    Truncated,
    /// The ids are not strictly increasing.
    NotIncreasing,
}

/// Reads the `i`-th little-endian 16-bit value of `bytes`.
pub fn read_u16(bytes: &[u8], i: usize) -> (r: u16)
    requires
        2 * i + 1 < bytes@.len(),
    ensures
        r == le_u16_at(bytes@, i as int),
{
    let n = bytes.len();
    assert(2 * i + 1 < n);
    let lo = bytes[2 * i] as u16;
    let hi = bytes[2 * i + 1] as u16;
    lo + 256 * hi
}

/// Decodes `count` local ids from `bytes` and checks that they are strictly
/// increasing, the order every merge below relies on.
pub fn decode_ids(bytes: &[u8], count: usize) -> (r: Result<Vec<u16>, DecodeError>)
    ensures
        match r {
            Ok(ids) => 2 * count <= bytes@.len() && ids@ == decoded(bytes@, count as nat)
                && strictly_increasing(ids@),
            Err(DecodeError::Truncated) => 2 * count > bytes@.len(),
            Err(DecodeError::NotIncreasing) => 2 * count <= bytes@.len() && !strictly_increasing(
                decoded(bytes@, count as nat),
            ),
        },
{
    if count > bytes.len() / 2 {
        return Err(DecodeError::Truncated);
    }
    let ghost want = decoded(bytes@, count as nat);
    let mut ids: Vec<u16> = Vec::with_capacity(count);
    let mut i: usize = 0;
    while i < count
        invariant
            2 * count <= bytes@.len(),
            i <= count,
            ids@ == want.take(i as int),
            want == decoded(bytes@, count as nat),
            strictly_increasing(ids@),
        decreases count - i,
    {
        let v = read_u16(bytes, i);
        if i > 0 && ids[i - 1] >= v {
            assert(want[i - 1] >= want[i as int]);
            return Err(DecodeError::NotIncreasing);
        }
        ids.push(v);
        i += 1;
        assert(ids@ =~= want.take(i as int));
    }
    assert(ids@ =~= want);
    Ok(ids)
}

/// Encodes local id `local` of block `block_id` as `(block_id << 16) | local`.
pub fn global_doc_id(block_id: u64, local: u16) -> (r: u64)
    requires
        block_id <= MAX_BLOCK_ID,
    ensures
        r == global_id(block_id as int, local as int),
{
    let l = local as u64;
    assert((block_id << 16u64) | l == block_id * 65536 + l) by (bit_vector)
        requires
            block_id <= 0xFFFF_FFFF_FFFEu64,
            l < 65536u64,
    ;
    (block_id << 16u64) | l
}

/// Splits a global id into its block id and local id.
pub fn split_doc_id(id: u64) -> (r: (u64, u16))
    ensures
        global_id(r.0 as int, r.1 as int) == id,
        r.0 == id / 65536,
        r.1 == id % 65536,
{
    let block = id >> 16u64;
    let local = (id & 0xFFFFu64) as u16;
    assert(id >> 16u64 == id / 65536 && id & 0xFFFFu64 == id % 65536) by (bit_vector);
    (block, local)
}

} // verus!
