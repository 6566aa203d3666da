//! Byte-level helpers shared by the wire codec: little-endian 64-bit
//! fields and byte-string comparison.

use vstd::prelude::*;

verus! {

/// The eight little-endian bytes of a 64-bit value.
#[verifier::opaque]
pub open spec fn le64(x: u64) -> Seq<u8> {
    seq![
        (x & 0xff) as u8,
        ((x >> 8) & 0xff) as u8,
        ((x >> 16) & 0xff) as u8,
        ((x >> 24) & 0xff) as u8,
        ((x >> 32) & 0xff) as u8,
        ((x >> 40) & 0xff) as u8,
        ((x >> 48) & 0xff) as u8,
        ((x >> 56) & 0xff) as u8,
    ]
}

/// The 64-bit value eight little-endian bytes stand for.
#[verifier::opaque]
pub open spec fn le64_val(s: Seq<u8>) -> u64 {
    (s[0] as u64) | ((s[1] as u64) << 8) | ((s[2] as u64) << 16) | ((s[3] as u64) << 24) | ((
    s[4] as u64) << 32) | ((s[5] as u64) << 40) | ((s[6] as u64) << 48) | ((s[7] as u64) << 56)
}

/// A little-endian field is always eight bytes long.
pub broadcast proof fn lemma_le64_len(x: u64)
    ensures
        (#[trigger] le64(x)).len() == 8,
{
    reveal(le64);
}

/// Reading the little-endian bytes of a value gives the value back.
pub proof fn lemma_le64_roundtrip(x: u64)
    ensures
        le64_val(le64(x)) == x,
{
    reveal(le64);
    reveal(le64_val);
    assert((((x & 0xff) as u8) as u64) | (((((x >> 8) & 0xff) as u8) as u64) << 8) | (((((x >> 16)
        & 0xff) as u8) as u64) << 16) | (((((x >> 24) & 0xff) as u8) as u64) << 24) | (((((x >> 32)
        & 0xff) as u8) as u64) << 32) | (((((x >> 40) & 0xff) as u8) as u64) << 40) | (((((x >> 48)
        & 0xff) as u8) as u64) << 48) | (((((x >> 56) & 0xff) as u8) as u64) << 56) == x)
        by (bit_vector);
}

/// Append the eight little-endian bytes of a value.
pub fn push_le64(out: &mut Vec<u8>, x: u64)
    ensures
        final(out)@ == old(out)@ + le64(x),
{
    out.push((x & 0xff) as u8);
    out.push(((x >> 8) & 0xff) as u8);
    out.push(((x >> 16) & 0xff) as u8);
    out.push(((x >> 24) & 0xff) as u8);
    out.push(((x >> 32) & 0xff) as u8);
    out.push(((x >> 40) & 0xff) as u8);
    out.push(((x >> 48) & 0xff) as u8);
    out.push(((x >> 56) & 0xff) as u8);
    proof {
        reveal(le64);
        assert(final(out)@ =~= old(out)@ + le64(x));
    }
}

/// Read the 64-bit value whose little-endian bytes sit at `pos`.
pub fn read_le64(data: &Vec<u8>, pos: usize) -> (r: u64)
    requires
        pos + 8 <= data@.len(),
    ensures
        r == le64_val(data@.subrange(pos as int, pos as int + 8)),
        le64(r) == data@.subrange(pos as int, pos as int + 8),
{
    let _bound = data.len();
    let b0 = data[pos];
    let b1 = data[pos + 1];
    let b2 = data[pos + 2];
    let b3 = data[pos + 3];
    let b4 = data[pos + 4];
    let b5 = data[pos + 5];
    let b6 = data[pos + 6];
    let b7 = data[pos + 7];
    let r: u64 = (b0 as u64) | ((b1 as u64) << 8) | ((b2 as u64) << 16) | ((b3 as u64) << 24) | ((
    b4 as u64) << 32) | ((b5 as u64) << 40) | ((b6 as u64) << 48) | ((b7 as u64) << 56);
    proof {
        reveal(le64);
        reveal(le64_val);
        let s = data@.subrange(pos as int, pos as int + 8);
        assert(s[0] == b0 && s[1] == b1 && s[2] == b2 && s[3] == b3 && s[4] == b4 && s[5] == b5
            && s[6] == b6 && s[7] == b7);
        lemma_le64_bytes_recovered(r, b0, b1, b2, b3, b4, b5, b6, b7);
        assert(le64(r) =~= s);
    }
    r
}

/// Assembling a value from eight bytes and taking its little-endian
/// bytes gives back those bytes.
proof fn lemma_le64_bytes_recovered(
    r: u64,
    b0: u8,
    b1: u8,
    b2: u8,
    b3: u8,
    b4: u8,
    b5: u8,
    b6: u8,
    b7: u8,
)
    requires
        r == (b0 as u64) | ((b1 as u64) << 8) | ((b2 as u64) << 16) | ((b3 as u64) << 24) | ((
        b4 as u64) << 32) | ((b5 as u64) << 40) | ((b6 as u64) << 48) | ((b7 as u64) << 56),
    ensures
        (r & 0xff) as u8 == b0,
        ((r >> 8) & 0xff) as u8 == b1,
        ((r >> 16) & 0xff) as u8 == b2,
        ((r >> 24) & 0xff) as u8 == b3,
        ((r >> 32) & 0xff) as u8 == b4,
        ((r >> 40) & 0xff) as u8 == b5,
        ((r >> 48) & 0xff) as u8 == b6,
        ((r >> 56) & 0xff) as u8 == b7,
{
    assert(r == (b0 as u64) | ((b1 as u64) << 8) | ((b2 as u64) << 16) | ((b3 as u64) << 24) | ((
    b4 as u64) << 32) | ((b5 as u64) << 40) | ((b6 as u64) << 48) | ((b7 as u64) << 56) ==> ((r
        & 0xff) as u8 == b0 && ((r >> 8) & 0xff) as u8 == b1 && ((r >> 16) & 0xff) as u8 == b2 && ((
    r >> 24) & 0xff) as u8 == b3 && ((r >> 32) & 0xff) as u8 == b4 && ((r >> 40) & 0xff) as u8 == b5
        && ((r >> 48) & 0xff) as u8 == b6 && ((r >> 56) & 0xff) as u8 == b7)) by (bit_vector);
}

/// Append a copy of the given bytes.
pub fn push_bytes(out: &mut Vec<u8>, chunk: &Vec<u8>)
    ensures
        final(out)@ == old(out)@ + chunk@,
{
    let n = chunk.len();
    let mut i: usize = 0;
    while i < n
        invariant
            i <= n,
            n == chunk@.len(),
            out@ == old(out)@ + chunk@.take(i as int),
        decreases n - i,
    {
        out.push(chunk[i]);
        proof {
            assert(old(out)@ + chunk@.take(i + 1) =~= (old(out)@ + chunk@.take(i as int)).push(
                chunk@[i as int],
            ));
        }
        i = i + 1;
    }
    proof {
        assert(chunk@.take(n as int) =~= chunk@);
    }
}

/// Copy of a byte string.
pub fn clone_bytes(v: &Vec<u8>) -> (r: Vec<u8>)
    ensures
        r@ == v@,
{
    let mut out: Vec<u8> = Vec::new();
    push_bytes(&mut out, v);
    out
}

/// Whether two byte strings hold the same bytes.
pub fn bytes_eq(a: &Vec<u8>, b: &Vec<u8>) -> (r: bool)
    ensures
        r == (a@ == b@),
{
    if a.len() != b.len() {
        proof {
            assert(a@.len() != b@.len());
        }
        return false;
    }
    let n = a.len();
    let mut i: usize = 0;
    while i < n
        invariant
            i <= n,
            n == a@.len(),
            n == b@.len(),
            forall|j: int| 0 <= j < i ==> a@[j] == b@[j],
        decreases n - i,
    {
        if a[i] != b[i] {
            proof {
                assert(a@[i as int] != b@[i as int]);
            }
            return false;
        }
        i = i + 1;
    }
    proof {
        assert(a@ =~= b@);
    }
    true
}

/// Copy a range of a byte string into a fresh vector.
pub fn copy_range(data: &Vec<u8>, start: usize, len: usize) -> (r: Vec<u8>)
    requires
        start + len <= data@.len(),
    ensures
        r@ == data@.subrange(start as int, start as int + len as int),
{
    let n = data.len();
    let mut out: Vec<u8> = Vec::new();
    let mut i: usize = 0;
    while i < len
        invariant
            i <= len,
            n == data@.len(),
            start + len <= n,
            out@ == data@.subrange(start as int, start as int + i as int),
        decreases len - i,
    {
        out.push(data[start + i]);
        proof {
            assert(data@.subrange(start as int, start as int + i + 1) =~= data@.subrange(
                start as int,
                start as int + i as int,
            ).push(data@[start as int + i as int]));
        }
        i = i + 1;
    }
    out
}

} // verus!
