//! Fixed-width little-endian encoding of numbers.

use vstd::prelude::*;

verus! {

/// Byte `j` of `x`, counted from the least significant one.
pub open spec fn le_byte(x: u64, j: int) -> u8 {
    ((x >> ((8 * j) as u64)) & 0xff) as u8
}

/// The `width` least significant bytes of `x`, the least significant first.
pub open spec fn le_bytes(x: u64, width: nat) -> Seq<u8> {
    Seq::new(width, |j: int| le_byte(x, j))
}

/// Each identifier of `tokens` as 8 bytes, little-endian, one behind the
/// other.
pub open spec fn phrase_bytes(tokens: Seq<u64>) -> Seq<u8> {
    Seq::new(8 * tokens.len(), |i: int| le_byte(tokens[i / 8], i % 8))
}

/// Adds the 8 bytes of `x` to `out`, the least significant first.
pub fn push_le_u64(out: &mut Vec<u8>, x: u64)
    ensures
        final(out)@ == old(out)@ + le_bytes(x, 8),
{
    let mut j: u64 = 0;
    while j < 8
        invariant
            j <= 8,
            out@ == old(out)@ + le_bytes(x, j as nat),
        decreases 8 - j,
    {
        let shift: u64 = 8 * j;
        let byte: u64 = (x >> shift) & 0xff;
        assert(byte <= 0xff) by (bit_vector)
            requires
                byte == (x >> shift) & 0xff,
        ;
        out.push(byte as u8);
        assert(out@ =~= old(out)@ + le_bytes(x, (j + 1) as nat));
        j = j + 1;
    }
}

/// Encodes a sequence of identifiers: 8 bytes each, little-endian, in the
/// order of the sequence.
pub fn encode_phrase(tokens: &[u64]) -> (bytes: Vec<u8>)
    ensures
        bytes@ == phrase_bytes(tokens@),
{
    let mut bytes: Vec<u8> = Vec::new();
    let mut i: usize = 0;
    assert(bytes@ =~= phrase_bytes(tokens@.take(0)));
    while i < tokens.len()
        invariant
            i <= tokens.len(),
            bytes@ == phrase_bytes(tokens@.take(i as int)),
        decreases tokens.len() - i,
    {
        let ghost before = bytes@;
        push_le_u64(&mut bytes, tokens[i]);
        proof {
            let after = phrase_bytes(tokens@.take(i + 1));
            assert(bytes@.len() == after.len());
            assert forall|k: int| 0 <= k < after.len() implies bytes@[k] == after[k] by {
                if k < 8 * i {
                    assert(bytes@[k] == before[k]);
                    assert(tokens@.take(i as int)[k / 8] == tokens@.take(i + 1)[k / 8]);
                } else {
                    assert(k / 8 == i);
                    assert(bytes@[k] == le_bytes(tokens@[i as int], 8)[k - 8 * i]);
                }
            }
            assert(bytes@ =~= after);
        }
        i = i + 1;
    }
    assert(tokens@.take(i as int) =~= tokens@);
    bytes
}

} // verus!
