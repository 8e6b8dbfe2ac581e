//! The canonical encoding of a field element: the 32 bytes of its
//! representative, most significant first.

use crate::algebra::{lemma_field_element_equal, Field, FieldElement};
use crate::uint::U256;
use vstd::prelude::*;

verus! {

/// The number of bytes of an encoded element.
pub const ENCODED_LEN: usize = 32;

/// The number that the bytes spell, most significant first.
pub open spec fn be_value(bytes: Seq<u8>) -> int
    decreases bytes.len(),
{
    if bytes.len() == 0 {
        0
    } else {
        256 * be_value(bytes.drop_last()) + bytes.last() as int
    }
}

/// One more byte multiplies the number by 256 and adds the byte.
pub proof fn lemma_be_value_step(bytes: Seq<u8>, k: int)
    requires
        0 <= k < bytes.len(),
    ensures
        be_value(bytes.take(k + 1)) == 256 * be_value(bytes.take(k)) + bytes[k] as int,
{
    assert(bytes.take(k + 1).drop_last() =~= bytes.take(k));
}

/// The eight bytes of a limb, most significant first, are appended to `out`.
fn push_limb(out: &mut Vec<u8>, limb: u64)
    ensures
        final(out)@.len() == old(out)@.len() + 8,
        final(out)@.take(old(out)@.len() as int) == old(out)@,
        be_value(final(out)@) == 0x1_0000_0000_0000_0000 * be_value(old(out)@) + limb,
{
    let ghost before = out@;
    assert(limb >> 56 <= 0xff) by (bit_vector);
    assert((limb >> 48) & 0xff <= 0xff) by (bit_vector);
    assert((limb >> 40) & 0xff <= 0xff) by (bit_vector);
    assert((limb >> 32) & 0xff <= 0xff) by (bit_vector);
    assert((limb >> 24) & 0xff <= 0xff) by (bit_vector);
    assert((limb >> 16) & 0xff <= 0xff) by (bit_vector);
    assert((limb >> 8) & 0xff <= 0xff) by (bit_vector);
    assert(limb & 0xff <= 0xff) by (bit_vector);
    assert(limb == (limb >> 56) * 0x100_0000_0000_0000 + ((limb >> 48) & 0xff) * 0x1_0000_0000_0000
        + ((limb >> 40) & 0xff) * 0x100_0000_0000 + ((limb >> 32) & 0xff) * 0x1_0000_0000 + ((limb
        >> 24) & 0xff) * 0x100_0000 + ((limb >> 16) & 0xff) * 0x1_0000 + ((limb >> 8) & 0xff)
        * 0x100 + (limb & 0xff)) by (bit_vector);
    let b0: u8 = (limb >> 56) as u8;
    let b1: u8 = ((limb >> 48) & 0xff) as u8;
    let b2: u8 = ((limb >> 40) & 0xff) as u8;
    let b3: u8 = ((limb >> 32) & 0xff) as u8;
    let b4: u8 = ((limb >> 24) & 0xff) as u8;
    let b5: u8 = ((limb >> 16) & 0xff) as u8;
    let b6: u8 = ((limb >> 8) & 0xff) as u8;
    let b7: u8 = (limb & 0xff) as u8;
    out.push(b0);
    let ghost s1 = out@;
    out.push(b1);
    let ghost s2 = out@;
    out.push(b2);
    let ghost s3 = out@;
    out.push(b3);
    let ghost s4 = out@;
    out.push(b4);
    let ghost s5 = out@;
    out.push(b5);
    let ghost s6 = out@;
    out.push(b6);
    let ghost s7 = out@;
    out.push(b7);
    proof {
        assert(s1.drop_last() =~= before);
        assert(s2.drop_last() =~= s1);
        assert(s3.drop_last() =~= s2);
        assert(s4.drop_last() =~= s3);
        assert(s5.drop_last() =~= s4);
        assert(s6.drop_last() =~= s5);
        assert(s7.drop_last() =~= s6);
        assert(out@.drop_last() =~= s7);
        assert(out@.take(before.len() as int) =~= before);
        assert(be_value(s1) == 256 * be_value(before) + b0);
        assert(be_value(s2) == 256 * be_value(s1) + b1);
        assert(be_value(s3) == 256 * be_value(s2) + b2);
        assert(be_value(s4) == 256 * be_value(s3) + b3);
        assert(be_value(s5) == 256 * be_value(s4) + b4);
        assert(be_value(s6) == 256 * be_value(s5) + b5);
        assert(be_value(s7) == 256 * be_value(s6) + b6);
        assert(be_value(out@) == 256 * be_value(s7) + b7);
    }
}

/// The limb that the eight bytes from `start` on spell, most significant
/// first.
fn read_limb(bytes: &[u8], start: usize) -> (limb: u64)
    requires
        start + 8 <= bytes@.len(),
    ensures
        be_value(bytes@.take(start + 8)) == 0x1_0000_0000_0000_0000 * be_value(
            bytes@.take(start as int),
        ) + limb,
{
    proof {
        lemma_be_value_step(bytes@, start as int);
        lemma_be_value_step(bytes@, start + 1);
        lemma_be_value_step(bytes@, start + 2);
        lemma_be_value_step(bytes@, start + 3);
        lemma_be_value_step(bytes@, start + 4);
        lemma_be_value_step(bytes@, start + 5);
        lemma_be_value_step(bytes@, start + 6);
        lemma_be_value_step(bytes@, start + 7);
    }
    let w0: u64 = bytes[start] as u64;
    let w1: u64 = w0 * 256 + bytes[start + 1] as u64;
    let w2: u64 = w1 * 256 + bytes[start + 2] as u64;
    let w3: u64 = w2 * 256 + bytes[start + 3] as u64;
    let w4: u64 = w3 * 256 + bytes[start + 4] as u64;
    let w5: u64 = w4 * 256 + bytes[start + 5] as u64;
    let w6: u64 = w5 * 256 + bytes[start + 6] as u64;
    let w7: u64 = w6 * 256 + bytes[start + 7] as u64;
    w7
}

impl U256 {
    /// The 32 bytes of the number, most significant first.
    pub fn to_be_bytes(&self) -> (r: Vec<u8>)
        ensures
            r@.len() == ENCODED_LEN,
            be_value(r@) == self@,
    {
        let mut out: Vec<u8> = Vec::new();
        push_limb(&mut out, self.limbs[3]);
        push_limb(&mut out, self.limbs[2]);
        push_limb(&mut out, self.limbs[1]);
        push_limb(&mut out, self.limbs[0]);
        out
    }

    /// The number that 32 bytes spell, most significant first; none for
    /// another count of bytes.
    pub fn from_be_bytes(bytes: &[u8]) -> (r: Option<U256>)
        ensures
            r is Some <==> bytes@.len() == ENCODED_LEN,
            r is Some ==> r->Some_0@ == be_value(bytes@),
    {
        if bytes.len() != ENCODED_LEN {
            return None;
        }
        let l3 = read_limb(bytes, 0);
        let l2 = read_limb(bytes, 8);
        let l1 = read_limb(bytes, 16);
        let l0 = read_limb(bytes, 24);
        proof {
            assert(bytes@.take(0) =~= Seq::<u8>::empty());
            assert(bytes@.take(32) =~= bytes@);
        }
        Some(U256 { limbs: [l0, l1, l2, l3] })
    }
}

impl FieldElement {
    /// The canonical encoding: the 32 bytes of the representative, most
    /// significant first.
    pub fn bytes(&self) -> (r: Vec<u8>)
        ensures
            r@.len() == ENCODED_LEN,
            be_value(r@) == self@,
    {
        self.value.to_be_bytes()
    }

    /// The element of `field` that an encoding stands for: none unless the
    /// bytes are 32 and spell a canonical representative. It gives back the
    /// element that `bytes` encoded.
    pub fn from_bytes(bytes: &[u8], field: Field) -> (r: Option<FieldElement>)
        requires
            field.wf(),
        ensures
            r is Some <==> bytes@.len() == ENCODED_LEN && be_value(bytes@) < field.modulus(),
            r is Some ==> r->Some_0@ == be_value(bytes@) && r->Some_0.in_field(field),
            forall|e: FieldElement|
                e.in_field(field) && bytes@.len() == ENCODED_LEN && be_value(bytes@) == e@ ==> r
                    == Some(e),
    {
        match U256::from_be_bytes(bytes) {
            Some(value) => {
                if value.lt(&field.p) {
                    let r = FieldElement { value, field };
                    proof {
                        assert forall|e: FieldElement|
                            e.in_field(field) && be_value(bytes@) == e@ implies r == e by {
                            lemma_field_element_equal(r, e);
                        }
                    }
                    Some(r)
                } else {
                    None
                }
            },
            None => None,
        }
    }
}

} // verus!
