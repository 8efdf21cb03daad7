//! Typed generational handles.
//!
//! A `handle_t<T>` is a compact, copyable reference into an arena of `T`
//! slots.  Three fields are packed into one 16-bit integer: the generation
//! tag in the top 3 bits, the node index in the next 8 bits and the in-node
//! instance index in the low 5 bits.  The 5-bit instance field fixes the
//! arena node size at 32 slots; both arenas of this crate use that size so
//! that one encoding covers them.
//!
//! The all-zero value is the reserved null handle.  The arenas keep every
//! slot's generation in `1..=7`, so a handle to a live slot is never the
//! null encoding.

use vstd::prelude::*;

verus! {

/// Packs a generation (3 bits), node index (8 bits) and instance index
/// (5 bits) into the raw 16-bit handle value.
pub open spec fn pack_bits(gen: u8, node: u8, inst: u8) -> u16 {
    (((gen as u16) << 13) | ((node as u16) << 5)) | (inst as u16)
}

/// The generation field of a raw handle value.
pub open spec fn gen_bits(raw: u16) -> u8 {
    (raw >> 13) as u8
}

/// The node-index field of a raw handle value.
pub open spec fn node_bits(raw: u16) -> u8 {
    ((raw >> 5) & 0xff) as u8
}

/// The instance-index field of a raw handle value.
pub open spec fn inst_bits(raw: u16) -> u8 {
    (raw & 0x1f) as u8
}

/// Packing three in-range fields and reading them back yields the fields;
/// the packed value is zero exactly when all three fields are zero.
pub proof fn lemma_pack_unpack(gen: u8, node: u8, inst: u8)
    requires
        gen < 8,
        inst < 32,
    ensures
        gen_bits(pack_bits(gen, node, inst)) == gen,
        node_bits(pack_bits(gen, node, inst)) == node,
        inst_bits(pack_bits(gen, node, inst)) == inst,
        pack_bits(gen, node, inst) == 0 <==> gen == 0 && node == 0 && inst == 0,
{
    assert(gen < 8 && inst < 32 ==> ((((gen as u16) << 13) | ((node as u16) << 5)) | (inst
        as u16)) >> 13 == gen as u16) by (bit_vector);
    assert(gen < 8 && inst < 32 ==> (((((gen as u16) << 13) | ((node as u16) << 5)) | (inst
        as u16)) >> 5) & 0xff == node as u16) by (bit_vector);
    assert(gen < 8 && inst < 32 ==> ((((gen as u16) << 13) | ((node as u16) << 5)) | (inst
        as u16)) & 0x1f == inst as u16) by (bit_vector);
    assert(gen < 8 && inst < 32 ==> (((((gen as u16) << 13) | ((node as u16) << 5)) | (inst
        as u16)) == 0 <==> gen == 0 && node == 0 && inst == 0)) by (bit_vector);
}

/// The three fields together determine the raw value: two raw values that
/// agree on generation, node index and instance index are equal.
pub proof fn lemma_raw_fields_determine(r1: u16, r2: u16)
    requires
        gen_bits(r1) == gen_bits(r2),
        node_bits(r1) == node_bits(r2),
        inst_bits(r1) == inst_bits(r2),
    ensures
        r1 == r2,
{
    assert(((r1 >> 13) as u8 == (r2 >> 13) as u8 && ((r1 >> 5) & 0xff) as u8 == ((r2 >> 5)
        & 0xff) as u8 && (r1 & 0x1f) as u8 == (r2 & 0x1f) as u8) ==> r1 == r2) by (bit_vector);
}

/// The three unpacked fields are always in range.
pub proof fn lemma_field_ranges(raw: u16)
    ensures
        gen_bits(raw) < 8,
        inst_bits(raw) < 32,
{
    assert(raw >> 13 < 8) by (bit_vector);
    assert(raw & 0x1f < 32) by (bit_vector);
}

/// A typed slot reference: generation, node index and instance index packed
/// into a 16-bit integer.  The phantom parameter keeps handles of different
/// value types apart at compile time; equality, ordering and hashing go by
/// the raw integer alone.
#[derive(Debug, Hash)]
#[allow(non_camel_case_types)]
pub struct handle_t<T> {
    value: i16,
    _marker: core::marker::PhantomData<T>,
}

impl<T> Copy for handle_t<T> {

}

impl<T> Clone for handle_t<T> {
    fn clone(&self) -> (r: Self)
        ensures
            r == *self,
    {
        *self
    }
}

impl<T> PartialEq for handle_t<T> {
    fn eq(&self, other: &Self) -> (r: bool) {
        let ghost a = self.value;
        let ghost b = other.value;
        proof {
            assert((a == b) <==> (a as u16 == b as u16)) by (bit_vector);
        }
        self.value == other.value
    }
}

impl<T> Eq for handle_t<T> {

}

impl<T> vstd::std_specs::cmp::PartialEqSpecImpl for handle_t<T> {
    open spec fn obeys_eq_spec() -> bool {
        true
    }

    open spec fn eq_spec(&self, other: &Self) -> bool {
        self.raw() == other.raw()
    }
}

impl<T> handle_t<T> {
    /// The raw packed value, as its bit pattern.
    pub closed spec fn raw(self) -> u16 {
        self.value as u16
    }

    /// The generation field.
    pub open spec fn spec_gen(self) -> u8 {
        gen_bits(self.raw())
    }

    /// The node-index field.
    pub open spec fn spec_node(self) -> u8 {
        node_bits(self.raw())
    }

    /// The instance-index field.
    pub open spec fn spec_inst(self) -> u8 {
        inst_bits(self.raw())
    }

    /// True of the reserved null handle.
    pub open spec fn spec_is_null(self) -> bool {
        self.raw() == 0
    }

    /// Wraps a raw 16-bit value.
    pub fn new(value: i16) -> (r: Self)
        ensures
            r.raw() == value as u16,
    {
        Self { value, _marker: core::marker::PhantomData }
    }

    /// Packs the three fields.  The generation must fit its 3 bits and the
    /// instance index its 5 bits, else the fields would overlap.
    pub fn from(gen: u8, g_index: u8, i_index: u8) -> (r: Self)
        requires
            gen < 8,
            i_index < 32,
        ensures
            r.raw() == pack_bits(gen, g_index, i_index),
            r.spec_gen() == gen,
            r.spec_node() == g_index,
            r.spec_inst() == i_index,
            r.spec_is_null() <==> gen == 0 && g_index == 0 && i_index == 0,
    {
        proof {
            lemma_pack_unpack(gen, g_index, i_index);
        }
        let raw: u16 = (((gen as u16) << 13) | ((g_index as u16) << 5)) | (i_index as u16);
        proof {
            assert(raw as i16 as u16 == raw) by (bit_vector);
        }
        Self { value: #[verifier::truncate] (raw as i16), _marker: core::marker::PhantomData }
    }

    /// The reserved null handle: all fields zero.
    pub fn null() -> (r: Self)
        ensures
            r.spec_is_null(),
            r.raw() == 0,
    {
        Self::new(0)
    }

    /// Whether this is the null handle.
    pub fn IsNull(&self) -> (r: bool)
        ensures
            r == self.spec_is_null(),
    {
        let ghost v = self.value;
        proof {
            assert((v as u16 == 0) <==> (v == 0)) by (bit_vector);
        }
        self.value == 0
    }

    /// The generation of the handle: the top 3 bits.
    pub fn Generation(&self) -> (r: u8)
        ensures
            r == self.spec_gen(),
            r < 8,
    {
        proof {
            lemma_field_ranges(self.raw());
        }
        ((self.value as u16) >> 13) as u8
    }

    /// The index of the node: the next 8 bits.
    pub fn Node(&self) -> (r: u8)
        ensures
            r == self.spec_node(),
    {
        (((self.value as u16) >> 5) & 0xff) as u8
    }

    /// The instance index within the node: the low 5 bits.
    pub fn Instance(&self) -> (r: u8)
        ensures
            r == self.spec_inst(),
            r < 32,
    {
        proof {
            lemma_field_ranges(self.raw());
        }
        ((self.value as u16) & 0x1f) as u8
    }

    /// The raw packed integer, for use as an equality or hash key.
    pub fn Value(&self) -> (r: i16)
        ensures
            r as u16 == self.raw(),
    {
        self.value
    }
}

} // verus!
