//! Integers packed into a single 32-bit word.
use crate::serializer::Serializable;
use vstd::prelude::*;

verus! {

/// An unsigned integer of 24 bits.
#[derive(Clone, Copy, Default, Eq, PartialEq, Debug, Hash)]
pub struct U24(u32);

impl U24 {
    /// The largest value a `U24` can hold.
    pub const MAX: u32 = 0x00ff_ffff;

    /// The number held.
    pub closed spec fn view(self) -> u32 {
        self.0
    }

    /// A `U24` never holds more than 24 bits.
    #[verifier::type_invariant]
    pub closed spec fn wf(self) -> bool {
        self.0 <= 0x00ff_ffff
    }

    /// The `U24` that holds `value`.
    pub closed spec fn spec_new(value: u32) -> Self {
        U24(value)
    }

    /// `spec_new` holds the number it is given, and is well formed when that number fits.
    pub broadcast proof fn lemma_spec_new(value: u32)
        ensures
            (#[trigger] Self::spec_new(value))@ == value,
            value <= 0x00ff_ffff ==> Self::spec_new(value).wf(),
    {
    }

    /// Returns the number held.
    #[inline(always)]
    pub fn get(self) -> (value: u32)
        ensures
            value == self@,
    {
        self.0
    }
}

impl TryFrom<u32> for U24 {
    type Error = &'static str;

    /// Accepts exactly the numbers that fit in 24 bits.
    #[inline(always)]
    fn try_from(value: u32) -> (r: Result<Self, Self::Error>)
        ensures
            value <= 0x00ff_ffff ==> r is Ok && r->Ok_0@ == value && r->Ok_0.wf(),
            value > 0x00ff_ffff ==> r is Err,
    {
        if value <= Self::MAX {
            Ok(Self(value))
        } else {
            Err("value must be smaller than 2^24")
        }
    }
}

impl vstd::std_specs::convert::TryFromSpecImpl<u32> for U24 {
    open spec fn obeys_try_from_spec() -> bool {
        true
    }

    open spec fn try_from_spec(value: u32) -> Result<Self, Self::Error> {
        if value <= 0x00ff_ffff {
            Ok(U24::spec_new(value))
        } else {
            Err("value must be smaller than 2^24")
        }
    }
}

/// A 24-bit field `a` and an 8-bit field `b` sharing one 32-bit word:
/// `a` occupies the upper 24 bits, `b` the lowest 8.
#[derive(Clone, Copy, Default, Eq, PartialEq, Debug, Hash)]
pub struct U24nU8(u32);

impl U24nU8 {
    /// The packed word.
    pub closed spec fn word(self) -> u32 {
        self.0
    }

    /// The 24-bit field.
    pub open spec fn spec_a(self) -> u32 {
        self.word() >> 8
    }

    /// The 8-bit field.
    pub open spec fn spec_b(self) -> u8 {
        (self.word() & 0xff) as u8
    }

    /// The word that holds `a` in its upper 24 bits and `b` in its lowest 8.
    pub open spec fn pack(a: u32, b: u8) -> u32 {
        (a << 8) | (b as u32)
    }

    /// Packing two fields and reading them back gives the fields.
    pub proof fn lemma_pack_fields(a: u32, b: u8)
        requires
            a <= 0x00ff_ffff,
        ensures
            Self::pack(a, b) >> 8 == a,
            (Self::pack(a, b) & 0xff) as u8 == b,
    {
        assert((((a << 8) | (b as u32)) >> 8) == a) by (bit_vector)
            requires
                a <= 0x00ff_ffff,
        ;
        assert((((a << 8) | (b as u32)) & 0xff) as u8 == b) by (bit_vector);
    }

    /// A word is the packing of its own two fields.
    pub proof fn lemma_word_is_pack(self)
        ensures
            self.word() == Self::pack(self.spec_a(), self.spec_b()),
            self.spec_a() <= 0x00ff_ffff,
    {
        let w = self.word();
        assert(w == (((w >> 8) << 8) | (((w & 0xff) as u8) as u32))) by (bit_vector);
        assert((w >> 8) <= 0x00ff_ffff) by (bit_vector);
    }

    /// Returns the 24-bit field.
    #[inline(always)]
    pub fn a(self) -> (r: U24)
        ensures
            r@ == self.spec_a(),
            r.wf(),
    {
        let w = self.0;
        assert((w >> 8) <= 0x00ff_ffff) by (bit_vector);
        U24(self.0 >> 8)
    }

    /// Returns the 8-bit field.
    #[inline(always)]
    pub fn b(self) -> (r: u8)
        ensures
            r == self.spec_b(),
    {
        let w = self.0;
        assert((w & 0xff) <= 0xff) by (bit_vector);
        (self.0 & 0xff) as u8
    }

    /// Replaces the 24-bit field and keeps the 8-bit field.
    #[inline(always)]
    pub fn set_a(&mut self, a: U24)
        ensures
            final(self).spec_a() == a@,
            final(self).spec_b() == old(self).spec_b(),
            final(self).word() == Self::pack(a@, old(self).spec_b()),
    {
        let b = self.b();
        proof {
            use_type_invariant(a);
            Self::lemma_pack_fields(a.0, b);
        }
        self.0 = (a.get() << 8) | (b as u32);
    }

    /// Replaces the 8-bit field and keeps the 24-bit field.
    #[inline(always)]
    pub fn set_b(&mut self, b: u8)
        ensures
            final(self).spec_b() == b,
            final(self).spec_a() == old(self).spec_a(),
            final(self).word() == Self::pack(old(self).spec_a(), b),
    {
        let a = self.a();
        proof {
            use_type_invariant(a);
            Self::lemma_pack_fields(a.0, b);
        }
        self.0 = (a.get() << 8) | (b as u32);
    }
}

impl U24nU8 {
    /// The packed fields that a word holds.
    pub closed spec fn of_word(w: u32) -> Self {
        U24nU8(w)
    }

    /// A word is held as it is.
    pub proof fn lemma_of_word(w: u32)
        ensures
            Self::of_word(w).word() == w,
    {
    }
}

impl Serializable for U24nU8 {
    open spec fn ser(&self) -> Seq<u8> {
        self.word().ser()
    }

    open spec fn width() -> nat {
        4
    }

    open spec fn de(bytes: Seq<u8>) -> Self {
        U24nU8::of_word(u32::de(bytes))
    }

    proof fn lemma_round_trip(&self) {
        self.word().lemma_round_trip();
    }

    #[inline(always)]
    fn serialize_to_vec(&self, dst: &mut Vec<u8>) {
        self.0.serialize_to_vec(dst);
    }

    #[inline(always)]
    fn deserialize_from_slice(src: &[u8]) -> (r: (Self, &[u8])) {
        let (x, rest) = u32::deserialize_from_slice(src);
        (Self(x), rest)
    }

    #[inline(always)]
    fn serialized_bytes() -> (r: usize) {
        u32::serialized_bytes()
    }
}

} // verus!
