//! The binary form of the parts of an automaton.
//!
//! Every value has a form of fixed width, and the forms of the parts are put one
//! behind the other. Numbers are written in the byte order of the machine.
use crate::charwise::State;
use crate::{Empty, MatchKind, Output};
use vstd::endian::{endianness, Endian};
use vstd::prelude::*;

verus! {

/// The four bytes of a number, the lowest first.
pub open spec fn le_bytes(x: u32) -> Seq<u8> {
    vstd::bytes::spec_u32_to_le_bytes(x)
}

/// The four bytes of a number in the byte order of the machine.
pub open spec fn ne_bytes(x: u32) -> Seq<u8> {
    if endianness() is Little {
        le_bytes(x)
    } else {
        le_bytes(x).reverse()
    }
}

/// The number that four bytes stand for in the byte order of the machine.
pub open spec fn from_ne_bytes(b: Seq<u8>) -> u32 {
    if endianness() is Little {
        vstd::bytes::spec_u32_from_le_bytes(b)
    } else {
        vstd::bytes::spec_u32_from_le_bytes(b.reverse())
    }
}

/// A number is read back from its four bytes.
pub proof fn lemma_ne_bytes(x: u32)
    ensures
        ne_bytes(x).len() == 4,
        from_ne_bytes(ne_bytes(x)) == x,
{
    vstd::bytes::lemma_auto_spec_u32_to_from_le_bytes();
    assert(le_bytes(x).len() == 4);
    assert(le_bytes(x).reverse().reverse() =~= le_bytes(x));
}

/// Writes a number in the byte order of the machine, with `u32::to_ne_bytes`
/// of the standard library.
///
/// Trusted: the call returns the memory representation of the number as four
/// bytes in native byte order, which is the order that `endianness()` names.
#[verifier::external_body]
fn u32_to_ne_bytes(x: u32) -> (r: [u8; 4])
    ensures
        r@ == ne_bytes(x),
{
    x.to_ne_bytes()
}

/// Reads a number in the byte order of the machine, with `u32::from_ne_bytes`
/// of the standard library.
///
/// Trusted: the call creates the number from its memory representation as four
/// bytes in native byte order, which is the order that `endianness()` names.
#[verifier::external_body]
fn u32_from_ne_bytes(b: [u8; 4]) -> (r: u32)
    ensures
        r == from_ne_bytes(b@),
{
    u32::from_ne_bytes(b)
}

/// A value with a binary form of fixed width.
pub trait Serializable: Sized {
    /// The binary form of the value.
    spec fn ser(&self) -> Seq<u8>;

    /// The number of bytes of the binary form of every value of the type.
    spec fn width() -> nat;

    /// The value that a binary form stands for.
    spec fn de(bytes: Seq<u8>) -> Self;

    /// The binary form of a value has the width of the type, and the value is read
    /// back from it.
    proof fn lemma_round_trip(&self)
        ensures
            self.ser().len() == Self::width(),
            Self::de(self.ser()) == *self,
    ;

    /// Appends the binary form of the value to `dst`.
    fn serialize_to_vec(&self, dst: &mut Vec<u8>)
        ensures
            final(dst)@ == old(dst)@ + self.ser(),
    ;

    /// Reads a value from the front of `src`. Returns the value and the rest of `src`.
    fn deserialize_from_slice(src: &[u8]) -> (r: (Self, &[u8]))
        requires
            src@.len() >= Self::width(),
        ensures
            r.0 == Self::de(src@.take(Self::width() as int)),
            r.1@ == src@.skip(Self::width() as int),
    ;

    /// Returns the number of bytes of the binary form, if a `usize` can hold it.
    fn serialized_bytes() -> (r: usize)
        ensures
            Self::width() <= usize::MAX ==> r == Self::width(),
    ;
}

impl Serializable for u8 {
    open spec fn ser(&self) -> Seq<u8> {
        seq![*self]
    }

    open spec fn width() -> nat {
        1
    }

    open spec fn de(bytes: Seq<u8>) -> Self {
        bytes[0]
    }

    proof fn lemma_round_trip(&self) {
    }

    #[inline(always)]
    fn serialize_to_vec(&self, dst: &mut Vec<u8>) {
        dst.push(*self);
        proof {
            assert(dst@ =~= old(dst)@ + self.ser());
        }
    }

    #[inline(always)]
    fn deserialize_from_slice(src: &[u8]) -> (r: (Self, &[u8])) {
        let x = src[0];
        let rest = vstd::slice::slice_subrange(src, 1, src.len());
        (x, rest)
    }

    #[inline(always)]
    fn serialized_bytes() -> (r: usize) {
        1
    }
}

impl Serializable for u32 {
    open spec fn ser(&self) -> Seq<u8> {
        ne_bytes(*self)
    }

    open spec fn width() -> nat {
        4
    }

    open spec fn de(bytes: Seq<u8>) -> Self {
        from_ne_bytes(bytes)
    }

    proof fn lemma_round_trip(&self) {
        lemma_ne_bytes(*self);
    }

    #[inline(always)]
    fn serialize_to_vec(&self, dst: &mut Vec<u8>) {
        let b = u32_to_ne_bytes(*self);
        proof {
            lemma_ne_bytes(*self);
        }
        dst.push(b[0]);
        dst.push(b[1]);
        dst.push(b[2]);
        dst.push(b[3]);
        proof {
            assert(dst@ =~= old(dst)@ + self.ser());
        }
    }

    #[inline(always)]
    fn deserialize_from_slice(src: &[u8]) -> (r: (Self, &[u8])) {
        let b: [u8; 4] = [src[0], src[1], src[2], src[3]];
        proof {
            assert(b@ =~= src@.take(4));
        }
        let x = u32_from_ne_bytes(b);
        let rest = vstd::slice::slice_subrange(src, 4, src.len());
        (x, rest)
    }

    #[inline(always)]
    fn serialized_bytes() -> (r: usize) {
        4
    }
}

impl Serializable for Empty {
    open spec fn ser(&self) -> Seq<u8> {
        seq![]
    }

    open spec fn width() -> nat {
        0
    }

    open spec fn de(bytes: Seq<u8>) -> Self {
        Empty
    }

    proof fn lemma_round_trip(&self) {
    }

    #[inline(always)]
    fn serialize_to_vec(&self, dst: &mut Vec<u8>) {
        proof {
            assert(dst@ =~= old(dst)@ + self.ser());
        }
    }

    #[inline(always)]
    fn deserialize_from_slice(src: &[u8]) -> (r: (Self, &[u8])) {
        proof {
            assert(src@.skip(0) =~= src@);
        }
        (Empty, src)
    }

    #[inline(always)]
    fn serialized_bytes() -> (r: usize) {
        0
    }
}

impl Serializable for MatchKind {
    open spec fn ser(&self) -> Seq<u8> {
        seq![self.tag()]
    }

    open spec fn width() -> nat {
        1
    }

    open spec fn de(bytes: Seq<u8>) -> Self {
        MatchKind::of_tag(bytes[0])
    }

    proof fn lemma_round_trip(&self) {
    }

    #[inline(always)]
    fn serialize_to_vec(&self, dst: &mut Vec<u8>) {
        dst.push(self.to_tag());
        proof {
            assert(dst@ =~= old(dst)@ + self.ser());
        }
    }

    #[inline(always)]
    fn deserialize_from_slice(src: &[u8]) -> (r: (Self, &[u8])) {
        let x = MatchKind::from_tag(src[0]);
        let rest = vstd::slice::slice_subrange(src, 1, src.len());
        (x, rest)
    }

    #[inline(always)]
    fn serialized_bytes() -> (r: usize) {
        1
    }
}

impl Serializable for State {
    open spec fn ser(&self) -> Seq<u8> {
        self.base.ser() + self.check.ser() + self.fail.ser() + self.output_pos.ser()
    }

    open spec fn width() -> nat {
        16
    }

    open spec fn de(bytes: Seq<u8>) -> Self {
        State {
            base: u32::de(bytes.subrange(0, 4)),
            check: u32::de(bytes.subrange(4, 8)),
            fail: u32::de(bytes.subrange(8, 12)),
            output_pos: u32::de(bytes.subrange(12, 16)),
        }
    }

    proof fn lemma_round_trip(&self) {
        self.base.lemma_round_trip();
        self.check.lemma_round_trip();
        self.fail.lemma_round_trip();
        self.output_pos.lemma_round_trip();
        let b = self.ser();
        assert(b.subrange(0, 4) =~= self.base.ser());
        assert(b.subrange(4, 8) =~= self.check.ser());
        assert(b.subrange(8, 12) =~= self.fail.ser());
        assert(b.subrange(12, 16) =~= self.output_pos.ser());
    }

    #[inline(always)]
    fn serialize_to_vec(&self, dst: &mut Vec<u8>) {
        self.base.serialize_to_vec(dst);
        self.check.serialize_to_vec(dst);
        self.fail.serialize_to_vec(dst);
        self.output_pos.serialize_to_vec(dst);
        proof {
            assert(dst@ =~= old(dst)@ + self.ser());
        }
    }

    #[inline(always)]
    fn deserialize_from_slice(src: &[u8]) -> (r: (Self, &[u8])) {
        let ghost b = src@.take(16);
        let (base, src1) = u32::deserialize_from_slice(src);
        let (check, src2) = u32::deserialize_from_slice(src1);
        let (fail, src3) = u32::deserialize_from_slice(src2);
        let (output_pos, src4) = u32::deserialize_from_slice(src3);
        proof {
            assert(src@.take(4) =~= b.subrange(0, 4));
            assert(src1@.take(4) =~= b.subrange(4, 8));
            assert(src2@.take(4) =~= b.subrange(8, 12));
            assert(src3@.take(4) =~= b.subrange(12, 16));
            assert(src4@ =~= src@.skip(16));
        }
        (Self { base, check, fail, output_pos }, src4)
    }

    #[inline(always)]
    fn serialized_bytes() -> (r: usize) {
        16
    }
}

impl<V: Serializable> Serializable for Output<V> {
    open spec fn ser(&self) -> Seq<u8> {
        self.value.ser() + self.length.ser() + self.parent.ser()
    }

    open spec fn width() -> nat {
        V::width() + 8
    }

    open spec fn de(bytes: Seq<u8>) -> Self {
        let w = V::width() as int;
        Output {
            value: V::de(bytes.subrange(0, w)),
            length: u32::de(bytes.subrange(w, w + 4)),
            parent: u32::de(bytes.subrange(w + 4, w + 8)),
        }
    }

    proof fn lemma_round_trip(&self) {
        self.value.lemma_round_trip();
        self.length.lemma_round_trip();
        self.parent.lemma_round_trip();
        let b = self.ser();
        let w = V::width() as int;
        assert(b.subrange(0, w) =~= self.value.ser());
        assert(b.subrange(w, w + 4) =~= self.length.ser());
        assert(b.subrange(w + 4, w + 8) =~= self.parent.ser());
    }

    #[inline(always)]
    fn serialize_to_vec(&self, dst: &mut Vec<u8>) {
        self.value.serialize_to_vec(dst);
        self.length.serialize_to_vec(dst);
        self.parent.serialize_to_vec(dst);
        proof {
            assert(dst@ =~= old(dst)@ + self.ser());
        }
    }

    #[inline(always)]
    fn deserialize_from_slice(src: &[u8]) -> (r: (Self, &[u8])) {
        let ghost w = V::width() as int;
        let ghost b = src@.take(w + 8);
        let (value, src1) = V::deserialize_from_slice(src);
        let (length, src2) = u32::deserialize_from_slice(src1);
        let (parent, src3) = u32::deserialize_from_slice(src2);
        proof {
            assert(src@.take(w) =~= b.subrange(0, w));
            assert(src1@.take(4) =~= b.subrange(w, w + 4));
            assert(src2@.take(4) =~= b.subrange(w + 4, w + 8));
            assert(src3@ =~= src@.skip(w + 8));
        }
        (Self { value, length, parent }, src3)
    }

    #[inline(always)]
    fn serialized_bytes() -> (r: usize) {
        V::serialized_bytes().saturating_add(8)
    }
}

/// The binary forms of the items of a sequence, one behind the other.
pub open spec fn ser_items<T: Serializable>(s: Seq<T>) -> Seq<u8>
    decreases s.len(),
{
    if s.len() == 0 {
        seq![]
    } else {
        ser_items(s.drop_last()) + s.last().ser()
    }
}

/// The binary form of a sequence: the number of its items, and then the items.
pub open spec fn ser_seq<T: Serializable>(s: Seq<T>) -> Seq<u8> {
    (s.len() as u32).ser() + ser_items(s)
}

/// The `n` items whose binary forms stand one behind the other at the front of `bytes`.
pub open spec fn de_items<T: Serializable>(bytes: Seq<u8>, n: nat) -> Seq<T> {
    Seq::new(n, |i: int| T::de(bytes.subrange(i * T::width(), (i + 1) * T::width())))
}

/// The sequence whose binary form stands at the front of `bytes`.
pub open spec fn de_seq<T: Serializable>(bytes: Seq<u8>) -> Seq<T> {
    de_items(bytes.skip(4), u32::de(bytes.take(4)) as nat)
}

/// The number of bytes of the binary form of a sequence of `n` items.
pub open spec fn seq_width<T: Serializable>(n: nat) -> nat {
    4 + n * T::width()
}

/// The binary forms of the items of a sequence take the width of an item each,
/// and each item stands at its place.
pub proof fn lemma_ser_items<T: Serializable>(s: Seq<T>, i: int)
    ensures
        ser_items(s).len() == s.len() * T::width(),
        0 <= i < s.len() ==> 0 <= i * T::width() <= (i + 1) * T::width() <= ser_items(s).len()
            && ser_items(s).subrange(i * T::width(), (i + 1) * T::width()) == s[i].ser(),
    decreases s.len(),
{
    let w = T::width();
    if s.len() > 0 {
        let init = s.drop_last();
        let n = init.len();
        lemma_ser_items(init, i);
        s.last().lemma_round_trip();
        assert(n * w + w == (n + 1) * w) by (nonlinear_arith);
        if 0 <= i < s.len() {
            assert(i * w + w == (i + 1) * w) by (nonlinear_arith);
            assert(0 <= i * w) by (nonlinear_arith)
                requires
                    0 <= i,
                    0 <= w,
            ;
            assert((i + 1) * w <= (n + 1) * w) by (nonlinear_arith)
                requires
                    i + 1 <= n + 1,
                    0 <= w,
            ;
            if i < n {
                assert((i + 1) * w <= n * w) by (nonlinear_arith)
                    requires
                        i + 1 <= n,
                        0 <= w,
                ;
                assert(ser_items(s).subrange(i * w, (i + 1) * w) =~= ser_items(init).subrange(
                    i * w,
                    (i + 1) * w,
                ));
            } else {
                assert(ser_items(s).subrange(i * w, (i + 1) * w) =~= s.last().ser());
            }
        }
    } else {
        assert(0 * w == 0) by (nonlinear_arith);
    }
}

/// A sequence is read back from its binary form, whatever stands behind the form.
pub proof fn lemma_seq_round_trip<T: Serializable>(s: Seq<T>, rest: Seq<u8>)
    requires
        s.len() <= u32::MAX,
    ensures
        ser_seq(s).len() == seq_width::<T>(s.len()),
        de_seq::<T>(ser_seq(s) + rest) == s,
        (ser_seq(s) + rest).skip(seq_width::<T>(s.len()) as int) == rest,
{
    let w = T::width();
    let n = s.len();
    let bytes = ser_seq(s) + rest;
    (n as u32).lemma_round_trip();
    lemma_ser_items(s, 0);
    assert(bytes.take(4) =~= (n as u32).ser());
    let body = bytes.skip(4);
    assert(body =~= ser_items(s) + rest);
    assert(de_items::<T>(body, n) =~= s) by {
        assert forall|i: int| 0 <= i < n implies de_items::<T>(body, n)[i] == s[i] by {
            lemma_ser_items(s, i);
            s[i].lemma_round_trip();
            assert(body.subrange(i * w, (i + 1) * w) =~= ser_items(s).subrange(i * w, (i + 1) * w));
        }
    }
    assert(bytes.skip(seq_width::<T>(n) as int) =~= rest);
}

/// Appends the binary form of `v` to `dst`.
pub fn serialize_vec<T: Serializable>(v: &Vec<T>, dst: &mut Vec<u8>)
    requires
        v@.len() <= u32::MAX,
    ensures
        final(dst)@ == old(dst)@ + ser_seq(v@),
{
    let n = v.len() as u32;
    n.serialize_to_vec(dst);
    let mut i: usize = 0;
    proof {
        assert(v@.take(0) =~= Seq::<T>::empty());
        assert(dst@ =~= old(dst)@ + n.ser() + ser_items(v@.take(0)));
    }
    while i < v.len()
        invariant
            i <= v@.len(),
            n == v@.len(),
            dst@ == old(dst)@ + n.ser() + ser_items(v@.take(i as int)),
        decreases v@.len() - i,
    {
        v[i].serialize_to_vec(dst);
        proof {
            assert(v@.take(i + 1).drop_last() =~= v@.take(i as int));
            assert(v@.take(i + 1).last() == v@[i as int]);
            assert(dst@ =~= old(dst)@ + n.ser() + ser_items(v@.take(i + 1)));
        }
        i += 1;
    }
    proof {
        assert(v@.take(i as int) =~= v@);
        assert(dst@ =~= old(dst)@ + ser_seq(v@));
    }
}

/// Reads a sequence from the front of `src`, which must hold the binary form of a
/// sequence. Returns the sequence and the rest of `src`.
pub fn deserialize_vec<T: Serializable>(src: &[u8]) -> (r: (Vec<T>, &[u8]))
    requires
        exists|s: Seq<T>, rest: Seq<u8>| s.len() <= u32::MAX && src@ == ser_seq(s) + rest,
    ensures
        r.0@ == de_seq::<T>(src@),
        r.1@ == src@.skip(seq_width::<T>(r.0@.len()) as int),
        forall|s: Seq<T>, rest: Seq<u8>|
            s.len() <= u32::MAX && src@ == #[trigger] (ser_seq(s) + rest) ==> r.0@ == s && r.1@
                == rest,
{
    let ghost (s0, rest0) = choose|s: Seq<T>, rest: Seq<u8>|
        s.len() <= u32::MAX && src@ == ser_seq(s) + rest;
    let ghost w = T::width();
    proof {
        lemma_seq_round_trip(s0, rest0);
        (s0.len() as u32).lemma_round_trip();
        assert(src@.take(4) =~= (s0.len() as u32).ser());
        assert forall|s: Seq<T>, rest: Seq<u8>|
            s.len() <= u32::MAX && src@ == #[trigger] (ser_seq(s) + rest) implies s == s0 && rest
            == rest0 by {
            lemma_seq_round_trip(s, rest);
        }
    }
    let (n, mut cur) = u32::deserialize_from_slice(src);
    let ghost body = src@.skip(4);
    let mut v: Vec<T> = Vec::new();
    let mut i: u32 = 0;
    proof {
        assert(body =~= ser_items(s0) + rest0);
        assert(0 * w == 0) by (nonlinear_arith);
        assert(body.skip(0) =~= body);
    }
    while i < n
        invariant
            i <= n,
            n == s0.len(),
            w == T::width(),
            body == ser_items(s0) + rest0,
            v@ == s0.take(i as int),
            cur@ == body.skip(i * w),
            0 <= i * w <= ser_items(s0).len(),
        decreases n - i,
    {
        proof {
            lemma_ser_items(s0, i as int);
            s0[i as int].lemma_round_trip();
            assert(cur@.take(w as int) =~= ser_items(s0).subrange(i * w, (i + 1) * w));
        }
        let (x, next) = T::deserialize_from_slice(cur);
        v.push(x);
        proof {
            assert(v@ =~= s0.take(i + 1));
            assert(next@ =~= body.skip((i + 1) * w)) by {
                assert(i * w + w == (i + 1) * w) by (nonlinear_arith);
            }
        }
        cur = next;
        i += 1;
    }
    proof {
        assert(s0.take(n as int) =~= s0);
        lemma_ser_items(s0, 0);
        assert(cur@ =~= rest0);
    }
    (v, cur)
}

} // verus!
