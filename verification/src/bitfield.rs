//! Validator bitfields, backed by `bitvec`, and their mathematical model.
//!
//! A bitfield is modelled as a `Seq<bool>`. The operations of `bitvec` that the
//! crate relies on are trusted to behave as their contracts here say; the
//! counting lemmas below them are proved.

use bitvec::order::Lsb0;
use bitvec::vec::BitVec;
use vstd::prelude::*;

verus! {

/// A fixed-length sequence of bits, one per validator, stored by `bitvec` in
/// bytes with the least significant bit first. The verifier does not look
/// inside: what a bitfield holds goes by the name [`bits`], and what the
/// operations do to it is stated by the contracts of the functions that call
/// `bitvec`.
#[verifier::external_body]
pub struct Bitfield {
    inner: BitVec<Lsb0, u8>,
}

/// The bits that a bitfield holds, in index order.
pub uninterp spec fn bits(b: Bitfield) -> Seq<bool>;

impl View for Bitfield {
    type V = Seq<bool>;

    open spec fn view(&self) -> Seq<bool> {
        bits(*self)
    }
}

/// The number of `true` entries of a bit sequence.
pub open spec fn count_ones(s: Seq<bool>) -> nat
    decreases s.len(),
{
    if s.len() == 0 {
        0
    } else {
        count_ones(s.drop_last()) + if s.last() { 1nat } else { 0nat }
    }
}

/// The bitwise conjunction of `a` with `b`, of the length of `a`: a position
/// that `b` does not have counts as cleared.
pub open spec fn and_bits(a: Seq<bool>, b: Seq<bool>) -> Seq<bool> {
    Seq::new(a.len(), |i: int| a[i] && i < b.len() && b[i])
}

/// The bits of `a` that `b` lacks, of the length of `a`: a position that `b`
/// does not have counts as lacking.
pub open spec fn lacking_bits(a: Seq<bool>, b: Seq<bool>) -> Seq<bool> {
    Seq::new(a.len(), |i: int| a[i] && !(i < b.len() && b[i]))
}

/// The greatest length a bitfield can have: an eighth of the address space.
pub open spec fn max_bits() -> int {
    (usize::MAX / 8) as int
}

/// `BitVec::repeat` with `false`: a bitfield of `len` cleared bits. The call
/// panics beyond `BitSlice::MAX_BITS`, which `requires` excludes.
#[verifier::external_body]
fn bitvec_zeros(len: usize) -> (r: Bitfield)
    requires
        len <= max_bits(),
    ensures
        bits(r) == Seq::new(len as nat, |i: int| false),
{
    Bitfield { inner: BitVec::repeat(false, len) }
}

/// `BitVec::len`: the number of bits held, which the span encoding keeps
/// within `BitSlice::MAX_BITS`.
#[verifier::external_body]
fn bitvec_len(b: &Bitfield) -> (r: usize)
    ensures
        r == bits(*b).len(),
        r <= max_bits(),
{
    b.inner.len()
}

/// `BitSlice::get` at a single index: the bit there, or `None` past the end.
#[verifier::external_body]
fn bitvec_get(b: &Bitfield, index: usize) -> (r: Option<bool>)
    ensures
        r == if index < bits(*b).len() {
            Some(bits(*b)[index as int])
        } else {
            None
        },
{
    b.inner.get(index).as_deref().copied()
}

/// `BitSlice::set`: writes one bit and leaves the others. The call panics on
/// an index past the end, which `requires` excludes.
#[verifier::external_body]
fn bitvec_set(b: &mut Bitfield, index: usize, value: bool)
    requires
        index < bits(*old(b)).len(),
    ensures
        bits(*final(b)) == bits(*old(b)).update(index as int, value),
{
    b.inner.set(index, value);
}

/// `BitSlice::count_ones`: the number of set bits.
#[verifier::external_body]
fn bitvec_count_ones(b: &Bitfield) -> (r: usize)
    ensures
        r == count_ones(bits(*b)),
{
    b.inner.count_ones()
}

/// `&=` of a `BitVec` with the bits of another, taken by value: each bit of
/// `a` is conjoined with the bit of `b` at its index, and with `false` where
/// `b` has run out. The length of `a` stays.
#[verifier::external_body]
fn bitvec_and_assign(a: &mut Bitfield, b: &Bitfield)
    ensures
        bits(*final(a)) == and_bits(bits(*old(a)), bits(*b)),
{
    a.inner &= b.inner.iter().by_val();
}

/// `Clone::clone` of a `BitVec`: a bitfield with the same bits.
#[verifier::external_body]
fn bitvec_clone(b: &Bitfield) -> (r: Bitfield)
    ensures
        bits(r) == bits(*b),
{
    Bitfield { inner: b.inner.clone() }
}

impl Bitfield {
    /// A bitfield of `len` bits, all cleared.
    pub fn new(len: usize) -> (r: Self)
        requires
            len <= max_bits(),
        ensures
            r@ == Seq::new(len as nat, |i: int| false),
    {
        bitvec_zeros(len)
    }

    /// The number of bits.
    pub fn len(&self) -> (r: usize)
        ensures
            r == self@.len(),
            r <= max_bits(),
    {
        bitvec_len(self)
    }

    /// Whether bit `index` is set; a bit past the end counts as cleared.
    pub fn is_set(&self, index: usize) -> (r: bool)
        ensures
            r == (index < self@.len() && self@[index as int]),
    {
        match bitvec_get(self, index) {
            Some(bit) => bit,
            None => false,
        }
    }

    /// Writes bit `index`.
    pub fn set(&mut self, index: usize, value: bool)
        requires
            index < old(self)@.len(),
        ensures
            final(self)@ == old(self)@.update(index as int, value),
    {
        bitvec_set(self, index, value);
    }

    /// The number of bits set.
    pub fn count_ones(&self) -> (r: usize)
        ensures
            r == count_ones(self@),
    {
        bitvec_count_ones(self)
    }

    /// Clears every bit that `mask` does not have set.
    pub fn intersect(&mut self, mask: &Bitfield)
        ensures
            final(self)@ == and_bits(old(self)@, mask@),
    {
        bitvec_and_assign(self, mask);
    }
}

/// Bit `j` of a byte, counted from the least significant.
pub open spec fn bit_of(byte: u8, j: int) -> bool {
    (byte >> (j as u8)) & 1 == 1
}

/// The bytes that store the bits with the least significant bit first: bit
/// `i` is bit `i % 8` of byte `i / 8`, and what is left of the last byte is
/// cleared.
pub open spec fn stores(bytes: Seq<u8>, bits: Seq<bool>) -> bool {
    &&& bytes.len() == (bits.len() + 7) / 8
    &&& forall|i: int| 0 <= i < bits.len() ==> bit_of(#[trigger] bytes[i / 8], i % 8) == bits[i]
    &&& forall|i: int|
        bits.len() <= i < bytes.len() * 8 ==> !bit_of(#[trigger] bytes[i / 8], i % 8)
}

/// Bytes store one sequence of bits of a given length at most: what
/// `to_bytes` gives, `from_bytes` takes back to the same bits.
pub proof fn lemma_stores_one(bytes: Seq<u8>, a: Seq<bool>, b: Seq<bool>)
    requires
        stores(bytes, a),
        stores(bytes, b),
        a.len() == b.len(),
    ensures
        a == b,
{
    assert forall|i: int| 0 <= i < a.len() implies a[i] == b[i] by {
        assert(bit_of(bytes[i / 8], i % 8) == a[i]);
        assert(bit_of(bytes[i / 8], i % 8) == b[i]);
    }
    assert(a =~= b);
}

/// A byte with bit `j` set has the bits that it had, and bit `j`.
proof fn lemma_set_bit(byte: u8, j: u8, k: u8)
    requires
        j < 8,
        k < 8,
    ensures
        bit_of(byte | (1u8 << j), k as int) == (bit_of(byte, k as int) || k == j),
        !bit_of(0u8, k as int),
{
    assert(((byte | (1u8 << j)) >> k) & 1 == 1 <==> ((byte >> k) & 1 == 1 || k == j))
        by (bit_vector)
        requires
            j < 8,
            k < 8,
    ;
    assert((0u8 >> k) & 1 == 0) by (bit_vector);
}

impl Bitfield {
    /// Whether the two bitfields have the same length and the same bits.
    pub fn same_bits(&self, other: &Bitfield) -> (r: bool)
        ensures
            r == (self@ == other@),
    {
        let n = self.len();
        if other.len() != n {
            return false;
        }
        let mut i: usize = 0;
        while i < n
            invariant
                n == self@.len(),
                n == other@.len(),
                0 <= i <= n,
                forall|j: int| 0 <= j < i ==> self@[j] == other@[j],
            decreases n - i,
        {
            if self.is_set(i) != other.is_set(i) {
                return false;
            }
            i = i + 1;
        }
        assert(self@ =~= other@);
        true
    }

    /// The bytes that store the bitfield, least significant bit first.
    pub fn to_bytes(&self) -> (r: Vec<u8>)
        ensures
            stores(r@, self@),
    {
        let n = self.len();
        let mut out: Vec<u8> = Vec::new();
        let mut i: usize = 0;
        while i < n
            invariant
                n == self@.len(),
                0 <= i <= n,
                out@.len() == (i + 7) / 8,
                forall|p: int| 0 <= p < i ==> bit_of(#[trigger] out@[p / 8], p % 8) == self@[p],
                forall|p: int| i <= p < out@.len() * 8 ==> !bit_of(#[trigger] out@[p / 8], p % 8),
            decreases n - i,
        {
            if i % 8 == 0 {
                let ghost before = out@;
                out.push(0u8);
                proof {
                    assert forall|p: int| i <= p < out@.len() * 8 implies !bit_of(
                        #[trigger] out@[p / 8],
                        p % 8,
                    ) by {
                        lemma_set_bit(0u8, 0u8, (p % 8) as u8);
                    }
                    assert forall|p: int| 0 <= p < i implies bit_of(
                        #[trigger] out@[p / 8],
                        p % 8,
                    ) == self@[p] by {
                        assert(out@[p / 8] == before[p / 8]);
                    }
                }
            }
            if self.is_set(i) {
                let at = i / 8;
                let shift = (i % 8) as u8;
                let ghost before = out@;
                let byte = out[at];
                out.set(at, byte | (1u8 << shift));
                proof {
                    assert forall|p: int| 0 <= p < out@.len() * 8 implies bit_of(
                        #[trigger] out@[p / 8],
                        p % 8,
                    ) == (bit_of(before[p / 8], p % 8) || p == i) by {
                        if p / 8 == at {
                            lemma_set_bit(byte, shift, (p % 8) as u8);
                        }
                    }
                }
            }
            i = i + 1;
        }
        out
    }

    /// The bitfield of `len` bits that the bytes store, least significant bit
    /// first, or `None` where the bytes are not as many as `len` bits take,
    /// where bits are set past the last of them, or where `len` is beyond
    /// what a bitfield can hold.
    pub fn from_bytes(bytes: &[u8], len: usize) -> (r: Option<Self>)
        ensures
            match r {
                Some(b) => b@.len() == len && stores(bytes@, b@),
                None => len > max_bits() || !exists|bits: Seq<bool>|
                    bits.len() == len && #[trigger] stores(bytes@, bits),
            },
    {
        if len > usize::MAX / 8 || bytes.len() != (len + 7) / 8 {
            return None;
        }
        let mut out = Bitfield::new(len);
        let total = bytes.len() * 8;
        let mut i: usize = 0;
        while i < total
            invariant
                len <= max_bits(),
                bytes@.len() == (len + 7) / 8,
                total == bytes@.len() * 8,
                0 <= i <= total,
                out@.len() == len,
                forall|p: int| 0 <= p < i && p < len ==> bit_of(#[trigger] bytes@[p / 8], p % 8)
                    == out@[p],
                forall|p: int| len <= p < i ==> !bit_of(#[trigger] bytes@[p / 8], p % 8),
            decreases total - i,
        {
            let set = (bytes[i / 8] >> ((i % 8) as u8)) & 1 == 1;
            if i < len {
                out.set(i, set);
            } else if set {
                proof {
                    assert forall|bits: Seq<bool>| bits.len() == len implies !#[trigger] stores(
                        bytes@,
                        bits,
                    ) by {
                        assert(bit_of(bytes@[i as int / 8], i as int % 8));
                    }
                }
                return None;
            }
            i = i + 1;
        }
        Some(out)
    }
}

impl Clone for Bitfield {
    /// A copy with the same bits.
    fn clone(&self) -> (r: Self)
        ensures
            r@ == self@,
    {
        bitvec_clone(self)
    }
}

/// No more bits are set than there are bits.
pub proof fn lemma_count_ones_bound(s: Seq<bool>)
    ensures
        count_ones(s) <= s.len(),
    decreases s.len(),
{
    if s.len() > 0 {
        lemma_count_ones_bound(s.drop_last());
    }
}

/// Setting bits never lowers the count: where every bit set in `a` is set in
/// `b`, `b` counts at least as many.
pub proof fn lemma_count_ones_monotone(a: Seq<bool>, b: Seq<bool>)
    requires
        a.len() == b.len(),
        forall|i: int| 0 <= i < a.len() ==> (a[i] ==> b[i]),
    ensures
        count_ones(a) <= count_ones(b),
    decreases a.len(),
{
    if a.len() > 0 {
        lemma_count_ones_monotone(a.drop_last(), b.drop_last());
    }
}

/// Every set bit of `a` is either one that `b` has or one that `b` lacks.
pub proof fn lemma_count_ones_split(a: Seq<bool>, b: Seq<bool>)
    ensures
        count_ones(and_bits(a, b)) + count_ones(lacking_bits(a, b)) == count_ones(a),
    decreases a.len(),
{
    if a.len() > 0 {
        let front = a.drop_last();
        lemma_count_ones_split(front, b);
        assert(and_bits(a, b).drop_last() =~= and_bits(front, b));
        assert(lacking_bits(a, b).drop_last() =~= lacking_bits(front, b));
    }
}

} // verus!
