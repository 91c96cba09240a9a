//! An append-only bit sequence packed into bytes, least significant bit first,
//! with its weight and Hamming distance.
use vstd::prelude::*;

verus! {

/// Bit `k` of the byte `b`.
pub open spec fn bit_at(b: u8, k: int) -> bool {
    (b >> (k as u8)) & 1 == 1
}

/// The bits of `s`, byte after byte, each least significant bit first.
pub open spec fn bits_of(s: Seq<u8>) -> Seq<bool> {
    Seq::new(8 * s.len(), |i: int| bit_at(s[i / 8], i % 8))
}

/// Number of set bits of one byte.
pub open spec fn popcount8(b: u8) -> nat {
    ((b & 1) + ((b >> 1u8) & 1) + ((b >> 2u8) & 1) + ((b >> 3u8) & 1) + ((b >> 4u8) & 1) + ((b
        >> 5u8) & 1) + ((b >> 6u8) & 1) + ((b >> 7u8) & 1)) as nat
}

/// Number of set bits of a byte sequence.
pub open spec fn byte_weight(s: Seq<u8>) -> nat
    decreases s.len(),
{
    if s.len() == 0 {
        0
    } else {
        byte_weight(s.drop_last()) + popcount8(s.last())
    }
}

/// Number of bit positions where two byte sequences of equal length differ.
pub open spec fn byte_distance(x: Seq<u8>, y: Seq<u8>) -> nat {
    byte_weight(Seq::new(x.len(), |i: int| x[i] ^ y[i]))
}

/// Number of `true` entries.
pub open spec fn count_true(s: Seq<bool>) -> nat
    decreases s.len(),
{
    if s.len() == 0 {
        0
    } else {
        count_true(s.drop_last()) + if s.last() {
            1nat
        } else {
            0nat
        }
    }
}

/// Number of positions where `a` and `b` differ.
pub open spec fn count_diff(a: Seq<bool>, b: Seq<bool>) -> nat {
    count_true(Seq::new(a.len(), |i: int| a[i] != b[i]))
}

/// Relies on hamming::weight: the number of set bits of the bytes.
#[verifier::external_body]
fn weight_of(x: &Vec<u8>) -> (r: u64)
    ensures
        r == byte_weight(x@),
{
    hamming::weight(x)
}

/// Relies on hamming::distance: for slices of equal length (it panics
/// otherwise), the number of bit positions where they differ.
#[verifier::external_body]
fn distance_of(x: &Vec<u8>, y: &Vec<u8>) -> (r: u64)
    requires
        x@.len() == y@.len(),
    ensures
        r == byte_distance(x@, y@),
{
    hamming::distance(x, y)
}

proof fn lemma_high_clear(x: u8, b: u8, k: u8)
    by (bit_vector)
    requires
        x >> b == 0,
        b <= k < 8,
    ensures
        (x >> k) & 1 == 0,
{
}

proof fn lemma_set_high(last: u8, v: u8, b: u8, k: u8)
    by (bit_vector)
    requires
        b < 8,
        k < 8,
        v <= 1,
        last >> b == 0,
    ensures
        ((last | (v << b)) >> k) & 1 == if k < b {
            (last >> k) & 1
        } else if k == b {
            v
        } else {
            0
        },
        b < 7 ==> (last | (v << b)) >> ((b + 1) as u8) == 0,
{
}

proof fn lemma_xor_bit(x: u8, y: u8, k: u8)
    by (bit_vector)
    requires
        k < 8,
    ensures
        (((x ^ y) >> k) & 1 == 1) == (((x >> k) & 1 == 1) != ((y >> k) & 1 == 1)),
{
}

proof fn lemma_count_true_concat(a: Seq<bool>, b: Seq<bool>)
    ensures
        count_true(a + b) == count_true(a) + count_true(b),
    decreases b.len(),
{
    if b.len() > 0 {
        lemma_count_true_concat(a, b.drop_last());
        assert((a + b).drop_last() =~= a + b.drop_last());
    } else {
        assert(a + b =~= a);
    }
}

/// Two sequences differ in at most as many positions as they are long.
pub proof fn lemma_count_diff_bound(a: Seq<bool>, b: Seq<bool>)
    ensures
        count_diff(a, b) <= a.len(),
{
    lemma_count_true_bound(Seq::new(a.len(), |i: int| a[i] != b[i]));
}

/// A sequence has at most as many set entries as it is long.
pub proof fn lemma_count_true_le(s: Seq<bool>)
    ensures
        count_true(s) <= s.len(),
{
    lemma_count_true_bound(s);
}

proof fn lemma_count_true_bound(s: Seq<bool>)
    ensures
        count_true(s) <= s.len(),
    decreases s.len(),
{
    if s.len() > 0 {
        lemma_count_true_bound(s.drop_last());
    }
}

proof fn lemma_count_true_none(s: Seq<bool>)
    requires
        forall|i: int| 0 <= i < s.len() ==> !s[i],
    ensures
        count_true(s) == 0,
    decreases s.len(),
{
    if s.len() > 0 {
        lemma_count_true_none(s.drop_last());
    }
}

proof fn lemma_byte_bits(b: u8)
    ensures
        count_true(Seq::new(8, |k: int| bit_at(b, k))) == popcount8(b),
{
    let s = Seq::new(8, |k: int| bit_at(b, k));
    reveal_with_fuel(count_true, 9);
    assert(s.drop_last().drop_last().drop_last().drop_last().drop_last().drop_last().drop_last().drop_last().len() == 0);
    assert forall|k: u8| k < 8 implies (#[trigger] ((b >> k) & 1) == 1) || ((b >> k) & 1) == 0 by {
        assert(forall|k: u8| k < 8 ==> (#[trigger] ((b >> k) & 1) == 1) || ((b >> k) & 1) == 0)
            by (bit_vector);
    }
    assert((b >> 0u8) & 1 == b & 1) by (bit_vector);
}

proof fn lemma_bits_weight(s: Seq<u8>)
    ensures
        count_true(bits_of(s)) == byte_weight(s),
    decreases s.len(),
{
    if s.len() > 0 {
        let n = s.len() - 1;
        lemma_bits_weight(s.drop_last());
        let tail = Seq::new(8, |k: int| bit_at(s.last(), k));
        assert forall|i: int| 0 <= i < 8 * s.len() implies #[trigger] bits_of(s)[i] == (bits_of(
            s.drop_last(),
        ) + tail)[i] by {
            if i >= 8 * n {
                assert(i / 8 == n);
                assert(i % 8 == i - 8 * n);
            } else {
                assert(i / 8 < n);
            }
        }
        assert(bits_of(s) =~= bits_of(s.drop_last()) + tail);
        lemma_count_true_concat(bits_of(s.drop_last()), tail);
        lemma_byte_bits(s.last());
    } else {
        assert(bits_of(s).len() == 0);
    }
}

/// An append-only sequence of bits, packed eight to a byte.
pub struct BitVec {
    vec: Vec<u8>,
    bit: u8,
}

impl View for BitVec {
    type V = Seq<bool>;

    closed spec fn view(&self) -> Seq<bool> {
        bits_of(self.vec@).take(8 * (self.vec@.len() - 1) + self.bit)
    }
}

impl BitVec {
    /// The last byte holds `bit` bits, the bits above them are clear, and the
    /// length fits in `usize`.
    pub closed spec fn wf(&self) -> bool {
        &&& 1 <= self.vec@.len() <= usize::MAX / 8
        &&& self.bit < 8
        &&& self.vec@.last() >> self.bit == 0
    }

    proof fn lemma_view_len(&self)
        requires
            self.wf(),
        ensures
            self@.len() == 8 * (self.vec@.len() - 1) + self.bit,
            self@ =~= bits_of(self.vec@).take(self@.len() as int),
            forall|i: int| self@.len() <= i < bits_of(self.vec@).len() ==> !#[trigger] bits_of(self.vec@)[i],
    {
        let n = self.vec@.len() - 1;
        assert forall|i: int| self@.len() <= i < bits_of(self.vec@).len() implies !#[trigger] bits_of(
            self.vec@,
        )[i] by {
            assert(i / 8 == n);
            assert(i % 8 >= self.bit);
            lemma_high_clear(self.vec@.last(), self.bit, (i % 8) as u8);
        }
    }

    /// An empty sequence.
    pub fn new() -> (r: BitVec)
        ensures
            r.wf(),
            r@ == Seq::<bool>::empty(),
    {
        let r = BitVec { vec: vec![0u8], bit: 0 };
        assert(0u8 >> 0u8 == 0) by (bit_vector);
        assert(r@ =~= Seq::<bool>::empty());
        r
    }

    /// Appends `a`.
    pub fn push(&mut self, a: bool)
        requires
            old(self).wf(),
            old(self)@.len() + 16 <= usize::MAX,
        ensures
            final(self).wf(),
            final(self)@ == old(self)@.push(a),
    {
        proof {
            self.lemma_view_len();
        }
        let ghost before = self@;
        let ghost old_vec = self.vec@;
        let v: u8 = if a { 1 } else { 0 };
        let i = self.vec.len() - 1;
        let b = self.bit;
        let last = self.vec[i];
        let nb = last | (v << b);
        proof {
            assert(0u8 >> 0u8 == 0) by (bit_vector);
        }
        self.vec.set(i, nb);
        if self.bit < 7 {
            self.bit = self.bit + 1;
        } else {
            self.vec.push(0u8);
            self.bit = 0;
        }
        proof {
            let n = old_vec.len() - 1;
            let len = before.len() + 1;
            assert forall|k: int| 0 <= k < 8 implies #[trigger] bit_at(nb, k) == (if k < b {
                bit_at(last, k)
            } else if k == b {
                a
            } else {
                false
            }) by {
                lemma_set_high(last, v, b, k as u8);
            }
            if b < 7 {
                lemma_set_high(last, v, b, 0);
            }
            assert(self.wf());
            self.lemma_view_len();
            assert(self@.len() == len);
            assert forall|i: int| 0 <= i < len implies #[trigger] self@[i] == before.push(a)[i] by {
                assert(i / 8 <= n);
                if i / 8 < n {
                    assert(self.vec@[i / 8] == old_vec[i / 8]);
                } else {
                    assert(self.vec@[i / 8] == nb);
                    assert(i % 8 <= b);
                }
            }
            assert(self@ =~= before.push(a));
        }
    }

    /// Number of bits.
    pub fn len(&self) -> (r: usize)
        requires
            self.wf(),
        ensures
            r == self@.len(),
    {
        proof {
            self.lemma_view_len();
        }
        (self.vec.len() - 1) * 8 + self.bit as usize
    }

    /// Number of set bits.
    pub fn weight(&self) -> (r: u64)
        requires
            self.wf(),
        ensures
            r == count_true(self@),
    {
        proof {
            self.lemma_view_len();
            let full = bits_of(self.vec@);
            let k = self@.len() as int;
            assert(full =~= full.take(k) + full.skip(k));
            lemma_count_true_concat(full.take(k), full.skip(k));
            lemma_count_true_none(full.skip(k));
            lemma_bits_weight(self.vec@);
        }
        weight_of(&self.vec)
    }

    /// Number of positions where this sequence and `b`, of the same length,
    /// differ.
    pub fn distance(&self, b: &BitVec) -> (r: u64)
        requires
            self.wf(),
            b.wf(),
            self@.len() == b@.len(),
        ensures
            r == count_diff(self@, b@),
    {
        proof {
            self.lemma_view_len();
            b.lemma_view_len();
            let va = self.vec@;
            let vb = b.vec@;
            assert(va.len() == vb.len());
            let xs = Seq::new(va.len(), |i: int| va[i] ^ vb[i]);
            lemma_bits_weight(xs);
            let fa = bits_of(va);
            let fb = bits_of(vb);
            let d = Seq::new(fa.len(), |i: int| fa[i] != fb[i]);
            assert forall|i: int| 0 <= i < d.len() implies #[trigger] bits_of(xs)[i] == d[i] by {
                lemma_xor_bit(va[i / 8], vb[i / 8], (i % 8) as u8);
            }
            assert(bits_of(xs) =~= d);
            let k = self@.len() as int;
            let dv = Seq::new(self@.len(), |i: int| self@[i] != b@[i]);
            assert(d =~= dv + d.skip(k));
            lemma_count_true_concat(dv, d.skip(k));
            lemma_count_true_none(d.skip(k));
        }
        distance_of(&self.vec, &b.vec)
    }
}

} // verus!
