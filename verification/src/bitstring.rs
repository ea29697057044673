//! Append-only, packed bit accumulator with MSB-first semantics.
//!
//! The stream's mathematical view is a sequence of booleans. Logical bit
//! `i` is stored in word `i / 64`, at bit position `63 - (i % 64)` of that
//! word, so the first appended bit lands in the most significant position
//! of the first word. Storage grows by one zero word exactly when the
//! current word is full; bits past the logical length are always zero.

use vstd::arithmetic::div_mod::{
    lemma_breakdown, lemma_fundamental_div_mod, lemma_fundamental_div_mod_converse,
};
use vstd::arithmetic::power2::{lemma2_to64, lemma_pow2_pos, lemma_pow2_unfold, pow2};
use vstd::prelude::*;

verus! {

/// Bit `i` (MSB-first, so counted from the most significant end) of a
/// storage word.
pub open spec fn word_bit(w: u64, i: int) -> bool
    recommends
        0 <= i < 64,
{
    (w >> ((63 - i) as u64)) & 1 == 1
}

/// The low `width` bits of `value`, most significant bit first.
pub open spec fn bit_seq(value: u64, width: nat) -> Seq<bool>
    recommends
        width <= 64,
{
    Seq::new(width, |i: int| (value >> ((width - 1 - i) as u64)) & 1 == 1)
}

/// The numeric value of a bit sequence read MSB-first.
pub open spec fn bits_value(s: Seq<bool>) -> nat
    decreases s.len(),
{
    if s.len() == 0 {
        0
    } else {
        2 * bits_value(s.drop_last()) + (if s.last() {
            1nat
        } else {
            0nat
        })
    }
}

/// Number of storage words backing a stream of `len` logical bits: one word
/// from the start, then one more for each time a word filled up.
pub open spec fn num_words(len: nat) -> nat {
    if len == 0 {
        1
    } else {
        (len - 1) as nat / 64 + 1
    }
}

/// Append-only packed bit accumulator.
#[derive(Debug)]
pub struct Bitstring {
    len: usize,
    data: Vec<u64>,
}

impl View for Bitstring {
    type V = Seq<bool>;

    closed spec fn view(&self) -> Seq<bool> {
        Seq::new(self.len as nat, |i: int| word_bit(self.data@[i / 64], i % 64))
    }
}

proof fn lemma_word_bit_zero(j: int)
    requires
        0 <= j < 64,
    ensures
        !word_bit(0, j),
{
    let t = (63 - j) as u64;
    assert((0u64 >> t) & 1 == 0) by (bit_vector);
}

proof fn lemma_or_mask(w: u64, j0: int)
    requires
        0 <= j0 < 64,
    ensures
        word_bit(w | (1u64 << ((63 - j0) as u64)), j0),
        forall|j: int|
            0 <= j < 64 && j != j0 ==> #[trigger] word_bit(w | (1u64 << ((63 - j0) as u64)), j)
                == word_bit(w, j),
{
    let s = (63 - j0) as u64;
    assert(((w | (1u64 << s)) >> s) & 1 == 1) by (bit_vector)
        requires
            s < 64,
    ;
    assert forall|j: int| 0 <= j < 64 && j != j0 implies #[trigger] word_bit(
        w | (1u64 << s),
        j,
    ) == word_bit(w, j) by {
        let t = (63 - j) as u64;
        assert(((w | (1u64 << s)) >> t) & 1 == (w >> t) & 1) by (bit_vector)
            requires
                s < 64,
                t < 64,
                s != t,
        ;
    }
}

impl Bitstring {
    /// A well-formed stream: the word count matches the logical length, and
    /// every storage bit at or past the logical length is zero.
    pub closed spec fn wf(&self) -> bool {
        &&& self.data@.len() == num_words(self.len as nat)
        &&& forall|k: int, j: int|
            0 <= k < self.data@.len() && 0 <= j < 64 && 64 * k + j >= self.len
                ==> !(#[trigger] word_bit(self.data@[k], j))
    }

    /// The empty stream: length zero, one zeroed storage word.
    pub fn new() -> (r: Self)
        ensures
            r.wf(),
            r@ == Seq::<bool>::empty(),
    {
        let mut data: Vec<u64> = Vec::new();
        data.push(0u64);
        let r = Bitstring { len: 0, data };
        proof {
            assert forall|k: int, j: int|
                0 <= k < r.data@.len() && 0 <= j < 64 && 64 * k + j >= r.len implies !(
            #[trigger] word_bit(r.data@[k], j)) by {
                lemma_word_bit_zero(j);
            }
            assert(r@ =~= Seq::<bool>::empty());
        }
        r
    }

    /// Append a single bit at the end of the stream, growing the storage by
    /// one zero word when the current word is full.
    pub fn set(&mut self, bit: bool)
        requires
            old(self).wf(),
            old(self)@.len() < usize::MAX,
        ensures
            final(self).wf(),
            final(self)@ == old(self)@.push(bit),
    {
        let ghost l = self.len as int;
        let ghost k0 = l / 64;
        let ghost j0 = l % 64;
        let ghost d0 = self.data@;
        proof {
            lemma_fundamental_div_mod(l, 64);
        }
        if self.len % 64 == 0 && self.len != 0 {
            self.data.push(0u64);
        }
        let ghost d1 = self.data@;
        proof {
            if l == 0 {
                assert(d1.len() == k0 + 1);
            } else if j0 != 0 {
                lemma_fundamental_div_mod_converse(l - 1, 64, k0, j0 - 1);
                assert(d1.len() == k0 + 1);
            } else {
                lemma_fundamental_div_mod_converse(l - 1, 64, k0 - 1, 63);
                assert(d0.len() == k0);
                assert(d1.len() == k0 + 1);
            }
            assert forall|k: int, j: int|
                0 <= k < d1.len() && 0 <= j < 64 && 64 * k + j >= l implies !(#[trigger] word_bit(
                d1[k],
                j,
            )) by {
                if k < d0.len() {
                    assert(d1[k] == d0[k]);
                } else {
                    assert(d1[k] == 0);
                    lemma_word_bit_zero(j);
                }
            }
            assert(forall|k: int| 0 <= k < d0.len() ==> d1[k] == d0[k]);
        }
        if bit {
            let idx = self.data.len() - 1;
            let shift: u64 = 63 - ((self.len % 64) as u64);
            let w = self.data[idx];
            self.data[idx] = w | (1u64 << shift);
            proof {
                assert(idx == k0);
                assert(shift == (63 - j0) as u64);
                lemma_or_mask(w, j0);
            }
        }
        let ghost d2 = self.data@;
        proof {
            assert(d2.len() == k0 + 1);
            assert(forall|k: int| 0 <= k < k0 ==> d2[k] == d1[k]);
            assert(word_bit(d2[k0], j0) == bit);
            assert(forall|j: int|
                0 <= j < 64 && j != j0 ==> #[trigger] word_bit(d2[k0], j) == word_bit(d1[k0], j));
        }
        self.len = self.len + 1;
        proof {
            assert(self.data@.len() == num_words(self.len as nat)) by {
                lemma_fundamental_div_mod_converse(l, 64, k0, j0);
            }
            assert forall|k: int, j: int|
                0 <= k < d2.len() && 0 <= j < 64 && 64 * k + j >= l + 1 implies !(
            #[trigger] word_bit(d2[k], j)) by {
                assert(k == k0);
                assert(j != j0);
                assert(word_bit(d2[k0], j) == word_bit(d1[k0], j));
            }
            assert forall|i: int| 0 <= i < l + 1 implies word_bit(d2[i / 64], i % 64) == old(
                self,
            )@.push(bit)[i] by {
                lemma_fundamental_div_mod(i, 64);
                let k = i / 64;
                let j = i % 64;
                if i < l {
                    if k == k0 {
                        assert(j != j0);
                        assert(word_bit(d2[k], j) == word_bit(d1[k], j));
                    } else {
                        assert(k < k0);
                        assert(d2[k] == d0[k]);
                    }
                    assert(old(self)@.push(bit)[i] == word_bit(d0[k], j));
                } else {
                    assert(i == l);
                    lemma_fundamental_div_mod_converse(l, 64, k0, j0);
                    assert(k == k0 && j == j0);
                }
            }
            assert(self@ =~= old(self)@.push(bit));
        }
    }

    /// Append the low `bits` bits of `packet`, most significant bit first.
    /// A zero width appends nothing; bits of `packet` above `bits` are
    /// ignored.
    pub fn push(&mut self, packet: u64, bits: usize)
        requires
            old(self).wf(),
            bits <= 64,
            old(self)@.len() + bits <= usize::MAX,
        ensures
            final(self).wf(),
            final(self)@ == old(self)@ + bit_seq(packet, bits as nat),
    {
        let ghost orig = self@;
        let ghost target = bit_seq(packet, bits as nat);
        let mut i: usize = bits;
        while i > 0
            invariant
                self.wf(),
                i <= bits <= 64,
                orig.len() + bits <= usize::MAX,
                target == bit_seq(packet, bits as nat),
                self@ == orig + target.take((bits - i) as int),
            decreases i,
        {
            i = i - 1;
            let b = ((packet >> (i as u64)) & 1) == 1;
            proof {
                let done = (bits - i - 1) as int;
                assert(target[done] == b);
                assert(target.take(done + 1) =~= target.take(done).push(target[done]));
            }
            self.set(b);
        }
        proof {
            assert(target.take(bits as int) =~= target);
        }
    }

    /// Read-only view of the packed storage words. Bit `i` of the stream is
    /// bit `63 - (i % 64)` of word `i / 64`; storage bits at or past the
    /// logical length are zero.
    pub fn data(&self) -> (r: &Vec<u64>)
        requires
            self.wf(),
        ensures
            r@.len() == num_words(self@.len()),
            forall|k: int, j: int|
                0 <= k < r@.len() && 0 <= j < 64 && 64 * k + j < self@.len()
                    ==> #[trigger] word_bit(r@[k], j) == self@[64 * k + j],
            forall|k: int, j: int|
                0 <= k < r@.len() && 0 <= j < 64 && 64 * k + j >= self@.len() ==> !(
                #[trigger] word_bit(r@[k], j)),
    {
        proof {
            assert forall|k: int, j: int|
                0 <= k < self.data@.len() && 0 <= j < 64 && 64 * k + j
                    < self@.len() implies #[trigger] word_bit(self.data@[k], j) == self@[64 * k
                + j] by {
                lemma_fundamental_div_mod_converse(64 * k + j, 64, k, j);
            }
        }
        &self.data
    }
}

/// Read-back law: appending `(value, width)` contributes exactly `width`
/// logical bits, and reading that region back MSB-first reconstructs
/// `value % 2^width`. Together with `push`'s postcondition this pins down
/// any sequence of appends: the total length is the sum of the widths, and
/// each region decodes to its value modulo `2^width`.
/// Region law: whatever bits a stream already holds, appending `(value,
/// width)` grows the logical length by exactly `width`, and reading the new
/// region back reconstructs `value % 2^width`.
pub proof fn lemma_push_region_read_back(prefix: Seq<bool>, value: u64, width: nat)
    requires
        width <= 64,
    ensures
        (prefix + bit_seq(value, width)).len() == prefix.len() + width,
        bits_value(
            (prefix + bit_seq(value, width)).subrange(
                prefix.len() as int,
                prefix.len() + width as int,
            ),
        ) == (value as nat) % pow2(width),
{
    assert((prefix + bit_seq(value, width)).subrange(
        prefix.len() as int,
        prefix.len() + width as int,
    ) =~= bit_seq(value, width));
    lemma_bit_seq_read_back(value, width);
}

pub proof fn lemma_bit_seq_read_back(value: u64, width: nat)
    requires
        width <= 64,
    ensures
        bit_seq(value, width).len() == width,
        bits_value(bit_seq(value, width)) == (value as nat) % pow2(width),
    decreases width,
{
    if width == 0 {
        lemma2_to64();
        assert(bit_seq(value, 0) =~= Seq::<bool>::empty());
    } else {
        let s = bit_seq(value, width);
        let half = value >> 1u64;
        lemma_bit_seq_read_back(half, (width - 1) as nat);
        assert(s.drop_last() =~= bit_seq(half, (width - 1) as nat)) by {
            assert forall|i: int| 0 <= i < width - 1 implies s[i] == bit_seq(
                half,
                (width - 1) as nat,
            )[i] by {
                let t = (width - 1 - i) as u64;
                assert(((value >> 1u64) >> ((t - 1) as u64)) & 1 == (value >> t) & 1)
                    by (bit_vector)
                    requires
                        1 <= t < 64,
                ;
            }
        }
        assert((value >> 0u64) & 1 == value % 2 && value >> 1u64 == value / 2) by (bit_vector);
        assert(s.last() == ((value >> 0u64) & 1 == 1));
        lemma_pow2_unfold(width);
        lemma_pow2_pos((width - 1) as nat);
        let p = pow2((width - 1) as nat) as int;
        let v = value as int;
        lemma_breakdown(v, 2, p);
        assert(v % (2 * p) == 2 * ((v / 2) % p) + v % 2);
        assert(half as int == v / 2);
        assert(bits_value(s.drop_last()) == (v / 2) % p);
        assert((if s.last() {
            1int
        } else {
            0int
        }) == v % 2);
        assert(bits_value(s) == v % (2 * p));
        assert(pow2(width) as int == 2 * p);
    }
}

} // verus!
