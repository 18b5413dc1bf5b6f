//! A packed array of fixed-width unsigned integers over 64-bit words.
//!
//! Entry `i` lives in word `i / epw` at bit offset `(i % epw) * bits`, where
//! `epw = 64 / bits`; no entry straddles a word boundary.

use vstd::prelude::*;
use vstd::arithmetic::div_mod::*;
use vstd::arithmetic::mul::*;
use vstd::arithmetic::power2::pow2;

use crate::codec::DecodeError;

verus! {

/// Entries that fit in one 64-bit word at width `bits`.
pub open spec fn entries_per_word(bits: nat) -> nat {
    64nat / bits
}

/// Number of backing words needed for `size` entries at width `bits`.
pub open spec fn word_count(bits: nat, size: nat) -> nat {
    if bits == 0 || bits > 32 {
        0
    } else {
        ((size + entries_per_word(bits) - 1) / (entries_per_word(bits) as int)) as nat
    }
}

/// Mask with the low `bits` bits set.
pub open spec fn low_mask(bits: nat) -> u64 {
    (((1u64 << (bits as u64)) - 1) as u64)
}

/// The entry at position `i` of a word sequence packed at width `bits`.
pub open spec fn entry_of(words: Seq<u64>, bits: nat, i: int) -> u64 {
    if bits == 0 || bits > 32 {
        0u64
    } else {
        let epw = entries_per_word(bits) as int;
        (words[i / epw] >> (((i % epw) * bits) as u64)) & low_mask(bits)
    }
}

/// An ordered sequence of `size` unsigned integers, each `bits_per_entry`
/// wide, packed into 64-bit words. A width of 0 carries no words at all and
/// every entry reads as 0.
#[derive(Clone, Debug)]
pub struct BitStorage {
    pub bits_per_entry: usize,
    pub data: Vec<u64>,
    pub size: usize,
}

impl View for BitStorage {
    type V = Seq<u64>;

    /// The storage as the sequence of its `size` entries.
    open spec fn view(&self) -> Seq<u64> {
        Seq::new(self.size as nat, |i: int| entry_of(self.data@, self.bits_per_entry as nat, i))
    }
}

impl BitStorage {
    /// Well-formed: a supported width and exactly the packed word count.
    pub open spec fn wf(self) -> bool {
        &&& self.bits_per_entry <= 32
        &&& self.size <= 0x1000_0000
        &&& self.data@.len() == word_count(self.bits_per_entry as nat, self.size as nat)
    }
}

/// The low-bits mask is one less than the corresponding power of two, and
/// fits in 32 bits for the widths the storage supports.
pub proof fn lemma_low_mask_pow2(bits: nat)
    requires
        bits <= 32,
    ensures
        low_mask(bits) as nat + 1 == pow2(bits),
        low_mask(bits) <= u32::MAX,
{
    vstd::bits::lemma_u64_pow2_no_overflow(bits);
    vstd::bits::lemma_u64_shl_is_mul(1u64, bits as u64);
    vstd::arithmetic::power2::lemma2_to64();
    if bits < 32 {
        vstd::arithmetic::power2::lemma_pow2_strictly_increases(bits, 32);
    }
}

/// Bounds used by every indexed access: the word index is in range and the
/// bit offset leaves room for a whole entry.
pub(crate) proof fn lemma_entry_bounds(bits: nat, size: nat, i: nat)
    requires
        1 <= bits <= 32,
        i < size,
        size <= 0x1000_0000,
    ensures
        1 <= entries_per_word(bits) <= 64,
        entries_per_word(bits) * bits <= 64,
        i % entries_per_word(bits) < entries_per_word(bits),
        (i % entries_per_word(bits)) * bits + bits <= 64,
        i / entries_per_word(bits) < word_count(bits, size),
        word_count(bits, size) <= size,
{
    let epw = entries_per_word(bits);
    lemma_div_is_ordered_by_denominator(64, bits as int, 32);
    lemma_div_is_ordered_by_denominator(64, 1, bits as int);
    lemma_fundamental_div_mod(64, bits as int);
    lemma_mod_division_less_than_divisor(64, bits as int);
    assert(epw * bits <= 64);
    lemma_mod_division_less_than_divisor(i as int, epw as int);
    assert(i % epw < epw);
    lemma_mul_inequality((i % epw) as int + 1, epw as int, bits as int);
    lemma_mul_is_distributive_add_other_way(bits as int, (i % epw) as int, 1);
    assert((i % epw) * bits + bits <= epw * bits);
    // word index bound
    lemma_div_is_ordered(i as int, size as int - 1, epw as int);
    lemma_div_plus_one(size as int - 1, epw as int);
    assert(word_count(bits, size) == (size - 1) / (epw as int) + 1);
    assert(i / epw <= (size - 1) as nat / epw);
    lemma_div_nonincreasing(size as int - 1, epw as int);
}

/// A zeroed word reads as zero at every offset.
proof fn lemma_zero_entry(words: Seq<u64>, bits: nat, i: int)
    requires
        forall|j: int| 0 <= j < words.len() ==> words[j] == 0u64,
        0 <= i,
        bits > 0 ==> i / (entries_per_word(bits) as int) < words.len(),
    ensures
        entry_of(words, bits, i) == 0u64,
{
    if bits == 0 || bits > 32 {
    } else {
        let epw = entries_per_word(bits) as int;
        lemma_div_is_ordered_by_denominator(64, bits as int, 32);
        assert(epw >= 1);
        lemma_div_pos_is_pos(i, epw);
        let sh = (((i % epw) * bits) as u64);
        let m = low_mask(bits);
        assert(words[i / epw] == 0u64);
        assert(((0u64 >> sh) & m) == 0u64) by (bit_vector);
    }
}

/// Writing `v` at offset `off` makes the slot at `off` read back `v`.
proof fn lemma_set_same(w: u64, v: u64, bits: u64, off: u64)
    by (bit_vector)
    requires
        1 <= bits <= 32,
        off + bits <= 64,
        v <= ((1u64 << bits) - 1) as u64,
    ensures
        (((w & !((((1u64 << bits) - 1) as u64) << off)) | (v << off)) >> off)
            & (((1u64 << bits) - 1) as u64) == v,
{
}

/// Writing at offset `off` leaves a disjoint slot at `off2` unchanged.
proof fn lemma_set_other(w: u64, v: u64, bits: u64, off: u64, off2: u64)
    by (bit_vector)
    requires
        1 <= bits <= 32,
        off + bits <= 64,
        off2 + bits <= 64,
        off + bits <= off2 || off2 + bits <= off,
        v <= ((1u64 << bits) - 1) as u64,
    ensures
        (((w & !((((1u64 << bits) - 1) as u64) << off)) | (v << off)) >> off2)
            & (((1u64 << bits) - 1) as u64)
            == (w >> off2) & (((1u64 << bits) - 1) as u64),
{
}

impl BitStorage {
    /// Build a storage of `size` entries at width `bits_per_entry`. With no
    /// word vector supplied, the exact packed word count is allocated zeroed;
    /// a supplied vector must already have that length.
    pub fn new(bits_per_entry: usize, size: usize, data: Option<Vec<u64>>) -> (r: Result<
        BitStorage,
        DecodeError,
    >)
        requires
            bits_per_entry <= 32,
            size <= 0x1000_0000,
        ensures
            match r {
                Ok(s) => {
                    &&& s.wf()
                    &&& s.bits_per_entry == bits_per_entry
                    &&& s.size == size
                    &&& match data {
                        Some(d) => s.data@ == d@,
                        None => s@ =~= Seq::new(size as nat, |i: int| 0u64),
                    }
                },
                Err(e) => {
                    &&& e == DecodeError::SizeMismatch
                    &&& match data {
                        Some(d) => d@.len() != word_count(bits_per_entry as nat, size as nat),
                        None => false,
                    }
                },
            },
            (match data {
                Some(d) => d@.len() == word_count(bits_per_entry as nat, size as nat),
                None => true,
            }) ==> r is Ok,
    {
        let word_cnt: usize = if bits_per_entry == 0 {
            0
        } else {
            let epw = 64usize / bits_per_entry;
            proof {
                lemma_div_is_ordered_by_denominator(64, bits_per_entry as int, 32);
                assert(epw >= 2);
            }
            (size + epw - 1) / epw
        };
        assert(word_cnt == word_count(bits_per_entry as nat, size as nat));
        match data {
            Some(d) => {
                if d.len() == word_cnt {
                    Ok(BitStorage { bits_per_entry, data: d, size })
                } else {
                    Err(DecodeError::SizeMismatch)
                }
            },
            None => {
                let mut words: Vec<u64> = Vec::new();
                let mut k: usize = 0;
                while k < word_cnt
                    invariant
                        k <= word_cnt,
                        words@.len() == k,
                        forall|j: int| 0 <= j < k ==> words@[j] == 0u64,
                    decreases word_cnt - k,
                {
                    words.push(0);
                    k = k + 1;
                }
                let s = BitStorage { bits_per_entry, data: words, size };
                proof {
                    assert forall|i: int| 0 <= i < size implies s@[i] == 0u64 by {
                        if bits_per_entry > 0 {
                            lemma_entry_bounds(
                                bits_per_entry as nat,
                                size as nat,
                                i as nat,
                            );
                        }
                        lemma_zero_entry(s.data@, bits_per_entry as nat, i);
                    }
                }
                Ok(s)
            },
        }
    }

    /// The fixed entry count.
    pub fn size(&self) -> (r: usize)
        ensures
            r == self.size,
    {
        self.size
    }

    /// Read the entry at `index`. Always 0 when the width is 0.
    pub fn get(&self, index: usize) -> (r: u64)
        requires
            self.wf(),
            index < self.size,
        ensures
            r == self@[index as int],
            r <= low_mask(self.bits_per_entry as nat),
    {
        if self.bits_per_entry == 0 {
            proof {
                assert(((1u64 << 0u64) - 1) as u64 == 0u64) by (bit_vector);
            }
            return 0;
        }
        proof {
            lemma_entry_bounds(self.bits_per_entry as nat, self.size as nat, index as nat);
        }
        let epw = 64usize / self.bits_per_entry;
        let wi = index / epw;
        let off = (index % epw) * self.bits_per_entry;
        let b = self.bits_per_entry as u64;
        proof {
            assert((1u64 << b) >= 1) by (bit_vector)
                requires
                    b <= 32u64,
            ;
        }
        let mask = ((1u64 << b) - 1) as u64;
        let w = self.data[wi];
        let r = (w >> (off as u64)) & mask;
        proof {
            let offv = off as u64;
            assert((w >> offv) & mask <= mask) by (bit_vector);
        }
        r
    }

    /// Write `value` (which must fit the width) at `index`.
    pub fn set(&mut self, index: usize, value: u64)
        requires
            old(self).wf(),
            index < old(self).size,
            value <= low_mask(old(self).bits_per_entry as nat),
        ensures
            final(self).wf(),
            final(self).bits_per_entry == old(self).bits_per_entry,
            final(self).size == old(self).size,
            final(self).data@.len() == old(self).data@.len(),
            final(self)@ =~= old(self)@.update(index as int, value),
    {
        if self.bits_per_entry == 0 {
            proof {
                assert(((1u64 << 0u64) - 1) as u64 == 0u64) by (bit_vector);
                assert(old(self)@ =~= old(self)@.update(index as int, value));
            }
            return ;
        }
        proof {
            lemma_entry_bounds(self.bits_per_entry as nat, self.size as nat, index as nat);
        }
        let ghost pre = *self;
        let epw = 64usize / self.bits_per_entry;
        let wi = index / epw;
        let off = (index % epw) * self.bits_per_entry;
        let b = self.bits_per_entry as u64;
        proof {
            assert((1u64 << b) >= 1) by (bit_vector)
                requires
                    b <= 32u64,
            ;
        }
        let mask = ((1u64 << b) - 1) as u64;
        let w = self.data[wi];
        let nw = (w & !(mask << (off as u64))) | (value << (off as u64));
        self.data[wi] = nw;
        proof {
            let bits = pre.bits_per_entry as nat;
            let epwi = entries_per_word(bits) as int;
            lemma_set_same(w, value, b, off as u64);
            assert(entry_of(self.data@, bits, index as int) == value);
            assert forall|j: int|
                0 <= j < self.size && j != index as int implies entry_of(
                self.data@,
                bits,
                j,
            ) == entry_of(pre.data@, bits, j) by {
                lemma_entry_bounds(bits, pre.size as nat, j as nat);
                if j / epwi != wi as int {
                    assert(self.data@[j / epwi] == pre.data@[j / epwi]);
                } else {
                    let sj = j % epwi;
                    let si = index as int % epwi;
                    lemma_fundamental_div_mod(j, epwi);
                    lemma_fundamental_div_mod(index as int, epwi);
                    assert(sj != si);
                    if sj < si {
                        lemma_mul_inequality(sj + 1, si, bits as int);
                        lemma_mul_is_distributive_add_other_way(bits as int, sj, 1);
                        assert(sj * bits + bits <= si * bits);
                    } else {
                        lemma_mul_inequality(si + 1, sj, bits as int);
                        lemma_mul_is_distributive_add_other_way(bits as int, si, 1);
                        assert(si * bits + bits <= sj * bits);
                    }
                    lemma_set_other(w, value, b, (si * bits) as u64, (sj * bits) as u64);
                }
            }
            assert(self@ =~= pre@.update(index as int, value));
        }
    }

    /// Return the entry at `index`, then overwrite it with `value`.
    pub fn get_and_set(&mut self, index: usize, value: u64) -> (r: u64)
        requires
            old(self).wf(),
            index < old(self).size,
            value <= low_mask(old(self).bits_per_entry as nat),
        ensures
            final(self).wf(),
            final(self).bits_per_entry == old(self).bits_per_entry,
            final(self).size == old(self).size,
            final(self).data@.len() == old(self).data@.len(),
            final(self)@ =~= old(self)@.update(index as int, value),
            r == old(self)@[index as int],
    {
        let prev = self.get(index);
        self.set(index, value);
        prev
    }
}

} // verus!
