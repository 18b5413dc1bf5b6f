//! The paletted container: a `BitStorage`, a `Palette` and a container type,
//! kept consistent by the palette-kind transition table, with adaptive growth
//! and the wire-format codec.

use vstd::prelude::*;
use vstd::arithmetic::power2::*;
use vstd::bits::*;

use crate::bit_storage::{
    entry_of, lemma_entry_bounds, lemma_low_mask_pow2, word_count, BitStorage,
};
use crate::codec::{
    lemma_word_vec_round_trip, read_word_vec, words_decode, words_encode, write_word_vec,
    DecodeError,
};
use crate::palette::{
    kind_of, lemma_pal_round_trip, pal_decode, pal_encode, spec_kind, value_of, Palette,
    PaletteAbs, PaletteKind, PalettedContainerType,
};

verus! {

/// `value` is representable in `bits` bits.
pub open spec fn fits(value: u32, bits: nat) -> bool {
    (value as nat) < pow2(bits)
}

/// Mathematical shape of a whole container: everything the wire carries.
#[verifier::ext_equal]
pub struct ContainerAbs {
    pub bits: u8,
    pub palette: PaletteAbs,
    pub words: Seq<u64>,
}

/// A section of cells addressed by (x, y, z), stored as palette ids packed
/// into a `BitStorage` and resolved through a `Palette`.
#[derive(Clone, Debug)]
pub struct PalettedContainer {
    pub bits_per_entry: u8,
    /// Dictionary from storage ids to domain values.
    pub palette: Palette,
    /// Compacted list of indices pointing to entries of the palette.
    pub storage: BitStorage,
    pub container_type: PalettedContainerType,
}

impl PalettedContainer {
    /// Everything the wire format carries.
    pub open spec fn abs(self) -> ContainerAbs {
        ContainerAbs {
            bits: self.bits_per_entry,
            palette: self.palette.abs(),
            words: self.storage.data@,
        }
    }

    /// The cell values of the whole section, resolved through the palette.
    pub open spec fn values(self) -> Seq<u32> {
        Seq::new(
            self.container_type.spec_size(),
            |i: int|
                value_of(
                    self.palette.abs(),
                    entry_of(self.storage.data@, self.bits_per_entry as nat, i),
                ),
        )
    }

    /// Structural well-formedness: sizes and widths agree and the palette
    /// kind matches the transition table.
    pub open spec fn wf(self) -> bool {
        &&& self.bits_per_entry <= 32
        &&& self.storage.wf()
        &&& self.storage.bits_per_entry == self.bits_per_entry as usize
        &&& self.storage.size == self.container_type.spec_size()
        &&& kind_of(self.palette.abs()) == spec_kind(self.bits_per_entry, self.container_type)
    }

    /// The palette never exceeds the capacity of the current bit width.
    pub open spec fn pal_len_ok(self) -> bool {
        match self.palette.abs() {
            PaletteAbs::Linear(p) => p.len() <= pow2(self.bits_per_entry as nat),
            PaletteAbs::Hashmap(p) => p.len() <= pow2(self.bits_per_entry as nat),
            _ => true,
        }
    }

    /// The palette holds no value twice.
    pub open spec fn no_dup(self) -> bool {
        match self.palette.abs() {
            PaletteAbs::Linear(p) => p.no_duplicates(),
            PaletteAbs::Hashmap(p) => p.no_duplicates(),
            _ => true,
        }
    }

    /// Every id stored in the bit storage indexes into the palette.
    pub open spec fn entries_ok(self) -> bool {
        match self.palette.abs() {
            PaletteAbs::Linear(p) => forall|i: int|
                0 <= i < self.storage@.len() ==> (#[trigger] self.storage@[i]) < p.len(),
            PaletteAbs::Hashmap(p) => forall|i: int|
                0 <= i < self.storage@.len() ==> (#[trigger] self.storage@[i]) < p.len(),
            _ => true,
        }
    }

    /// Full invariant, preserved by every public operation.
    pub open spec fn inv(self) -> bool {
        &&& self.wf()
        &&& self.pal_len_ok()
        &&& self.no_dup()
        &&& self.entries_ok()
    }

    /// Writing `value` will not lose information: it either already has a
    /// palette id, or there is room for it, or the width it forces still
    /// represents every value exactly.
    pub open spec fn can_store(self, value: u32) -> bool {
        match self.palette.abs() {
            PaletteAbs::SingleValue(_) => true,
            PaletteAbs::Linear(p) => p.contains(value) || p.len() < pow2(
                self.bits_per_entry as nat,
            ) || spec_kind((self.bits_per_entry + 1) as u8, self.container_type)
                != PaletteKind::Global || (fits(value, self.bits_per_entry as nat + 1) && forall|
                k: int,
            |
                0 <= k < p.len() ==> fits(#[trigger] p[k], self.bits_per_entry as nat + 1)),
            PaletteAbs::Hashmap(p) => p.contains(value) || p.len() < pow2(
                self.bits_per_entry as nat,
            ) || spec_kind((self.bits_per_entry + 1) as u8, self.container_type)
                != PaletteKind::Global || (fits(value, self.bits_per_entry as nat + 1) && forall|
                k: int,
            |
                0 <= k < p.len() ==> fits(#[trigger] p[k], self.bits_per_entry as nat + 1)),
            PaletteAbs::Global => fits(value, self.bits_per_entry as nat),
        }
    }

    /// Writing `value` resolves inside the current palette without growing
    /// the bit width.
    pub open spec fn no_growth_for(self, value: u32) -> bool {
        match self.palette.abs() {
            PaletteAbs::SingleValue(v) => v == value,
            PaletteAbs::Linear(p) => p.contains(value) || p.len() < pow2(
                self.bits_per_entry as nat,
            ),
            PaletteAbs::Hashmap(p) => p.contains(value) || p.len() < pow2(
                self.bits_per_entry as nat,
            ),
            PaletteAbs::Global => true,
        }
    }
}

/// `b` is `a`, possibly with `value` appended.
pub open spec fn pal_extends_with(a: PaletteAbs, b: PaletteAbs, value: u32) -> bool {
    match (a, b) {
        (PaletteAbs::Linear(p), PaletteAbs::Linear(q)) => q == p || q == p.push(value),
        (PaletteAbs::Hashmap(p), PaletteAbs::Hashmap(q)) => q == p || q == p.push(value),
        _ => a == b,
    }
}

/// A re-pack source is usable: a non-global palette without duplicates that
/// still has room at the target width, and a storage whose ids it covers.
pub open spec fn src_ok(palette: PaletteAbs, entries: Seq<u64>, target_bits: nat) -> bool {
    match palette {
        PaletteAbs::SingleValue(_) => true,
        PaletteAbs::Linear(p) => p.no_duplicates() && p.len() < pow2(target_bits) && (forall|
            i: int,
        | 0 <= i < entries.len() ==> (#[trigger] entries[i]) < p.len()),
        PaletteAbs::Hashmap(p) => p.no_duplicates() && p.len() < pow2(target_bits) && (forall|
            i: int,
        | 0 <= i < entries.len() ==> (#[trigger] entries[i]) < p.len()),
        PaletteAbs::Global => false,
    }
}

/// Every value the palette can produce fits in `bits` bits.
pub open spec fn src_fits(palette: PaletteAbs, bits: nat) -> bool {
    match palette {
        PaletteAbs::SingleValue(v) => fits(v, bits),
        PaletteAbs::Linear(p) => forall|k: int| 0 <= k < p.len() ==> fits(#[trigger] p[k], bits),
        PaletteAbs::Hashmap(p) => forall|k: int| 0 <= k < p.len() ==> fits(#[trigger] p[k], bits),
        PaletteAbs::Global => true,
    }
}

/// The source palette resolves some id to `v`.
pub open spec fn src_has_value(palette: PaletteAbs, v: u32) -> bool {
    match palette {
        PaletteAbs::SingleValue(s) => v == s,
        PaletteAbs::Linear(p) => p.contains(v),
        PaletteAbs::Hashmap(p) => p.contains(v),
        PaletteAbs::Global => true,
    }
}

/// Appending a fresh value keeps a sequence duplicate-free.
proof fn lemma_push_distinct(p: Seq<u32>, v: u32)
    requires
        p.no_duplicates(),
        !p.contains(v),
    ensures
        p.push(v).no_duplicates(),
{
    let q = p.push(v);
    assert forall|i: int, j: int|
        0 <= i < q.len() && 0 <= j < q.len() && i != j implies q[i] != q[j] by {
        if i < p.len() && j < p.len() {
        } else if i == p.len() && j < p.len() {
            assert(0 <= j < p.len() && p[j] == p[j]);
            assert(p.contains(p[j]));
        } else if j == p.len() && i < p.len() {
            assert(0 <= i < p.len() && p[i] == p[i]);
            assert(p.contains(p[i]));
        }
    }
}

/// Two containers with equal wire content and type agree on everything the
/// contracts speak about.
pub proof fn lemma_abs_determines(c1: PalettedContainer, c2: PalettedContainer)
    requires
        c1.abs() == c2.abs(),
        c1.container_type == c2.container_type,
        c1.wf(),
        c2.wf(),
    ensures
        c1.values() == c2.values(),
        c1.inv() <==> c2.inv(),
{
    assert(c1.values() =~= c2.values());
    assert(c1.storage@ =~= c2.storage@);
}

/// First index of `value` in `vec`, if any.
fn find_index(vec: &Vec<u32>, value: u32) -> (r: Option<usize>)
    ensures
        match r {
            Some(i) => i < vec@.len() && vec@[i as int] == value,
            None => !vec@.contains(value),
        },
{
    let mut i: usize = 0;
    while i < vec.len()
        invariant
            i <= vec@.len(),
            forall|j: int| 0 <= j < i ==> vec@[j] != value,
        decreases vec@.len() - i,
    {
        if vec[i] == value {
            return Some(i);
        }
        i = i + 1;
    }
    None
}

/// A sequence with distinct elements all drawn from `p` is no longer than `p`.
proof fn lemma_subset_len(q: Seq<u32>, p: Seq<u32>)
    requires
        q.no_duplicates(),
        forall|k: int| 0 <= k < q.len() ==> p.contains(#[trigger] q[k]),
    ensures
        q.len() <= p.len(),
{
    broadcast use vstd::seq_lib::seq_to_set_is_finite;

    q.unique_seq_to_set();
    p.lemma_cardinality_of_set();
    assert forall|x: u32| q.to_set().contains(x) implies p.to_set().contains(x) by {
        assert(q.contains(x));
        let k = choose|k: int| 0 <= k < q.len() && q[k] == x;
        assert(p.contains(q[k]));
    }
    assert(q.to_set().subset_of(p.to_set()));
    vstd::set_lib::lemma_len_subset(q.to_set(), p.to_set());
}

impl PalettedContainer {
    /// A fresh container: a single-value palette of 0 and a zero-width
    /// storage, so every cell reads 0.
    pub fn new(container_type: &PalettedContainerType) -> (r: Result<Self, String>)
        ensures
            r is Ok,
            r matches Ok(c) ==> {
                &&& c.inv()
                &&& c.container_type == *container_type
                &&& c.bits_per_entry == 0
                &&& c.palette.abs() == PaletteAbs::SingleValue(0u32)
                &&& c.storage.data@ == Seq::<u64>::empty()
                &&& c.values() == Seq::new(container_type.spec_size(), |i: int| 0u32)
            },
    {
        let palette = Palette::SingleValue(0);
        let size = container_type.size();
        let storage = match BitStorage::new(0, size, Some(Vec::new())) {
            Ok(s) => s,
            Err(_) => {
                return vstd::pervasive::unreached();
            },
        };
        let c = PalettedContainer {
            bits_per_entry: 0,
            palette,
            storage,
            container_type: *container_type,
        };
        proof {
            assert(c.storage.data@ =~= Seq::<u64>::empty());
            assert(c.values() =~= Seq::new(container_type.spec_size(), |i: int| 0u32));
        }
        Ok(c)
    }

    /// The linear cell index of coordinates (x, y, z): YZX order.
    pub open spec fn spec_index_of(ct: PalettedContainerType, x: nat, y: nat, z: nat) -> nat {
        (y * ct.spec_edge() + z) * ct.spec_edge() + x
    }

    /// The coordinates packed into a linear index, in (x, y, z) order.
    pub open spec fn spec_coords_of(ct: PalettedContainerType, index: nat) -> (nat, nat, nat) {
        (
            index % ct.spec_edge(),
            (index / (ct.spec_edge() * ct.spec_edge())) % ct.spec_edge(),
            (index / ct.spec_edge()) % ct.spec_edge(),
        )
    }

    /// Calculates the linear index of the given coordinates.
    pub fn index_from_coords(&self, x: usize, y: usize, z: usize) -> (r: usize)
        requires
            x < self.container_type.spec_edge(),
            y < self.container_type.spec_edge(),
            z < self.container_type.spec_edge(),
        ensures
            r == Self::spec_index_of(self.container_type, x as nat, y as nat, z as nat),
            r < self.container_type.spec_size(),
    {
        let size_bits = self.container_type.size_bits();
        let r = (((y << size_bits) | z) << size_bits) | x;
        proof {
            let xv = x as u64;
            let yv = y as u64;
            let zv = z as u64;
            match self.container_type {
                PalettedContainerType::BlockStates => {
                    assert((((yv << 4u64) | zv) << 4u64) | xv == (yv * 16 + zv) * 16 + xv
                        && (yv * 16 + zv) * 16 + xv < 4096) by (bit_vector)
                        requires
                            xv < 16u64 && yv < 16u64 && zv < 16u64,
                    ;
                    assert((((y as usize) << 4usize) | (z as usize)) << 4usize | (x as usize)
                        == ((((yv << 4u64) | zv) << 4u64) | xv) as usize) by (bit_vector)
                        requires
                            xv == x as u64 && yv == y as u64 && zv == z as u64 && xv < 16u64 && yv
                                < 16u64 && zv < 16u64 && x < 16usize && y < 16usize && z < 16usize,
                    ;
                },
                PalettedContainerType::Biomes => {
                    assert((((yv << 2u64) | zv) << 2u64) | xv == (yv * 4 + zv) * 4 + xv && (yv * 4
                        + zv) * 4 + xv < 64) by (bit_vector)
                        requires
                            xv < 4u64 && yv < 4u64 && zv < 4u64,
                    ;
                    assert((((y as usize) << 2usize) | (z as usize)) << 2usize | (x as usize)
                        == ((((yv << 2u64) | zv) << 2u64) | xv) as usize) by (bit_vector)
                        requires
                            xv == x as u64 && yv == y as u64 && zv == z as u64 && xv < 4u64 && yv
                                < 4u64 && zv < 4u64 && x < 4usize && y < 4usize && z < 4usize,
                    ;
                },
            }
        }
        r
    }

    /// Recovers (x, y, z) from a linear index.
    pub fn coords_from_index(&self, index: usize) -> (r: (usize, usize, usize))
        requires
            index < self.container_type.spec_size(),
        ensures
            (r.0 as nat, r.1 as nat, r.2 as nat) == Self::spec_coords_of(
                self.container_type,
                index as nat,
            ),
    {
        let size_bits = self.container_type.size_bits();
        proof {
            assert((1usize << 4usize) == 16usize && (1usize << 2usize) == 4usize) by (bit_vector);
        }
        let mask = (1usize << size_bits) - 1;
        let r = (index & mask, (index >> size_bits >> size_bits) & mask, (index >> size_bits)
            & mask);
        proof {
            let iv = index as u64;
            match self.container_type {
                PalettedContainerType::BlockStates => {
                    assert((1usize << 4usize) - 1 == 15usize) by (bit_vector);
                    assert(iv & 15 == iv % 16 && ((iv >> 4u64) >> 4u64) & 15 == (iv / 256) % 16 && (
                    iv >> 4u64) & 15 == (iv / 16) % 16) by (bit_vector)
                        requires
                            iv < 4096u64,
                    ;
                    assert((index & 15usize) as u64 == iv & 15 && ((index >> 4usize >> 4usize)
                        & 15usize) as u64 == ((iv >> 4u64) >> 4u64) & 15 && ((index >> 4usize)
                        & 15usize) as u64 == (iv >> 4u64) & 15) by (bit_vector)
                        requires
                            iv == index as u64 && index < 4096usize,
                    ;
                },
                PalettedContainerType::Biomes => {
                    assert((1usize << 2usize) - 1 == 3usize) by (bit_vector);
                    assert(iv & 3 == iv % 4 && ((iv >> 2u64) >> 2u64) & 3 == (iv / 16) % 4 && (iv
                        >> 2u64) & 3 == (iv / 4) % 4) by (bit_vector)
                        requires
                            iv < 64u64,
                    ;
                    assert((index & 3usize) as u64 == iv & 3 && ((index >> 2usize >> 2usize)
                        & 3usize) as u64 == ((iv >> 2u64) >> 2u64) & 3 && ((index >> 2usize)
                        & 3usize) as u64 == (iv >> 2u64) & 3) by (bit_vector)
                        requires
                            iv == index as u64 && index < 64usize,
                    ;
                },
            }
        }
        r
    }

    /// Returns the value at the given index. The index must be within the
    /// section.
    pub fn get_at_index(&self, index: usize) -> (r: u32)
        requires
            self.wf(),
            index < self.container_type.spec_size(),
        ensures
            r == self.values()[index as int],
    {
        proof {
            lemma_low_mask_pow2(self.bits_per_entry as nat);
        }
        let paletted_value = self.storage.get(index);
        self.palette.value_for(paletted_value as usize)
    }

    /// Returns the value at the given coordinates.
    pub fn get(&self, x: usize, y: usize, z: usize) -> (r: u32)
        requires
            self.wf(),
            x < self.container_type.spec_edge(),
            y < self.container_type.spec_edge(),
            z < self.container_type.spec_edge(),
        ensures
            r == self.values()[Self::spec_index_of(
                self.container_type,
                x as nat,
                y as nat,
                z as nat,
            ) as int],
    {
        self.get_at_index(self.index_from_coords(x, y, z))
    }
}

impl PalettedContainer {
    /// The palette id that will stand for `value` in storage, growing the
    /// palette — and if need be the whole container — to make room for it.
    pub fn id_for(&mut self, value: u32) -> (id: usize)
        requires
            old(self).wf(),
            old(self).pal_len_ok(),
            old(self).no_dup(),
            old(self).can_store(value),
            old(self).no_growth_for(value) || old(self).entries_ok(),
        ensures
            final(self).wf(),
            final(self).pal_len_ok(),
            final(self).no_dup(),
            final(self).container_type == old(self).container_type,
            final(self).bits_per_entry >= old(self).bits_per_entry,
            old(self).entries_ok() ==> ({
                &&& final(self).entries_ok()
                &&& final(self).values() == old(self).values()
            }),
            id <= u32::MAX,
            (id as nat) < pow2(final(self).bits_per_entry as nat),
            value_of(final(self).palette.abs(), id as u64) == value,
            (match final(self).palette.abs() {
                PaletteAbs::Linear(q) => (id as int) < q.len(),
                PaletteAbs::Hashmap(q) => (id as int) < q.len(),
                PaletteAbs::SingleValue(_) => id == 0,
                PaletteAbs::Global => true,
            }),
            old(self).no_growth_for(value) ==> ({
                &&& final(self).bits_per_entry == old(self).bits_per_entry
                &&& final(self).storage.data@ == old(self).storage.data@
                &&& final(self).storage.bits_per_entry == old(self).storage.bits_per_entry
                &&& final(self).storage.size == old(self).storage.size
                &&& pal_extends_with(old(self).palette.abs(), final(self).palette.abs(), value)
            }),
            (match old(self).palette.abs() {
                PaletteAbs::SingleValue(v) => (v == value ==> final(self).abs() == old(self).abs()
                    && id == 0) && (v != value ==> final(self).bits_per_entry == 1),
                PaletteAbs::Linear(p) => (!p.contains(value) && p.len() >= pow2(
                    old(self).bits_per_entry as nat,
                )) ==> final(self).bits_per_entry == old(self).bits_per_entry + 1,
                PaletteAbs::Hashmap(p) => (!p.contains(value) && p.len() >= pow2(
                    old(self).bits_per_entry as nat,
                )) ==> final(self).bits_per_entry == old(self).bits_per_entry + 1,
                PaletteAbs::Global => final(self).abs() == old(self).abs() && id == value as usize,
            }),
        decreases 32 - old(self).bits_per_entry, 1int,
    {
        proof {
            lemma2_to64();
        }
        match &self.palette {
            Palette::SingleValue(cur) => {
                let c = *cur;
                if c != value {
                    proof {
                        assert(spec_kind(1u8, self.container_type) == PaletteKind::Linear);
                    }
                    self.on_resize(1, value)
                } else {
                    0
                }
            },
            Palette::Global => {
                proof {
                    lemma_low_mask_pow2(self.bits_per_entry as nat);
                }
                value as usize
            },
            Palette::Linear(_) => self.id_for_in_vec(value),
            Palette::Hashmap(_) => self.id_for_in_vec(value),
        }
    }

    /// `id_for` in the `Linear` and `Hashmap` regimes: scan, append, or grow.
    fn id_for_in_vec(&mut self, value: u32) -> (id: usize)
        requires
            old(self).wf(),
            old(self).pal_len_ok(),
            old(self).no_dup(),
            old(self).can_store(value),
            old(self).no_growth_for(value) || old(self).entries_ok(),
            old(self).palette.abs() is Linear || old(self).palette.abs() is Hashmap,
        ensures
            final(self).wf(),
            final(self).pal_len_ok(),
            final(self).no_dup(),
            final(self).container_type == old(self).container_type,
            final(self).bits_per_entry >= old(self).bits_per_entry,
            old(self).entries_ok() ==> ({
                &&& final(self).entries_ok()
                &&& final(self).values() == old(self).values()
            }),
            id <= u32::MAX,
            (id as nat) < pow2(final(self).bits_per_entry as nat),
            value_of(final(self).palette.abs(), id as u64) == value,
            (match final(self).palette.abs() {
                PaletteAbs::Linear(q) => (id as int) < q.len(),
                PaletteAbs::Hashmap(q) => (id as int) < q.len(),
                PaletteAbs::SingleValue(_) => id == 0,
                PaletteAbs::Global => true,
            }),
            old(self).no_growth_for(value) ==> ({
                &&& final(self).bits_per_entry == old(self).bits_per_entry
                &&& final(self).storage.data@ == old(self).storage.data@
                &&& final(self).storage.bits_per_entry == old(self).storage.bits_per_entry
                &&& final(self).storage.size == old(self).storage.size
                &&& pal_extends_with(old(self).palette.abs(), final(self).palette.abs(), value)
            }),
            (match old(self).palette.abs() {
                PaletteAbs::Linear(p) => (!p.contains(value) && p.len() >= pow2(
                    old(self).bits_per_entry as nat,
                )) ==> final(self).bits_per_entry == old(self).bits_per_entry + 1,
                PaletteAbs::Hashmap(p) => (!p.contains(value) && p.len() >= pow2(
                    old(self).bits_per_entry as nat,
                )) ==> final(self).bits_per_entry == old(self).bits_per_entry + 1,
                _ => true,
            }),
        decreases 32 - old(self).bits_per_entry, 0int,
    {
        let ghost pre = *self;
        proof {
            lemma2_to64();
            assert(pre.bits_per_entry <= 8);
            if (pre.bits_per_entry as nat) < 8 {
                lemma_pow2_strictly_increases(pre.bits_per_entry as nat, 8);
            }
        }
        let found = match &self.palette {
            Palette::Linear(p) => find_index(p, value),
            Palette::Hashmap(p) => find_index(p, value),
            _ => None,
        };
        match found {
            Some(i) => {
                proof {
                    lemma2_to64();
                }
                i
            },
            None => {
                let bits = self.bits_per_entry;
                proof {
                    assert(bits <= 8);
                    lemma_usize_pow2_no_overflow(bits as nat);
                    lemma_usize_shl_is_mul(1usize, bits as usize);
                }
                let cap = 1usize << (bits as usize);
                let len = match &self.palette {
                    Palette::Linear(p) => p.len(),
                    Palette::Hashmap(p) => p.len(),
                    _ => 0,
                };
                if cap > len {
                    match &mut self.palette {
                        Palette::Linear(p) => {
                            let ghost pp = p@;
                            p.push(value);
                            let id = p.len() - 1;
                            proof {
                                lemma_push_distinct(pp, value);
                                assert(self.palette.abs() == PaletteAbs::Linear(pp.push(value)));
                                if pre.entries_ok() {
                                    assert forall|j: int| 0 <= j < pre.values().len() implies self.values()[j] == pre.values()[j] by {
                                        assert(pre.storage@[j] == entry_of(pre.storage.data@, pre.storage.bits_per_entry as nat, j));
                                        assert(pre.storage@[j] < pp.len());
                                    }
                                    assert(self.values() =~= pre.values());
                                }
                            }
                            id
                        },
                        Palette::Hashmap(p) => {
                            let ghost pp = p@;
                            p.push(value);
                            let id = p.len() - 1;
                            proof {
                                lemma_push_distinct(pp, value);
                                assert(self.palette.abs() == PaletteAbs::Hashmap(pp.push(value)));
                                if pre.entries_ok() {
                                    assert forall|j: int| 0 <= j < pre.values().len() implies self.values()[j] == pre.values()[j] by {
                                        assert(pre.storage@[j] == entry_of(pre.storage.data@, pre.storage.bits_per_entry as nat, j));
                                        assert(pre.storage@[j] < pp.len());
                                    }
                                    assert(self.values() =~= pre.values());
                                }
                            }
                            id
                        },
                        _ => vstd::pervasive::unreached(),
                    }
                } else {
                    proof {
                        lemma_pow2_strictly_increases(bits as nat, bits as nat + 1);
                    }
                    self.on_resize(bits + 1, value)
                }
            },
        }
    }

    /// A fresh container at the given width: the empty palette of the kind
    /// the table selects, over zeroed storage.
    fn create_or_reuse_data(&self, bits_per_entry: u8) -> (r: PalettedContainer)
        requires
            self.wf(),
            1 <= bits_per_entry <= 32,
        ensures
            r.wf(),
            r.bits_per_entry == bits_per_entry,
            r.container_type == self.container_type,
            r.palette.abs() == (match spec_kind(bits_per_entry, self.container_type) {
                PaletteKind::SingleValue => PaletteAbs::SingleValue(0u32),
                PaletteKind::Linear => PaletteAbs::Linear(Seq::<u32>::empty()),
                PaletteKind::Hashmap => PaletteAbs::Hashmap(Seq::<u32>::empty()),
                PaletteKind::Global => PaletteAbs::Global,
            }),
            r.storage@ == Seq::new(self.container_type.spec_size(), |i: int| 0u64),
    {
        let new_palette_type = PaletteKind::from_bits_and_type(bits_per_entry, &self.container_type);
        let storage = match BitStorage::new(bits_per_entry as usize, self.container_type.size(), None) {
            Ok(s) => s,
            Err(_) => {
                return vstd::pervasive::unreached();
            },
        };
        let palette = new_palette_type.as_empty_palette();
        PalettedContainer { bits_per_entry, palette, storage, container_type: self.container_type }
    }

    /// Grow to `bits_per_entry`, re-pack every cell, then resolve `value` in
    /// the grown container.
    fn on_resize(&mut self, bits_per_entry: u8, value: u32) -> (id: usize)
        requires
            old(self).inv(),
            1 <= bits_per_entry <= 32,
            !(old(self).palette.abs() is Global),
            (match old(self).palette.abs() {
                PaletteAbs::SingleValue(_) => true,
                PaletteAbs::Linear(p) => p.len() < pow2(bits_per_entry as nat),
                PaletteAbs::Hashmap(p) => p.len() < pow2(bits_per_entry as nat),
                PaletteAbs::Global => false,
            }),
            spec_kind(bits_per_entry, old(self).container_type) == PaletteKind::Global ==> fits(
                value,
                bits_per_entry as nat,
            ) && src_fits(old(self).palette.abs(), bits_per_entry as nat),
        ensures
            final(self).inv(),
            final(self).container_type == old(self).container_type,
            final(self).bits_per_entry == bits_per_entry,
            final(self).values() == old(self).values(),
            id <= u32::MAX,
            (id as nat) < pow2(bits_per_entry as nat),
            value_of(final(self).palette.abs(), id as u64) == value,
            (match final(self).palette.abs() {
                PaletteAbs::Linear(q) => (id as int) < q.len(),
                PaletteAbs::Hashmap(q) => (id as int) < q.len(),
                PaletteAbs::SingleValue(_) => id == 0,
                PaletteAbs::Global => true,
            }),
        decreases 32 - bits_per_entry, 3int,
    {
        let ghost pre = *self;
        let mut new_data = self.create_or_reuse_data(bits_per_entry);
        new_data.copy_from(&self.palette, &self.storage);
        proof {
            assert(new_data.values() =~= pre.values());
        }
        *self = new_data;
        let ghost mid = *self;
        let id = self.id_for(value);
        proof {
            assert(mid.no_growth_for(value));
            assert(self.values() =~= pre.values());
        }
        id
    }

    /// Re-encode every cell of `storage`, resolved through `palette`, into
    /// this freshly created container.
    #[verifier::loop_isolation(false)]
    fn copy_from(&mut self, palette: &Palette, storage: &BitStorage)
        requires
            old(self).wf(),
            1 <= old(self).bits_per_entry,
            (match old(self).palette.abs() {
                PaletteAbs::Linear(p) => p.len() == 0,
                PaletteAbs::Hashmap(p) => p.len() == 0,
                PaletteAbs::Global => true,
                PaletteAbs::SingleValue(_) => false,
            }),
            old(self).storage@ == Seq::new(
                old(self).container_type.spec_size(),
                |i: int| 0u64,
            ),
            storage.wf(),
            storage.size == old(self).container_type.spec_size(),
            src_ok(palette.abs(), storage@, old(self).bits_per_entry as nat),
            old(self).palette.abs() is Global ==> src_fits(
                palette.abs(),
                old(self).bits_per_entry as nat,
            ),
        ensures
            final(self).inv(),
            final(self).container_type == old(self).container_type,
            final(self).bits_per_entry == old(self).bits_per_entry,
            final(self).values() == Seq::new(
                storage.size as nat,
                |i: int| value_of(palette.abs(), storage@[i]),
            ),
            (match final(self).palette.abs() {
                PaletteAbs::Linear(q) => q.len() < pow2(old(self).bits_per_entry as nat),
                PaletteAbs::Hashmap(q) => q.len() < pow2(old(self).bits_per_entry as nat),
                _ => true,
            }),
        decreases 32 - old(self).bits_per_entry, 2int,
    {
        let ghost tb = old(self).bits_per_entry as nat;
        let ghost ct = old(self).container_type;
        let n = storage.size();
        let mut i: usize = 0;
        while i < n
            invariant
                self.wf(),
                self.pal_len_ok(),
                self.no_dup(),
                self.container_type == ct,
                self.bits_per_entry as nat == tb,
                1 <= tb <= 32,
                i <= n,
                n == storage.size,
                n == ct.spec_size(),
                storage.wf(),
                src_ok(palette.abs(), storage@, tb),
                self.palette.abs() is Global ==> src_fits(palette.abs(), tb),
                kind_of(self.palette.abs()) == spec_kind(old(self).bits_per_entry, ct),
                (match self.palette.abs() {
                    PaletteAbs::Linear(q) => forall|k: int|
                        0 <= k < q.len() ==> src_has_value(palette.abs(), #[trigger] q[k]),
                    PaletteAbs::Hashmap(q) => forall|k: int|
                        0 <= k < q.len() ==> src_has_value(palette.abs(), #[trigger] q[k]),
                    _ => true,
                }),
                forall|j: int|
                    0 <= j < i ==> value_of(self.palette.abs(), #[trigger] self.storage@[j])
                        == value_of(palette.abs(), storage@[j]),
                (match self.palette.abs() {
                    PaletteAbs::Linear(q) => forall|j: int|
                        0 <= j < i ==> (#[trigger] self.storage@[j]) < q.len(),
                    PaletteAbs::Hashmap(q) => forall|j: int|
                        0 <= j < i ==> (#[trigger] self.storage@[j]) < q.len(),
                    _ => true,
                }),
                forall|j: int| i <= j < n ==> (#[trigger] self.storage@[j]) == 0u64,
            decreases n - i,
        {
            let ghost snap = *self;
            proof {
                lemma_low_mask_pow2(storage.bits_per_entry as nat);
                lemma2_to64();
            }
            let e = storage.get(i);
            let value = palette.value_for(e as usize);
            proof {
                // room in the palette: its values are distinct and all drawn
                // from the source palette
                match self.palette.abs() {
                    PaletteAbs::Linear(q) => {
                        lemma_pal_room(q, palette.abs(), tb);
                    },
                    PaletteAbs::Hashmap(q) => {
                        lemma_pal_room(q, palette.abs(), tb);
                    },
                    _ => {},
                }
                assert(self.no_growth_for(value));
                assert(self.can_store(value));
            }
            let id = self.id_for(value);
            proof {
                lemma_low_mask_pow2(tb);
                assert(self.storage@ =~= snap.storage@);
            }
            self.storage.set(i, id as u64);
            proof {
                assert forall|j: int|
                    0 <= j < i + 1 implies value_of(
                    self.palette.abs(),
                    #[trigger] self.storage@[j],
                ) == value_of(palette.abs(), storage@[j]) by {
                    if j < i {
                        assert(self.storage@[j] == snap.storage@[j]);
                        match (snap.palette.abs(), self.palette.abs()) {
                            (PaletteAbs::Linear(q0), PaletteAbs::Linear(q1)) => {
                                assert(snap.storage@[j] < q0.len());
                            },
                            (PaletteAbs::Hashmap(q0), PaletteAbs::Hashmap(q1)) => {
                                assert(snap.storage@[j] < q0.len());
                            },
                            _ => {},
                        }
                    }
                }
            }
            i = i + 1;
        }
        proof {
            match self.palette.abs() {
                PaletteAbs::Linear(q) => {
                    lemma_pal_room(q, palette.abs(), tb);
                },
                PaletteAbs::Hashmap(q) => {
                    lemma_pal_room(q, palette.abs(), tb);
                },
                _ => {},
            }
            assert forall|j: int| 0 <= j < n implies self.values()[j] == value_of(
                palette.abs(),
                storage@[j],
            ) by {
                assert(self.storage@[j] == entry_of(
                    self.storage.data@,
                    self.storage.bits_per_entry as nat,
                    j,
                ));
            }
            assert(self.values() =~= Seq::new(
                storage.size as nat,
                |i: int| value_of(palette.abs(), storage@[i]),
            ));
        }
    }
}

impl PalettedContainer {
    /// Sets the value at the given index.
    pub fn set_at_index(&mut self, index: usize, value: u32)
        requires
            old(self).inv(),
            index < old(self).container_type.spec_size(),
            old(self).can_store(value),
        ensures
            final(self).inv(),
            final(self).container_type == old(self).container_type,
            final(self).bits_per_entry >= old(self).bits_per_entry,
            final(self).values() == old(self).values().update(index as int, value),
            (match old(self).palette.abs() {
                PaletteAbs::SingleValue(v) => (v == value ==> final(self).abs() == old(self).abs())
                    && (v != value ==> final(self).bits_per_entry == 1),
                PaletteAbs::Linear(p) => (!p.contains(value) && p.len() >= pow2(
                    old(self).bits_per_entry as nat,
                )) ==> final(self).bits_per_entry == old(self).bits_per_entry + 1,
                PaletteAbs::Hashmap(p) => (!p.contains(value) && p.len() >= pow2(
                    old(self).bits_per_entry as nat,
                )) ==> final(self).bits_per_entry == old(self).bits_per_entry + 1,
                PaletteAbs::Global => final(self).bits_per_entry == old(self).bits_per_entry,
            }),
    {
        let paletted_value = self.id_for(value);
        let ghost mid = *self;
        proof {
            lemma_low_mask_pow2(self.bits_per_entry as nat);
        }
        self.storage.set(index, paletted_value as u64);
        proof {
            assert forall|j: int|
                0 <= j < mid.values().len() implies self.values()[j] == (if j == index as int {
                value
            } else {
                mid.values()[j]
            }) by {
                assert(self.storage@ =~= mid.storage@.update(index as int, paletted_value as u64));
                assert(self.storage@[j] == entry_of(
                    self.storage.data@,
                    self.storage.bits_per_entry as nat,
                    j,
                ));
                assert(mid.storage@[j] == entry_of(
                    mid.storage.data@,
                    mid.storage.bits_per_entry as nat,
                    j,
                ));
            }
            assert(self.values() =~= old(self).values().update(index as int, value));
            if (old(self).palette.abs() matches PaletteAbs::SingleValue(v) && v == value) {
                assert(self.storage.data@ =~= old(self).storage.data@);
            }
        }
    }

    /// Sets the value at the given coordinates.
    pub fn set(&mut self, x: usize, y: usize, z: usize, value: u32)
        requires
            old(self).inv(),
            x < old(self).container_type.spec_edge(),
            y < old(self).container_type.spec_edge(),
            z < old(self).container_type.spec_edge(),
            old(self).can_store(value),
        ensures
            final(self).inv(),
            final(self).container_type == old(self).container_type,
            final(self).bits_per_entry >= old(self).bits_per_entry,
            final(self).values() == old(self).values().update(
                Self::spec_index_of(
                    old(self).container_type,
                    x as nat,
                    y as nat,
                    z as nat,
                ) as int,
                value,
            ),
    {
        let index = self.index_from_coords(x, y, z);
        self.set_at_index(index, value);
    }

    /// Sets the value at the given coordinates and returns the palette id
    /// that previously occupied the cell.
    pub fn get_and_set(&mut self, x: usize, y: usize, z: usize, value: u32) -> (r: u32)
        requires
            old(self).inv(),
            x < old(self).container_type.spec_edge(),
            y < old(self).container_type.spec_edge(),
            z < old(self).container_type.spec_edge(),
            old(self).can_store(value),
        ensures
            final(self).inv(),
            final(self).container_type == old(self).container_type,
            final(self).bits_per_entry >= old(self).bits_per_entry,
            final(self).values() == old(self).values().update(
                Self::spec_index_of(
                    old(self).container_type,
                    x as nat,
                    y as nat,
                    z as nat,
                ) as int,
                value,
            ),
            value_of(final(self).palette.abs(), r as u64) == old(self).values()[Self::spec_index_of(
                old(self).container_type,
                x as nat,
                y as nat,
                z as nat,
            ) as int],
    {
        let paletted_value = self.id_for(value);
        let ghost mid = *self;
        let index = self.index_from_coords(x, y, z);
        proof {
            lemma_low_mask_pow2(self.bits_per_entry as nat);
        }
        let prev = self.storage.get_and_set(index, paletted_value as u64);
        proof {
            assert(mid.storage@[index as int] == entry_of(
                mid.storage.data@,
                mid.storage.bits_per_entry as nat,
                index as int,
            ));
            assert(value_of(mid.palette.abs(), prev as u64) == mid.values()[index as int]);
            assert forall|j: int|
                0 <= j < mid.values().len() implies self.values()[j] == (if j == index as int {
                value
            } else {
                mid.values()[j]
            }) by {
                assert(self.storage@ =~= mid.storage@.update(index as int, paletted_value as u64));
                assert(self.storage@[j] == entry_of(
                    self.storage.data@,
                    self.storage.bits_per_entry as nat,
                    j,
                ));
                assert(mid.storage@[j] == entry_of(
                    mid.storage.data@,
                    mid.storage.bits_per_entry as nat,
                    j,
                ));
            }
            assert(self.values() =~= old(self).values().update(index as int, value));
        }
        prev as u32
    }
}

/// A duplicate-free palette drawn entirely from a re-pack source stays
/// strictly below the capacity of the target width.
proof fn lemma_pal_room(q: Seq<u32>, src: PaletteAbs, target_bits: nat)
    requires
        q.no_duplicates(),
        forall|k: int| 0 <= k < q.len() ==> src_has_value(src, #[trigger] q[k]),
        src_ok(src, Seq::<u64>::empty(), target_bits),
        1 <= target_bits,
    ensures
        q.len() < pow2(target_bits),
{
    lemma2_to64();
    match src {
        PaletteAbs::SingleValue(s) => {
            if q.len() >= 2 {
                assert(q[0] == s && q[1] == s);
                assert(false);
            }
            lemma_pow2_strictly_increases(0, target_bits);
        },
        PaletteAbs::Linear(p) => {
            lemma_subset_len(q, p);
        },
        PaletteAbs::Hashmap(p) => {
            lemma_subset_len(q, p);
        },
        PaletteAbs::Global => {},
    }
}


/// Wire encoding of a whole container: the bit width, the palette by kind,
/// then the VarInt-prefixed big-endian storage words.
pub open spec fn spec_encode_container(a: ContainerAbs) -> Seq<u8> {
    seq![a.bits] + pal_encode(a.palette) + words_encode(a.words)
}

/// Wire decoding of a whole container of a known type from the front of
/// `bytes`. A width above 32 or a word vector that does not match the packed
/// word count of the width and section size is a size mismatch; the
/// `bits == 0` case demands an empty word vector through the same rule.
pub open spec fn spec_decode_container(bytes: Seq<u8>, ct: PalettedContainerType) -> Result<
    (ContainerAbs, nat),
    DecodeError,
> {
    if bytes.len() == 0 {
        Err(DecodeError::TruncatedBuffer)
    } else {
        let bits = bytes[0];
        match pal_decode(spec_kind(bits, ct), bytes.skip(1)) {
            Err(e) => Err(e),
            Ok((pal, n1)) => match words_decode(bytes.skip(1 + n1 as int)) {
                Err(e) => Err(e),
                Ok((ws, n2)) => if bits > 32 || ws.len() != word_count(
                    bits as nat,
                    ct.spec_size(),
                ) {
                    Err(DecodeError::SizeMismatch)
                } else {
                    Ok((ContainerAbs { bits, palette: pal, words: ws }, 1 + n1 + n2))
                },
            },
        }
    }
}

/// Wire content that a well-formed container of type `ct` can carry.
pub open spec fn abs_wf(a: ContainerAbs, ct: PalettedContainerType) -> bool {
    &&& a.bits <= 32
    &&& kind_of(a.palette) == spec_kind(a.bits, ct)
    &&& a.words.len() == word_count(a.bits as nat, ct.spec_size())
    &&& (match a.palette {
        PaletteAbs::Linear(p) => p.len() <= u32::MAX,
        PaletteAbs::Hashmap(p) => p.len() <= u32::MAX,
        _ => true,
    })
}

/// Codec round trip: decoding the encoding of any well-formed container
/// content, with anything appended, yields that content back, bit-exact.
pub proof fn lemma_container_round_trip(a: ContainerAbs, ct: PalettedContainerType, rest: Seq<u8>)
    requires
        abs_wf(a, ct),
    ensures
        spec_decode_container(spec_encode_container(a) + rest, ct) == Ok::<
            (ContainerAbs, nat),
            DecodeError,
        >((a, spec_encode_container(a).len())),
{
    let bytes = spec_encode_container(a) + rest;
    assert(bytes[0] == a.bits);
    assert(bytes.skip(1) =~= pal_encode(a.palette) + (words_encode(a.words) + rest));
    lemma_pal_round_trip(a.palette, words_encode(a.words) + rest);
    let n1 = pal_encode(a.palette).len() as int;
    assert(bytes.skip(1 + n1) =~= words_encode(a.words) + rest);
    if a.bits > 0 {
        lemma_entry_bounds(a.bits as nat, ct.spec_size(), 0);
    }
    lemma_word_vec_round_trip(a.words, rest);
    let dec = spec_decode_container(bytes, ct);
    match dec {
        Ok((b, n)) => {
            assert(b =~= a);
            assert(n == spec_encode_container(a).len());
        },
        Err(_) => {
            assert(false);
        },
    }
}

/// Every container that satisfies the invariant carries well-formed wire
/// content.
pub proof fn lemma_inv_abs_wf(c: PalettedContainer)
    requires
        c.wf(),
        c.pal_len_ok(),
    ensures
        abs_wf(c.abs(), c.container_type),
{
    lemma2_to64();
    match c.palette.abs() {
        PaletteAbs::Linear(p) => {
            assert(c.bits_per_entry <= 8);
            if (c.bits_per_entry as nat) < 8 {
                lemma_pow2_strictly_increases(c.bits_per_entry as nat, 8);
            }
        },
        PaletteAbs::Hashmap(p) => {
            assert(c.bits_per_entry <= 8);
            if (c.bits_per_entry as nat) < 8 {
                lemma_pow2_strictly_increases(c.bits_per_entry as nat, 8);
            }
        },
        _ => {},
    }
}

/// Codec round trip for a live container: decoding what `write_into` emits,
/// in front of any suffix, yields exactly this container's content — and so,
/// by `lemma_abs_determines`, a container with the same cell values.
pub proof fn lemma_encode_decode_container(c: PalettedContainer, rest: Seq<u8>)
    requires
        c.wf(),
        c.pal_len_ok(),
    ensures
        spec_decode_container(spec_encode_container(c.abs()) + rest, c.container_type) == Ok::<
            (ContainerAbs, nat),
            DecodeError,
        >((c.abs(), spec_encode_container(c.abs()).len())),
{
    lemma_inv_abs_wf(c);
    lemma_container_round_trip(c.abs(), c.container_type, rest);
}

impl PalettedContainer {
    /// Append this container's wire encoding: bit width, palette, storage
    /// words.
    pub fn write_into(&self, buf: &mut Vec<u8>)
        requires
            self.wf(),
            self.pal_len_ok(),
        ensures
            final(buf)@ == old(buf)@ + spec_encode_container(self.abs()),
    {
        proof {
            lemma2_to64();
            match self.palette.abs() {
                PaletteAbs::Linear(p) => {
                    assert(self.bits_per_entry <= 8);
                    if (self.bits_per_entry as nat) < 8 {
                        lemma_pow2_strictly_increases(self.bits_per_entry as nat, 8);
                    }
                },
                PaletteAbs::Hashmap(p) => {
                    assert(self.bits_per_entry <= 8);
                    if (self.bits_per_entry as nat) < 8 {
                        lemma_pow2_strictly_increases(self.bits_per_entry as nat, 8);
                    }
                },
                _ => {},
            }
            if self.bits_per_entry > 0 {
                lemma_entry_bounds(
                    self.bits_per_entry as nat,
                    self.container_type.spec_size(),
                    0,
                );
            }
        }
        buf.push(self.bits_per_entry);
        self.palette.write_into(buf);
        write_word_vec(buf, &self.storage.data);
        proof {
            assert(buf@ =~= old(buf)@ + spec_encode_container(self.abs()));
        }
    }

    /// Parse a container of the given type starting at `pos`; on success the
    /// new position follows the last byte consumed.
    pub fn read_with_type(data: &Vec<u8>, pos: usize, container_type: &PalettedContainerType) -> (r:
        Result<(Self, usize), DecodeError>)
        requires
            pos <= data@.len(),
        ensures
            match r {
                Ok(p) => {
                    &&& pos < p.1 <= data@.len()
                    &&& spec_decode_container(data@.skip(pos as int), *container_type) == Ok::<
                        (ContainerAbs, nat),
                        DecodeError,
                    >((p.0.abs(), (p.1 - pos) as nat))
                    &&& p.0.wf()
                    &&& p.0.container_type == *container_type
                },
                Err(e) => spec_decode_container(data@.skip(pos as int), *container_type) == Err::<
                    (ContainerAbs, nat),
                    DecodeError,
                >(e),
            },
    {
        if pos >= data.len() {
            return Err(DecodeError::TruncatedBuffer);
        }
        let bits_per_entry = data[pos];
        let palette_type = PaletteKind::from_bits_and_type(bits_per_entry, container_type);
        proof {
            assert(data@.skip(pos as int).skip(1) =~= data@.skip(pos as int + 1));
        }
        let (palette, p1) = match palette_type.read(data, pos + 1) {
            Ok(p) => p,
            Err(e) => {
                return Err(e);
            },
        };
        proof {
            assert(data@.skip(pos as int).skip(1 + (p1 - (pos + 1))) =~= data@.skip(p1 as int));
        }
        let (words, p2) = match read_word_vec(data, p1) {
            Ok(p) => p,
            Err(e) => {
                return Err(e);
            },
        };
        let size = container_type.size();
        if bits_per_entry > 32 {
            return Err(DecodeError::SizeMismatch);
        }
        let storage = match BitStorage::new(bits_per_entry as usize, size, Some(words)) {
            Ok(s) => s,
            Err(e) => {
                return Err(e);
            },
        };
        let c = PalettedContainer {
            bits_per_entry,
            palette,
            storage,
            container_type: *container_type,
        };
        Ok((c, p2))
    }
}

/// Round-tripping coordinates through the linear index recovers them.
pub proof fn lemma_coords_round_trip(ct: PalettedContainerType, x: nat, y: nat, z: nat)
    requires
        x < ct.spec_edge(),
        y < ct.spec_edge(),
        z < ct.spec_edge(),
    ensures
        PalettedContainer::spec_coords_of(ct, PalettedContainer::spec_index_of(ct, x, y, z)) == (
        x,
        y,
        z,
    ),
        PalettedContainer::spec_index_of(ct, x, y, z) < ct.spec_size(),
{
    let e = ct.spec_edge() as int;
    let i = PalettedContainer::spec_index_of(ct, x, y, z) as int;
    assert(e == 16 || e == 4);
    assert(i == (y * e + z) * e + x);
    assert(i == x + e * (z + e * y)) by (nonlinear_arith)
        requires
            i == (y * e + z) * e + x,
    ;
    assert(x + e * (z + e * y) >= 0 && z + e * y >= 0 && y * e + z >= 0) by (nonlinear_arith)
        requires
            x >= 0 && y >= 0 && z >= 0 && e > 0,
    ;
    assert(i % e == x && i / e == z + e * y) by (nonlinear_arith)
        requires
            i == x + e * (z + e * y) && 0 <= x < e && z + e * y >= 0 && e > 0,
    ;
    assert((z + e * y) % e == z && (z + e * y) / e == y) by (nonlinear_arith)
        requires
            0 <= z < e && y >= 0 && e > 0,
    ;
    assert(i / (e * e) == y && (i / e) % e == z) by (nonlinear_arith)
        requires
            i >= 0 && e > 0 && i / e == z + e * y && (z + e * y) / e == y && (z + e * y) % e == z,
    ;
    assert((y as int) % e == (y as int)) by (nonlinear_arith)
        requires
            0 <= (y as int) && (y as int) < e,
    ;
    assert(i < e * e * e) by (nonlinear_arith)
        requires
            i == (y * e + z) * e + x && 0 <= x < e && 0 <= y < e && 0 <= z < e,
    ;
    assert(e * e * e == ct.spec_size() as int);
}

} // verus!
