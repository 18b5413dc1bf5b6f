//! Container kinds, palette kinds and the palette itself: the dictionary that
//! maps compact storage ids to full-domain 32-bit values.

use vstd::prelude::*;

use crate::codec::{
    lemma_varint_round_trip, lemma_varint_vec_round_trip, read_varint, read_varint_vec,
    varint_decode, varint_encode, varint_vec_decode, varint_vec_encode, write_varint,
    write_varint_vec, DecodeError,
};

verus! {

/// Selects the geometry and palette policy of a container: a 16x16x16 block
/// state section or a 4x4x4 biome section.
#[derive(Clone, Debug, Copy, PartialEq, Eq, Structural)]
pub enum PalettedContainerType {
    Biomes,
    BlockStates,
}

impl PalettedContainerType {
    /// Log2 of the section edge length.
    pub open spec fn spec_size_bits(self) -> nat {
        match self {
            PalettedContainerType::BlockStates => 4,
            PalettedContainerType::Biomes => 2,
        }
    }

    /// Edge length of the cubic section.
    pub open spec fn spec_edge(self) -> nat {
        match self {
            PalettedContainerType::BlockStates => 16,
            PalettedContainerType::Biomes => 4,
        }
    }

    /// Total number of cells in a section: edge cubed.
    pub open spec fn spec_size(self) -> nat {
        match self {
            PalettedContainerType::BlockStates => 4096,
            PalettedContainerType::Biomes => 64,
        }
    }

    pub(crate) fn size_bits(&self) -> (r: usize)
        ensures
            r == self.spec_size_bits(),
    {
        match self {
            PalettedContainerType::BlockStates => 4,
            PalettedContainerType::Biomes => 2,
        }
    }

    pub(crate) fn size(&self) -> (r: usize)
        ensures
            r == self.spec_size(),
    {
        proof {
            assert(1usize << (4usize * 3) == 4096usize) by (bit_vector);
            assert(1usize << (2usize * 3) == 64usize) by (bit_vector);
        }
        1usize << (self.size_bits() * 3)
    }
}

/// The four shapes a palette can take, chosen by bit width and container type.
#[derive(Clone, Debug, PartialEq, Eq, Structural)]
pub enum PaletteKind {
    SingleValue,
    Linear,
    Hashmap,
    Global,
}

/// A palette: the dictionary side of a paletted container.
#[derive(Clone, Debug)]
pub enum Palette {
    /// Every id resolves to this one value; the storage carries zero bits.
    SingleValue(u32),
    /// Id indexes into the vector; lookup is a linear scan.
    Linear(Vec<u32>),
    /// Same layout as `Linear`; kept distinct for wire-format dispatch.
    Hashmap(Vec<u32>),
    /// The id is the value itself; nothing is stored.
    Global,
}

/// Mathematical shape of a palette, used by contracts.
pub enum PaletteAbs {
    SingleValue(u32),
    Linear(Seq<u32>),
    Hashmap(Seq<u32>),
    Global,
}

impl Palette {
    /// The abstract value of this palette.
    pub open spec fn abs(self) -> PaletteAbs {
        match self {
            Palette::SingleValue(v) => PaletteAbs::SingleValue(v),
            Palette::Linear(v) => PaletteAbs::Linear(v@),
            Palette::Hashmap(v) => PaletteAbs::Hashmap(v@),
            Palette::Global => PaletteAbs::Global,
        }
    }
}

/// The kind of an abstract palette.
pub open spec fn kind_of(p: PaletteAbs) -> PaletteKind {
    match p {
        PaletteAbs::SingleValue(_) => PaletteKind::SingleValue,
        PaletteAbs::Linear(_) => PaletteKind::Linear,
        PaletteAbs::Hashmap(_) => PaletteKind::Hashmap,
        PaletteAbs::Global => PaletteKind::Global,
    }
}

/// The value an abstract palette assigns to a storage id. Out-of-range ids
/// under `Linear` and `Hashmap` resolve to 0; container invariants rule them
/// out in practice.
pub open spec fn value_of(p: PaletteAbs, id: u64) -> u32 {
    match p {
        PaletteAbs::SingleValue(v) => v,
        PaletteAbs::Linear(v) => if id < v.len() { v[id as int] } else { 0u32 },
        PaletteAbs::Hashmap(v) => if id < v.len() { v[id as int] } else { 0u32 },
        PaletteAbs::Global => id as u32,
    }
}

/// The palette kind mandated for a given bit width and container type.
pub open spec fn spec_kind(bits_per_entry: u8, container_type: PalettedContainerType) -> PaletteKind {
    match container_type {
        PalettedContainerType::BlockStates => if bits_per_entry == 0 {
            PaletteKind::SingleValue
        } else if bits_per_entry <= 4 {
            PaletteKind::Linear
        } else if bits_per_entry <= 8 {
            PaletteKind::Hashmap
        } else {
            PaletteKind::Global
        },
        PalettedContainerType::Biomes => if bits_per_entry == 0 {
            PaletteKind::SingleValue
        } else if bits_per_entry <= 3 {
            PaletteKind::Linear
        } else {
            PaletteKind::Global
        },
    }
}

impl Palette {
    /// Resolve a storage id to its domain value: out-of-range ids under the
    /// linear shapes resolve to 0, and under `Global` the id is truncated to
    /// 32 bits.
    pub fn value_for(&self, id: usize) -> (r: u32)
        ensures
            r == value_of(self.abs(), id as u64),
    {
        match self {
            Palette::SingleValue(v) => *v,
            Palette::Linear(v) => {
                if id < v.len() {
                    v[id]
                } else {
                    0
                }
            },
            Palette::Hashmap(v) => {
                if id < v.len() {
                    v[id]
                } else {
                    0
                }
            },
            Palette::Global => id as u32,
        }
    }
}

impl PaletteKind {
    /// The palette kind chosen by the transition table for this bit width and
    /// container type.
    pub fn from_bits_and_type(bits_per_entry: u8, container_type: &PalettedContainerType) -> (r: Self)
        ensures
            r == spec_kind(bits_per_entry, *container_type),
    {
        match container_type {
            PalettedContainerType::BlockStates => {
                if bits_per_entry == 0 {
                    PaletteKind::SingleValue
                } else if bits_per_entry <= 4 {
                    PaletteKind::Linear
                } else if bits_per_entry <= 8 {
                    PaletteKind::Hashmap
                } else {
                    PaletteKind::Global
                }
            },
            PalettedContainerType::Biomes => {
                if bits_per_entry == 0 {
                    PaletteKind::SingleValue
                } else if bits_per_entry <= 3 {
                    PaletteKind::Linear
                } else {
                    PaletteKind::Global
                }
            },
        }
    }

    /// The kind of an existing palette.
    pub fn from(palette: &Palette) -> (r: Self)
        ensures
            r == kind_of(palette.abs()),
    {
        match palette {
            Palette::SingleValue(_) => PaletteKind::SingleValue,
            Palette::Linear(_) => PaletteKind::Linear,
            Palette::Hashmap(_) => PaletteKind::Hashmap,
            Palette::Global => PaletteKind::Global,
        }
    }

    /// A fresh, empty palette of this kind.
    pub fn as_empty_palette(&self) -> (r: Palette)
        ensures
            r.abs() == match *self {
                PaletteKind::SingleValue => PaletteAbs::SingleValue(0u32),
                PaletteKind::Linear => PaletteAbs::Linear(Seq::<u32>::empty()),
                PaletteKind::Hashmap => PaletteAbs::Hashmap(Seq::<u32>::empty()),
                PaletteKind::Global => PaletteAbs::Global,
            },
    {
        match self {
            PaletteKind::SingleValue => Palette::SingleValue(0),
            PaletteKind::Linear => Palette::Linear(Vec::new()),
            PaletteKind::Hashmap => Palette::Hashmap(Vec::new()),
            PaletteKind::Global => Palette::Global,
        }
    }
}

/// Wire encoding of a palette: one VarInt for a single value, a
/// VarInt-prefixed VarInt vector for the linear shapes, nothing for global.
pub open spec fn pal_encode(p: PaletteAbs) -> Seq<u8> {
    match p {
        PaletteAbs::SingleValue(v) => varint_encode(v),
        PaletteAbs::Linear(vs) => varint_vec_encode(vs),
        PaletteAbs::Hashmap(vs) => varint_vec_encode(vs),
        PaletteAbs::Global => Seq::empty(),
    }
}

/// Wire decoding of a palette of a known kind from the front of `bytes`.
pub open spec fn pal_decode(kind: PaletteKind, bytes: Seq<u8>) -> Result<
    (PaletteAbs, nat),
    DecodeError,
> {
    match kind {
        PaletteKind::SingleValue => match varint_decode(bytes) {
            Ok((v, k)) => Ok((PaletteAbs::SingleValue(v), k)),
            Err(e) => Err(e),
        },
        PaletteKind::Linear => match varint_vec_decode(bytes) {
            Ok((vs, k)) => Ok((PaletteAbs::Linear(vs), k)),
            Err(e) => Err(e),
        },
        PaletteKind::Hashmap => match varint_vec_decode(bytes) {
            Ok((vs, k)) => Ok((PaletteAbs::Hashmap(vs), k)),
            Err(e) => Err(e),
        },
        PaletteKind::Global => Ok((PaletteAbs::Global, 0)),
    }
}

/// A palette round-trips through its wire encoding in front of any suffix.
pub proof fn lemma_pal_round_trip(p: PaletteAbs, rest: Seq<u8>)
    requires
        (match p {
            PaletteAbs::Linear(vs) => vs.len() <= u32::MAX,
            PaletteAbs::Hashmap(vs) => vs.len() <= u32::MAX,
            _ => true,
        }),
    ensures
        pal_decode(kind_of(p), pal_encode(p) + rest) == Ok::<(PaletteAbs, nat), DecodeError>(
            (p, pal_encode(p).len()),
        ),
{
    match p {
        PaletteAbs::SingleValue(v) => {
            lemma_varint_round_trip(v, rest);
        },
        PaletteAbs::Linear(vs) => {
            lemma_varint_vec_round_trip(vs, rest);
        },
        PaletteAbs::Hashmap(vs) => {
            lemma_varint_vec_round_trip(vs, rest);
        },
        PaletteAbs::Global => {},
    }
}

impl Palette {
    /// Append this palette's wire encoding.
    pub fn write_into(&self, buf: &mut Vec<u8>)
        requires
            (match self.abs() {
                PaletteAbs::Linear(p) => p.len() <= u32::MAX,
                PaletteAbs::Hashmap(p) => p.len() <= u32::MAX,
                _ => true,
            }),
        ensures
            final(buf)@ == old(buf)@ + pal_encode(self.abs()),
    {
        match self {
            Palette::SingleValue(value) => write_varint(buf, *value),
            Palette::Linear(values) => write_varint_vec(buf, values),
            Palette::Hashmap(values) => write_varint_vec(buf, values),
            Palette::Global => {
                proof {
                    assert(buf@ =~= buf@ + pal_encode(self.abs()));
                }
            },
        }
    }
}

impl PaletteKind {
    /// Parse a palette of this kind starting at `pos`.
    pub fn read(&self, data: &Vec<u8>, pos: usize) -> (r: Result<(Palette, usize), DecodeError>)
        requires
            pos <= data@.len(),
        ensures
            match r {
                Ok(p) => {
                    &&& pos <= p.1 <= data@.len()
                    &&& pal_decode(*self, data@.skip(pos as int)) == Ok::<
                        (PaletteAbs, nat),
                        DecodeError,
                    >((p.0.abs(), (p.1 - pos) as nat))
                    &&& kind_of(p.0.abs()) == *self
                },
                Err(e) => pal_decode(*self, data@.skip(pos as int)) == Err::<
                    (PaletteAbs, nat),
                    DecodeError,
                >(e),
            },
    {
        match self {
            PaletteKind::SingleValue => match read_varint(data, pos) {
                Ok((v, np)) => Ok((Palette::SingleValue(v), np)),
                Err(e) => Err(e),
            },
            PaletteKind::Linear => match read_varint_vec(data, pos) {
                Ok((vs, np)) => Ok((Palette::Linear(vs), np)),
                Err(e) => Err(e),
            },
            PaletteKind::Hashmap => match read_varint_vec(data, pos) {
                Ok((vs, np)) => Ok((Palette::Hashmap(vs), np)),
                Err(e) => Err(e),
            },
            PaletteKind::Global => Ok((Palette::Global, pos)),
        }
    }
}

} // verus!
