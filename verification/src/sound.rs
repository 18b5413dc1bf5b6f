//! The sound-source categories a sound event can be attributed to.

use vstd::prelude::*;

verus! {

/// Category a played sound belongs to, in wire-ordinal order.
#[derive(Clone, Copy, Debug, PartialEq, Eq, Structural)]
pub enum SoundSource {
    Master,
    Music,
    Records,
    Weather,
    Blocks,
    Hostile,
    Neutral,
    Players,
    Ambient,
    Voice,
}

} // verus!
