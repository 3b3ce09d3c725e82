//! Track matching and catalogue logic for a music player.
use vstd::prelude::*;

pub mod json;
pub mod matcher;
pub mod text;
pub mod track;
pub mod ytmusic;

verus! {
} // verus!
