//! Plain asset records and handles.

use vstd::prelude::*;

verus! {

/// Key of a loaded sound, in the 64-bit form of a slot-map key.
#[derive(Clone, Copy, Debug, PartialEq, Eq, Structural)]
pub struct SoundHandle(pub u64);

/// A handle to a render body: the meshes, materials and associated data used
/// to draw one 3D model.
#[derive(Debug, Default, Clone, Copy, Hash, PartialEq, Eq, PartialOrd, Ord, Structural)]
pub struct RenderBodyHandle(pub u32);

/// A decoded sound: its key, where it came from, its format and its samples.
pub struct Sound {
    pub id: SoundHandle,
    pub source: String,
    pub sample_rate: u32,
    pub channels: u16,
    pub data: Vec<u8>,
}

impl Sound {
    pub fn new(id: SoundHandle, source: String, sample_rate: u32, channels: u16, data: Vec<u8>) -> (r:
        Sound)
        ensures
            r.id == id,
            r.source@ == source@,
            r.sample_rate == sample_rate,
            r.channels == channels,
            r.data@ == data@,
    {
        Sound { id, source, sample_rate, channels, data }
    }
}

} // verus!
