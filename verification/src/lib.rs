use vstd::prelude::*;

pub mod stereo;
pub mod bijection;
pub mod lifting;
pub mod serpentine;
pub mod packing;
pub mod codec;
pub mod grid_codec;
pub mod lifting_i64;
pub mod mband;
pub mod snake;
pub mod bitplane;
pub mod polyphase;
pub mod payload;
pub mod dispatch;
pub mod transform_laws;

verus! {

} // verus!
