//! Decoding of GTA5 RAGE resources (RSC7 paged resources, `.yft` fragments,
//! `.ytd` texture dictionaries, skeletons, shaders, joints) and encoding of the
//! compact GVEH wire format served to the Roblox client.
//!
//! Floating-point values never leave their bit patterns here: every `f32`
//! field of the formats is carried as the `u32` holding its IEEE-754 bits.

use vstd::prelude::*;

pub mod archive;
pub mod listing;
pub mod rsc7;
pub mod text;
pub mod yft;
pub mod parts;
pub mod skeleton;
pub mod joints;
pub mod shaders;
pub mod handling;
pub mod textures;
pub mod wire;
pub mod pipeline;
