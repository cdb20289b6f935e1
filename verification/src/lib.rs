//! IFF containers: chunk grammar, ANIM cel animation, AIFF / AIFF-C audio.

pub mod aiff;
pub mod anim;
pub mod bitmap;
pub mod bytes;
pub mod chunk;
pub mod error;
pub mod ilbm;
pub mod members;
pub mod text;
