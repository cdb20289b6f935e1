//! FORM ANIM: a leading ILBM frame followed by delta frames.

pub mod accepted;
pub mod anhd;
pub mod cells;
pub mod column;
pub mod delta;
pub mod demuxer;
pub mod encode;
pub mod file;
pub mod flat;
pub mod frames;
pub mod lists;
pub mod op1;
pub mod op23;
pub mod op4;
pub mod op5;
pub mod op7;
pub mod runs;

use vstd::prelude::*;
use crate::anim::op1::{apply_op1, op1_applied, op1_present};
use crate::anim::op23::{apply_op23, op23_applied, op23_planes_present};
use crate::anim::op4::{apply_op4, op4_applied};
use crate::anim::op5::{apply_op5, op5_applied};
use crate::anim::op7::{apply_op7, op7_applied};
use crate::bitmap::rows;
use crate::error::IffError;
use crate::ilbm::Bmhd;

pub use crate::anim::anhd::Anhd;
pub use crate::anim::encode::{
    encode_anim_op0, encode_anim_op1, encode_anim_op2, encode_anim_op3, encode_anim_op4,
    encode_anim_op5, encode_anim_op7, encode_full_body,
};
pub use crate::anim::file::{parse_anim, probe, AnimImage};
pub use crate::anim::op1::encode_op1_body;
pub use crate::anim::op23::encode_op23_body;
pub use crate::anim::op4::encode_op4_body;
pub use crate::anim::op5::encode_op5_body;
pub use crate::anim::op7::encode_op7_body;
pub use crate::ilbm::image::{planar_to_rgba, rgba_to_planar};

verus! {

/// Applies an operation-1 payload.
pub fn apply_op1_for_test(anhd: &Anhd, planar: &mut [Vec<u8>], delta: &[u8], bmhd: &Bmhd) -> (r:
    Result<(), IffError>)
    requires
        op1_present(*anhd, delta@, *bmhd, old(planar)@.len() as int),
    ensures
        (rows(final(planar)@), r) == op1_applied(*anhd, delta@, *bmhd, rows(old(planar)@)),
{
    apply_op1(anhd, planar, delta, bmhd)
}

/// Applies an operation-2 payload (`long_data`) or an operation-3 payload.
pub fn apply_op23_for_test(
    planar: &mut [Vec<u8>],
    delta: &[u8],
    bmhd: &Bmhd,
    long_data: bool,
) -> (r: Result<(), IffError>)
    requires
        op23_planes_present(delta@, *bmhd, rows(old(planar)@), long_data),
    ensures
        (rows(final(planar)@), r) == op23_applied(delta@, *bmhd, rows(old(planar)@), long_data),
{
    apply_op23(planar, delta, bmhd, long_data)
}

/// Applies an operation-4 payload under the option bits of its header.
pub fn apply_op4_for_test(bits: u32, planar: &mut [Vec<u8>], delta: &[u8], bmhd: &Bmhd) -> (r:
    Result<(), IffError>)
    ensures
        (rows(final(planar)@), r) == op4_applied(delta@, *bmhd, rows(old(planar)@), bits),
{
    apply_op4(bits, planar, delta, bmhd)
}

/// Applies an operation-5 payload; nothing of the header matters for it.
pub fn apply_op5_for_test(anhd: &Anhd, planar: &mut [Vec<u8>], delta: &[u8], bmhd: &Bmhd) -> (r:
    Result<(), IffError>)
    ensures
        (rows(final(planar)@), r) == op5_applied(delta@, *bmhd, rows(old(planar)@)),
{
    apply_op5(planar, delta, bmhd)
}

/// Applies an operation-7 payload.
pub fn apply_op7_for_test(
    planar: &mut [Vec<u8>],
    delta: &[u8],
    bmhd: &Bmhd,
    long_data: bool,
) -> (r: Result<(), IffError>)
    ensures
        (rows(final(planar)@), r) == op7_applied(delta@, *bmhd, rows(old(planar)@), long_data),
{
    apply_op7(planar, delta, bmhd, long_data)
}

} // verus!
