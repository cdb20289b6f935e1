//! Why a container was rejected.

use vstd::prelude::*;
use crate::text::{
    append_decimal, append_hexadecimal, append_quoted_id, decimal, hexadecimal, id_str, id_text,
    quoted,
};
use vstd::string::*;

verus! {

/// What is wrong with the data, or what about it is not handled.
#[derive(Clone, Copy, Debug, PartialEq, Eq)]
pub enum Reason {
    /// A fixed sentence.
    Text(&'static str),
    /// The bitmaps handed to an encoder do not have a row per plane and scanline.
    RowCount {
        /// The encoder's operation.
        op: &'static str,
        /// Rows of the earlier bitmap.
        prev: usize,
        /// Rows of the later bitmap.
        cur: usize,
        /// Rows that the header asks for.
        expected: usize,
    },
    /// A row does not divide into the data items of an operation.
    RowWidth {
        /// The operation.
        op: &'static str,
        /// Bytes per row.
        row_bytes: usize,
        /// What the row is divided into.
        unit: &'static str,
        /// Bytes per item.
        size: usize,
    },
    /// A plane does not divide into the data words of an operation.
    PlaneSize {
        /// Bytes of a plane.
        plane_bytes: usize,
        /// Bytes per word.
        size: usize,
    },
    /// Option bits that have to be zero are set.
    ReservedBits {
        /// The option word.
        bits: u32,
    },
    /// A column takes more ops than its count byte can hold.
    TooManyOps {
        /// Column of the plane.
        column: usize,
        /// Colour plane.
        plane: usize,
        /// Ops of the column.
        ops: usize,
    },
    /// More colour planes than a pointer table has slots.
    TooManyPlanes {
        /// The encoder's operation.
        op: &'static str,
        /// Colour planes of the header.
        planes: u8,
    },
    /// An animation without frames.
    NoFrames {
        /// The encoder's operation.
        op: &'static str,
    },
    /// An animation header that is cut short.
    AnhdLength {
        /// Bytes of the chunk body.
        len: usize,
    },
    /// A delta frame of an operation that is not handled.
    Operation {
        /// The operation.
        operation: u8,
    },
    /// Data that does not start with a group.
    NotGroup {
        /// Id that it starts with.
        id: [u8; 4],
    },
    /// A member that reaches past the group around it.
    GroupChildOverrun {
        /// Id of the member.
        id: [u8; 4],
    },
    /// Shared properties for a form type that has some already.
    DuplicateProp {
        /// The form type.
        form_type: [u8; 4],
    },
    /// A chunk that a `LIST` or `CAT ` cannot hold.
    IllegalChild {
        /// Id of the chunk.
        id: [u8; 4],
    },
    /// A file that is no group of the kind that animations are.
    ExpectedForm {
        /// Id that it starts with.
        id: [u8; 4],
    },
    /// A FORM that is not an animation, found while opening a file.
    NotAnim {
        /// Type of the FORM.
        form_type: [u8; 4],
    },
    /// A chunk that reaches past the animation around it.
    ChildOverrun {
        /// Id of the chunk.
        id: [u8; 4],
    },
    /// A FORM that is not an animation.
    AnimFormType {
        /// Type of the FORM.
        form_type: [u8; 4],
    },
    /// A picture with no colour planes, or with more than eight.
    PlaneCount {
        /// Colour planes of the header.
        planes: u8,
    },
    /// A hold-and-modify picture with neither six nor eight colour planes.
    HamPlanes {
        /// Colour planes of the header.
        planes: u8,
    },
}

impl Reason {
    /// The sentence that describes the fault.
    pub open spec fn text(self) -> Seq<char> {
        match self {
            Reason::Text(text) => text@,
            Reason::RowCount { op, prev, cur, expected } => "ANIM op "@ + op@
                + " encode: planar buffers have "@ + decimal(prev as int) + " / "@
                + decimal(cur as int) + " rows, expected "@ + decimal(expected as int),
            Reason::RowWidth { op, row_bytes, unit, size } => "ANIM op "@ + op@ + ": row_bytes "@
                + decimal(row_bytes as int) + " not a multiple of "@ + unit@ + " "@
                + decimal(size as int),
            Reason::PlaneSize { plane_bytes, size } => "ANIM op 2/3 encode: plane size "@
                + decimal(plane_bytes as int) + " not a multiple of word size "@
                + decimal(size as int),
            Reason::ReservedBits { bits } => "ANIM op 4: reserved ANHD.bits set (0x"@
                + hexadecimal(bits as int, 8) + "); requires bits 6..=31 = 0"@,
            Reason::TooManyOps { column, plane, ops } => "ANIM op 7 encode: column "@
                + decimal(column as int) + " of plane "@ + decimal(plane as int) + " produced "@
                + decimal(ops as int) + " logical ops (max 255)"@,
            Reason::TooManyPlanes { op, planes } => "ANIM op "@ + op@
                + " encode: requires ≤ 8 colour planes (got "@ + decimal(planes as int) + ")"@,
            Reason::NoFrames { op } => "ANIM op "@ + op@ + " encode: at least one frame required"@,
            Reason::AnhdLength { len } => "ANIM ANHD: need ≥24 bytes, got "@ + decimal(len as int),
            Reason::Operation { operation } => "ANIM: ANHD operation "@ + decimal(operation as int)
                + " not implemented (only 0, 1, 2, 3, 4, 5 and 7 supported)"@,
            Reason::NotGroup { id } => "IFF: not a top-level group chunk (got "@
                + quoted(id_text(id@)) + ")"@,
            Reason::GroupChildOverrun { id } => "IFF: group child "@ + quoted(id_text(id@))
                + " overruns the containing group's ckSize"@,
            Reason::DuplicateProp { form_type } => "IFF: a LIST may have at most one PROP of FORM type "@
                + quoted(id_text(form_type@)),
            Reason::IllegalChild { id } => "IFF: "@ + quoted(id_text(id@))
                + " is not a legal LIST/CAT child (grammar: PROP / FORM / LIST / CAT)"@,
            Reason::ExpectedForm { id } => "ANIM: expected FORM chunk, got "@ + id_text(id@),
            Reason::NotAnim { form_type } => "IFF: not an ANIM file (form type "@
                + quoted(id_text(form_type@)) + ")"@,
            Reason::ChildOverrun { id } => "ANIM: child chunk "@ + id_text(id@)
                + " extends past outer FORM"@,
            Reason::AnimFormType { form_type } => "ANIM: outer form type is "@
                + quoted(id_text(form_type@)) + " (expected ANIM)"@,
            Reason::PlaneCount { planes } => "ILBM: unsupported plane count "@
                + decimal(planes as int),
            Reason::HamPlanes { planes } => "ANIM HAM: unsupported plane count "@
                + decimal(planes as int),
        }
    }

    /// The sentence that describes the fault.
    pub fn message(&self) -> (s: String)
        ensures
            s@ == self.text(),
    {
        let mut s: String = String::new();
        match self {
            Reason::Text(text) => {
                s.append(text);
            },
            Reason::RowCount { op, prev, cur, expected } => {
                s.append("ANIM op ");
                s.append(op);
                s.append(" encode: planar buffers have ");
                append_decimal(&mut s, *prev as u64);
                s.append(" / ");
                append_decimal(&mut s, *cur as u64);
                s.append(" rows, expected ");
                append_decimal(&mut s, *expected as u64);
            },
            Reason::RowWidth { op, row_bytes, unit, size } => {
                s.append("ANIM op ");
                s.append(op);
                s.append(": row_bytes ");
                append_decimal(&mut s, *row_bytes as u64);
                s.append(" not a multiple of ");
                s.append(unit);
                s.append(" ");
                append_decimal(&mut s, *size as u64);
            },
            Reason::PlaneSize { plane_bytes, size } => {
                s.append("ANIM op 2/3 encode: plane size ");
                append_decimal(&mut s, *plane_bytes as u64);
                s.append(" not a multiple of word size ");
                append_decimal(&mut s, *size as u64);
            },
            Reason::ReservedBits { bits } => {
                s.append("ANIM op 4: reserved ANHD.bits set (0x");
                append_hexadecimal(&mut s, *bits, 8);
                s.append("); requires bits 6..=31 = 0");
            },
            Reason::TooManyOps { column, plane, ops } => {
                s.append("ANIM op 7 encode: column ");
                append_decimal(&mut s, *column as u64);
                s.append(" of plane ");
                append_decimal(&mut s, *plane as u64);
                s.append(" produced ");
                append_decimal(&mut s, *ops as u64);
                s.append(" logical ops (max 255)");
            },
            Reason::TooManyPlanes { op, planes } => {
                s.append("ANIM op ");
                s.append(op);
                s.append(" encode: requires ≤ 8 colour planes (got ");
                append_decimal(&mut s, *planes as u64);
                s.append(")");
            },
            Reason::NoFrames { op } => {
                s.append("ANIM op ");
                s.append(op);
                s.append(" encode: at least one frame required");
            },
            Reason::AnhdLength { len } => {
                s.append("ANIM ANHD: need ≥24 bytes, got ");
                append_decimal(&mut s, *len as u64);
            },
            Reason::Operation { operation } => {
                s.append("ANIM: ANHD operation ");
                append_decimal(&mut s, *operation as u64);
                s.append(" not implemented (only 0, 1, 2, 3, 4, 5 and 7 supported)");
            },
            Reason::NotGroup { id } => {
                s.append("IFF: not a top-level group chunk (got ");
                append_quoted_id(&mut s, id);
                s.append(")");
            },
            Reason::GroupChildOverrun { id } => {
                s.append("IFF: group child ");
                append_quoted_id(&mut s, id);
                s.append(" overruns the containing group's ckSize");
            },
            Reason::DuplicateProp { form_type } => {
                s.append("IFF: a LIST may have at most one PROP of FORM type ");
                append_quoted_id(&mut s, form_type);
            },
            Reason::IllegalChild { id } => {
                s.append("IFF: ");
                append_quoted_id(&mut s, id);
                s.append(" is not a legal LIST/CAT child (grammar: PROP / FORM / LIST / CAT)");
            },
            Reason::ExpectedForm { id } => {
                s.append("ANIM: expected FORM chunk, got ");
                s.append(id_str(id));
            },
            Reason::NotAnim { form_type } => {
                s.append("IFF: not an ANIM file (form type ");
                append_quoted_id(&mut s, form_type);
                s.append(")");
            },
            Reason::ChildOverrun { id } => {
                s.append("ANIM: child chunk ");
                s.append(id_str(id));
                s.append(" extends past outer FORM");
            },
            Reason::AnimFormType { form_type } => {
                s.append("ANIM: outer form type is ");
                append_quoted_id(&mut s, form_type);
                s.append(" (expected ANIM)");
            },
            Reason::PlaneCount { planes } => {
                s.append("ILBM: unsupported plane count ");
                append_decimal(&mut s, *planes as u64);
            },
            Reason::HamPlanes { planes } => {
                s.append("ANIM HAM: unsupported plane count ");
                append_decimal(&mut s, *planes as u64);
            },
        }
        assert(s@ =~= self.text());
        s
    }
}

/// Failure of a container operation.
#[derive(Clone, Copy, Debug, PartialEq, Eq)]
pub enum IffError {
    /// The data is malformed.
    Invalid(Reason),
    /// The data is well formed but of a kind that is not handled.
    Unsupported(Reason),
    /// The data ends before everything that was asked for has been read.
    UnexpectedEnd,
}

impl IffError {
    /// The sentence that describes the failure.
    pub open spec fn text(self) -> Seq<char> {
        match self {
            IffError::Invalid(reason) => reason.text(),
            IffError::Unsupported(reason) => reason.text(),
            IffError::UnexpectedEnd => "failed to fill whole buffer"@,
        }
    }

    /// The sentence that describes the failure.
    pub fn message(&self) -> (s: String)
        ensures
            s@ == self.text(),
    {
        match self {
            IffError::Invalid(reason) => reason.message(),
            IffError::Unsupported(reason) => reason.message(),
            IffError::UnexpectedEnd => {
                let mut s: String = String::new();
                s.append("failed to fill whole buffer");
                assert(s@ =~= self.text());
                s
            },
        }
    }

    /// Malformed data, described by a fixed sentence.
    #[verifier::allow_in_spec]
    pub fn invalid(text: &'static str) -> IffError
        returns
            IffError::Invalid(Reason::Text(text)),
    {
        IffError::Invalid(Reason::Text(text))
    }

    /// An unhandled kind of data, described by a fixed sentence.
    #[verifier::allow_in_spec]
    pub fn unsupported(text: &'static str) -> IffError
        returns
            IffError::Unsupported(Reason::Text(text)),
    {
        IffError::Unsupported(Reason::Text(text))
    }
}

} // verus!
