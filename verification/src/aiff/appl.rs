//! The application chunk: data that one application keeps in the file.

use vstd::prelude::*;
use crate::aiff::error::AiffError;
use crate::bytes::{copy_range, id_at, push_all, read_id, same_id};
use crate::text::{decode_lossy, lossy_text};
use vstd::slice::slice_subrange;

verus! {

/// What kind of application a signature stands for.
#[derive(Clone, Copy, Debug, PartialEq, Eq, Structural)]
pub enum ApplicationDialect {
    /// One for the Apple II.
    AppleII,
    /// One for a computer that is not an Apple.
    NonApple,
    /// One for the Macintosh.
    Macintosh,
}

/// Signature of applications for the Apple II.
pub const SIGNATURE_PDOS: [u8; 4] = [0x70, 0x64, 0x6F, 0x73];

/// Signature of applications for computers that are not Apples.
pub const SIGNATURE_STOC: [u8; 4] = [0x73, 0x74, 0x6F, 0x63];

/// An application chunk.
#[derive(Clone, Debug, PartialEq, Eq)]
pub struct ApplicationChunk {
    /// Signature of the application.
    pub signature: [u8; 4],
    /// Its data.
    pub data: Vec<u8>,
}

/// What an application chunk says.
#[verifier::ext_equal]
pub struct Application {
    /// Signature of the application.
    pub signature: [u8; 4],
    /// Its data.
    pub data: Seq<u8>,
}

impl View for ApplicationChunk {
    type V = Application;

    open spec fn view(&self) -> Application {
        Application { signature: self.signature, data: self.data@ }
    }
}

/// Kind of application that a signature stands for.
pub open spec fn dialect_of(signature: [u8; 4]) -> ApplicationDialect {
    if signature == SIGNATURE_PDOS {
        ApplicationDialect::AppleII
    } else if signature == SIGNATURE_STOC {
        ApplicationDialect::NonApple
    } else {
        ApplicationDialect::Macintosh
    }
}

/// Length of the name that the data start with, behind a byte that says it. There is none in
/// the data of a Macintosh application, nor where the data are too short for it.
pub open spec fn name_length(a: Application) -> Option<int> {
    if dialect_of(a.signature) == ApplicationDialect::Macintosh || a.data.len() == 0 || 1
        + a.data[0] > a.data.len() {
        None
    } else {
        Some(a.data[0] as int)
    }
}

impl ApplicationChunk {
    /// Kind of application that the signature stands for.
    pub fn dialect(&self) -> (r: ApplicationDialect)
        ensures
            r == dialect_of(self.signature),
    {
        if same_id(self.signature, SIGNATURE_PDOS) {
            ApplicationDialect::AppleII
        } else if same_id(self.signature, SIGNATURE_STOC) {
            ApplicationDialect::NonApple
        } else {
            ApplicationDialect::Macintosh
        }
    }

    fn named(&self) -> (r: Option<usize>)
        ensures
            match r {
                Some(n) => name_length(self@) == Some(n as int) && 1 + n <= self.data@.len(),
                None => name_length(self@) is None,
            },
    {
        if self.dialect() == ApplicationDialect::Macintosh || self.data.len() == 0 {
            return None;
        }
        let len: usize = self.data[0] as usize;
        if 1 + len > self.data.len() {
            return None;
        }
        Some(len)
    }

    /// Name of the application.
    pub fn application_name(&self) -> (r: Option<String>)
        ensures
            match r {
                Some(s) => name_length(self@) is Some && s@ == lossy_text(
                    self@.data.subrange(1, 1 + name_length(self@)->0),
                ),
                None => name_length(self@) is None,
            },
    {
        match self.named() {
            Some(n) => Some(decode_lossy(slice_subrange(self.data.as_slice(), 1, 1 + n))),
            None => None,
        }
    }

    /// The data behind the name.
    pub fn payload_after_name(&self) -> (r: &[u8])
        ensures
            r@ == match name_length(self@) {
                Some(n) => self@.data.subrange(1 + n, self@.data.len() as int),
                None => self@.data,
            },
    {
        match self.named() {
            Some(n) => slice_subrange(self.data.as_slice(), 1 + n, self.data.len()),
            None => self.data.as_slice(),
        }
    }
}

/// The application chunk that a body describes.
pub open spec fn application_read(d: Seq<u8>) -> Result<Application, AiffError> {
    if d.len() < 4 {
        Err(AiffError::Truncated("APPL signature"))
    } else {
        Ok(Application { signature: id_at(d, 0), data: d.subrange(4, d.len() as int) })
    }
}

/// Reads the body of an application chunk.
pub fn parse_appl_chunk(data: &[u8]) -> (r: Result<ApplicationChunk, AiffError>)
    ensures
        match r {
            Ok(c) => application_read(data@) == Ok::<Application, AiffError>(c@),
            Err(e) => application_read(data@) == Err::<Application, AiffError>(e),
        },
{
    if data.len() < 4 {
        return Err(AiffError::Truncated("APPL signature"));
    }
    Ok(ApplicationChunk { signature: read_id(data, 0), data: copy_range(data, 4, data.len()) })
}

/// The body of an application chunk.
pub open spec fn application_bytes(a: Application) -> Seq<u8> {
    a.signature@ + a.data
}

/// Writes the body of an application chunk.
pub fn write_appl_chunk(c: &ApplicationChunk) -> (out: Vec<u8>)
    ensures
        out@ == application_bytes(c@),
{
    let mut out: Vec<u8> = Vec::new();
    push_all(&mut out, &c.signature);
    push_all(&mut out, c.data.as_slice());
    assert(out@ =~= application_bytes(c@));
    out
}

/// An application chunk that is written is read back.
pub proof fn law_application_round_trip(a: Application)
    ensures
        application_read(application_bytes(a)) == Ok::<Application, AiffError>(a),
{
    let d = application_bytes(a);
    assert(id_at(d, 0) =~= a.signature);
    assert(d.subrange(4, d.len() as int) =~= a.data);
}

} // verus!
