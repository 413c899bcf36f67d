//! Reading a value from the text of a document.

use crate::error::OfxError;
use crate::header::{ofx, spec_header};
use crate::model::Ofx;
use vstd::prelude::*;

verus! {

/// Values that can be read from the text of a document.
pub trait Read: Sized {
    fn read(input: &str) -> Result<Self, OfxError>;
}

impl Read for Ofx {
    /// Reads the header block at the start of `input`; what follows the
    /// block is not looked at.
    fn read(input: &str) -> (r: Result<Ofx, OfxError>)
        ensures
            match spec_header(input@) {
                Ok((entries, _)) => r matches Ok(document) && document@ == entries,
                Err(e) => r == Err::<Ofx, _>(OfxError::ParseError(e)),
            },
    {
        match ofx(input) {
            Ok(p) => Ok(p.1),
            Err(e) => Err(OfxError::ParseError(e)),
        }
    }
}

} // verus!
