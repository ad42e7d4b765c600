use vstd::prelude::*;

verus! {

/// The failure kinds of the engine.
///
/// `Decode` reports malformed on-disk bytes (truncation, an unknown page
/// type, an invalid serial-type encoding, bad UTF-8, or a structural
/// mismatch found during traversal).  `Schema` reports a missing table or
/// column, or an unparseable `CREATE TABLE` text.  `Syntax` reports an
/// unrecognised or unexpected token in the query string.  `Unimplemented`
/// marks a known feature boundary, such as blob comparison or a `COUNT(*)`
/// over a table whose root page is an interior page.
#[derive(Clone, Copy, Debug, PartialEq, Eq, Structural)]
pub enum Error {
    Decode,
    Schema,
    Syntax,
    Unimplemented,
}

impl Error {
    /// A short diagnostic text for this error kind.
    pub fn describe(&self) -> (r: &'static str)
        ensures
            *self == Error::Decode ==> r@ == "malformed database bytes"@,
            *self == Error::Schema ==> r@ == "schema error"@,
            *self == Error::Syntax ==> r@ == "syntax error"@,
            *self == Error::Unimplemented ==> r@ == "unimplemented"@,
    {
        match self {
            Error::Decode => "malformed database bytes",
            Error::Schema => "schema error",
            Error::Syntax => "syntax error",
            Error::Unimplemented => "unimplemented",
        }
    }
}

} // verus!
