use vstd::prelude::*;

verus! {

/// Why the results could not be stored in a file.
#[derive(Debug)]
pub struct OutfileError {
    kind: OutfileErrorKind,
}

#[derive(Debug, PartialEq, Eq, Structural)]
pub enum OutfileErrorKind {
    FileAlreadyExists,
    DirectoryAlreadyExists,
    Skip,
    InvalidMode,
}

/// The text describing each kind of error.
pub open spec fn kind_description(kind: OutfileErrorKind) -> Seq<char> {
    match kind {
        OutfileErrorKind::FileAlreadyExists => "cannot create this file because it already exists"@,
        OutfileErrorKind::DirectoryAlreadyExists => "cannot create this file because it is a directory"@,
        OutfileErrorKind::Skip => "do not store results in a file"@,
        OutfileErrorKind::InvalidMode => "invalid storing mode selected"@,
    }
}

impl OutfileError {
    pub closed spec fn kind_of(&self) -> OutfileErrorKind {
        self.kind
    }

    pub fn new(kind: OutfileErrorKind) -> (r: Self)
        ensures
            r.kind_of() == kind,
    {
        Self { kind }
    }

    pub fn kind(&self) -> (r: &OutfileErrorKind)
        ensures
            *r == self.kind_of(),
    {
        &self.kind
    }

    /// The text describing the error, as `kind_description` states.
    pub fn __description(&self) -> (r: &'static str)
        ensures
            r@ == kind_description(self.kind_of()),
    {
        match self.kind {
            OutfileErrorKind::FileAlreadyExists => "cannot create this file because it already exists",
            OutfileErrorKind::DirectoryAlreadyExists => "cannot create this file because it is a directory",
            OutfileErrorKind::Skip => "do not store results in a file",
            OutfileErrorKind::InvalidMode => "invalid storing mode selected",
        }
    }
}

} // verus!
