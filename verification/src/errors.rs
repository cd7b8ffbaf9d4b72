//! The error kinds archive operations can report.

use vstd::prelude::*;
use vstd::string::StringExecFns;
use crate::numtext::emit_u32;
use crate::numtext::spec_dec_digits;

verus! {

/// What went wrong during an archive or manager operation.
#[derive(Debug, Clone, Copy, PartialEq, Eq, Structural)]
pub enum Error {
    /// Data was found but could not be read as an archive or manager.
    DataLoad,
    /// No archive at the requested location.
    ArchiveNotFound,
    /// No manager file at the requested location.
    ManagerNotFound,
    /// The path could not be read from or written to.
    DataPath,
    /// The in-memory state could not be written out.
    DataSave,
    /// A stored version differs from the one this crate understands,
    /// carrying the version that was found.
    IncompatibleVersion(u32),
}

impl Error {
    /// A short human-readable account of the error.
    pub fn describe(&self) -> (r: String)
        ensures
            self == Error::DataLoad ==> r@ == "could not load data because it was invalid/corrupted"@,
            self == Error::ArchiveNotFound ==> r@ == "archive could not be found"@,
            self == Error::ManagerNotFound ==> r@ == "manager file could not be found"@,
            self == Error::DataPath ==> r@ == "could not access path or read from a file"@,
            self == Error::DataSave ==> r@ == "could not save data"@,
            self matches Error::IncompatibleVersion(v) ==> r@ == "version found was "@
                + spec_dec_digits(v as int) + " but this crate understands "@ + spec_dec_digits(
                crate::VERSION_COMPAT as int,
            ),
    {
        let mut out = String::new();
        match self {
            Error::DataLoad => {
                out.append("could not load data because it was invalid/corrupted");
                proof {
                    assert(out@ =~= "could not load data because it was invalid/corrupted"@);
                }
            },
            Error::ArchiveNotFound => {
                out.append("archive could not be found");
                proof {
                    assert(out@ =~= "archive could not be found"@);
                }
            },
            Error::ManagerNotFound => {
                out.append("manager file could not be found");
                proof {
                    assert(out@ =~= "manager file could not be found"@);
                }
            },
            Error::DataPath => {
                out.append("could not access path or read from a file");
                proof {
                    assert(out@ =~= "could not access path or read from a file"@);
                }
            },
            Error::DataSave => {
                out.append("could not save data");
                proof {
                    assert(out@ =~= "could not save data"@);
                }
            },
            Error::IncompatibleVersion(v) => {
                out.append("version found was ");
                emit_u32(&mut out, *v);
                out.append(" but this crate understands ");
                emit_u32(&mut out, crate::version_compat());
                proof {
                    assert(out@ =~= "version found was "@ + spec_dec_digits(*v as int)
                        + " but this crate understands "@ + spec_dec_digits(
                        crate::VERSION_COMPAT as int,
                    ));
                }
            },
        }
        out
    }
}

} // verus!
