//! The errors a registry operation can report.

use vstd::prelude::*;

verus! {

/// An expected, user-facing failure of a registry operation.
///
/// These are policy outcomes, not defects: each names the point (and,
/// for a duplicate, the path it already maps to) so the caller can
/// report it. None of them corrupts the registry — an operation that
/// fails writes nothing.
#[derive(Debug)]
pub enum WarpError {
    /// No override location was given and no home directory could be
    /// determined, so the registry file cannot be located.
    NoHomeDir,
    /// `add` found the name already bound; the fields are the name and
    /// the path it is already bound to.
    PointExists(String, String),
    /// A lookup or removal named a point that is not in the registry;
    /// the field is that name.
    NoSuchPoint(String),
}

impl WarpError {
    /// The one-line description of `self`, for display.
    pub open spec fn spec_message(self) -> Seq<char> {
        match self {
            WarpError::NoHomeDir => "unable to locate the registry file (no home directory)"@,
            WarpError::PointExists(name, path) => "warp point exists '"@ + name@ + " -> "@ + path@
                + "'"@,
            WarpError::NoSuchPoint(name) => "no warp point named '"@ + name@ + "'"@,
        }
    }

    /// Render the failure for display.
    pub fn message(&self) -> (r: String)
        ensures
            r@ == self.spec_message(),
    {
        match self {
            WarpError::NoHomeDir => {
                let mut s = String::new();
                s.append("unable to locate the registry file (no home directory)");
                proof {
                    assert(s@ =~= self.spec_message());
                }
                s
            },
            WarpError::PointExists(name, path) => {
                let mut s = String::new();
                s.append("warp point exists '");
                s.append(name.as_str());
                s.append(" -> ");
                s.append(path.as_str());
                s.append("'");
                proof {
                    assert(s@ =~= self.spec_message());
                }
                s
            },
            WarpError::NoSuchPoint(name) => {
                let mut s = String::new();
                s.append("no warp point named '");
                s.append(name.as_str());
                s.append("'");
                proof {
                    assert(s@ =~= self.spec_message());
                }
                s
            },
        }
    }
}

} // verus!
