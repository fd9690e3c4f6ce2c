//! Fully qualified gRPC service names.

use vstd::prelude::*;
use vstd::utf8::*;
use vstd::string::*;
use crate::text::{find_last, last_index_of, lemma_last_index_of, lemma_ascii_byte_is_boundary, lemma_after_ascii_is_boundary};

verus! {

/// The byte `.` that parts a package from a service name.
pub const DOT: u8 = 0x2e;

/// Why a qualified service name was refused.
#[derive(Debug, Clone)]
pub enum Error {
    /// The name holds no `.`, so no package can be told from the service.
    FailedParseQualifiedService { name: String },
}

impl Error {
    /// The message of this error: what failed, and the name that was
    /// refused.
    pub fn message(&self) -> (s: String)
        ensures
            self matches Error::FailedParseQualifiedService { name } && s@
                == "failed to parse qualified service name: "@ + name@,
    {
        match self {
            Error::FailedParseQualifiedService { name } => {
                let mut s = "failed to parse qualified service name: ".to_owned();
                s.append(name.as_str());
                s
            },
        }
    }
}

/// A gRPC service name parted into its package and its own name.
#[derive(Debug, Clone)]
pub struct QualifiedService {
    pub package: String,
    pub name: String,
}

/// Whether `q` is the full name `full` parted at its last `.`.
pub open spec fn names_service(q: QualifiedService, full: Seq<char>) -> bool {
    let bytes = encode_utf8(full);
    let i = last_index_of(bytes, DOT);
    &&& i >= 0
    &&& encode_utf8(q.package@) == bytes.subrange(0, i)
    &&& encode_utf8(q.name@) == bytes.subrange(i + 1, bytes.len() as int)
}

impl QualifiedService {
    /// Parts `qualified_service` at its last `.`: what stands before it is
    /// the package, what stands behind it the name. A name without a `.` is
    /// refused.
    pub fn parse(qualified_service: &str) -> (r: Result<QualifiedService, Error>)
        ensures
            r is Ok <==> last_index_of(qualified_service.spec_bytes(), DOT) >= 0,
            r matches Ok(q) ==> names_service(q, qualified_service@),
            r matches Err(e) ==> e matches Error::FailedParseQualifiedService { name }
                && name@ == qualified_service@,
    {
        let bytes = qualified_service.as_bytes();
        match find_last(bytes, DOT) {
            Some(i) => {
                proof {
                    lemma_last_index_of(bytes@, DOT);
                    lemma_ascii_byte_is_boundary(qualified_service@, i as int);
                }
                let (package, rest) = qualified_service.split_at(i);
                proof {
                    assert(rest.spec_bytes()[0] == DOT);
                    lemma_after_ascii_is_boundary(rest@);
                }
                let (_dot, name) = rest.split_at(1);
                proof {
                    assert(name.spec_bytes() =~= bytes@.subrange(i + 1, bytes@.len() as int));
                }
                Ok(QualifiedService { package: package.to_owned(), name: name.to_owned() })
            },
            None => Err(Error::FailedParseQualifiedService { name: qualified_service.to_owned() }),
        }
    }

    /// The name as it is written: the package, a `.`, and the service's name.
    pub fn to_text(&self) -> (s: String)
        ensures
            s@ == self.package@ + seq!['.'] + self.name@,
    {
        let mut s = self.package.clone();
        proof {
            reveal_strlit(".");
        }
        s.append(".");
        s.append(self.name.as_str());
        proof {
            assert("."@ =~= seq!['.']);
        }
        s
    }
}

} // verus!
