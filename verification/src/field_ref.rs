//! References to a field of a protobuf message, written as a dotted path.

use vstd::prelude::*;
use vstd::utf8::*;
use vstd::string::*;
use crate::text::{
    find_first_from, first_index_from, lemma_after_ascii_is_boundary,
    lemma_ascii_byte_is_boundary, lemma_first_index_from,
};
use crate::qualified_service::DOT;

verus! {

/// The pieces into which the byte `sep` cuts `s`. A string without `sep` is
/// one piece; `n` separators always give `n + 1` pieces, empty ones included.
pub open spec fn split_on(s: Seq<u8>, sep: u8) -> Seq<Seq<u8>>
    decreases s.len(),
{
    let i = first_index_from(s, sep, 0);
    if 0 <= i < s.len() {
        seq![s.subrange(0, i)] + split_on(s.subrange(i + 1, s.len() as int), sep)
    } else {
        seq![s]
    }
}

/// Cutting a string gives at least one piece.
pub proof fn lemma_split_nonempty(s: Seq<u8>, sep: u8)
    ensures
        split_on(s, sep).len() >= 1,
    decreases s.len(),
{
    let i = first_index_from(s, sep, 0);
    if 0 <= i < s.len() {
        lemma_split_nonempty(s.subrange(i + 1, s.len() as int), sep);
    }
}

/// One step of a field path.
#[derive(Debug)]
pub enum PathComponent {
    /// Descend into the field of this name.
    Field(String),
}

impl PathComponent {
    /// The UTF-8 bytes of the field's name.
    pub open spec fn name_bytes(self) -> Seq<u8> {
        match self {
            PathComponent::Field(name) => encode_utf8(name@),
        }
    }
}

/// A path from a message to one of its (nested) fields.
#[derive(Debug)]
pub struct FieldRef {
    pub components: Vec<PathComponent>,
}

/// Why a field reference was refused. `parse` accepts every text, so it
/// never hands one out; the variant stands for paths that a stricter grammar
/// would refuse.
#[derive(Debug)]
pub enum ParseError {
    /// The text is no dotted path.
    Malformed,
}

impl FieldRef {
    /// The names along the path, each as UTF-8 bytes.
    pub open spec fn names(self) -> Seq<Seq<u8>> {
        Seq::new(self.components@.len(), |i: int| self.components@[i].name_bytes())
    }

    /// Reads a dotted path: every piece between two `.` is a field name.
    pub fn parse(string: &str) -> (r: Result<FieldRef, ParseError>)
        ensures
            r matches Ok(f) && f.names() == split_on(string.spec_bytes(), DOT),
    {
        let mut components: Vec<PathComponent> = Vec::new();
        let mut rest: &str = string;
        loop
            invariant_except_break
                split_on(string.spec_bytes(), DOT) == Seq::new(
                    components@.len(),
                    |i: int| components@[i].name_bytes(),
                ) + split_on(rest.spec_bytes(), DOT),
            ensures
                split_on(string.spec_bytes(), DOT) == Seq::new(
                    components@.len(),
                    |i: int| components@[i].name_bytes(),
                ),
            decreases rest.spec_bytes().len(),
        {
            let bytes = rest.as_bytes();
            let i = find_first_from(bytes, DOT, 0);
            let ghost before = Seq::new(components@.len(), |i: int| components@[i].name_bytes());
            if i >= bytes.len() {
                components.push(PathComponent::Field(rest.to_owned()));
                proof {
                    lemma_first_index_from(bytes@, DOT, 0);
                    assert(Seq::new(components@.len(), |i: int| components@[i].name_bytes())
                        =~= before + seq![rest.spec_bytes()]);
                }
                break ;
            }
            proof {
                lemma_first_index_from(bytes@, DOT, 0);
                lemma_ascii_byte_is_boundary(rest@, i as int);
            }
            let (piece, tail) = rest.split_at(i);
            proof {
                assert(tail.spec_bytes()[0] == DOT);
                lemma_after_ascii_is_boundary(tail@);
            }
            let (_dot, next) = tail.split_at(1);
            components.push(PathComponent::Field(piece.to_owned()));
            proof {
                assert(next.spec_bytes() =~= bytes@.subrange(i + 1, bytes@.len() as int));
                assert(Seq::new(components@.len(), |i: int| components@[i].name_bytes())
                    =~= before + seq![piece.spec_bytes()]);
                assert(before + seq![piece.spec_bytes()] + split_on(next.spec_bytes(), DOT)
                    =~= before + split_on(rest.spec_bytes(), DOT));
            }
            rest = next;
        }
        Ok(FieldRef { components })
    }
}

} // verus!
