//! The element encoder: a chunk becomes a group element, and a group element
//! gives its chunk back.

use vstd::prelude::*;
use crate::error::SerializerError;
use crate::scheme::GroupElement;
use crate::scheme::RecordSerializerScheme;
use crate::scheme::Root;

verus! {

/// The root that a request for the high root, or for the canonical one, names.
pub open spec fn root_of(high: bool) -> Root {
    if high {
        Root::High
    } else {
        Root::Low
    }
}

/// A copy of a bit vector.
pub fn copy_bits(bits: &Vec<bool>) -> (copy: Vec<bool>)
    ensures
        copy@ == bits@,
{
    let mut copy: Vec<bool> = Vec::new();
    let mut i: usize = 0;
    while i < bits.len()
        invariant
            i <= bits.len(),
            copy@ == bits@.take(i as int),
        decreases bits.len() - i,
    {
        copy.push(bits[i]);
        proof {
            assert(bits@.take(i + 1) == bits@.take(i as int).push(bits@[i as int]));
        }
        i += 1;
    }
    proof {
        assert(bits@.take(i as int) == bits@);
    }
    copy
}

/// Embeds a chunk as the group element that has it as coordinate. Without a
/// request for the high root the canonical point is chosen; the returned bit
/// says whether the choice departed from it.
pub fn encode<S: RecordSerializerScheme>(scheme: &S, x: &Vec<bool>, high: bool) -> (r: Result<
    (GroupElement, bool),
    SerializerError,
>)
    requires
        scheme.well_formed(),
    ensures
        scheme.is_coordinate(x@) ==> r is Ok && r->Ok_0.0@ == (x@, root_of(high)) && r->Ok_0.1 == high,
        !scheme.is_coordinate(x@) ==> r == Err::<(GroupElement, bool), SerializerError>(
            SerializerError::InvalidFieldElement,
        ),
{
    if !scheme.has_point(x) {
        return Err(SerializerError::InvalidFieldElement);
    }
    let root = if high {
        Root::High
    } else {
        Root::Low
    };
    Ok((GroupElement { coordinate: copy_bits(x), root }, high))
}

/// Reads back the coordinate that a group element was made from. No hint
/// about the root is needed, and no group element is refused.
pub fn decode(p: &GroupElement) -> (x: Vec<bool>)
    ensures
        x@ == p@.0,
{
    copy_bits(&p.coordinate)
}

/// Whether a group element is the canonical one of its coordinate.
pub fn is_canonical(p: &GroupElement) -> (low: bool)
    ensures
        low == (p@.1 == Root::Low),
{
    match p.root {
        Root::Low => true,
        Root::High => false,
    }
}

} // verus!
