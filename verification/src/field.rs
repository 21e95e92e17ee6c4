//! Domain values of the tree, held as their canonical byte encoding.
//!
//! A value is an element of the scalar field of BLS12-381 written as 48
//! bytes, most significant byte first. The library never does arithmetic on
//! values: it only needs the two constants that stand for an unset and a set
//! bit, and it needs to compare and copy encodings.

use amcl_wrapper::field_elem::FieldElement;
use vstd::prelude::*;

verus! {

/// The width of an encoded value in bytes.
pub const EL_SIZE: usize = 48;

/// The encoding of the field's additive identity: all bytes zero.
pub open spec fn zero_el() -> Seq<u8> {
    Seq::new(EL_SIZE as nat, |i: int| 0u8)
}

/// The encoding of the field's multiplicative identity: the number 1,
/// most significant byte first.
pub open spec fn one_el() -> Seq<u8> {
    Seq::new(EL_SIZE as nat, |i: int| if i == EL_SIZE - 1 { 1u8 } else { 0u8 })
}

/// The byte contents of a sequence of encoded values.
pub open spec fn els(v: Seq<Vec<u8>>) -> Seq<Seq<u8>> {
    Seq::new(v.len(), |i: int| v[i]@)
}

/// `FieldElement::zero()` followed by `FieldElement::to_bytes()`. The
/// element is the big number 0, and `to_bytes` writes a big number as
/// `MODBYTES` (48 for this curve) bytes, most significant first; so the
/// result is 48 zero bytes.
#[verifier::external_body]
fn field_zero_bytes() -> (bytes: Vec<u8>)
    ensures
        bytes@ == zero_el(),
{
    FieldElement::zero().to_bytes()
}

/// `FieldElement::one()` followed by `FieldElement::to_bytes()`. The
/// element is the big number 1, written as 48 bytes, most significant
/// first; so the result is 47 zero bytes and then the byte 1.
#[verifier::external_body]
fn field_one_bytes() -> (bytes: Vec<u8>)
    ensures
        bytes@ == one_el(),
{
    FieldElement::one().to_bytes()
}

/// The value that stands for an unset bit.
pub fn zero() -> (el: Vec<u8>)
    ensures
        el@ == zero_el(),
{
    field_zero_bytes()
}

/// The value that stands for a set bit.
pub fn one() -> (el: Vec<u8>)
    ensures
        el@ == one_el(),
{
    field_one_bytes()
}

/// Whether two encodings hold the same bytes.
pub fn same_bytes(a: &Vec<u8>, b: &Vec<u8>) -> (same: bool)
    ensures
        same == (a@ == b@),
{
    if a.len() != b.len() {
        return false;
    }
    let mut i: usize = 0;
    while i < a.len()
        invariant
            i <= a.len(),
            a.len() == b.len(),
            forall|k: int| 0 <= k < i ==> a@[k] == b@[k],
        decreases a.len() - i,
    {
        if a[i] != b[i] {
            return false;
        }
        i += 1;
    }
    assert(a@ =~= b@);
    true
}

/// A copy of a sequence of encoded values.
pub fn copy_els(v: &Vec<Vec<u8>>) -> (copy: Vec<Vec<u8>>)
    ensures
        els(copy@) == els(v@),
{
    let mut copy: Vec<Vec<u8>> = Vec::new();
    let mut i: usize = 0;
    while i < v.len()
        invariant
            i <= v.len(),
            copy.len() == i,
            forall|k: int| 0 <= k < i ==> copy@[k]@ == v@[k]@,
        decreases v.len() - i,
    {
        let el: Vec<u8> = v[i].clone();
        copy.push(el);
        i += 1;
    }
    assert(els(copy@) =~= els(v@));
    copy
}

} // verus!
