//! Text compared without regard to the case of ASCII letters.

use vstd::prelude::*;
use vstd::string::StringSliceAdditionalSpecFns;

verus! {

/// A text that equals another when the two differ at most in the case of
/// their ASCII letters.
#[derive(Debug)]
pub struct CaseInsensitive<S>(pub S);

/// `b` with an ASCII capital letter made small.
pub open spec fn ascii_lower(b: u8) -> u8 {
    if 65 <= b <= 90 {
        (b + 32) as u8
    } else {
        b
    }
}

/// `s` with its ASCII capital letters made small.
pub open spec fn fold_case(s: Seq<u8>) -> Seq<u8> {
    Seq::new(s.len(), |i: int| ascii_lower(s[i]))
}

/// `a` and `b` differ at most in the case of their ASCII letters.
pub open spec fn eq_ignore_case(a: Seq<u8>, b: Seq<u8>) -> bool {
    fold_case(a) == fold_case(b)
}

/// `b` with an ASCII capital letter made small.
pub fn lower_byte(b: u8) -> (r: u8)
    ensures
        r == ascii_lower(b),
{
    if 65 <= b && b <= 90 {
        b + 32
    } else {
        b
    }
}

/// Whether `a` and `b` differ at most in the case of their ASCII letters.
pub fn bytes_eq_ignore_case(a: &[u8], b: &[u8]) -> (r: bool)
    ensures
        r == eq_ignore_case(a@, b@),
{
    if a.len() != b.len() {
        assert(fold_case(a@).len() != fold_case(b@).len());
        return false;
    }
    let mut i: usize = 0;
    while i < a.len()
        invariant
            i <= a.len(),
            a.len() == b.len(),
            forall|j: int| 0 <= j < i ==> ascii_lower(a@[j]) == ascii_lower(b@[j]),
        decreases a.len() - i,
    {
        if lower_byte(a[i]) != lower_byte(b[i]) {
            assert(fold_case(a@)[i as int] != fold_case(b@)[i as int]);
            return false;
        }
        i += 1;
    }
    assert(fold_case(a@) =~= fold_case(b@));
    true
}

impl<'a> CaseInsensitive<&'a str> {
    /// Whether the text and `other` differ at most in the case of their
    /// ASCII letters.
    pub fn matches(&self, other: &str) -> (r: bool)
        ensures
            r == eq_ignore_case(self.0.spec_bytes(), other.spec_bytes()),
    {
        bytes_eq_ignore_case(self.0.as_bytes(), other.as_bytes())
    }
}

impl<'a, 'b> PartialEq<&'b str> for CaseInsensitive<&'a str> {
    fn eq(&self, other: &&'b str) -> (r: bool) {
        self.matches(*other)
    }
}

impl<'a, 'b> vstd::std_specs::cmp::PartialEqSpecImpl<&'b str> for CaseInsensitive<&'a str> {
    open spec fn obeys_eq_spec() -> bool {
        true
    }

    open spec fn eq_spec(&self, other: &&'b str) -> bool {
        eq_ignore_case(self.0.spec_bytes(), other.spec_bytes())
    }
}

/// Case-insensitive equality is reflexive, symmetric and transitive.
pub proof fn lemma_eq_ignore_case_equivalence(a: Seq<u8>, b: Seq<u8>, c: Seq<u8>)
    ensures
        eq_ignore_case(a, a),
        eq_ignore_case(a, b) ==> eq_ignore_case(b, a),
        eq_ignore_case(a, b) && eq_ignore_case(b, c) ==> eq_ignore_case(a, c),
{
}

} // verus!
