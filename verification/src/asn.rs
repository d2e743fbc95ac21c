//! The ASN grammar: `AS` followed by one to six digits, the first digit
//! nonzero. Raw input is whitespace-trimmed and case-normalized before it
//! is matched.

use crate::chars::{
    is_digit, is_space, spec_trim, digit, to_chars, trim_bounds, lemma_trim_no_space,
};
use crate::PipelineError;
use vstd::prelude::*;
use vstd::string::StrSliceExecFns;
use vstd::string::StringExecFns;

verus! {

/// A normalized ASN token: `AS` then one to six digits, no leading zero.
pub open spec fn spec_is_asn(s: Seq<char>) -> bool {
    &&& 3 <= s.len() <= 8
    &&& s[0] == 'A'
    &&& s[1] == 'S'
    &&& s[2] != '0'
    &&& forall|i: int| 2 <= i < s.len() ==> is_digit(s[i])
}

/// The same shape up to the case of the two letters; what the validator
/// accepts after trimming.
pub open spec fn spec_asn_shape(t: Seq<char>) -> bool {
    &&& 3 <= t.len() <= 8
    &&& (t[0] == 'A' || t[0] == 'a')
    &&& (t[1] == 'S' || t[1] == 's')
    &&& t[2] != '0'
    &&& forall|i: int| 2 <= i < t.len() ==> is_digit(t[i])
}

/// Case-normalization of a trimmed token of the accepted shape: the two
/// letters uppercased, the digits unchanged.
pub open spec fn spec_normalize_asn(t: Seq<char>) -> Seq<char> {
    seq!['A', 'S'] + t.subrange(2, t.len() as int)
}

/// Trims and case-normalizes `raw`; returns the normalized ASN if and
/// only if the result matches the ASN grammar, `InvalidAsn` otherwise.
#[verifier::loop_isolation(false)]
pub fn validate_asn(raw: &str) -> (r: Result<String, PipelineError>)
    ensures
        r is Ok <==> spec_asn_shape(spec_trim(raw@)),
        r matches Ok(s) ==> s@ == spec_normalize_asn(spec_trim(raw@)) && spec_is_asn(s@),
        r matches Err(e) ==> e is InvalidAsn,
{
    let v = to_chars(raw);
    let (lo, hi) = trim_bounds(&v);
    let ghost t = spec_trim(raw@);
    let n = hi - lo;
    if n < 3 || n > 8 {
        return Err(PipelineError::InvalidAsn);
    }
    if !(v[lo] == 'A' || v[lo] == 'a') {
        return Err(PipelineError::InvalidAsn);
    }
    if !(v[lo + 1] == 'S' || v[lo + 1] == 's') {
        return Err(PipelineError::InvalidAsn);
    }
    if v[lo + 2] == '0' {
        return Err(PipelineError::InvalidAsn);
    }
    let mut i: usize = lo + 2;
    while i < hi
        invariant
            lo + 2 <= i <= hi <= v@.len(),
            forall|j: int| lo + 2 <= j < i ==> is_digit(v@[j]),
        decreases hi - i,
    {
        if !digit(v[i]) {
            proof {
                assert(!is_digit(t[i - lo]));
            }
            return Err(PipelineError::InvalidAsn);
        }
        i = i + 1;
    }
    proof {
        assert(spec_asn_shape(t));
    }
    let digits = raw.substring_char(lo + 2, hi);
    let res = String::from_str("AS").concat(digits);
    proof {
        reveal_strlit("AS");
        assert(digits@ =~= t.subrange(2, t.len() as int));
        assert(res@ =~= spec_normalize_asn(t));
        assert(spec_is_asn(res@));
    }
    Ok(res)
}

/// A string that already matches the ASN grammar exactly is accepted and
/// comes back unchanged: it holds no whitespace and no lowercase letter.
pub proof fn lemma_asn_exact_accepted(s: Seq<char>)
    requires
        spec_is_asn(s),
    ensures
        spec_asn_shape(spec_trim(s)),
        spec_normalize_asn(spec_trim(s)) == s,
{
    assert forall|j: int| 0 <= j < s.len() implies !is_space(s[j]) by {
        if j >= 2 {
            assert(is_digit(s[j]));
        }
    }
    lemma_trim_no_space(s);
    assert(spec_normalize_asn(s) =~= s);
}

} // verus!
