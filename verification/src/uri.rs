//! Bucket URI dispatch: `s3://bucket` and `gs://bucket` name a provider and
//! a bucket; every other scheme is rejected.

use vstd::prelude::*;
use vstd::string::*;

use crate::model::FSError;

verus! {

/// The storage provider a bucket URI names.
#[derive(Debug)]
pub enum Provider {
    AWS,
    GCS,
}

impl Provider {
    pub fn is_aws(&self) -> (r: bool)
        ensures
            r == (self is AWS),
    {
        matches!(self, Provider::AWS)
    }

    pub fn _is_gcs(&self) -> (r: bool)
        ensures
            r == (self is GCS),
    {
        matches!(self, Provider::GCS)
    }
}

/// Whether `p` is a prefix of `s`.
pub open spec fn starts_with(s: Seq<char>, p: Seq<char>) -> bool {
    s.len() >= p.len() && s.subrange(0, p.len() as int) == p
}

/// Position of the first `"://"` in `s`, searching from `i`; -1 when absent.
pub open spec fn first_scheme_sep(s: Seq<char>, i: int) -> int
    decreases s.len() - i,
{
    if i < 0 || i + 3 > s.len() {
        -1
    } else if s[i] == ':' && s[i + 1] == '/' && s[i + 2] == '/' {
        i
    } else {
        first_scheme_sep(s, i + 1)
    }
}

/// The text after the first `"://"`, or nothing when no separator occurs.
pub open spec fn bucket_of_uri(s: Seq<char>) -> Seq<char> {
    if first_scheme_sep(s, 0) >= 0 {
        s.subrange(first_scheme_sep(s, 0) + 3, s.len() as int)
    } else {
        Seq::empty()
    }
}

/// Whether `s` begins with the characters of `p`.
fn str_starts_with(s: &str, p: &str) -> (r: bool)
    ensures
        r == starts_with(s@, p@),
{
    let ns = s.unicode_len();
    let np = p.unicode_len();
    if ns < np {
        return false;
    }
    let mut i: usize = 0;
    while i < np
        invariant
            i <= np,
            np == p@.len(),
            ns == s@.len(),
            ns >= np,
            forall|j: int| 0 <= j < i ==> s@[j] == p@[j],
        decreases np - i,
    {
        if s.get_char(i) != p.get_char(i) {
            proof {
                assert(s@.subrange(0, np as int)[i as int] != p@[i as int]);
            }
            return false;
        }
        i = i + 1;
    }
    proof {
        assert(s@.subrange(0, np as int) =~= p@);
    }
    true
}

/// The provider a URI names: `s3://` means AWS, `gs://` means GCS, and any
/// other shape is an error naming the URI.
pub fn parse_provider_from_uri(bucket_uri: &str) -> (r: Result<Provider, FSError>)
    ensures
        r is Ok <==> (starts_with(bucket_uri@, "s3://"@) || starts_with(bucket_uri@, "gs://"@)),
        match r {
            Result::Ok(p) => (p is AWS <==> starts_with(bucket_uri@, "s3://"@)) && (p is GCS
                <==> !starts_with(bucket_uri@, "s3://"@) && starts_with(bucket_uri@, "gs://"@)),
            Result::Err(e) => e.message@ == "failed to parse provider of: "@ + bucket_uri@,
        },
{
    if str_starts_with(bucket_uri, "s3://") {
        Ok(Provider::AWS)
    } else if str_starts_with(bucket_uri, "gs://") {
        Ok(Provider::GCS)
    } else {
        Err(
            FSError {
                message: String::from_str("failed to parse provider of: ").concat(bucket_uri),
            },
        )
    }
}

/// The bucket a URI names: the text after the first `"://"`, or nothing when
/// the URI carries no scheme separator.
pub fn parse_bucket_from_uri(bucket_uri: &str) -> (r: &str)
    ensures
        r@ == bucket_of_uri(bucket_uri@),
{
    let n = bucket_uri.unicode_len();
    if n >= 3 {
        let mut i: usize = 0;
        while i <= n - 3
            invariant
                i <= n - 2,
                n >= 3,
                n == bucket_uri@.len(),
                first_scheme_sep(bucket_uri@, 0) == first_scheme_sep(bucket_uri@, i as int),
            decreases n - i,
        {
            if bucket_uri.get_char(i) == ':' && bucket_uri.get_char(i + 1) == '/'
                && bucket_uri.get_char(i + 2) == '/' {
                return bucket_uri.substring_char(i + 3, n);
            }
            i = i + 1;
        }
    }
    proof {
        reveal_strlit("");
        assert(("")@ =~= Seq::<char>::empty());
    }
    ""
}

} // verus!
