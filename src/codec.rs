//! Block compression through zstd.
use vstd::prelude::*;

verus! {

/// Compression tag of the one supported block format (zstd).
pub const ZSTD_TAG: u8 = 4;

/// What zstd decodes a frame sequence to; `None` where it reports an error.
pub uninterp spec fn zstd_decoded(b: Seq<u8>) -> Option<Seq<u8>>;

/// What zstd encodes a buffer to at its default level.
pub uninterp spec fn zstd_encoded(b: Seq<u8>) -> Seq<u8>;

/// Relies on `zstd::decode_all`: the decoded bytes depend on the input alone,
/// and an error comes on the same inputs every time.
#[verifier::external_body]
pub(crate) fn zstd_decode(b: &[u8]) -> (r: Option<Vec<u8>>)
    ensures
        match r {
            Some(d) => zstd_decoded(b@) == Some(d@),
            None => zstd_decoded(b@) is None,
        },
{
    zstd::decode_all(b).ok()
}

/// Relies on `zstd::encode_all` at level 0 (zstd's default level): the
/// encoded bytes depend on the input alone, and `zstd::decode_all` gives the
/// input back from them (the crate's own full-cycle tests check this). It
/// reads from a slice and writes to a `Vec`; an error of zstd's is returned
/// as `None`.
#[verifier::external_body]
pub(crate) fn zstd_encode(b: &[u8]) -> (r: Option<Vec<u8>>)
    ensures
        r matches Some(e) ==> e@ == zstd_encoded(b@),
        r matches Some(e) ==> zstd_decoded(e@) == Some(b@),
{
    zstd::encode_all(b, 0).ok()
}

} // verus!
