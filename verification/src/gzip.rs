//! Compression of the persisted form, done by the `flate2` crate.

use flate2::read::GzDecoder;
use flate2::write::GzEncoder;
use flate2::Compression;
use std::io::{Read, Write};
use vstd::prelude::*;

verus! {

/// What unpacking `data` as one gzip member gives: the bytes that were
/// packed, or nothing where `data` is no such member.
pub uninterp spec fn gunzipped(data: Seq<u8>) -> Option<Seq<u8>>;

/// What packing `data` as one gzip member at the default level gives: the
/// packed bytes, or nothing where the encoder reports a failure.
pub uninterp spec fn gzipped(data: Seq<u8>) -> Option<Seq<u8>>;

/// Packs `data` with `flate2::write::GzEncoder` at the default level
/// (`new`, `write_all`, `finish`). Trusted: the outcome depends on `data`
/// alone, the header holding no time stamp and a fixed system byte; it is
/// what `gzipped` names. Where bytes come back, they are not empty, since
/// they start with the header, and unpacking them gives `data` again.
/// Nothing is claimed of which bytes they are, nor that packing succeeds.
#[verifier::external_body]
pub(crate) fn gzip(data: &Vec<u8>) -> (packed: Option<Vec<u8>>)
    ensures
        packed is Some == gzipped(data@) is Some,
        packed matches Some(bytes) ==> gzipped(data@) == Some(bytes@),
        packed matches Some(bytes) ==> bytes@.len() > 0,
        packed matches Some(bytes) ==> gunzipped(bytes@) == Some(data@),
{
    let mut encoder = GzEncoder::new(Vec::new(), Compression::default());
    encoder.write_all(data).ok()?;
    encoder.finish().ok()
}

/// Unpacks `data` with `flate2::read::GzDecoder` (`new`, `read_to_end`),
/// which reads one member and leaves what follows it unread. Trusted: the
/// outcome depends on `data` alone; it is what `gunzipped` names.
#[verifier::external_body]
pub(crate) fn gunzip(data: &Vec<u8>) -> (unpacked: Option<Vec<u8>>)
    ensures
        unpacked is Some == gunzipped(data@) is Some,
        unpacked matches Some(bytes) ==> gunzipped(data@) == Some(bytes@),
{
    let mut decoder = GzDecoder::new(data.as_slice());
    let mut bytes = Vec::new();
    decoder.read_to_end(&mut bytes).ok()?;
    Some(bytes)
}

} // verus!
