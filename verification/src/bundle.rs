//! The bundle capability: a provider that can also report a digest
//! summarizing its exact contents, used by a format cache to validate
//! derived artifacts without a rescan.
//!
//! The default way to get the digest reads a manifest file named
//! `SHA256SUM` through the bundle's own provider interface; a backend
//! that already tracks a content hash may override it entirely.

use vstd::prelude::*;
use crate::digest::{decode_hex, is_hex_digest, DigestData};
use crate::handles::{stream_prefix, InputHandleV};
use crate::open_result::{IoError, IoErrorKind, IoErrorV, OpenAnswer, OpenResult};
use crate::provider::IoProvider;

verus! {

/// The name of the digest manifest file inside a bundle.
pub const DIGEST_NAME: &'static str = "SHA256SUM";

/// The manifest file's name.
pub open spec fn digest_name() -> Seq<char> {
    "SHA256SUM"@
}

/// The message reported when a bundle lacks the manifest file.
pub open spec fn missing_digest_message() -> Seq<char> {
    "bundle does not provide needed SHA256SUM file"@
}

/// The message reported when the manifest file holds no valid digest.
pub open spec fn corrupted_digest_message() -> Seq<char> {
    "corrupted SHA256 digest data"@
}

/// What reading the digest out of a manifest must yield, given the
/// bundle's answer to opening the manifest file: a missing manifest is a
/// fatal missing-digest error, any other open failure propagates
/// unchanged, and an open manifest yields the digest its first 64 bytes
/// encode — or a fatal corrupted-digest error if they encode none.
pub open spec fn manifest_digest(a: OpenAnswer<InputHandleV>) -> Result<Seq<u8>, IoErrorV> {
    match a {
        OpenAnswer::NotAvailable => Err(
            IoErrorV { kind: IoErrorKind::MissingDigest, message: missing_digest_message() },
        ),
        OpenAnswer::Fatal(e) => Err(e),
        OpenAnswer::Success(h) => {
            let text = stream_prefix(h.content, 64);
            if is_hex_digest(text) {
                Ok(decode_hex(text))
            } else {
                Err(
                    IoErrorV {
                        kind: IoErrorKind::CorruptedDigest,
                        message: corrupted_digest_message(),
                    },
                )
            }
        },
    }
}

/// Whether a digest-retrieval result is the one the manifest answer `a`
/// prescribes.
pub open spec fn digest_result_matches(
    a: OpenAnswer<InputHandleV>,
    r: Result<DigestData, IoError>,
) -> bool {
    match (r, manifest_digest(a)) {
        (Ok(d), Ok(bytes)) => d@ == bytes && d.wf(),
        (Err(e), Err(ev)) => e@ == ev,
        _ => false,
    }
}

/// Retrieve a bundle's digest from its `SHA256SUM` manifest file, read
/// through the bundle's own provider interface. At most 64 bytes of the
/// manifest are read.
pub fn get_digest_from_manifest<P: IoProvider>(provider: &mut P) -> (r: Result<
    DigestData,
    IoError,
>)
    ensures
        digest_result_matches(old(provider).input_answer(digest_name()), r),
{
    let opened = provider.input_open_name(DIGEST_NAME);
    match opened {
        OpenResult::NotAvailable => Err(
            IoError {
                kind: IoErrorKind::MissingDigest,
                message: String::from_str("bundle does not provide needed SHA256SUM file"),
            },
        ),
        OpenResult::Fatal(e) => Err(e),
        OpenResult::Success(h) => {
            let text = h.read_prefix(64);
            match DigestData::from_hex(&text) {
                Some(d) => Ok(d),
                None => Err(
                    IoError {
                        kind: IoErrorKind::CorruptedDigest,
                        message: String::from_str("corrupted SHA256 digest data"),
                    },
                ),
            }
        },
    }
}

/// A provider that can also report the digest of its entire contents.
///
/// The provided implementation reads the `SHA256SUM` manifest; a backend
/// with a cheaper way to the digest may replace it.
pub trait Bundle: IoProvider {
    /// Get the digest summarizing this bundle's contents.
    fn get_digest(&mut self) -> (r: Result<DigestData, IoError>)
        default_ensures
            digest_result_matches(old(self).input_answer(digest_name()), r),
    {
        get_digest_from_manifest(self)
    }
}

/// A boxed bundle answers digest retrieval as the bundle it holds,
/// overridden digest computation included.
impl<B: Bundle> Bundle for Box<B> {
    fn get_digest(&mut self) -> (r: Result<DigestData, IoError>) {
        (**self).get_digest()
    }
}

} // verus!
