use texio::bundle::{get_digest_from_manifest, Bundle};
use texio::digest::DigestData;
use texio::handles::InputOrigin;
use texio::open_result::{IoError, IoErrorKind};
use texio::testing::{InputScript, OutputScript, ScriptedIo};

const HEX: &str = "9f86d081884c7d659a2feaa0c55ad015a3bf4f1b2b0b822cd15d6c15b0f00a08";

fn manifest_bundle(content: &[u8]) -> ScriptedIo {
    ScriptedIo::new(
        InputScript::Success {
            name: "SHA256SUM".to_string(),
            origin: InputOrigin::Other,
            content: content.to_vec(),
        },
        OutputScript::NotAvailable,
    )
}

fn expected_bytes() -> Vec<u8> {
    let text = HEX.as_bytes();
    let mut out = Vec::new();
    for i in 0..32 {
        let v = |b: u8| -> u8 {
            if b.is_ascii_digit() {
                b - b'0'
            } else {
                b - b'a' + 10
            }
        };
        out.push(v(text[2 * i]) * 16 + v(text[2 * i + 1]));
    }
    out
}

#[test]
fn missing_manifest_is_a_missing_digest_error() {
    let mut bundle = ScriptedIo::new(InputScript::NotAvailable, OutputScript::NotAvailable);
    let err = bundle.get_digest().unwrap_err();
    assert_eq!(err.kind, IoErrorKind::MissingDigest);
    assert_eq!(err.message, "bundle does not provide needed SHA256SUM file");
}

#[test]
fn corrupted_manifest_is_a_corrupted_digest_error() {
    for bad in [
        &b"not hex at all"[..],
        &b"9f86"[..],
        &[b'z'; 64][..],
        &b"9F86D081884C7D659A2FEAA0C55AD015A3BF4F1B2B0B822CD15D6C15B0F00A08"[..],
        &b""[..],
    ] {
        let mut bundle = manifest_bundle(bad);
        let err = bundle.get_digest().unwrap_err();
        assert_eq!(err.kind, IoErrorKind::CorruptedDigest);
        assert_eq!(err.message, "corrupted SHA256 digest data");
    }
}

#[test]
fn valid_manifest_yields_the_decoded_digest() {
    let mut bundle = manifest_bundle(HEX.as_bytes());
    let digest = bundle.get_digest().unwrap();
    assert_eq!(digest.bytes().clone(), expected_bytes());
    assert_eq!(digest.to_hex(), HEX.as_bytes().to_vec());
}

#[test]
fn manifest_bytes_past_sixty_four_are_ignored() {
    let mut content = HEX.as_bytes().to_vec();
    content.extend_from_slice(b"\ntrailing notes that are never read");
    let mut bundle = manifest_bundle(&content);
    let digest = bundle.get_digest().unwrap();
    assert_eq!(digest.bytes().clone(), expected_bytes());
}

#[test]
fn open_failures_propagate_unchanged() {
    let mut bundle = ScriptedIo::new(
        InputScript::Fatal(IoError {
            kind: IoErrorKind::Backend,
            message: "archive corrupted".to_string(),
        }),
        OutputScript::NotAvailable,
    );
    let err = bundle.get_digest().unwrap_err();
    assert_eq!(err.kind, IoErrorKind::Backend);
    assert_eq!(err.message, "archive corrupted");
}

#[test]
fn the_free_function_agrees_with_the_trait() {
    let mut bundle = manifest_bundle(HEX.as_bytes());
    let via_fn = get_digest_from_manifest(&mut bundle).unwrap();
    let via_trait = manifest_bundle(HEX.as_bytes()).get_digest().unwrap();
    assert_eq!(via_fn, via_trait);
}

#[test]
fn a_boxed_bundle_forwards_digest_retrieval() {
    let mut boxed: Box<ScriptedIo> = Box::new(manifest_bundle(HEX.as_bytes()));
    let digest = boxed.get_digest().unwrap();
    assert_eq!(digest.bytes().clone(), expected_bytes());
}

#[test]
fn digest_hex_round_trip() {
    let text: Vec<u8> = HEX.as_bytes().to_vec();
    let d = DigestData::from_hex(&text).unwrap();
    assert_eq!(d.to_hex(), text);
    assert_eq!(DigestData::from_hex(&d.to_hex()).unwrap(), d);
    let built = DigestData::new(expected_bytes());
    assert_eq!(built, d);
}

#[test]
fn from_hex_rejects_wrong_lengths_and_digits() {
    assert!(DigestData::from_hex(&b"".to_vec()).is_none());
    assert!(DigestData::from_hex(&HEX.as_bytes()[..63].to_vec()).is_none());
    let mut long = HEX.as_bytes().to_vec();
    long.push(b'0');
    assert!(DigestData::from_hex(&long).is_none());
    let mut upper = HEX.as_bytes().to_vec();
    upper[0] = b'A';
    assert!(DigestData::from_hex(&upper).is_none());
}
