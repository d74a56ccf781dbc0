use cry::error::CryError;
use cry::header::{AlgoId, Algorithm, Header, HEADER_LEN, HMAC_LEN, MAGIC};
use hmac::{Hmac, Mac};
use sha2::{Digest, Sha256};

const KEY: [u8; 32] = [0x5a; 32];

fn sample() -> Header {
    Header {
        algo: Algorithm::ChaCha20Poly1305,
        salt: [0x11; 16],
        nonce: [0x22; 12],
        chunk_count: 0x0102_0304_0506_0708,
    }
}

fn written() -> Vec<u8> {
    let mut out = Vec::new();
    sample().write(&mut out, &KEY).unwrap();
    out
}

#[test]
fn header_bytes() {
    let bytes = written();
    assert_eq!(HEADER_LEN, 73);
    assert_eq!(bytes.len(), HEADER_LEN);
    assert_eq!(MAGIC, *b"CRY\x02");
    assert_eq!(&bytes[..5], b"CRY\x02\x02");
    assert_eq!(&bytes[5..21], &[0x11; 16]);
    assert_eq!(&bytes[21..33], &[0x22; 12]);
    assert_eq!(&bytes[33..41], &[1, 2, 3, 4, 5, 6, 7, 8]);
    assert_eq!(sample().pre_hmac_bytes(), &bytes[..41]);

    let mut h = Sha256::new();
    h.update(b"cry-header-hmac-v2");
    h.update(KEY);
    let mut mac = <Hmac<Sha256> as Mac>::new_from_slice(&h.finalize()).unwrap();
    mac.update(&bytes[..41]);
    let tag: [u8; HMAC_LEN] = mac.finalize().into_bytes().into();
    assert_eq!(&bytes[41..], &tag);
    assert_eq!(Header::compute_hmac(&bytes[..41], &KEY), tag);
}

#[test]
fn header_write_appends() {
    let mut out = vec![1, 2, 3];
    sample().write(&mut out, &KEY).unwrap();
    assert_eq!(&out[..3], &[1, 2, 3]);
    assert_eq!(&out[3..], &written()[..]);
}

#[test]
fn header_read_back() {
    let mut bytes = written();
    bytes.extend_from_slice(b"rest of the file");
    let header = Header::read(&bytes, &KEY).unwrap();
    assert_eq!(header.algo, Algorithm::ChaCha20Poly1305);
    assert_eq!(header.salt, [0x11; 16]);
    assert_eq!(header.nonce, [0x22; 12]);
    assert_eq!(header.chunk_count, 0x0102_0304_0506_0708);
    let (parsed, tag) = Header::parse(&bytes).unwrap();
    assert_eq!(parsed.pre_hmac_bytes(), header.pre_hmac_bytes());
    assert_eq!(tag, bytes[41..73]);
}

#[test]
fn every_header_byte_is_authenticated() {
    let bytes = written();
    for i in 0..HEADER_LEN {
        let mut changed = bytes.clone();
        changed[i] ^= 1;
        let result = Header::read(&changed, &KEY);
        if i < 4 {
            assert!(matches!(result, Err(CryError::InvalidFormat(_))));
        } else if i == 4 {
            // 2 ^ 1 stands for no algorithm.
            assert!(matches!(result, Err(CryError::InvalidFormat(_))));
        } else {
            assert!(matches!(result, Err(CryError::HeaderTampered)));
        }
    }
    let mut other_algorithm = bytes.clone();
    other_algorithm[4] = 1;
    assert!(matches!(
        Header::read(&other_algorithm, &KEY),
        Err(CryError::HeaderTampered)
    ));
}

#[test]
fn header_passes_with_its_tag_only() {
    assert_eq!(Header::accept_if(sample(), true).unwrap().salt, [0x11; 16]);
    assert!(matches!(
        Header::accept_if(sample(), false),
        Err(CryError::HeaderTampered)
    ));
}

fn read_error(bytes: &[u8]) -> String {
    Header::read(bytes, &KEY).err().unwrap().message()
}

#[test]
fn short_headers() {
    let bytes = written();
    let error = |n: usize| read_error(&bytes[..n]);
    for (n, what) in [
        (0, "magic bytes"),
        (3, "magic bytes"),
        (4, "algorithm byte"),
        (5, "salt"),
        (20, "salt"),
        (21, "nonce"),
        (32, "nonce"),
        (33, "chunk count"),
        (40, "chunk count"),
        (41, "header HMAC"),
        (72, "header HMAC"),
    ] {
        assert_eq!(error(n), format!("Invalid file format: Failed to read {what}"));
    }
}

#[test]
fn bad_magic_and_algorithm() {
    assert_eq!(
        read_error(b"CRY\x01 and more"),
        "Invalid file format: Not a cry v2 encrypted file (bad magic [67, 82, 89, 1]). \
         Files from cry v0.1 are not compatible — re-encrypt with the new version."
    );
    assert_eq!(
        read_error(&[0, 10, 100, 255]),
        "Invalid file format: Not a cry v2 encrypted file (bad magic [0, 10, 100, 255]). \
         Files from cry v0.1 are not compatible — re-encrypt with the new version."
    );
    assert_eq!(
        read_error(b"CRY\x02\x0a"),
        "Invalid file format: Unknown algorithm identifier 0x0a — was this file created with \
         a newer version of cry?"
    );
}

#[test]
fn algorithm_bytes() {
    assert_eq!(AlgoId::from_byte(1).unwrap(), AlgoId::Aes256Gcm);
    assert_eq!(AlgoId::from_byte(2).unwrap(), AlgoId::ChaCha20Poly1305);
    for b in (0..=255u8).filter(|b| *b != 1 && *b != 2) {
        let message = AlgoId::from_byte(b).unwrap_err().message();
        assert!(message.contains(&format!("0x{b:02x} ")));
    }
    assert_eq!(AlgoId::Aes256Gcm.to_byte(), 1);
    assert_eq!(AlgoId::ChaCha20Poly1305.to_byte(), 2);
    assert_eq!(AlgoId::Aes256Gcm.name(), "AES-256-GCM");
    assert_eq!(AlgoId::ChaCha20Poly1305.name(), "ChaCha20-Poly1305");
}
