use argon2::{Algorithm, Argon2, Params, Version};
use cry::bench::{bench_aad, BenchArgs};
use cry::error::CryError;
use cry::kdf::{derive_key, KEY_LEN};
use cry::keygen::{drawn_key, format_key_fingerprint, generate_key, key_fingerprint, KEY_SIZE};
use cry::passphrase::{check_passphrase, passphrase_from_file, passphrase_from_prompt};
use cry::secret::{SecretKey, SecretText};
use sha2::{Digest, Sha256};

#[test]
fn derived_key_is_argon2id() {
    let params = Params::new(65536, 3, 1, Some(KEY_LEN)).unwrap();
    let mut expected = [0u8; KEY_LEN];
    Argon2::new(Algorithm::Argon2id, Version::V0x13, params)
        .hash_password_into(b"passphrase", b"0123456789abcdef", &mut expected)
        .unwrap();
    let key = derive_key(b"passphrase", b"0123456789abcdef").unwrap();
    assert_eq!(key.bytes, expected);
}

#[test]
fn salt_lengths() {
    let err = derive_key(b"pw", b"1234567").err().unwrap();
    assert!(matches!(&err, CryError::Kdf(m) if m == "salt is too short"));
    assert_eq!(err.message(), "Key derivation failed: salt is too short");
    assert!(derive_key(b"", b"12345678").is_ok());
}

#[test]
fn key_fingerprints() {
    assert_eq!(key_fingerprint(b""), "e3b0c442:98fc1c14");
    assert_eq!(key_fingerprint(b"abc"), "ba7816bf:8f01cfea");
    let mut hash = [0u8; 32];
    hash[3] = 1;
    hash[7] = 0xa0;
    hash[8] = 9;
    assert_eq!(format_key_fingerprint(&hash), "00000001:000000a0");
}

#[test]
fn generated_keys() {
    let a = generate_key(false, "my.key", false).unwrap();
    let b = generate_key(true, "my.key", true).unwrap();
    assert_ne!(a.bytes, b.bytes);
    assert_ne!(a.bytes, [0u8; KEY_SIZE]);
    let err = generate_key(true, "my.key", false).err().unwrap();
    assert!(matches!(err, CryError::FileExists(path) if path == "my.key"));
}

#[test]
fn drawn_keys_are_handed_on() {
    let key = drawn_key(Ok(()), SecretKey { bytes: [7; 32] }).unwrap();
    assert_eq!(key.bytes, [7; 32]);
    let err = drawn_key(Err("no entropy".to_string()), key).err().unwrap();
    assert!(matches!(err, CryError::Io(m) if m == "no entropy"));
}

#[test]
fn secrets_are_wiped() {
    let mut key = SecretKey { bytes: [1; 32] };
    key.wipe();
    assert_eq!(key.bytes, [0; 32]);
    assert_eq!(SecretKey::zeroed().bytes, [0; 32]);
    let mut text = SecretText { text: "secret".to_string() };
    text.wipe();
    assert_eq!(text.text, "");
}

#[test]
fn passphrase_is_the_first_line() {
    let read = |s: &str| passphrase_from_file(s).unwrap();
    assert_eq!(read("secret"), b"secret");
    assert_eq!(read("secret\nmore"), b"secret");
    assert_eq!(read("secret\r\nmore\r\n"), b"secret");
    assert_eq!(read(" spaced \n"), b" spaced ");
    assert_eq!(read("a\r"), b"a\r");
    assert_eq!(read("\r\r\n"), b"\r");
    assert_eq!(read("naïve\n"), "naïve".as_bytes());
    for empty in ["", "\n", "\r\n", "\nsecret"] {
        let err = passphrase_from_file(empty).unwrap_err();
        assert!(matches!(err, CryError::EmptyPassphrase));
    }
}

#[test]
fn passphrase_from_a_prompt() {
    assert_eq!(passphrase_from_prompt("pw", None).unwrap(), b"pw");
    assert_eq!(passphrase_from_prompt("pw", Some("pw")).unwrap(), b"pw");
    let err = passphrase_from_prompt("pw", Some("pw ")).unwrap_err();
    assert!(matches!(err, CryError::PassphraseMismatch));
    let err = passphrase_from_prompt("", Some("")).unwrap_err();
    assert!(matches!(err, CryError::EmptyPassphrase));
    assert!(check_passphrase("x").is_ok());
    assert!(matches!(check_passphrase(""), Err(CryError::EmptyPassphrase)));
}

#[test]
fn bench_plans() {
    let args = BenchArgs { size_mib: 0, samples: 0, warmup: 2, kdf_runs: 0 };
    assert!(args.check());
    let plan = args.plan();
    assert_eq!(
        (plan.size_mib, plan.size_bytes, plan.samples, plan.warmup, plan.kdf_runs, plan.rounds),
        (1, 1 << 20, 1, 2, 1, 3)
    );
    assert!(!plan.is_sample(1));
    assert!(plan.is_sample(2));
    let plan = BenchArgs { size_mib: 256, samples: 7, warmup: 0, kdf_runs: 5 }.plan();
    assert_eq!((plan.size_bytes, plan.samples, plan.kdf_runs), (256 << 20, 7, 5));
    assert!(plan.is_sample(0));
    assert!(!BenchArgs { size_mib: usize::MAX, samples: 1, warmup: 0, kdf_runs: 1 }.check());
    assert!(!BenchArgs { size_mib: 1, samples: 1, warmup: u32::MAX, kdf_runs: 1 }.check());
    let expected: [u8; 32] = Sha256::digest(b"cry-bench-aad").into();
    assert_eq!(bench_aad(), expected);
}

#[test]
fn error_messages() {
    let text = |e: CryError| e.message();
    assert_eq!(text(CryError::Io("boom".to_string())), "I/O error: boom");
    assert_eq!(text(CryError::EncryptionFailed), "Encryption failed (AEAD error)");
    assert_eq!(
        text(CryError::DecryptionFailed),
        "Decryption failed — wrong passphrase, corrupted file, or tampered ciphertext"
    );
    assert_eq!(
        text(CryError::HeaderTampered),
        "Header authentication failed — file may have been tampered with"
    );
    assert_eq!(
        text(CryError::Truncated { expected: u64::MAX, got: 10 }),
        "File is truncated — expected 18446744073709551615 chunks, got 10"
    );
    assert_eq!(text(CryError::InvalidFormat("x".to_string())), "Invalid file format: x");
    assert_eq!(text(CryError::Kdf("x".to_string())), "Key derivation failed: x");
    assert_eq!(text(CryError::EmptyPassphrase), "Passphrase must not be empty");
    assert_eq!(text(CryError::PassphraseMismatch), "Passphrases do not match");
    assert_eq!(
        text(CryError::VerificationFailed("x".to_string())),
        "Verification failed: x"
    );
}
