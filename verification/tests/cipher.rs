use cry::cipher::{
    check_count, check_overwrite, chunk_aad, chunk_count, chunk_nonce, decrypt_chunk,
    decrypt_chunks, decrypt_file, decrypt_step, drawn_salt_and_nonce, encrypt_chunk, encrypt_chunks, encrypt_file,
    encrypt_step, encrypt_with, frame_chunk, frame_head, fresh_salt_and_nonce, head_read, header_aad, open_header, read_chunk,
    ChunkLoop, HeadRead, ReadEvent, CHUNK_SIZE, MAX_CHUNK_WIRE_LEN,
};
use cry::error::CryError;
use cry::header::{Algorithm, Header, HEADER_LEN, NONCE_LEN, SALT_LEN};
use cry::kdf::derive_key;
use cry::secret::SecretKey;
use rand::RngCore;
use sha2::{Digest, Sha256};

fn make_key_and_header(algo: Algorithm, input: &[u8]) -> (SecretKey, Header, [u8; 32]) {
    let mut salt = [0u8; SALT_LEN];
    let mut nonce_bytes = [0u8; NONCE_LEN];
    rand::rngs::OsRng.fill_bytes(&mut salt);
    rand::rngs::OsRng.fill_bytes(&mut nonce_bytes);

    let chunk_count = chunk_count(input.len() as u64);
    let header = Header { algo, salt, nonce: nonce_bytes, chunk_count };
    let key = derive_key(b"correct horse battery staple", &salt).unwrap();
    let aad = header_aad(&header);
    (key, header, aad)
}

fn roundtrip(algo: Algorithm, input: &[u8]) {
    let (key, header, aad) = make_key_and_header(algo, input);
    let nonce = header.nonce;

    let mut cipher_buf: Vec<u8> = Vec::new();
    header.write(&mut cipher_buf, &key.bytes).unwrap();
    encrypt_chunks(input, &mut cipher_buf, &key.bytes, &nonce, algo, &aad).unwrap();

    let header2 = Header::read(&cipher_buf[..HEADER_LEN], &key.bytes).unwrap();

    let mut plain_out: Vec<u8> = Vec::new();
    let chunks = decrypt_chunks(
        &cipher_buf[HEADER_LEN..],
        &mut plain_out,
        &key.bytes,
        &header2.nonce,
        header2.algo,
        &aad,
        header2.chunk_count,
    )
    .unwrap();

    assert_eq!(chunks, header2.chunk_count);
    assert_eq!(plain_out, input, "roundtrip plaintext mismatch");
}

#[test]
fn roundtrip_aes_empty() {
    roundtrip(Algorithm::Aes256Gcm, b"");
}

#[test]
fn roundtrip_aes_small() {
    roundtrip(Algorithm::Aes256Gcm, b"Hello, cry!");
}

#[test]
fn roundtrip_chacha_small() {
    roundtrip(Algorithm::ChaCha20Poly1305, b"ChaCha test data 1234");
}

#[test]
fn roundtrip_aes_multi_chunk() {
    // 2.5 MiB: three chunks
    let data = vec![0xABu8; (CHUNK_SIZE * 2) + (CHUNK_SIZE / 2)];
    roundtrip(Algorithm::Aes256Gcm, &data);
}

#[test]
fn roundtrip_chacha_multi_chunk() {
    let data = vec![0x42u8; CHUNK_SIZE + 1];
    roundtrip(Algorithm::ChaCha20Poly1305, &data);
}

#[test]
fn nonce_counter_no_collision() {
    let base = [0u8; NONCE_LEN];
    assert_ne!(chunk_nonce(&base, 0), chunk_nonce(&base, 1));

    let base2 = [0xFF; NONCE_LEN];
    assert_ne!(chunk_nonce(&base2, 0), chunk_nonce(&base2, 1));
}

#[test]
fn tamper_detection() {
    let (key, header, aad) = make_key_and_header(Algorithm::Aes256Gcm, b"secret data");
    let nonce = header.nonce;

    let mut buf: Vec<u8> = Vec::new();
    header.write(&mut buf, &key.bytes).unwrap();
    encrypt_chunks(
        b"secret data",
        &mut buf,
        &key.bytes,
        &nonce,
        Algorithm::Aes256Gcm,
        &aad,
    )
    .unwrap();

    // Flip bits in the body.
    buf[HEADER_LEN + 5] ^= 0xFF;

    let mut plain_out: Vec<u8> = Vec::new();
    let result = decrypt_chunks(
        &buf[HEADER_LEN..],
        &mut plain_out,
        &key.bytes,
        &nonce,
        Algorithm::Aes256Gcm,
        &aad,
        header.chunk_count,
    );
    assert!(result.is_err(), "tampered ciphertext should fail decryption");
    assert!(matches!(result, Err(CryError::DecryptionFailed)));
    assert!(plain_out.is_empty());
}

#[test]
fn wrong_passphrase_fails() {
    let mut salt = [0u8; SALT_LEN];
    rand::rngs::OsRng.fill_bytes(&mut salt);

    let key = derive_key(b"correct", &salt).unwrap();
    let wrong_key = derive_key(b"wrong", &salt).unwrap();

    let mut nonce_bytes = [0u8; NONCE_LEN];
    rand::rngs::OsRng.fill_bytes(&mut nonce_bytes);

    let header = Header {
        algo: Algorithm::Aes256Gcm,
        salt,
        nonce: nonce_bytes,
        chunk_count: 1,
    };

    let mut buf: Vec<u8> = Vec::new();
    header.write(&mut buf, &key.bytes).unwrap();

    let result = Header::read(buf.as_slice(), &wrong_key.bytes);
    assert!(result.is_err(), "header HMAC should reject wrong passphrase");
    assert!(matches!(result, Err(CryError::HeaderTampered)));
}

#[test]
fn encrypt_decrypt_roundtrip_aes() {
    let plain = b"Hello from integration test!";
    let cipher =
        encrypt_file(plain, false, "out.cry", b"hunter2", Algorithm::Aes256Gcm, false).unwrap();
    let recovered = decrypt_file(false, "recovered.txt", &cipher, b"hunter2", false).unwrap();
    assert_eq!(recovered, plain);
}

#[test]
fn encrypt_decrypt_roundtrip_chacha() {
    let plain = b"ChaCha integration test data.";
    let pass = b"passphrase123";
    let cipher =
        encrypt_file(plain, false, "out.cry", pass, Algorithm::ChaCha20Poly1305, false).unwrap();
    let recovered = decrypt_file(false, "recovered.txt", &cipher, pass, false).unwrap();
    assert_eq!(recovered, plain);
}

#[test]
fn encrypt_decrypt_empty_file() {
    let cipher =
        encrypt_file(b"", false, "out.cry", b"emptytest", Algorithm::Aes256Gcm, false).unwrap();
    assert_eq!(cipher.len(), HEADER_LEN);
    assert_eq!(&cipher[33..41], &[0u8; 8]);
    let recovered = decrypt_file(false, "recovered.txt", &cipher, b"emptytest", false).unwrap();
    assert_eq!(recovered, b"");
}

#[test]
fn refuses_to_overwrite_without_force() {
    let err =
        encrypt_file(b"data", true, "out.cry", b"test", Algorithm::Aes256Gcm, false).unwrap_err();
    assert!(
        matches!(&err, CryError::FileExists(path) if path == "out.cry"),
        "expected FileExists, got {err:?}"
    );
    let err = decrypt_file(true, "plain.txt", b"", b"test", false).unwrap_err();
    assert_eq!(
        err.message(),
        "Output file 'plain.txt' already exists — use --force to overwrite"
    );
}

#[test]
fn force_flag_allows_overwrite() {
    let cipher =
        encrypt_file(b"new data", true, "out.cry", b"test", Algorithm::Aes256Gcm, true).unwrap();
    assert_ne!(cipher, b"old");
    let plain = decrypt_file(true, "plain.txt", &cipher, b"test", true).unwrap();
    assert_eq!(plain, b"new data");
}

#[test]
fn wrong_passphrase_rejected() {
    let cipher =
        encrypt_file(b"secret", false, "out.cry", b"correct", Algorithm::Aes256Gcm, false).unwrap();
    let err = decrypt_file(false, "recovered.txt", &cipher, b"wrong", false).unwrap_err();
    assert!(
        matches!(err, CryError::HeaderTampered | CryError::DecryptionFailed),
        "expected auth failure, got {err:?}"
    );
}

fn from_hex(s: &str) -> Vec<u8> {
    cry::crydna::hex_to_bytes(s).unwrap()
}

#[test]
fn aes_known_answers() {
    let key = [0u8; 32];
    let nonce = [0u8; 12];
    let empty = encrypt_chunk(b"", &key, &nonce, Algorithm::Aes256Gcm, b"").unwrap();
    assert_eq!(empty, from_hex("530f8afbc74536b9a963b4f1c4cb738b"));
    let block = encrypt_chunk(&[0u8; 16], &key, &nonce, Algorithm::Aes256Gcm, b"").unwrap();
    assert_eq!(
        block,
        from_hex("cea7403d4d606b6e074ec5d3baf39d18d0d1c8a799996bf0265b98b5d48ab919")
    );
    let back = decrypt_chunk(&block, &key, &nonce, Algorithm::Aes256Gcm, b"").unwrap();
    assert_eq!(back, vec![0u8; 16]);
}

#[test]
fn chacha_known_answer() {
    let mut key = [0u8; 32];
    for (i, b) in key.iter_mut().enumerate() {
        *b = 0x80 + i as u8;
    }
    let nonce = [0x07, 0, 0, 0, 0x40, 0x41, 0x42, 0x43, 0x44, 0x45, 0x46, 0x47];
    let aad = from_hex("50515253c0c1c2c3c4c5c6c7");
    let plain: &[u8] = b"Ladies and Gentlemen of the class of '99: If I could offer you \
        only one tip for the future, sunscreen would be it.";
    let algo = Algorithm::ChaCha20Poly1305;
    let sealed = encrypt_chunk(plain, &key, &nonce, algo, &aad).unwrap();
    assert_eq!(sealed.len(), plain.len() + 16);
    assert_eq!(&sealed[..16], &from_hex("d31a8d34648e60db7b86afbc53ef7ec2")[..]);
    assert_eq!(
        &sealed[plain.len()..],
        &from_hex("1ae10b594f09e26a7e902ecbd0600691")[..]
    );
    assert_eq!(decrypt_chunk(&sealed, &key, &nonce, algo, &aad).unwrap(), plain);
}

#[test]
fn opening_needs_the_same_nonce_and_associated_data() {
    for algo in [Algorithm::Aes256Gcm, Algorithm::ChaCha20Poly1305] {
        let key = [7u8; 32];
        let sealed = encrypt_chunk(b"text", &key, &[1; 12], algo, b"aad").unwrap();
        let fails = |ct: &[u8], key: &[u8; 32], nonce: &[u8; 12], aad: &[u8]| {
            matches!(
                decrypt_chunk(ct, key, nonce, algo, aad),
                Err(CryError::DecryptionFailed)
            )
        };
        assert!(!fails(&sealed, &key, &[1; 12], b"aad"));
        assert!(fails(&sealed, &[8u8; 32], &[1; 12], b"aad"));
        assert!(fails(&sealed, &key, &[2; 12], b"aad"));
        assert!(fails(&sealed, &key, &[1; 12], b"ada"));
        assert!(fails(&sealed[..15], &key, &[1; 12], b"aad"));
        assert!(fails(b"", &key, &[1; 12], b"aad"));
    }
}

#[test]
fn nonce_counter_values() {
    let base = [0u8; NONCE_LEN];
    assert_eq!(chunk_nonce(&base, 0), base);
    assert_eq!(
        chunk_nonce(&base, 0x0102_0304_0506_0708),
        [0, 0, 0, 0, 1, 2, 3, 4, 5, 6, 7, 8]
    );
    // The carry goes into the upper four bytes, and out of them.
    let carry = [0, 0, 0, 1, 0xff, 0xff, 0xff, 0xff, 0xff, 0xff, 0xff, 0xff];
    assert_eq!(chunk_nonce(&carry, 1), [0, 0, 0, 2, 0, 0, 0, 0, 0, 0, 0, 0]);
    assert_eq!(chunk_nonce(&[0xff; 12], 1), [0u8; 12]);
}

#[test]
fn associated_data_values() {
    let mut binding = [0u8; 32];
    binding[0] = 9;
    let aad = chunk_aad(&binding, 258);
    assert_eq!(&aad[..32], &binding);
    assert_eq!(&aad[32..], &[0, 0, 0, 0, 0, 0, 1, 2]);

    let header = Header {
        algo: Algorithm::ChaCha20Poly1305,
        salt: [3; SALT_LEN],
        nonce: [4; NONCE_LEN],
        chunk_count: 5,
    };
    let mut bytes = b"CRY\x02\x02".to_vec();
    bytes.extend_from_slice(&[3; SALT_LEN]);
    bytes.extend_from_slice(&[4; NONCE_LEN]);
    bytes.extend_from_slice(&5u64.to_be_bytes());
    let expected: [u8; 32] = Sha256::digest(&bytes).into();
    assert_eq!(header_aad(&header), expected);
}

#[test]
fn chunk_counts() {
    let mib = CHUNK_SIZE as u64;
    assert_eq!(chunk_count(0), 0);
    assert_eq!(chunk_count(1), 1);
    assert_eq!(chunk_count(mib), 1);
    assert_eq!(chunk_count(mib + 1), 2);
    assert_eq!(chunk_count(u64::MAX), 1 << 44);
    assert_eq!(CHUNK_SIZE, 1024 * 1024);
    assert_eq!(MAX_CHUNK_WIRE_LEN, CHUNK_SIZE + 64);
}

#[test]
fn count_mismatch_is_truncation() {
    assert_eq!(check_count(2, 2).unwrap(), 2);
    let err = check_count(3, 2).unwrap_err();
    assert!(matches!(err, CryError::Truncated { expected: 3, got: 2 }));
    assert_eq!(err.message(), "File is truncated — expected 3 chunks, got 2");
}

#[test]
fn overwrite_guard() {
    assert!(check_overwrite(false, "f", false).is_ok());
    assert!(check_overwrite(false, "f", true).is_ok());
    assert!(check_overwrite(true, "f", true).is_ok());
    assert!(check_overwrite(true, "f", false).is_err());
}

fn sealed_file(plain: &[u8]) -> Vec<u8> {
    encrypt_with(plain, b"pw", Algorithm::Aes256Gcm, &[1; SALT_LEN], &[2; NONCE_LEN]).unwrap()
}

#[test]
fn file_layout() {
    let file = sealed_file(b"abc");
    assert_eq!(&file[..5], b"CRY\x02\x01");
    assert_eq!(&file[5..21], &[1; 16]);
    assert_eq!(&file[21..33], &[2; 12]);
    assert_eq!(&file[33..41], &1u64.to_be_bytes());
    assert_eq!(&file[73..77], &19u32.to_be_bytes());
    assert_eq!(file.len(), 73 + 4 + 3 + 16);
    // The same salt and nonce give the same file.
    assert_eq!(file, sealed_file(b"abc"));
}

#[test]
fn fresh_files_differ() {
    let a = encrypt_file(b"x", false, "f", b"pw", Algorithm::Aes256Gcm, false).unwrap();
    let b = encrypt_file(b"x", false, "f", b"pw", Algorithm::Aes256Gcm, false).unwrap();
    assert_ne!(a[5..33], b[5..33]);
    assert_eq!(a.len(), b.len());
}

#[test]
fn drawn_values_are_handed_on() {
    let drawn = |a, b| drawn_salt_and_nonce(a, [1; SALT_LEN], b, [2; NONCE_LEN]);
    assert_eq!(drawn(Ok(()), Ok(())).unwrap(), ([1; SALT_LEN], [2; NONCE_LEN]));
    let err = drawn(Err("first".to_string()), Err("second".to_string())).unwrap_err();
    assert!(matches!(err, CryError::Io(m) if m == "first"));
    let err = drawn(Ok(()), Err("second".to_string())).unwrap_err();
    assert!(matches!(err, CryError::Io(m) if m == "second"));

    let a = fresh_salt_and_nonce().unwrap();
    let b = fresh_salt_and_nonce().unwrap();
    assert_ne!(a.0, b.0);
    assert_ne!(a.1, b.1);
    assert_ne!(a, ([0; SALT_LEN], [0; NONCE_LEN]));
}

#[test]
fn header_is_opened_with_the_key_of_its_salt() {
    let file = sealed_file(b"abc");
    let (header, key) = open_header(&file, b"pw").unwrap();
    assert_eq!(header.algo, Algorithm::Aes256Gcm);
    assert_eq!(header.chunk_count, 1);
    assert_eq!(key.bytes, derive_key(b"pw", &[1; SALT_LEN]).unwrap().bytes);
    let err = open_header(&file[..72], b"pw").err().unwrap();
    assert_eq!(
        err.message(),
        "Invalid file format: File too short to contain a valid header"
    );
}

#[test]
fn cut_files_are_refused() {
    let file = sealed_file(&vec![5u8; CHUNK_SIZE + 10]);
    let first_frame = HEADER_LEN + 4 + CHUNK_SIZE + 16;
    let open = |len: usize| decrypt_file(false, "p", &file[..len], b"pw", false);
    assert!(matches!(
        open(first_frame),
        Err(CryError::Truncated { expected: 2, got: 1 })
    ));
    let err = open(first_frame + 3).unwrap_err();
    assert!(matches!(err, CryError::Truncated { expected: 2, got: 1 }));
}

#[test]
fn cut_chunks_are_refused() {
    let file = sealed_file(b"abc");
    let err = decrypt_file(false, "p", &file[..file.len() - 1], b"pw", false).unwrap_err();
    assert_eq!(err.message(), "I/O error: failed to fill whole buffer");
    let err = decrypt_file(false, "p", &file[..HEADER_LEN], b"pw", false).unwrap_err();
    assert!(matches!(err, CryError::Truncated { expected: 1, got: 0 }));
}

#[test]
fn bytes_behind_the_last_chunk_are_refused() {
    let mut file = sealed_file(b"data");
    file.push(0);
    let err = decrypt_file(false, "rec.txt", &file, b"pw", false).unwrap_err();
    assert!(matches!(err, CryError::DecryptionFailed));
    file.extend_from_slice(&[0, 0, 0]);
    let err = decrypt_file(false, "rec.txt", &file, b"pw", false).unwrap_err();
    assert!(matches!(err, CryError::DecryptionFailed));
}

#[test]
fn left_over_bytes_by_count() {
    let key = [9u8; 32];
    let aad = [8u8; 32];
    let algo = Algorithm::Aes256Gcm;
    let mut body = Vec::new();
    encrypt_chunks(b"abc", &mut body, &key, &[0; 12], algo, &aad).unwrap();
    let whole = body.len();
    for extra in 1..4 {
        body.push(0xff);
        assert_eq!(body.len(), whole + extra);
        let mut out = Vec::new();
        let r = decrypt_chunks(&body, &mut out, &key, &[0; 12], algo, &aad, 1);
        assert!(matches!(r, Err(CryError::DecryptionFailed)));
        let r = decrypt_chunks(&body, &mut out, &key, &[0; 12], algo, &aad, 2);
        assert!(matches!(r, Err(CryError::Truncated { expected: 2, got: 1 })));
    }
}

#[test]
fn heads_by_length() {
    assert!(matches!(head_read(0, [1, 2, 3, 4]), HeadRead::End));
    for n in 1..4 {
        assert!(matches!(head_read(n, [1, 2, 3, 4]), HeadRead::Partial));
    }
    assert!(matches!(head_read(4, [1, 2, 3, 4]), HeadRead::Full([1, 2, 3, 4])));
}

#[test]
fn reordered_and_repeated_chunks_are_refused() {
    let key = [9u8; 32];
    let aad = [8u8; 32];
    let algo = Algorithm::ChaCha20Poly1305;
    let mut plain = vec![1u8; CHUNK_SIZE];
    plain.extend_from_slice(&vec![2u8; CHUNK_SIZE]);
    let mut body = Vec::new();
    assert_eq!(
        encrypt_chunks(&plain, &mut body, &key, &[0; 12], algo, &aad).unwrap(),
        2
    );
    let frame = 4 + CHUNK_SIZE + 16;
    assert_eq!(body.len(), 2 * frame);

    let mut swapped = body[frame..].to_vec();
    swapped.extend_from_slice(&body[..frame]);
    let mut out = Vec::new();
    let r = decrypt_chunks(&swapped, &mut out, &key, &[0; 12], algo, &aad, 2);
    assert!(matches!(r, Err(CryError::DecryptionFailed)));

    let mut repeated = body[..frame].to_vec();
    repeated.extend_from_slice(&body[..frame]);
    let mut out = vec![0xee];
    let r = decrypt_chunks(&repeated, &mut out, &key, &[0; 12], algo, &aad, 2);
    assert!(matches!(r, Err(CryError::DecryptionFailed)));
    // What came before the failure was written.
    assert_eq!(out.len(), 1 + CHUNK_SIZE);
    assert_eq!(out[0], 0xee);
}

#[test]
fn long_chunks_are_refused() {
    let mut body = frame_chunk(&[0u8; 3]);
    assert_eq!(body, [0, 0, 0, 3, 0, 0, 0]);
    body = ((MAX_CHUNK_WIRE_LEN + 1) as u32).to_be_bytes().to_vec();
    let mut out = Vec::new();
    let err = decrypt_chunks(
        &body,
        &mut out,
        &[0; 32],
        &[0; 12],
        Algorithm::Aes256Gcm,
        &[0; 32],
        1,
    )
    .unwrap_err();
    assert!(matches!(
        err,
        CryError::SuspiciousChunkLen { index: 0, len: 1_048_641 }
    ));
    assert_eq!(
        err.message(),
        "Chunk 0 length 1048641 is suspiciously large — file may be corrupted"
    );
}

#[test]
fn steps_make_up_a_body() {
    let key = [1u8; 32];
    let aad = [2u8; 32];
    let nonce = [3u8; 12];
    let algo = Algorithm::Aes256Gcm;
    let mut plain = vec![7u8; CHUNK_SIZE];
    plain.extend_from_slice(b"tail");
    let mut whole = Vec::new();
    encrypt_chunks(&plain, &mut whole, &key, &nonce, algo, &aad).unwrap();

    let mut at = ChunkLoop::start();
    let mut body = Vec::new();
    for piece in [&plain[..CHUNK_SIZE], &plain[CHUNK_SIZE..]] {
        assert!(!at.done);
        let frame = encrypt_step(&mut at, piece, &key, &nonce, algo, &aad).unwrap();
        body.extend_from_slice(&frame.unwrap());
    }
    assert!(at.done);
    assert_eq!(at.index, 2);
    assert_eq!(body, whole);

    let mut at = ChunkLoop::start();
    let mut pos = 0;
    let mut out = Vec::new();
    while pos < body.len() {
        let head = [body[pos], body[pos + 1], body[pos + 2], body[pos + 3]];
        let n = frame_head(&mut at, head_read(4, head), 2).unwrap().unwrap();
        let ct = &body[pos + 4..pos + 4 + n];
        out.extend_from_slice(&decrypt_step(&mut at, ct, &key, &nonce, algo, &aad).unwrap());
        pos += 4 + n;
    }
    assert!(frame_head(&mut at, HeadRead::End, 2).unwrap().is_none());
    assert!(at.done);
    assert_eq!(at.index, 2);
    assert_eq!(out, plain);
}

#[test]
fn step_edges() {
    let mut at = ChunkLoop::start();
    let none = encrypt_step(&mut at, b"", &[0; 32], &[0; 12], Algorithm::Aes256Gcm, &[0; 32]);
    assert!(none.unwrap().is_none());
    assert!(at.done);
    assert_eq!(at.index, 0);

    let mut at = ChunkLoop::start();
    let failed = frame_head(&mut at, HeadRead::Failed("disk".to_string()), 1);
    assert!(matches!(failed, Err(CryError::Io(m)) if m == "disk"));
    let r = decrypt_step(
        &mut at,
        &[0u8; 16],
        &[0; 32],
        &[0; 12],
        Algorithm::Aes256Gcm,
        &[0; 32],
    );
    assert!(matches!(r, Err(CryError::DecryptionFailed)));
    assert_eq!(at.index, 0);
}

#[test]
fn only_opened_chunks_count() {
    let mut at = ChunkLoop::start();
    assert_eq!(at.advance(Some(vec![1, 2])).unwrap(), [1, 2]);
    assert_eq!(at.index, 1);
    assert!(matches!(at.advance(None), Err(CryError::DecryptionFailed)));
    assert_eq!(at.index, 1);
    assert!(!at.done);
}

#[test]
fn buffer_is_filled_to_the_end_of_input() {
    assert_eq!(read_chunk(0, 10, ReadEvent::Bytes(4)).unwrap(), (4, false));
    assert_eq!(read_chunk(4, 10, ReadEvent::Interrupted).unwrap(), (4, false));
    assert_eq!(read_chunk(4, 10, ReadEvent::Bytes(6)).unwrap(), (10, true));
    assert_eq!(read_chunk(4, 10, ReadEvent::Bytes(0)).unwrap(), (4, true));
    let failed = read_chunk(4, 10, ReadEvent::Failed("gone".to_string()));
    assert!(matches!(failed, Err(CryError::Io(m)) if m == "gone"));
}
