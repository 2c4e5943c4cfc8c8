use pf8::crypto::{decrypt, encrypt, generate_key};

fn hex(bytes: &[u8]) -> String {
    let mut s = String::new();
    for b in bytes {
        s.push_str(&format!("{:02x}", b));
    }
    s
}

#[test]
fn generate_key_is_sha1_of_index_region() {
    let mut data = vec![b'p', b'f', b'8', 11, 0, 0, 0];
    data.extend_from_slice(b"hello world");
    data.extend_from_slice(b"payload that is not hashed");
    let key = generate_key(&data, 11);
    assert_eq!(key.len(), 20);
    assert_eq!(hex(&key), "2aae6c35c94fcfb415dbe95f408b9ce91ee846ed");
}

#[test]
fn generate_key_of_empty_region() {
    let data = vec![b'p', b'f', b'8', 0, 0, 0, 0];
    let key = generate_key(&data, 0);
    assert_eq!(hex(&key), "da39a3ee5e6b4b0d3255bfef95601890afd80709");
}

#[test]
fn generate_key_falls_back_to_available_bytes() {
    let mut data = vec![b'p', b'f', b'8', 200, 0, 0, 0];
    data.extend_from_slice(b"hello world");
    let key = generate_key(&data, 200);
    assert_eq!(hex(&key), "2aae6c35c94fcfb415dbe95f408b9ce91ee846ed");
    let short = generate_key(b"pf8", 10);
    assert_eq!(hex(&short), "da39a3ee5e6b4b0d3255bfef95601890afd80709");
}

#[test]
fn key_depends_on_index_bytes_only() {
    let mut a = vec![b'p', b'f', b'8', 4, 0, 0, 0, 1, 2, 3, 4];
    let mut b = a.clone();
    a.extend_from_slice(b"one payload");
    b.extend_from_slice(b"another payload altogether");
    assert_eq!(generate_key(&a, 4), generate_key(&b, 4));
    let c = vec![b'p', b'f', b'8', 4, 0, 0, 0, 1, 2, 3, 5];
    assert_ne!(generate_key(&a, 4), generate_key(&c, 4));
}

#[test]
fn encrypt_xors_with_repeated_key() {
    let mut data = vec![0x00u8, 0xff, 0x0f, 0xf0, 0x55];
    encrypt(&mut data, &[0x01, 0x02, 0x03], 0);
    assert_eq!(data, vec![0x01, 0xfd, 0x0c, 0xf1, 0x57]);
}

#[test]
fn encrypt_honours_local_offset() {
    let mut data = vec![0u8; 4];
    encrypt(&mut data, &[1, 2, 3], 2);
    assert_eq!(data, vec![3, 1, 2, 3]);
    let mut data = vec![0u8; 2];
    encrypt(&mut data, &[1, 2, 3], usize::MAX);
    let k = usize::MAX % 3;
    assert_eq!(data, vec![[1u8, 2, 3][k], [1u8, 2, 3][(k + 1) % 3]]);
}

#[test]
fn cipher_is_an_involution() {
    let key: Vec<u8> = (1..=20).collect();
    let plain: Vec<u8> = (0..1000).map(|i| (i * 7 % 256) as u8).collect();
    for offset in [0usize, 1, 19, 20, 21, 12345] {
        let mut data = plain.clone();
        encrypt(&mut data, &key, offset);
        assert_ne!(data, plain);
        encrypt(&mut data, &key, offset);
        assert_eq!(data, plain);
        let once = decrypt(&plain, &key, offset);
        assert_eq!(decrypt(&once, &key, offset), plain);
    }
}

#[test]
fn chunked_encryption_equals_whole_file_encryption() {
    let key: Vec<u8> = (0..20).map(|i| (i * 13 + 5) as u8).collect();
    let content: Vec<u8> = (0..10 * 1024).map(|i| (i % 251) as u8).collect();
    let mut whole = content.clone();
    encrypt(&mut whole, &key, 0);

    let cuts = [0usize, 1000, 4097, 10 * 1024];
    let mut chunked = Vec::new();
    for w in cuts.windows(2) {
        let mut chunk = content[w[0]..w[1]].to_vec();
        encrypt(&mut chunk, &key, w[0]);
        chunked.extend_from_slice(&chunk);
    }
    assert_eq!(chunked, whole);

    let mut wrong = Vec::new();
    for w in cuts.windows(2) {
        let mut chunk = content[w[0]..w[1]].to_vec();
        encrypt(&mut chunk, &key, 0);
        wrong.extend_from_slice(&chunk);
    }
    assert_ne!(wrong, whole);
}

#[test]
fn decrypt_leaves_input_untouched() {
    let data = vec![1u8, 2, 3];
    let out = decrypt(&data, &[0xff], 0);
    assert_eq!(out, vec![0xfe, 0xfd, 0xfc]);
    assert_eq!(data, vec![1, 2, 3]);
    assert!(decrypt(&[], &[1], 5).is_empty());
}
