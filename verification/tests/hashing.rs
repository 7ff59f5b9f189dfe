use sha2::Digest;

use vsb::digests::{FileReader, Hasher, Md5Hasher, ReadPlan};
use vsb::hash::{empty_file_hash, ChunkedSha256};

fn sha256(data: &[u8]) -> Vec<u8> {
    sha2::Sha256::digest(data).to_vec()
}

fn sha512(data: &[u8]) -> Vec<u8> {
    sha2::Sha512::digest(data).to_vec()
}

fn chars(s: &str) -> Vec<char> {
    s.chars().collect()
}

#[test]
fn hash_hex_form() {
    let hash = vsb::hash::Hash::from_bytes(&[0x00, 0x1f, 0xa0, 0xff]);
    assert_eq!(hash.to_string(), "001fa0ff");
    assert_eq!(hash.to_hex_chars(), chars("001fa0ff"));
    assert_eq!(hash.as_bytes(), &[0x00, 0x1f, 0xa0, 0xff]);
}

#[test]
fn hash_hex_round_trip() {
    let hash = vsb::hash::Hash::from_bytes(&sha256(b"data"));
    let parsed = vsb::hash::Hash::from_hex_chars(&hash.to_hex_chars()).unwrap();
    assert!(parsed.equals(&hash));
    assert_eq!(parsed.as_bytes(), hash.as_bytes());
    assert!(vsb::hash::Hash::from_hex_chars(&chars("ABcd")).unwrap().equals(&vsb::hash::Hash::from_bytes(&[0xab, 0xcd])));
}

#[test]
fn hash_hex_rejects_bad_input() {
    assert!(vsb::hash::Hash::from_hex_chars(&chars("abc")).is_err());
    assert!(vsb::hash::Hash::from_hex_chars(&chars("zz")).is_err());
}

#[test]
fn hash_equality_and_copy() {
    let a = vsb::hash::Hash::from_bytes(&[1, 2, 3]);
    let b = a.copy();
    assert!(a.equals(&b));
    assert!(!a.equals(&vsb::hash::Hash::from_bytes(&[1, 2])));
}

#[test]
fn empty_file_hash_is_sha512_of_nothing() {
    assert_eq!(empty_file_hash().as_bytes(), sha512(b"").as_slice());
}

#[test]
fn chunked_sha256_hashes_block_digests() {
    let data = b"abcdefghij";
    let mut hasher = ChunkedSha256::new(4);
    let mut rest: &[u8] = data;
    let mut taken = Vec::new();
    while !rest.is_empty() {
        let n = hasher.write(rest);
        taken.push(n);
        rest = &rest[n..];
    }
    assert_eq!(taken, vec![4, 4, 2]);

    let mut digests = sha256(b"abcd");
    digests.extend(sha256(b"efgh"));
    digests.extend(sha256(b"ij"));
    assert_eq!(hasher.finish().as_bytes(), sha256(&digests).as_slice());
}

#[test]
fn chunked_sha256_takes_up_to_the_block_end() {
    let mut hasher = ChunkedSha256::new(4);
    assert_eq!(hasher.write(b"ab"), 2);
    assert_eq!(hasher.write(b"cdef"), 2);
    assert_eq!(hasher.write(b""), 0);
    assert_eq!(hasher.write(b"ef"), 2);
    let mut digests = sha256(b"abcd");
    digests.extend(sha256(b"ef"));
    assert_eq!(hasher.finish().as_bytes(), sha256(&digests).as_slice());
}

#[test]
fn chunked_sha256_of_nothing() {
    let hasher = ChunkedSha256::new(4);
    assert_eq!(hasher.finish().as_bytes(), sha256(b"").as_slice());
}

#[test]
fn md5_hasher_is_md5() {
    let mut hasher = Md5Hasher::new();
    assert_eq!(hasher.write(b"hello "), 6);
    assert_eq!(hasher.write(b"world"), 5);
    let expected = md5::Md5::digest(b"hello world").to_vec();
    assert_eq!(hasher.finish().as_bytes(), expected.as_slice());
    assert_eq!(Md5Hasher::new().finish().to_string(), "d41d8cd98f00b204e9800998ecf8427e");
}

/// Reads `file` through a file reader of the given size, `chunk` bytes at a time.
fn read_through(file: &[u8], size: u64, chunk: usize) -> (Vec<u8>, u64, vsb::hash::Hash) {
    let mut reader = FileReader::new(size);
    let mut out = Vec::new();
    let mut pos = 0;
    loop {
        match reader.plan(chunk) {
            ReadPlan::End => break,
            ReadPlan::Zeros(n) => {
                out.extend(std::iter::repeat(0).take(n));
                reader.on_zeros(n);
            },
            ReadPlan::FromFile(n) => {
                let end = std::cmp::min(pos + n, file.len());
                let data = &file[pos..end];
                pos = end;
                out.extend_from_slice(data);
                reader.on_file_data(data);
            },
        }
    }
    let (bytes_read, hash) = reader.consume();
    (out, bytes_read, hash)
}

/// A deterministic stream of pseudo-random bytes.
fn pseudo_random(len: usize, mut state: u64) -> Vec<u8> {
    (0..len).map(|_| {
        state = state.wrapping_mul(6364136223846793005).wrapping_add(1442695040888963407);
        (state >> 33) as u8
    }).collect()
}

#[test]
fn file_reader() {
    let data = pseudo_random(1024 * 1024, 7);
    let mut sizes = vec![0, data.len()];
    let mut state = 11u64;
    for _ in 0..10 {
        state = state.wrapping_mul(6364136223846793005).wrapping_add(1);
        sizes.push(1 + (state >> 20) as usize % (data.len() - 1));
    }

    for file_size in sizes {
        let file_mock = &data[..file_size];
        state = state.wrapping_mul(6364136223846793005).wrapping_add(1);
        let extra = 1 + (state >> 20) as usize % data.len();
        for truncated_size in [0, extra] {
            let size = file_size + truncated_size;
            let expected_hash = sha512(file_mock);
            let mut expected_data = file_mock.to_vec();
            expected_data.extend(std::iter::repeat(0).take(size - file_mock.len()));

            let (result_data, bytes_read, hash) = read_through(file_mock, size as u64, 64 * 1024);
            assert_eq!(bytes_read, file_mock.len() as u64);
            assert_eq!(hash.as_bytes(), expected_hash.as_slice());
            if result_data != expected_data {
                panic!("Got an invalid data")
            }
        }
    }
}

#[test]
fn file_reader_stops_at_the_size() {
    let (data, bytes_read, hash) = read_through(b"abcdef", 4, 3);
    assert_eq!(data, b"abcd");
    assert_eq!(bytes_read, 4);
    assert_eq!(hash.as_bytes(), sha512(b"abcd").as_slice());
}

#[test]
fn file_reader_fills_a_truncated_file_with_zeros() {
    let (data, bytes_read, hash) = read_through(b"ab", 5, 4);
    assert_eq!(data, b"ab\0\0\0");
    assert_eq!(bytes_read, 2);
    assert_eq!(hash.as_bytes(), sha512(b"ab").as_slice());
}

#[test]
fn chunked_sha256_with_empty_blocks_takes_nothing() {
    let mut hasher = ChunkedSha256::new(0);
    assert_eq!(hasher.write(b"abc"), 0);
    assert_eq!(hasher.write(b""), 0);
    assert_eq!(hasher.write(b"d"), 0);
    let mut digests = sha256(b"");
    digests.extend(sha256(b""));
    assert_eq!(hasher.finish().as_bytes(), sha256(&digests).as_slice());
}
