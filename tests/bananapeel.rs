use bananapeel::{Bananapeel, DecodeFailure, Key, Pcg};

const DRAWS: u64 = 100_000_000;

const LOREM: &str = "Lorem ipsum dolor sit amet, consectetur adipiscing elit, sed do eiusmod tempor \
incididunt ut labore et dolore magna aliqua. Ut enim ad minim veniam, quis nostrud exercitation \
ullamco laboris nisi ut aliquip ex ea commodo consequat. Duis aute irure dolor in reprehenderit in \
voluptate velit esse cillum dolore eu fugiat nulla pariatur. Excepteur sint occaecat cupidatat non \
proident, sunt in culpa qui officia deserunt mollit anim id est laborum.\n";

fn key(rng_init_state: u64, rng_init_seq: u64, base64_len: u64, noise_len: u32) -> Key {
    Key { rng_init_state, rng_init_seq, base64_len, noise_len }
}

fn prefix_of_first_draw(state: u64, seq: u64) -> String {
    let mut rng = Pcg::from_seed(state, seq);
    format!("{:08x}", rng.next())
}

#[test]
fn pcg_works() {
    let seed = Pcg::new_seed().expect("no entropy");
    let mut rng = Pcg::from_seed(seed.0, seed.1);
    println!("{}", rng.next());
    println!("{}", rng.next());
    println!("{}", rng.next());
}

#[test]
fn pcg_matches_reference_outputs() {
    let mut rng = Pcg::from_seed(6237633766001211634, 13929184729078426727);
    assert_eq!(rng.next(), 3282087308);
    assert_eq!(rng.next(), 2729458503);
    assert_eq!(rng.next(), 1426172205);
}

#[test]
fn pcg_matches_reference_demo_seed() {
    let mut rng = Pcg::from_seed(42, 54);
    let got: Vec<u32> = (0..6).map(|_| rng.next()).collect();
    assert_eq!(got, vec![0xa15c02b7, 0x7b47f409, 0xba1d3330, 0x83d2f293, 0xbfa4784b, 0xcbed606e]);
}

#[test]
fn same_seed_gives_same_stream() {
    let mut a = Pcg::from_seed(1, 2);
    let mut b = Pcg::from_seed(1, 2);
    for _ in 0..1000 {
        assert_eq!(a.next(), b.next());
    }
}

#[test]
fn different_seeds_give_different_streams() {
    let mut a = Pcg::from_seed(1, 2);
    let mut b = Pcg::from_seed(1, 3);
    let xs: Vec<u32> = (0..8).map(|_| a.next()).collect();
    let ys: Vec<u32> = (0..8).map(|_| b.next()).collect();
    assert_ne!(xs, ys);
}

#[test]
fn encoding_works() {
    let bp = Bananapeel::default_sha256();
    let (encoded, key) = bp.encode(LOREM).expect("no entropy");
    for chunk in &encoded {
        assert_eq!(chunk.len(), 64);
    }
    let decoded = Bananapeel::decode(&encoded, key, DRAWS);
    assert!(decoded.is_ok());
    assert_eq!(decoded.unwrap(), LOREM);
}

#[test]
fn round_trip_with_fixed_seeds() {
    let bp = Bananapeel { output_len: 40, min_data_in_chunk: 10, max_value_skip_bound: 1 << 31 };
    let text = "héllo, wörld: ünïcode ✓ and more text to fill several chunks";
    let (chunks, key) = bp.encode_with_seeds(text, (11, 12), (13, 14));
    assert!(!chunks.is_empty());
    for c in &chunks {
        assert_eq!(c.len(), 40);
        assert!(c.bytes().all(|b| b.is_ascii_digit() || (b'a'..=b'f').contains(&b)));
    }
    assert_eq!(key.rng_init_state, 13);
    assert_eq!(key.rng_init_seq, 14);
    assert_eq!(Bananapeel::decode(&chunks, key, DRAWS).unwrap(), text);
}

#[test]
fn fixed_seeds_are_reproducible_and_noise_is_drawn_first() {
    let bp = Bananapeel::default_sha256();
    let a = bp.encode_with_seeds("abc", (5, 6), (7, 8));
    let b = bp.encode_with_seeds("abc", (5, 6), (7, 8));
    assert_eq!(a, b);
    let mut aux = Pcg::from_seed(5, 6);
    assert_eq!(a.1.noise_len, aux.next() % 24);
    // "abc" is "YWJj" in base64.
    assert_eq!(a.1.base64_len, 4);
}

#[test]
fn empty_input_round_trips() {
    let bp = Bananapeel::default_sha256();
    let (chunks, key) = bp.encode_with_seeds("", (1, 1), (2, 2));
    assert!(chunks.is_empty());
    assert_eq!(key.base64_len, 0);
    assert_eq!(Bananapeel::decode(&chunks, key, 10).unwrap(), "");
}

#[test]
fn zero_skip_bound_round_trips() {
    let bp = Bananapeel { output_len: 64, min_data_in_chunk: 32, max_value_skip_bound: 0 };
    let (chunks, key) = bp.encode_with_seeds(LOREM, (3, 4), (5, 6));
    assert_eq!(Bananapeel::decode(&chunks, key, (chunks.len() as u64) + 1).unwrap(), LOREM);
}

#[test]
fn shuffled_chunks_hold_the_partitions() {
    let bp = Bananapeel { output_len: 20, min_data_in_chunk: 11, max_value_skip_bound: 0 };
    let text = "payload that spans a few chunks";
    let (chunks, key) = bp.encode_with_seeds(text, (21, 22), (23, 24));
    let hex: String = "cGF5bG9hZCB0aGF0IHNwYW5zIGEgZmV3IGNodW5rcw"
        .bytes()
        .map(|b| format!("{:02x}", b))
        .collect();
    let skip = 8 + key.noise_len as usize;
    let mut rng = Pcg::from_seed(23, 24);
    let mut joined = String::new();
    for _ in 0..chunks.len() {
        let prefix = format!("{:08x}", rng.next());
        let found: Vec<&String> = chunks.iter().filter(|c| c.starts_with(&prefix)).collect();
        assert_eq!(found.len(), 1);
        joined.push_str(&found[0][skip..]);
    }
    assert!(joined.starts_with(&hex));
    assert_eq!(joined.len() % (20 - skip), 0);
}

#[test]
fn fresh_keys_differ() {
    let bp = Bananapeel::default_sha256();
    let (c1, k1) = bp.encode("same input").expect("no entropy");
    let (c2, k2) = bp.encode("same input").expect("no entropy");
    assert_ne!((k1.rng_init_state, k1.rng_init_seq), (k2.rng_init_state, k2.rng_init_seq));
    assert_ne!(c1, c2);
}

#[test]
fn no_noise_room_is_rejected() {
    let bp = Bananapeel { output_len: 64, min_data_in_chunk: 56, max_value_skip_bound: 0 };
    assert!(!bp.is_valid());
    let bp = Bananapeel { output_len: 64, min_data_in_chunk: 60, max_value_skip_bound: 0 };
    assert!(!bp.is_valid());
    let bp = Bananapeel { output_len: 4, min_data_in_chunk: 0, max_value_skip_bound: 0 };
    assert!(!bp.is_valid());
    let bp = Bananapeel { output_len: 64, min_data_in_chunk: 55, max_value_skip_bound: 0 };
    assert!(bp.is_valid());
    assert!(Bananapeel::default_sha256().is_valid());
}

#[test]
fn default_sha256_settings() {
    let bp = Bananapeel::default_sha256();
    assert_eq!(bp.output_len, 64);
    assert_eq!(bp.min_data_in_chunk, 32);
    assert_eq!(bp.max_value_skip_bound, 3221225471);
}

#[test]
fn malformed_base64_is_a_decode_error() {
    // "**" is not base64.
    let chunk = format!("{}2a2a", prefix_of_first_draw(9, 10));
    let r = Bananapeel::decode(&[chunk], key(9, 10, 2, 0), 100);
    assert!(matches!(r, Err(DecodeFailure::Base64DecodeError(_))));
}

#[test]
fn malformed_hex_is_a_decode_error() {
    let chunk = format!("{}zz", prefix_of_first_draw(9, 10));
    let r = Bananapeel::decode(&[chunk], key(9, 10, 1, 0), 100);
    assert!(matches!(r, Err(DecodeFailure::HexDecodeError(_))));
}

#[test]
fn odd_digit_is_dropped_before_hex_decoding() {
    // "YQ" is the base64 of "a"; the trailing digit is padding.
    let chunk = format!("{}ff5951c", prefix_of_first_draw(9, 10));
    let r = Bananapeel::decode(&[chunk], key(9, 10, 2, 2), 100);
    assert_eq!(r.unwrap(), "a");
}

#[test]
fn short_chunk_is_malformed() {
    let r = Bananapeel::decode(&["abc".to_string()], key(9, 10, 0, 0), 100);
    assert!(matches!(r, Err(DecodeFailure::MalformedChunk)));
    let chunk = format!("{}12", prefix_of_first_draw(9, 10));
    let r = Bananapeel::decode(&[chunk], key(9, 10, 0, 3), 100);
    assert!(matches!(r, Err(DecodeFailure::MalformedChunk)));
}

#[test]
fn short_data_is_an_error() {
    let chunk = format!("{}5951", prefix_of_first_draw(9, 10));
    let r = Bananapeel::decode(&[chunk], key(9, 10, 3, 0), 100);
    assert!(matches!(r, Err(DecodeFailure::DataTooShort)));
}

#[test]
fn invalid_utf8_is_an_error() {
    // "_w" is the base64 of the byte 0xff.
    let chunk = format!("{}5f77", prefix_of_first_draw(9, 10));
    let r = Bananapeel::decode(&[chunk], key(9, 10, 2, 0), 100);
    assert!(matches!(r, Err(DecodeFailure::InvalidUtf8)));
}

#[test]
fn wrong_key_exhausts_the_search() {
    let bp = Bananapeel::default_sha256();
    let (chunks, k) = bp.encode_with_seeds(LOREM, (1, 2), (3, 4));
    let wrong = key(k.rng_init_state + 1, k.rng_init_seq, k.base64_len, k.noise_len);
    let r = Bananapeel::decode(&chunks, wrong, 10_000);
    assert!(matches!(r, Err(DecodeFailure::SearchExhausted)));
}

#[test]
fn key_bytes_round_trip() {
    let k = key(0x0102030405060708, u64::MAX, 77, 0xdeadbeef);
    let bytes = k.to_bytes();
    assert_eq!(bytes.len(), 28);
    assert_eq!(&bytes[0..8], &[8, 7, 6, 5, 4, 3, 2, 1]);
    assert_eq!(&bytes[24..28], &[0xef, 0xbe, 0xad, 0xde]);
    assert_eq!(Key::from_bytes(&bytes), Some(k));
    assert_eq!(Key::from_bytes(&bytes[1..]), None);
}
