use rust_rc4::{Rc4, Rc4Error};

fn from_hex(s: &str) -> Vec<u8> {
    assert!(s.len() % 2 == 0);
    (0..s.len() / 2)
        .map(|k| u8::from_str_radix(&s[2 * k..2 * k + 2], 16).unwrap())
        .collect()
}

struct Vector {
    key: &'static str,
    input: &'static str,
    output: &'static str,
}

fn vectors() -> Vec<Vector> {
    vec![
        Vector {
            key: "0102030405",
            input: "00000000000000000000000000000000",
            output: "b2396305f03dc027ccc3524a0a1118a8",
        },
        Vector {
            key: "01020304050607",
            input: "00000000000000000000000000000000",
            output: "293f02d47f37c9b633f2af5285feb46b",
        },
        Vector {
            key: "0102030405060708",
            input: "00000000000000000000000000000000",
            output: "97ab8a1bf0afb96132f2f67258da15a8",
        },
    ]
}

fn run(key: &[u8], input: &[u8]) -> Vec<u8> {
    let mut rc4 = Rc4::ksa(key).unwrap();
    let mut output = vec![0u8; input.len()];
    rc4.apply(input, &mut output);
    output
}

fn assert_permutation(rc4: &Rc4) {
    let mut p = rc4.permutation().to_vec();
    p.sort();
    let identity: Vec<u8> = (0..=255u8).collect();
    assert_eq!(p, identity);
}

#[test]
fn it_works() {
    let tests = vectors();
    for t in tests.iter() {
        let mut rc4 = Rc4::ksa(from_hex(t.key).as_slice()).unwrap();
        let mut output = [0; 16];

        rc4.apply(from_hex(t.input).as_slice(), &mut output);

        assert!(from_hex(t.output).as_slice() == &output);
    }
}

#[test]
fn known_answer_key_of_five_bytes() {
    let out = run(&[1, 2, 3, 4, 5], &[0u8; 16]);
    assert_eq!(out, from_hex("b2396305f03dc027ccc3524a0a1118a8"));
}

#[test]
fn known_answer_key_of_seven_bytes() {
    let out = run(&[1, 2, 3, 4, 5, 6, 7], &[0u8; 16]);
    assert_eq!(out, from_hex("293f02d47f37c9b633f2af5285feb46b"));
}

#[test]
fn known_answer_key_of_eight_bytes() {
    let out = run(&[1, 2, 3, 4, 5, 6, 7, 8], &[0u8; 16]);
    assert_eq!(out, from_hex("97ab8a1bf0afb96132f2f67258da15a8"));
}

#[test]
fn key_length_boundaries() {
    assert!(Rc4::ksa(&[7u8; 5]).is_ok());
    assert!(Rc4::ksa(&[7u8; 256]).is_ok());
    assert_eq!(Rc4::ksa(&[7u8; 4]).err(), Some(Rc4Error::InvalidKeyLength));
    assert_eq!(Rc4::ksa(&[7u8; 257]).err(), Some(Rc4Error::InvalidKeyLength));
    assert_eq!(Rc4::ksa(&[]).err(), Some(Rc4Error::InvalidKeyLength));
}

#[test]
fn permutation_after_schedule_and_apply() {
    let key: Vec<u8> = (0..=255u8).rev().collect();
    let mut rc4 = Rc4::ksa(&key).unwrap();
    assert_permutation(&rc4);
    let input = vec![0x5au8; 1000];
    let mut output = vec![0u8; 1000];
    rc4.apply(&input, &mut output);
    assert_permutation(&rc4);
    rc4.apply(&input[..3], &mut output[..3]);
    assert_permutation(&rc4);
}

#[test]
fn schedule_does_not_keep_identity() {
    let rc4 = Rc4::ksa(&[1, 2, 3, 4, 5]).unwrap();
    let identity: Vec<u8> = (0..=255u8).collect();
    assert_ne!(rc4.permutation().to_vec(), identity);
}

#[test]
fn output_length_equals_input_length() {
    for n in [0usize, 1, 16, 255, 256, 1000] {
        let input = vec![3u8; n];
        assert_eq!(run(b"secret", &input).len(), n);
    }
}

#[test]
fn round_trip_recovers_input() {
    let key = b"Key of some length";
    let plain: Vec<u8> = (0..600u32).map(|k| (k * 31 % 251) as u8).collect();
    let cipher = run(key, &plain);
    assert_ne!(cipher, plain);
    assert_eq!(run(key, &cipher), plain);
}

#[test]
fn round_trip_on_empty_input() {
    assert_eq!(run(b"abcde", &[]), Vec::<u8>::new());
}

#[test]
fn same_key_gives_same_keystream() {
    let key = [9u8, 8, 7, 6, 5, 4];
    let zeros = [0u8; 64];
    assert_eq!(run(&key, &zeros), run(&key, &zeros));
    let other = run(&[9u8, 8, 7, 6, 5, 3], &zeros);
    assert_ne!(run(&key, &zeros), other);
}

#[test]
fn keystream_continues_across_calls() {
    let mut rc4 = Rc4::ksa(&[1, 2, 3, 4, 5]).unwrap();
    let mut first = [0u8; 5];
    let mut second = [0u8; 11];
    rc4.apply(&[0u8; 5], &mut first);
    rc4.apply(&[0u8; 11], &mut second);
    let mut joined = first.to_vec();
    joined.extend_from_slice(&second);
    assert_eq!(joined, from_hex("b2396305f03dc027ccc3524a0a1118a8"));
}

#[test]
fn nonzero_input_is_combined_with_keystream() {
    let keystream = run(&[1, 2, 3, 4, 5], &[0u8; 16]);
    let input: Vec<u8> = (0..16u8).collect();
    let out = run(&[1, 2, 3, 4, 5], &input);
    for k in 0..16 {
        assert_eq!(out[k], keystream[k] ^ input[k]);
    }
}
