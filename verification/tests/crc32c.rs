use sukari::crc32c::{crc32c, Crc32c, POLYNOMIAL};

#[test]
fn known_vectors() {
    assert_eq!(crc32c(b""), 0);
    assert_eq!(crc32c(b"123456789"), 0xE306_9283);
    assert_eq!(
        crc32c(b"The quick brown fox jumps over the lazy dog"),
        0x2262_0404
    );
}

#[test]
fn streaming_equals_one_shot() {
    let input: Vec<u8> = (0..10_000).map(|i| (i % 251) as u8).collect();
    let one_shot = crc32c(&input);
    let mut crc = Crc32c::new();
    for chunk in input.chunks(37) {
        crc.update(chunk);
    }
    assert_eq!(crc.value(), one_shot);
}

#[test]
fn fast_path_matches_byte_at_a_time() {
    let input: Vec<u8> = (0..512).map(|i| (i % 251) as u8).collect();
    for len in 0..=input.len() {
        let data = &input[..len];
        assert_eq!(crc32c(data), crc32c_byte_at_a_time(data), "len={len}");
    }
}

fn crc32c_byte_at_a_time(data: &[u8]) -> u32 {
    let mut crc = 0xFFFF_FFFF;
    for byte in data {
        crc ^= u32::from(*byte);
        for _ in 0..8 {
            crc = if crc & 1 == 0 {
                crc >> 1
            } else {
                (crc >> 1) ^ POLYNOMIAL
            };
        }
    }
    !crc
}
