use wizpatch::checksum::CHUNK_SIZE;
use wizpatch::Crc32;

fn checksum(chunks: &[&[u8]]) -> u32 {
    let mut crc = Crc32::new();
    for chunk in chunks {
        crc.update(chunk);
    }
    crc.finalize()
}

#[test]
fn known_checksums() {
    assert_eq!(checksum(&[]), 0);
    assert_eq!(checksum(&[b""]), 0);
    assert_eq!(checksum(&[b"a"]), 0xe8b7be43);
    assert_eq!(checksum(&[b"123456789"]), 0xcbf43926);
}

#[test]
fn chunks_do_not_matter() {
    let data: Vec<u8> = (0..200_000u32).map(|i| (i * 31 % 251) as u8).collect();
    let whole = checksum(&[data.as_slice()]);
    assert_eq!(whole, crc32fast::hash(&data));
    for size in [1, 7, 16, 1000, CHUNK_SIZE] {
        let chunks: Vec<&[u8]> = data.chunks(size).collect();
        assert_eq!(checksum(&chunks), whole);
    }
    assert_eq!(checksum(&[b"1234", b"", b"56789"]), 0xcbf43926);
}

/// The checksum bit by bit, from the register's definition.
fn by_bits(data: &[u8]) -> u32 {
    let mut register = !0u32;
    for byte in data {
        register ^= *byte as u32;
        for _ in 0..8 {
            register = if register & 1 == 1 { (register >> 1) ^ 0xedb8_8320 } else { register >> 1 };
        }
    }
    !register
}

#[test]
fn checksum_is_that_of_the_definition() {
    let data: Vec<u8> = (0..10_000u32).map(|i| (i.wrapping_mul(2_654_435_761) >> 13) as u8).collect();
    for len in [0, 1, 2, 3, 4, 15, 16, 17, 63, 64, 127, 128, 255, 256, 2047, 2048, 10_000] {
        assert_eq!(checksum(&[&data[..len]]), by_bits(&data[..len]));
    }
}
