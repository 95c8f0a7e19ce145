use picolv2::uf2::{
    image_to_uf2, write_u32, RP2350_FAMILY_ID, UF2_BLOCK_SIZE, UF2_MAGIC_END, UF2_MAGIC_START0,
    UF2_MAGIC_START1,
};

#[test]
fn test_image_to_uf2_empty_fails_or_generates() {
    let image = vec![0xff; 2 * 1024 * 1024];
    let uf2 = image_to_uf2(&image).unwrap();
    // All 0xff chunks are skipped
    assert_eq!(uf2.len(), 0);

    let mut image_with_data = vec![0xff; 2 * 1024 * 1024];
    image_with_data[0] = 0x42;
    let uf2_with_data = image_to_uf2(&image_with_data).unwrap();
    assert_eq!(uf2_with_data.len(), UF2_BLOCK_SIZE);
    assert_eq!(
        u32::from_le_bytes(uf2_with_data[0..4].try_into().unwrap()),
        UF2_MAGIC_START0
    );
    assert_eq!(
        u32::from_le_bytes(uf2_with_data[4..8].try_into().unwrap()),
        UF2_MAGIC_START1
    );
    assert_eq!(
        u32::from_le_bytes(uf2_with_data[28..32].try_into().unwrap()),
        RP2350_FAMILY_ID
    );
    assert_eq!(
        u32::from_le_bytes(uf2_with_data[508..512].try_into().unwrap()),
        UF2_MAGIC_END
    );
}

#[test]
fn uf2_rejects_oversized_images() {
    let image = vec![0u8; 2 * 1024 * 1024 + 1];
    assert_eq!(image_to_uf2(&image).unwrap_err(), "flash image exceeds 2 MiB");
}

#[test]
fn uf2_blocks_carry_addresses_numbers_and_short_chunks() {
    let mut image = vec![0xff; 1000];
    image[300] = 1;
    image[999] = 2;
    let uf2 = image_to_uf2(&image).unwrap();
    assert_eq!(uf2.len(), 2 * UF2_BLOCK_SIZE);
    let word = |block: usize, offset: usize| {
        u32::from_le_bytes(uf2[block * 512 + offset..block * 512 + offset + 4].try_into().unwrap())
    };
    assert_eq!(word(0, 12), 0x1000_0100);
    assert_eq!(word(0, 20), 0);
    assert_eq!(word(0, 24), 2);
    assert_eq!(word(1, 12), 0x1000_0300);
    assert_eq!(word(1, 20), 1);
    // The last chunk holds 1000 - 768 = 232 bytes; the payload is zero padded.
    assert_eq!(uf2[512 + 32 + 231], 2);
    assert_eq!(uf2[512 + 32 + 232], 0);
    assert_eq!(uf2[32 + 44], 1);
}

#[test]
fn write_u32_is_little_endian() {
    let mut bytes = [0u8; 6];
    write_u32(&mut bytes, 1, 0x0403_0201);
    assert_eq!(bytes, [0, 1, 2, 3, 4, 0]);
}

#[test]
fn numbers_blocks_by_populated_chunk() {
    let mut image = vec![0xffu8; 4 * 256 + 10];
    image[5] = 1;
    image[3 * 256 + 7] = 2;
    let uf2 = image_to_uf2(&image).unwrap();
    assert_eq!(uf2.len(), 2 * 512);
    let word = |block: usize, offset: usize| {
        u32::from_le_bytes(uf2[block * 512 + offset..block * 512 + offset + 4].try_into().unwrap())
    };
    assert_eq!(word(0, 12), 0x1000_0000);
    assert_eq!(word(1, 12), 0x1000_0300);
    assert_eq!((word(0, 20), word(1, 20)), (0, 1));
    assert_eq!((word(0, 24), word(1, 24)), (2, 2));
    assert_eq!(uf2[512 + 32 + 7], 2);
    assert_eq!(&uf2[512 + 32..512 + 32 + 7], &[0xff; 7]);
}
