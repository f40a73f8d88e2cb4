use rico32::cartridge::{
    embedded_cart, export_image, export_image_checked, is_text_cart_path, read_cart_bytes, read_cart_bytes_checked,
    write_cart_bytes, CartError, TrailerError,
};

#[test]
fn a_text_cartridge_is_the_base64_text_of_the_binary_one() {
    let encoded = b"cartridge".to_vec();
    let binary = write_cart_bytes("a.r32", &encoded);
    let text = write_cart_bytes("a.r32.txt", &encoded);
    assert_ne!(text, binary);
    let alphabet = "ABCDEFGHIJKLMNOPQRSTUVWXYZabcdefghijklmnopqrstuvwxyz0123456789+/";
    let mut bits: Vec<u8> = Vec::new();
    let mut acc: u32 = 0;
    let mut n = 0;
    for c in text.iter().copied().filter(|c| *c != b'=') {
        acc = (acc << 6) | alphabet.find(c as char).unwrap() as u32;
        n += 6;
        if n >= 8 {
            n -= 8;
            bits.push((acc >> n) as u8);
            acc &= (1 << n) - 1;
        }
    }
    assert_eq!(bits, binary);
}

#[test]
fn text_cartridges_are_named_r32_txt() {
    assert!(is_text_cart_path("game.r32.txt"));
    assert!(!is_text_cart_path("game.r32"));
    assert!(!is_text_cart_path("txt"));
}

#[test]
fn a_written_binary_cartridge_reads_back() {
    let encoded = b"some encoded cartridge bytes".to_vec();
    let file = write_cart_bytes("game.r32", &encoded);
    assert_ne!(file, encoded);
    assert_eq!(&file[..2], &[0x1f, 0x8b]);
    assert_eq!(read_cart_bytes("game.r32", &file).unwrap(), encoded);
}

#[test]
fn a_written_text_cartridge_is_base64_and_reads_back() {
    let encoded = vec![0u8, 1, 2, 250, 251, 252];
    let file = write_cart_bytes("game.r32.txt", &encoded);
    let text = String::from_utf8(file.clone()).unwrap();
    assert!(text.chars().all(|c| c.is_ascii_alphanumeric() || c == '+' || c == '/' || c == '='));
    assert_eq!(read_cart_bytes("game.r32.txt", &file).unwrap(), encoded);
    assert_eq!(read_cart_bytes_checked("game.r32.txt", &file), Some(Ok(encoded)));
}

#[test]
fn a_file_that_is_no_gzip_stream_fails_to_read() {
    assert_eq!(read_cart_bytes("game.r32", &b"plain".to_vec()), Err(CartError::Decompress));
}

#[test]
fn a_text_cartridge_without_base64_is_refused() {
    assert_eq!(read_cart_bytes_checked("game.r32.txt", &b"!!not base64!!".to_vec()), None);
    assert_eq!(export_image_checked(&vec![1], "game.r32.txt", &b"%%%".to_vec()), None);
}

#[test]
fn an_exported_executable_carries_its_cartridge() {
    let exe = vec![0x7f, b'E', b'L', b'F', 9, 9];
    let cart = vec![10, 20, 30];
    let image = export_image(&exe, "game.r32", &cart);
    let mut expected = exe.clone();
    expected.extend_from_slice(&cart);
    expected.extend_from_slice(b"R32X");
    expected.extend_from_slice(&1u32.to_le_bytes());
    expected.extend_from_slice(&3u64.to_le_bytes());
    assert_eq!(image, expected);
    assert_eq!(embedded_cart(&image), Ok(Some(cart)));
}

#[test]
fn exporting_a_text_cartridge_embeds_its_decoded_bytes() {
    let encoded = vec![5u8, 6, 7, 8];
    let binary = write_cart_bytes("game.r32", &encoded);
    let text = write_cart_bytes("game.r32.txt", &encoded);
    let image = export_image(&vec![1, 2], "game.r32.txt", &text);
    assert_eq!(embedded_cart(&image), Ok(Some(binary)));
}

#[test]
fn a_plain_executable_carries_no_cartridge() {
    assert_eq!(embedded_cart(&vec![0u8; 40]), Ok(None));
    assert_eq!(embedded_cart(&vec![0u8; 15]), Err(TrailerError::TooShort));
    let mut bad = vec![1u8, 2];
    bad.extend_from_slice(b"R32X");
    bad.extend_from_slice(&1u32.to_le_bytes());
    bad.extend_from_slice(&100u64.to_le_bytes());
    assert_eq!(embedded_cart(&bad), Err(TrailerError::TooLong));
}

#[test]
fn decoding_a_text_cartridge_gives_its_binary_bytes() {
    let encoded = b"sprites and scripts".to_vec();
    let binary = write_cart_bytes("b.r32", &encoded);
    let text = write_cart_bytes("b.r32.txt", &encoded);
    assert_eq!(rico32::cartridge::decode(&text), binary);
}
