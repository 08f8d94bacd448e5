use vigenere::cipher::{
    decrypt, decrypt_single_key, encrypt, repeating_xor, wrap_lines, CipherText, Error, PlainText,
};

const LONG_TEXT: &str = "dsklfshdfsfsdfsdfsdfsdfsgfssssssssssssssssssssssfffffffffffffffffffffffffffffffffffffffffffffffffffffffffffffffffffffffffffffffffffffffffffffffffffffffffffffffffffffffffffffffffffffffffffffffffffffffffffffffffffffffffffffffffffffffffffffffffffffffffffffffffffff";

fn check_text(text: &str) {
    let plain_text = PlainText::from_string(text);
    let key: &str = "toy";
    let decoded_text = decrypt(&encrypt(&plain_text, key), key).unwrap();
    assert_eq!(text, decoded_text.to_utf8().unwrap());
}

// What `encrypt_file` and `decrypt_file` do between reading and writing:
// the ciphertext file holds Base64 in lines, and is read back as one string.
fn check_text_file(text: &str) {
    let key: &str = "toy";
    let plain_file: Vec<u8> = PlainText::from_string(text).as_bytes();

    let read_plain = String::from_utf8(plain_file).unwrap();
    let cipher = encrypt(&PlainText::from_string(&read_plain), key);
    let cipher_file: Vec<u8> = cipher.to_b64_lines();

    let read_cipher = String::from_utf8(cipher_file).unwrap();
    let cipher = CipherText::from_b64(&read_cipher).unwrap();
    let decoded_file: Vec<u8> = decrypt(&cipher, key).unwrap().as_bytes();

    let decoded_text = PlainText::from_string(&String::from_utf8(decoded_file).unwrap());
    assert_eq!(text, decoded_text.to_utf8().unwrap());
}

fn check_to_from_file(text: &str) {
    let plain_text = PlainText::from_string(text);
    let key: &str = "toy";
    let cipher_text = encrypt(&plain_text, key);

    let plain_file: Vec<u8> = plain_text.as_bytes();
    let rec_plain = PlainText::from_string(&String::from_utf8(plain_file).unwrap());
    assert_eq!(plain_text.to_utf8().unwrap(), rec_plain.to_utf8().unwrap());

    let cipher_file: Vec<u8> = cipher_text.to_b64_lines();
    let rec_cipher = CipherText::from_b64(&String::from_utf8(cipher_file).unwrap()).unwrap();
    assert_eq!(cipher_text.to_b64(), rec_cipher.to_b64());
}

#[test]
fn cipher_test_encrypt_and_decrypt() {
    check_text("This is the plain text\n");
    check_text("123, 456");
    check_text("!£$%^&*@~:");
    check_text("日本語");
}

#[test]
fn test_encrypt_and_decrypt_files() {
    check_text_file("This is the plain text\n");
    check_text_file("123, 456");
    check_text_file("!£$%^&*@~:");
    check_text_file("日本語");
    check_text_file("This is the plain text\nThis is the plain text\nThis is the plain text\n");
    check_text_file(LONG_TEXT);
}

#[test]
fn test_file_storage() {
    check_to_from_file("This is the plain text\n");
    check_to_from_file("123, 456");
    check_to_from_file("!£$%^&*@~:");
    check_to_from_file("日本語");
    check_to_from_file(
        "This is the plain text\nThis is the plain text\nThis is the plain \
         text\n",
    );
    check_to_from_file(LONG_TEXT);
}

#[test]
fn cipher_test_wrong_key() {
    let text = "This is the plain text";
    let plain_text = PlainText::from_string(text);
    let key: &str = "toy";
    let decoded_text = decrypt(&encrypt(&plain_text, key), "wrong_key").unwrap();
    assert!(text != decoded_text.to_utf8().unwrap());
}

#[test]
fn cypher_test_encrypt_and_decrypt() {
    check_text("This is the plain text");
    check_text("123, 456");
    check_text("!£$%^&*@~:");
    check_text("日本語");
}

#[test]
fn cypher_test_wrong_key() {
    let text = "This is the plain text";
    let plain_text = PlainText::from_string(text);
    let key: &str = "toy";
    let cipher_text = decrypt(&encrypt(&plain_text, key), "wrong_key").unwrap();
    assert!(text != cipher_text.to_utf8().unwrap());
}

#[test]
fn repeating_xor_cycles_through_the_key() {
    assert_eq!(
        vec![0x01 ^ 0x10, 0x02 ^ 0x20, 0x03 ^ 0x10, 0x04 ^ 0x20, 0x05 ^ 0x10],
        repeating_xor(&[1, 2, 3, 4, 5], &[0x10, 0x20])
    );
    assert_eq!(vec![0x11, 0x12], repeating_xor(&[1, 2], &[0x10, 0x10, 0x99]));
    assert!(repeating_xor(&[], &[]).is_empty());
    assert!(repeating_xor(&[], &[1]).is_empty());
}

#[test]
fn encrypt_known_answer() {
    let plain = PlainText::from_string(
        "Burning 'em, if you ain't quick and nimble\nI go crazy when I hear a cymbal",
    );
    let cipher = encrypt(&plain, "ICE");
    assert_eq!(
        "0b3637272a2b2e63622c2e69692a23693a2a3c6324202d623d63343c2a26226324272765272\
         a282b2f20430a652e2c652a3124333a653e2b2027630c692b20283165286326302e27282f",
        cipher.to_hex()
    );
}

#[test]
fn encrypt_twice_gives_the_plaintext_back() {
    let plain = PlainText::from_string("attack at dawn");
    let once = encrypt(&plain, "lemon");
    let twice = encrypt(&PlainText::new(&once.as_bytes()), "lemon");
    assert_eq!(plain.as_bytes(), twice.as_bytes());
    assert_ne!(plain.as_bytes(), once.as_bytes());
}

#[test]
fn decrypt_single_key_xors_every_byte() {
    let cipher = CipherText::new(&[0x00, 0xff, 0x0f]);
    assert_eq!(
        vec![0xaa, 0x55, 0xa5],
        decrypt_single_key(&cipher, 0xaa).unwrap().as_bytes()
    );
    assert_eq!(
        vec![0x00, 0xff, 0x0f],
        decrypt_single_key(&cipher, 0).unwrap().as_bytes()
    );
}

#[test]
fn hex_text_of_bytes() {
    assert_eq!("beef", CipherText::new(&[0xbe, 0xef]).to_hex());
    assert_eq!("00010fa09cff", CipherText::new(&[0, 1, 15, 160, 156, 255]).to_hex());
    assert_eq!("", CipherText::new(&[]).to_hex());
}

#[test]
fn hex_text_to_bytes() {
    assert_eq!(vec![0xbe, 0xef], CipherText::from_hex("beef").unwrap().as_bytes());
    assert_eq!(vec![0xbe, 0xef], CipherText::from_hex("BE EF\n").unwrap().as_bytes());
    assert!(CipherText::from_hex("").unwrap().as_bytes().is_empty());
    let bytes: Vec<u8> = (0..=255u8).collect();
    let text = CipherText::new(&bytes).to_hex();
    assert_eq!(bytes, CipherText::from_hex(&text).unwrap().as_bytes());
}

#[test]
fn hex_text_with_blanks_and_capitals() {
    assert_eq!(
        vec![0x01, 0xab, 0xcd],
        CipherText::from_hex(" 0 1\tAb\r\ncD ").unwrap().as_bytes()
    );
    assert!(matches!(CipherText::from_hex("0 1 2"), Err(Error::Hex(_))));
    assert!(matches!(CipherText::from_hex("0g"), Err(Error::Hex(_))));
    assert!(matches!(CipherText::from_hex("é1"), Err(Error::Hex(_))));
    assert!(matches!(CipherText::from_hex("12\u{b}"), Err(Error::Hex(_))));
}

#[test]
fn hex_errors() {
    assert!(matches!(CipherText::from_hex("zz"), Err(Error::Hex(_))));
    assert!(matches!(CipherText::from_hex("abc"), Err(Error::Hex(_))));
    let message = match CipherText::from_hex("12g4") {
        Err(Error::Hex(message)) => message,
        _ => panic!("a bad digit must be refused"),
    };
    assert_eq!("Invalid character 'g' at position 2", message);
}

#[test]
fn base64_text_of_bytes() {
    assert_eq!("Zm9vYmFy", CipherText::new(b"foobar").to_b64());
    assert_eq!("Zm9vYg==", CipherText::new(b"foob").to_b64());
    assert_eq!("", CipherText::new(b"").to_b64());
}

#[test]
fn base64_text_to_bytes() {
    assert_eq!(b"foobar".to_vec(), CipherText::from_b64("Zm9vYmFy").unwrap().as_bytes());
    assert_eq!(b"foob".to_vec(), CipherText::from_b64("Zm9v\nYg==\n").unwrap().as_bytes());
    let bytes: Vec<u8> = (0..=255u8).collect();
    let text = CipherText::new(&bytes).to_b64();
    assert_eq!(bytes, CipherText::from_b64(&text).unwrap().as_bytes());
}

#[test]
fn base64_errors() {
    assert!(matches!(CipherText::from_b64("Zm9v!"), Err(Error::Base64(_))));
    assert!(matches!(CipherText::from_b64("Z"), Err(Error::Base64(_))));
}

#[test]
fn utf8_text_of_bytes() {
    assert_eq!("日本語", PlainText::new("日本語".as_bytes()).to_utf8().unwrap());
    assert_eq!("", PlainText::new(&[]).to_utf8().unwrap());
    assert!(matches!(PlainText::new(&[0xff, 0xfe]).to_utf8(), Err(Error::UTF8(_))));
    assert!(matches!(PlainText::from_bytes(&[0xc3]).to_utf8(), Err(Error::UTF8(_))));
}

#[test]
fn plain_text_holds_the_bytes_it_was_given() {
    assert_eq!(vec![1, 2, 3], PlainText::new(&[1, 2, 3]).as_bytes());
    assert_eq!(vec![1, 2, 3], PlainText::from_bytes(&[1, 2, 3]).as_bytes());
    assert_eq!(vec![0xc2, 0xa3], PlainText::from_string("£").as_bytes());
    assert_eq!(vec![1, 2, 3], CipherText::new(&[1, 2, 3]).as_bytes());
    assert_eq!(&[1, 2, 3], CipherText::new(&[1, 2, 3]).as_slice());
    assert_eq!(&[1, 2, 3], PlainText::new(&[1, 2, 3]).as_slice());
}

#[test]
fn wrap_lines_cuts_at_the_width() {
    assert_eq!(b"abc\ndef\ngh\n".to_vec(), wrap_lines(b"abcdefgh", 3));
    assert_eq!(b"abc\ndef\n".to_vec(), wrap_lines(b"abcdef", 3));
    assert_eq!(b"ab\n".to_vec(), wrap_lines(b"ab", 3));
    assert_eq!(b"a\nb\n".to_vec(), wrap_lines(b"ab", 1));
    assert!(wrap_lines(b"", 3).is_empty());
}

#[test]
fn cipher_file_lines_are_eighty_bytes_wide() {
    let cipher = CipherText::new(&[0x5a; 100]);
    let text = cipher.to_b64();
    assert_eq!(136, text.len());
    let lines = cipher.to_b64_lines();
    let mut wanted: Vec<u8> = Vec::new();
    wanted.extend_from_slice(&text.as_bytes()[..80]);
    wanted.push(b'\n');
    wanted.extend_from_slice(&text.as_bytes()[80..]);
    wanted.push(b'\n');
    assert_eq!(wanted, lines);
    assert!(CipherText::new(&[]).to_b64_lines().is_empty());
    let exact = CipherText::new(&[0x5a; 60]);
    assert_eq!(81, exact.to_b64_lines().len());
}
