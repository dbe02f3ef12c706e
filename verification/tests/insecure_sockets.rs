use protohackers::insecure_sockets::cipher::{
    is_noop_cipher, parse_cipher_op, parse_cipher_spec, CipherDirection, CipherOp, Encoder,
};
use protohackers::insecure_sockets::session::{Handler, Reply};
use protohackers::insecure_sockets::toys::{toy_priority, try_toy_priority};

fn encrypt(spec: &Vec<CipherOp>, plain: &[u8]) -> Vec<u8> {
    let mut encoder = Encoder::new(spec);
    plain
        .iter()
        .map(|b| encoder.apply_cipher(*b, CipherDirection::Encrypt))
        .collect()
}

fn decrypt(spec: &Vec<CipherOp>, disguised: &[u8]) -> Vec<u8> {
    let mut encoder = Encoder::new(spec);
    disguised
        .iter()
        .map(|b| encoder.apply_cipher(*b, CipherDirection::Decrypt))
        .collect()
}

#[test]
fn operations_are_read() {
    assert_eq!(parse_cipher_op(&[1, 9]), Some((&[9][..], CipherOp::Rev)));
    assert_eq!(parse_cipher_op(&[2, 9]), Some((&[][..], CipherOp::Xor(9))));
    assert_eq!(parse_cipher_op(&[3, 9]), Some((&[9][..], CipherOp::XorPos)));
    assert_eq!(parse_cipher_op(&[4, 9, 9]), Some((&[9][..], CipherOp::Add(9))));
    assert_eq!(parse_cipher_op(&[5]), Some((&[][..], CipherOp::AddPos)));
    assert_eq!(parse_cipher_op(&[2]), None);
    assert_eq!(parse_cipher_op(&[4]), None);
    assert_eq!(parse_cipher_op(&[0]), None);
    assert_eq!(parse_cipher_op(&[6, 1]), None);
    assert_eq!(parse_cipher_op(&[]), None);
}

#[test]
fn ciphers_are_read() {
    assert_eq!(
        parse_cipher_spec(&[2, 1, 1, 0]),
        Some((&[][..], vec![CipherOp::Xor(1), CipherOp::Rev]))
    );
    assert_eq!(
        parse_cipher_spec(&[3, 4, 0, 5, 0, 7]),
        Some((&[7][..], vec![CipherOp::XorPos, CipherOp::Add(0), CipherOp::AddPos]))
    );
    assert_eq!(parse_cipher_spec(&[0]), Some((&[][..], vec![])));
    assert_eq!(parse_cipher_spec(&[]), None);
    assert_eq!(parse_cipher_spec(&[1, 3]), None);
    assert_eq!(parse_cipher_spec(&[2, 0]), None);
    assert_eq!(parse_cipher_spec(&[9, 0]), None);
}

#[test]
fn bytes_are_disguised() {
    let spec = vec![CipherOp::Xor(1), CipherOp::Rev];
    assert_eq!(encrypt(&spec, b"hello"), vec![0x96, 0x26, 0xb6, 0xb6, 0x76]);
    let spec = vec![CipherOp::AddPos, CipherOp::AddPos];
    assert_eq!(encrypt(&spec, b"hello"), vec![0x68, 0x67, 0x70, 0x72, 0x77]);
}

#[test]
fn bits_are_reversed() {
    let spec = vec![CipherOp::Rev];
    for b in 0..=255u8 {
        let mut encoder = Encoder::new(&spec);
        assert_eq!(
            encoder.apply_cipher(b, CipherDirection::Encrypt),
            b.reverse_bits()
        );
    }
}

#[test]
fn decryption_undoes_encryption() {
    let spec = vec![
        CipherOp::Xor(123),
        CipherOp::AddPos,
        CipherOp::Rev,
        CipherOp::Add(200),
        CipherOp::XorPos,
    ];
    let plain: Vec<u8> = (0..1000u32).map(|i| (i * 7 % 256) as u8).collect();
    assert_eq!(decrypt(&spec, &encrypt(&spec, &plain)), plain);
    assert_eq!(encrypt(&spec, &decrypt(&spec, &plain)), plain);
    assert_ne!(encrypt(&spec, &plain), plain);
}

#[test]
fn positions_come_round() {
    let spec = vec![CipherOp::AddPos];
    let disguised = encrypt(&spec, &[0; 258]);
    assert_eq!(disguised[255], 255);
    assert_eq!(disguised[256], 0);
    assert_eq!(disguised[257], 1);
}

#[test]
fn ciphers_without_effect_are_found() {
    assert!(is_noop_cipher(&vec![]));
    assert!(is_noop_cipher(&vec![CipherOp::Xor(0)]));
    assert!(is_noop_cipher(&vec![CipherOp::Xor(7), CipherOp::Xor(7)]));
    assert!(is_noop_cipher(&vec![CipherOp::Rev, CipherOp::Rev]));
    assert!(is_noop_cipher(&vec![CipherOp::XorPos, CipherOp::XorPos]));
    assert!(is_noop_cipher(&vec![CipherOp::Add(100), CipherOp::Add(156)]));
    assert!(is_noop_cipher(&vec![
        CipherOp::Xor(0xa0),
        CipherOp::Xor(0x0b),
        CipherOp::Xor(0xab)
    ]));
    assert!(!is_noop_cipher(&vec![CipherOp::Rev]));
    assert!(!is_noop_cipher(&vec![CipherOp::AddPos]));
    assert!(!is_noop_cipher(&vec![CipherOp::Add(1)]));
}

#[test]
fn the_most_wanted_toy_is_chosen() {
    assert_eq!(
        toy_priority("10x toy car,15x dog on a string,4x inflatable motorcycle"),
        "15x dog on a string"
    );
    assert_eq!(toy_priority("4x dog,5x car"), "5x car");
    assert_eq!(toy_priority("1x a"), "1x a");
    assert_eq!(toy_priority("+3x caf\u{e9},2x b"), "+3x caf\u{e9}");
}

#[test]
fn the_last_of_the_most_wanted_is_chosen() {
    assert_eq!(toy_priority("2x a,2x b,1x c"), "2x b");
    let requests = [("5x a", 5), ("7x b", 7), ("7x c", 7), ("0x d", 0)];
    let text: Vec<&str> = requests.iter().map(|r| r.0).collect();
    assert_eq!(
        toy_priority(&text.join(",")),
        requests.iter().max_by_key(|r| r.1).unwrap().0
    );
}

#[test]
fn requests_without_counts_are_none() {
    for text in ["", "toy", "1x a,", "x a", "ax b", "1x a,-1x b", "4294967296x a", " 1x a"] {
        assert_eq!(try_toy_priority(text), None, "{text:?}");
    }
}

#[test]
fn a_session_answers_in_disguise() {
    let spec = vec![CipherOp::Xor(123), CipherOp::AddPos, CipherOp::Rev];
    let mut handler = Handler::new(&spec);
    let reply = handler.handle(&[
        0xf2, 0x20, 0xba, 0x44, 0x18, 0x84, 0xba, 0xaa, 0xd0, 0x26, 0x44, 0xa4, 0xa8, 0x7e,
    ]);
    assert_eq!(
        reply,
        Reply { bytes: vec![0x72, 0x20, 0xba, 0xd8, 0x78, 0x70, 0xee], complete: true }
    );
    let reply = handler.handle(&[
        0x6a, 0x48, 0xd6, 0x58, 0x34, 0x44, 0xd6, 0x7a, 0x98, 0x4e, 0x0c, 0xcc, 0x94, 0x31,
    ]);
    assert_eq!(
        reply,
        Reply { bytes: vec![0xf2, 0xd0, 0x26, 0xc8, 0xa4, 0xd8, 0x7e], complete: true }
    );
}

#[test]
fn pieces_of_a_request_make_no_difference() {
    let spec = vec![CipherOp::AddPos, CipherOp::Xor(9)];
    let sent = encrypt(&spec, b"1x a,2x b\n3x c\r\n4x");
    let mut whole = Handler::new(&spec);
    let all = whole.handle(&sent);
    let mut piecewise = Handler::new(&spec);
    let mut bytes = Vec::new();
    for b in &sent {
        let reply = piecewise.handle(&[*b]);
        assert!(reply.complete);
        bytes.extend(reply.bytes);
    }
    assert_eq!(bytes, all.bytes);
    assert_eq!(decrypt(&spec, &bytes), b"2x b\n3x c\n");
    assert_eq!(piecewise.decrypted_buffer, "4x");
    assert_eq!(whole.decrypted_buffer, "4x");
}

#[test]
fn a_client_ends_its_line_later() {
    let spec = vec![CipherOp::XorPos, CipherOp::Add(3)];
    let sent = encrypt(&spec, b"5x a,1x b\r\n1x c,2x d\n");
    let mut handler = Handler::new(&spec);
    assert_eq!(handler.handle(&sent[..4]).bytes, vec![]);
    let first = handler.handle(&sent[4..11]).bytes;
    let second = handler.handle(&sent[11..]).bytes;
    assert_eq!(decrypt(&spec, &[first, second].concat()), b"5x a\n2x d\n");
}

#[test]
fn a_line_that_is_no_request_ends_the_answers() {
    let spec = vec![CipherOp::Add(1)];
    let mut handler = Handler::new(&spec);
    let reply = handler.handle(&encrypt(&spec, b"1x a\nnonsense\n2x b\n"));
    assert!(!reply.complete);
    assert_eq!(decrypt(&spec, &reply.bytes), b"1x a\n");
}

#[test]
fn bytes_beyond_ascii_are_characters() {
    let spec = vec![CipherOp::Add(1)];
    let mut handler = Handler::new(&spec);
    let reply = handler.handle(&encrypt(&spec, b"1x \xe9\n"));
    assert_eq!(decrypt(&spec, &reply.bytes), "1x \u{e9}\n".as_bytes());
}
