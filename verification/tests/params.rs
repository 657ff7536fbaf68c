use pqcrypto_sign_falcon::falcon::{falcon_1024, falcon_512, Signature, HEAD_LEN, SALT_LEN};

#[test]
fn standard_parameter_sets() {
    let p = falcon_512();
    assert_eq!(p.n, 512);
    assert_eq!(p.sig_bound, 34034726);
    assert_eq!(p.sig_bytelen, 666);
    // sigma = 165.7366171829776 and sigmin = 1.2778336969128337 as
    // exact decimal fixed-point records.
    assert_eq!(p.sigma_mantissa as f64 / 10f64.powi(p.sigma_exp10 as i32), 165.7366171829776);
    assert_eq!(p.sigmin_mantissa, 12778336969128337);
    assert_eq!(p.sigmin_exp10, 16);

    let p = falcon_1024();
    assert_eq!(p.n, 1024);
    assert_eq!(p.sig_bound, 70265242);
    assert_eq!(p.sig_bytelen, 1280);
    assert_eq!(p.sigma_mantissa as f64 / 10f64.powi(p.sigma_exp10 as i32), 168.38857144654395);
}

#[test]
fn signature_parses_header_salt_content() {
    let mut buf = vec![0x39u8];
    buf.extend(std::iter::repeat(7u8).take(SALT_LEN));
    buf.extend([1u8, 2, 3, 4]);
    let sig = Signature::try_from(&buf[..]).unwrap();
    assert_eq!(sig.head, 0x39);
    assert_eq!(sig.salt, vec![7u8; SALT_LEN]);
    assert_eq!(sig.content, vec![1, 2, 3, 4]);
    assert_eq!(HEAD_LEN + SALT_LEN, 41);
}

#[test]
fn signature_with_empty_content_parses() {
    let buf = vec![1u8; 41];
    let sig = Signature::try_from(&buf[..]).unwrap();
    assert!(sig.content.is_empty());
}

#[test]
fn signature_rejects_empty_buffer() {
    match Signature::try_from(&[][..]) {
        Err(e) => assert_eq!(e, "Could not parse head"),
        Ok(_) => panic!("an empty buffer must not parse"),
    }
}

#[test]
fn signature_rejects_short_salt() {
    match Signature::try_from(&[9u8; 40][..]) {
        Err(e) => assert_eq!(e, "Could not parse salt"),
        Ok(_) => panic!("a short buffer must not parse"),
    }
}
