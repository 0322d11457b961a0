use pals::{aes_cypher, fmt_pairs, get_profile, parse_cookie, profile_for, BytesCryptoExt, Profile};

#[test]
fn user_profile() {
    assert_eq!(
        get_profile("a@aa.aa"),
        vec![
            ("email", "a@aa.aa".to_string()),
            ("uid", "10".into()),
            ("role", "user".into()),
        ]
    );
}

#[test]
fn user_profile_no_email_injection() {
    assert_eq!(
        get_profile("foo@bar.com&role=admin"),
        vec![
            ("email", "foo@bar.comroleadmin".to_string()),
            ("uid", "10".into()),
            ("role", "user".into()),
        ]
    );
}

#[test]
fn cookie_parse_sanity_check() {
    let x = parse_cookie("foo=bar&baz=qux&zap=zazzle");
    assert_eq!(
        x,
        &[
            ("foo".to_string(), "bar".to_string()),
            ("baz".to_string(), "qux".to_string()),
            ("zap".to_string(), "zazzle".to_string())
        ]
    );
}

#[test]
fn cookie_fmt_in_order() {
    let data = vec![
        ("email", "foo@bar.com".to_string()),
        ("uid", "10".into()),
        ("role", "user".into()),
    ];
    let s = fmt_pairs(&data);
    assert_eq!(s, "email=foo@bar.com&uid=10&role=user");
}

#[test]
fn profile_roundtrip() {
    let key = Vec::<u8>::generate_random(16);
    let enc = profile_for("foo@acme.com", &key);

    let mut plain: Vec<u8> = aes_cypher::decrypt(&enc, &key).concat();
    plain.unpad_pkcs7(16);
    let text = String::from_utf8(plain).unwrap();
    assert_eq!(text, "email=foo@acme.com&uid=10&role=user");
    let profile = Profile::from_cookie(&text).unwrap();
    assert_eq!(profile.email(), "foo@acme.com");
    assert_eq!(profile.role(), "user");
}

#[test]
fn from_cookie_takes_last_duplicate_and_needs_all_keys() {
    let p = Profile::from_cookie("email=a@b.c&uid=10&role=user&role=admin").unwrap();
    assert_eq!(p.role(), "admin");

    assert!(Profile::from_cookie("email=a@b.c&uid=10").is_none());
}
