use rtun::endpoint::{endpoint_id, EndpointId, Place};
use rtun::error::Error;
use rtun::identity::{config_path, load_or_create_key, state_dir, KeyFile, KeyStep, Platform};
use rtun::token::{load_or_create_token, mint_token, token_eq, token_text, TokenStep};

#[test]
fn token_eq_matches_only_identical_tokens() {
    assert!(token_eq("abc", "abc"));
    assert!(!token_eq("abc", "abd"));
    assert!(!token_eq("abc", "ab"));
    assert!(!token_eq("", "a"));
    assert!(token_eq("", ""));
}

#[test]
fn token_eq_sees_every_byte() {
    assert!(!token_eq("xbc", "abc"));
    assert!(!token_eq("\u{e9}", "\u{e8}"));
    assert!(token_eq("\u{e9}", "\u{e9}"));
}

#[test]
fn minted_tokens_are_random_hex() {
    let (a, b) = (mint_token(), mint_token());
    assert_eq!(a.len(), 32);
    assert!(a.chars().all(|c| c.is_ascii_digit() || ('a'..='f').contains(&c)));
    assert!(a != b);
    assert_eq!(
        token_text(&[0x00, 0x01, 0x0f, 0x10, 0xff, 0xa5, 6, 7, 8, 9, 10, 11, 12, 13, 14, 15]),
        "00010f10ffa5060708090a0b0c0d0e0f"
    );
}

#[test]
fn a_token_file_is_kept_or_replaced() {
    assert!(matches!(load_or_create_token(Some(" abc\n")), TokenStep::Keep(t) if t == "abc"));
    assert!(matches!(load_or_create_token(Some(" \n")), TokenStep::Create(t) if t.len() == 32));
    assert!(matches!(load_or_create_token(None), TokenStep::Create(t) if t.len() == 32));
}

#[test]
fn a_key_file_is_kept_created_or_refused() {
    let key: Vec<u8> = (0..32).collect();
    match load_or_create_key("/k", KeyFile::Bytes(key.clone())) {
        Ok(KeyStep::Keep(k)) => assert_eq!(k.to_vec(), key),
        other => panic!("{other:?}"),
    }
    let fresh = |r: Result<KeyStep, Error>| match r {
        Ok(KeyStep::Create(k)) => k,
        other => panic!("{other:?}"),
    };
    let a = fresh(load_or_create_key("/k", KeyFile::Missing));
    let b = fresh(load_or_create_key("/k", KeyFile::Missing));
    assert!(a != b);
    // a damaged key is never replaced
    let e = load_or_create_key("/k", KeyFile::Bytes(vec![1; 31])).unwrap_err();
    assert_eq!(e.message(), "/k: not a 32-byte key; delete it to regenerate");
    assert!(matches!(
        load_or_create_key("/k", KeyFile::Unreadable("denied".into())),
        Err(Error::Unreadable { path, cause }) if path == "/k" && cause == "denied"
    ));
}

#[test]
fn state_lives_where_the_environment_says() {
    let at = |r: Option<&str>, s: Option<&str>, u: Option<&str>, p: Platform| {
        let d = state_dir(r, s, u, p).unwrap();
        (d.base, d.parts)
    };
    let none: Vec<String> = vec![];
    assert_eq!(
        at(Some("/a"), Some("/b"), Some("/c"), Platform::Unix),
        ("/a".to_string(), none.clone())
    );
    assert_eq!(
        at(Some(""), Some("/b"), Some("/c"), Platform::Unix),
        ("/b".to_string(), none)
    );
    assert_eq!(
        at(None, None, Some("/c"), Platform::Unix),
        ("/c".to_string(), vec![".local/state".to_string(), "rtun".to_string()])
    );
    assert_eq!(
        at(None, Some(""), Some("C"), Platform::Windows),
        ("C".to_string(), vec!["rtun".to_string()])
    );
    assert!(matches!(state_dir(None, None, None, Platform::Unix), Err(Error::NoStateDir)));
    let f = config_path(Some("/a"), None, None, Platform::Unix).unwrap();
    assert_eq!((f.base, f.parts), ("/a".to_string(), vec!["config.toml".to_string()]));
}

#[test]
fn the_id_of_a_secret_is_its_public_key() {
    let secret = [7u8; 32];
    let id = endpoint_id(&secret);
    assert_eq!(id.bytes, *iroh::SecretKey::from_bytes(&secret).public().as_bytes());
    assert!(id.bytes != secret);
}

#[test]
fn ids_are_ordered_by_their_bytes() {
    let a = EndpointId { bytes: [1; 32] };
    let mut bytes = [1; 32];
    bytes[31] = 2;
    let b = EndpointId { bytes };
    assert!(matches!(a.place(&b), Place::Before));
    assert!(matches!(b.place(&a), Place::After));
    assert!(matches!(a.place(&a), Place::Same));
    assert!(a != b && a == a);
}
