use minechat_protocol::protocol::MineChatError;
use minechat_protocol::tls::{
    certificate_base64, connection_policy, decode_pinned_certificate, pinned_certificate_matches,
    pinning_policy,
};

#[test]
fn pinned_certificate_is_base64() {
    assert_eq!(decode_pinned_certificate("+uwgVQA=").unwrap(), vec![0xfa, 0xec, 0x20, 0x55, 0x00]);
    assert_eq!(decode_pinned_certificate("").unwrap(), Vec::<u8>::new());
}

#[test]
fn bad_base64_is_a_config_error() {
    match decode_pinned_certificate("not base64!") {
        Err(MineChatError::ConfigError(m)) => {
            assert!(m.starts_with("Invalid base64 certificate: "), "{}", m)
        }
        other => panic!("expected a config error, got {:?}", other),
    }
}

#[test]
fn no_pin_trusts_on_first_use() {
    assert_eq!(pinning_policy(None), Ok(None));
    assert_eq!(pinning_policy(Some("AQID")), Ok(Some(vec![1, 2, 3])));
    assert!(pinning_policy(Some("@@@")).is_err());
}

#[test]
fn only_the_pinned_certificate_matches() {
    assert!(pinned_certificate_matches(&[1, 2, 3], &[1, 2, 3]));
    assert!(!pinned_certificate_matches(&[1, 2, 3], &[1, 2, 4]));
    assert!(!pinned_certificate_matches(&[1, 2], &[1, 2, 3]));
}

#[test]
fn stored_pin_reads_back() {
    let der = vec![0xff, 0xec, 0x20, 0x55, 0x00];
    let text = certificate_base64(&der);
    assert_eq!(text, "/+wgVQA=");
    assert_eq!(decode_pinned_certificate(&text).unwrap(), der);
}

#[test]
fn host_names_are_checked_after_the_pin() {
    assert_eq!(connection_policy("example.com", None), Ok(None));
    assert_eq!(connection_policy("127.0.0.1", Some("AQID")), Ok(Some(vec![1, 2, 3])));
    let bad_host = MineChatError::ConfigError("Invalid hostname: invalid dns name".to_string());
    assert_eq!(connection_policy("not a host!", None), Err(bad_host.clone()));
    assert_eq!(connection_policy("not a host!", Some("AQID")), Err(bad_host));
    match connection_policy("not a host!", Some("@@@")) {
        Err(MineChatError::ConfigError(m)) => assert!(m.starts_with("Invalid base64 certificate: ")),
        other => panic!("expected the pin's error, got {:?}", other),
    }
}
