use foxwire::reality::common::{
    strip_content_type, strip_content_type_slice, strip_content_type_with_padding,
    CONTENT_TYPE_ALERT, CONTENT_TYPE_APPLICATION_DATA, CONTENT_TYPE_HANDSHAKE,
};

#[test]
fn test_strip_content_type_app_data() {
    let mut plaintext = vec![0x01, 0x02, 0x03, CONTENT_TYPE_APPLICATION_DATA];
    let ct = strip_content_type(&mut plaintext).unwrap();
    assert_eq!(ct, CONTENT_TYPE_APPLICATION_DATA);
    assert_eq!(plaintext, vec![0x01, 0x02, 0x03]);
}

#[test]
fn test_strip_content_type_handshake() {
    let mut plaintext = vec![0xAA, 0xBB, CONTENT_TYPE_HANDSHAKE];
    let ct = strip_content_type(&mut plaintext).unwrap();
    assert_eq!(ct, CONTENT_TYPE_HANDSHAKE);
    assert_eq!(plaintext, vec![0xAA, 0xBB]);
}

#[test]
fn test_strip_content_type_alert() {
    let mut plaintext = vec![0x01, 0x00, CONTENT_TYPE_ALERT];
    let ct = strip_content_type(&mut plaintext).unwrap();
    assert_eq!(ct, CONTENT_TYPE_ALERT);
    assert_eq!(plaintext, vec![0x01, 0x00]);
}

#[test]
fn test_strip_content_type_preserves_zeros() {
    // Trailing zeros in data are kept: they are not padding here.
    let mut plaintext = vec![0x01, 0x00, 0x00, CONTENT_TYPE_APPLICATION_DATA];
    let ct = strip_content_type(&mut plaintext).unwrap();
    assert_eq!(ct, CONTENT_TYPE_APPLICATION_DATA);
    assert_eq!(plaintext, vec![0x01, 0x00, 0x00]);
}

#[test]
fn test_strip_content_type_empty() {
    let mut plaintext = Vec::new();
    assert!(strip_content_type(&mut plaintext).is_err());
}

#[test]
fn test_strip_content_type_invalid() {
    let mut plaintext = vec![0x01, 0xFF];
    assert!(strip_content_type(&mut plaintext).is_err());
}

#[test]
fn test_strip_with_padding_no_padding() {
    let mut plaintext = vec![0x01, 0x02, CONTENT_TYPE_APPLICATION_DATA];
    let ct = strip_content_type_with_padding(&mut plaintext).unwrap();
    assert_eq!(ct, CONTENT_TYPE_APPLICATION_DATA);
    assert_eq!(plaintext, vec![0x01, 0x02]);
}

#[test]
fn test_strip_with_padding_strips_zeros() {
    let mut plaintext = vec![0x01, 0x02, CONTENT_TYPE_HANDSHAKE, 0x00, 0x00, 0x00];
    let ct = strip_content_type_with_padding(&mut plaintext).unwrap();
    assert_eq!(ct, CONTENT_TYPE_HANDSHAKE);
    assert_eq!(plaintext, vec![0x01, 0x02]);
}

#[test]
fn test_strip_with_padding_empty() {
    let mut plaintext = Vec::new();
    assert!(strip_content_type_with_padding(&mut plaintext).is_err());
}

#[test]
fn test_strip_with_padding_all_zeros() {
    let mut plaintext = vec![0x00, 0x00, 0x00];
    assert!(strip_content_type_with_padding(&mut plaintext).is_err());
}

#[test]
fn test_strip_with_padding_invalid_type() {
    let mut plaintext = vec![0x01, 0xFF, 0x00];
    assert!(strip_content_type_with_padding(&mut plaintext).is_err());
}

#[test]
fn a_refused_content_type_is_named_in_hexadecimal() {
    let error = strip_content_type_slice(&[0x01, 0xab]).unwrap_err();
    assert_eq!(error.message(), "Invalid content type: 0xab");
    assert_eq!(
        strip_content_type_slice(&[1, 2, CONTENT_TYPE_ALERT]).unwrap(),
        (CONTENT_TYPE_ALERT, 2)
    );
}
