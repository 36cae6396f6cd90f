use foxwire::reality::common::{
    CONTENT_TYPE_HANDSHAKE, HANDSHAKE_TYPE_ENCRYPTED_EXTENSIONS, HANDSHAKE_TYPE_FINISHED,
    HANDSHAKE_TYPE_SERVER_HELLO,
};
use foxwire::reality::messages::{
    construct_encrypted_extensions, construct_finished, construct_server_hello,
    write_record_header, INITIAL_RECORD_VERSION,
};
use foxwire::reality::server_hello::{
    extract_client_random, extract_server_cipher_suite, extract_server_key_share,
    extract_server_selected_group, extract_server_selected_version, ServerKeyShare,
};

#[test]
fn test_construct_server_hello() {
    let server_random = [0x42u8; 32];
    let session_id = vec![0x99u8; 32];
    let cipher_suite = 0x1301;
    let key_share = vec![0xAAu8; 32];

    let result = construct_server_hello(&server_random, &session_id, cipher_suite, &key_share);

    assert!(result.is_ok());
    let msg = result.unwrap();
    assert_eq!(msg[0], HANDSHAKE_TYPE_SERVER_HELLO);
}

#[test]
fn what_a_server_hello_was_made_from_is_read_back() {
    let msg = construct_server_hello(&[0x42; 32], &[0x99; 7], 0x1302, &[0xAB; 32]).unwrap();
    assert_eq!(extract_server_cipher_suite(&msg).unwrap(), 0x1302);
    assert_eq!(extract_server_selected_version(&msg).unwrap(), Some(0x0304));
    assert_eq!(extract_server_selected_group(&msg).unwrap(), 0x001d);
    assert_eq!(
        extract_server_key_share(&msg).unwrap(),
        ServerKeyShare::X25519([0xAB; 32])
    );
    for cut in 0..msg.len() {
        assert!(extract_server_key_share(&msg[..cut]).is_err(), "cut at {cut}");
    }
}

#[test]
fn test_construct_encrypted_extensions() {
    let result = construct_encrypted_extensions();
    assert!(result.is_ok());
    let msg = result.unwrap();
    assert_eq!(msg[0], HANDSHAKE_TYPE_ENCRYPTED_EXTENSIONS);
}

#[test]
fn test_construct_finished() {
    let verify_data = vec![0xCCu8; 32];
    let result = construct_finished(&verify_data);
    assert!(result.is_ok());
    let msg = result.unwrap();
    assert_eq!(msg[0], HANDSHAKE_TYPE_FINISHED);
    assert_eq!(msg.len(), 1 + 3 + 32);
}

#[test]
fn test_write_record_header() {
    let header = write_record_header(CONTENT_TYPE_HANDSHAKE, INITIAL_RECORD_VERSION, 100);
    assert_eq!(header.len(), 5);
    assert_eq!(header[0], 0x16);
    assert_eq!(header[1], 0x03);
    assert_eq!(header[2], 0x01);
    assert_eq!(u16::from_be_bytes([header[3], header[4]]), 100);
}

#[test]
fn the_initial_record_version_is_the_one_boringssl_and_utls_send() {
    assert_eq!(INITIAL_RECORD_VERSION, [0x03, 0x01]);
    let header = write_record_header(CONTENT_TYPE_HANDSHAKE, INITIAL_RECORD_VERSION, 512);
    assert_eq!(&header[..3], &[0x16, 0x03, 0x01]);
}

#[test]
fn test_extract_client_random() {
    let mut client_hello = vec![0u8; 100];
    client_hello[0] = 0x16;
    client_hello[1] = 0x03;
    client_hello[2] = 0x03;
    client_hello[5] = 0x01;
    client_hello[9] = 0x03;
    client_hello[10] = 0x03;
    for i in 0..32 {
        client_hello[11 + i] = (i + 1) as u8;
    }

    let random = extract_client_random(&client_hello).unwrap();
    for (index, byte) in random.iter().enumerate() {
        assert_eq!(*byte, (index + 1) as u8);
    }
    assert!(extract_client_random(&client_hello[..42]).is_err());
}

#[test]
fn the_version_reads_back_whatever_the_share_is() {
    for length in [0, 1, 31, 33, 1120, 65_521] {
        let message =
            construct_server_hello(&[0x42; 32], &[0x99; 255], 0x1303, &vec![0xab; length]).unwrap();
        assert_eq!(
            extract_server_selected_version(&message).unwrap(),
            Some(0x0304)
        );
        assert_eq!(extract_server_selected_group(&message).unwrap(), 0x001d);
        assert_eq!(extract_server_cipher_suite(&message).unwrap(), 0x1303);
        assert!(extract_server_key_share(&message).is_err());
    }
}
