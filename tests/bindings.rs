use base64::Engine;
use blc_client::bindings::{
    blake2b_hash, blake2b_hash_hex, build_blc_payload, build_submit_work_package_rpc,
    build_work_package, build_work_package_with_hash, church_false_hex, church_true_hex,
    decode_compact, encode_compact, encode_to_hex, identity_hex, parse_blc_hex,
    parse_blc_lambda, s_combinator_hex, BlcClient,
};
use blc_client::error::{BlcError, HexFault};
use blc_client::jam::CorevmExecEnv;
use blc_client::work_package::BlcWorkPackageBuilder;

const CODE: &str = "abababababababababababababababababababababababababababababababab";

#[test]
fn named_terms_in_hex() {
    assert_eq!(identity_hex(), "20");
    assert_eq!(church_true_hex(), "0c");
    assert_eq!(church_false_hex(), "08");
    assert_eq!(s_combinator_hex(), "017a74");
}

#[test]
fn hex_and_lambda_to_text() {
    assert_eq!(parse_blc_hex("0x20").unwrap(), "λ.0");
    assert_eq!(parse_blc_hex("0c").unwrap(), "λ.λ.1");
    assert!(matches!(parse_blc_hex("2"), Err(BlcError::InvalidHexEncoding(_))));
    assert_eq!(
        parse_blc_hex(""),
        Err(BlcError::UnexpectedEndOfInput { position: 0 })
    );
    assert_eq!(parse_blc_lambda("\\x.0").unwrap(), "λ.0");
    assert_eq!(parse_blc_lambda("(\\.0 \\.0)").unwrap(), "(λ.0 λ.0)");
}

#[test]
fn text_to_hex() {
    assert_eq!(encode_to_hex("(λ.0 λ.0)").unwrap(), "4880");
    assert_eq!(encode_to_hex("λ.λ.1").unwrap(), "0c");
    let client = BlcClient::new("ws://localhost:1", 1, CODE).ok().unwrap();
    assert_eq!(client.encode_blc("λ.0").unwrap(), "20");
}

#[test]
fn compact_in_hex() {
    assert_eq!(encode_compact(64), "0101");
    assert_eq!(encode_compact(0), "00");
    assert_eq!(decode_compact("0101").unwrap(), 64);
    assert!(matches!(decode_compact("0x01"), Err(BlcError::InvalidHexEncoding(_))));
    assert_eq!(
        decode_compact("01"),
        Err(BlcError::InsufficientBytesForCompactInteger { needed: 2, available: 1 })
    );
}

#[test]
fn hashes_in_hex() {
    assert_eq!(
        blake2b_hash_hex("0x").unwrap(),
        "0e5751c026e543b2e8ab2eb06099daa1d1e5df47778f7787faab45cdf12fe3a8"
    );
    assert_eq!(blake2b_hash(&[]).len(), 32);
    assert_eq!(blake2b_hash(&[1, 2, 3]), blake2b_hash(&[1, 2, 3]));
    assert_ne!(blake2b_hash(&[1, 2, 3]), blake2b_hash(&[1, 2, 4]));
}

#[test]
fn payload_for_a_program() {
    let hex = build_blc_payload(1, CODE, "0x20").unwrap();
    let expected = CorevmExecEnv::new(1, [0xAB; 32]).arg("0x20").encode();
    assert_eq!(hex, hex::encode(expected));
    assert_eq!(
        build_blc_payload(1, "abab", "20"),
        Err(BlcError::InvalidCodeReferenceLength { length: 2 })
    );
    assert!(matches!(
        build_blc_payload(1, "xy", "20"),
        Err(BlcError::InvalidHexEncoding(_))
    ));
}

#[test]
fn package_in_base64() {
    let b64 = build_work_package(1, CODE, "0x20", 100).unwrap();
    let pkg = BlcWorkPackageBuilder::new(1, [0xAB; 32]).gas(100).build(&[0x20]);
    let bytes = base64::engine::general_purpose::STANDARD.decode(&b64).unwrap();
    assert_eq!(bytes, pkg.encode());
    assert_eq!(b64.len(), 4 * ((bytes.len() + 2) / 3));

    let with_hash = build_work_package_with_hash(1, &format!("0x{}", CODE), "20", 100).unwrap();
    assert_eq!(with_hash.package, b64);
    assert_eq!(with_hash.hash, hex::encode(pkg.hash()));
}

#[test]
fn package_input_errors() {
    assert_eq!(
        build_work_package(1, &CODE[..62], "20", 1),
        Err(BlcError::InvalidCodeReferenceLength { length: 31 })
    );
    assert!(matches!(
        build_work_package(1, CODE, "2", 1),
        Err(BlcError::InvalidHexEncoding(_))
    ));
    assert!(matches!(
        build_work_package_with_hash(1, "zz", "20", 1),
        Err(BlcError::InvalidHexEncoding(_))
    ));
}

#[test]
fn submit_request_parameters() {
    let req = build_submit_work_package_rpc(7, 2, 1, CODE, "20", 100).ok().unwrap();
    assert_eq!(req.request_id, 7);
    assert_eq!(req.core_index, 2);
    assert_eq!(req.package, build_work_package(1, CODE, "20", 100).unwrap());
    assert_eq!(req.extrinsics, vec!["IA==".to_string()]);
}

#[test]
fn client_numbers_its_requests() {
    let mut client = BlcClient::new("ws://node:9944", 4, CODE).ok().unwrap();
    assert_eq!(client.service_id(), 4);
    assert_eq!(client.rpc_url(), "ws://node:9944");
    let (id1, item) = client.build_work_item("20", 50);
    let (id2, _) = client.build_work_item("20", 50);
    assert_eq!((id1, id2), (1, 2));
    assert_eq!(item.refine_gas, 50);
    assert_eq!(
        item.payload,
        CorevmExecEnv::new(4, [0xAB; 32]).arg("20").encode()
    );
    assert_eq!(
        BlcClient::new("u", 1, "ab").err(),
        Some(BlcError::InvalidCodeReferenceLength { length: 1 })
    );
}

#[test]
fn base64_padding_cases() {
    // one, two and three program bytes give padded, padded and unpadded groups
    let one = build_submit_work_package_rpc(1, 0, 1, CODE, "ff", 1).ok().unwrap();
    assert_eq!(one.extrinsics, vec!["/w==".to_string()]);
    let two = build_submit_work_package_rpc(1, 0, 1, CODE, "fbff", 1).ok().unwrap();
    assert_eq!(two.extrinsics, vec!["+/8=".to_string()]);
    let three = build_submit_work_package_rpc(1, 0, 1, CODE, "4d616e", 1).ok().unwrap();
    assert_eq!(three.extrinsics, vec!["TWFu".to_string()]);
}

#[test]
fn hex_fault_reaches_callers() {
    assert_eq!(
        parse_blc_hex("0x2x"),
        Err(BlcError::InvalidHexEncoding(HexFault::InvalidCharacter { c: 'x', index: 1 }))
    );
}
