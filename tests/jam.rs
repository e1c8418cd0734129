use blc_client::error::BlcError;
use blc_client::jam::{decode_jam_compact, encode_jam_compact, BlcWorkItem, CorevmExecEnv, RpcRequest};

#[test]
fn test_jam_compact_small() {
    assert_eq!(encode_jam_compact(0), vec![0x00]);
    assert_eq!(encode_jam_compact(1), vec![0x04]);
    assert_eq!(encode_jam_compact(63), vec![0xFC]);
}

#[test]
fn test_jam_compact_medium() {
    assert_eq!(encode_jam_compact(64), vec![0x01, 0x01]);
    assert_eq!(encode_jam_compact(16383), vec![0xFD, 0xFF]);
}

#[test]
fn test_decode_jam_compact() {
    let (v, len) = decode_jam_compact(&[0x04]).unwrap();
    assert_eq!(v, 1);
    assert_eq!(len, 1);

    let (v, len) = decode_jam_compact(&[0x01, 0x01]).unwrap();
    assert_eq!(v, 64);
    assert_eq!(len, 2);
}

#[test]
fn test_execenv_encode() {
    let env = CorevmExecEnv::new(1, [0xAB; 32]).arg("test");
    let encoded = env.encode();

    // service_id (4) + hash (32) + none (1) + args len (1) + arg len (1) + "test" (4) + env len (1)
    assert_eq!(encoded.len(), 4 + 32 + 1 + 1 + 1 + 4 + 1);
}

#[test]
fn compact_large_modes() {
    assert_eq!(encode_jam_compact(16384), vec![0x02, 0x00, 0x01, 0x00]);
    assert_eq!(encode_jam_compact((1 << 30) - 1), vec![0xFE, 0xFF, 0xFF, 0xFF]);
    assert_eq!(
        encode_jam_compact(1 << 30),
        vec![0x03, 0x00, 0x00, 0x00, 0x40, 0x00, 0x00, 0x00, 0x00]
    );
    assert_eq!(
        encode_jam_compact(u64::MAX),
        vec![0x03, 0xFF, 0xFF, 0xFF, 0xFF, 0xFF, 0xFF, 0xFF, 0xFF]
    );
}

#[test]
fn compact_round_trips_at_boundaries() {
    for v in [
        0u64,
        1,
        63,
        64,
        16383,
        16384,
        (1 << 30) - 1,
        1 << 30,
        u32::MAX as u64,
        u64::MAX,
    ] {
        let mut bytes = encode_jam_compact(v);
        let n = bytes.len();
        bytes.extend_from_slice(&[0xAA, 0x55]);
        assert_eq!(decode_jam_compact(&bytes).unwrap(), (v, n));
    }
}

#[test]
fn compact_short_input_is_refused() {
    assert_eq!(
        decode_jam_compact(&[]),
        Err(BlcError::InsufficientBytesForCompactInteger { needed: 1, available: 0 })
    );
    assert_eq!(
        decode_jam_compact(&[0x01]),
        Err(BlcError::InsufficientBytesForCompactInteger { needed: 2, available: 1 })
    );
    assert_eq!(
        decode_jam_compact(&[0x02, 0x00, 0x01]),
        Err(BlcError::InsufficientBytesForCompactInteger { needed: 4, available: 3 })
    );
    assert_eq!(
        decode_jam_compact(&[0x03, 0, 0, 0, 0, 0, 0, 0]),
        Err(BlcError::InsufficientBytesForCompactInteger { needed: 9, available: 8 })
    );
}

#[test]
fn execenv_encodes_every_field() {
    let mut env = CorevmExecEnv::new(0x0102_0304, [0x11; 32])
        .arg("a")
        .env_var("k", "vv");
    env.root_dir = Some(([0x22; 32], 7));
    let encoded = env.encode();
    let mut expected = vec![0x04, 0x03, 0x02, 0x01];
    expected.extend_from_slice(&[0x11; 32]);
    expected.push(0x01);
    expected.extend_from_slice(&[7, 0, 0, 0]);
    expected.extend_from_slice(&[0x22; 32]);
    expected.extend_from_slice(&[0x04, 0x04, b'a']);
    expected.extend_from_slice(&[0x04, 0x04, b'k', 0x08, b'v', b'v']);
    assert_eq!(encoded, expected);
}

#[test]
fn execenv_counts_utf8_bytes() {
    let encoded = CorevmExecEnv::new(0, [0; 32]).arg("λ").encode();
    assert_eq!(&encoded[37..], &[0x04, 0x08, 0xCE, 0xBB, 0x00]);
}

#[test]
fn blc_work_item_payload() {
    let item = BlcWorkItem::new(5, vec![0x20, 0xAB]).with_gas(77);
    let w = item.to_work_item();
    assert_eq!(w.service_id, 5);
    assert_eq!(w.refine_gas, 77);
    assert_eq!(w.accumulate_gas, 77);
    let mut expected = vec![5, 0, 0, 0];
    expected.extend_from_slice(&[0; 32]);
    expected.extend_from_slice(&[0x00, 0x04, 0x10]);
    expected.extend_from_slice(b"20ab");
    expected.push(0x00);
    assert_eq!(w.payload, expected);
    assert_eq!(BlcWorkItem::new(5, vec![]).gas, 1_000_000_000);
}

#[test]
fn rpc_request_fields() {
    let r = RpcRequest::new(9, "jam_submitWorkItem", vec![1u8]);
    assert_eq!(r.jsonrpc, "2.0");
    assert_eq!(r.id, 9);
    assert_eq!(r.method, "jam_submitWorkItem");
    assert_eq!(r.params, vec![1u8]);
}
