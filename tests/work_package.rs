use blc_client::error::BlcError;
use blc_client::work_package::{
    blake2b_256, encode_natural, BlcWorkPackageBuilder, WorkContext, WorkItem, WorkPackage,
};

#[test]
fn test_encode_natural_small() {
    assert_eq!(encode_natural(0), vec![0x00]);
    assert_eq!(encode_natural(1), vec![0x04]);
    assert_eq!(encode_natural(63), vec![0xFC]);
}

#[test]
fn test_encode_natural_medium() {
    assert_eq!(encode_natural(64), vec![0x01, 0x01]);
}

#[test]
fn test_work_package_encode() {
    let builder = BlcWorkPackageBuilder::new(1, [0xAB; 32]);
    let pkg = builder.build(&[0x20]);
    let encoded = pkg.encode();

    assert!(encoded.len() > 100);

    let hash = pkg.hash();
    assert_eq!(hash.len(), 32);
}

#[test]
fn blake2b_256_known_value() {
    let expected: [u8; 32] = [
        0x0e, 0x57, 0x51, 0xc0, 0x26, 0xe5, 0x43, 0xb2, 0xe8, 0xab, 0x2e, 0xb0, 0x60, 0x99,
        0xda, 0xa1, 0xd1, 0xe5, 0xdf, 0x47, 0x77, 0x8f, 0x77, 0x87, 0xfa, 0xab, 0x45, 0xcd,
        0xf1, 0x2f, 0xe3, 0xa8,
    ];
    assert_eq!(blake2b_256(&[]), expected);
    assert_ne!(blake2b_256(&[0]), expected);
}

#[test]
fn built_package_layout() {
    let pkg = BlcWorkPackageBuilder::new(1, [0xAB; 32]).gas(100).build(&[0x20]);
    let encoded = pkg.encode();
    let mut expected = vec![0, 0, 0, 0];
    expected.extend_from_slice(&[0; 32]);
    expected.extend_from_slice(&[0; 160]);
    expected.extend_from_slice(&[0, 0, 0, 0, 0x00]);
    expected.extend_from_slice(&[0x00, 0x00, 0x04]);
    expected.extend_from_slice(&[1, 0, 0, 0]);
    expected.extend_from_slice(&[0xAB; 32]);
    expected.extend_from_slice(&[100, 0, 0, 0, 0, 0, 0, 0]);
    expected.extend_from_slice(&[100, 0, 0, 0, 0, 0, 0, 0]);
    expected.extend_from_slice(&[0, 0]);
    expected.extend_from_slice(&[0x04, 0x20, 0x00, 0x00]);
    assert_eq!(encoded, expected);
    assert_eq!(encoded.len(), 262);
}

#[test]
fn package_hash_is_deterministic_and_field_sensitive() {
    let b = BlcWorkPackageBuilder::new(1, [0xAB; 32]);
    let first = b.build(&[0x20]);
    let second = b.build(&[0x20]);
    assert_eq!(first.hash(), first.hash());
    assert_eq!(first.hash(), second.hash());
    assert_eq!(first.hash(), blake2b_256(&first.encode()));
    let other_gas = BlcWorkPackageBuilder::new(1, [0xAB; 32]).gas(5).build(&[0x20]);
    assert_ne!(first.hash(), other_gas.hash());
    let other_payload = b.build(&[0x21]);
    assert_ne!(first.hash(), other_payload.hash());
}

#[test]
fn builder_defaults() {
    let b = BlcWorkPackageBuilder::new(3, [1; 32]);
    assert_eq!(b.gas, 1_000_000_000);
    let p = b.build(&[]);
    assert_eq!(p.items.len(), 1);
    assert_eq!(p.items[0].gas_refine, 1_000_000_000);
    assert_eq!(p.items[0].gas_accumulate, 1_000_000_000);
    assert_eq!(p.auth_service, 0);
    assert!(p.authorization_token.is_empty());
}

#[test]
fn short_code_reference_is_refused() {
    assert_eq!(
        BlcWorkPackageBuilder::from_code_reference(1, &[0u8; 31]).err(),
        Some(BlcError::InvalidCodeReferenceLength { length: 31 })
    );
    assert_eq!(
        BlcWorkPackageBuilder::from_code_reference(1, &[0u8; 33]).err(),
        Some(BlcError::InvalidCodeReferenceLength { length: 33 })
    );
    let b = BlcWorkPackageBuilder::from_code_reference(1, &[9u8; 32]).ok().unwrap();
    assert_eq!(b.code_hash, [9u8; 32]);
}

#[test]
fn context_and_item_encodings() {
    let mut ctx = WorkContext::minimal();
    ctx.lookup_slot = 0x0A0B0C0D;
    ctx.prerequisites.push([7; 32]);
    let e = ctx.encode();
    assert_eq!(e.len(), 160 + 4 + 1 + 32);
    assert_eq!(&e[160..165], &[0x0D, 0x0C, 0x0B, 0x0A, 0x04]);
    assert_eq!(&e[165..], &[7; 32]);

    let mut item = WorkItem::new_blc(2, [3; 32], vec![0xAA], 1);
    item.export_count = 0x0102;
    item.imports.push(([4; 32], 9));
    let e = item.encode();
    assert_eq!(&e[52..54], &[0x02, 0x01]);
    assert_eq!(&e[54..57], &[0x04, 0xAA, 0x04]);
    assert_eq!(&e[57..89], &[4; 32]);
    assert_eq!(&e[89..], &[9, 0, 0, 0, 0x00]);

    let pkg = WorkPackage::new_minimal(vec![item.clone(), item]);
    let e = pkg.encode();
    assert_eq!(e[4 + 32 + 165 + 2], 0x08);
}
