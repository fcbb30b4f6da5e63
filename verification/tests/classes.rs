use holos_tda::classes::{BasisClassId, IntervalGroupId};

#[test]
fn identifiers_keep_their_bytes() {
    let mut bytes = [0u8; 32];
    for (index, byte) in bytes.iter_mut().enumerate() {
        *byte = (index * 9) as u8;
    }
    let group = IntervalGroupId::from_bytes(bytes);
    assert_eq!(group.as_bytes(), &bytes);
    let class = BasisClassId::from_bytes(bytes);
    assert_eq!(class.as_bytes(), &bytes);
}

#[test]
fn identifiers_print_as_lower_case_hex() {
    let mut bytes = [0u8; 32];
    bytes[0] = 0xab;
    bytes[1] = 0x01;
    bytes[31] = 0xff;
    let text = IntervalGroupId::from_bytes(bytes).to_hex();
    assert_eq!(text.len(), 64);
    assert!(text.starts_with("ab01"));
    assert!(text.ends_with("00ff"));
    let expected: String = bytes.iter().map(|byte| format!("{byte:02x}")).collect();
    assert_eq!(text, expected);
    assert_eq!(BasisClassId::from_bytes(bytes).to_hex(), expected);
}
