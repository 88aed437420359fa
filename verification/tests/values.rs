use atlas::value::{
    name_lt, BuffData, ClarityName, ListData, OptionalData, PrincipalData,
    QualifiedContractIdentifier, ResponseData, SequenceData, StandardPrincipalData, TupleData,
    Value, MAX_NAME_LEN, MAX_VALUE_SIZE,
};

fn name(text: &str) -> ClarityName {
    ClarityName::from_str(text).unwrap()
}

fn buffer(bytes: Vec<u8>) -> Value {
    Value::Sequence(SequenceData::Buffer(BuffData::new(bytes).unwrap()))
}

fn uint_bytes(shape: u8, low: u8) -> Vec<u8> {
    let mut bytes = vec![shape];
    bytes.extend_from_slice(&[0u8; 15]);
    bytes.push(low);
    bytes
}

#[test]
fn names_hold_one_to_128_bytes() {
    assert!(ClarityName::from_str("").is_none());
    assert!(ClarityName::from_str("a").is_some());
    assert!(ClarityName::from_bytes(&vec![b'x'; MAX_NAME_LEN]).is_some());
    assert!(ClarityName::from_bytes(&vec![b'x'; MAX_NAME_LEN + 1]).is_none());
    assert_eq!(name("page-index").as_bytes(), b"page-index");
    assert!(name("hash").same(&name("hash")));
    assert!(!name("hash").same(&name("hasH")));
    assert!(name("bns").clone().same(&name("bns")));
}

#[test]
fn names_are_ordered_byte_by_byte() {
    assert!(name_lt(b"a", b"b"));
    assert!(!name_lt(b"b", b"a"));
    assert!(!name_lt(b"a", b"a"));
    assert!(name_lt(b"ab", b"abc"));
    assert!(!name_lt(b"abc", b"ab"));
    assert!(name_lt(b"", b"a"));
    assert!(!name_lt(b"", b""));
    assert!(name_lt(b"Z", b"a"));
    assert!(name_lt(b"hash", b"page-index"));
}

#[test]
fn byte_strings_and_lists_are_bounded() {
    assert!(BuffData::new(vec![0u8; MAX_VALUE_SIZE]).is_some());
    assert!(BuffData::new(vec![0u8; MAX_VALUE_SIZE + 1]).is_none());
    assert_eq!(BuffData::new(vec![1, 2, 3]).unwrap().as_bytes(), &[1u8, 2, 3][..]);
    let list = ListData::new(vec![Value::Bool(true), Value::UInt(3)]).unwrap();
    assert_eq!(list.items().len(), 2);
    assert_eq!(list.items()[1], Value::UInt(3));
}

#[test]
fn tuples_keep_their_fields_in_the_order_of_names() {
    let tuple = TupleData::new()
        .insert(name("page-index"), Value::UInt(1))
        .unwrap()
        .insert(name("hash"), Value::Bool(true))
        .unwrap()
        .insert(name("position-in-page"), Value::UInt(2))
        .unwrap()
        .insert(name("metadata"), Value::Int(-5))
        .unwrap();
    let names: Vec<&[u8]> = tuple.fields().iter().map(|field| field.name.as_bytes()).collect();
    assert_eq!(
        names,
        vec![&b"hash"[..], &b"metadata"[..], &b"page-index"[..], &b"position-in-page"[..]]
    );
    assert_eq!(tuple.get("hash"), Some(&Value::Bool(true)));
    assert_eq!(tuple.get("metadata"), Some(&Value::Int(-5)));
    assert_eq!(tuple.get("page-index"), Some(&Value::UInt(1)));
    assert_eq!(tuple.get("position-in-page"), Some(&Value::UInt(2)));
    assert_eq!(tuple.get("attachment"), None);
    assert_eq!(tuple.get(""), None);
}

#[test]
fn tuples_refuse_a_name_twice() {
    let tuple = TupleData::new().insert(name("hash"), Value::UInt(1)).unwrap();
    assert!(tuple.insert(name("hash"), Value::UInt(2)).is_none());
    assert_eq!(TupleData::new().fields().len(), 0);
}

#[test]
fn integers_serialize_to_a_shape_byte_and_sixteen_bytes() {
    assert_eq!(Value::UInt(1).consensus_serialize(), uint_bytes(1, 1));
    assert_eq!(Value::UInt(0).consensus_serialize(), uint_bytes(1, 0));
    assert_eq!(Value::Int(1).consensus_serialize(), uint_bytes(0, 1));
    let mut all_ones = vec![1u8];
    all_ones.extend_from_slice(&[0xffu8; 16]);
    assert_eq!(Value::UInt(u128::MAX).consensus_serialize(), all_ones);
    let mut minus_one = vec![0u8];
    minus_one.extend_from_slice(&[0xffu8; 16]);
    assert_eq!(Value::Int(-1).consensus_serialize(), minus_one);
    let mut lowest = vec![0u8, 0x80];
    lowest.extend_from_slice(&[0u8; 15]);
    assert_eq!(Value::Int(i128::MIN).consensus_serialize(), lowest);
    let mut highest = vec![0u8, 0x7f];
    highest.extend_from_slice(&[0xffu8; 15]);
    assert_eq!(Value::Int(i128::MAX).consensus_serialize(), highest);
    let mut wide = vec![1u8];
    wide.extend_from_slice(&0x0102_0304_0506_0708_090a_0b0c_0d0e_0f10u128.to_be_bytes());
    assert_eq!(
        Value::UInt(0x0102_0304_0506_0708_090a_0b0c_0d0e_0f10).consensus_serialize(),
        wide
    );
    let mut negative = vec![0u8];
    negative.extend_from_slice(&(-123456789i128).to_be_bytes());
    assert_eq!(Value::Int(-123456789).consensus_serialize(), negative);
}

#[test]
fn booleans_serialize_to_one_byte() {
    assert_eq!(Value::Bool(true).consensus_serialize(), vec![3u8]);
    assert_eq!(Value::Bool(false).consensus_serialize(), vec![4u8]);
}

#[test]
fn byte_strings_serialize_with_a_length_of_four_bytes() {
    assert_eq!(buffer(vec![0xde, 0xad]).consensus_serialize(), vec![2u8, 0, 0, 0, 2, 0xde, 0xad]);
    assert_eq!(buffer(vec![]).consensus_serialize(), vec![2u8, 0, 0, 0, 0]);
    let long = buffer(vec![7u8; 0x0102]).consensus_serialize();
    assert_eq!(&long[..5], &[2u8, 0, 0, 1, 2][..]);
    assert_eq!(long.len(), 5 + 0x0102);
    let ascii = Value::Sequence(SequenceData::StringAscii(BuffData::new(b"hi".to_vec()).unwrap()));
    assert_eq!(ascii.consensus_serialize(), vec![13u8, 0, 0, 0, 2, b'h', b'i']);
    let utf8 = Value::Sequence(SequenceData::StringUtf8(
        BuffData::new("hé".as_bytes().to_vec()).unwrap(),
    ));
    assert_eq!(utf8.consensus_serialize(), vec![14u8, 0, 0, 0, 3, b'h', 0xc3, 0xa9]);
}

#[test]
fn lists_serialize_item_after_item() {
    let list = Value::Sequence(SequenceData::List(
        ListData::new(vec![Value::UInt(1), Value::Bool(true)]).unwrap(),
    ));
    let mut expected = vec![11u8, 0, 0, 0, 2];
    expected.extend_from_slice(&uint_bytes(1, 1));
    expected.push(3);
    assert_eq!(list.consensus_serialize(), expected);
    let empty = Value::Sequence(SequenceData::List(ListData::new(vec![]).unwrap()));
    assert_eq!(empty.consensus_serialize(), vec![11u8, 0, 0, 0, 0]);
}

#[test]
fn principals_serialize_with_version_and_account() {
    let account = StandardPrincipalData { version: 22, bytes: [9u8; 20] };
    let mut expected = vec![5u8, 22];
    expected.extend_from_slice(&[9u8; 20]);
    assert_eq!(
        Value::Principal(PrincipalData::Standard(account)).consensus_serialize(),
        expected
    );
    let contract = QualifiedContractIdentifier { issuer: account, name: name("bns") };
    let mut expected = vec![6u8, 22];
    expected.extend_from_slice(&[9u8; 20]);
    expected.extend_from_slice(&[3, b'b', b'n', b's']);
    assert_eq!(
        Value::Principal(PrincipalData::Contract(contract)).consensus_serialize(),
        expected
    );
}

#[test]
fn optionals_and_responses_serialize_with_their_shape() {
    assert_eq!(
        Value::Optional(OptionalData { data: None }).consensus_serialize(),
        vec![9u8]
    );
    assert_eq!(
        Value::Optional(OptionalData { data: Some(Box::new(Value::Bool(false))) })
            .consensus_serialize(),
        vec![10u8, 4]
    );
    assert_eq!(
        Value::Response(ResponseData { committed: true, data: Box::new(Value::Bool(true)) })
            .consensus_serialize(),
        vec![7u8, 3]
    );
    assert_eq!(
        Value::Response(ResponseData { committed: false, data: Box::new(Value::Bool(true)) })
            .consensus_serialize(),
        vec![8u8, 3]
    );
}

#[test]
fn tuples_serialize_in_the_order_of_names() {
    let tuple = TupleData::new()
        .insert(name("b"), Value::UInt(2))
        .unwrap()
        .insert(name("a"), Value::Bool(false))
        .unwrap();
    let mut expected = vec![12u8, 0, 0, 0, 2, 1, b'a', 4, 1, b'b'];
    expected.extend_from_slice(&uint_bytes(1, 2));
    assert_eq!(Value::Tuple(tuple).consensus_serialize(), expected);
    assert_eq!(Value::Tuple(TupleData::new()).consensus_serialize(), vec![12u8, 0, 0, 0, 0]);
}

#[test]
fn nested_values_serialize_inside_out() {
    let inner = TupleData::new().insert(name("op"), buffer(vec![1])).unwrap();
    let outer = TupleData::new()
        .insert(
            name("list"),
            Value::Sequence(SequenceData::List(
                ListData::new(vec![Value::Tuple(inner), Value::Optional(OptionalData { data: None })])
                    .unwrap(),
            )),
        )
        .unwrap();
    let expected = vec![
        12u8, 0, 0, 0, 1, 4, b'l', b'i', b's', b't', 11, 0, 0, 0, 2, 12, 0, 0, 0, 1, 2, b'o', b'p',
        2, 0, 0, 0, 1, 1, 9,
    ];
    assert_eq!(Value::Tuple(outer).consensus_serialize(), expected);
}

#[test]
fn serialize_into_appends() {
    let mut out = vec![0xaau8];
    Value::Bool(true).serialize_into(&mut out);
    Value::Bool(false).serialize_into(&mut out);
    assert_eq!(out, vec![0xaau8, 3, 4]);
}

#[test]
fn contract_identifiers_compare_by_all_parts() {
    let account = StandardPrincipalData { version: 26, bytes: [0u8; 20] };
    let other_account = StandardPrincipalData { version: 26, bytes: [1u8; 20] };
    let other_version = StandardPrincipalData { version: 22, bytes: [0u8; 20] };
    let bns = QualifiedContractIdentifier { issuer: account, name: name("bns") };
    assert!(bns.same(&QualifiedContractIdentifier { issuer: account, name: name("bns") }));
    assert!(bns.same(&bns.clone()));
    assert!(!bns.same(&QualifiedContractIdentifier { issuer: account, name: name("pox") }));
    assert!(!bns.same(&QualifiedContractIdentifier { issuer: other_account, name: name("bns") }));
    assert!(!bns.same(&QualifiedContractIdentifier { issuer: other_version, name: name("bns") }));
}
