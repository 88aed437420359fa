use atlas::attachment::{AtlasConfig, Attachment, AttachmentInstance};
use atlas::hash::{to_hex, BlockHeaderHash, ConsensusHash, Hash160, StacksBlockId};
use atlas::onchain::{ContractEvent, OnchainInventoryLookup};
use atlas::value::{
    BuffData, ClarityName, ListData, QualifiedContractIdentifier, SequenceData,
    StandardPrincipalData, TupleData, Value,
};

fn name(text: &str) -> ClarityName {
    ClarityName::from_str(text).unwrap()
}

fn buffer(bytes: Vec<u8>) -> Value {
    Value::Sequence(SequenceData::Buffer(BuffData::new(bytes).unwrap()))
}

fn tuple(fields: Vec<(&str, Value)>) -> Value {
    let mut data = TupleData::new();
    for (field, value) in fields {
        data = data.insert(name(field), value).unwrap();
    }
    Value::Tuple(data)
}

fn event(hash: Vec<u8>, page_index: u128, position: u128, metadata: Option<Value>) -> Value {
    let mut fields = vec![
        ("hash", buffer(hash)),
        ("page-index", Value::UInt(page_index)),
        ("position-in-page", Value::UInt(position)),
    ];
    if let Some(metadata) = metadata {
        fields.push(("metadata", metadata));
    }
    tuple(vec![("attachment", tuple(fields))])
}

fn bns() -> QualifiedContractIdentifier {
    QualifiedContractIdentifier {
        issuer: StandardPrincipalData { version: 26, bytes: [0u8; 20] },
        name: name("bns"),
    }
}

fn other_contract() -> QualifiedContractIdentifier {
    QualifiedContractIdentifier {
        issuer: StandardPrincipalData { version: 26, bytes: [5u8; 20] },
        name: name("other"),
    }
}

fn read(value: &Value) -> Result<AttachmentInstance, ()> {
    AttachmentInstance::try_new_from_value(
        value,
        &bns(),
        &ConsensusHash { bytes: [0x11; 20] },
        BlockHeaderHash { bytes: [0x22; 32] },
        77,
    )
}

#[test]
fn attachment_new_keeps_the_content() {
    let attachment = Attachment::new(vec![1, 2, 3]);
    assert_eq!(attachment.content, vec![1u8, 2, 3]);
    assert_eq!(attachment.clone(), attachment);
    assert_eq!(Attachment::new(vec![]).content, Vec::<u8>::new());
}

#[test]
fn attachment_hash_is_the_hash160_of_the_content() {
    let attachment = Attachment::new(vec![]);
    assert_eq!(to_hex(&attachment.hash().bytes), "b472a266d0bd89c13706a4132ccfb16f7c3b9fcb");
    let a = Attachment::new(vec![1, 2, 3]);
    assert_eq!(a.hash(), Hash160::from_data(&[1, 2, 3]));
    assert_ne!(a.hash(), Hash160::from_data(&[1, 2, 4]));
}

#[test]
fn an_event_with_a_hash_of_160_bits_gives_that_content_hash() {
    let hash = Hash160::from_data(b"content");
    let instance = read(&event(hash.bytes.to_vec(), 3, 5, None)).unwrap();
    assert_eq!(instance.content_hash, hash);
    assert_eq!(instance.page_index, 3);
    assert_eq!(instance.position_in_page, 5);
    assert_eq!(instance.block_height, 77);
    assert_eq!(instance.consensus_hash, ConsensusHash { bytes: [0x11; 20] });
    assert_eq!(instance.block_header_hash, BlockHeaderHash { bytes: [0x22; 32] });
    assert_eq!(instance.metadata, "");
    assert_eq!(instance.contract_id, bns());
}

#[test]
fn an_event_with_an_empty_hash_gives_the_sentinel() {
    let instance = read(&event(vec![], 0, 0, None)).unwrap();
    assert_eq!(instance.content_hash, Hash160::empty());
    assert_eq!(instance.content_hash.bytes, [0u8; 20]);
}

#[test]
fn an_event_with_a_hash_of_another_length_is_malformed() {
    assert_eq!(read(&event(vec![1u8; 19], 0, 0, None)), Err(()));
    assert_eq!(read(&event(vec![1u8; 21], 0, 0, None)), Err(()));
    assert_eq!(read(&event(vec![1u8; 1], 0, 0, None)), Err(()));
    assert_eq!(read(&event(vec![1u8; 32], 0, 0, None)), Err(()));
}

#[test]
fn coordinates_beyond_32_bits_are_malformed() {
    let hash = vec![7u8; 20];
    let top = u32::MAX as u128;
    let instance = read(&event(hash.clone(), top, top, None)).unwrap();
    assert_eq!(instance.page_index, u32::MAX);
    assert_eq!(instance.position_in_page, u32::MAX);
    assert_eq!(read(&event(hash.clone(), top + 1, 0, None)), Err(()));
    assert_eq!(read(&event(hash.clone(), 0, top + 1, None)), Err(()));
    assert_eq!(read(&event(hash, u128::MAX, u128::MAX, None)), Err(()));
}

#[test]
fn metadata_is_kept_as_the_hex_of_its_serialization() {
    let hash = vec![7u8; 20];
    let instance = read(&event(hash.clone(), 1, 2, Some(Value::UInt(1)))).unwrap();
    assert_eq!(instance.metadata, "0100000000000000000000000000000001");
    let metadata = tuple(vec![("name", buffer(vec![0xab, 0xcd])), ("op", Value::Bool(true))]);
    let instance = read(&event(hash, 1, 2, Some(metadata))).unwrap();
    assert_eq!(instance.metadata, "0c00000002046e616d650200000002abcd026f7003");
}

#[test]
fn values_of_another_shape_are_malformed() {
    assert_eq!(read(&Value::UInt(1)), Err(()));
    assert_eq!(read(&Value::Bool(true)), Err(()));
    assert_eq!(read(&buffer(vec![1u8; 20])), Err(()));
    assert_eq!(read(&tuple(vec![])), Err(()));
    assert_eq!(read(&tuple(vec![("attachment", Value::UInt(1))])), Err(()));
    assert_eq!(read(&tuple(vec![("attachments", tuple(vec![]))])), Err(()));
    assert_eq!(read(&tuple(vec![("attachment", tuple(vec![]))])), Err(()));
    let no_hash = tuple(vec![(
        "attachment",
        tuple(vec![("page-index", Value::UInt(1)), ("position-in-page", Value::UInt(1))]),
    )]);
    assert_eq!(read(&no_hash), Err(()));
    let no_position = tuple(vec![(
        "attachment",
        tuple(vec![("hash", buffer(vec![1u8; 20])), ("page-index", Value::UInt(1))]),
    )]);
    assert_eq!(read(&no_position), Err(()));
    let signed_page = tuple(vec![(
        "attachment",
        tuple(vec![
            ("hash", buffer(vec![1u8; 20])),
            ("page-index", Value::Int(1)),
            ("position-in-page", Value::UInt(1)),
        ]),
    )]);
    assert_eq!(read(&signed_page), Err(()));
    let hash_as_list = tuple(vec![(
        "attachment",
        tuple(vec![
            ("hash", Value::Sequence(SequenceData::List(ListData::new(vec![]).unwrap()))),
            ("page-index", Value::UInt(1)),
            ("position-in-page", Value::UInt(1)),
        ]),
    )]);
    assert_eq!(read(&hash_as_list), Err(()));
    let hash_as_text = tuple(vec![(
        "attachment",
        tuple(vec![
            (
                "hash",
                Value::Sequence(SequenceData::StringAscii(BuffData::new(vec![b'a'; 20]).unwrap())),
            ),
            ("page-index", Value::UInt(1)),
            ("position-in-page", Value::UInt(1)),
        ]),
    )]);
    assert_eq!(read(&hash_as_text), Err(()));
}

#[test]
fn further_fields_do_no_harm() {
    let value = tuple(vec![
        (
            "attachment",
            tuple(vec![
                ("hash", buffer(vec![9u8; 20])),
                ("page-index", Value::UInt(4)),
                ("position-in-page", Value::UInt(6)),
                ("zzz", Value::Bool(true)),
            ]),
        ),
        ("something", Value::UInt(3)),
    ]);
    let instance = read(&value).unwrap();
    assert_eq!(instance.content_hash.bytes, [9u8; 20]);
    assert_eq!(instance.page_index, 4);
    assert_eq!(instance.position_in_page, 6);
}

#[test]
fn the_block_id_of_an_instance_comes_from_its_two_hashes() {
    let instance = read(&event(vec![], 0, 0, None)).unwrap();
    let expected = StacksBlockId::new(
        &ConsensusHash { bytes: [0x11; 20] },
        &BlockHeaderHash { bytes: [0x22; 32] },
    );
    assert_eq!(instance.get_stacks_block_id(), expected);
    let elsewhere = AttachmentInstance::try_new_from_value(
        &event(vec![], 0, 0, None),
        &bns(),
        &ConsensusHash { bytes: [0x12; 20] },
        BlockHeaderHash { bytes: [0x22; 32] },
        77,
    )
    .unwrap();
    assert_ne!(elsewhere.get_stacks_block_id(), expected);
}

#[test]
fn instances_compare_by_every_field() {
    let a = read(&event(vec![1u8; 20], 1, 2, None)).unwrap();
    assert!(a.same(&a.clone()));
    assert!(!a.same(&read(&event(vec![2u8; 20], 1, 2, None)).unwrap()));
    assert!(!a.same(&read(&event(vec![1u8; 20], 2, 2, None)).unwrap()));
    assert!(!a.same(&read(&event(vec![1u8; 20], 1, 3, None)).unwrap()));
    assert!(!a.same(&read(&event(vec![1u8; 20], 1, 2, Some(Value::Bool(true)))).unwrap()));
}

#[test]
fn the_default_configuration_follows_the_name_contract() {
    let config = AtlasConfig::default();
    assert_eq!(config.attachments_max_size, 1_048_576);
    assert_eq!(config.contracts.len(), 1);
    assert_eq!(config.contracts[0].issuer.version, 26);
    assert_eq!(config.contracts[0].issuer.bytes, [0u8; 20]);
    assert_eq!(config.contracts[0].name.as_bytes(), b"bns");
    assert!(config.tracks(&bns()));
    assert!(!config.tracks(&other_contract()));
}

#[test]
fn a_contract_is_followed_once() {
    let mut config = AtlasConfig::default();
    assert!(!config.insert_contract(bns()));
    assert_eq!(config.contracts.len(), 1);
    assert!(config.insert_contract(other_contract()));
    assert_eq!(config.contracts.len(), 2);
    assert!(config.tracks(&other_contract()));
    assert!(!config.insert_contract(other_contract()));
    assert_eq!(config.contracts.len(), 2);
    let copy = config.clone();
    assert_eq!(copy.contracts, config.contracts);
    assert_eq!(copy.attachments_max_size, config.attachments_max_size);
}

#[test]
fn the_lookup_reads_the_events_of_followed_contracts() {
    let lookup = OnchainInventoryLookup::new(AtlasConfig::default());
    let events = vec![
        ContractEvent { contract_id: bns(), value: event(vec![1u8; 20], 0, 0, None) },
        ContractEvent { contract_id: other_contract(), value: event(vec![2u8; 20], 0, 1, None) },
        ContractEvent { contract_id: bns(), value: Value::UInt(5) },
        ContractEvent { contract_id: bns(), value: event(vec![3u8; 19], 0, 2, None) },
        ContractEvent { contract_id: bns(), value: event(vec![], 0, 3, None) },
        ContractEvent { contract_id: bns(), value: event(vec![4u8; 20], 1, 0, None) },
    ];
    let instances = lookup.instances_in_block(
        &events,
        &ConsensusHash { bytes: [0x11; 20] },
        BlockHeaderHash { bytes: [0x22; 32] },
        9,
    );
    assert_eq!(instances.len(), 3);
    assert_eq!(instances[0].content_hash.bytes, [1u8; 20]);
    assert_eq!(instances[1].content_hash, Hash160::empty());
    assert_eq!(instances[1].position_in_page, 3);
    assert_eq!(instances[2].content_hash.bytes, [4u8; 20]);
    assert_eq!(instances[2].page_index, 1);
    assert!(instances.iter().all(|instance| instance.block_height == 9));
    assert!(instances.iter().all(|instance| instance.contract_id == bns()));
    assert_eq!(
        lookup.instances_in_block(
            &Vec::new(),
            &ConsensusHash { bytes: [0x11; 20] },
            BlockHeaderHash { bytes: [0x22; 32] },
            9,
        ),
        Vec::new()
    );
}
