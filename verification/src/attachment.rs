//! The data model: attachments, the on-chain instances that point at them,
//! and the configuration that says which contracts are followed.

use crate::hash::{
    spec_empty_hash, spec_hash160, spec_index_block_hash, spec_to_hex, to_hex, BlockHeaderHash,
    ConsensusHash, Hash160, StacksBlockId,
};
use crate::value::{
    spec_field_value, spec_serialize, ClarityName, ContractIdView, QualifiedContractIdentifier,
    SequenceData, StandardPrincipalData, Value,
};
use vstd::prelude::*;
use vstd::slice::slice_to_vec;
use vstd::string::StringSliceAdditionalSpecFns;

verus! {

/// A blob that the chain refers to by the hash of its content.
#[derive(Debug, Eq, PartialEq, Hash)]
pub struct Attachment {
    pub content: Vec<u8>,
}

impl View for Attachment {
    type V = Seq<u8>;

    open spec fn view(&self) -> Seq<u8> {
        self.content@
    }
}

impl Clone for Attachment {
    fn clone(&self) -> (copy: Attachment)
        ensures
            copy@ == self@,
    {
        Attachment { content: slice_to_vec(self.content.as_slice()) }
    }
}

impl Attachment {
    /// The attachment with the given content.
    pub fn new(content: Vec<u8>) -> (attachment: Attachment)
        ensures
            attachment.content == content,
    {
        Attachment { content }
    }

    /// The content address of the attachment.
    pub fn hash(&self) -> (hash: Hash160)
        ensures
            hash@ == spec_hash160(self@),
    {
        Hash160::from_data(self.content.as_slice())
    }
}

/// What an attachment instance is, as plain values.
pub struct InstanceView {
    pub content_hash: Seq<u8>,
    pub page_index: u32,
    pub position_in_page: u32,
    pub block_height: u64,
    pub consensus_hash: Seq<u8>,
    pub block_header_hash: Seq<u8>,
    pub metadata: Seq<char>,
    pub contract_id: ContractIdView,
}

/// An on-chain pointer to an attachment: the hash of the content, the slot
/// of the inventory that it occupies, the block that holds the contract
/// call, and the contract that made it.
#[derive(Debug, Eq, PartialEq, Hash)]
pub struct AttachmentInstance {
    pub content_hash: Hash160,
    pub page_index: u32,
    pub position_in_page: u32,
    pub block_height: u64,
    pub consensus_hash: ConsensusHash,
    pub block_header_hash: BlockHeaderHash,
    pub metadata: String,
    pub contract_id: QualifiedContractIdentifier,
}

impl View for AttachmentInstance {
    type V = InstanceView;

    open spec fn view(&self) -> InstanceView {
        InstanceView {
            content_hash: self.content_hash@,
            page_index: self.page_index,
            position_in_page: self.position_in_page,
            block_height: self.block_height,
            consensus_hash: self.consensus_hash@,
            block_header_hash: self.block_header_hash@,
            metadata: self.metadata@,
            contract_id: self.contract_id@,
        }
    }
}

impl Clone for AttachmentInstance {
    fn clone(&self) -> (copy: AttachmentInstance)
        ensures
            copy@ == self@,
    {
        AttachmentInstance {
            content_hash: self.content_hash,
            page_index: self.page_index,
            position_in_page: self.position_in_page,
            block_height: self.block_height,
            consensus_hash: self.consensus_hash,
            block_header_hash: self.block_header_hash,
            metadata: self.metadata.clone(),
            contract_id: self.contract_id.clone(),
        }
    }
}

/// The views of the instances, in their order.
pub open spec fn spec_instance_views(instances: Seq<AttachmentInstance>) -> Seq<InstanceView> {
    Seq::new(instances.len(), |i: int| instances[i]@)
}

/// The parts of an attachment event that an instance is made of: the bytes
/// of the `hash` field, the two coordinates, and the `metadata` field if
/// there is one. The value must be a tuple whose `attachment` field is a
/// tuple with a buffer `hash` and unsigned `page-index` and
/// `position-in-page`.
pub open spec fn spec_attachment_parts(value: Value) -> Option<
    (Seq<u8>, u128, u128, Option<Value>),
> {
    match value {
        Value::Tuple(event) => match spec_field_value(event@, "attachment".spec_bytes()) {
            Some(Value::Tuple(data)) => match (
                spec_field_value(data@, "hash".spec_bytes()),
                spec_field_value(data@, "page-index".spec_bytes()),
                spec_field_value(data@, "position-in-page".spec_bytes()),
            ) {
                (
                    Some(Value::Sequence(SequenceData::Buffer(hash))),
                    Some(Value::UInt(page_index)),
                    Some(Value::UInt(position_in_page)),
                ) => Some(
                    (
                        hash@,
                        page_index,
                        position_in_page,
                        spec_field_value(data@, "metadata".spec_bytes()),
                    ),
                ),
                _ => None,
            },
            _ => None,
        },
        _ => None,
    }
}

/// The content hash that a `hash` field stands for: the sentinel where the
/// field is empty, the field itself where it holds twenty bytes, and none
/// otherwise.
pub open spec fn spec_content_hash(field: Seq<u8>) -> Option<Seq<u8>> {
    if field.len() == 0 {
        Some(spec_empty_hash())
    } else if field.len() == 20 {
        Some(field)
    } else {
        None
    }
}

/// The metadata kept with an instance: the hexadecimal text of the
/// serialized `metadata` field, or nothing where the field is missing.
pub open spec fn spec_metadata(field: Option<Value>) -> Seq<char> {
    match field {
        Some(value) => spec_to_hex(spec_serialize(value)),
        None => Seq::empty(),
    }
}

/// The instance that an attachment event stands for, if it is well formed.
pub open spec fn spec_instance_from_value(
    value: Value,
    contract_id: ContractIdView,
    consensus_hash: Seq<u8>,
    block_header_hash: Seq<u8>,
    block_height: u64,
) -> Option<InstanceView> {
    match spec_attachment_parts(value) {
        Some((hash, page_index, position_in_page, metadata)) => {
            if spec_content_hash(hash) is Some && page_index <= u32::MAX && position_in_page
                <= u32::MAX {
                Some(
                    InstanceView {
                        content_hash: spec_content_hash(hash)->0,
                        page_index: page_index as u32,
                        position_in_page: position_in_page as u32,
                        block_height,
                        consensus_hash,
                        block_header_hash,
                        metadata: spec_metadata(metadata),
                        contract_id,
                    },
                )
            } else {
                None
            }
        },
        None => None,
    }
}

/// What an attachment event of the right shape stands for depends on its
/// `hash` field alone: a field of twenty bytes gives an instance with that
/// content hash, an empty field gives an instance with the sentinel, and a
/// field of any other length gives no instance.
pub proof fn lemma_instance_content_hash(
    value: Value,
    contract_id: ContractIdView,
    consensus_hash: Seq<u8>,
    block_header_hash: Seq<u8>,
    block_height: u64,
)
    requires
        spec_attachment_parts(value) is Some,
        ({
            let parts = spec_attachment_parts(value)->0;
            parts.1 <= u32::MAX && parts.2 <= u32::MAX
        }),
    ensures
        ({
            let parts = spec_attachment_parts(value)->0;
            let field = parts.0;
            let instance = spec_instance_from_value(
                value,
                contract_id,
                consensus_hash,
                block_header_hash,
                block_height,
            );
            &&& field.len() == 20 ==> instance is Some && instance->0.content_hash == field
            &&& field.len() == 0 ==> instance is Some && instance->0.content_hash
                == spec_empty_hash()
            &&& field.len() != 20 && field.len() != 0 ==> instance is None
        }),
{
}

impl AttachmentInstance {
    /// The identifier of the block that holds the instance.
    pub fn get_stacks_block_id(&self) -> (id: StacksBlockId)
        ensures
            id@ == spec_index_block_hash(self.consensus_hash@, self.block_header_hash@),
    {
        StacksBlockId::new(&self.consensus_hash, &self.block_header_hash)
    }

    /// Whether two instances are the same in every field.
    pub fn same(&self, other: &AttachmentInstance) -> (same: bool)
        ensures
            same == (self@ == other@),
    {
        self.content_hash.same(&other.content_hash) && self.page_index == other.page_index
            && self.position_in_page == other.position_in_page && self.block_height
            == other.block_height && self.consensus_hash.same(&other.consensus_hash)
            && self.block_header_hash.same(&other.block_header_hash) && self.metadata
            == other.metadata && self.contract_id.same(&other.contract_id)
    }

    /// Reads the instance that the on-chain value of an attachment event
    /// stands for, in the block given. A value of another shape, a hash of
    /// a length other than zero or twenty bytes, and a coordinate beyond 32
    /// bits are refused.
    pub fn try_new_from_value(
        value: &Value,
        contract_id: &QualifiedContractIdentifier,
        consensus_hash: &ConsensusHash,
        block_header_hash: BlockHeaderHash,
        block_height: u64,
    ) -> (instance: Result<AttachmentInstance, ()>)
        ensures
            instance is Ok <==> spec_instance_from_value(
                *value,
                contract_id@,
                consensus_hash@,
                block_header_hash@,
                block_height,
            ) is Some,
            instance is Ok ==> instance->Ok_0@ == spec_instance_from_value(
                *value,
                contract_id@,
                consensus_hash@,
                block_header_hash@,
                block_height,
            )->0,
    {
        if let Value::Tuple(attachment) = value {
            if let Some(Value::Tuple(attachment_data)) = attachment.get("attachment") {
                match (
                    attachment_data.get("hash"),
                    attachment_data.get("page-index"),
                    attachment_data.get("position-in-page"),
                ) {
                    (
                        Some(Value::Sequence(SequenceData::Buffer(content_hash))),
                        Some(Value::UInt(page_index)),
                        Some(Value::UInt(position_in_page)),
                    ) => {
                        let hash_bytes = content_hash.as_bytes();
                        let content_hash = if hash_bytes.len() == 0 {
                            Hash160::empty()
                        } else {
                            match Hash160::from_bytes(hash_bytes) {
                                Some(content_hash) => content_hash,
                                None => {
                                    return Err(());
                                },
                            }
                        };
                        if *page_index > 0xffff_ffff || *position_in_page > 0xffff_ffff {
                            return Err(());
                        }
                        let metadata = match attachment_data.get("metadata") {
                            Some(metadata) => {
                                let serialized = metadata.consensus_serialize();
                                to_hex(serialized.as_slice())
                            },
                            None => String::new(),
                        };
                        let instance = AttachmentInstance {
                            consensus_hash: *consensus_hash,
                            block_header_hash,
                            content_hash,
                            page_index: *page_index as u32,
                            position_in_page: *position_in_page as u32,
                            block_height,
                            metadata,
                            contract_id: contract_id.clone(),
                        };
                        return Ok(instance);
                    },
                    _ => {},
                }
            }
        }
        Err(())
    }
}

/// The contract identifier of the boot contract named `name`: the boot
/// account is the account of version 26 whose bytes are all zero.
pub open spec fn spec_boot_code_id(name: Seq<u8>) -> ContractIdView {
    ContractIdView { version: 26, issuer: Seq::new(20, |i: int| 0u8), name }
}

/// Whether `id` is among `contracts`.
pub open spec fn spec_tracks(contracts: Seq<QualifiedContractIdentifier>, id: ContractIdView) -> bool {
    exists|i: int| 0 <= i < contracts.len() && (#[trigger] contracts[i])@ == id
}

/// Which contracts are followed, and how large an attachment may be.
#[derive(Debug)]
pub struct AtlasConfig {
    pub contracts: Vec<QualifiedContractIdentifier>,
    pub attachments_max_size: u32,
}

/// The views of the contract identifiers, in their order.
pub open spec fn spec_contract_views(contracts: Seq<QualifiedContractIdentifier>) -> Seq<
    ContractIdView,
> {
    Seq::new(contracts.len(), |i: int| contracts[i]@)
}

impl Clone for AtlasConfig {
    fn clone(&self) -> (copy: AtlasConfig)
        ensures
            spec_contract_views(copy.contracts@) == spec_contract_views(self.contracts@),
            copy.attachments_max_size == self.attachments_max_size,
    {
        let mut contracts: Vec<QualifiedContractIdentifier> = Vec::new();
        let mut i: usize = 0;
        while i < self.contracts.len()
            invariant
                i <= self.contracts.len(),
                contracts@.len() == i,
                forall|k: int| 0 <= k < i ==> (#[trigger] contracts@[k])@ == self.contracts@[k]@,
            decreases self.contracts.len() - i,
        {
            contracts.push(self.contracts[i].clone());
            i += 1;
        }
        assert(spec_contract_views(contracts@) =~= spec_contract_views(self.contracts@));
        AtlasConfig { contracts, attachments_max_size: self.attachments_max_size }
    }
}

impl AtlasConfig {
    /// Whether no contract is listed twice.
    pub open spec fn well_formed(&self) -> bool {
        forall|i: int, j: int|
            0 <= i < j < self.contracts@.len() ==> (#[trigger] self.contracts@[i])@ != (
            #[trigger] self.contracts@[j])@
    }

    /// The configuration that follows the name-registration boot contract
    /// alone and accepts attachments of up to 1,048,576 bytes.
    pub fn default() -> (config: AtlasConfig)
        ensures
            config.well_formed(),
            config.contracts@.len() == 1,
            config.contracts@[0]@ == spec_boot_code_id("bns".spec_bytes()),
            config.attachments_max_size == 1_048_576,
    {
        proof {
            reveal_strlit("bns");
            vstd::string::is_ascii_spec_bytes("bns");
        }
        let name = ClarityName::from_str("bns");
        let issuer = StandardPrincipalData { version: 26, bytes: [0u8; 20] };
        assert(issuer.bytes@ =~= Seq::new(20, |i: int| 0u8));
        let mut contracts: Vec<QualifiedContractIdentifier> = Vec::new();
        contracts.push(QualifiedContractIdentifier { issuer, name: name.unwrap() });
        AtlasConfig { contracts, attachments_max_size: 1_048_576 }
    }

    /// Whether the contract is one of those followed.
    pub fn tracks(&self, contract_id: &QualifiedContractIdentifier) -> (followed: bool)
        ensures
            followed == spec_tracks(self.contracts@, contract_id@),
    {
        let mut i: usize = 0;
        while i < self.contracts.len()
            invariant
                i <= self.contracts.len(),
                forall|k: int| 0 <= k < i ==> (#[trigger] self.contracts@[k])@ != contract_id@,
            decreases self.contracts.len() - i,
        {
            if self.contracts[i].same(contract_id) {
                return true;
            }
            i += 1;
        }
        false
    }

    /// Follows one more contract. Returns whether it was not followed yet.
    pub fn insert_contract(&mut self, contract_id: QualifiedContractIdentifier) -> (added: bool)
        ensures
            old(self).well_formed() ==> final(self).well_formed(),
            added == !spec_tracks(old(self).contracts@, contract_id@),
            final(self).attachments_max_size == old(self).attachments_max_size,
            final(self).contracts@ == if added {
                old(self).contracts@.push(contract_id)
            } else {
                old(self).contracts@
            },
    {
        if self.tracks(&contract_id) {
            return false;
        }
        self.contracts.push(contract_id);
        true
    }
}

} // verus!
