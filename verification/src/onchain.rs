//! From the contract events of a block to the attachment instances that the
//! block gives rise to.

use crate::attachment::{
    spec_instance_from_value, spec_instance_views, spec_tracks, AtlasConfig, AttachmentInstance,
    InstanceView,
};
use crate::hash::{BlockHeaderHash, ConsensusHash};
use crate::value::{QualifiedContractIdentifier, Value};
use vstd::prelude::*;

verus! {

/// What a contract call left on chain: the contract, and the value.
#[derive(Debug, PartialEq, Eq)]
pub struct ContractEvent {
    pub contract_id: QualifiedContractIdentifier,
    pub value: Value,
}

/// The instance that an event gives rise to: the event must come from a
/// contract that is followed, and its value must be a well-formed attachment
/// event.
pub open spec fn spec_event_instance(
    contracts: Seq<QualifiedContractIdentifier>,
    event: ContractEvent,
    consensus_hash: Seq<u8>,
    block_header_hash: Seq<u8>,
    block_height: u64,
) -> Option<InstanceView> {
    if spec_tracks(contracts, event.contract_id@) {
        spec_instance_from_value(
            event.value,
            event.contract_id@,
            consensus_hash,
            block_header_hash,
            block_height,
        )
    } else {
        None
    }
}

/// The instances that the events of a block give rise to, in the order of
/// the events. An event that gives rise to none is passed over.
pub open spec fn spec_block_instances(
    contracts: Seq<QualifiedContractIdentifier>,
    events: Seq<ContractEvent>,
    consensus_hash: Seq<u8>,
    block_header_hash: Seq<u8>,
    block_height: u64,
) -> Seq<InstanceView>
    decreases events.len(),
{
    if events.len() == 0 {
        Seq::empty()
    } else {
        let front = spec_block_instances(
            contracts,
            events.drop_last(),
            consensus_hash,
            block_header_hash,
            block_height,
        );
        match spec_event_instance(
            contracts,
            events.last(),
            consensus_hash,
            block_header_hash,
            block_height,
        ) {
            Some(instance) => front.push(instance),
            None => front,
        }
    }
}

/// Finds the attachment instances among the events of a block.
pub struct OnchainInventoryLookup {
    pub config: AtlasConfig,
}

impl OnchainInventoryLookup {
    /// The lookup that follows the contracts of `config`.
    pub fn new(config: AtlasConfig) -> (lookup: OnchainInventoryLookup)
        ensures
            lookup.config == config,
    {
        OnchainInventoryLookup { config }
    }

    /// The instances that the events of one block give rise to. A malformed
    /// event, and an event of a contract that is not followed, is passed
    /// over: the rest of the block is still read.
    pub fn instances_in_block(
        &self,
        events: &Vec<ContractEvent>,
        consensus_hash: &ConsensusHash,
        block_header_hash: BlockHeaderHash,
        block_height: u64,
    ) -> (instances: Vec<AttachmentInstance>)
        ensures
            spec_instance_views(instances@) == spec_block_instances(
                self.config.contracts@,
                events@,
                consensus_hash@,
                block_header_hash@,
                block_height,
            ),
    {
        let mut instances: Vec<AttachmentInstance> = Vec::new();
        let mut i: usize = 0;
        assert(events@.take(0) =~= Seq::<ContractEvent>::empty());
        assert(spec_instance_views(instances@) =~= Seq::<InstanceView>::empty());
        while i < events.len()
            invariant
                i <= events.len(),
                spec_instance_views(instances@) == spec_block_instances(
                    self.config.contracts@,
                    events@.take(i as int),
                    consensus_hash@,
                    block_header_hash@,
                    block_height,
                ),
            decreases events.len() - i,
        {
            let event = &events[i];
            let ghost views = spec_instance_views(instances@);
            proof {
                assert(events@.take(i + 1).drop_last() =~= events@.take(i as int));
                assert(events@.take(i + 1).last() == events@[i as int]);
            }
            if self.config.tracks(&event.contract_id) {
                match AttachmentInstance::try_new_from_value(
                    &event.value,
                    &event.contract_id,
                    consensus_hash,
                    block_header_hash,
                    block_height,
                ) {
                    Ok(instance) => {
                        instances.push(instance);
                        assert(spec_instance_views(instances@) =~= views.push(
                            instances@.last()@,
                        ));
                    },
                    Err(_) => {},
                }
            }
            i += 1;
        }
        assert(events@.take(i as int) =~= events@);
        instances
    }
}

} // verus!
