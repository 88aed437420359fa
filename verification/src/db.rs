//! The database: every known attachment instance, the stored attachments,
//! and the inventory that both give rise to.
//!
//! Whether an instance is resolved is not kept as a flag: it is resolved
//! exactly when its content is in the store, or when it points at nothing.
//! So an instance cannot be marked resolved without its content being there,
//! nor the other way round.

use crate::attachment::{spec_instance_views, Attachment, AttachmentInstance, InstanceView};
use crate::hash::{spec_empty_hash, spec_hash160, spec_index_block_hash, Hash160, StacksBlockId};
use crate::value::{ContractIdView, QualifiedContractIdentifier};
use vstd::prelude::*;

verus! {

/// Why content was not accepted.
#[derive(Clone, Copy, Debug, PartialEq, Eq, Structural)]
pub enum AtlasError {
    /// The content does not hash to the address it was claimed for.
    HashMismatch,
    /// The content is larger than an attachment may be.
    OversizeContent,
}

/// What the database holds, as plain values: the instances in the order in
/// which they are listed, and the stored contents.
pub struct DbView {
    pub instances: Seq<InstanceView>,
    pub contents: Seq<Seq<u8>>,
}

/// The identifier of the block that holds the instance.
pub open spec fn spec_block_id(instance: InstanceView) -> Seq<u8> {
    spec_index_block_hash(instance.consensus_hash, instance.block_header_hash)
}

/// Whether two instances stand for the same event: the same contract, the
/// same slot, the same block.
pub open spec fn spec_same_key(a: InstanceView, b: InstanceView) -> bool {
    &&& a.contract_id == b.contract_id
    &&& a.page_index == b.page_index
    &&& a.position_in_page == b.position_in_page
    &&& spec_block_id(a) == spec_block_id(b)
}

/// Whether an instance for the same event as `x` is among `instances`.
pub open spec fn spec_known(instances: Seq<InstanceView>, x: InstanceView) -> bool {
    exists|i: int| 0 <= i < instances.len() && spec_same_key(#[trigger] instances[i], x)
}

/// Whether no two of the instances stand for the same event.
pub open spec fn spec_keys_distinct(instances: Seq<InstanceView>) -> bool {
    forall|i: int, j: int|
        0 <= i < j < instances.len() ==> !spec_same_key(
            #[trigger] instances[i],
            #[trigger] instances[j],
        )
}

/// The order of listing: `a` is listed no later than `b` when its block is
/// lower, or in the same height its page is lower, or in the same page its
/// position is not higher.
pub open spec fn spec_listed_before(a: InstanceView, b: InstanceView) -> bool {
    ||| a.block_height < b.block_height
    ||| a.block_height == b.block_height && a.page_index < b.page_index
    ||| a.block_height == b.block_height && a.page_index == b.page_index && a.position_in_page
        <= b.position_in_page
}

/// Whether the instances stand in the order of listing.
pub open spec fn spec_listed_in_order(instances: Seq<InstanceView>) -> bool {
    forall|i: int, j: int|
        0 <= i < j < instances.len() ==> spec_listed_before(
            #[trigger] instances[i],
            #[trigger] instances[j],
        )
}

/// Where a new instance goes: behind the instances at the start that are
/// listed no later than it.
pub open spec fn spec_insert_position(instances: Seq<InstanceView>, x: InstanceView) -> int
    decreases instances.len(),
{
    if instances.len() == 0 {
        0
    } else if !spec_listed_before(instances[0], x) {
        0
    } else {
        1 + spec_insert_position(instances.drop_first(), x)
    }
}

/// The instances after `x` was recorded: unchanged where its event is known
/// already, else with `x` at its place in the order of listing.
pub open spec fn spec_record(instances: Seq<InstanceView>, x: InstanceView) -> Seq<InstanceView> {
    if spec_known(instances, x) {
        instances
    } else {
        instances.insert(spec_insert_position(instances, x), x)
    }
}

/// The instances after each of `xs` was recorded, first to last.
pub open spec fn spec_record_all(instances: Seq<InstanceView>, xs: Seq<InstanceView>) -> Seq<
    InstanceView,
>
    decreases xs.len(),
{
    if xs.len() == 0 {
        instances
    } else {
        spec_record(spec_record_all(instances, xs.drop_last()), xs.last())
    }
}

/// Whether content with the address `hash` is among `contents`.
pub open spec fn spec_stored(contents: Seq<Seq<u8>>, hash: Seq<u8>) -> bool {
    exists|i: int| 0 <= i < contents.len() && spec_hash160(#[trigger] contents[i]) == hash
}

/// The index of the first content with the address `hash`, or the number of
/// contents if there is none.
pub open spec fn spec_store_index(contents: Seq<Seq<u8>>, hash: Seq<u8>) -> int
    decreases contents.len(),
{
    if contents.len() == 0 {
        0
    } else if spec_hash160(contents[0]) == hash {
        0
    } else {
        1 + spec_store_index(contents.drop_first(), hash)
    }
}

/// The stored content with the address `hash`.
pub open spec fn spec_find(contents: Seq<Seq<u8>>, hash: Seq<u8>) -> Option<Seq<u8>> {
    let i = spec_store_index(contents, hash);
    if i < contents.len() {
        Some(contents[i])
    } else {
        None
    }
}

/// The contents after `content` was stored: each address is kept once.
pub open spec fn spec_store(contents: Seq<Seq<u8>>, content: Seq<u8>) -> Seq<Seq<u8>> {
    if spec_stored(contents, spec_hash160(content)) {
        contents
    } else {
        contents.push(content)
    }
}

/// Whether no two of the contents have the same address.
pub open spec fn spec_hashes_distinct(contents: Seq<Seq<u8>>) -> bool {
    forall|i: int, j: int|
        0 <= i < j < contents.len() ==> spec_hash160(#[trigger] contents[i]) != spec_hash160(
            #[trigger] contents[j],
        )
}

/// Whether the instance is resolved: it points at nothing, or its content
/// is stored.
pub open spec fn spec_resolved(contents: Seq<Seq<u8>>, instance: InstanceView) -> bool {
    instance.content_hash == spec_empty_hash() || spec_stored(contents, instance.content_hash)
}

/// The test that picks the pending instances.
pub open spec fn spec_is_pending(contents: Seq<Seq<u8>>) -> spec_fn(InstanceView) -> bool {
    |instance: InstanceView| !spec_resolved(contents, instance)
}

/// The test that picks the resolved instances.
pub open spec fn spec_is_resolved(contents: Seq<Seq<u8>>) -> spec_fn(InstanceView) -> bool {
    |instance: InstanceView| spec_resolved(contents, instance)
}

/// The test that picks the resolved instances of the contract.
pub open spec fn spec_is_resolved_for(contents: Seq<Seq<u8>>, contract_id: ContractIdView) -> spec_fn(
    InstanceView,
) -> bool {
    |instance: InstanceView|
        instance.contract_id == contract_id && spec_resolved(contents, instance)
}

/// The test that picks the instances outside the block `block_id`.
pub open spec fn spec_outside_block(block_id: Seq<u8>) -> spec_fn(InstanceView) -> bool {
    |instance: InstanceView| spec_block_id(instance) != block_id
}

/// The pending instances, in the order of listing.
pub open spec fn spec_pending(db: DbView) -> Seq<InstanceView> {
    db.instances.filter(spec_is_pending(db.contents))
}

/// The instances that are left when the block `block_id` is retracted.
pub open spec fn spec_retract(instances: Seq<InstanceView>, block_id: Seq<u8>) -> Seq<
    InstanceView,
> {
    instances.filter(spec_outside_block(block_id))
}

/// Whether the instance occupies the given slot of the inventory.
pub open spec fn spec_in_slot(instance: InstanceView, page_index: u32, position: int) -> bool {
    instance.page_index == page_index && instance.position_in_page == position
}

/// Whether the slot holds a resolved instance.
pub open spec fn spec_slot_present(db: DbView, page_index: u32, position: int) -> bool {
    exists|i: int|
        0 <= i < db.instances.len() && spec_in_slot(#[trigger] db.instances[i], page_index, position)
            && spec_resolved(db.contents, db.instances[i])
}

/// Whether the slot holds an instance whose content is expected and not
/// yet there.
pub open spec fn spec_slot_expected(db: DbView, page_index: u32, position: int) -> bool {
    exists|i: int|
        0 <= i < db.instances.len() && spec_in_slot(#[trigger] db.instances[i], page_index, position)
            && !spec_resolved(db.contents, db.instances[i])
}

/// What holds of every database: the instances stand in the order of
/// listing, no event is recorded twice, and no address is stored twice.
pub open spec fn spec_db_well_formed(db: DbView) -> bool {
    &&& spec_listed_in_order(db.instances)
    &&& spec_keys_distinct(db.instances)
    &&& spec_hashes_distinct(db.contents)
}

/// The place of insertion lies within the instances or just behind them;
/// the instances before it are listed no later than `x`, and the instance
/// at it is listed later.
pub proof fn lemma_insert_position(instances: Seq<InstanceView>, x: InstanceView)
    ensures
        0 <= spec_insert_position(instances, x) <= instances.len(),
        forall|k: int|
            0 <= k < spec_insert_position(instances, x) ==> spec_listed_before(
                #[trigger] instances[k],
                x,
            ),
        spec_insert_position(instances, x) < instances.len() ==> !spec_listed_before(
            instances[spec_insert_position(instances, x)],
            x,
        ),
    decreases instances.len(),
{
    if instances.len() > 0 && spec_listed_before(instances[0], x) {
        let rest = instances.drop_first();
        lemma_insert_position(rest, x);
        assert forall|k: int| 0 <= k < spec_insert_position(instances, x) implies spec_listed_before(
            #[trigger] instances[k],
            x,
        ) by {
            if k > 0 {
                assert(instances[k] == rest[k - 1]);
            }
        }
        if spec_insert_position(instances, x) < instances.len() {
            assert(instances[spec_insert_position(instances, x)] == rest[spec_insert_position(
                rest,
                x,
            )]);
        }
    }
}

/// Recording keeps the order of listing and records no event twice.
pub proof fn lemma_record_well_formed(instances: Seq<InstanceView>, x: InstanceView)
    requires
        spec_listed_in_order(instances),
        spec_keys_distinct(instances),
    ensures
        spec_listed_in_order(spec_record(instances, x)),
        spec_keys_distinct(spec_record(instances, x)),
{
    if !spec_known(instances, x) {
        lemma_insert_position(instances, x);
        let p = spec_insert_position(instances, x);
        let after = instances.insert(p, x);
        assert forall|i: int, j: int| 0 <= i < j < after.len() implies spec_listed_before(
            #[trigger] after[i],
            #[trigger] after[j],
        ) && !spec_same_key(after[i], after[j]) by {
            if j < p {
                assert(after[i] == instances[i] && after[j] == instances[j]);
            } else if j == p {
                assert(after[i] == instances[i]);
            } else if i == p {
                assert(after[j] == instances[j - 1]);
                let at = instances[p];
                assert(!spec_listed_before(at, x));
                if j - 1 > p {
                    assert(spec_listed_before(at, instances[j - 1]));
                }
            } else if i < p {
                assert(after[i] == instances[i] && after[j] == instances[j - 1]);
            } else {
                assert(after[i] == instances[i - 1] && after[j] == instances[j - 1]);
            }
        }
    }
}

/// Once recorded, an event is known.
pub proof fn lemma_record_knows(instances: Seq<InstanceView>, x: InstanceView)
    ensures
        spec_known(spec_record(instances, x), x),
{
    if !spec_known(instances, x) {
        lemma_insert_position(instances, x);
        let p = spec_insert_position(instances, x);
        assert(spec_same_key(instances.insert(p, x)[p], x));
    }
}

/// Recording forgets no event.
pub proof fn lemma_record_keeps_known(
    instances: Seq<InstanceView>,
    x: InstanceView,
    y: InstanceView,
)
    requires
        spec_known(instances, y),
    ensures
        spec_known(spec_record(instances, x), y),
{
    if !spec_known(instances, x) {
        lemma_insert_position(instances, x);
        let p = spec_insert_position(instances, x);
        let i = choose|i: int| 0 <= i < instances.len() && spec_same_key(#[trigger] instances[i], y);
        let after = instances.insert(p, x);
        if i < p {
            assert(spec_same_key(after[i], y));
        } else {
            assert(spec_same_key(after[i + 1], y));
        }
    }
}

/// Recording several instances forgets no event.
pub proof fn lemma_record_all_keeps_known(
    instances: Seq<InstanceView>,
    xs: Seq<InstanceView>,
    y: InstanceView,
)
    requires
        spec_known(instances, y),
    ensures
        spec_known(spec_record_all(instances, xs), y),
    decreases xs.len(),
{
    if xs.len() > 0 {
        lemma_record_all_keeps_known(instances, xs.drop_last(), y);
        lemma_record_keeps_known(spec_record_all(instances, xs.drop_last()), xs.last(), y);
    }
}

/// After several instances were recorded, the event of each is known.
pub proof fn lemma_record_all_knows(instances: Seq<InstanceView>, xs: Seq<InstanceView>, k: int)
    requires
        0 <= k < xs.len(),
    ensures
        spec_known(spec_record_all(instances, xs), xs[k]),
    decreases xs.len(),
{
    let before = spec_record_all(instances, xs.drop_last());
    if k == xs.len() - 1 {
        lemma_record_knows(before, xs.last());
    } else {
        lemma_record_all_knows(instances, xs.drop_last(), k);
        assert(xs.drop_last()[k] == xs[k]);
        lemma_record_keeps_known(before, xs.last(), xs[k]);
    }
}

/// Recording instances whose events are all known changes nothing.
pub proof fn lemma_record_all_of_known(instances: Seq<InstanceView>, xs: Seq<InstanceView>)
    requires
        forall|k: int| 0 <= k < xs.len() ==> spec_known(instances, #[trigger] xs[k]),
    ensures
        spec_record_all(instances, xs) == instances,
    decreases xs.len(),
{
    if xs.len() > 0 {
        assert forall|k: int| 0 <= k < xs.drop_last().len() implies spec_known(
            instances,
            #[trigger] xs.drop_last()[k],
        ) by {
            assert(xs.drop_last()[k] == xs[k]);
        }
        lemma_record_all_of_known(instances, xs.drop_last());
        assert(spec_known(instances, xs[xs.len() - 1]));
    }
}

/// Recording is idempotent: to record the same instances a second time
/// leaves the instances, and with them the pending ones, as they were after
/// the first time.
pub proof fn lemma_record_all_idempotent(db: DbView, xs: Seq<InstanceView>)
    ensures
        spec_record_all(spec_record_all(db.instances, xs), xs) == spec_record_all(db.instances, xs),
        spec_pending(
            DbView {
                instances: spec_record_all(spec_record_all(db.instances, xs), xs),
                contents: db.contents,
            },
        ) == spec_pending(
            DbView { instances: spec_record_all(db.instances, xs), contents: db.contents },
        ),
{
    let once = spec_record_all(db.instances, xs);
    assert forall|k: int| 0 <= k < xs.len() implies spec_known(once, #[trigger] xs[k]) by {
        lemma_record_all_knows(db.instances, xs, k);
    }
    lemma_record_all_of_known(once, xs);
}

/// Recording several instances keeps the order of listing and records no
/// event twice.
pub proof fn lemma_record_all_well_formed(instances: Seq<InstanceView>, xs: Seq<InstanceView>)
    requires
        spec_listed_in_order(instances),
        spec_keys_distinct(instances),
    ensures
        spec_listed_in_order(spec_record_all(instances, xs)),
        spec_keys_distinct(spec_record_all(instances, xs)),
    decreases xs.len(),
{
    if xs.len() > 0 {
        lemma_record_all_well_formed(instances, xs.drop_last());
        lemma_record_well_formed(spec_record_all(instances, xs.drop_last()), xs.last());
    }
}

/// Where the items that a test picks come from: for each picked item the
/// index of the item it is, rising, and leaving out no item that the test
/// accepts.
pub proof fn lemma_filter_indices(
    s: Seq<InstanceView>,
    pred: spec_fn(InstanceView) -> bool,
) -> (idx: Seq<int>)
    ensures
        idx.len() == s.filter(pred).len(),
        forall|k: int|
            0 <= k < idx.len() ==> 0 <= #[trigger] idx[k] < s.len() && s[idx[k]] == s.filter(
                pred,
            )[k] && pred(s[idx[k]]),
        forall|a: int, b: int| 0 <= a < b < idx.len() ==> #[trigger] idx[a] < #[trigger] idx[b],
        forall|j: int| 0 <= j < s.len() && pred(#[trigger] s[j]) ==> idx.contains(j),
    decreases s.len(),
{
    reveal(Seq::filter);
    if s.len() == 0 {
        Seq::empty()
    } else {
        let front = s.drop_last();
        let rest = lemma_filter_indices(front, pred);
        let idx = if pred(s.last()) {
            rest.push(s.len() - 1)
        } else {
            rest
        };
        assert forall|k: int| 0 <= k < idx.len() implies 0 <= #[trigger] idx[k] < s.len()
            && s[idx[k]] == s.filter(pred)[k] && pred(s[idx[k]]) by {
            if k < rest.len() {
                assert(front[rest[k]] == s[rest[k]]);
            }
        }
        assert forall|j: int| 0 <= j < s.len() && pred(#[trigger] s[j]) implies idx.contains(j) by {
            if j < s.len() - 1 {
                assert(front[j] == s[j]);
                let k = choose|k: int| 0 <= k < rest.len() && rest[k] == j;
                assert(idx[k] == j);
            } else {
                assert(idx[idx.len() - 1] == j);
            }
        }
        idx
    }
}

/// To pick from well-formed instances leaves them well formed.
pub proof fn lemma_filter_well_formed(s: Seq<InstanceView>, pred: spec_fn(InstanceView) -> bool)
    requires
        spec_listed_in_order(s),
        spec_keys_distinct(s),
    ensures
        spec_listed_in_order(s.filter(pred)),
        spec_keys_distinct(s.filter(pred)),
{
    let idx = lemma_filter_indices(s, pred);
    let picked = s.filter(pred);
    assert forall|i: int, j: int| 0 <= i < j < picked.len() implies spec_listed_before(
        #[trigger] picked[i],
        #[trigger] picked[j],
    ) && !spec_same_key(picked[i], picked[j]) by {
        assert(idx[i] < idx[j]);
        assert(picked[i] == s[idx[i]] && picked[j] == s[idx[j]]);
    }
}

/// Retraction is correct: after a block was retracted none of its
/// instances is known, pending or not; the instances of other blocks are
/// all kept; and a slot of the inventory reports an expected attachment
/// only for an instance of another block.
pub proof fn lemma_retract_removes_block(db: DbView, block_id: Seq<u8>)
    ensures
        forall|k: int|
            0 <= k < spec_retract(db.instances, block_id).len() ==> spec_block_id(
                #[trigger] spec_retract(db.instances, block_id)[k],
            ) != block_id && db.instances.contains(spec_retract(db.instances, block_id)[k]),
        forall|j: int|
            0 <= j < db.instances.len() && spec_block_id(#[trigger] db.instances[j]) != block_id
                ==> spec_retract(db.instances, block_id).contains(db.instances[j]),
        forall|k: int|
            0 <= k < spec_pending(
                DbView { instances: spec_retract(db.instances, block_id), contents: db.contents },
            ).len() ==> spec_block_id(
                #[trigger] spec_pending(
                    DbView {
                        instances: spec_retract(db.instances, block_id),
                        contents: db.contents,
                    },
                )[k],
            ) != block_id,
        forall|page_index: u32, position: int| #[trigger]
            spec_slot_expected(
                DbView { instances: spec_retract(db.instances, block_id), contents: db.contents },
                page_index,
                position,
            ) ==> exists|j: int|
                0 <= j < db.instances.len() && spec_in_slot(
                    #[trigger] db.instances[j],
                    page_index,
                    position,
                ) && spec_block_id(db.instances[j]) != block_id && !spec_resolved(
                    db.contents,
                    db.instances[j],
                ),
{
    let left = spec_retract(db.instances, block_id);
    let idx = lemma_filter_indices(db.instances, spec_outside_block(block_id));
    assert forall|k: int| 0 <= k < left.len() implies spec_block_id(#[trigger] left[k]) != block_id
        && db.instances.contains(left[k]) by {
        assert(left[k] == db.instances[idx[k]]);
    }
    assert forall|j: int|
        0 <= j < db.instances.len() && spec_block_id(
            #[trigger] db.instances[j],
        ) != block_id implies left.contains(db.instances[j]) by {
        assert(idx.contains(j));
        let k = choose|k: int| 0 <= k < idx.len() && idx[k] == j;
        assert(left[k] == db.instances[j]);
    }
    let after = DbView { instances: left, contents: db.contents };
    let pending = spec_pending(after);
    let pidx = lemma_filter_indices(left, spec_is_pending(db.contents));
    assert forall|k: int| 0 <= k < pending.len() implies spec_block_id(#[trigger] pending[k])
        != block_id by {
        assert(pending[k] == left[pidx[k]]);
    }
    assert forall|page_index: u32, position: int| #[trigger]
        spec_slot_expected(after, page_index, position) implies exists|j: int|
        0 <= j < db.instances.len() && spec_in_slot(#[trigger] db.instances[j], page_index, position)
            && spec_block_id(db.instances[j]) != block_id && !spec_resolved(
            db.contents,
            db.instances[j],
        ) by {
        let k = choose|k: int|
            0 <= k < left.len() && spec_in_slot(#[trigger] left[k], page_index, position)
                && !spec_resolved(db.contents, left[k]);
        assert(left[k] == db.instances[idx[k]]);
    }
}

/// Where every instance in a slot belongs to the retracted block, the slot
/// reports nothing afterwards: neither an expected attachment nor one that
/// is present.
pub proof fn lemma_retract_clears_slot(
    db: DbView,
    block_id: Seq<u8>,
    page_index: u32,
    position: int,
)
    requires
        forall|j: int|
            0 <= j < db.instances.len() && spec_in_slot(
                #[trigger] db.instances[j],
                page_index,
                position,
            ) ==> spec_block_id(db.instances[j]) == block_id,
    ensures
        !spec_slot_expected(
            DbView { instances: spec_retract(db.instances, block_id), contents: db.contents },
            page_index,
            position,
        ),
        !spec_slot_present(
            DbView { instances: spec_retract(db.instances, block_id), contents: db.contents },
            page_index,
            position,
        ),
{
    let left = spec_retract(db.instances, block_id);
    let idx = lemma_filter_indices(db.instances, spec_outside_block(block_id));
    assert forall|k: int| 0 <= k < left.len() implies !spec_in_slot(
        #[trigger] left[k],
        page_index,
        position,
    ) by {
        assert(left[k] == db.instances[idx[k]]);
    }
}

/// Storing forgets no content: what was stored stays stored.
pub proof fn lemma_store_keeps_stored(contents: Seq<Seq<u8>>, content: Seq<u8>, hash: Seq<u8>)
    requires
        spec_stored(contents, hash),
    ensures
        spec_stored(spec_store(contents, content), hash),
{
    let i = choose|i: int| 0 <= i < contents.len() && spec_hash160(#[trigger] contents[i]) == hash;
    assert(spec_hash160(spec_store(contents, content)[i]) == hash);
}

/// Once stored, content is found under its address.
pub proof fn lemma_store_stores(contents: Seq<Seq<u8>>, content: Seq<u8>)
    ensures
        spec_stored(spec_store(contents, content), spec_hash160(content)),
{
    if !spec_stored(contents, spec_hash160(content)) {
        assert(spec_hash160(contents.push(content)[contents.len() as int]) == spec_hash160(
            content,
        ));
    }
}

/// Resolution is monotonic: an instance that is resolved stays resolved
/// when content is stored. Recording and retracting leave the stored
/// contents as they are, so no operation returns a resolved instance that
/// is still known to pending.
pub proof fn lemma_resolution_monotonic(
    contents: Seq<Seq<u8>>,
    content: Seq<u8>,
    instance: InstanceView,
)
    requires
        spec_resolved(contents, instance),
    ensures
        spec_resolved(spec_store(contents, content), instance),
{
    if instance.content_hash != spec_empty_hash() {
        lemma_store_keeps_stored(contents, content, instance.content_hash);
    }
}

/// Storing content resolves every instance that points at it, whatever its
/// block.
pub proof fn lemma_store_resolves(contents: Seq<Seq<u8>>, content: Seq<u8>, instance: InstanceView)
    requires
        instance.content_hash == spec_hash160(content),
    ensures
        spec_resolved(spec_store(contents, content), instance),
{
    lemma_store_stores(contents, content);
}

/// An instance that points at nothing is resolved from the start, and is
/// never among the pending.
pub proof fn lemma_sentinel_never_pending(db: DbView, instance: InstanceView)
    requires
        instance.content_hash == spec_empty_hash(),
    ensures
        spec_resolved(db.contents, instance),
        !spec_pending(db).contains(instance),
{
    if spec_pending(db).contains(instance) {
        let idx = lemma_filter_indices(db.instances, spec_is_pending(db.contents));
        let k = choose|k: int| 0 <= k < spec_pending(db).len() && spec_pending(db)[k] == instance;
        assert(spec_pending(db)[k] == db.instances[idx[k]]);
    }
}

/// What `spec_store_index` returns lies within the contents or just behind
/// them; before it no content has the address, and at it the content has.
pub proof fn lemma_store_index(contents: Seq<Seq<u8>>, hash: Seq<u8>)
    ensures
        0 <= spec_store_index(contents, hash) <= contents.len(),
        forall|k: int|
            0 <= k < spec_store_index(contents, hash) ==> spec_hash160(#[trigger] contents[k])
                != hash,
        spec_store_index(contents, hash) < contents.len() ==> spec_hash160(
            contents[spec_store_index(contents, hash)],
        ) == hash,
        spec_find(contents, hash) is Some <==> spec_stored(contents, hash),
    decreases contents.len(),
{
    if contents.len() > 0 && spec_hash160(contents[0]) != hash {
        let rest = contents.drop_first();
        lemma_store_index(rest, hash);
        assert forall|k: int| 0 <= k < spec_store_index(contents, hash) implies spec_hash160(
            #[trigger] contents[k],
        ) != hash by {
            if k > 0 {
                assert(contents[k] == rest[k - 1]);
            }
        }
        if spec_store_index(contents, hash) < contents.len() {
            assert(contents[spec_store_index(contents, hash)] == rest[spec_store_index(
                rest,
                hash,
            )]);
        }
    }
    let i = spec_store_index(contents, hash);
    if i < contents.len() {
        assert(spec_hash160(contents[i]) == hash);
    }
}

/// One known instance, with the identifier of its block.
#[derive(Debug)]
struct InstanceRecord {
    instance: AttachmentInstance,
    block_id: StacksBlockId,
}

/// One stored attachment, with its address.
#[derive(Debug)]
struct StoredAttachment {
    hash: Hash160,
    attachment: Attachment,
}

spec fn record_views(records: Seq<InstanceRecord>) -> Seq<InstanceView> {
    Seq::new(records.len(), |i: int| records[i].instance@)
}

spec fn stored_contents(stored: Seq<StoredAttachment>) -> Seq<Seq<u8>> {
    Seq::new(stored.len(), |i: int| stored[i].attachment@)
}

spec fn records_consistent(records: Seq<InstanceRecord>) -> bool {
    forall|i: int|
        0 <= i < records.len() ==> (#[trigger] records[i]).block_id@ == spec_block_id(
            records[i].instance@,
        )
}

spec fn stored_consistent(stored: Seq<StoredAttachment>) -> bool {
    forall|i: int|
        0 <= i < stored.len() ==> (#[trigger] stored[i]).hash@ == spec_hash160(
            stored[i].attachment@,
        )
}

/// Whether `a` is listed no later than `b`.
fn listed_before(a: &AttachmentInstance, b: &AttachmentInstance) -> (before: bool)
    ensures
        before == spec_listed_before(a@, b@),
{
    a.block_height < b.block_height || (a.block_height == b.block_height && (a.page_index
        < b.page_index || (a.page_index == b.page_index && a.position_in_page
        <= b.position_in_page)))
}

/// The database of known instances and stored attachments.
#[derive(Debug)]
pub struct AtlasDB {
    records: Vec<InstanceRecord>,
    attachments: Vec<StoredAttachment>,
}

impl View for AtlasDB {
    type V = DbView;

    closed spec fn view(&self) -> DbView {
        DbView {
            instances: record_views(self.records@),
            contents: stored_contents(self.attachments@),
        }
    }
}

impl AtlasDB {
    #[verifier::type_invariant]
    spec fn well_formed(self) -> bool {
        &&& spec_db_well_formed(self@)
        &&& records_consistent(self.records@)
        &&& stored_consistent(self.attachments@)
    }

    /// The database that knows no instance and stores nothing.
    pub fn new() -> (db: AtlasDB)
        ensures
            db@.instances == Seq::<InstanceView>::empty(),
            db@.contents == Seq::<Seq<u8>>::empty(),
    {
        let db = AtlasDB { records: Vec::new(), attachments: Vec::new() };
        assert(db@.instances =~= Seq::<InstanceView>::empty());
        assert(db@.contents =~= Seq::<Seq<u8>>::empty());
        db
    }

    /// Makes known what holds of every database: its instances stand in
    /// the order of listing, no event is recorded twice, and no address is
    /// stored twice.
    pub fn well_formed_now(&self)
        ensures
            spec_db_well_formed(self@),
    {
        proof {
            use_type_invariant(self);
        }
    }

    /// How many instances are known.
    pub fn instance_count(&self) -> (count: usize)
        ensures
            count == self@.instances.len(),
    {
        self.records.len()
    }

    /// Whether content with the address `hash` is stored.
    pub fn has_attachment(&self, hash: &Hash160) -> (stored: bool)
        ensures
            stored == spec_stored(self@.contents, hash@),
    {
        proof {
            use_type_invariant(self);
        }
        let mut i: usize = 0;
        while i < self.attachments.len()
            invariant
                i <= self.attachments.len(),
                stored_consistent(self.attachments@),
                forall|k: int| 0 <= k < i ==> spec_hash160(#[trigger] self@.contents[k]) != hash@,
            decreases self.attachments.len() - i,
        {
            if self.attachments[i].hash.same(hash) {
                assert(spec_hash160(self@.contents[i as int]) == hash@);
                return true;
            }
            i += 1;
        }
        false
    }

    /// The stored attachment with the address `hash`, if there is one.
    pub fn find_attachment(&self, hash: &Hash160) -> (found: Option<Attachment>)
        ensures
            found is Some <==> spec_stored(self@.contents, hash@),
            found is Some ==> spec_find(self@.contents, hash@) == Some(found->0@),
    {
        proof {
            use_type_invariant(self);
            lemma_store_index(self@.contents, hash@);
        }
        let mut i: usize = 0;
        while i < self.attachments.len()
            invariant
                i <= self.attachments.len(),
                stored_consistent(self.attachments@),
                forall|k: int| 0 <= k < i ==> spec_hash160(#[trigger] self@.contents[k]) != hash@,
                i <= spec_store_index(self@.contents, hash@) <= self@.contents.len(),
                forall|k: int|
                    0 <= k < spec_store_index(self@.contents, hash@) ==> spec_hash160(
                        #[trigger] self@.contents[k],
                    ) != hash@,
                spec_store_index(self@.contents, hash@) < self@.contents.len() ==> spec_hash160(
                    self@.contents[spec_store_index(self@.contents, hash@)],
                ) == hash@,
                spec_find(self@.contents, hash@) is Some <==> spec_stored(self@.contents, hash@),
            decreases self.attachments.len() - i,
        {
            if self.attachments[i].hash.same(hash) {
                assert(spec_hash160(self@.contents[i as int]) == hash@);
                assert(spec_store_index(self@.contents, hash@) == i);
                return Some(self.attachments[i].attachment.clone());
            }
            i += 1;
        }
        None
    }

    /// Whether the instance is resolved: it points at nothing, or its
    /// content is stored.
    pub fn is_resolved(&self, instance: &AttachmentInstance) -> (resolved: bool)
        ensures
            resolved == spec_resolved(self@.contents, instance@),
    {
        instance.content_hash.is_empty() || self.has_attachment(&instance.content_hash)
    }

    /// Records one instance, unless its event is known already. Returns
    /// whether it was recorded.
    pub fn insert_instance(&mut self, instance: AttachmentInstance) -> (added: bool)
        ensures
            added == !spec_known(old(self)@.instances, instance@),
            final(self)@.instances == spec_record(old(self)@.instances, instance@),
            final(self)@.contents == old(self)@.contents,
    {
        proof {
            use_type_invariant(&*self);
        }
        let ghost before = self@;
        let ghost x = instance@;
        let block_id = instance.get_stacks_block_id();
        let mut i: usize = 0;
        while i < self.records.len()
            invariant
                i <= self.records.len(),
                self@ == before,
                x == instance@,
                records_consistent(self.records@),
                block_id@ == spec_block_id(x),
                forall|k: int| 0 <= k < i ==> !spec_same_key(#[trigger] before.instances[k], x),
            decreases self.records.len() - i,
        {
            let record = &self.records[i];
            if record.instance.page_index == instance.page_index
                && record.instance.position_in_page == instance.position_in_page
                && record.block_id.same(&block_id) && record.instance.contract_id.same(
                &instance.contract_id,
            ) {
                assert(spec_same_key(before.instances[i as int], x));
                return false;
            }
            i += 1;
        }
        assert(!spec_known(before.instances, x));
        let mut at: usize = 0;
        assert(before.instances.skip(0) =~= before.instances);
        while at < self.records.len() && listed_before(&self.records[at].instance, &instance)
            invariant
                at <= self.records.len(),
                self@ == before,
                x == instance@,
                spec_insert_position(before.instances, x) == at + spec_insert_position(
                    before.instances.skip(at as int),
                    x,
                ),
            decreases self.records.len() - at,
        {
            assert(before.instances.skip(at as int)[0] == before.instances[at as int]);
            assert(before.instances.skip(at as int).drop_first() =~= before.instances.skip(
                at + 1,
            ));
            at += 1;
        }
        proof {
            if at < self.records.len() {
                assert(before.instances.skip(at as int)[0] == before.instances[at as int]);
            }
            assert(spec_insert_position(before.instances, x) == at);
            lemma_record_well_formed(before.instances, x);
        }
        let mut records: Vec<InstanceRecord> = Vec::new();
        std::mem::swap(&mut records, &mut self.records);
        let ghost prior = records@;
        records.insert(at, InstanceRecord { instance, block_id });
        proof {
            assert(record_views(records@) =~= before.instances.insert(at as int, x));
            assert forall|k: int| 0 <= k < records@.len() implies (#[trigger] records@[k]).block_id@
                == spec_block_id(records@[k].instance@) by {
                if k < at {
                    assert(records@[k] == prior[k]);
                } else if k > at {
                    assert(records@[k] == prior[k - 1]);
                }
            }
        }
        self.records = records;
        true
    }

    /// Records the instances of a block, first to last. An instance whose
    /// event is known already is passed over, so recording the same block
    /// again changes nothing.
    pub fn insert_instances(&mut self, instances: &Vec<AttachmentInstance>)
        ensures
            final(self)@.instances == spec_record_all(
                old(self)@.instances,
                spec_instance_views(instances@),
            ),
            final(self)@.contents == old(self)@.contents,
    {
        let ghost before = self@;
        let ghost xs = spec_instance_views(instances@);
        let mut i: usize = 0;
        while i < instances.len()
            invariant
                i <= instances.len(),
                xs == spec_instance_views(instances@),
                self@.instances == spec_record_all(before.instances, xs.take(i as int)),
                self@.contents == before.contents,
            decreases instances.len() - i,
        {
            self.insert_instance(instances[i].clone());
            proof {
                assert(xs.take(i + 1).drop_last() =~= xs.take(i as int));
                assert(xs.take(i + 1).last() == xs[i as int]);
            }
            i += 1;
        }
        assert(xs.take(i as int) =~= xs);
    }

    /// Retracts a block: forgets every instance that the block holds. The
    /// stored attachments stay.
    pub fn retract_block(&mut self, block_id: &StacksBlockId)
        ensures
            final(self)@.instances == spec_retract(old(self)@.instances, block_id@),
            final(self)@.contents == old(self)@.contents,
    {
        proof {
            use_type_invariant(&*self);
        }
        let ghost before = self@;
        let ghost pred = spec_outside_block(block_id@);
        let mut kept: Vec<InstanceRecord> = Vec::new();
        let mut i: usize = 0;
        proof {
            before.instances.take(0).lemma_filter_len(pred);
            assert(record_views(kept@) =~= before.instances.take(0).filter(pred));
        }
        while i < self.records.len()
            invariant
                i <= self.records.len(),
                self@ == before,
                pred == spec_outside_block(block_id@),
                records_consistent(self.records@),
                records_consistent(kept@),
                record_views(kept@) == before.instances.take(i as int).filter(pred),
            decreases self.records.len() - i,
        {
            let record = &self.records[i];
            let ghost kept_views = record_views(kept@);
            proof {
                before.instances.take(i as int).lemma_filter_push(before.instances[i as int], pred);
                assert(before.instances.take(i as int).push(before.instances[i as int])
                    =~= before.instances.take(i + 1));
            }
            if !record.block_id.same(block_id) {
                kept.push(
                    InstanceRecord { instance: record.instance.clone(), block_id: record.block_id },
                );
                assert(record_views(kept@) =~= kept_views.push(before.instances[i as int]));
            }
            i += 1;
        }
        proof {
            assert(before.instances.take(i as int) =~= before.instances);
            lemma_filter_well_formed(before.instances, pred);
        }
        self.records = kept;
    }

    /// The pending instances: those that point at content which is not
    /// stored. They come in the order of listing, lowest block first, which
    /// is the order in which they are to be fetched.
    pub fn list_pending(&self) -> (pending: Vec<AttachmentInstance>)
        ensures
            spec_instance_views(pending@) == spec_pending(self@),
            spec_listed_in_order(spec_instance_views(pending@)),
            forall|k: int|
                0 <= k < pending@.len() ==> !spec_resolved(
                    self@.contents,
                    (#[trigger] pending@[k])@,
                ),
    {
        proof {
            use_type_invariant(self);
        }
        let ghost all = self@.instances;
        let ghost pred = spec_is_pending(self@.contents);
        let mut pending: Vec<AttachmentInstance> = Vec::new();
        let mut i: usize = 0;
        proof {
            all.take(0).lemma_filter_len(pred);
            assert(spec_instance_views(pending@) =~= all.take(0).filter(pred));
        }
        while i < self.records.len()
            invariant
                i <= self.records.len(),
                all == self@.instances,
                pred == spec_is_pending(self@.contents),
                spec_instance_views(pending@) == all.take(i as int).filter(pred),
                forall|k: int|
                    0 <= k < pending@.len() ==> !spec_resolved(
                        self@.contents,
                        (#[trigger] pending@[k])@,
                    ),
            decreases self.records.len() - i,
        {
            let record = &self.records[i];
            let ghost views = spec_instance_views(pending@);
            proof {
                all.take(i as int).lemma_filter_push(all[i as int], pred);
                assert(all.take(i as int).push(all[i as int]) =~= all.take(i + 1));
            }
            if !self.is_resolved(&record.instance) {
                pending.push(record.instance.clone());
                assert(spec_instance_views(pending@) =~= views.push(all[i as int]));
            }
            i += 1;
        }
        proof {
            assert(all.take(i as int) =~= all);
            lemma_filter_well_formed(all, pred);
        }
        pending
    }

    /// The resolved instances, in the order of listing.
    pub fn list_resolved(&self) -> (resolved: Vec<AttachmentInstance>)
        ensures
            spec_instance_views(resolved@) == self@.instances.filter(
                spec_is_resolved(self@.contents),
            ),
    {
        let ghost all = self@.instances;
        let ghost pred = spec_is_resolved(self@.contents);
        let mut resolved: Vec<AttachmentInstance> = Vec::new();
        let mut i: usize = 0;
        proof {
            all.take(0).lemma_filter_len(pred);
            assert(spec_instance_views(resolved@) =~= all.take(0).filter(pred));
        }
        while i < self.records.len()
            invariant
                i <= self.records.len(),
                all == self@.instances,
                pred == spec_is_resolved(self@.contents),
                spec_instance_views(resolved@) == all.take(i as int).filter(pred),
            decreases self.records.len() - i,
        {
            let record = &self.records[i];
            let ghost views = spec_instance_views(resolved@);
            proof {
                all.take(i as int).lemma_filter_push(all[i as int], pred);
                assert(all.take(i as int).push(all[i as int]) =~= all.take(i + 1));
            }
            if self.is_resolved(&record.instance) {
                resolved.push(record.instance.clone());
                assert(spec_instance_views(resolved@) =~= views.push(all[i as int]));
            }
            i += 1;
        }
        assert(all.take(i as int) =~= all);
        resolved
    }

    /// The resolved instances of one contract, in the order of listing.
    pub fn list_resolved_for_contract(&self, contract_id: &QualifiedContractIdentifier) -> (resolved:
        Vec<AttachmentInstance>)
        ensures
            spec_instance_views(resolved@) == self@.instances.filter(
                spec_is_resolved_for(self@.contents, contract_id@),
            ),
    {
        let ghost all = self@.instances;
        let ghost pred = spec_is_resolved_for(self@.contents, contract_id@);
        let mut resolved: Vec<AttachmentInstance> = Vec::new();
        let mut i: usize = 0;
        proof {
            all.take(0).lemma_filter_len(pred);
            assert(spec_instance_views(resolved@) =~= all.take(0).filter(pred));
        }
        while i < self.records.len()
            invariant
                i <= self.records.len(),
                all == self@.instances,
                pred == spec_is_resolved_for(self@.contents, contract_id@),
                spec_instance_views(resolved@) == all.take(i as int).filter(pred),
            decreases self.records.len() - i,
        {
            let record = &self.records[i];
            let ghost views = spec_instance_views(resolved@);
            proof {
                all.take(i as int).lemma_filter_push(all[i as int], pred);
                assert(all.take(i as int).push(all[i as int]) =~= all.take(i + 1));
            }
            if record.instance.contract_id.same(contract_id) && self.is_resolved(&record.instance) {
                resolved.push(record.instance.clone());
                assert(spec_instance_views(resolved@) =~= views.push(all[i as int]));
            }
            i += 1;
        }
        assert(all.take(i as int) =~= all);
        resolved
    }

    /// Stores an attachment under the address `hash`. Content that does not
    /// hash to `hash` is refused and nothing changes. Content that is
    /// accepted resolves, in the same step, every instance that points at
    /// it.
    pub fn store_attachment(&mut self, hash: &Hash160, attachment: Attachment) -> (outcome: Result<
        (),
        AtlasError,
    >)
        ensures
            outcome is Ok <==> hash@ == spec_hash160(attachment@),
            outcome is Err ==> outcome == Err::<(), AtlasError>(AtlasError::HashMismatch)
                && final(self)@ == old(self)@,
            outcome is Ok ==> final(self)@.instances == old(self)@.instances,
            outcome is Ok ==> final(self)@.contents == spec_store(
                old(self)@.contents,
                attachment@,
            ),
            outcome is Ok ==> spec_stored(final(self)@.contents, hash@),
    {
        proof {
            use_type_invariant(&*self);
        }
        let ghost before = self@;
        let actual = attachment.hash();
        if !actual.same(hash) {
            return Err(AtlasError::HashMismatch);
        }
        proof {
            lemma_store_stores(before.contents, attachment@);
        }
        if self.has_attachment(hash) {
            return Ok(());
        }
        let ghost content = attachment@;
        let mut attachments: Vec<StoredAttachment> = Vec::new();
        std::mem::swap(&mut attachments, &mut self.attachments);
        let ghost prior = attachments@;
        attachments.push(StoredAttachment { hash: actual, attachment });
        proof {
            assert(stored_contents(attachments@) =~= before.contents.push(content));
            let after = stored_contents(attachments@);
            assert forall|a: int, b: int| 0 <= a < b < after.len() implies spec_hash160(
                #[trigger] after[a],
            ) != spec_hash160(#[trigger] after[b]) by {
                assert(after[a] == before.contents[a]);
                if b < after.len() - 1 {
                    assert(after[b] == before.contents[b]);
                }
            }
            assert forall|k: int| 0 <= k < attachments@.len() implies (
            #[trigger] attachments@[k]).hash@ == spec_hash160(attachments@[k].attachment@) by {
                if k < prior.len() {
                    assert(attachments@[k] == prior[k]);
                }
            }
        }
        self.attachments = attachments;
        Ok(())
    }

    /// Whether the slot holds a resolved instance.
    pub fn slot_present(&self, page_index: u32, position: u32) -> (present: bool)
        ensures
            present == spec_slot_present(self@, page_index, position as int),
    {
        let mut i: usize = 0;
        while i < self.records.len()
            invariant
                i <= self.records.len(),
                forall|k: int|
                    0 <= k < i ==> !(spec_in_slot(
                        #[trigger] self@.instances[k],
                        page_index,
                        position as int,
                    ) && spec_resolved(self@.contents, self@.instances[k])),
            decreases self.records.len() - i,
        {
            let record = &self.records[i];
            if record.instance.page_index == page_index && record.instance.position_in_page
                == position && self.is_resolved(&record.instance) {
                assert(spec_in_slot(self@.instances[i as int], page_index, position as int));
                return true;
            }
            i += 1;
        }
        false
    }

    /// Whether the slot holds an instance whose content is expected and not
    /// yet there.
    pub fn slot_expected(&self, page_index: u32, position: u32) -> (expected: bool)
        ensures
            expected == spec_slot_expected(self@, page_index, position as int),
    {
        let mut i: usize = 0;
        while i < self.records.len()
            invariant
                i <= self.records.len(),
                forall|k: int|
                    0 <= k < i ==> !(spec_in_slot(
                        #[trigger] self@.instances[k],
                        page_index,
                        position as int,
                    ) && !spec_resolved(self@.contents, self@.instances[k])),
            decreases self.records.len() - i,
        {
            let record = &self.records[i];
            if record.instance.page_index == page_index && record.instance.position_in_page
                == position && !self.is_resolved(&record.instance) {
                assert(spec_in_slot(self@.instances[i as int], page_index, position as int));
                return true;
            }
            i += 1;
        }
        false
    }

    /// The inventory of one page: for each of its `page_size` slots,
    /// whether the slot holds a resolved instance.
    pub fn compute_inventory_page(&self, page_index: u32, page_size: u32) -> (bits: Vec<bool>)
        ensures
            bits@.len() == page_size,
            forall|position: int|
                0 <= position < page_size ==> #[trigger] bits@[position] == spec_slot_present(
                    self@,
                    page_index,
                    position,
                ),
    {
        let mut bits: Vec<bool> = Vec::new();
        let mut position: u32 = 0;
        while position < page_size
            invariant
                position <= page_size,
                bits@.len() == position,
                forall|p: int|
                    0 <= p < position ==> #[trigger] bits@[p] == spec_slot_present(
                        self@,
                        page_index,
                        p,
                    ),
            decreases page_size - position,
        {
            bits.push(self.slot_present(page_index, position));
            position += 1;
        }
        bits
    }

    /// The expectations of one page: for each of its `page_size` slots,
    /// whether the slot holds an instance whose content is not yet there.
    pub fn compute_expected_page(&self, page_index: u32, page_size: u32) -> (bits: Vec<bool>)
        ensures
            bits@.len() == page_size,
            forall|position: int|
                0 <= position < page_size ==> #[trigger] bits@[position] == spec_slot_expected(
                    self@,
                    page_index,
                    position,
                ),
    {
        let mut bits: Vec<bool> = Vec::new();
        let mut position: u32 = 0;
        while position < page_size
            invariant
                position <= page_size,
                bits@.len() == position,
                forall|p: int|
                    0 <= p < position ==> #[trigger] bits@[p] == spec_slot_expected(
                        self@,
                        page_index,
                        p,
                    ),
            decreases page_size - position,
        {
            bits.push(self.slot_expected(page_index, position));
            position += 1;
        }
        bits
    }
}


} // verus!
