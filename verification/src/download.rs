//! The downloader: what to ask of which peer, and what to make of the
//! answer.
//!
//! Nothing here touches the network. A reconciliation cycle is a state
//! machine: each step takes the answer to the last request and returns the
//! next thing to do. Whoever owns the connections sends the request and
//! hands the answer back.

use crate::attachment::{spec_instance_views, Attachment, AttachmentInstance, InstanceView};
use crate::db::{
    spec_find, spec_pending, spec_resolved, spec_slot_present, spec_store, spec_stored, AtlasDB,
    AtlasError, DbView,
};
use crate::hash::{spec_hash160, Hash160};
use vstd::prelude::*;

verus! {

/// The index of the first item that the test accepts, or the number of
/// items if it accepts none.
pub open spec fn spec_first<A>(s: Seq<A>, pred: spec_fn(A) -> bool) -> int
    decreases s.len(),
{
    if s.len() == 0 {
        0
    } else if pred(s[0]) {
        0
    } else {
        1 + spec_first(s.drop_first(), pred)
    }
}

/// What `spec_first` returns lies within the items or just behind them;
/// the test refuses every item before it and accepts the item at it.
pub proof fn lemma_first<A>(s: Seq<A>, pred: spec_fn(A) -> bool)
    ensures
        0 <= spec_first(s, pred) <= s.len(),
        forall|k: int| 0 <= k < spec_first(s, pred) ==> !pred(#[trigger] s[k]),
        spec_first(s, pred) < s.len() ==> pred(s[spec_first(s, pred)]),
    decreases s.len(),
{
    if s.len() > 0 && !pred(s[0]) {
        let rest = s.drop_first();
        lemma_first(rest, pred);
        assert forall|k: int| 0 <= k < spec_first(s, pred) implies !pred(#[trigger] s[k]) by {
            if k > 0 {
                assert(s[k] == rest[k - 1]);
            }
        }
        if spec_first(s, pred) < s.len() {
            assert(s[spec_first(s, pred)] == rest[spec_first(rest, pred)]);
        }
    }
}

/// The first index at which the test holds is the one before which it
/// fails everywhere.
pub proof fn lemma_first_is<A>(s: Seq<A>, pred: spec_fn(A) -> bool, i: int)
    requires
        0 <= i <= s.len(),
        forall|k: int| 0 <= k < i ==> !pred(#[trigger] s[k]),
        i < s.len() ==> pred(s[i]),
    ensures
        spec_first(s, pred) == i,
{
    lemma_first(s, pred);
    let f = spec_first(s, pred);
    if f < i {
        assert(pred(s[f]));
    }
}

/// The first `limit` items, or all of them if there are fewer.
pub open spec fn spec_cap<A>(s: Seq<A>, limit: int) -> Seq<A> {
    if 0 <= limit < s.len() {
        s.take(limit)
    } else {
        s
    }
}

/// The sum of two times, held at the latest time that can be told.
pub open spec fn spec_later(now: u64, delay: u64) -> u64 {
    if now + delay > u64::MAX {
        u64::MAX
    } else {
        (now + delay) as u64
    }
}

/// Whether received content may be stored under the address `expected`:
/// it must not be larger than `max_size`, and it must hash to `expected`.
/// Size is told first.
pub open spec fn spec_check_content(content: Seq<u8>, expected: Seq<u8>, max_size: u32) -> Result<
    (),
    AtlasError,
> {
    if content.len() > max_size {
        Err(AtlasError::OversizeContent)
    } else if spec_hash160(content) != expected {
        Err(AtlasError::HashMismatch)
    } else {
        Ok(())
    }
}

/// Checks content that a peer sent for the address `expected`.
pub fn check_content(content: &[u8], expected: &Hash160, max_size: u32) -> (outcome: Result<
    (),
    AtlasError,
>)
    ensures
        outcome == spec_check_content(content@, expected@, max_size),
{
    if content.len() > max_size as usize {
        return Err(AtlasError::OversizeContent);
    }
    let actual = Hash160::from_data(content);
    if !actual.same(expected) {
        return Err(AtlasError::HashMismatch);
    }
    Ok(())
}

/// The bound on size is exact: content of exactly `max_size` bytes is not
/// refused for its size, content of one byte more is, whatever it hashes
/// to.
pub proof fn lemma_size_bound(content: Seq<u8>, expected: Seq<u8>, max_size: u32)
    ensures
        spec_check_content(content, expected, max_size) == Err::<(), AtlasError>(
            AtlasError::OversizeContent,
        ) <==> content.len() > max_size,
        content.len() == max_size && spec_hash160(content) == expected ==> spec_check_content(
            content,
            expected,
            max_size,
        ) is Ok,
        content.len() == max_size + 1 ==> spec_check_content(content, expected, max_size)
            == Err::<(), AtlasError>(AtlasError::OversizeContent),
{
}

/// The wait after the given number of failed attempts in a row: `base`
/// after the first, twice the wait before after each further one, and never
/// more than `max`.
pub open spec fn spec_backoff(base: u64, max: u64, attempts: nat) -> u64
    decreases attempts,
{
    if attempts <= 1 {
        if base < max {
            base
        } else {
            max
        }
    } else {
        let before = spec_backoff(base, max, (attempts - 1) as nat);
        if 2 * before < max {
            (2 * before) as u64
        } else {
            max
        }
    }
}

/// Once the wait has reached its ceiling, or is zero, it stays there.
pub proof fn lemma_backoff_settles(base: u64, max: u64, from: nat, to: nat)
    requires
        1 <= from <= to,
        spec_backoff(base, max, from) == max || spec_backoff(base, max, from) == 0,
    ensures
        spec_backoff(base, max, to) == spec_backoff(base, max, from),
    decreases to,
{
    if from < to {
        lemma_backoff_settles(base, max, from, (to - 1) as nat);
    }
}

/// The wait after `attempts` failed attempts in a row.
pub fn backoff(base: u64, max: u64, attempts: u32) -> (delay: u64)
    ensures
        delay == spec_backoff(base, max, attempts as nat),
{
    let mut delay: u64 = if base < max {
        base
    } else {
        max
    };
    let mut k: u32 = 1;
    while k < attempts && delay != 0 && delay < max
        invariant
            1 <= k,
            k <= attempts || k == 1,
            delay == spec_backoff(base, max, k as nat),
            delay <= max,
        decreases attempts - k,
    {
        delay = if delay > max / 2 {
            max
        } else if 2 * delay < max {
            2 * delay
        } else {
            max
        };
        k += 1;
    }
    proof {
        if k < attempts {
            lemma_backoff_settles(base, max, k as nat, attempts as nat);
        } else if attempts == 0 {
            assert(k == 1);
            assert(spec_backoff(base, max, 0) == spec_backoff(base, max, 1));
        } else {
            assert(k == attempts);
        }
    }
    delay
}

/// What is known of one peer: how often it failed, and until when it is
/// held to be unresponsive.
#[derive(Clone, Copy, Debug, PartialEq, Eq)]
pub struct PeerRecord {
    pub peer: u64,
    pub penalty: u32,
    pub unresponsive_until: u64,
}

/// The test that picks the record of `peer`.
pub open spec fn spec_is_peer(peer: u64) -> spec_fn(PeerRecord) -> bool {
    |record: PeerRecord| record.peer == peer
}

/// The test that picks the peers that are not held to be unresponsive at
/// the time `now`.
pub open spec fn spec_is_responsive(now: u64) -> spec_fn(PeerRecord) -> bool {
    |record: PeerRecord| record.unresponsive_until <= now
}

/// The test that picks the peers that are held to be unresponsive at the
/// time `now`.
pub open spec fn spec_is_unresponsive(now: u64) -> spec_fn(PeerRecord) -> bool {
    |record: PeerRecord| record.unresponsive_until > now
}

/// The peers of the records, in their order.
pub open spec fn spec_ids(records: Seq<PeerRecord>) -> Seq<u64> {
    Seq::new(records.len(), |i: int| records[i].peer)
}

/// The records after `peer` connected: its record is new again, or made.
pub open spec fn spec_register(records: Seq<PeerRecord>, peer: u64) -> Seq<PeerRecord> {
    let i = spec_first(records, spec_is_peer(peer));
    let fresh = PeerRecord { peer, penalty: 0, unresponsive_until: 0 };
    if i < records.len() {
        records.update(i, fresh)
    } else {
        records.push(fresh)
    }
}

/// The records after `peer` failed at the time `now`: it has one more
/// penalty, and is held to be unresponsive for the time `wait`. A peer
/// without a record gets none.
pub open spec fn spec_penalize(records: Seq<PeerRecord>, peer: u64, now: u64, wait: u64) -> Seq<
    PeerRecord,
> {
    let i = spec_first(records, spec_is_peer(peer));
    if i < records.len() {
        records.update(
            i,
            PeerRecord {
                peer,
                penalty: if records[i].penalty < u32::MAX {
                    (records[i].penalty + 1) as u32
                } else {
                    u32::MAX
                },
                unresponsive_until: spec_later(now, wait),
            },
        )
    } else {
        records
    }
}

/// The peers to ask in a cycle: those that are not held to be unresponsive
/// first, then the others, each group in the order of the records, and no
/// more than `limit` in all.
pub open spec fn spec_select(records: Seq<PeerRecord>, now: u64, limit: int) -> Seq<u64> {
    spec_cap(
        spec_ids(records.filter(spec_is_responsive(now))) + spec_ids(
            records.filter(spec_is_unresponsive(now)),
        ),
        limit,
    )
}

/// The records in a round: those from the index `offset` on, counted
/// around the table, and then those before it.
pub open spec fn spec_rotate(records: Seq<PeerRecord>, offset: int) -> Seq<PeerRecord> {
    if records.len() == 0 {
        records
    } else {
        records.skip(offset % (records.len() as int)) + records.take(
            offset % (records.len() as int),
        )
    }
}

/// The table of peers: kept by the downloader alone, read when it picks
/// the peers of a cycle.
#[derive(Debug)]
pub struct PeerTable {
    pub records: Vec<PeerRecord>,
}

impl PeerTable {
    /// The table without peers.
    pub fn new() -> (table: PeerTable)
        ensures
            table.records@ == Seq::<PeerRecord>::empty(),
    {
        PeerTable { records: Vec::new() }
    }

    /// Where the record of `peer` is.
    fn find(&self, peer: u64) -> (index: usize)
        ensures
            index == spec_first(self.records@, spec_is_peer(peer)),
            index <= self.records@.len(),
    {
        let mut i: usize = 0;
        while i < self.records.len()
            invariant
                i <= self.records.len(),
                forall|k: int| 0 <= k < i ==> (#[trigger] self.records@[k]).peer != peer,
            decreases self.records.len() - i,
        {
            if self.records[i].peer == peer {
                proof {
                    lemma_first_is(self.records@, spec_is_peer(peer), i as int);
                }
                return i;
            }
            i += 1;
        }
        proof {
            lemma_first_is(self.records@, spec_is_peer(peer), i as int);
        }
        i
    }

    /// Notes that `peer` connected: what was held against it is forgotten.
    pub fn register(&mut self, peer: u64)
        ensures
            final(self).records@ == spec_register(old(self).records@, peer),
    {
        let i = self.find(peer);
        let fresh = PeerRecord { peer, penalty: 0, unresponsive_until: 0 };
        if i < self.records.len() {
            self.records.set(i, fresh);
        } else {
            self.records.push(fresh);
        }
    }

    /// Notes that `peer` failed at the time `now`.
    pub fn penalize(&mut self, peer: u64, now: u64, wait: u64)
        ensures
            final(self).records@ == spec_penalize(old(self).records@, peer, now, wait),
    {
        let i = self.find(peer);
        if i < self.records.len() {
            let penalty = self.records[i].penalty;
            let record = PeerRecord {
                peer,
                penalty: if penalty < u32::MAX {
                    penalty + 1
                } else {
                    u32::MAX
                },
                unresponsive_until: now.saturating_add(wait),
            };
            self.records.set(i, record);
        }
    }

    /// The record of `peer`, if it has one.
    pub fn record_of(&self, peer: u64) -> (record: Option<PeerRecord>)
        ensures
            record is Some <==> spec_first(self.records@, spec_is_peer(peer)) < self.records@.len(),
            record is Some ==> record->0 == self.records@[spec_first(
                self.records@,
                spec_is_peer(peer),
            )],
    {
        let i = self.find(peer);
        if i < self.records.len() {
            Some(self.records[i])
        } else {
            None
        }
    }

    /// Appends to `out` the peers that are responsive at `now`, or those
    /// that are not, until `out` holds `limit` peers.
    fn append_group(&self, out: &mut Vec<u64>, now: u64, responsive: bool, limit: usize)
        ensures
            final(out)@ == spec_cap(
                old(out)@ + spec_ids(
                    self.records@.filter(
                        if responsive {
                            spec_is_responsive(now)
                        } else {
                            spec_is_unresponsive(now)
                        },
                    ),
                ),
                if old(out)@.len() <= limit {
                    limit as int
                } else {
                    old(out)@.len() as int
                },
            ),
    {
        let ghost before = out@;
        let ghost pred = if responsive {
            spec_is_responsive(now)
        } else {
            spec_is_unresponsive(now)
        };
        let ghost bound = if before.len() <= limit {
            limit as int
        } else {
            before.len() as int
        };
        let mut i: usize = 0;
        proof {
            self.records@.take(0).lemma_filter_len(pred);
            assert(out@ =~= spec_cap(
                before + spec_ids(self.records@.take(0).filter(pred)),
                bound,
            ));
        }
        while i < self.records.len()
            invariant
                i <= self.records.len(),
                before.len() <= bound,
                bound == if before.len() <= limit {
                    limit as int
                } else {
                    before.len() as int
                },
                pred == if responsive {
                    spec_is_responsive(now)
                } else {
                    spec_is_unresponsive(now)
                },
                out@ == spec_cap(
                    before + spec_ids(self.records@.take(i as int).filter(pred)),
                    bound,
                ),
            decreases self.records.len() - i,
        {
            let record = self.records[i];
            let ghost front = self.records@.take(i as int).filter(pred);
            proof {
                self.records@.take(i as int).lemma_filter_push(self.records@[i as int], pred);
                assert(self.records@.take(i as int).push(self.records@[i as int])
                    =~= self.records@.take(i + 1));
            }
            let wanted = if responsive {
                record.unresponsive_until <= now
            } else {
                record.unresponsive_until > now
            };
            if wanted {
                proof {
                    assert(spec_ids(front.push(record)) =~= spec_ids(front).push(record.peer));
                    assert(before + spec_ids(front).push(record.peer) =~= (before + spec_ids(
                        front,
                    )).push(record.peer));
                }
                if out.len() < limit {
                    out.push(record.peer);
                    assert(out@ =~= spec_cap(before + spec_ids(front.push(record)), bound));
                } else {
                    assert(out@ =~= spec_cap(before + spec_ids(front.push(record)), bound));
                }
            }
            i += 1;
        }
        assert(self.records@.take(i as int) =~= self.records@);
    }

    /// The table with its records in a round that starts at `offset`.
    pub fn rotated(&self, offset: usize) -> (table: PeerTable)
        ensures
            table.records@ == spec_rotate(self.records@, offset as int),
    {
        let mut records: Vec<PeerRecord> = Vec::new();
        let count = self.records.len();
        if count == 0 {
            assert(records@ =~= self.records@);
            return PeerTable { records };
        }
        let start = offset % count;
        let mut i: usize = start;
        while i < count
            invariant
                start <= i <= count,
                count == self.records.len(),
                records@ == self.records@.subrange(start as int, i as int),
            decreases count - i,
        {
            records.push(self.records[i]);
            i += 1;
        }
        assert(records@ =~= self.records@.skip(start as int));
        let mut k: usize = 0;
        while k < start
            invariant
                k <= start < count,
                count == self.records.len(),
                records@ == self.records@.skip(start as int) + self.records@.take(k as int),
            decreases start - k,
        {
            records.push(self.records[k]);
            k += 1;
            assert(records@ =~= self.records@.skip(start as int) + self.records@.take(k as int));
        }
        PeerTable { records }
    }

    /// The peers to ask in a cycle that starts at the time `now`, taken in
    /// a round that starts at `offset`: with an offset that moves on from
    /// cycle to cycle, each peer comes first in its turn.
    pub fn select_in_round(&self, now: u64, limit: usize, offset: usize) -> (peers: Vec<u64>)
        ensures
            peers@ == spec_select(spec_rotate(self.records@, offset as int), now, limit as int),
    {
        self.rotated(offset).select(now, limit)
    }

    /// The peers to ask in a cycle that starts at the time `now`.
    pub fn select(&self, now: u64, limit: usize) -> (peers: Vec<u64>)
        ensures
            peers@ == spec_select(self.records@, now, limit as int),
    {
        let mut peers: Vec<u64> = Vec::new();
        self.append_group(&mut peers, now, true, limit);
        let ghost first = spec_ids(self.records@.filter(spec_is_responsive(now)));
        let ghost second = spec_ids(self.records@.filter(spec_is_unresponsive(now)));
        assert(Seq::<u64>::empty() + first =~= first);
        self.append_group(&mut peers, now, false, limit);
        assert(peers@ =~= spec_cap(first + second, limit as int));
        peers
    }
}

/// What is kept of an instance that could not be fetched: how often in a
/// row, and when it is due again.
#[derive(Debug)]
pub struct RetryEntry {
    pub instance: AttachmentInstance,
    pub attempts: u32,
    pub next_eligible: u64,
}

/// What a retry entry is, as plain values.
pub struct RetryView {
    pub instance: InstanceView,
    pub attempts: u32,
    pub next_eligible: u64,
}

impl View for RetryEntry {
    type V = RetryView;

    open spec fn view(&self) -> RetryView {
        RetryView {
            instance: self.instance@,
            attempts: self.attempts,
            next_eligible: self.next_eligible,
        }
    }
}

/// The test that picks the entry of `instance`.
pub open spec fn spec_is_for(instance: InstanceView) -> spec_fn(RetryView) -> bool {
    |entry: RetryView| entry.instance == instance
}

/// How often in a row the instance could not be fetched.
pub open spec fn spec_attempts(retries: Seq<RetryView>, instance: InstanceView) -> u32 {
    let i = spec_first(retries, spec_is_for(instance));
    if i < retries.len() {
        retries[i].attempts
    } else {
        0
    }
}

/// Whether the instance may be tried at the time `now`: it has no entry,
/// or the time of its entry has come.
pub open spec fn spec_due(retries: Seq<RetryView>, instance: InstanceView, now: u64) -> bool {
    let i = spec_first(retries, spec_is_for(instance));
    i < retries.len() ==> retries[i].next_eligible <= now
}

/// The test that picks the instances that may be tried at the time `now`.
pub open spec fn spec_is_due(retries: Seq<RetryView>, now: u64) -> spec_fn(InstanceView) -> bool {
    |instance: InstanceView| spec_due(retries, instance, now)
}

/// The entry of an instance that failed once more at the time `now`.
pub open spec fn spec_failed_entry(
    retries: Seq<RetryView>,
    instance: InstanceView,
    now: u64,
    base: u64,
    max: u64,
) -> RetryView {
    let attempts: u32 = if spec_attempts(retries, instance) < u32::MAX {
        (spec_attempts(retries, instance) + 1) as u32
    } else {
        u32::MAX
    };
    RetryView {
        instance,
        attempts,
        next_eligible: spec_later(now, spec_backoff(base, max, attempts as nat)),
    }
}

/// The entries after the instance failed once more at the time `now`.
pub open spec fn spec_record_failure(
    retries: Seq<RetryView>,
    instance: InstanceView,
    now: u64,
    base: u64,
    max: u64,
) -> Seq<RetryView> {
    let i = spec_first(retries, spec_is_for(instance));
    if i < retries.len() {
        retries.update(i, spec_failed_entry(retries, instance, now, base, max))
    } else {
        retries.push(spec_failed_entry(retries, instance, now, base, max))
    }
}

/// The entries without that of the instance.
pub open spec fn spec_clear_retry(retries: Seq<RetryView>, instance: InstanceView) -> Seq<
    RetryView,
> {
    let i = spec_first(retries, spec_is_for(instance));
    if i < retries.len() {
        retries.remove(i)
    } else {
        retries
    }
}

/// The test that picks the entries of the given instances.
pub open spec fn spec_is_among(instances: Seq<InstanceView>) -> spec_fn(RetryView) -> bool {
    |entry: RetryView| instances.contains(entry.instance)
}

/// The entries of the instances that are still pending: what is kept of an
/// instance is dropped once the instance is resolved or retracted.
pub open spec fn spec_prune(retries: Seq<RetryView>, pending: Seq<InstanceView>) -> Seq<RetryView> {
    retries.filter(spec_is_among(pending))
}

/// Whether `wanted` is among `instances`.
fn contains_instance(instances: &Vec<AttachmentInstance>, wanted: &AttachmentInstance) -> (found:
    bool)
    ensures
        found == spec_instance_views(instances@).contains(wanted@),
{
    let ghost views = spec_instance_views(instances@);
    let mut i: usize = 0;
    while i < instances.len()
        invariant
            i <= instances.len(),
            views == spec_instance_views(instances@),
            forall|k: int| 0 <= k < i ==> views[k] != wanted@,
        decreases instances.len() - i,
    {
        if instances[i].same(wanted) {
            assert(views[i as int] == wanted@);
            return true;
        }
        i += 1;
    }
    false
}

/// The table of retries: one entry for each instance that could not be
/// fetched yet.
#[derive(Debug)]
pub struct RetryTable {
    pub entries: Vec<RetryEntry>,
}

impl View for RetryTable {
    type V = Seq<RetryView>;

    open spec fn view(&self) -> Seq<RetryView> {
        Seq::new(self.entries@.len(), |i: int| self.entries@[i]@)
    }
}

impl RetryTable {
    /// The table without entries.
    pub fn new() -> (table: RetryTable)
        ensures
            table@ == Seq::<RetryView>::empty(),
    {
        let table = RetryTable { entries: Vec::new() };
        assert(table@ =~= Seq::<RetryView>::empty());
        table
    }

    /// Where the entry of `instance` is.
    fn find(&self, instance: &AttachmentInstance) -> (index: usize)
        ensures
            index == spec_first(self@, spec_is_for(instance@)),
            index <= self.entries@.len(),
    {
        let mut i: usize = 0;
        while i < self.entries.len()
            invariant
                i <= self.entries.len(),
                forall|k: int| 0 <= k < i ==> (#[trigger] self@[k]).instance != instance@,
            decreases self.entries.len() - i,
        {
            if self.entries[i].instance.same(instance) {
                proof {
                    assert(self@[i as int].instance == instance@);
                    lemma_first_is(self@, spec_is_for(instance@), i as int);
                }
                return i;
            }
            i += 1;
        }
        proof {
            lemma_first_is(self@, spec_is_for(instance@), i as int);
        }
        i
    }

    /// How often in a row the instance could not be fetched.
    pub fn attempts(&self, instance: &AttachmentInstance) -> (attempts: u32)
        ensures
            attempts == spec_attempts(self@, instance@),
    {
        let i = self.find(instance);
        if i < self.entries.len() {
            self.entries[i].attempts
        } else {
            0
        }
    }

    /// Whether the instance may be tried at the time `now`.
    pub fn is_due(&self, instance: &AttachmentInstance, now: u64) -> (due: bool)
        ensures
            due == spec_due(self@, instance@, now),
    {
        let i = self.find(instance);
        if i < self.entries.len() {
            self.entries[i].next_eligible <= now
        } else {
            true
        }
    }

    /// Notes that the instance could not be fetched at the time `now`: it
    /// is due again after a wait that doubles with each failure in a row.
    /// Returns the number of failures in a row.
    pub fn record_failure(
        &mut self,
        instance: &AttachmentInstance,
        now: u64,
        base: u64,
        max: u64,
    ) -> (attempts: u32)
        ensures
            final(self)@ == spec_record_failure(old(self)@, instance@, now, base, max),
            attempts == spec_failed_entry(old(self)@, instance@, now, base, max).attempts,
    {
        let ghost before = self@;
        let i = self.find(instance);
        let so_far = if i < self.entries.len() {
            self.entries[i].attempts
        } else {
            0
        };
        let attempts = if so_far < u32::MAX {
            so_far + 1
        } else {
            u32::MAX
        };
        let entry = RetryEntry {
            instance: instance.clone(),
            attempts,
            next_eligible: now.saturating_add(backoff(base, max, attempts)),
        };
        assert(entry@ == spec_failed_entry(before, instance@, now, base, max));
        if i < self.entries.len() {
            self.entries.set(i, entry);
            assert(self@ =~= before.update(i as int, entry@));
        } else {
            self.entries.push(entry);
            assert(self@ =~= before.push(entry@));
        }
        attempts
    }

    /// Drops the entries of the instances that are no longer pending.
    pub fn prune(&mut self, pending: &Vec<AttachmentInstance>)
        ensures
            final(self)@ == spec_prune(old(self)@, spec_instance_views(pending@)),
    {
        let ghost before = self@;
        let ghost pred = spec_is_among(spec_instance_views(pending@));
        let mut kept: Vec<RetryEntry> = Vec::new();
        let ghost mut kept_views: Seq<RetryView> = Seq::empty();
        let mut i: usize = 0;
        proof {
            before.take(0).lemma_filter_len(pred);
            assert(kept_views =~= before.take(0).filter(pred));
        }
        while i < self.entries.len()
            invariant
                i <= self.entries.len(),
                self@ == before,
                pred == spec_is_among(spec_instance_views(pending@)),
                kept_views == before.take(i as int).filter(pred),
                kept@.len() == kept_views.len(),
                forall|k: int| 0 <= k < kept@.len() ==> (#[trigger] kept@[k])@ == kept_views[k],
            decreases self.entries.len() - i,
        {
            let entry = &self.entries[i];
            proof {
                before.take(i as int).lemma_filter_push(before[i as int], pred);
                assert(before.take(i as int).push(before[i as int]) =~= before.take(i + 1));
            }
            if contains_instance(pending, &entry.instance) {
                kept.push(
                    RetryEntry {
                        instance: entry.instance.clone(),
                        attempts: entry.attempts,
                        next_eligible: entry.next_eligible,
                    },
                );
                proof {
                    kept_views = kept_views.push(before[i as int]);
                }
            }
            i += 1;
        }
        assert(before.take(i as int) =~= before);
        self.entries = kept;
        assert(self@ =~= kept_views);
    }

    /// Forgets the failures of the instance.
    pub fn clear(&mut self, instance: &AttachmentInstance)
        ensures
            final(self)@ == spec_clear_retry(old(self)@, instance@),
    {
        let ghost before = self@;
        let i = self.find(instance);
        if i < self.entries.len() {
            self.entries.remove(i);
            assert(self@ =~= before.remove(i as int));
        }
    }
}

/// The instances to work on in a cycle that starts at the time `now`: the
/// pending instances that are due, in their order, and no more than
/// `limit`.
pub open spec fn spec_working_set(
    pending: Seq<InstanceView>,
    retries: Seq<RetryView>,
    now: u64,
    limit: int,
) -> Seq<InstanceView> {
    spec_cap(pending.filter(spec_is_due(retries, now)), limit)
}

/// Picks the instances to work on in a cycle that starts at the time `now`.
pub fn working_set(
    pending: &Vec<AttachmentInstance>,
    retries: &RetryTable,
    now: u64,
    limit: usize,
) -> (set: Vec<AttachmentInstance>)
    ensures
        spec_instance_views(set@) == spec_working_set(
            spec_instance_views(pending@),
            retries@,
            now,
            limit as int,
        ),
{
    let ghost all = spec_instance_views(pending@);
    let ghost pred = spec_is_due(retries@, now);
    let mut set: Vec<AttachmentInstance> = Vec::new();
    let mut i: usize = 0;
    proof {
        all.take(0).lemma_filter_len(pred);
        assert(spec_instance_views(set@) =~= spec_cap(all.take(0).filter(pred), limit as int));
    }
    while i < pending.len()
        invariant
            i <= pending.len(),
            all == spec_instance_views(pending@),
            pred == spec_is_due(retries@, now),
            spec_instance_views(set@) == spec_cap(all.take(i as int).filter(pred), limit as int),
        decreases pending.len() - i,
    {
        let ghost front = all.take(i as int).filter(pred);
        let ghost views = spec_instance_views(set@);
        proof {
            all.take(i as int).lemma_filter_push(all[i as int], pred);
            assert(all.take(i as int).push(all[i as int]) =~= all.take(i + 1));
        }
        if retries.is_due(&pending[i], now) {
            if set.len() < limit {
                set.push(pending[i].clone());
                assert(spec_instance_views(set@) =~= views.push(all[i as int]));
                assert(spec_instance_views(set@) =~= spec_cap(
                    front.push(all[i as int]),
                    limit as int,
                ));
            } else {
                assert(views =~= spec_cap(front.push(all[i as int]), limit as int));
            }
        }
        i += 1;
    }
    assert(all.take(i as int) =~= all);
    set
}

/// The pages that hold the instances: each page once, in the order in
/// which the instances come to it.
pub open spec fn spec_pages(instances: Seq<InstanceView>) -> Seq<u32>
    decreases instances.len(),
{
    if instances.len() == 0 {
        Seq::empty()
    } else {
        let front = spec_pages(instances.drop_last());
        let page = instances.last().page_index;
        if front.contains(page) {
            front
        } else {
            front.push(page)
        }
    }
}

/// Whether `page` is among `pages`.
fn contains_page(pages: &Vec<u32>, page: u32) -> (found: bool)
    ensures
        found == pages@.contains(page),
{
    let mut i: usize = 0;
    while i < pages.len()
        invariant
            i <= pages.len(),
            forall|k: int| 0 <= k < i ==> pages@[k] != page,
        decreases pages.len() - i,
    {
        if pages[i] == page {
            return true;
        }
        i += 1;
    }
    false
}

/// The pages whose inventory is needed to fetch the instances.
pub fn pages_needed(instances: &Vec<AttachmentInstance>) -> (pages: Vec<u32>)
    ensures
        pages@ == spec_pages(spec_instance_views(instances@)),
{
    let ghost all = spec_instance_views(instances@);
    let mut pages: Vec<u32> = Vec::new();
    let mut i: usize = 0;
    assert(all.take(0) =~= Seq::<InstanceView>::empty());
    while i < instances.len()
        invariant
            i <= instances.len(),
            all == spec_instance_views(instances@),
            pages@ == spec_pages(all.take(i as int)),
        decreases instances.len() - i,
    {
        proof {
            assert(all.take(i + 1).drop_last() =~= all.take(i as int));
            assert(all.take(i + 1).last() == all[i as int]);
        }
        let page = instances[i].page_index;
        if !contains_page(&pages, page) {
            pages.push(page);
        }
        i += 1;
    }
    assert(all.take(i as int) =~= all);
    pages
}

/// The pages in batches of `size`, the last one maybe shorter. With a size
/// of zero no batch can be made.
pub open spec fn spec_batches(pages: Seq<u32>, size: int) -> Seq<Seq<u32>>
    decreases pages.len(),
{
    if pages.len() == 0 || size <= 0 {
        Seq::empty()
    } else if pages.len() <= size {
        seq![pages]
    } else {
        seq![pages.take(size)] + spec_batches(pages.skip(size), size)
    }
}

/// What the batches hold, as plain values.
pub open spec fn spec_batch_views(batches: Seq<Vec<u32>>) -> Seq<Seq<u32>> {
    Seq::new(batches.len(), |i: int| batches[i]@)
}

/// Cuts the pages into the requests that ask for them: no request asks for
/// more than `size` pages.
pub fn batches(pages: &Vec<u32>, size: usize) -> (out: Vec<Vec<u32>>)
    ensures
        spec_batch_views(out@) == spec_batches(pages@, size as int),
{
    let mut out: Vec<Vec<u32>> = Vec::new();
    if size == 0 {
        assert(spec_batch_views(out@) =~= spec_batches(pages@, size as int));
        return out;
    }
    let mut start: usize = 0;
    proof {
        assert(pages@.skip(0) =~= pages@);
        assert(spec_batch_views(out@) + spec_batches(pages@, size as int) =~= spec_batches(
            pages@,
            size as int,
        ));
    }
    while start < pages.len()
        invariant
            start <= pages.len(),
            size > 0,
            spec_batches(pages@, size as int) == spec_batch_views(out@) + spec_batches(
                pages@.skip(start as int),
                size as int,
            ),
        decreases pages.len() - start,
    {
        let end: usize = if pages.len() - start <= size {
            pages.len()
        } else {
            start + size
        };
        let mut batch: Vec<u32> = Vec::new();
        let mut k: usize = start;
        while k < end
            invariant
                start <= k <= end <= pages.len(),
                batch@ == pages@.subrange(start as int, k as int),
            decreases end - k,
        {
            batch.push(pages[k]);
            k += 1;
        }
        let ghost rest = pages@.skip(start as int);
        let ghost done = spec_batch_views(out@);
        proof {
            if rest.len() <= size {
                assert(batch@ =~= rest);
                assert(pages@.skip(end as int) =~= Seq::<u32>::empty());
            } else {
                assert(batch@ =~= rest.take(size as int));
                assert(rest.skip(size as int) =~= pages@.skip(end as int));
            }
        }
        out.push(batch);
        proof {
            assert(spec_batch_views(out@) =~= done.push(batch@));
            assert(spec_batch_views(out@) + spec_batches(pages@.skip(end as int), size as int)
                =~= done + spec_batches(rest, size as int));
        }
        start = end;
    }
    assert(spec_batch_views(out@) + Seq::<Seq<u32>>::empty() =~= spec_batch_views(out@));
    out
}

/// One page of a peer's inventory: for each slot, whether the peer claims
/// to have the attachment.
#[derive(Debug, PartialEq, Eq)]
pub struct InventoryPage {
    pub index: u32,
    pub bits: Vec<bool>,
}

/// What a page of an inventory is, as plain values.
pub struct PageView {
    pub index: u32,
    pub bits: Seq<bool>,
}

impl View for InventoryPage {
    type V = PageView;

    open spec fn view(&self) -> PageView {
        PageView { index: self.index, bits: self.bits@ }
    }
}

/// The pages of the views of `pages`.
pub open spec fn spec_page_views(pages: Seq<InventoryPage>) -> Seq<PageView> {
    Seq::new(pages.len(), |i: int| pages[i]@)
}

/// What one peer answered to one request for its inventory.
#[derive(Debug, PartialEq, Eq)]
pub struct PeerInventory {
    pub peer: u64,
    pub pages: Vec<InventoryPage>,
}

/// What an answer is, as plain values.
pub struct InventoryView {
    pub peer: u64,
    pub pages: Seq<PageView>,
}

impl View for PeerInventory {
    type V = InventoryView;

    open spec fn view(&self) -> InventoryView {
        InventoryView { peer: self.peer, pages: spec_page_views(self.pages@) }
    }
}

/// The views of the answers, in their order.
pub open spec fn spec_inventory_views(inventories: Seq<PeerInventory>) -> Seq<InventoryView> {
    Seq::new(inventories.len(), |i: int| inventories[i]@)
}

/// Whether the page is the page `page_index` and marks the slot
/// `position`.
pub open spec fn spec_page_claims(page: PageView, page_index: u32, position: u32) -> bool {
    page.index == page_index && position < page.bits.len() && page.bits[position as int]
}

/// Whether the answer claims the attachment of the slot.
pub open spec fn spec_claims(inventory: InventoryView, page_index: u32, position: u32) -> bool {
    exists|i: int|
        0 <= i < inventory.pages.len() && spec_page_claims(
            #[trigger] inventory.pages[i],
            page_index,
            position,
        )
}

/// A peer that sent oversize content for an address: it is not asked for
/// that address again.
#[derive(Clone, Copy, Debug, PartialEq, Eq)]
pub struct RefusedSource {
    pub peer: u64,
    pub content_hash: Hash160,
}

/// What a refused source is, as plain values.
pub struct RefusedView {
    pub peer: u64,
    pub content_hash: Seq<u8>,
}

impl View for RefusedSource {
    type V = RefusedView;

    open spec fn view(&self) -> RefusedView {
        RefusedView { peer: self.peer, content_hash: self.content_hash@ }
    }
}

/// The views of the refused sources, in their order.
pub open spec fn spec_refused_views(refused: Seq<RefusedSource>) -> Seq<RefusedView> {
    Seq::new(refused.len(), |i: int| refused[i]@)
}

/// Whether `peer` was refused for the address `content_hash`.
pub open spec fn spec_refused(refused: Seq<RefusedView>, peer: u64, content_hash: Seq<u8>) -> bool {
    exists|i: int|
        0 <= i < refused.len() && (#[trigger] refused[i]).peer == peer && refused[i].content_hash
            == content_hash
}

/// Whether the answer makes its peer a candidate for the instance: it
/// claims the attachment of the slot, and the peer was not refused for the
/// address.
pub open spec fn spec_candidate(
    refused: Seq<RefusedView>,
    inventory: InventoryView,
    instance: InstanceView,
) -> bool {
    spec_claims(inventory, instance.page_index, instance.position_in_page) && !spec_refused(
        refused,
        inventory.peer,
        instance.content_hash,
    )
}

/// The test that picks the answers that make their peer a candidate.
pub open spec fn spec_is_candidate(refused: Seq<RefusedView>, instance: InstanceView) -> spec_fn(
    InventoryView,
) -> bool {
    |inventory: InventoryView| spec_candidate(refused, inventory, instance)
}

/// The index of the first answer, from the index `from` on, that makes its
/// peer a candidate for the instance; the number of answers if there is
/// none.
pub open spec fn spec_next_candidate(
    inventories: Seq<InventoryView>,
    refused: Seq<RefusedView>,
    instance: InstanceView,
    from: int,
) -> int {
    if 0 <= from <= inventories.len() {
        from + spec_first(inventories.skip(from), spec_is_candidate(refused, instance))
    } else {
        inventories.len() as int
    }
}

/// Whether the answer claims the attachment of the slot.
pub fn claims(inventory: &PeerInventory, page_index: u32, position: u32) -> (claimed: bool)
    ensures
        claimed == spec_claims(inventory@, page_index, position),
{
    let mut i: usize = 0;
    while i < inventory.pages.len()
        invariant
            i <= inventory.pages.len(),
            forall|k: int|
                0 <= k < i ==> !spec_page_claims(
                    #[trigger] inventory@.pages[k],
                    page_index,
                    position,
                ),
        decreases inventory.pages.len() - i,
    {
        let page = &inventory.pages[i];
        if page.index == page_index && (position as usize) < page.bits.len()
            && page.bits[position as usize] {
            assert(spec_page_claims(inventory@.pages[i as int], page_index, position));
            return true;
        }
        i += 1;
    }
    false
}

/// Whether `peer` was refused for the address `content_hash`.
pub fn is_refused(refused: &Vec<RefusedSource>, peer: u64, content_hash: &Hash160) -> (found: bool)
    ensures
        found == spec_refused(spec_refused_views(refused@), peer, content_hash@),
{
    let ghost views = spec_refused_views(refused@);
    let mut i: usize = 0;
    while i < refused.len()
        invariant
            i <= refused.len(),
            views == spec_refused_views(refused@),
            forall|k: int|
                0 <= k < i ==> !((#[trigger] views[k]).peer == peer && views[k].content_hash
                    == content_hash@),
        decreases refused.len() - i,
    {
        if refused[i].peer == peer && refused[i].content_hash.same(content_hash) {
            assert(views[i as int].peer == peer && views[i as int].content_hash == content_hash@);
            return true;
        }
        i += 1;
    }
    false
}

/// The first answer, from the index `from` on, that makes its peer a
/// candidate for the instance.
pub fn next_candidate(
    inventories: &Vec<PeerInventory>,
    refused: &Vec<RefusedSource>,
    instance: &AttachmentInstance,
    from: usize,
) -> (index: usize)
    ensures
        index == spec_next_candidate(
            spec_inventory_views(inventories@),
            spec_refused_views(refused@),
            instance@,
            from as int,
        ),
        index <= inventories@.len(),
        from <= inventories@.len() ==> from <= index,
{
    if from > inventories.len() {
        return inventories.len();
    }
    let ghost all = spec_inventory_views(inventories@);
    let ghost pred = spec_is_candidate(spec_refused_views(refused@), instance@);
    let mut i: usize = from;
    while i < inventories.len()
        invariant
            from <= i <= inventories.len(),
            all == spec_inventory_views(inventories@),
            pred == spec_is_candidate(spec_refused_views(refused@), instance@),
            forall|k: int| from <= k < i ==> !spec_candidate(spec_refused_views(refused@), #[trigger] all[k], instance@),
        decreases inventories.len() - i,
    {
        if claims(&inventories[i], instance.page_index, instance.position_in_page) && !is_refused(
            refused,
            inventories[i].peer,
            &instance.content_hash,
        ) {
            proof {
                assert(spec_candidate(spec_refused_views(refused@), all[i as int], instance@));
                assert forall|k: int| 0 <= k < i - from implies !pred(
                    #[trigger] all.skip(from as int)[k],
                ) by {
                    assert(all.skip(from as int)[k] == all[from + k]);
                }
                lemma_first_is(all.skip(from as int), pred, i - from);
            }
            return i;
        }
        i += 1;
    }
    proof {
        assert forall|k: int| 0 <= k < i - from implies !pred(
            #[trigger] all.skip(from as int)[k],
        ) by {
            assert(all.skip(from as int)[k] == all[from + k]);
        }
        lemma_first_is(all.skip(from as int), pred, i - from);
    }
    i
}

/// The bounds of the downloader.
#[derive(Clone, Copy, Debug, PartialEq, Eq)]
pub struct DownloaderConfig {
    /// Most instances to work on in one cycle.
    pub max_working_set: usize,
    /// Most peers to ask in one cycle.
    pub max_peers: usize,
    /// Most pages to ask for in one request.
    pub pages_per_request: usize,
    /// Most bytes that an attachment may hold.
    pub attachments_max_size: u32,
    /// The wait after the first failure to fetch an instance.
    pub base_backoff: u64,
    /// The longest wait between two attempts to fetch an instance.
    pub max_backoff: u64,
    /// The number of failures in a row from which an instance is reported
    /// as stalled.
    pub retry_ceiling: u32,
    /// The time for which a peer that failed is held to be unresponsive.
    pub peer_backoff: u64,
}

impl DownloaderConfig {
    /// The bounds for attachments of at most `attachments_max_size` bytes:
    /// 32 instances and 4 peers in a cycle, requests of at most
    /// `MAX_ATTACHMENT_INV_PAGES_PER_REQUEST` pages, waits of 30 to 3600
    /// units of time, a ceiling of 8 failures in a row, and 300 units of
    /// time for which a failed peer is held to be unresponsive.
    pub fn new(attachments_max_size: u32) -> (config: DownloaderConfig)
        ensures
            config == (DownloaderConfig {
                max_working_set: 32,
                max_peers: 4,
                pages_per_request: crate::MAX_ATTACHMENT_INV_PAGES_PER_REQUEST,
                attachments_max_size,
                base_backoff: 30,
                max_backoff: 3600,
                retry_ceiling: 8,
                peer_backoff: 300,
            }),
    {
        DownloaderConfig {
            max_working_set: 32,
            max_peers: 4,
            pages_per_request: crate::MAX_ATTACHMENT_INV_PAGES_PER_REQUEST,
            attachments_max_size,
            base_backoff: 30,
            max_backoff: 3600,
            retry_ceiling: 8,
            peer_backoff: 300,
        }
    }
}

/// Where a cycle stands.
#[derive(Clone, Copy, Debug, PartialEq, Eq, Structural)]
pub enum Phase {
    /// No cycle is under way.
    Idle,
    /// A request for an inventory is out.
    AwaitInventory,
    /// The next instance is to be decided on.
    Ready,
    /// A request for content is out.
    AwaitContent,
}

/// What came back from outside.
#[derive(Debug, PartialEq, Eq)]
pub enum Event {
    /// Nothing was asked for: go on.
    Resume,
    /// The peer answered the request for its inventory.
    Inventory(Vec<InventoryPage>),
    /// The peer answered the request for content.
    Content(Vec<u8>),
    /// The peer could not be reached, or its answer could not be read.
    Failed,
}

/// What an event is, as plain values.
pub enum EventView {
    Resume,
    Inventory(Seq<PageView>),
    Content(Seq<u8>),
    Failed,
}

impl View for Event {
    type V = EventView;

    open spec fn view(&self) -> EventView {
        match *self {
            Event::Resume => EventView::Resume,
            Event::Inventory(pages) => EventView::Inventory(spec_page_views(pages@)),
            Event::Content(content) => EventView::Content(content@),
            Event::Failed => EventView::Failed,
        }
    }
}

/// What is to be done next.
#[derive(Debug, PartialEq, Eq)]
pub enum Action {
    /// Ask the peer for the inventory of the pages, and hand back its
    /// answer.
    RequestInventory { peer: u64, pages: Vec<u32> },
    /// Ask the peer for the content with the address, and hand back its
    /// answer.
    RequestContent { peer: u64, content_hash: Hash160 },
    /// The instance is resolved. Nothing is to be sent.
    Resolved { instance: AttachmentInstance },
    /// The instance could not be fetched in this cycle and stays pending.
    /// Nothing is to be sent. `stalled` says that the failures in a row
    /// have reached the ceiling.
    Deferred { instance: AttachmentInstance, attempts: u32, stalled: bool },
    /// The cycle is over.
    Finished,
}

/// What an action is, as plain values.
pub enum ActionView {
    RequestInventory { peer: u64, pages: Seq<u32> },
    RequestContent { peer: u64, content_hash: Seq<u8> },
    Resolved { instance: InstanceView },
    Deferred { instance: InstanceView, attempts: u32, stalled: bool },
    Finished,
}

impl View for Action {
    type V = ActionView;

    open spec fn view(&self) -> ActionView {
        match *self {
            Action::RequestInventory { peer, pages } => ActionView::RequestInventory {
                peer,
                pages: pages@,
            },
            Action::RequestContent { peer, content_hash } => ActionView::RequestContent {
                peer,
                content_hash: content_hash@,
            },
            Action::Resolved { instance } => ActionView::Resolved { instance: instance@ },
            Action::Deferred { instance, attempts, stalled } => ActionView::Deferred {
                instance: instance@,
                attempts,
                stalled,
            },
            Action::Finished => ActionView::Finished,
        }
    }
}

/// What the downloader holds, as plain values.
pub struct DownloaderView {
    pub config: DownloaderConfig,
    pub peers: Seq<PeerRecord>,
    pub retries: Seq<RetryView>,
    pub refused: Seq<RefusedView>,
    pub phase: Phase,
    pub rotation: int,
    pub working_set: Seq<InstanceView>,
    pub requests: Seq<Seq<u32>>,
    pub selected: Seq<u64>,
    pub peer_cursor: int,
    pub request_cursor: int,
    pub inventories: Seq<InventoryView>,
    pub instance_cursor: int,
    pub candidate_cursor: int,
}

/// Where a step leads: what the downloader and the database hold after
/// it, and what is to be done next.
pub struct Step {
    pub downloader: DownloaderView,
    pub db: DbView,
    pub action: ActionView,
}

/// One decision on the instance at the cursor. Past the last instance the
/// cycle is over. An instance that is resolved is reported and left
/// behind. For an instance that is pending the next candidate is asked for
/// its content; where there is none the instance is deferred and will be
/// due again after its wait.
pub open spec fn spec_fetch(d: DownloaderView, db: DbView, now: u64) -> Step {
    if !(0 <= d.instance_cursor < d.working_set.len()) {
        Step { downloader: DownloaderView { phase: Phase::Idle, ..d }, db, action: ActionView::Finished }
    } else {
        let instance = d.working_set[d.instance_cursor];
        let candidate = spec_next_candidate(d.inventories, d.refused, instance, d.candidate_cursor);
        if spec_resolved(db.contents, instance) {
            Step {
                downloader: DownloaderView {
                    phase: Phase::Ready,
                    retries: spec_clear_retry(d.retries, instance),
                    instance_cursor: d.instance_cursor + 1,
                    candidate_cursor: 0,
                    ..d
                },
                db,
                action: ActionView::Resolved { instance },
            }
        } else if candidate < d.inventories.len() {
            Step {
                downloader: DownloaderView {
                    phase: Phase::AwaitContent,
                    candidate_cursor: candidate,
                    ..d
                },
                db,
                action: ActionView::RequestContent {
                    peer: d.inventories[candidate].peer,
                    content_hash: instance.content_hash,
                },
            }
        } else {
            let entry = spec_failed_entry(
                d.retries,
                instance,
                now,
                d.config.base_backoff,
                d.config.max_backoff,
            );
            Step {
                downloader: DownloaderView {
                    phase: Phase::Ready,
                    retries: spec_record_failure(
                        d.retries,
                        instance,
                        now,
                        d.config.base_backoff,
                        d.config.max_backoff,
                    ),
                    instance_cursor: d.instance_cursor + 1,
                    candidate_cursor: 0,
                    ..d
                },
                db,
                action: ActionView::Deferred {
                    instance,
                    attempts: entry.attempts,
                    stalled: entry.attempts >= d.config.retry_ceiling,
                },
            }
        }
    }
}

/// The next request for an inventory: the request at the cursor, to the
/// peer at the cursor. When every peer was asked, the first instance is
/// decided on.
pub open spec fn spec_ask(d: DownloaderView, db: DbView, now: u64) -> Step {
    if 0 <= d.peer_cursor < d.selected.len() && 0 <= d.request_cursor < d.requests.len() {
        Step {
            downloader: DownloaderView { phase: Phase::AwaitInventory, ..d },
            db,
            action: ActionView::RequestInventory {
                peer: d.selected[d.peer_cursor],
                pages: d.requests[d.request_cursor],
            },
        }
    } else {
        spec_fetch(
            DownloaderView { phase: Phase::Ready, instance_cursor: 0, candidate_cursor: 0, ..d },
            db,
            now,
        )
    }
}

/// The start of a cycle at the time `now`: what was kept of instances that
/// are no longer pending is dropped, the working set is picked from the
/// pending instances, the pages it needs are cut into requests, the peers
/// are selected in a round that moves on by one peer with each cycle, and
/// the first request is made.
pub open spec fn spec_begin(d: DownloaderView, db: DbView, now: u64) -> Step {
    let retries = spec_prune(d.retries, spec_pending(db));
    let working_set = spec_working_set(
        spec_pending(db),
        retries,
        now,
        d.config.max_working_set as int,
    );
    spec_ask(
        DownloaderView {
            retries,
            working_set,
            requests: spec_batches(spec_pages(working_set), d.config.pages_per_request as int),
            selected: spec_select(spec_rotate(d.peers, d.rotation), now, d.config.max_peers as int),
            rotation: if d.rotation < usize::MAX {
                d.rotation + 1
            } else {
                0
            },
            peer_cursor: 0,
            request_cursor: 0,
            inventories: Seq::empty(),
            instance_cursor: 0,
            candidate_cursor: 0,
            ..d
        },
        db,
        now,
    )
}

/// The downloader after the peer at the cursor answered a request for its
/// inventory: the answer is kept, and the cursor moves to the next request
/// for that peer, or to the next peer.
pub open spec fn spec_after_inventory(d: DownloaderView, pages: Seq<PageView>) -> DownloaderView {
    let inventories = d.inventories.push(
        InventoryView { peer: d.selected[d.peer_cursor], pages },
    );
    if 0 <= d.request_cursor && d.request_cursor + 1 < d.requests.len() {
        DownloaderView { inventories, request_cursor: d.request_cursor + 1, ..d }
    } else {
        DownloaderView { inventories, peer_cursor: d.peer_cursor + 1, request_cursor: 0, ..d }
    }
}

/// The downloader after the peer at the cursor failed to answer a request
/// for its inventory: the peer is penalized and left behind.
pub open spec fn spec_after_silence(d: DownloaderView, now: u64) -> DownloaderView {
    DownloaderView {
        peers: spec_penalize(d.peers, d.selected[d.peer_cursor], now, d.config.peer_backoff),
        peer_cursor: d.peer_cursor + 1,
        request_cursor: 0,
        ..d
    }
}

/// The downloader after the candidate at the cursor failed to deliver the
/// content of the instance at the cursor: the peer is penalized and left
/// behind, and where its content was oversize it is refused for that
/// address from now on.
pub open spec fn spec_after_bad_content(d: DownloaderView, oversize: bool, now: u64) -> DownloaderView {
    let peer = d.inventories[d.candidate_cursor].peer;
    let content_hash = d.working_set[d.instance_cursor].content_hash;
    DownloaderView {
        peers: spec_penalize(d.peers, peer, now, d.config.peer_backoff),
        refused: if oversize {
            d.refused.push(RefusedView { peer, content_hash })
        } else {
            d.refused
        },
        candidate_cursor: d.candidate_cursor + 1,
        ..d
    }
}

/// One step of a cycle: what the answer `event` to the last action leads
/// to. Content is stored only when it is small enough and hashes to the
/// address of the instance; any other answer to a request counts against
/// the peer, and the next peer is tried.
pub open spec fn spec_handle(d: DownloaderView, db: DbView, event: EventView, now: u64) -> Step {
    match d.phase {
        Phase::Idle => Step { downloader: d, db, action: ActionView::Finished },
        Phase::Ready => spec_fetch(d, db, now),
        Phase::AwaitInventory => {
            if !(0 <= d.peer_cursor < d.selected.len()) {
                spec_ask(d, db, now)
            } else {
                match event {
                    EventView::Inventory(pages) => spec_ask(spec_after_inventory(d, pages), db, now),
                    _ => spec_ask(spec_after_silence(d, now), db, now),
                }
            }
        },
        Phase::AwaitContent => {
            if !(0 <= d.instance_cursor < d.working_set.len()) || !(0 <= d.candidate_cursor
                < d.inventories.len()) {
                spec_fetch(d, db, now)
            } else {
                let instance = d.working_set[d.instance_cursor];
                match event {
                    EventView::Content(content) => match spec_check_content(
                        content,
                        instance.content_hash,
                        d.config.attachments_max_size,
                    ) {
                        Ok(_) => spec_fetch(
                            d,
                            DbView {
                                instances: db.instances,
                                contents: spec_store(db.contents, content),
                            },
                            now,
                        ),
                        Err(error) => spec_fetch(
                            spec_after_bad_content(d, error == AtlasError::OversizeContent, now),
                            db,
                            now,
                        ),
                    },
                    _ => spec_fetch(spec_after_bad_content(d, false, now), db, now),
                }
            }
        },
    }
}

/// The downloader: the table of peers, the table of retries, and the state
/// of the cycle that is under way.
#[derive(Debug)]
pub struct AttachmentsDownloader {
    pub config: DownloaderConfig,
    pub peers: PeerTable,
    pub retries: RetryTable,
    pub refused: Vec<RefusedSource>,
    pub phase: Phase,
    pub rotation: usize,
    pub working_set: Vec<AttachmentInstance>,
    pub requests: Vec<Vec<u32>>,
    pub selected: Vec<u64>,
    pub peer_cursor: usize,
    pub request_cursor: usize,
    pub inventories: Vec<PeerInventory>,
    pub instance_cursor: usize,
    pub candidate_cursor: usize,
}

impl View for AttachmentsDownloader {
    type V = DownloaderView;

    open spec fn view(&self) -> DownloaderView {
        DownloaderView {
            config: self.config,
            peers: self.peers.records@,
            retries: self.retries@,
            refused: spec_refused_views(self.refused@),
            phase: self.phase,
            rotation: self.rotation as int,
            working_set: spec_instance_views(self.working_set@),
            requests: spec_batch_views(self.requests@),
            selected: self.selected@,
            peer_cursor: self.peer_cursor as int,
            request_cursor: self.request_cursor as int,
            inventories: spec_inventory_views(self.inventories@),
            instance_cursor: self.instance_cursor as int,
            candidate_cursor: self.candidate_cursor as int,
        }
    }
}

impl AttachmentsDownloader {
    /// The downloader that knows no peer and has no cycle under way.
    pub fn new(config: DownloaderConfig) -> (downloader: AttachmentsDownloader)
        ensures
            downloader@ == (DownloaderView {
                config,
                peers: Seq::empty(),
                retries: Seq::empty(),
                refused: Seq::empty(),
                phase: Phase::Idle,
                rotation: 0,
                working_set: Seq::empty(),
                requests: Seq::empty(),
                selected: Seq::empty(),
                peer_cursor: 0,
                request_cursor: 0,
                inventories: Seq::empty(),
                instance_cursor: 0,
                candidate_cursor: 0,
            }),
    {
        let downloader = AttachmentsDownloader {
            config,
            peers: PeerTable::new(),
            retries: RetryTable::new(),
            refused: Vec::new(),
            phase: Phase::Idle,
            rotation: 0,
            working_set: Vec::new(),
            requests: Vec::new(),
            selected: Vec::new(),
            peer_cursor: 0,
            request_cursor: 0,
            inventories: Vec::new(),
            instance_cursor: 0,
            candidate_cursor: 0,
        };
        assert(downloader@.refused =~= Seq::<RefusedView>::empty());
        assert(downloader@.working_set =~= Seq::<InstanceView>::empty());
        assert(downloader@.requests =~= Seq::<Seq<u32>>::empty());
        assert(downloader@.inventories =~= Seq::<InventoryView>::empty());
        downloader
    }

    /// One decision on the instance at the cursor.
    fn fetch(&mut self, db: &AtlasDB, now: u64) -> (action: Action)
        ensures
            spec_fetch(old(self)@, db@, now) == (Step {
                downloader: final(self)@,
                db: db@,
                action: action@,
            }),
    {
        if self.instance_cursor >= self.working_set.len() {
            self.phase = Phase::Idle;
            return Action::Finished;
        }
        let instance = self.working_set[self.instance_cursor].clone();
        if db.is_resolved(&instance) {
            self.retries.clear(&instance);
            self.phase = Phase::Ready;
            self.instance_cursor = self.instance_cursor + 1;
            self.candidate_cursor = 0;
            return Action::Resolved { instance };
        }
        let candidate = next_candidate(
            &self.inventories,
            &self.refused,
            &instance,
            self.candidate_cursor,
        );
        if candidate < self.inventories.len() {
            self.phase = Phase::AwaitContent;
            self.candidate_cursor = candidate;
            return Action::RequestContent {
                peer: self.inventories[candidate].peer,
                content_hash: instance.content_hash,
            };
        }
        let attempts = self.retries.record_failure(
            &instance,
            now,
            self.config.base_backoff,
            self.config.max_backoff,
        );
        self.phase = Phase::Ready;
        self.instance_cursor = self.instance_cursor + 1;
        self.candidate_cursor = 0;
        Action::Deferred { instance, attempts, stalled: attempts >= self.config.retry_ceiling }
    }

    /// The next request for an inventory, or the first decision on an
    /// instance when every peer was asked.
    fn ask(&mut self, db: &AtlasDB, now: u64) -> (action: Action)
        ensures
            spec_ask(old(self)@, db@, now) == (Step {
                downloader: final(self)@,
                db: db@,
                action: action@,
            }),
    {
        if self.peer_cursor < self.selected.len() && self.request_cursor < self.requests.len() {
            self.phase = Phase::AwaitInventory;
            let pages = vstd::slice::slice_to_vec(self.requests[self.request_cursor].as_slice());
            Action::RequestInventory { peer: self.selected[self.peer_cursor], pages }
        } else {
            self.phase = Phase::Ready;
            self.instance_cursor = 0;
            self.candidate_cursor = 0;
            self.fetch(db, now)
        }
    }

    /// Starts a cycle at the time `now` and returns its first action. A
    /// cycle that was under way is given up.
    pub fn begin_cycle(&mut self, db: &AtlasDB, now: u64) -> (action: Action)
        ensures
            spec_begin(old(self)@, db@, now) == (Step {
                downloader: final(self)@,
                db: db@,
                action: action@,
            }),
    {
        let pending = db.list_pending();
        self.retries.prune(&pending);
        self.working_set = working_set(&pending, &self.retries, now, self.config.max_working_set);
        let pages = pages_needed(&self.working_set);
        self.requests = batches(&pages, self.config.pages_per_request);
        self.selected = self.peers.select_in_round(now, self.config.max_peers, self.rotation);
        self.rotation = if self.rotation < usize::MAX {
            self.rotation + 1
        } else {
            0
        };
        self.peer_cursor = 0;
        self.request_cursor = 0;
        self.inventories = Vec::new();
        self.instance_cursor = 0;
        self.candidate_cursor = 0;
        assert(spec_inventory_views(self.inventories@) =~= Seq::<InventoryView>::empty());
        self.ask(db, now)
    }

    /// Takes the answer to the last action and returns the next action.
    /// After `RequestInventory` and `RequestContent` the answer is what the
    /// peer sent, or `Failed`; after `Resolved` and `Deferred` it is
    /// `Resume`. Between two steps the cycle may be given up without harm.
    pub fn handle(&mut self, db: &mut AtlasDB, event: Event, now: u64) -> (action: Action)
        ensures
            spec_handle(old(self)@, old(db)@, event@, now) == (Step {
                downloader: final(self)@,
                db: final(db)@,
                action: action@,
            }),
    {
        match self.phase {
            Phase::Idle => Action::Finished,
            Phase::Ready => self.fetch(db, now),
            Phase::AwaitInventory => {
                if self.peer_cursor >= self.selected.len() {
                    return self.ask(db, now);
                }
                let peer = self.selected[self.peer_cursor];
                match event {
                    Event::Inventory(pages) => {
                        let ghost before = spec_inventory_views(self.inventories@);
                        let ghost answer = InventoryView { peer, pages: spec_page_views(pages@) };
                        self.inventories.push(PeerInventory { peer, pages });
                        assert(spec_inventory_views(self.inventories@) =~= before.push(answer));
                        if self.request_cursor < self.requests.len() && self.request_cursor + 1
                            < self.requests.len() {
                            self.request_cursor = self.request_cursor + 1;
                        } else {
                            self.peer_cursor = self.peer_cursor + 1;
                            self.request_cursor = 0;
                        }
                    },
                    _ => {
                        self.peers.penalize(peer, now, self.config.peer_backoff);
                        self.peer_cursor = self.peer_cursor + 1;
                        self.request_cursor = 0;
                    },
                }
                self.ask(db, now)
            },
            Phase::AwaitContent => {
                if self.instance_cursor >= self.working_set.len() || self.candidate_cursor
                    >= self.inventories.len() {
                    return self.fetch(db, now);
                }
                let peer = self.inventories[self.candidate_cursor].peer;
                let content_hash = self.working_set[self.instance_cursor].content_hash;
                match event {
                    Event::Content(content) => {
                        match check_content(
                            content.as_slice(),
                            &content_hash,
                            self.config.attachments_max_size,
                        ) {
                            Ok(_) => {
                                let stored = db.store_attachment(
                                    &content_hash,
                                    Attachment::new(content),
                                );
                                assert(stored is Ok);
                            },
                            Err(error) => {
                                self.peers.penalize(peer, now, self.config.peer_backoff);
                                match error {
                                    AtlasError::OversizeContent => {
                                        let ghost before = spec_refused_views(self.refused@);
                                        let source = RefusedSource { peer, content_hash };
                                        self.refused.push(source);
                                        assert(spec_refused_views(self.refused@) =~= before.push(
                                            source@,
                                        ));
                                    },
                                    AtlasError::HashMismatch => {},
                                }
                                self.candidate_cursor = self.candidate_cursor + 1;
                            },
                        }
                    },
                    _ => {
                        self.peers.penalize(peer, now, self.config.peer_backoff);
                        self.candidate_cursor = self.candidate_cursor + 1;
                    },
                }
                self.fetch(db, now)
            },
        }
    }
}


/// What is stored after a step was stored before it, or is the content
/// that the step received: content no larger than an attachment may be,
/// which hashes to the address of the instance at the cursor. The step
/// forgets no content and changes no instance.
pub proof fn lemma_handle_stores_verified_content(
    d: DownloaderView,
    db: DbView,
    event: EventView,
    now: u64,
)
    ensures
        spec_handle(d, db, event, now).db.instances == db.instances,
        spec_handle(d, db, event, now).db.contents == db.contents || (event matches EventView::Content(
            content,
        ) && 0 <= d.instance_cursor < d.working_set.len() && content.len()
            <= d.config.attachments_max_size && spec_hash160(content)
            == d.working_set[d.instance_cursor].content_hash && spec_handle(
            d,
            db,
            event,
            now,
        ).db.contents == spec_store(db.contents, content)),
        forall|hash: Seq<u8>|
            spec_stored(db.contents, hash) ==> spec_stored(
                spec_handle(d, db, event, now).db.contents,
                hash,
            ),
{
    assert forall|hash: Seq<u8>| spec_stored(db.contents, hash) implies spec_stored(
        spec_handle(d, db, event, now).db.contents,
        hash,
    ) by {
        if spec_handle(d, db, event, now).db.contents != db.contents {
            crate::db::lemma_store_keeps_stored(db.contents, event->Content_0, hash);
        }
    }
}

/// No step of a cycle returns a resolved instance to pending.
pub proof fn lemma_handle_keeps_resolved(
    d: DownloaderView,
    db: DbView,
    event: EventView,
    now: u64,
    instance: InstanceView,
)
    requires
        spec_resolved(db.contents, instance),
    ensures
        spec_resolved(spec_handle(d, db, event, now).db.contents, instance),
{
    lemma_handle_stores_verified_content(d, db, event, now);
}

/// Content that is too large or hashes to another address is never stored:
/// the step leaves the database as it was and counts against the peer.
pub proof fn lemma_bad_content_never_stored(
    d: DownloaderView,
    db: DbView,
    content: Seq<u8>,
    now: u64,
)
    requires
        d.phase == Phase::AwaitContent,
        0 <= d.instance_cursor < d.working_set.len(),
        0 <= d.candidate_cursor < d.inventories.len(),
        spec_check_content(
            content,
            d.working_set[d.instance_cursor].content_hash,
            d.config.attachments_max_size,
        ) is Err,
    ensures
        spec_handle(d, db, EventView::Content(content), now).db == db,
        spec_handle(d, db, EventView::Content(content), now).downloader.peers == spec_penalize(
            d.peers,
            d.inventories[d.candidate_cursor].peer,
            now,
            d.config.peer_backoff,
        ),
{
}

/// What this node answers to a request for its inventory: for each of the
/// first `limit` pages asked for, the page with one bit for each of its
/// `page_size` slots.
pub open spec fn spec_local_inventory(db: DbView, pages: Seq<u32>, page_size: u32, limit: int) -> Seq<
    PageView,
> {
    Seq::new(
        spec_cap(pages, limit).len(),
        |i: int|
            PageView {
                index: spec_cap(pages, limit)[i],
                bits: Seq::new(
                    page_size as nat,
                    |position: int| spec_slot_present(db, spec_cap(pages, limit)[i], position),
                ),
            },
    )
}

/// Answers a peer's request for the inventory of some pages.
pub fn local_inventory(db: &AtlasDB, pages: &Vec<u32>, page_size: u32, limit: usize) -> (answer: Vec<
    InventoryPage,
>)
    ensures
        spec_page_views(answer@) == spec_local_inventory(db@, pages@, page_size, limit as int),
{
    let count = if limit < pages.len() {
        limit
    } else {
        pages.len()
    };
    let ghost asked = spec_cap(pages@, limit as int);
    let ghost wanted = spec_local_inventory(db@, pages@, page_size, limit as int);
    let mut answer: Vec<InventoryPage> = Vec::new();
    let mut i: usize = 0;
    while i < count
        invariant
            i <= count <= pages.len(),
            count == asked.len(),
            asked == spec_cap(pages@, limit as int),
            wanted == spec_local_inventory(db@, pages@, page_size, limit as int),
            answer@.len() == i,
            forall|k: int| 0 <= k < i ==> (#[trigger] answer@[k])@ == wanted[k],
        decreases count - i,
    {
        let bits = db.compute_inventory_page(pages[i], page_size);
        assert(asked[i as int] == pages@[i as int]);
        assert(bits@ =~= wanted[i as int].bits);
        answer.push(InventoryPage { index: pages[i], bits });
        i += 1;
    }
    assert(spec_page_views(answer@) =~= wanted);
    answer
}

/// Answers a peer's request for content: the stored bytes, unless nothing
/// is stored under the address or what is stored is larger than
/// `max_size`.
pub fn serve_content(db: &AtlasDB, hash: &Hash160, max_size: u32) -> (content: Option<Vec<u8>>)
    ensures
        content is Some <==> spec_find(db@.contents, hash@) is Some && spec_find(
            db@.contents,
            hash@,
        )->0.len() <= max_size,
        content is Some ==> content->0@ == spec_find(db@.contents, hash@)->0,
{
    match db.find_attachment(hash) {
        Some(attachment) => {
            if attachment.content.len() <= max_size as usize {
                Some(attachment.content)
            } else {
                None
            }
        },
        None => {
            proof {
                crate::db::lemma_store_index(db@.contents, hash@);
            }
            None
        },
    }
}


} // verus!
