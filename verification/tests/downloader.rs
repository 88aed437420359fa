use atlas::attachment::{Attachment, AttachmentInstance};
use atlas::db::{AtlasDB, AtlasError};
use atlas::download::{
    backoff, batches, check_content, claims, is_refused, local_inventory, next_candidate,
    pages_needed, serve_content, working_set, Action, AttachmentsDownloader, DownloaderConfig,
    Event, InventoryPage, PeerInventory, PeerRecord, PeerTable, Phase, RefusedSource, RetryTable,
};
use atlas::hash::{BlockHeaderHash, ConsensusHash, Hash160};
use atlas::value::{ClarityName, QualifiedContractIdentifier, StandardPrincipalData};
use atlas::MAX_ATTACHMENT_INV_PAGES_PER_REQUEST;

const PAGE_SIZE: u32 = 8;

fn instance(
    content_hash: Hash160,
    block: u8,
    block_height: u64,
    page_index: u32,
    position_in_page: u32,
) -> AttachmentInstance {
    AttachmentInstance {
        content_hash,
        page_index,
        position_in_page,
        block_height,
        consensus_hash: ConsensusHash { bytes: [block; 20] },
        block_header_hash: BlockHeaderHash { bytes: [block; 32] },
        metadata: String::new(),
        contract_id: QualifiedContractIdentifier {
            issuer: StandardPrincipalData { version: 26, bytes: [0u8; 20] },
            name: ClarityName::from_str("bns").unwrap(),
        },
    }
}

fn hash_of(content: &[u8]) -> Hash160 {
    Hash160::from_data(content)
}

fn config() -> DownloaderConfig {
    DownloaderConfig {
        max_working_set: 16,
        max_peers: 4,
        pages_per_request: MAX_ATTACHMENT_INV_PAGES_PER_REQUEST,
        attachments_max_size: 1_048_576,
        base_backoff: 10,
        max_backoff: 1000,
        retry_ceiling: 3,
        peer_backoff: 60,
    }
}

/// A peer that the tests play: what it claims to have, and what it sends.
struct FakePeer {
    id: u64,
    reachable: bool,
    claims: Vec<(u32, u32)>,
    contents: Vec<(Hash160, Vec<u8>)>,
}

impl FakePeer {
    fn inventory(&self, pages: &Vec<u32>) -> Event {
        if !self.reachable {
            return Event::Failed;
        }
        let mut answer = Vec::new();
        for page in pages {
            let mut bits = vec![false; PAGE_SIZE as usize];
            for (claimed_page, position) in &self.claims {
                if claimed_page == page {
                    bits[*position as usize] = true;
                }
            }
            answer.push(InventoryPage { index: *page, bits });
        }
        Event::Inventory(answer)
    }

    fn content(&self, content_hash: &Hash160) -> Event {
        if !self.reachable {
            return Event::Failed;
        }
        for (hash, content) in &self.contents {
            if hash == content_hash {
                return Event::Content(content.clone());
            }
        }
        Event::Failed
    }
}

fn answer(peers: &Vec<FakePeer>, action: &Action) -> Option<Event> {
    match action {
        Action::RequestInventory { peer, pages } => {
            Some(peers.iter().find(|p| p.id == *peer).map_or(Event::Failed, |p| p.inventory(pages)))
        },
        Action::RequestContent { peer, content_hash } => Some(
            peers.iter().find(|p| p.id == *peer).map_or(Event::Failed, |p| p.content(content_hash)),
        ),
        Action::Resolved { .. } | Action::Deferred { .. } => Some(Event::Resume),
        Action::Finished => None,
    }
}

/// Runs one cycle to its end and returns the actions it took.
fn run_cycle(
    downloader: &mut AttachmentsDownloader,
    db: &mut AtlasDB,
    peers: &Vec<FakePeer>,
    now: u64,
) -> Vec<Action> {
    let mut actions = Vec::new();
    let mut action = downloader.begin_cycle(db, now);
    loop {
        let event = answer(peers, &action);
        actions.push(action);
        match event {
            Some(event) => action = downloader.handle(db, event, now),
            None => return actions,
        }
        assert!(actions.len() < 1000);
    }
}

fn penalty(downloader: &AttachmentsDownloader, peer: u64) -> u32 {
    downloader.peers.record_of(peer).unwrap().penalty
}

#[test]
fn content_of_exactly_the_largest_size_is_accepted() {
    let content = vec![7u8; 100];
    let hash = hash_of(&content);
    assert_eq!(check_content(&content, &hash, 100), Ok(()));
    assert_eq!(check_content(&content, &hash, 101), Ok(()));
    assert_eq!(check_content(&content, &hash, 99), Err(AtlasError::OversizeContent));
    let larger = vec![7u8; 101];
    assert_eq!(check_content(&larger, &hash_of(&larger), 100), Err(AtlasError::OversizeContent));
    assert_eq!(check_content(&larger, &hash, 100), Err(AtlasError::OversizeContent));
    assert_eq!(check_content(&content, &hash_of(&larger), 100), Err(AtlasError::HashMismatch));
    assert_eq!(check_content(&[], &hash_of(&[]), 0), Ok(()));
    assert_eq!(check_content(&[1], &hash_of(&[1]), 0), Err(AtlasError::OversizeContent));
    assert_eq!(check_content(&[], &Hash160::empty(), 0), Err(AtlasError::HashMismatch));
}

#[test]
fn the_wait_doubles_up_to_its_ceiling() {
    assert_eq!(backoff(10, 1000, 0), 10);
    assert_eq!(backoff(10, 1000, 1), 10);
    assert_eq!(backoff(10, 1000, 2), 20);
    assert_eq!(backoff(10, 1000, 3), 40);
    assert_eq!(backoff(10, 1000, 7), 640);
    assert_eq!(backoff(10, 1000, 8), 1000);
    assert_eq!(backoff(10, 1000, 9), 1000);
    assert_eq!(backoff(10, 1000, u32::MAX), 1000);
    assert_eq!(backoff(2000, 1000, 1), 1000);
    assert_eq!(backoff(0, 1000, 5), 0);
    assert_eq!(backoff(0, 1000, u32::MAX), 0);
    assert_eq!(backoff(5, 0, 3), 0);
    assert_eq!(backoff(1, u64::MAX, 64), 1u64 << 63);
    assert_eq!(backoff(1, u64::MAX, 65), u64::MAX);
    assert_eq!(backoff(3, u64::MAX, 64), u64::MAX);
    assert_eq!(backoff(500, 1000, 2), 1000);
    assert_eq!(backoff(499, 1000, 2), 998);
}

#[test]
fn peers_are_registered_penalized_and_forgiven() {
    let mut table = PeerTable::new();
    assert_eq!(table.record_of(1), None);
    table.register(1);
    table.register(2);
    assert_eq!(table.record_of(1), Some(PeerRecord { peer: 1, penalty: 0, unresponsive_until: 0 }));
    table.penalize(1, 100, 60);
    assert_eq!(
        table.record_of(1),
        Some(PeerRecord { peer: 1, penalty: 1, unresponsive_until: 160 })
    );
    table.penalize(1, 200, 60);
    assert_eq!(
        table.record_of(1),
        Some(PeerRecord { peer: 1, penalty: 2, unresponsive_until: 260 })
    );
    table.penalize(1, u64::MAX - 1, 60);
    assert_eq!(table.record_of(1).unwrap().unresponsive_until, u64::MAX);
    table.penalize(3, 100, 60);
    assert_eq!(table.record_of(3), None);
    assert_eq!(table.records.len(), 2);
    table.register(1);
    assert_eq!(table.record_of(1), Some(PeerRecord { peer: 1, penalty: 0, unresponsive_until: 0 }));
    assert_eq!(table.records.len(), 2);
    assert_eq!(table.record_of(2), Some(PeerRecord { peer: 2, penalty: 0, unresponsive_until: 0 }));
    table.records[1].penalty = u32::MAX;
    table.penalize(2, 1, 1);
    assert_eq!(table.record_of(2).unwrap().penalty, u32::MAX);
}

#[test]
fn responsive_peers_are_selected_first() {
    let mut table = PeerTable::new();
    for peer in 1..=5 {
        table.register(peer);
    }
    assert_eq!(table.select(0, 3), vec![1, 2, 3]);
    assert_eq!(table.select(0, 9), vec![1, 2, 3, 4, 5]);
    assert_eq!(table.select(0, 0), Vec::<u64>::new());
    table.penalize(1, 100, 60);
    table.penalize(3, 100, 60);
    assert_eq!(table.select(100, 9), vec![2, 4, 5, 1, 3]);
    assert_eq!(table.select(159, 2), vec![2, 4]);
    assert_eq!(table.select(159, 4), vec![2, 4, 5, 1]);
    assert_eq!(table.select(160, 4), vec![1, 2, 3, 4]);
    assert_eq!(PeerTable::new().select(0, 3), Vec::<u64>::new());
}

#[test]
fn each_peer_comes_first_in_its_turn() {
    let mut table = PeerTable::new();
    for peer in 1..=3 {
        table.register(peer);
    }
    assert_eq!(table.select_in_round(0, 3, 0), vec![1, 2, 3]);
    assert_eq!(table.select_in_round(0, 3, 1), vec![2, 3, 1]);
    assert_eq!(table.select_in_round(0, 3, 2), vec![3, 1, 2]);
    assert_eq!(table.select_in_round(0, 3, 3), vec![1, 2, 3]);
    assert_eq!(table.select_in_round(0, 2, 5), vec![3, 1]);
    assert_eq!(table.select_in_round(0, 1, usize::MAX), vec![(usize::MAX % 3) as u64 + 1]);
    table.penalize(2, 10, 60);
    assert_eq!(table.select_in_round(20, 3, 1), vec![3, 1, 2]);
    assert_eq!(PeerTable::new().select_in_round(0, 3, 7), Vec::<u64>::new());
    assert_eq!(table.rotated(4).records[0].peer, 2);

    let mut db = AtlasDB::new();
    let i1 = instance(hash_of(b"nobody has this"), 1, 10, 0, 0);
    db.insert_instance(i1);
    let mut one_at_a_time = config();
    one_at_a_time.max_peers = 1;
    one_at_a_time.base_backoff = 0;
    let mut downloader = AttachmentsDownloader::new(one_at_a_time);
    for peer in 1..=3 {
        downloader.peers.register(peer);
    }
    let peers = vec![
        FakePeer { id: 1, reachable: true, claims: vec![], contents: vec![] },
        FakePeer { id: 2, reachable: true, claims: vec![], contents: vec![] },
        FakePeer { id: 3, reachable: true, claims: vec![], contents: vec![] },
    ];
    for expected in [1u64, 2, 3, 1] {
        let actions = run_cycle(&mut downloader, &mut db, &peers, 100);
        assert_eq!(actions[0], Action::RequestInventory { peer: expected, pages: vec![0] });
        assert_eq!(actions.len(), 3);
    }
    assert_eq!(downloader.rotation, 4);
}

#[test]
fn retries_wait_longer_after_each_failure() {
    let mut table = RetryTable::new();
    let a = instance(hash_of(b"a"), 1, 10, 0, 0);
    let b = instance(hash_of(b"b"), 1, 10, 0, 1);
    assert_eq!(table.attempts(&a), 0);
    assert!(table.is_due(&a, 0));
    assert_eq!(table.record_failure(&a, 100, 10, 1000), 1);
    assert_eq!(table.attempts(&a), 1);
    assert!(!table.is_due(&a, 109));
    assert!(table.is_due(&a, 110));
    assert!(table.is_due(&b, 0));
    assert_eq!(table.record_failure(&a, 110, 10, 1000), 2);
    assert!(!table.is_due(&a, 129));
    assert!(table.is_due(&a, 130));
    assert_eq!(table.record_failure(&b, 50, 10, 1000), 1);
    assert_eq!(table.entries.len(), 2);
    assert_eq!(table.entries[0].next_eligible, 130);
    assert_eq!(table.entries[1].next_eligible, 60);
    assert_eq!(table.record_failure(&a, u64::MAX, 10, 1000), 3);
    assert_eq!(table.entries[0].next_eligible, u64::MAX);
    table.clear(&a);
    assert_eq!(table.attempts(&a), 0);
    assert!(table.is_due(&a, 0));
    assert_eq!(table.attempts(&b), 1);
    table.clear(&a);
    assert_eq!(table.entries.len(), 1);
}

#[test]
fn the_working_set_holds_the_first_due_instances() {
    let pending = vec![
        instance(hash_of(b"a"), 1, 10, 0, 0),
        instance(hash_of(b"b"), 1, 10, 0, 1),
        instance(hash_of(b"c"), 1, 10, 0, 2),
        instance(hash_of(b"d"), 1, 10, 0, 3),
    ];
    let mut retries = RetryTable::new();
    assert_eq!(working_set(&pending, &retries, 0, 10), pending);
    assert_eq!(working_set(&pending, &retries, 0, 2), pending[..2].to_vec());
    assert_eq!(working_set(&pending, &retries, 0, 0), Vec::new());
    retries.record_failure(&pending[1], 100, 10, 1000);
    assert_eq!(
        working_set(&pending, &retries, 105, 2),
        vec![pending[0].clone(), pending[2].clone()]
    );
    assert_eq!(
        working_set(&pending, &retries, 105, 10),
        vec![pending[0].clone(), pending[2].clone(), pending[3].clone()]
    );
    assert_eq!(working_set(&pending, &retries, 110, 2), pending[..2].to_vec());
    assert_eq!(working_set(&Vec::new(), &retries, 0, 5), Vec::new());
}

#[test]
fn pages_are_named_once_and_asked_for_in_bounded_requests() {
    let instances = vec![
        instance(hash_of(b"a"), 1, 10, 5, 0),
        instance(hash_of(b"b"), 1, 10, 2, 1),
        instance(hash_of(b"c"), 1, 10, 5, 2),
        instance(hash_of(b"d"), 1, 10, 9, 3),
        instance(hash_of(b"e"), 1, 10, 2, 4),
    ];
    assert_eq!(pages_needed(&instances), vec![5, 2, 9]);
    assert_eq!(pages_needed(&Vec::new()), Vec::<u32>::new());
    let pages: Vec<u32> = (0..20).collect();
    let cut = batches(&pages, MAX_ATTACHMENT_INV_PAGES_PER_REQUEST);
    assert_eq!(cut.len(), 3);
    assert_eq!(cut[0], (0..8).collect::<Vec<u32>>());
    assert_eq!(cut[1], (8..16).collect::<Vec<u32>>());
    assert_eq!(cut[2], (16..20).collect::<Vec<u32>>());
    assert_eq!(batches(&(0..8).collect(), 8), vec![(0..8).collect::<Vec<u32>>()]);
    assert_eq!(batches(&(0..9).collect(), 8).len(), 2);
    assert_eq!(batches(&vec![1, 2, 3], 1), vec![vec![1], vec![2], vec![3]]);
    assert_eq!(batches(&vec![1, 2, 3], 0), Vec::<Vec<u32>>::new());
    assert_eq!(batches(&Vec::new(), 8), Vec::<Vec<u32>>::new());
    assert_eq!(batches(&vec![1, 2, 3], usize::MAX), vec![vec![1, 2, 3]]);
}

#[test]
fn candidates_are_the_peers_that_claim_the_slot() {
    let wanted = instance(hash_of(b"a"), 1, 10, 2, 1);
    let inventories = vec![
        PeerInventory {
            peer: 1,
            pages: vec![InventoryPage { index: 2, bits: vec![true, false, true] }],
        },
        PeerInventory { peer: 2, pages: vec![InventoryPage { index: 3, bits: vec![true, true] }] },
        PeerInventory {
            peer: 3,
            pages: vec![
                InventoryPage { index: 1, bits: vec![false, true] },
                InventoryPage { index: 2, bits: vec![false, true] },
            ],
        },
        PeerInventory { peer: 4, pages: vec![InventoryPage { index: 2, bits: vec![true] }] },
        PeerInventory { peer: 5, pages: vec![InventoryPage { index: 2, bits: vec![true, true] }] },
    ];
    assert!(!claims(&inventories[0], 2, 1));
    assert!(claims(&inventories[0], 2, 2));
    assert!(!claims(&inventories[0], 2, 3));
    assert!(!claims(&inventories[1], 2, 1));
    assert!(claims(&inventories[2], 2, 1));
    assert!(!claims(&inventories[3], 2, 1));
    let refused = Vec::new();
    assert_eq!(next_candidate(&inventories, &refused, &wanted, 0), 2);
    assert_eq!(next_candidate(&inventories, &refused, &wanted, 2), 2);
    assert_eq!(next_candidate(&inventories, &refused, &wanted, 3), 4);
    assert_eq!(next_candidate(&inventories, &refused, &wanted, 5), 5);
    assert_eq!(next_candidate(&inventories, &refused, &wanted, 6), 5);
    let refused = vec![
        RefusedSource { peer: 3, content_hash: wanted.content_hash },
        RefusedSource { peer: 5, content_hash: hash_of(b"other") },
    ];
    assert!(is_refused(&refused, 3, &wanted.content_hash));
    assert!(!is_refused(&refused, 5, &wanted.content_hash));
    assert!(!is_refused(&refused, 3, &hash_of(b"other")));
    assert_eq!(next_candidate(&inventories, &refused, &wanted, 0), 4);
    assert_eq!(next_candidate(&Vec::new(), &refused, &wanted, 0), 0);
}

#[test]
fn a_cycle_on_an_empty_database_is_over_at_once() {
    let mut db = AtlasDB::new();
    let mut downloader = AttachmentsDownloader::new(config());
    downloader.peers.register(1);
    assert_eq!(downloader.phase, Phase::Idle);
    assert_eq!(downloader.handle(&mut db, Event::Resume, 0), Action::Finished);
    assert_eq!(downloader.begin_cycle(&db, 0), Action::Finished);
    assert_eq!(downloader.phase, Phase::Idle);
    assert_eq!(downloader.handle(&mut db, Event::Content(vec![1]), 0), Action::Finished);
    assert_eq!(db.find_attachment(&hash_of(&[1])), None);
}

#[test]
fn a_peer_that_has_the_content_resolves_the_instance() {
    let content = b"the attachment".to_vec();
    let h1 = hash_of(&content);
    let i1 = instance(h1, 1, 10, 0, 3);
    let mut db = AtlasDB::new();
    db.insert_instance(i1.clone());
    let mut downloader = AttachmentsDownloader::new(config());
    downloader.peers.register(1);
    let peers = vec![FakePeer {
        id: 1,
        reachable: true,
        claims: vec![(0, 3)],
        contents: vec![(h1, content.clone())],
    }];
    let actions = run_cycle(&mut downloader, &mut db, &peers, 100);
    assert_eq!(
        actions,
        vec![
            Action::RequestInventory { peer: 1, pages: vec![0] },
            Action::RequestContent { peer: 1, content_hash: h1 },
            Action::Resolved { instance: i1.clone() },
            Action::Finished,
        ]
    );
    assert!(db.is_resolved(&i1));
    assert_eq!(db.list_pending(), Vec::new());
    assert_eq!(db.find_attachment(&h1), Some(Attachment::new(content)));
    assert_eq!(penalty(&downloader, 1), 0);
    assert_eq!(downloader.retries.attempts(&i1), 0);
    assert_eq!(downloader.phase, Phase::Idle);
}

#[test]
fn a_peer_that_sends_other_content_is_penalized() {
    let content = b"the attachment".to_vec();
    let forged = b"something else".to_vec();
    let h1 = hash_of(&content);
    let i1 = instance(h1, 1, 10, 0, 3);
    let mut db = AtlasDB::new();
    db.insert_instance(i1.clone());
    let mut downloader = AttachmentsDownloader::new(config());
    downloader.peers.register(1);
    let peers = vec![FakePeer {
        id: 1,
        reachable: true,
        claims: vec![(0, 3)],
        contents: vec![(h1, forged.clone())],
    }];
    let actions = run_cycle(&mut downloader, &mut db, &peers, 100);
    assert_eq!(
        actions,
        vec![
            Action::RequestInventory { peer: 1, pages: vec![0] },
            Action::RequestContent { peer: 1, content_hash: h1 },
            Action::Deferred { instance: i1.clone(), attempts: 1, stalled: false },
            Action::Finished,
        ]
    );
    assert!(!db.is_resolved(&i1));
    assert_eq!(db.list_pending(), vec![i1.clone()]);
    assert_eq!(db.find_attachment(&h1), None);
    assert!(!db.has_attachment(&hash_of(&forged)));
    assert_eq!(penalty(&downloader, 1), 1);
    assert_eq!(downloader.peers.record_of(1).unwrap().unresponsive_until, 160);
    assert_eq!(downloader.retries.attempts(&i1), 1);
    assert!(!downloader.retries.is_due(&i1, 109));
    assert!(downloader.retries.is_due(&i1, 110));
    assert!(downloader.refused.is_empty());
}

#[test]
fn one_fetch_resolves_two_instances_of_the_same_content() {
    let content = b"shared attachment".to_vec();
    let h2 = hash_of(&content);
    let first = instance(h2, 1, 10, 0, 0);
    let second = instance(h2, 2, 11, 1, 5);
    let mut db = AtlasDB::new();
    db.insert_instances(&vec![second.clone(), first.clone()]);
    let mut downloader = AttachmentsDownloader::new(config());
    downloader.peers.register(7);
    let peers = vec![FakePeer {
        id: 7,
        reachable: true,
        claims: vec![(1, 5)],
        contents: vec![(h2, content.clone())],
    }];
    let actions = run_cycle(&mut downloader, &mut db, &peers, 100);
    assert_eq!(
        actions,
        vec![
            Action::RequestInventory { peer: 7, pages: vec![0, 1] },
            Action::Deferred { instance: first.clone(), attempts: 1, stalled: false },
            Action::RequestContent { peer: 7, content_hash: h2 },
            Action::Resolved { instance: second.clone() },
            Action::Finished,
        ]
    );
    assert!(db.is_resolved(&first));
    assert!(db.is_resolved(&second));
    assert_eq!(db.list_pending(), Vec::new());
    assert_eq!(db.list_resolved(), vec![first.clone(), second]);
    assert_eq!(downloader.retries.attempts(&first), 1);
    let actions = run_cycle(&mut downloader, &mut db, &peers, 200);
    assert_eq!(actions, vec![Action::Finished]);
    assert!(downloader.retries.entries.is_empty());
}

#[test]
fn what_was_kept_of_retracted_instances_is_dropped() {
    let kept = instance(hash_of(b"kept"), 1, 10, 0, 0);
    let gone = instance(hash_of(b"gone"), 2, 11, 0, 1);
    let mut table = RetryTable::new();
    table.record_failure(&gone, 1, 10, 1000);
    table.record_failure(&kept, 2, 10, 1000);
    table.record_failure(&kept, 3, 10, 1000);
    table.prune(&vec![kept.clone(), instance(hash_of(b"new"), 3, 12, 0, 2)]);
    assert_eq!(table.entries.len(), 1);
    assert_eq!(table.attempts(&kept), 2);
    assert_eq!(table.attempts(&gone), 0);
    table.prune(&Vec::new());
    assert!(table.entries.is_empty());
    assert_eq!(DownloaderConfig::new(1_048_576).pages_per_request, 8);
    assert_eq!(DownloaderConfig::new(5).attachments_max_size, 5);
}

#[test]
fn the_second_instance_of_fetched_content_needs_no_request() {
    let content = b"shared attachment".to_vec();
    let h2 = hash_of(&content);
    let first = instance(h2, 1, 10, 0, 0);
    let second = instance(h2, 2, 11, 0, 1);
    let mut db = AtlasDB::new();
    db.insert_instances(&vec![first.clone(), second.clone()]);
    let mut downloader = AttachmentsDownloader::new(config());
    downloader.peers.register(7);
    let peers = vec![FakePeer {
        id: 7,
        reachable: true,
        claims: vec![(0, 0), (0, 1)],
        contents: vec![(h2, content)],
    }];
    let actions = run_cycle(&mut downloader, &mut db, &peers, 100);
    assert_eq!(
        actions,
        vec![
            Action::RequestInventory { peer: 7, pages: vec![0] },
            Action::RequestContent { peer: 7, content_hash: h2 },
            Action::Resolved { instance: first },
            Action::Resolved { instance: second },
            Action::Finished,
        ]
    );
    assert_eq!(db.list_pending(), Vec::new());
}

#[test]
fn an_instance_with_the_sentinel_is_never_fetched() {
    let nothing = instance(Hash160::empty(), 1, 10, 0, 0);
    let mut db = AtlasDB::new();
    db.insert_instance(nothing.clone());
    assert!(db.is_resolved(&nothing));
    assert_eq!(db.list_pending(), Vec::new());
    let mut downloader = AttachmentsDownloader::new(config());
    downloader.peers.register(1);
    let peers = vec![FakePeer { id: 1, reachable: true, claims: vec![(0, 0)], contents: vec![] }];
    assert_eq!(run_cycle(&mut downloader, &mut db, &peers, 0), vec![Action::Finished]);
    assert_eq!(db.list_resolved(), vec![nothing]);
}

#[test]
fn the_next_peer_is_tried_when_one_fails() {
    let content = b"the attachment".to_vec();
    let h1 = hash_of(&content);
    let i1 = instance(h1, 1, 10, 4, 2);
    let mut db = AtlasDB::new();
    db.insert_instance(i1.clone());
    let mut downloader = AttachmentsDownloader::new(config());
    for peer in 1..=4 {
        downloader.peers.register(peer);
    }
    let peers = vec![
        FakePeer { id: 1, reachable: false, claims: vec![(4, 2)], contents: vec![] },
        FakePeer { id: 2, reachable: true, claims: vec![], contents: vec![(h1, content.clone())] },
        FakePeer { id: 3, reachable: true, claims: vec![(4, 2)], contents: vec![] },
        FakePeer {
            id: 4,
            reachable: true,
            claims: vec![(4, 2)],
            contents: vec![(h1, content.clone())],
        },
    ];
    let actions = run_cycle(&mut downloader, &mut db, &peers, 100);
    assert_eq!(
        actions,
        vec![
            Action::RequestInventory { peer: 1, pages: vec![4] },
            Action::RequestInventory { peer: 2, pages: vec![4] },
            Action::RequestInventory { peer: 3, pages: vec![4] },
            Action::RequestInventory { peer: 4, pages: vec![4] },
            Action::RequestContent { peer: 3, content_hash: h1 },
            Action::RequestContent { peer: 4, content_hash: h1 },
            Action::Resolved { instance: i1.clone() },
            Action::Finished,
        ]
    );
    assert_eq!(penalty(&downloader, 1), 1);
    assert_eq!(penalty(&downloader, 2), 0);
    assert_eq!(penalty(&downloader, 3), 1);
    assert_eq!(penalty(&downloader, 4), 0);
    assert_eq!(db.find_attachment(&h1), Some(Attachment::new(content)));
    assert_eq!(downloader.peers.select(101, 4), vec![2, 4, 1, 3]);
}

#[test]
fn an_instance_that_no_peer_has_waits_and_stalls() {
    let i1 = instance(hash_of(b"nobody has this"), 1, 10, 0, 0);
    let mut db = AtlasDB::new();
    db.insert_instance(i1.clone());
    let mut downloader = AttachmentsDownloader::new(config());
    downloader.peers.register(1);
    let peers = vec![FakePeer { id: 1, reachable: true, claims: vec![], contents: vec![] }];
    assert_eq!(
        run_cycle(&mut downloader, &mut db, &peers, 100),
        vec![
            Action::RequestInventory { peer: 1, pages: vec![0] },
            Action::Deferred { instance: i1.clone(), attempts: 1, stalled: false },
            Action::Finished,
        ]
    );
    assert_eq!(penalty(&downloader, 1), 0);
    assert_eq!(run_cycle(&mut downloader, &mut db, &peers, 105), vec![Action::Finished]);
    assert_eq!(
        run_cycle(&mut downloader, &mut db, &peers, 110),
        vec![
            Action::RequestInventory { peer: 1, pages: vec![0] },
            Action::Deferred { instance: i1.clone(), attempts: 2, stalled: false },
            Action::Finished,
        ]
    );
    assert_eq!(run_cycle(&mut downloader, &mut db, &peers, 129), vec![Action::Finished]);
    assert_eq!(
        run_cycle(&mut downloader, &mut db, &peers, 130),
        vec![
            Action::RequestInventory { peer: 1, pages: vec![0] },
            Action::Deferred { instance: i1.clone(), attempts: 3, stalled: true },
            Action::Finished,
        ]
    );
    assert_eq!(db.list_pending(), vec![i1.clone()]);
    let with_content = vec![FakePeer {
        id: 1,
        reachable: true,
        claims: vec![(0, 0)],
        contents: vec![(i1.content_hash, b"nobody has this".to_vec())],
    }];
    assert_eq!(run_cycle(&mut downloader, &mut db, &with_content, 169), vec![Action::Finished]);
    assert_eq!(
        run_cycle(&mut downloader, &mut db, &with_content, 170),
        vec![
            Action::RequestInventory { peer: 1, pages: vec![0] },
            Action::RequestContent { peer: 1, content_hash: i1.content_hash },
            Action::Resolved { instance: i1.clone() },
            Action::Finished,
        ]
    );
    assert_eq!(downloader.retries.attempts(&i1), 0);
    assert!(downloader.retries.entries.is_empty());
}

#[test]
fn oversize_content_is_refused_and_its_peer_not_asked_again() {
    let content = vec![3u8; 65];
    let h1 = hash_of(&content);
    let i1 = instance(h1, 1, 10, 0, 0);
    let mut db = AtlasDB::new();
    db.insert_instance(i1.clone());
    let mut small = config();
    small.attachments_max_size = 64;
    let mut downloader = AttachmentsDownloader::new(small);
    downloader.peers.register(1);
    let peers = vec![FakePeer {
        id: 1,
        reachable: true,
        claims: vec![(0, 0)],
        contents: vec![(h1, content.clone())],
    }];
    assert_eq!(
        run_cycle(&mut downloader, &mut db, &peers, 100),
        vec![
            Action::RequestInventory { peer: 1, pages: vec![0] },
            Action::RequestContent { peer: 1, content_hash: h1 },
            Action::Deferred { instance: i1.clone(), attempts: 1, stalled: false },
            Action::Finished,
        ]
    );
    assert_eq!(db.find_attachment(&h1), None);
    assert!(!db.has_attachment(&h1));
    assert_eq!(downloader.refused, vec![RefusedSource { peer: 1, content_hash: h1 }]);
    assert_eq!(penalty(&downloader, 1), 1);
    assert_eq!(
        run_cycle(&mut downloader, &mut db, &peers, 500),
        vec![
            Action::RequestInventory { peer: 1, pages: vec![0] },
            Action::Deferred { instance: i1.clone(), attempts: 2, stalled: false },
            Action::Finished,
        ]
    );
    assert_eq!(penalty(&downloader, 1), 1);
    assert_eq!(db.list_pending(), vec![i1]);
}

#[test]
fn content_of_the_largest_size_is_stored_by_a_cycle() {
    let content = vec![3u8; 64];
    let h1 = hash_of(&content);
    let i1 = instance(h1, 1, 10, 0, 0);
    let mut db = AtlasDB::new();
    db.insert_instance(i1.clone());
    let mut small = config();
    small.attachments_max_size = 64;
    let mut downloader = AttachmentsDownloader::new(small);
    downloader.peers.register(1);
    let peers = vec![FakePeer {
        id: 1,
        reachable: true,
        claims: vec![(0, 0)],
        contents: vec![(h1, content.clone())],
    }];
    let actions = run_cycle(&mut downloader, &mut db, &peers, 100);
    assert_eq!(actions[2], Action::Resolved { instance: i1 });
    assert_eq!(db.find_attachment(&h1), Some(Attachment::new(content)));
}

#[test]
fn a_cycle_works_on_a_bounded_set_and_asks_in_bounded_requests() {
    let mut db = AtlasDB::new();
    let mut all = Vec::new();
    for page in 0..20u32 {
        all.push(instance(hash_of(&page.to_be_bytes()), 1, 10, page, 0));
    }
    db.insert_instances(&all);
    let mut bounded = config();
    bounded.max_working_set = 10;
    bounded.pages_per_request = 4;
    bounded.max_peers = 1;
    let mut downloader = AttachmentsDownloader::new(bounded);
    downloader.peers.register(1);
    let peers = vec![FakePeer { id: 1, reachable: true, claims: vec![], contents: vec![] }];
    let actions = run_cycle(&mut downloader, &mut db, &peers, 100);
    assert_eq!(actions.len(), 3 + 10 + 1);
    assert_eq!(actions[0], Action::RequestInventory { peer: 1, pages: vec![0, 1, 2, 3] });
    assert_eq!(actions[1], Action::RequestInventory { peer: 1, pages: vec![4, 5, 6, 7] });
    assert_eq!(actions[2], Action::RequestInventory { peer: 1, pages: vec![8, 9] });
    assert_eq!(
        actions[3],
        Action::Deferred { instance: all[0].clone(), attempts: 1, stalled: false }
    );
    assert_eq!(
        actions[12],
        Action::Deferred { instance: all[9].clone(), attempts: 1, stalled: false }
    );
    assert_eq!(downloader.inventories.len(), 3);
    let next = run_cycle(&mut downloader, &mut db, &peers, 101);
    assert_eq!(next[0], Action::RequestInventory { peer: 1, pages: vec![10, 11, 12, 13] });
    assert_eq!(next.len(), 3 + 10 + 1);
}

#[test]
fn an_answer_of_the_wrong_kind_counts_against_the_peer() {
    let content = b"the attachment".to_vec();
    let h1 = hash_of(&content);
    let i1 = instance(h1, 1, 10, 0, 0);
    let mut db = AtlasDB::new();
    db.insert_instance(i1.clone());
    let mut downloader = AttachmentsDownloader::new(config());
    downloader.peers.register(1);
    downloader.peers.register(2);
    assert_eq!(
        downloader.begin_cycle(&db, 100),
        Action::RequestInventory { peer: 1, pages: vec![0] }
    );
    assert_eq!(downloader.phase, Phase::AwaitInventory);
    assert_eq!(
        downloader.handle(&mut db, Event::Content(content.clone()), 100),
        Action::RequestInventory { peer: 2, pages: vec![0] }
    );
    assert_eq!(penalty(&downloader, 1), 1);
    assert_eq!(db.find_attachment(&h1), None);
    assert_eq!(
        downloader.handle(
            &mut db,
            Event::Inventory(vec![InventoryPage { index: 0, bits: vec![true] }]),
            100
        ),
        Action::RequestContent { peer: 2, content_hash: h1 }
    );
    assert_eq!(downloader.phase, Phase::AwaitContent);
    assert_eq!(
        downloader.handle(&mut db, Event::Resume, 100),
        Action::Deferred { instance: i1.clone(), attempts: 1, stalled: false }
    );
    assert_eq!(penalty(&downloader, 2), 1);
    assert_eq!(downloader.phase, Phase::Ready);
    assert_eq!(downloader.handle(&mut db, Event::Resume, 100), Action::Finished);
    assert_eq!(downloader.phase, Phase::Idle);
    assert_eq!(db.list_pending(), vec![i1]);
}

#[test]
fn this_node_answers_requests_of_its_peers() {
    let content = vec![5u8; 10];
    let h1 = hash_of(&content);
    let mut db = AtlasDB::new();
    db.insert_instances(&vec![
        instance(h1, 1, 10, 0, 1),
        instance(hash_of(b"missing"), 1, 10, 0, 2),
        instance(h1, 1, 10, 3, 0),
    ]);
    assert_eq!(db.store_attachment(&h1, Attachment::new(content.clone())), Ok(()));
    let answer = local_inventory(&db, &vec![0, 3, 7], 4, MAX_ATTACHMENT_INV_PAGES_PER_REQUEST);
    assert_eq!(
        answer,
        vec![
            InventoryPage { index: 0, bits: vec![false, true, false, false] },
            InventoryPage { index: 3, bits: vec![true, false, false, false] },
            InventoryPage { index: 7, bits: vec![false, false, false, false] },
        ]
    );
    assert_eq!(local_inventory(&db, &vec![0, 3, 7], 4, 2).len(), 2);
    assert_eq!(local_inventory(&db, &vec![0, 3, 7], 4, 0), Vec::new());
    assert_eq!(local_inventory(&db, &(0..20).collect(), 1, 8).len(), 8);
    assert_eq!(serve_content(&db, &h1, 10), Some(content.clone()));
    assert_eq!(serve_content(&db, &h1, 1_048_576), Some(content));
    assert_eq!(serve_content(&db, &h1, 9), None);
    assert_eq!(serve_content(&db, &hash_of(b"missing"), 1_048_576), None);
}
