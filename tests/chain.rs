use ckb_chain_index::consensus::{Consensus, Ratio};
use ckb_chain_index::shared::{block_proposal_ids, ProcessError, Shared, SharedError};
use ckb_chain_index::store::{ChainStore, StoreError};
use ckb_chain_index::types::{
    Block, BlockExt, CellInput, CellOutput, CellStatus, H256, Header, OutPoint, ProposalShortId, Script, Transaction,
    TransactionMeta, UncleBlock,
};

fn h(a: u64, b: u64) -> H256 {
    H256 { w0: a, w1: b, w2: 0, w3: 0 }
}

fn header(id: u64, number: u64, parent: H256, difficulty: u128) -> Header {
    Header {
        hash: h(0xb000 + id, 0),
        parent_hash: parent,
        number,
        timestamp: 0,
        difficulty,
        nonce: 0,
        proposals_root: H256::zero(),
        txs_root: H256::zero(),
    }
}

fn output(capacity: u64) -> CellOutput {
    CellOutput { capacity, data_hash: H256::zero(), lock_hash: h(1, 1), type_hash: None }
}

fn tx(id: u64, inputs: Vec<OutPoint>, outputs: Vec<CellOutput>) -> Transaction {
    Transaction {
        hash: h(0x7000 + id, 0),
        inputs: inputs.into_iter().map(|p| CellInput { previous_output: p, since: 0 }).collect(),
        outputs,
        deps: vec![],
        witnesses: vec![],
    }
}

fn uncle(id: u64, proposals: Vec<ProposalShortId>) -> UncleBlock {
    UncleBlock { header: header(0x900 + id, 1, H256::zero(), 1), proposals }
}

fn pid(x: u128) -> ProposalShortId {
    ProposalShortId { id: x }
}

fn genesis(txs: Vec<Transaction>) -> Block {
    Block { header: header(0, 0, H256::zero(), 1000), transactions: txs, proposals: vec![], uncles: vec![] }
}

/// Extends the canonical chain by blocks 1..=n; `f` fills block i.
fn chain_of(n: u64, consensus: Consensus, f: &dyn Fn(u64) -> (Vec<Transaction>, Vec<ProposalShortId>, Vec<UncleBlock>)) -> (Shared, Vec<Header>) {
    let mut shared = Shared::new(ChainStore::new(), consensus);
    let mut parent = shared.tip_header().inner;
    let mut headers = vec![parent];
    for i in 1..=n {
        let (transactions, proposals, uncles) = f(i);
        let b = Block { header: header(i, i, parent.hash, parent.difficulty), transactions, proposals, uncles };
        parent = b.header;
        shared.process_block(b, 0).unwrap();
        headers.push(parent);
    }
    (shared, headers)
}

fn retarget_consensus() -> Consensus {
    Consensus::new(genesis(vec![]))
        .set_difficulty_adjustment_interval(10)
        .set_orphan_rate_target(Ratio { numer: 1, denom: 5 })
        .set_min_difficulty(0x100)
}

#[test]
fn difficulty_retarget_is_capped() {
    let (shared, headers) = chain_of(9, retarget_consensus(), &|i| {
        let uncles = if i == 5 { (0..5).map(|k| uncle(k, vec![])).collect() } else { vec![] };
        (vec![], vec![], uncles)
    });
    let last = headers[9];
    assert_eq!(shared.block_ext(&last.hash).unwrap().total_uncles_count, 5);
    // 1000 x 5 x 5 / 10 = 2500, held to 2000
    assert_eq!(shared.calculate_difficulty(&last), Some(2000));
    // off the boundary the difficulty stays
    assert_eq!(shared.calculate_difficulty(&headers[8]), Some(1000));
}

#[test]
fn difficulty_retarget_in_range_and_floor() {
    let (shared, headers) = chain_of(9, retarget_consensus(), &|i| {
        let uncles = if i == 2 { (0..3).map(|k| uncle(k, vec![])).collect() } else { vec![] };
        (vec![], vec![], uncles)
    });
    // 1000 x 3 x 5 / 10 = 1500
    assert_eq!(shared.calculate_difficulty(&headers[9]), Some(1500));
    let (shared, headers) = chain_of(9, retarget_consensus(), &|_| (vec![], vec![], vec![]));
    // no uncles: raised to the minimum
    assert_eq!(shared.calculate_difficulty(&headers[9]), Some(0x100));
}

#[test]
fn transaction_fee_and_errors() {
    let funding = tx(1, vec![], vec![output(100), output(u64::MAX), output(u64::MAX)]);
    let (shared, _) = chain_of(1, Consensus::new(genesis(vec![funding.clone()])), &|_| (vec![], vec![], vec![]));
    let ok = tx(2, vec![OutPoint { tx_hash: funding.hash, index: 0 }], vec![output(60), output(30)]);
    assert_eq!(shared.calculate_transaction_fee(&ok), Ok(10));
    let missing = tx(3, vec![OutPoint { tx_hash: h(0xdead, 0), index: 0 }], vec![]);
    assert_eq!(shared.calculate_transaction_fee(&missing), Err(SharedError::InvalidInput));
    let bad_index = tx(4, vec![OutPoint { tx_hash: funding.hash, index: 7 }], vec![]);
    assert_eq!(shared.calculate_transaction_fee(&bad_index), Err(SharedError::InvalidInput));
    let too_much = tx(5, vec![OutPoint { tx_hash: funding.hash, index: 0 }], vec![output(101)]);
    assert_eq!(shared.calculate_transaction_fee(&too_much), Err(SharedError::InvalidOutput));
    let overflow = tx(
        6,
        vec![OutPoint { tx_hash: funding.hash, index: 1 }, OutPoint { tx_hash: funding.hash, index: 2 }],
        vec![],
    );
    assert_eq!(shared.calculate_transaction_fee(&overflow), Err(SharedError::CapacityOverflow));
    assert!(shared.contain_transaction(&funding.hash));
    assert!(!shared.contain_transaction(&ok.hash));
}

#[test]
fn union_of_proposals() {
    let (shared, _) = chain_of(3, Consensus::new(genesis(vec![])), &|i| {
        let proposals = vec![pid(i as u128), pid(100), pid(i as u128)];
        let uncles = if i == 3 { vec![uncle(1, vec![pid(100), pid(7)])] } else { vec![] };
        (vec![], proposals, uncles)
    });
    let sets = shared.union_proposal_ids_n(3, 2);
    assert_eq!(sets.len(), 2);
    let mut s0: Vec<u128> = sets[0].iter().map(|p| p.id).collect();
    s0.sort();
    assert_eq!(s0, vec![3, 7, 100]);
    let mut s1: Vec<u128> = sets[1].iter().map(|p| p.id).collect();
    s1.sort();
    assert_eq!(s1, vec![2, 100]);
    // clipped at block 1
    assert_eq!(shared.union_proposal_ids_n(2, 5).len(), 2);
    // unknown number
    assert_eq!(shared.union_proposal_ids_n(9, 2).len(), 0);
    let b = Block { header: header(50, 1, H256::zero(), 1), transactions: vec![], proposals: vec![pid(1), pid(1)], uncles: vec![] };
    assert_eq!(block_proposal_ids(&b), vec![pid(1)]);
}

#[test]
fn ancestors_on_and_off_the_chain() {
    let (mut shared, headers) = chain_of(4, Consensus::new(genesis(vec![])), &|_| (vec![], vec![], vec![]));
    assert_eq!(shared.get_ancestor(&headers[4].hash, 2), Some(headers[2]));
    assert_eq!(shared.get_ancestor(&headers[4].hash, 4), Some(headers[4]));
    assert_eq!(shared.get_ancestor(&headers[2].hash, 3), None);
    assert_eq!(shared.get_ancestor(&h(0xdead, 0), 0), None);
    // a lighter fork from block 2 stays off the canonical chain
    let f3 = header(30, 3, headers[2].hash, 1);
    let f4 = header(40, 4, f3.hash, 1);
    shared.process_block(Block { header: f3, transactions: vec![], proposals: vec![], uncles: vec![] }, 0).unwrap();
    shared.process_block(Block { header: f4, transactions: vec![], proposals: vec![], uncles: vec![] }, 0).unwrap();
    assert_eq!(shared.tip_header().inner, headers[4]);
    assert_eq!(shared.block_number(&f4.hash), None);
    assert_eq!(shared.get_ancestor(&f4.hash, 3), Some(f3));
    assert_eq!(shared.get_ancestor(&f4.hash, 1), Some(headers[1]));
    assert_eq!(shared.get_ancestor(&f4.hash, 5), None);
}

#[test]
fn reorganisation_switches_the_tip() {
    let (mut shared, headers) = chain_of(2, Consensus::new(genesis(vec![])), &|_| (vec![], vec![], vec![]));
    let f2 = header(20, 2, headers[1].hash, 5000);
    let change = shared
        .process_block(Block { header: f2, transactions: vec![], proposals: vec![], uncles: vec![] }, 0)
        .unwrap();
    assert_eq!(change.detached_blocks.len(), 1);
    assert_eq!(change.detached_blocks[0].header, headers[2]);
    assert_eq!(change.attached_blocks.len(), 1);
    assert_eq!(change.attached_blocks[0].header, f2);
    // a block that does not outweigh the tip changes nothing
    let light = header(21, 2, headers[1].hash, 1);
    let quiet = shared
        .process_block(Block { header: light, transactions: vec![], proposals: vec![], uncles: vec![] }, 0)
        .unwrap();
    assert!(quiet.detached_blocks.is_empty() && quiet.attached_blocks.is_empty());
    // a deeper reorganisation lists what left newest first and what joined oldest first
    let g2 = header(31, 2, headers[1].hash, 1);
    let g3 = header(32, 3, g2.hash, 100_000);
    shared.process_block(Block { header: g2, transactions: vec![], proposals: vec![], uncles: vec![] }, 0).unwrap();
    let deep = shared
        .process_block(Block { header: g3, transactions: vec![], proposals: vec![], uncles: vec![] }, 0)
        .unwrap();
    assert_eq!(deep.detached_blocks.iter().map(|b| b.header).collect::<Vec<_>>(), vec![f2]);
    assert_eq!(deep.attached_blocks.iter().map(|b| b.header).collect::<Vec<_>>(), vec![g2, g3]);
    assert_eq!(shared.tip_header().inner, g3);
    assert_eq!(shared.block_ext(&f2.hash).unwrap().total_difficulty, 1000 * 2 + 5000);
    assert_eq!(shared.block_hash(2), Some(g2.hash));
    assert_eq!(shared.block_number(&headers[2].hash), None);
    assert_eq!(shared.block_number(&f2.hash), None);
    assert_eq!(
        shared.block_ext(&f2.hash),
        Some(BlockExt { total_difficulty: 7000, total_uncles_count: 0, received_at: 0 })
    );
    let dup = shared.process_block(Block { header: f2, transactions: vec![], proposals: vec![], uncles: vec![] }, 0);
    assert_eq!(dup.err(), Some(ProcessError::Duplicate));
    let orphan = header(99, 7, h(0xdead, 0), 1);
    let r = shared.process_block(Block { header: orphan, transactions: vec![], proposals: vec![], uncles: vec![] }, 0);
    assert_eq!(r.err(), Some(ProcessError::UnknownParent));
}

#[test]
fn store_rejects_orphans_and_duplicates() {
    let mut store = ChainStore::new();
    let g = genesis(vec![]);
    store.init(g.clone());
    assert_eq!(store.insert_block(g.clone(), 0), Err(StoreError::Duplicate));
    let orphan = Block { header: header(5, 5, h(0xdead, 0), 1), transactions: vec![], proposals: vec![], uncles: vec![] };
    assert_eq!(store.insert_block(orphan, 0), Err(StoreError::UnknownParent));
    let wrong_number = Block { header: header(6, 3, g.header.hash, 1), transactions: vec![], proposals: vec![], uncles: vec![] };
    assert_eq!(store.insert_block(wrong_number, 0), Err(StoreError::UnknownParent));
    let b1 = Block {
        header: header(1, 1, g.header.hash, 7),
        transactions: vec![],
        proposals: vec![],
        uncles: vec![uncle(1, vec![]), uncle(2, vec![])],
    };
    assert_eq!(store.insert_block(b1.clone(), 9), Ok(()));
    assert_eq!(store.get_header(&b1.header.hash), Some(b1.header));
    assert_eq!(store.get_block_number(&b1.header.hash), None);
    assert_eq!(
        store.get_block_ext(&b1.header.hash),
        Some(BlockExt { total_difficulty: 1007, total_uncles_count: 2, received_at: 9 })
    );
    let heavy = Block { header: header(2, 2, b1.header.hash, u128::MAX), transactions: vec![], proposals: vec![], uncles: vec![] };
    assert_eq!(store.insert_block(heavy, 0), Err(StoreError::Overflow));
}

#[test]
fn fingerprints_and_witnesses() {
    let mut bytes: Vec<u8> = (0u8..32).collect();
    let x = H256::from_slice(&bytes).unwrap();
    assert_eq!(x.w0, 0x0001020304050607);
    assert_eq!(x.w3, 0x18191a1b1c1d1e1f);
    assert!(H256::from_slice(&bytes[..31].to_vec()).is_none());
    let id = ProposalShortId::from_tx_hash(&x);
    assert_eq!(id.id, 0x0001_0203_0405_0607_0809);
    assert!(H256::zero().less_than(&x));
    bytes.reverse();
    let w = vec![b"b0b".to_vec(), (0u8..32).collect::<Vec<u8>>()];
    let s = Script::from_witness(&w).unwrap();
    assert_eq!(s, Script { code_hash: x, args: vec![b"b0b".to_vec()] });
    assert!(Script::from_witness(&vec![]).is_none());
    assert!(Script::from_witness(&vec![vec![1, 2, 3]]).is_none());
    assert!(tx(1, vec![], vec![]).proposal_short_id() != tx(2, vec![], vec![]).proposal_short_id());
    let cellbase = Transaction {
        hash: h(9, 9),
        inputs: vec![CellInput::new_cellbase_input(3)],
        outputs: vec![],
        deps: vec![],
        witnesses: vec![],
    };
    assert!(cellbase.is_cellbase());
    assert!(!tx(1, vec![OutPoint { tx_hash: h(1, 0), index: 0 }], vec![]).is_cellbase());
}

#[test]
fn cell_status_by_output_root() {
    let funding = tx(1, vec![], vec![output(100), output(200)]);
    let (mut shared, headers) = chain_of(2, Consensus::new(genesis(vec![funding.clone()])), &|_| (vec![], vec![], vec![]));
    let op0 = OutPoint { tx_hash: funding.hash, index: 0 };
    let op1 = OutPoint { tx_hash: funding.hash, index: 1 };
    let op9 = OutPoint { tx_hash: funding.hash, index: 9 };
    // no output root recorded: the tip's root is zero and nothing is known
    assert_eq!(shared.tip_header().output_root, H256::zero());
    assert_eq!(shared.cell(&op0), CellStatus::Unknown);

    let root_old = h(0x5000, 1);
    let root_tip = h(0x5000, 2);
    shared.insert_output_root(headers[1].hash, root_old);
    shared.insert_transaction_meta(root_old, funding.hash, TransactionMeta { spent: vec![false, false] });
    shared.insert_output_root(headers[2].hash, root_tip);
    shared.insert_transaction_meta(root_tip, funding.hash, TransactionMeta { spent: vec![true, false] });
    assert_eq!(shared.tip_header().output_root, root_tip);
    assert_eq!(shared.output_root(&headers[1].hash), Some(root_old));

    assert_eq!(shared.cell(&op0), CellStatus::Old);
    assert_eq!(shared.cell(&op1), CellStatus::Current(output(200)));
    assert_eq!(shared.cell(&op9), CellStatus::Unknown);
    assert_eq!(shared.cell_at(&op0, &headers[1].hash), CellStatus::Current(output(100)));
    assert_eq!(shared.cell_at(&op0, &headers[0].hash), CellStatus::Unknown);
    assert_eq!(shared.get_transaction_meta_at(&funding.hash, &headers[1].hash).map(|m| m.spent.clone()), Some(vec![false, false]));
    assert!(shared.get_transaction_meta(&h(0xdead, 0)).is_none());
}

#[test]
fn builder_defaults() {
    let shared = ckb_chain_index::shared::SharedBuilder::new_memory().build();
    assert_eq!(shared.block_reward(0), 50);
    assert_eq!(shared.tip_header().number(), 0);
    assert_eq!(shared.genesis_hash(), H256::zero());
    let custom = ckb_chain_index::shared::SharedBuilder::new_memory()
        .consensus(Consensus::new(genesis(vec![])))
        .build();
    assert_eq!(custom.block_reward(7), 1_000 * 100_000_000);
    assert_eq!(custom.tip_header().hash(), header(0, 0, H256::zero(), 1000).hash);
    assert_eq!(custom.tip_header().total_difficulty(), 1000);
}
