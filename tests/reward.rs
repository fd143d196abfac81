use ckb_chain_index::consensus::Consensus;
use ckb_chain_index::shared::{Shared, SharedError};
use ckb_chain_index::store::ChainStore;
use ckb_chain_index::types::{
    Block, BlockNumber, Capacity, CellInput, CellOutput, H256, Header, OutPoint, ProposalShortId, Script,
    Transaction, UncleBlock,
};

const SHANNONS: u64 = 100_000_000;
const TX_FEE: Capacity = 10 * SHANNONS;
const BLOCK_REWARD: Capacity = 1_000 * SHANNONS;

fn h(a: u64, b: u64) -> H256 {
    H256 { w0: a, w1: b, w2: 0, w3: 0 }
}

fn hash_bytes(x: &H256) -> Vec<u8> {
    let mut v = Vec::new();
    for w in [x.w0, x.w1, x.w2, x.w3] {
        v.extend_from_slice(&w.to_be_bytes());
    }
    v
}

fn into_witness(s: &Script) -> Vec<Vec<u8>> {
    let mut w = s.args.clone();
    w.push(hash_bytes(&s.code_hash));
    w
}

fn always_success_script() -> Script {
    Script { code_hash: h(0xa1, 0), args: vec![] }
}

fn output(capacity: Capacity, lock: &Script) -> CellOutput {
    CellOutput { capacity, data_hash: H256::zero(), lock_hash: lock.code_hash, type_hash: None }
}

fn create_cellbase(number: BlockNumber, miner_lock: &Script, reward_lock: &Script, reward: Option<Capacity>) -> Transaction {
    Transaction {
        hash: h(0xc0_0000 + number, 0),
        inputs: vec![CellInput::new_cellbase_input(number)],
        outputs: vec![output(reward.unwrap_or(BLOCK_REWARD), reward_lock)],
        deps: vec![],
        witnesses: vec![into_witness(miner_lock)],
    }
}

fn gen_block(
    parent: &Header,
    transactions: Vec<Transaction>,
    proposals: Vec<ProposalShortId>,
    uncles: Vec<UncleBlock>,
    miner_lock: &Script,
    reward_lock: &Script,
    reward: Option<Capacity>,
) -> Block {
    let number = parent.number + 1;
    let mut txs = vec![create_cellbase(number, miner_lock, reward_lock, reward)];
    txs.extend(transactions);
    let header = Header {
        hash: h(0xb0_0000 + number, 0),
        parent_hash: parent.hash,
        number,
        timestamp: parent.timestamp + 20_000,
        difficulty: parent.difficulty,
        nonce: 0,
        proposals_root: H256::zero(),
        txs_root: H256::zero(),
    };
    Block { header, transactions: txs, proposals, uncles }
}

fn create_transaction(parent: &Transaction, index: u32, serial: u64) -> Transaction {
    Transaction {
        hash: h(0x7700 + serial, 0),
        inputs: vec![CellInput { previous_output: OutPoint { tx_hash: parent.hash, index }, since: 0 }],
        outputs: vec![output(parent.outputs[0].capacity - TX_FEE, &always_success_script())],
        deps: vec![],
        witnesses: vec![],
    }
}

fn genesis_with(tx: Transaction) -> Block {
    Block {
        header: Header {
            hash: h(0xb0_0000, 0),
            parent_hash: H256::zero(),
            number: 0,
            timestamp: 0,
            difficulty: 0x100,
            nonce: 0,
            proposals_root: H256::zero(),
            txs_root: H256::zero(),
        },
        transactions: vec![tx],
        proposals: vec![],
        uncles: vec![],
    }
}

fn proposer_share(fee: Capacity, consensus: &Consensus) -> Capacity {
    let r = consensus.proposer_reward_ratio();
    ((fee as u128) * (r.numer as u128) / (r.denom as u128)) as u64
}

#[test]
fn finalize_reward() {
    let always_success = always_success_script();
    let tx = Transaction {
        hash: h(0x7700, 0),
        inputs: vec![CellInput { previous_output: OutPoint::null(), since: 0 }],
        outputs: vec![output(5_000 * SHANNONS, &always_success)],
        deps: vec![],
        witnesses: vec![],
    };
    let consensus = Consensus::new(genesis_with(tx.clone())).set_cellbase_maturity(0);
    let mut shared = Shared::new(ChainStore::new(), consensus);
    let mut parent = shared.tip_header().inner;

    let mut txs = Vec::with_capacity(16);
    let mut tx_parent = tx;
    for i in 0..16 {
        tx_parent = create_transaction(&tx_parent, 0, i + 1);
        txs.push(tx_parent.clone());
    }
    let ids: Vec<ProposalShortId> = txs.iter().map(Transaction::proposal_short_id).collect();

    let bob = Script { args: vec![b"b0b".to_vec()], code_hash: always_success.code_hash };
    let alice = Script { args: vec![b"a11ce".to_vec()], code_hash: always_success.code_hash };

    let mut blocks = Vec::with_capacity(24);
    for i in 1..23 {
        let proposals = if i == 12 {
            ids.iter().take(8).cloned().collect()
        } else if i == 13 {
            ids.clone()
        } else {
            vec![]
        };
        let miner_lock = if i == 12 {
            bob.clone()
        } else if i == 13 {
            alice.clone()
        } else {
            always_success.clone()
        };
        let block_txs = if i == 22 { txs.iter().take(12).cloned().collect() } else { vec![] };
        let block = gen_block(&parent, block_txs, proposals, vec![], &miner_lock, &always_success, None);
        parent = block.header;
        shared.process_block(block.clone(), 0).expect("process block ok");
        blocks.push(block);
    }

    let (target, reward) = shared.finalize_block_reward(&blocks[21].header).unwrap();
    assert_eq!(target, bob);

    // bob proposed 8 txs in 12, committed in 22
    let bob_reward = proposer_share(TX_FEE, shared.consensus()) * 8 + BLOCK_REWARD;
    assert_eq!(reward, bob_reward);

    let block = gen_block(&parent, txs.iter().skip(12).cloned().collect(), vec![], vec![], &always_success, &target, Some(bob_reward));
    parent = block.header;
    shared.process_block(block.clone(), 0).expect("process block ok");

    let (target, reward) = shared.finalize_block_reward(&block.header).unwrap();
    assert_eq!(target, alice);

    // alice proposed 16 txs in block 13, committed in 22 and 23, but bob
    // proposed 8 of them earlier
    let alice_reward = proposer_share(TX_FEE, shared.consensus()) * 8 + BLOCK_REWARD;
    assert_eq!(reward, alice_reward);

    let block = gen_block(&parent, vec![], vec![], vec![], &always_success, &target, Some(alice_reward));
    shared.process_block(block, 0).expect("process block ok");
}

#[test]
fn basic_reward_without_commits() {
    let always_success = always_success_script();
    let miner = Script { args: vec![b"m1".to_vec()], code_hash: always_success.code_hash };
    let consensus = Consensus::new(genesis_with(create_cellbase(0, &always_success, &always_success, None)));
    let mut shared = Shared::new(ChainStore::new(), consensus);
    let mut parent = shared.tip_header().inner;
    let mut headers = vec![];
    for i in 1..12 {
        let lock = if i == 1 { &miner } else { &always_success };
        let block = gen_block(&parent, vec![], vec![], vec![], lock, &always_success, None);
        parent = block.header;
        shared.process_block(block, 0).unwrap();
        headers.push(parent);
    }
    // the parent at 11 finalizes block 1
    let (target, reward) = shared.finalize_block_reward(&headers[10]).unwrap();
    assert_eq!(target, miner);
    assert_eq!(reward, BLOCK_REWARD);
    // too early to finalize anything
    assert_eq!(shared.finalize_block_reward(&headers[0]), Err(SharedError::UnknownTarget));
}

#[test]
fn earliest_proposer_is_credited() {
    // a transaction proposed by two blocks credits only the earlier one
    let always_success = always_success_script();
    let tx = Transaction {
        hash: h(0x7700, 0),
        inputs: vec![CellInput { previous_output: OutPoint::null(), since: 0 }],
        outputs: vec![output(100 * SHANNONS, &always_success)],
        deps: vec![],
        witnesses: vec![],
    };
    let consensus = Consensus::new(genesis_with(tx.clone()));
    let mut shared = Shared::new(ChainStore::new(), consensus);
    let mut parent = shared.tip_header().inner;
    let spend = create_transaction(&tx, 0, 1);
    let p1 = Script { args: vec![b"p1".to_vec()], code_hash: always_success.code_hash };
    let p2 = Script { args: vec![b"p2".to_vec()], code_hash: always_success.code_hash };
    let mut headers = vec![];
    for i in 1..16 {
        let proposals = if i == 3 || i == 4 { vec![spend.proposal_short_id()] } else { vec![] };
        let lock = if i == 3 { &p1 } else if i == 4 { &p2 } else { &always_success };
        let txs = if i == 8 { vec![spend.clone()] } else { vec![] };
        let block = gen_block(&parent, txs, proposals, vec![], lock, &always_success, None);
        parent = block.header;
        shared.process_block(block, 0).unwrap();
        headers.push(parent);
    }
    let share = proposer_share(TX_FEE, shared.consensus());
    let (t1, r1) = shared.finalize_block_reward(&headers[12]).unwrap();
    assert_eq!(t1, p1);
    assert_eq!(r1, BLOCK_REWARD + share);
    let (t2, r2) = shared.finalize_block_reward(&headers[13]).unwrap();
    assert_eq!(t2, p2);
    assert_eq!(r2, BLOCK_REWARD);
}
