use ckb_chain_index::consensus::Consensus;
use ckb_chain_index::lock_index::DefaultWalletStore;
use ckb_chain_index::shared::Shared;
use ckb_chain_index::store::ChainStore;
use ckb_chain_index::types::{Block, CellInput, CellOutput, H256, Header, OutPoint, Transaction};

const SHANNONS: u64 = 100_000_000;

fn h(a: u64, b: u64) -> H256 {
    H256 { w0: a, w1: b, w2: 0, w3: 0 }
}

// lock fingerprints of the two scripts under test
fn script1() -> H256 {
    h(0xda0, 1)
}

fn script2() -> H256 {
    h(0xda0, 2)
}

fn dao_code_hash() -> H256 {
    h(0xda0, 0)
}

fn output(capacity_bytes: u64, lock: H256) -> CellOutput {
    CellOutput { capacity: capacity_bytes * SHANNONS, data_hash: H256::zero(), lock_hash: lock, type_hash: None }
}

fn tx(id: u64, inputs: Vec<OutPoint>, outputs: Vec<CellOutput>) -> Transaction {
    Transaction {
        hash: h(0x7000 + id, 0),
        inputs: inputs.into_iter().map(|p| CellInput { previous_output: p, since: 0 }).collect(),
        outputs,
        deps: vec![],
        witnesses: vec![],
    }
}

fn header(id: u64, number: u64, parent: H256, difficulty: u128) -> Header {
    Header {
        hash: h(0xb000 + id, 0),
        parent_hash: parent,
        number,
        timestamp: 0,
        difficulty,
        nonce: 0,
        proposals_root: H256::zero(),
        txs_root: H256::zero(),
    }
}

fn block(header: Header, transactions: Vec<Transaction>) -> Block {
    Block { header, transactions, proposals: vec![], uncles: vec![] }
}

fn setup() -> (DefaultWalletStore, Shared) {
    let genesis = block(header(0, 0, H256::zero(), 0x100), vec![]);
    let shared = Shared::new(ChainStore::new(), Consensus::new(genesis));
    (DefaultWalletStore::new(), shared)
}

struct Fixture {
    tx11: Transaction,
    tx12: Transaction,
    tx21: Transaction,
    tx22: Transaction,
    tx31: Transaction,
    tx32: Transaction,
}

fn fixture() -> Fixture {
    let tx11 = tx(11, vec![], vec![output(1000, script1())]);
    let tx12 = tx(12, vec![], vec![output(2000, script2())]);
    let tx21 = tx(21, vec![], vec![output(3000, script1())]);
    let tx22 = tx(22, vec![], vec![output(4000, script2())]);
    let tx31 = tx(31, vec![OutPoint { tx_hash: tx11.hash, index: 0 }], vec![output(5000, script1())]);
    let tx32 = tx(32, vec![OutPoint { tx_hash: tx12.hash, index: 0 }], vec![output(6000, script2())]);
    Fixture { tx11, tx12, tx21, tx22, tx31, tx32 }
}

#[test]
fn lock_hash_index() {
    let (mut store, shared) = setup();
    store.insert_lock_hash(&shared, &dao_code_hash(), None);
    store.insert_lock_hash(&shared, &H256::zero(), None);

    assert_eq!(2, store.get_lock_hash_index_states().len());

    store.remove_lock_hash(&dao_code_hash());
    assert_eq!(1, store.get_lock_hash_index_states().len());
}

#[test]
fn get_live_cells() {
    let (mut store, shared) = setup();
    store.insert_lock_hash(&shared, &script1(), None);
    store.insert_lock_hash(&shared, &script2(), None);
    let f = fixture();
    let block1 = block(header(1, 1, H256::zero(), 0), vec![f.tx11.clone(), f.tx12.clone()]);
    let block2 = block(header(2, 2, H256::zero(), 0), vec![f.tx21.clone(), f.tx22.clone()]);
    let block3 = block(header(3, 3, H256::zero(), 0), vec![f.tx31.clone(), f.tx32.clone()]);

    store.update(&vec![], &vec![block1, block2.clone()]);
    let cells = store.get_live_cells(&script1(), 0, 100);
    assert_eq!(2, cells.len());
    assert_eq!(1000 * SHANNONS, cells[0].cell_output.capacity);
    assert_eq!(3000 * SHANNONS, cells[1].cell_output.capacity);

    let cells = store.get_live_cells(&script2(), 0, 100);
    assert_eq!(2, cells.len());
    assert_eq!(2000 * SHANNONS, cells[0].cell_output.capacity);
    assert_eq!(4000 * SHANNONS, cells[1].cell_output.capacity);

    store.update(&vec![block2], &vec![block3]);
    let cells = store.get_live_cells(&script1(), 0, 100);
    assert_eq!(1, cells.len());
    assert_eq!(5000 * SHANNONS, cells[0].cell_output.capacity);

    let cells = store.get_live_cells(&script2(), 0, 100);
    assert_eq!(1, cells.len());
    assert_eq!(6000 * SHANNONS, cells[0].cell_output.capacity);

    // remove script1's lock hash should remove its indexed data also
    store.remove_lock_hash(&script1());
    let cells = store.get_live_cells(&script1(), 0, 100);
    assert_eq!(0, cells.len());
    let cells = store.get_live_cells(&script2(), 0, 100);
    assert_eq!(1, cells.len());
}

#[test]
fn get_transactions() {
    let (mut store, shared) = setup();
    store.insert_lock_hash(&shared, &script1(), None);
    store.insert_lock_hash(&shared, &script2(), None);
    let f = fixture();
    let block1 = block(header(1, 1, H256::zero(), 0), vec![f.tx11.clone(), f.tx12.clone()]);
    let block2 = block(header(2, 2, H256::zero(), 0), vec![f.tx21.clone(), f.tx22.clone()]);
    let block3 = block(header(3, 3, H256::zero(), 0), vec![f.tx31.clone(), f.tx32.clone()]);

    store.update(&vec![], &vec![block1, block2.clone()]);
    let transactions = store.get_transactions(&script1(), 0, 100);
    assert_eq!(2, transactions.len());
    assert_eq!(f.tx11.hash, transactions[0].created_by.tx_hash);
    assert_eq!(f.tx21.hash, transactions[1].created_by.tx_hash);

    let transactions = store.get_transactions(&script2(), 0, 100);
    assert_eq!(2, transactions.len());
    assert_eq!(f.tx12.hash, transactions[0].created_by.tx_hash);
    assert_eq!(f.tx22.hash, transactions[1].created_by.tx_hash);

    store.update(&vec![block2], &vec![block3]);
    let transactions = store.get_transactions(&script1(), 0, 100);
    assert_eq!(2, transactions.len());
    assert_eq!(f.tx11.hash, transactions[0].created_by.tx_hash);
    assert_eq!(Some(f.tx31.hash), transactions[0].consumed_by.as_ref().map(|p| p.tx_hash));
    assert_eq!(f.tx31.hash, transactions[1].created_by.tx_hash);

    let transactions = store.get_transactions(&script2(), 0, 100);
    assert_eq!(2, transactions.len());
    assert_eq!(f.tx12.hash, transactions[0].created_by.tx_hash);
    assert_eq!(f.tx32.hash, transactions[1].created_by.tx_hash);

    // remove script1's lock hash should remove its indexed data also
    store.remove_lock_hash(&script1());
    let transactions = store.get_transactions(&script1(), 0, 100);
    assert_eq!(0, transactions.len());
    let transactions = store.get_transactions(&script2(), 0, 100);
    assert_eq!(2, transactions.len());
}

#[test]
fn sync_index_states() {
    let (mut store, mut shared) = setup();
    store.insert_lock_hash(&shared, &script1(), None);
    store.insert_lock_hash(&shared, &script2(), None);
    let f = fixture();
    let block1 = block(header(1, 1, shared.genesis_hash(), 1), vec![f.tx11.clone(), f.tx12.clone()]);
    let block2 = block(header(2, 2, block1.header.hash, 2), vec![f.tx21.clone(), f.tx22.clone()]);
    let block2_fork = block(header(20, 2, block1.header.hash, 20), vec![]);
    let block3 = block(header(3, 3, block2_fork.header.hash, 21), vec![f.tx31.clone(), f.tx32.clone()]);

    shared.process_block(block1, 0).unwrap();
    shared.process_block(block2, 0).unwrap();

    store.sync_index_states(&shared);

    let transactions = store.get_transactions(&script1(), 0, 100);
    assert_eq!(2, transactions.len());
    assert_eq!(f.tx11.hash, transactions[0].created_by.tx_hash);
    assert_eq!(f.tx21.hash, transactions[1].created_by.tx_hash);

    let transactions = store.get_transactions(&script2(), 0, 100);
    assert_eq!(2, transactions.len());
    assert_eq!(f.tx12.hash, transactions[0].created_by.tx_hash);
    assert_eq!(f.tx22.hash, transactions[1].created_by.tx_hash);

    shared.process_block(block2_fork, 0).unwrap();
    shared.process_block(block3, 0).unwrap();

    store.sync_index_states(&shared);
    let transactions = store.get_transactions(&script1(), 0, 100);
    assert_eq!(2, transactions.len());
    assert_eq!(f.tx11.hash, transactions[0].created_by.tx_hash);
    assert_eq!(Some(f.tx31.hash), transactions[0].consumed_by.as_ref().map(|p| p.tx_hash));
    assert_eq!(f.tx31.hash, transactions[1].created_by.tx_hash);

    let transactions = store.get_transactions(&script2(), 0, 100);
    assert_eq!(2, transactions.len());
    assert_eq!(f.tx12.hash, transactions[0].created_by.tx_hash);
    assert_eq!(f.tx32.hash, transactions[1].created_by.tx_hash);

    // every checkpoint is at the tip
    let tip = shared.tip_header().inner;
    for (_, st) in store.get_lock_hash_index_states() {
        assert_eq!(st.block_number, tip.number);
        assert_eq!(st.block_hash, tip.hash);
    }
}

#[test]
fn attach_then_detach_keeps_live_cells() {
    // register L; A creates o1, B spends o1 and creates o2, C is empty
    let (mut store, shared) = setup();
    let lock = script1();
    store.insert_lock_hash(&shared, &lock, None);
    let ta = tx(1, vec![], vec![output(10, lock)]);
    let tb = tx(2, vec![OutPoint { tx_hash: ta.hash, index: 0 }], vec![output(9, lock)]);
    let a = block(header(1, 1, H256::zero(), 0), vec![ta.clone()]);
    let b = block(header(2, 2, a.header.hash, 0), vec![tb.clone()]);
    let c = block(header(3, 3, b.header.hash, 0), vec![]);
    store.update(&vec![], &vec![a.clone()]);
    let before_b = (store.get_live_cells(&lock, 0, 100), store.get_transactions(&lock, 0, 100));
    store.update(&vec![], &vec![b.clone(), c.clone()]);
    let cells = store.get_live_cells(&lock, 0, 100);
    assert_eq!(1, cells.len());
    assert_eq!(tb.hash, cells[0].created_by.tx_hash);
    assert_eq!(9 * SHANNONS, cells[0].cell_output.capacity);
    store.update(&vec![c, b], &vec![]);
    let cells = store.get_live_cells(&lock, 0, 100);
    assert_eq!(1, cells.len());
    assert_eq!(ta.hash, cells[0].created_by.tx_hash);
    // the history is back to what it was after A
    assert_eq!(before_b, (store.get_live_cells(&lock, 0, 100), store.get_transactions(&lock, 0, 100)));
}

#[test]
fn same_block_spend() {
    let (mut store, shared) = setup();
    let lock = script1();
    store.insert_lock_hash(&shared, &lock, None);
    let t1 = tx(1, vec![], vec![output(10, lock)]);
    let t2 = tx(2, vec![OutPoint { tx_hash: t1.hash, index: 0 }], vec![output(9, script2())]);
    let a = block(header(1, 1, H256::zero(), 0), vec![t1.clone(), t2.clone()]);
    store.update(&vec![], &vec![a.clone()]);
    assert_eq!(0, store.get_live_cells(&lock, 0, 100).len());
    let history = store.get_transactions(&lock, 0, 100);
    assert_eq!(1, history.len());
    assert_eq!(t1.hash, history[0].created_by.tx_hash);
    assert_eq!(Some(t2.hash), history[0].consumed_by.map(|p| p.tx_hash));
    assert_eq!(Some(1), history[0].consumed_by.map(|p| p.block_number));
    // detaching the block leaves nothing behind
    store.update(&vec![a], &vec![]);
    assert_eq!(0, store.get_live_cells(&lock, 0, 100).len());
    assert_eq!(0, store.get_transactions(&lock, 0, 100).len());
}

#[test]
fn reorg_notification_replaces_orphaned_block() {
    let (mut store, shared) = setup();
    let lock = script1();
    store.insert_lock_hash(&shared, &lock, None);
    let ta = tx(1, vec![], vec![output(10, lock)]);
    let tb = tx(2, vec![], vec![output(20, lock)]);
    let tb2 = tx(3, vec![OutPoint { tx_hash: ta.hash, index: 0 }], vec![output(5, lock)]);
    let tc2 = tx(4, vec![], vec![output(7, lock)]);
    let a = block(header(1, 1, H256::zero(), 0), vec![ta.clone()]);
    let b = block(header(2, 2, a.header.hash, 0), vec![tb.clone()]);
    let b2 = block(header(22, 2, a.header.hash, 0), vec![tb2.clone()]);
    let c2 = block(header(23, 3, b2.header.hash, 0), vec![tc2.clone()]);
    store.update(&vec![], &vec![a, b.clone()]);
    store.update(&vec![b], &vec![b2, c2.clone()]);
    let cells: Vec<H256> = store.get_live_cells(&lock, 0, 100).iter().map(|c| c.created_by.tx_hash).collect();
    assert_eq!(vec![tb2.hash, tc2.hash], cells);
    let history: Vec<H256> = store.get_transactions(&lock, 0, 100).iter().map(|c| c.created_by.tx_hash).collect();
    assert_eq!(vec![ta.hash, tb2.hash, tc2.hash], history);
    let states = store.get_lock_hash_index_states();
    assert_eq!(states[0].1.block_hash, c2.header.hash);
    assert_eq!(states[0].1.block_number, 3);
}

#[test]
fn paging_and_history_replay() {
    let genesis = block(header(0, 0, H256::zero(), 0x100), vec![tx(1, vec![], vec![output(1, script1()), output(2, script1())])]);
    let mut shared = Shared::new(ChainStore::new(), Consensus::new(genesis.clone()));
    let b1 = block(header(1, 1, genesis.header.hash, 1), vec![tx(2, vec![], vec![output(3, script1())])]);
    shared.process_block(b1, 0).unwrap();
    let mut store = DefaultWalletStore::new();
    let st = store.insert_lock_hash(&shared, &script1(), Some(0));
    assert_eq!(st.block_number, 1);
    assert_eq!(3, store.get_live_cells(&script1(), 0, 100).len());
    let page = store.get_live_cells(&script1(), 1, 1);
    assert_eq!(1, page.len());
    assert_eq!(2 * SHANNONS, page[0].cell_output.capacity);
    assert_eq!(0, store.get_live_cells(&script1(), 5, 1).len());
    // a lock that is not registered is not indexed
    store.update(&vec![], &vec![block(header(2, 2, H256::zero(), 0), vec![tx(3, vec![], vec![output(4, script2())])])]);
    assert_eq!(0, store.get_live_cells(&script2(), 0, 100).len());
}
