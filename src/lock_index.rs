//! The lock index: for each registered lock fingerprint, the live cells it
//! guards and the history of the cells it was given, kept in step with the
//! canonical chain as blocks are attached and detached.
use vstd::prelude::*;

use crate::column::{as_map, ascending, lemma_as_map_at, Column, ColumnKey};
use crate::shared::Shared;
use crate::store::StoreView;
use crate::types::{h256_lt, Block, BlockNumber, CellInput, CellOutput, H256, OutPoint, Transaction};

verus! {

/// Where a cell was created or consumed: the block number, the transaction
/// and the output (or input) position.
#[derive(Clone, Copy, Debug, PartialEq, Eq, Structural, Hash)]
pub struct TransactionPoint {
    pub block_number: BlockNumber,
    pub tx_hash: H256,
    pub index: u32,
}

/// A lock's checkpoint: the block up to which its index is complete.
#[derive(Clone, Copy, Debug, PartialEq, Eq, Structural, Hash)]
pub struct LockHashIndexState {
    pub block_number: BlockNumber,
    pub block_hash: H256,
}

/// The key of the live-cell and history columns: lock fingerprint, creating
/// block number, then the out-point; ordered so that one lock's entries are
/// contiguous and oldest first.
#[derive(Clone, Copy, Debug, PartialEq, Eq, Structural, Hash)]
pub struct LockHashIndex {
    pub lock_hash: H256,
    pub block_number: BlockNumber,
    pub cell_out_point: OutPoint,
}

/// The reverse entry of an indexed out-point: its lock, the number of the
/// block that created it, and, once it is consumed, the output itself, so
/// that a detach can restore it.
#[derive(Clone, Copy, Debug, PartialEq, Eq, Structural, Hash)]
pub struct LockHashCellOutput {
    pub lock_hash: H256,
    pub block_number: BlockNumber,
    pub cell_output: Option<CellOutput>,
}

/// A live cell of a lock.
#[derive(Clone, Copy, Debug, PartialEq, Eq, Structural, Hash)]
pub struct LiveCell {
    pub created_by: TransactionPoint,
    pub cell_output: CellOutput,
}

/// A cell of a lock, with the input that consumed it, if any.
#[derive(Clone, Copy, Debug, PartialEq, Eq, Structural, Hash)]
pub struct CellTransaction {
    pub created_by: TransactionPoint,
    pub consumed_by: Option<TransactionPoint>,
}

impl LockHashIndex {
    pub fn new(lock_hash: H256, block_number: BlockNumber, tx_hash: H256, index: u32) -> (r: LockHashIndex)
        ensures
            r == (LockHashIndex {
                lock_hash,
                block_number,
                cell_out_point: OutPoint { tx_hash, index },
            }),
    {
        LockHashIndex { lock_hash, block_number, cell_out_point: OutPoint { tx_hash, index } }
    }

    pub open spec fn point(self) -> TransactionPoint {
        TransactionPoint {
            block_number: self.block_number,
            tx_hash: self.cell_out_point.tx_hash,
            index: self.cell_out_point.index,
        }
    }

    /// Where the cell that this key names was created.
    pub fn created_by(&self) -> (r: TransactionPoint)
        ensures
            r == self.point(),
    {
        TransactionPoint {
            block_number: self.block_number,
            tx_hash: self.cell_out_point.tx_hash,
            index: self.cell_out_point.index,
        }
    }
}

impl ColumnKey for H256 {
    open spec fn lt(self, other: H256) -> bool {
        h256_lt(self, other)
    }

    fn less(&self, other: &H256) -> (r: bool) {
        self.less_than(other)
    }

    fn same(&self, other: &H256) -> (r: bool) {
        *self == *other
    }

    proof fn lemma_order(a: H256, b: H256, c: H256) {
    }
}

/// Out-points in the order of their fingerprint, then position.
pub open spec fn out_point_lt(a: OutPoint, b: OutPoint) -> bool {
    h256_lt(a.tx_hash, b.tx_hash) || (a.tx_hash == b.tx_hash && a.index < b.index)
}

impl ColumnKey for OutPoint {
    open spec fn lt(self, other: OutPoint) -> bool {
        out_point_lt(self, other)
    }

    fn less(&self, other: &OutPoint) -> (r: bool) {
        if self.tx_hash == other.tx_hash {
            self.index < other.index
        } else {
            self.tx_hash.less_than(&other.tx_hash)
        }
    }

    fn same(&self, other: &OutPoint) -> (r: bool) {
        *self == *other
    }

    proof fn lemma_order(a: OutPoint, b: OutPoint, c: OutPoint) {
    }
}

impl ColumnKey for LockHashIndex {
    open spec fn lt(self, other: LockHashIndex) -> bool {
        h256_lt(self.lock_hash, other.lock_hash) || (self.lock_hash == other.lock_hash && (
        self.block_number < other.block_number || (self.block_number == other.block_number
            && out_point_lt(self.cell_out_point, other.cell_out_point))))
    }

    fn less(&self, other: &LockHashIndex) -> (r: bool) {
        if self.lock_hash != other.lock_hash {
            self.lock_hash.less_than(&other.lock_hash)
        } else if self.block_number != other.block_number {
            self.block_number < other.block_number
        } else {
            self.cell_out_point.less(&other.cell_out_point)
        }
    }

    fn same(&self, other: &LockHashIndex) -> (r: bool) {
        *self == *other
    }

    proof fn lemma_order(a: LockHashIndex, b: LockHashIndex, c: LockHashIndex) {
    }
}


/// The four columns as maps: checkpoints by lock, live cells and cell
/// history by key, and reverse entries by out-point.
pub ghost struct IndexView {
    pub states: Map<H256, LockHashIndexState>,
    pub live: Map<LockHashIndex, CellOutput>,
    pub txs: Map<LockHashIndex, Option<TransactionPoint>>,
    pub outs: Map<OutPoint, LockHashCellOutput>,
}

/// The key under which output `i` of transaction `h`, locked by `lock` and
/// created at `n`, is indexed.
pub open spec fn key_of(lock: H256, n: BlockNumber, h: H256, i: int) -> LockHashIndex {
    LockHashIndex { lock_hash: lock, block_number: n, cell_out_point: OutPoint { tx_hash: h, index: i as u32 } }
}

/// Indexes output `i` of transaction `h` of block `n`, if a registered lock
/// guards it.
pub open spec fn add_output(s: IndexView, locks: Set<H256>, n: BlockNumber, h: H256, i: int, o: CellOutput) -> IndexView {
    if locks.contains(o.lock_hash) && i <= u32::MAX {
        let key = key_of(o.lock_hash, n, h, i);
        IndexView {
            live: s.live.insert(key, o),
            txs: s.txs.insert(key, None),
            outs: s.outs.insert(
                key.cell_out_point,
                LockHashCellOutput { lock_hash: o.lock_hash, block_number: n, cell_output: None },
            ),
            ..s
        }
    } else {
        s
    }
}

pub open spec fn add_outputs(s: IndexView, locks: Set<H256>, n: BlockNumber, h: H256, outs: Seq<CellOutput>) -> IndexView
    decreases outs.len(),
{
    if outs.len() == 0 {
        s
    } else {
        add_output(add_outputs(s, locks, n, h, outs.drop_last()), locks, n, h, outs.len() - 1, outs.last())
    }
}

/// Input `i` of transaction `h` of block `n` consumes the out-point `op`:
/// a live indexed cell leaves the live column, its history records the
/// consumer, and its reverse entry keeps the output.
pub open spec fn spend(s: IndexView, locks: Set<H256>, n: BlockNumber, h: H256, i: int, op: OutPoint) -> IndexView {
    if s.outs.contains_key(op) {
        let e = s.outs[op];
        let key = LockHashIndex { lock_hash: e.lock_hash, block_number: e.block_number, cell_out_point: op };
        if locks.contains(e.lock_hash) && e.cell_output is None && s.live.contains_key(key) && i <= u32::MAX {
            IndexView {
                live: s.live.remove(key),
                txs: s.txs.insert(key, Some(TransactionPoint { block_number: n, tx_hash: h, index: i as u32 })),
                outs: s.outs.insert(op, LockHashCellOutput { cell_output: Some(s.live[key]), ..e }),
                ..s
            }
        } else {
            s
        }
    } else {
        s
    }
}

pub open spec fn spend_inputs(s: IndexView, locks: Set<H256>, n: BlockNumber, h: H256, ins: Seq<CellInput>) -> IndexView
    decreases ins.len(),
{
    if ins.len() == 0 {
        s
    } else {
        spend(spend_inputs(s, locks, n, h, ins.drop_last()), locks, n, h, ins.len() - 1, ins.last().previous_output)
    }
}

/// The index after transaction `tx` of block `n`: its outputs first, then,
/// unless it is a cellbase, its inputs.
pub open spec fn attach_tx(s: IndexView, locks: Set<H256>, n: BlockNumber, tx: Transaction) -> IndexView {
    let s1 = add_outputs(s, locks, n, tx.hash, tx.outputs@);
    if tx.is_cellbase_spec() {
        s1
    } else {
        spend_inputs(s1, locks, n, tx.hash, tx.inputs@)
    }
}

pub open spec fn attach_txs(s: IndexView, locks: Set<H256>, n: BlockNumber, txs: Seq<Transaction>) -> IndexView
    decreases txs.len(),
{
    if txs.len() == 0 {
        s
    } else {
        attach_tx(attach_txs(s, locks, n, txs.drop_last()), locks, n, txs.last())
    }
}

/// The index after block `b` is attached for the locks `locks`.
pub open spec fn attached(s: IndexView, locks: Set<H256>, b: Block) -> IndexView {
    attach_txs(s, locks, b.header.number, b.transactions@)
}

/// Undoes the consumption of `op`: the kept output is live again, its
/// history unconsumed, and its reverse entry holds no output.
pub open spec fn restore(s: IndexView, locks: Set<H256>, op: OutPoint) -> IndexView {
    if s.outs.contains_key(op) {
        let e = s.outs[op];
        let key = LockHashIndex { lock_hash: e.lock_hash, block_number: e.block_number, cell_out_point: op };
        if locks.contains(e.lock_hash) && e.cell_output is Some {
            IndexView {
                live: s.live.insert(key, e.cell_output.unwrap()),
                txs: s.txs.insert(key, None),
                outs: s.outs.insert(op, LockHashCellOutput { cell_output: None, ..e }),
                ..s
            }
        } else {
            s
        }
    } else {
        s
    }
}

/// Restores the inputs `ins`, the last first.
pub open spec fn restore_inputs(s: IndexView, locks: Set<H256>, ins: Seq<CellInput>) -> IndexView
    decreases ins.len(),
{
    if ins.len() == 0 {
        s
    } else {
        restore_inputs(restore(s, locks, ins.last().previous_output), locks, ins.drop_last())
    }
}

/// Removes every entry of output `i` of transaction `h` of block `n`.
pub open spec fn drop_output(s: IndexView, locks: Set<H256>, n: BlockNumber, h: H256, i: int, o: CellOutput) -> IndexView {
    if locks.contains(o.lock_hash) && i <= u32::MAX {
        let key = key_of(o.lock_hash, n, h, i);
        IndexView {
            live: s.live.remove(key),
            txs: s.txs.remove(key),
            outs: s.outs.remove(key.cell_out_point),
            ..s
        }
    } else {
        s
    }
}

/// Drops the outputs `outs`, the last first.
pub open spec fn drop_outputs(s: IndexView, locks: Set<H256>, n: BlockNumber, h: H256, outs: Seq<CellOutput>) -> IndexView
    decreases outs.len(),
{
    if outs.len() == 0 {
        s
    } else {
        drop_outputs(
            drop_output(s, locks, n, h, outs.len() - 1, outs.last()),
            locks,
            n,
            h,
            outs.drop_last(),
        )
    }
}

/// Undoes transaction `tx` of block `n`: its inputs, then its outputs.
pub open spec fn detach_tx(s: IndexView, locks: Set<H256>, n: BlockNumber, tx: Transaction) -> IndexView {
    let s1 = if tx.is_cellbase_spec() {
        s
    } else {
        restore_inputs(s, locks, tx.inputs@)
    };
    drop_outputs(s1, locks, n, tx.hash, tx.outputs@)
}

/// Undoes the transactions `txs`, the last first.
pub open spec fn detach_txs(s: IndexView, locks: Set<H256>, n: BlockNumber, txs: Seq<Transaction>) -> IndexView
    decreases txs.len(),
{
    if txs.len() == 0 {
        s
    } else {
        detach_txs(detach_tx(s, locks, n, txs.last()), locks, n, txs.drop_last())
    }
}

/// The index after block `b` is detached for the locks `locks`.
pub open spec fn detached(s: IndexView, locks: Set<H256>, b: Block) -> IndexView {
    detach_txs(s, locks, b.header.number, b.transactions@)
}

/// The index after the blocks `bs` are detached in turn.
pub open spec fn detach_blocks(s: IndexView, locks: Set<H256>, bs: Seq<Block>) -> IndexView
    decreases bs.len(),
{
    if bs.len() == 0 {
        s
    } else {
        detached(detach_blocks(s, locks, bs.drop_last()), locks, bs.last())
    }
}

/// The index after the blocks `bs` are attached in turn.
pub open spec fn attach_blocks(s: IndexView, locks: Set<H256>, bs: Seq<Block>) -> IndexView
    decreases bs.len(),
{
    if bs.len() == 0 {
        s
    } else {
        attached(attach_blocks(s, locks, bs.drop_last()), locks, bs.last())
    }
}

/// Every checkpoint of `states` moved to `st`.
pub open spec fn all_at(states: Map<H256, LockHashIndexState>, st: LockHashIndexState) -> Map<H256, LockHashIndexState> {
    Map::new(|k: H256| states.contains_key(k), |k: H256| st)
}

/// Whether `s` and `t` agree on their three cell columns.
pub open spec fn same_cells(s: IndexView, t: IndexView) -> bool {
    s.live == t.live && s.txs == t.txs && s.outs == t.outs
}

/// The checkpoint that names the block with header `h`.
pub open spec fn checkpoint_of(h: crate::types::Header) -> LockHashIndexState {
    LockHashIndexState { block_number: h.number, block_hash: h.hash }
}

proof fn lemma_output_keeps_states(s: IndexView, locks: Set<H256>, n: BlockNumber, h: H256, outs: Seq<CellOutput>)
    ensures
        add_outputs(s, locks, n, h, outs).states == s.states,
        drop_outputs(s, locks, n, h, outs).states == s.states,
    decreases outs.len(),
{
    if outs.len() > 0 {
        lemma_output_keeps_states(s, locks, n, h, outs.drop_last());
        lemma_output_keeps_states(drop_output(s, locks, n, h, outs.len() - 1, outs.last()), locks, n, h, outs.drop_last());
    }
}

proof fn lemma_input_keeps_states(s: IndexView, locks: Set<H256>, n: BlockNumber, h: H256, ins: Seq<CellInput>)
    ensures
        spend_inputs(s, locks, n, h, ins).states == s.states,
        restore_inputs(s, locks, ins).states == s.states,
    decreases ins.len(),
{
    if ins.len() > 0 {
        lemma_input_keeps_states(s, locks, n, h, ins.drop_last());
        lemma_input_keeps_states(restore(s, locks, ins.last().previous_output), locks, n, h, ins.drop_last());
    }
}

proof fn lemma_txs_keep_states(s: IndexView, locks: Set<H256>, n: BlockNumber, txs: Seq<Transaction>)
    ensures
        attach_txs(s, locks, n, txs).states == s.states,
        detach_txs(s, locks, n, txs).states == s.states,
    decreases txs.len(),
{
    if txs.len() > 0 {
        let t = txs.last();
        lemma_txs_keep_states(s, locks, n, txs.drop_last());
        let a = attach_txs(s, locks, n, txs.drop_last());
        lemma_output_keeps_states(a, locks, n, t.hash, t.outputs@);
        lemma_input_keeps_states(add_outputs(a, locks, n, t.hash, t.outputs@), locks, n, t.hash, t.inputs@);
        lemma_input_keeps_states(s, locks, n, t.hash, t.inputs@);
        let d = if t.is_cellbase_spec() { s } else { restore_inputs(s, locks, t.inputs@) };
        lemma_output_keeps_states(d, locks, n, t.hash, t.outputs@);
        lemma_txs_keep_states(detach_tx(s, locks, n, t), locks, n, txs.drop_last());
    }
}

proof fn lemma_blocks_keep_states(s: IndexView, locks: Set<H256>, ds: Seq<Block>, as_: Seq<Block>)
    ensures
        attach_blocks(detach_blocks(s, locks, ds), locks, as_).states == s.states,
    decreases ds.len() + as_.len(),
{
    if as_.len() > 0 {
        lemma_blocks_keep_states(s, locks, ds, as_.drop_last());
        let a = attach_blocks(detach_blocks(s, locks, ds), locks, as_.drop_last());
        lemma_txs_keep_states(a, locks, as_.last().header.number, as_.last().transactions@);
    } else if ds.len() > 0 {
        lemma_blocks_keep_states(s, locks, ds.drop_last(), as_);
        let d = detach_blocks(s, locks, ds.drop_last());
        lemma_txs_keep_states(d, locks, ds.last().header.number, ds.last().transactions@);
    }
}

/// The live cells of `lock` among the entries `s`, in their order.
pub open spec fn cells_of(s: Seq<(LockHashIndex, CellOutput)>, lock: H256) -> Seq<LiveCell>
    decreases s.len(),
{
    if s.len() == 0 {
        Seq::empty()
    } else if s.last().0.lock_hash == lock {
        cells_of(s.drop_last(), lock).push(LiveCell { created_by: s.last().0.point(), cell_output: s.last().1 })
    } else {
        cells_of(s.drop_last(), lock)
    }
}

/// The cell history of `lock` among the entries `s`, in their order.
pub open spec fn history_of(s: Seq<(LockHashIndex, Option<TransactionPoint>)>, lock: H256) -> Seq<CellTransaction>
    decreases s.len(),
{
    if s.len() == 0 {
        Seq::empty()
    } else if s.last().0.lock_hash == lock {
        history_of(s.drop_last(), lock).push(CellTransaction { created_by: s.last().0.point(), consumed_by: s.last().1 })
    } else {
        history_of(s.drop_last(), lock)
    }
}

/// The part of `s` left after skipping `skip` items and keeping at most
/// `take`.
pub open spec fn page<A>(s: Seq<A>, skip: int, take: int) -> Seq<A> {
    let lo = if skip < s.len() { skip } else { s.len() as int };
    let hi = if lo + take < s.len() { lo + take } else { s.len() as int };
    s.subrange(lo, hi)
}

/// The items of `s` from `skip`, at most `take` of them.
fn page_of<A: Copy>(s: &Vec<A>, skip: usize, take: usize) -> (r: Vec<A>)
    ensures
        r@ == page(s@, skip as int, take as int),
{
    let lo: usize = if skip < s.len() { skip } else { s.len() };
    let hi: usize = if take < s.len() - lo { lo + take } else { s.len() };
    let mut r: Vec<A> = Vec::new();
    let mut i: usize = lo;
    while i < hi
        invariant
            lo <= i <= hi,
            hi <= s@.len(),
            r@ == s@.subrange(lo as int, i as int),
        decreases hi - i,
    {
        r.push(s[i]);
        i = i + 1;
        proof {
            assert(r@ =~= s@.subrange(lo as int, i as int));
        }
    }
    r
}

proof fn lemma_push_to_set(p: Seq<LockHashIndex>, x: LockHashIndex)
    ensures
        p.push(x).to_set() == p.to_set().insert(x),
{
    let q = p.push(x);
    assert forall|k: LockHashIndex| q.to_set().contains(k) <==> p.to_set().insert(x).contains(k) by {
        if q.contains(k) && k != x {
            let w = choose|w: int| 0 <= w < q.len() && q[w] == k;
            assert(p[w] == k);
        }
        if p.contains(k) {
            let w = choose|w: int| 0 <= w < p.len() && p[w] == k;
            assert(q[w] == k);
        }
        if k == x {
            assert(q[p.len() as int] == k);
        }
    }
    assert(q.to_set() =~= p.to_set().insert(x));
}

/// The out-points of the keys `keys`.
pub open spec fn points_of(keys: Set<LockHashIndex>) -> Set<OutPoint> {
    Set::new(|op: OutPoint| exists|k: LockHashIndex| #[trigger] keys.contains(k) && k.cell_out_point == op)
}

/// The keys of `col` that belong to `lock`.
fn keys_with_lock<V: Copy>(col: &Column<LockHashIndex, V>, lock: &H256) -> (r: Vec<LockHashIndex>)
    requires
        col.wf(),
    ensures
        forall|k: LockHashIndex| #[trigger] r@.contains(k) <==> (col@.contains_key(k) && k.lock_hash == *lock),
{
    let entries = col.entries();
    proof {
        col.lemma_entries();
    }
    let mut r: Vec<LockHashIndex> = Vec::new();
    let mut i: usize = 0;
    while i < entries.len()
        invariant
            i <= entries@.len(),
            forall|k: LockHashIndex| #[trigger] r@.contains(k) <==> (exists|j: int| 0 <= j < i && (#[trigger] entries@[j]).0 == k) && k.lock_hash == *lock,
        decreases entries@.len() - i,
    {
        let key = entries[i].0;
        let ghost before = r@;
        if key.lock_hash == *lock {
            r.push(key);
        }
        proof {
            assert forall|k: LockHashIndex| #[trigger] r@.contains(k) <==> (exists|j: int| 0 <= j < i + 1 && (#[trigger] entries@[j]).0 == k) && k.lock_hash == *lock by {
                if r@.contains(k) && !before.contains(k) {
                    let w = choose|w: int| 0 <= w < r@.len() && r@[w] == k;
                    if w < before.len() {
                        assert(before[w] == k);
                    }
                    assert(entries@[i as int].0 == k);
                }
                if before.contains(k) {
                    let w = choose|w: int| 0 <= w < before.len() && before[w] == k;
                    assert(r@[w] == k);
                }
                if (exists|j: int| 0 <= j < i + 1 && (#[trigger] entries@[j]).0 == k) && k.lock_hash == *lock {
                    let j = choose|j: int| 0 <= j < i + 1 && (#[trigger] entries@[j]).0 == k;
                    if j == i {
                        assert(r@[r@.len() - 1] == k);
                    }
                }
            }
        }
        i = i + 1;
    }
    r
}

/// The index after the canonical blocks numbered in `[lo, hi)` are attached.
pub open spec fn attach_range(s: IndexView, locks: Set<H256>, v: StoreView, lo: int, hi: int) -> IndexView
    decreases hi - lo,
{
    if hi <= lo {
        s
    } else {
        attached(attach_range(s, locks, v, lo, hi - 1), locks, v.canonical_block(hi - 1))
    }
}

/// Detaching from `b` down a dead fork, for `locks`: `b` goes, then each
/// ancestor until the parent is canonical. Gives the index and, when the walk
/// rejoined the canonical chain, the checkpoint there.
pub open spec fn rewound(s: IndexView, locks: Set<H256>, v: StoreView, b: Block) -> (IndexView, Option<LockHashIndexState>)
    decreases b.header.number,
{
    let s1 = detached(s, locks, b);
    if b.header.number == 0 {
        (s1, None)
    } else if v.hash_at(b.header.number - 1) == Some(b.header.parent_hash) {
        (s1, Some(LockHashIndexState { block_number: (b.header.number - 1) as u64, block_hash: b.header.parent_hash }))
    } else {
        match v.block_of(b.header.parent_hash) {
            Some(p) => if p.header.number < b.header.number {
                rewound(s1, locks, v, p)
            } else {
                (s1, None)
            },
            None => (s1, None),
        }
    }
}

/// Moves the lock `lock`, whose checkpoint is `st`, back to the canonical
/// chain when `st` names a block off it.
pub open spec fn rewind_lock(s: IndexView, v: StoreView, lock: H256, st: LockHashIndexState) -> IndexView {
    if v.number_of(st.block_hash) == Some(st.block_number) {
        s
    } else {
        match v.block_of(st.block_hash) {
            Some(b) => {
                let (s1, cp) = rewound(s, set![lock], v, b);
                match cp {
                    Some(c) => IndexView { states: s1.states.insert(lock, c), ..s1 },
                    None => s1,
                }
            },
            None => s,
        }
    }
}

/// Rewinds each of the locks `entries` in turn.
pub open spec fn rewind_all(s: IndexView, v: StoreView, entries: Seq<(H256, LockHashIndexState)>) -> IndexView
    decreases entries.len(),
{
    if entries.len() == 0 {
        s
    } else {
        rewind_lock(rewind_all(s, v, entries.drop_last()), v, entries.last().0, entries.last().1)
    }
}

/// The lowest checkpoint number of `entries`.
pub open spec fn min_number(entries: Seq<(H256, LockHashIndexState)>) -> BlockNumber
    decreases entries.len(),
{
    if entries.len() == 0 {
        0
    } else if entries.len() == 1 || entries.last().1.block_number < min_number(entries.drop_last()) {
        entries.last().1.block_number
    } else {
        min_number(entries.drop_last())
    }
}

proof fn lemma_attach_range_empty(s: IndexView, locks: Set<H256>, v: StoreView, lo: int, hi: int)
    requires
        hi <= lo,
    ensures
        attach_range(s, locks, v, lo, hi) == s,
{
}

proof fn lemma_range_keeps_states(s: IndexView, locks: Set<H256>, v: StoreView, lo: int, hi: int)
    ensures
        attach_range(s, locks, v, lo, hi).states == s.states,
    decreases hi - lo,
{
    if hi > lo {
        lemma_range_keeps_states(s, locks, v, lo, hi - 1);
        let b = v.canonical_block(hi - 1);
        lemma_txs_keep_states(attach_range(s, locks, v, lo, hi - 1), locks, b.header.number, b.transactions@);
    }
}

proof fn lemma_rewound_keeps_states(s: IndexView, locks: Set<H256>, v: StoreView, b: Block)
    ensures
        rewound(s, locks, v, b).0.states == s.states,
    decreases b.header.number,
{
    lemma_txs_keep_states(s, locks, b.header.number, b.transactions@);
    if b.header.number > 0 {
        match v.block_of(b.header.parent_hash) {
            Some(p) => if p.header.number < b.header.number {
                lemma_rewound_keeps_states(detached(s, locks, b), locks, v, p);
            },
            None => {},
        }
    }
}

proof fn lemma_rewind_keeps_dom(s: IndexView, v: StoreView, entries: Seq<(H256, LockHashIndexState)>)
    requires
        forall|w: int| 0 <= w < entries.len() ==> s.states.contains_key(#[trigger] entries[w].0),
    ensures
        rewind_all(s, v, entries).states.dom() == s.states.dom(),
    decreases entries.len(),
{
    if entries.len() > 0 {
        let pre = entries.drop_last();
        assert forall|w: int| 0 <= w < pre.len() implies s.states.contains_key(#[trigger] pre[w].0) by {
            assert(pre[w] == entries[w]);
        }
        lemma_rewind_keeps_dom(s, v, pre);
        let r = rewind_all(s, v, pre);
        let (lock, st) = entries.last();
        assert(s.states.contains_key(entries[entries.len() - 1].0));
        match v.block_of(st.block_hash) {
            Some(b) => {
                lemma_rewound_keeps_states(r, set![lock], v, b);
                assert(r.states.insert(lock, st).dom() =~= r.states.dom());
                let c = rewound(r, set![lock], v, b).1;
                if c is Some {
                    assert(r.states.insert(lock, c.unwrap()).dom() =~= r.states.dom());
                }
            },
            None => {},
        }
    }
}

/// The lowest checkpoint number in `m`.
pub open spec fn min_checkpoint(m: Map<H256, LockHashIndexState>) -> BlockNumber {
    choose|x: BlockNumber| #[trigger] is_min_checkpoint(m, x)
}

/// Some checkpoint of `m` has number `x`, and none is lower.
pub open spec fn is_min_checkpoint(m: Map<H256, LockHashIndexState>, x: BlockNumber) -> bool {
    &&& exists|k: H256| #[trigger] m.contains_key(k) && m[k].block_number == x
    &&& forall|k: H256| #[trigger] m.contains_key(k) ==> m[k].block_number >= x
}

/// Every checkpoint of `s` lies at or below number `n`: with `n` the tip's
/// number, no lock's index runs ahead of the chain.
pub open spec fn checkpoints_at_most(s: IndexView, n: BlockNumber) -> bool {
    forall|k: H256| #[trigger] s.states.contains_key(k) ==> s.states[k].block_number <= n
}

/// Whether `locks` holds `h`.
pub fn holds_lock(locks: &Vec<H256>, h: &H256) -> (r: bool)
    ensures
        r == locks@.to_set().contains(*h),
{
    let mut i: usize = 0;
    while i < locks.len()
        invariant
            i <= locks@.len(),
            forall|j: int| 0 <= j < i ==> locks@[j] != *h,
        decreases locks@.len() - i,
    {
        if locks[i] == *h {
            return true;
        }
        i = i + 1;
    }
    false
}

/// The secondary index of live cells and cell history per registered lock.
pub struct DefaultWalletStore {
    states: Column<H256, LockHashIndexState>,
    live_cells: Column<LockHashIndex, CellOutput>,
    transactions: Column<LockHashIndex, Option<TransactionPoint>>,
    out_points: Column<OutPoint, LockHashCellOutput>,
}

impl View for DefaultWalletStore {
    type V = IndexView;

    closed spec fn view(&self) -> IndexView {
        IndexView {
            states: self.states@,
            live: self.live_cells@,
            txs: self.transactions@,
            outs: self.out_points@,
        }
    }
}

impl DefaultWalletStore {
    pub closed spec fn wf(&self) -> bool {
        &&& self.states.wf()
        &&& self.live_cells.wf()
        &&& self.transactions.wf()
        &&& self.out_points.wf()
    }

    /// The three cell columns in key order.
    pub closed spec fn live_seq(&self) -> Seq<(LockHashIndex, CellOutput)> {
        self.live_cells.entries_spec()
    }

    pub closed spec fn txs_seq(&self) -> Seq<(LockHashIndex, Option<TransactionPoint>)> {
        self.transactions.entries_spec()
    }

    pub closed spec fn states_seq(&self) -> Seq<(H256, LockHashIndexState)> {
        self.states.entries_spec()
    }

    /// The columns are in key order and spell the maps of the view.
    pub proof fn lemma_columns(&self)
        requires
            self.wf(),
        ensures
            ascending(self.live_seq()),
            as_map(self.live_seq()) == self@.live,
            ascending(self.txs_seq()),
            as_map(self.txs_seq()) == self@.txs,
            ascending(self.states_seq()),
            as_map(self.states_seq()) == self@.states,
    {
        self.live_cells.lemma_entries();
        self.transactions.lemma_entries();
        self.states.lemma_entries();
    }

    /// The registered locks: those with a checkpoint.
    pub fn registered_locks(&self) -> (r: Vec<H256>)
        requires
            self.wf(),
        ensures
            r@.to_set() == self@.states.dom(),
    {
        let entries = self.states.entries();
        proof {
            self.states.lemma_entries();
        }
        let mut r: Vec<H256> = Vec::new();
        let mut i: usize = 0;
        while i < entries.len()
            invariant
                i <= entries@.len(),
                r@.len() == i,
                forall|j: int| 0 <= j < i ==> r@[j] == (#[trigger] entries@[j]).0,
            decreases entries@.len() - i,
        {
            r.push(entries[i].0);
            i = i + 1;
        }
        proof {
            assert forall|k: H256| r@.to_set().contains(k) <==> self@.states.dom().contains(k) by {
                if r@.contains(k) {
                    let j = choose|j: int| 0 <= j < r@.len() && r@[j] == k;
                    assert(entries@[j].0 == k);
                }
                if self@.states.dom().contains(k) {
                    let j = choose|j: int| 0 <= j < entries@.len() && (#[trigger] entries@[j]).0 == k;
                    assert(r@[j] == k);
                }
            }
            assert(r@.to_set() =~= self@.states.dom());
        }
        r
    }

    /// Every lock with its checkpoint, in key order.
    pub fn get_lock_hash_index_states(&self) -> (r: Vec<(H256, LockHashIndexState)>)
        requires
            self.wf(),
        ensures
            r@ == self.states_seq(),
            ascending(r@),
            as_map(r@) == self@.states,
    {
        let entries = self.states.entries();
        proof {
            self.states.lemma_entries();
        }
        let mut r: Vec<(H256, LockHashIndexState)> = Vec::new();
        let mut i: usize = 0;
        while i < entries.len()
            invariant
                i <= entries@.len(),
                r@ == entries@.subrange(0, i as int),
            decreases entries@.len() - i,
        {
            r.push(entries[i]);
            i = i + 1;
            proof {
                assert(r@ =~= entries@.subrange(0, i as int));
            }
        }
        proof {
            assert(r@ =~= entries@);
        }
        r
    }

    /// Moves every checkpoint to `st`.
    fn set_all_states(&mut self, locks: &Vec<H256>, st: LockHashIndexState)
        requires
            old(self).wf(),
            locks@.to_set() == old(self)@.states.dom(),
        ensures
            final(self).wf(),
            final(self)@.states == all_at(old(self)@.states, st),
            same_cells(final(self)@, old(self)@),
    {
        let ghost s0 = self@;
        let mut i: usize = 0;
        while i < locks.len()
            invariant
                self.wf(),
                i <= locks@.len(),
                locks@.to_set() == s0.states.dom(),
                same_cells(self@, s0),
                self@.states.dom() == s0.states.dom(),
                forall|k: H256|
                    #[trigger] self@.states.contains_key(k) ==> self@.states[k] == if locks@.subrange(
                        0,
                        i as int,
                    ).contains(k) {
                        st
                    } else {
                        s0.states[k]
                    },
            decreases locks@.len() - i,
        {
            let ghost before = self@.states;
            self.states.put(locks[i], st);
            proof {
                assert(locks@.to_set().contains(locks@[i as int]));
                assert(self@.states.dom() =~= s0.states.dom());
                let p0 = locks@.subrange(0, i as int);
                let p1 = locks@.subrange(0, i + 1);
                assert(p1 =~= p0.push(locks@[i as int]));
                assert forall|k: H256| #[trigger] self@.states.contains_key(k) implies self@.states[k]
                    == if p1.contains(k) {
                    st
                } else {
                    s0.states[k]
                } by {
                    if p1.contains(k) && k != locks@[i as int] {
                        let w = choose|w: int| 0 <= w < p1.len() && p1[w] == k;
                        assert(p0[w] == k);
                    }
                    if p0.contains(k) {
                        let w = choose|w: int| 0 <= w < p0.len() && p0[w] == k;
                        assert(p1[w] == k);
                    }
                    if k == locks@[i as int] {
                        assert(p1[i as int] == k);
                    }
                }
            }
            i = i + 1;
        }
        proof {
            assert(locks@.subrange(0, i as int) =~= locks@);
            assert forall|k: H256| #[trigger] self@.states.contains_key(k) implies self@.states[k] == st by {
                assert(locks@.to_set().contains(k));
            }
            assert(self@.states =~= all_at(s0.states, st));
        }
    }

    /// Applies a tip change: the detached blocks are undone in the order
    /// given, then the attached ones applied, for every registered lock;
    /// every checkpoint then names the last attached block. With no lock
    /// registered nothing changes.
    pub fn update(&mut self, detached_blocks: &Vec<Block>, attached_blocks: &Vec<Block>)
        requires
            old(self).wf(),
        ensures
            final(self).wf(),
            old(self)@.states.dom() == Set::<H256>::empty() ==> final(self)@ == old(self)@,
            forall|n: BlockNumber|
                checkpoints_at_most(old(self)@, n) && (attached_blocks@.len() > 0
                    ==> attached_blocks@.last().header.number <= n) ==> #[trigger] checkpoints_at_most(final(self)@, n),
            old(self)@.states.dom() != Set::<H256>::empty() ==> {
                let locks = old(self)@.states.dom();
                let s1 = attach_blocks(detach_blocks(old(self)@, locks, detached_blocks@), locks, attached_blocks@);
                &&& same_cells(final(self)@, s1)
                &&& attached_blocks@.len() == 0 ==> final(self)@.states == old(self)@.states
                &&& attached_blocks@.len() > 0 ==> final(self)@.states == all_at(
                    old(self)@.states,
                    checkpoint_of(attached_blocks@.last().header),
                )
            },
    {
        let locks = self.registered_locks();
        if locks.len() == 0 {
            proof {
                assert(self@.states.dom() =~= Set::<H256>::empty());
            }
            return;
        }
        proof {
            assert(locks@.to_set().contains(locks@[0]));
        }
        let ghost s0 = self@;
        let ghost ls = locks@.to_set();
        let mut i: usize = 0;
        while i < detached_blocks.len()
            invariant
                self.wf(),
                i <= detached_blocks@.len(),
                ls == locks@.to_set(),
                self@ == detach_blocks(s0, ls, detached_blocks@.subrange(0, i as int)),
            decreases detached_blocks@.len() - i,
        {
            proof {
                let next = detached_blocks@.subrange(0, i + 1);
                assert(next.drop_last() =~= detached_blocks@.subrange(0, i as int));
            }
            self.detach_block(&locks, &detached_blocks[i]);
            i = i + 1;
        }
        proof {
            assert(detached_blocks@.subrange(0, i as int) =~= detached_blocks@);
        }
        let ghost s1 = self@;
        let mut k: usize = 0;
        while k < attached_blocks.len()
            invariant
                self.wf(),
                k <= attached_blocks@.len(),
                ls == locks@.to_set(),
                self@ == attach_blocks(s1, ls, attached_blocks@.subrange(0, k as int)),
            decreases attached_blocks@.len() - k,
        {
            proof {
                let next = attached_blocks@.subrange(0, k + 1);
                assert(next.drop_last() =~= attached_blocks@.subrange(0, k as int));
            }
            self.attach_block(&locks, &attached_blocks[k]);
            k = k + 1;
        }
        proof {
            assert(attached_blocks@.subrange(0, k as int) =~= attached_blocks@);
            lemma_blocks_keep_states(s0, ls, detached_blocks@, attached_blocks@);
        }
        if attached_blocks.len() > 0 {
            let last = &attached_blocks[attached_blocks.len() - 1];
            let st = LockHashIndexState { block_number: last.header.number, block_hash: last.header.hash };
            self.set_all_states(&locks, st);
        }
    }

    /// The live cells of `lock`, oldest first, from the `skip`th on, at most
    /// `take` of them.
    pub fn get_live_cells(&self, lock: &H256, skip: usize, take: usize) -> (r: Vec<LiveCell>)
        requires
            self.wf(),
        ensures
            r@ == page(cells_of(self.live_seq(), *lock), skip as int, take as int),
    {
        let entries = self.live_cells.entries();
        let mut all: Vec<LiveCell> = Vec::new();
        let mut i: usize = 0;
        while i < entries.len()
            invariant
                entries@ == self.live_seq(),
                i <= entries@.len(),
                all@ == cells_of(entries@.subrange(0, i as int), *lock),
            decreases entries@.len() - i,
        {
            proof {
                assert(entries@.subrange(0, i + 1).drop_last() =~= entries@.subrange(0, i as int));
            }
            let (key, o) = entries[i];
            if key.lock_hash == *lock {
                all.push(LiveCell { created_by: key.created_by(), cell_output: o });
            }
            i = i + 1;
        }
        proof {
            assert(entries@.subrange(0, i as int) =~= entries@);
        }
        page_of(&all, skip, take)
    }

    /// The cell history of `lock`, oldest first, from the `skip`th on, at
    /// most `take` of them.
    pub fn get_transactions(&self, lock: &H256, skip: usize, take: usize) -> (r: Vec<CellTransaction>)
        requires
            self.wf(),
        ensures
            r@ == page(history_of(self.txs_seq(), *lock), skip as int, take as int),
    {
        let entries = self.transactions.entries();
        let mut all: Vec<CellTransaction> = Vec::new();
        let mut i: usize = 0;
        while i < entries.len()
            invariant
                entries@ == self.txs_seq(),
                i <= entries@.len(),
                all@ == history_of(entries@.subrange(0, i as int), *lock),
            decreases entries@.len() - i,
        {
            proof {
                assert(entries@.subrange(0, i + 1).drop_last() =~= entries@.subrange(0, i as int));
            }
            let (key, c) = entries[i];
            if key.lock_hash == *lock {
                all.push(CellTransaction { created_by: key.created_by(), consumed_by: c });
            }
            i = i + 1;
        }
        proof {
            assert(entries@.subrange(0, i as int) =~= entries@);
        }
        page_of(&all, skip, take)
    }

    /// Unregisters `lock`: its checkpoint, its live cells with their reverse
    /// entries, and its cell history go.
    pub fn remove_lock_hash(&mut self, lock: &H256)
        requires
            old(self).wf(),
        ensures
            final(self).wf(),
            final(self)@.states == old(self)@.states.remove(*lock),
            forall|n: BlockNumber| checkpoints_at_most(old(self)@, n) ==> #[trigger] checkpoints_at_most(final(self)@, n),
            final(self)@.live == old(self)@.live.remove_keys(
                Set::new(|k: LockHashIndex| k.lock_hash == *lock),
            ),
            final(self)@.txs == old(self)@.txs.remove_keys(
                Set::new(|k: LockHashIndex| k.lock_hash == *lock),
            ),
            final(self)@.outs == old(self)@.outs.remove_keys(
                points_of(old(self)@.live.dom().filter(|k: LockHashIndex| k.lock_hash == *lock)),
            ),
    {
        let ghost s0 = self@;
        let live_keys = keys_with_lock(&self.live_cells, lock);
        let mut i: usize = 0;
        while i < live_keys.len()
            invariant
                self.wf(),
                i <= live_keys@.len(),
                forall|k: LockHashIndex| #[trigger] live_keys@.contains(k) <==> (s0.live.contains_key(k) && k.lock_hash == *lock),
                self@.states == s0.states,
                self@.txs == s0.txs,
                self@.live == s0.live.remove_keys(live_keys@.subrange(0, i as int).to_set()),
                self@.outs == s0.outs.remove_keys(points_of(live_keys@.subrange(0, i as int).to_set())),
            decreases live_keys@.len() - i,
        {
            let key = live_keys[i];
            self.live_cells.delete(&key);
            self.out_points.delete(&key.cell_out_point);
            proof {
                let p0 = live_keys@.subrange(0, i as int);
                let p1 = live_keys@.subrange(0, i + 1);
                assert(p1 =~= p0.push(key));
                lemma_push_to_set(p0, key);
                assert(self@.live =~= s0.live.remove_keys(p1.to_set()));
                assert(points_of(p1.to_set()) =~= points_of(p0.to_set()).insert(key.cell_out_point)) by {
                    assert forall|op: OutPoint| #[trigger] points_of(p1.to_set()).contains(op)
                        <==> points_of(p0.to_set()).insert(key.cell_out_point).contains(op) by {
                        if points_of(p1.to_set()).contains(op) {
                            let k = choose|k: LockHashIndex| #[trigger] p1.to_set().contains(k) && k.cell_out_point == op;
                            if k != key {
                                assert(p0.to_set().contains(k));
                            }
                        }
                        if points_of(p0.to_set()).contains(op) {
                            let k = choose|k: LockHashIndex| #[trigger] p0.to_set().contains(k) && k.cell_out_point == op;
                            assert(p1.to_set().contains(k));
                        }
                        if op == key.cell_out_point {
                            assert(p1.to_set().contains(key));
                        }
                    }
                }
                assert(self@.outs =~= s0.outs.remove_keys(points_of(p1.to_set())));
            }
            i = i + 1;
        }
        let tx_keys = keys_with_lock(&self.transactions, lock);
        let mut j: usize = 0;
        while j < tx_keys.len()
            invariant
                self.wf(),
                j <= tx_keys@.len(),
                forall|k: LockHashIndex| #[trigger] tx_keys@.contains(k) <==> (s0.txs.contains_key(k) && k.lock_hash == *lock),
                self@.states == s0.states,
                self@.live == s0.live.remove_keys(live_keys@.subrange(0, live_keys@.len() as int).to_set()),
                self@.outs == s0.outs.remove_keys(points_of(live_keys@.subrange(0, live_keys@.len() as int).to_set())),
                self@.txs == s0.txs.remove_keys(tx_keys@.subrange(0, j as int).to_set()),
            decreases tx_keys@.len() - j,
        {
            let key = tx_keys[j];
            self.transactions.delete(&key);
            proof {
                let p0 = tx_keys@.subrange(0, j as int);
                let p1 = tx_keys@.subrange(0, j + 1);
                assert(p1 =~= p0.push(key));
                lemma_push_to_set(p0, key);
                assert(self@.txs =~= s0.txs.remove_keys(p1.to_set()));
            }
            j = j + 1;
        }
        self.states.delete(lock);
        proof {
            assert(live_keys@.subrange(0, live_keys@.len() as int) =~= live_keys@);
            assert(tx_keys@.subrange(0, tx_keys@.len() as int) =~= tx_keys@);
            let lk = Set::new(|k: LockHashIndex| k.lock_hash == *lock);
            assert(self@.live =~= s0.live.remove_keys(lk)) by {
                assert forall|k: LockHashIndex| #[trigger] s0.live.contains_key(k) && k.lock_hash == *lock implies live_keys@.to_set().contains(k) by {
                    assert(live_keys@.contains(k));
                }
            }
            assert(self@.txs =~= s0.txs.remove_keys(lk)) by {
                assert forall|k: LockHashIndex| #[trigger] s0.txs.contains_key(k) && k.lock_hash == *lock implies tx_keys@.to_set().contains(k) by {
                    assert(tx_keys@.contains(k));
                }
            }
            let mine = s0.live.dom().filter(|k: LockHashIndex| k.lock_hash == *lock);
            assert(live_keys@.to_set() =~= mine) by {
                assert forall|k: LockHashIndex| live_keys@.to_set().contains(k) <==> mine.contains(k) by {
                    assert(live_keys@.contains(k) <==> (s0.live.contains_key(k) && k.lock_hash == *lock));
                }
            }
        }
    }

    /// Registers `lock` at the current tip and returns that checkpoint. With
    /// `index_from`, the canonical blocks from that number to the tip are
    /// indexed for it first.
    pub fn insert_lock_hash(&mut self, shared: &Shared, lock: &H256, index_from: Option<BlockNumber>) -> (r: LockHashIndexState)
        requires
            old(self).wf(),
            shared.wf(),
        ensures
            final(self).wf(),
            r == checkpoint_of(shared.tip().inner),
            final(self)@.states == old(self)@.states.insert(*lock, r),
            checkpoints_at_most(old(self)@, shared.tip().inner.number) ==> checkpoints_at_most(
                final(self)@,
                shared.tip().inner.number,
            ),
            same_cells(
                final(self)@,
                match index_from {
                    Some(from) => attach_range(old(self)@, set![*lock], shared.chain(), from as int, shared.chain().index.len() as int),
                    None => old(self)@,
                },
            ),
    {
        let tip = *shared.tip_header();
        let st = LockHashIndexState { block_number: tip.inner.number, block_hash: tip.inner.hash };
        let ghost v = shared.chain();
        let ghost s0 = self@;
        let len = shared.store().canonical_len();
        if let Some(from) = index_from {
            let locks = vec![*lock];
            proof {
                assert(locks@.to_set() =~= set![*lock]) by {
                    assert(locks@[0] == *lock);
                }
            }
            let start: usize = if (from as u128) < (len as u128) { from as usize } else { len };
            self.attach_canonical(shared, &locks, start, len);
            proof {
                if (from as int) >= len as int {
                    lemma_attach_range_empty(s0, set![*lock], v, from as int, len as int);
                    lemma_attach_range_empty(s0, set![*lock], v, start as int, len as int);
                }
                lemma_range_keeps_states(s0, set![*lock], v, from as int, len as int);
            }
        }
        self.states.put(*lock, st);
        st
    }

    /// Attaches the canonical blocks numbered in `[lo, hi)` for `locks`.
    #[verifier::spinoff_prover]
    #[verifier::rlimit(40)]
    fn attach_canonical(&mut self, shared: &Shared, locks: &Vec<H256>, lo: usize, hi: usize)
        requires
            old(self).wf(),
            shared.wf(),
            lo <= hi <= shared.chain().index.len(),
        ensures
            final(self).wf(),
            final(self)@ == attach_range(old(self)@, locks@.to_set(), shared.chain(), lo as int, hi as int),
    {
        let ghost s0 = self@;
        let ghost v = shared.chain();
        let mut n: usize = lo;
        while n < hi
            invariant
                shared.wf(),
                v == shared.chain(),
                hi <= v.index.len(),
                self.wf(),
                lo <= n <= hi,
                self@ == attach_range(s0, locks@.to_set(), v, lo as int, n as int),
            decreases hi - n,
        {
            let b = shared.store().canonical_block(n);
            self.attach_block(locks, b);
            n = n + 1;
        }
    }

    /// Moves `lock`, whose checkpoint is `st`, back to the canonical chain
    /// when `st` names a block off it.
    fn rewind(&mut self, shared: &Shared, lock: H256, st: LockHashIndexState)
        requires
            old(self).wf(),
            shared.wf(),
        ensures
            final(self).wf(),
            final(self)@ == rewind_lock(old(self)@, shared.chain(), lock, st),
    {
        let ghost v = shared.chain();
        if shared.block_number(&st.block_hash) == Some(st.block_number) {
            return;
        }
        let b = match shared.block(&st.block_hash) {
            Some(b) => b,
            None => {
                return;
            },
        };
        let locks = vec![lock];
        proof {
            assert(locks@.to_set() =~= set![lock]) by {
                assert(locks@[0] == lock);
            }
        }
        let ghost s0 = self@;
        let mut cur = b;
        loop
            invariant
                self.wf(),
                shared.wf(),
                v == shared.chain(),
                locks@.to_set() == set![lock],
                v.block_of(st.block_hash) == Some(*b),
                v.number_of(st.block_hash) != Some(st.block_number),
                rewound(s0, set![lock], v, *b) == rewound(self@, set![lock], v, *cur),
                s0 == old(self)@,
                self@.states == s0.states,
            decreases cur.header.number,
        {
            let ghost pre = self@;
            self.detach_block(&locks, cur);
            proof {
                lemma_txs_keep_states(pre, set![lock], cur.header.number, cur.transactions@);
            }
            if cur.header.number == 0 {
                proof {
                    assert(rewound(pre, set![lock], v, *cur) == (self@, None::<LockHashIndexState>));
                }
                return;
            }
            if shared.block_hash(cur.header.number - 1) == Some(cur.header.parent_hash) {
                self.states.put(
                    lock,
                    LockHashIndexState { block_number: cur.header.number - 1, block_hash: cur.header.parent_hash },
                );
                return;
            }
            match shared.block(&cur.header.parent_hash) {
                Some(p) => {
                    if p.header.number < cur.header.number {
                        cur = p;
                    } else {
                        proof {
                            assert(rewound(pre, set![lock], v, *cur) == (self@, None::<LockHashIndexState>));
                        }
                        return;
                    }
                },
                None => {
                    proof {
                        assert(rewound(pre, set![lock], v, *cur) == (self@, None::<LockHashIndexState>));
                    }
                    return;
                },
            }
        }
    }

    /// Brings every checkpoint to the current tip. Each lock whose
    /// checkpoint lies off the canonical chain is first walked back to it;
    /// then the canonical blocks above the lowest checkpoint are attached for
    /// every lock.
    pub fn sync_index_states(&mut self, shared: &Shared)
        requires
            old(self).wf(),
            shared.wf(),
        ensures
            final(self).wf(),
            old(self)@.states.dom() == Set::<H256>::empty() ==> final(self)@ == old(self)@,
            old(self)@.states.dom() != Set::<H256>::empty() ==> {
                let v = shared.chain();
                let mid = rewind_all(old(self)@, v, old(self).states_seq());
                &&& final(self)@.states == all_at(mid.states, checkpoint_of(shared.tip().inner))
                &&& final(self)@.states == all_at(old(self)@.states, checkpoint_of(shared.tip().inner))
                &&& checkpoints_at_most(final(self)@, shared.tip().inner.number)
                &&& same_cells(
                    final(self)@,
                    attach_range(mid, mid.states.dom(), v, min_checkpoint(mid.states) + 1, v.index.len() as int),
                )
            },
    {
        let ghost v = shared.chain();
        let ghost s0 = self@;
        let entries = self.get_lock_hash_index_states();
        if entries.len() == 0 {
            proof {
                assert(self@.states.dom() =~= Set::<H256>::empty()) by {
                    assert forall|k: H256| !self@.states.contains_key(k) by {
                        if self@.states.contains_key(k) {
                            let j = choose|j: int| 0 <= j < entries@.len() && (#[trigger] entries@[j]).0 == k;
                        }
                    }
                }
            }
            return;
        }
        let mut i: usize = 0;
        while i < entries.len()
            invariant
                self.wf(),
                shared.wf(),
                v == shared.chain(),
                entries@ == old(self).states_seq(),
                i <= entries@.len(),
                self@ == rewind_all(s0, v, entries@.subrange(0, i as int)),
            decreases entries@.len() - i,
        {
            proof {
                assert(entries@.subrange(0, i + 1).drop_last() =~= entries@.subrange(0, i as int));
            }
            let (lock, st) = entries[i];
            self.rewind(shared, lock, st);
            i = i + 1;
        }
        proof {
            assert(entries@.subrange(0, i as int) =~= entries@);
            assert forall|w: int| 0 <= w < entries@.len() implies s0.states.contains_key(#[trigger] entries@[w].0) by {
                lemma_as_map_at(entries@, w);
            }
            lemma_rewind_keeps_dom(s0, v, entries@);
            lemma_as_map_at(entries@, 0);
            assert(all_at(self@.states, checkpoint_of(shared.tip().inner)) =~= all_at(s0.states, checkpoint_of(shared.tip().inner)));
        }
        let ghost mid = self@;
        let now = self.get_lock_hash_index_states();
        proof {
            assert(mid.states.contains_key(entries@[0].0));
            if now@.len() == 0 {
                assert(!as_map(now@).contains_key(entries@[0].0));
            }
        }
        let mut low: u64 = now[0].1.block_number;
        let mut j: usize = 1;
        while j < now.len()
            invariant
                1 <= j <= now@.len(),
                exists|w: int| 0 <= w < j && (#[trigger] now@[w]).1.block_number == low,
                forall|w: int| 0 <= w < j ==> (#[trigger] now@[w]).1.block_number >= low,
            decreases now@.len() - j,
        {
            if now[j].1.block_number < low {
                low = now[j].1.block_number;
            }
            j = j + 1;
        }
        proof {
            assert((exists|k: H256| #[trigger] mid.states.contains_key(k) && mid.states[k].block_number == low)) by {
                let w = choose|w: int| 0 <= w < j && (#[trigger] now@[w]).1.block_number == low;
                lemma_as_map_at(now@, w);
            }
            assert(forall|k: H256| #[trigger] mid.states.contains_key(k) ==> mid.states[k].block_number >= low) by {
                assert forall|k: H256| #[trigger] mid.states.contains_key(k) implies mid.states[k].block_number >= low by {
                    let w = choose|w: int| 0 <= w < now@.len() && (#[trigger] now@[w]).0 == k;
                    lemma_as_map_at(now@, w);
                }
            }
            assert(is_min_checkpoint(mid.states, low));
            let x = min_checkpoint(mid.states);
            assert(x == low) by {
                let ka = choose|k: H256| #[trigger] mid.states.contains_key(k) && mid.states[k].block_number == x;
                let kb = choose|k: H256| #[trigger] mid.states.contains_key(k) && mid.states[k].block_number == low;
            }
        }
        let locks = self.registered_locks();
        let len = shared.store().canonical_len();
        let tip = *shared.tip_header();
        let ghost ls = locks@.to_set();
        let start: usize = if (low as u128) + 1 < (len as u128) { (low + 1) as usize } else { len };
        self.attach_canonical(shared, &locks, start, len);
        proof {
            if (low + 1) as int >= len as int {
                lemma_attach_range_empty(mid, ls, v, low + 1, len as int);
                lemma_attach_range_empty(mid, ls, v, start as int, len as int);
            }
            lemma_range_keeps_states(mid, ls, v, low + 1, len as int);
        }
        let st = LockHashIndexState { block_number: tip.inner.number, block_hash: tip.inner.hash };
        self.set_all_states(&locks, st);
    }

    /// An empty index.
    pub fn new() -> (r: DefaultWalletStore)
        ensures
            r.wf(),
            r@.states == Map::<H256, LockHashIndexState>::empty(),
            r@.live == Map::<LockHashIndex, CellOutput>::empty(),
            r@.txs == Map::<LockHashIndex, Option<TransactionPoint>>::empty(),
            r@.outs == Map::<OutPoint, LockHashCellOutput>::empty(),
    {
        DefaultWalletStore {
            states: Column::new(),
            live_cells: Column::new(),
            transactions: Column::new(),
            out_points: Column::new(),
        }
    }

    fn attach_output(&mut self, locks: &Vec<H256>, n: BlockNumber, h: H256, i: usize, o: CellOutput)
        requires
            old(self).wf(),
        ensures
            final(self).wf(),
            final(self)@ == add_output(old(self)@, locks@.to_set(), n, h, i as int, o),
    {
        if holds_lock(locks, &o.lock_hash) && i as u64 <= u32::MAX as u64 {
            let key = LockHashIndex::new(o.lock_hash, n, h, i as u32);
            self.live_cells.put(key, o);
            self.transactions.put(key, None);
            self.out_points.put(
                key.cell_out_point,
                LockHashCellOutput { lock_hash: o.lock_hash, block_number: n, cell_output: None },
            );
        }
    }

    fn spend_input(&mut self, locks: &Vec<H256>, n: BlockNumber, h: H256, i: usize, op: OutPoint)
        requires
            old(self).wf(),
        ensures
            final(self).wf(),
            final(self)@ == spend(old(self)@, locks@.to_set(), n, h, i as int, op),
    {
        if let Some(e) = self.out_points.get(&op) {
            let key = LockHashIndex { lock_hash: e.lock_hash, block_number: e.block_number, cell_out_point: op };
            if holds_lock(locks, &e.lock_hash) && e.cell_output.is_none() && i as u64 <= u32::MAX as u64 {
                if let Some(o) = self.live_cells.get(&key) {
                    self.live_cells.delete(&key);
                    self.transactions.put(
                        key,
                        Some(TransactionPoint { block_number: n, tx_hash: h, index: i as u32 }),
                    );
                    self.out_points.put(op, LockHashCellOutput { cell_output: Some(o), ..e });
                }
            }
        }
    }

    fn attach_tx(&mut self, locks: &Vec<H256>, n: BlockNumber, tx: &Transaction)
        requires
            old(self).wf(),
        ensures
            final(self).wf(),
            final(self)@ == attach_tx(old(self)@, locks@.to_set(), n, *tx),
    {
        let ghost s0 = self@;
        let mut i: usize = 0;
        while i < tx.outputs.len()
            invariant
                self.wf(),
                i <= tx.outputs@.len(),
                self@ == add_outputs(s0, locks@.to_set(), n, tx.hash, tx.outputs@.subrange(0, i as int)),
            decreases tx.outputs@.len() - i,
        {
            proof {
                let next = tx.outputs@.subrange(0, i + 1);
                assert(next.drop_last() =~= tx.outputs@.subrange(0, i as int));
            }
            self.attach_output(locks, n, tx.hash, i, tx.outputs[i]);
            i = i + 1;
        }
        proof {
            assert(tx.outputs@.subrange(0, i as int) =~= tx.outputs@);
        }
        if !tx.is_cellbase() {
            let ghost s1 = self@;
            let mut k: usize = 0;
            while k < tx.inputs.len()
                invariant
                    self.wf(),
                    k <= tx.inputs@.len(),
                    self@ == spend_inputs(s1, locks@.to_set(), n, tx.hash, tx.inputs@.subrange(0, k as int)),
                decreases tx.inputs@.len() - k,
            {
                proof {
                    let next = tx.inputs@.subrange(0, k + 1);
                    assert(next.drop_last() =~= tx.inputs@.subrange(0, k as int));
                }
                self.spend_input(locks, n, tx.hash, k, tx.inputs[k].previous_output);
                k = k + 1;
            }
            proof {
                assert(tx.inputs@.subrange(0, k as int) =~= tx.inputs@);
            }
        }
    }

    fn restore_input(&mut self, locks: &Vec<H256>, op: OutPoint)
        requires
            old(self).wf(),
        ensures
            final(self).wf(),
            final(self)@ == restore(old(self)@, locks@.to_set(), op),
    {
        if let Some(e) = self.out_points.get(&op) {
            if holds_lock(locks, &e.lock_hash) {
                if let Some(o) = e.cell_output {
                    let key = LockHashIndex { lock_hash: e.lock_hash, block_number: e.block_number, cell_out_point: op };
                    self.live_cells.put(key, o);
                    self.transactions.put(key, None);
                    self.out_points.put(op, LockHashCellOutput { cell_output: None, ..e });
                }
            }
        }
    }

    fn detach_output(&mut self, locks: &Vec<H256>, n: BlockNumber, h: H256, i: usize, o: CellOutput)
        requires
            old(self).wf(),
        ensures
            final(self).wf(),
            final(self)@ == drop_output(old(self)@, locks@.to_set(), n, h, i as int, o),
    {
        if holds_lock(locks, &o.lock_hash) && i as u64 <= u32::MAX as u64 {
            let key = LockHashIndex::new(o.lock_hash, n, h, i as u32);
            self.live_cells.delete(&key);
            self.transactions.delete(&key);
            self.out_points.delete(&key.cell_out_point);
        }
    }

    fn detach_tx(&mut self, locks: &Vec<H256>, n: BlockNumber, tx: &Transaction)
        requires
            old(self).wf(),
        ensures
            final(self).wf(),
            final(self)@ == detach_tx(old(self)@, locks@.to_set(), n, *tx),
    {
        if !tx.is_cellbase() {
            let ghost s0 = self@;
            let mut k: usize = tx.inputs.len();
            proof {
                assert(tx.inputs@.subrange(0, k as int) =~= tx.inputs@);
            }
            while k > 0
                invariant
                    self.wf(),
                    k <= tx.inputs@.len(),
                    restore_inputs(s0, locks@.to_set(), tx.inputs@) == restore_inputs(
                        self@,
                        locks@.to_set(),
                        tx.inputs@.subrange(0, k as int),
                    ),
                decreases k,
            {
                proof {
                    let cur = tx.inputs@.subrange(0, k as int);
                    assert(cur.drop_last() =~= tx.inputs@.subrange(0, k - 1));
                }
                self.restore_input(locks, tx.inputs[k - 1].previous_output);
                k = k - 1;
            }
            proof {
                assert(tx.inputs@.subrange(0, 0) =~= Seq::<CellInput>::empty());
                assert(tx.inputs@.subrange(0, tx.inputs@.len() as int) =~= tx.inputs@);
            }
        }
        let ghost s1 = self@;
        let mut i: usize = tx.outputs.len();
        proof {
            assert(tx.outputs@.subrange(0, i as int) =~= tx.outputs@);
        }
        while i > 0
            invariant
                self.wf(),
                i <= tx.outputs@.len(),
                drop_outputs(s1, locks@.to_set(), n, tx.hash, tx.outputs@) == drop_outputs(
                    self@,
                    locks@.to_set(),
                    n,
                    tx.hash,
                    tx.outputs@.subrange(0, i as int),
                ),
            decreases i,
        {
            proof {
                let cur = tx.outputs@.subrange(0, i as int);
                assert(cur.drop_last() =~= tx.outputs@.subrange(0, i - 1));
            }
            self.detach_output(locks, n, tx.hash, i - 1, tx.outputs[i - 1]);
            i = i - 1;
        }
        proof {
            assert(tx.outputs@.subrange(0, 0) =~= Seq::<CellOutput>::empty());
            assert(tx.outputs@.subrange(0, tx.outputs@.len() as int) =~= tx.outputs@);
        }
    }

    /// Undoes block `b` for the locks `locks`.
    pub fn detach_block(&mut self, locks: &Vec<H256>, b: &Block)
        requires
            old(self).wf(),
        ensures
            final(self).wf(),
            final(self)@ == detached(old(self)@, locks@.to_set(), *b),
    {
        let ghost s0 = self@;
        let n = b.header.number;
        let mut t: usize = b.transactions.len();
        proof {
            assert(b.transactions@.subrange(0, t as int) =~= b.transactions@);
        }
        while t > 0
            invariant
                self.wf(),
                t <= b.transactions@.len(),
                n == b.header.number,
                detached(s0, locks@.to_set(), *b) == detach_txs(self@, locks@.to_set(), n, b.transactions@.subrange(0, t as int)),
            decreases t,
        {
            proof {
                let cur = b.transactions@.subrange(0, t as int);
                assert(cur.drop_last() =~= b.transactions@.subrange(0, t - 1));
                assert(b.transactions@[t - 1] == b.transactions[t - 1]);
            }
            self.detach_tx(locks, n, &b.transactions[t - 1]);
            t = t - 1;
        }
        proof {
            assert(b.transactions@.subrange(0, 0) =~= Seq::<Transaction>::empty());
        }
    }

    /// Indexes block `b` for the locks `locks`.
    pub fn attach_block(&mut self, locks: &Vec<H256>, b: &Block)
        requires
            old(self).wf(),
        ensures
            final(self).wf(),
            final(self)@ == attached(old(self)@, locks@.to_set(), *b),
    {
        let ghost s0 = self@;
        let n = b.header.number;
        let mut t: usize = 0;
        while t < b.transactions.len()
            invariant
                self.wf(),
                t <= b.transactions@.len(),
                n == b.header.number,
                self@ == attach_txs(s0, locks@.to_set(), n, b.transactions@.subrange(0, t as int)),
            decreases b.transactions@.len() - t,
        {
            proof {
                let next = b.transactions@.subrange(0, t + 1);
                assert(next.drop_last() =~= b.transactions@.subrange(0, t as int));
                assert(b.transactions@[t as int] == b.transactions[t as int]);
            }
            self.attach_tx(locks, n, &b.transactions[t]);
            t = t + 1;
        }
        proof {
            assert(b.transactions@.subrange(0, t as int) =~= b.transactions@);
        }
    }
}


/// Every live, unconsumed indexed out-point of a lock in `locks` has an
/// unconsumed history entry.
pub open spec fn coherent(s: IndexView, locks: Set<H256>) -> bool {
    forall|op: OutPoint|
        #[trigger] s.outs.contains_key(op) && locks.contains(s.outs[op].lock_hash) && s.outs[op].cell_output is None
            ==> {
            let key = LockHashIndex { lock_hash: s.outs[op].lock_hash, block_number: s.outs[op].block_number, cell_out_point: op };
            s.live.contains_key(key) ==> s.txs.contains_key(key) && s.txs[key] == None::<TransactionPoint>
        }
}

/// Whether the indexed out-point `op` is not yet consumed in `s`.
pub open spec fn unconsumed(s: IndexView, locks: Set<H256>, op: OutPoint) -> bool {
    s.outs.contains_key(op) && locks.contains(s.outs[op].lock_hash) ==> s.outs[op].cell_output is None
}

/// What `tx` of block `n` needs of `s` for detaching it to undo attaching
/// it: its indexed outputs are new to `s`, its inputs name distinct
/// out-points, none of them already consumed, and `s` is coherent.
pub open spec fn undoable(s: IndexView, locks: Set<H256>, n: BlockNumber, tx: Transaction) -> bool {
    &&& coherent(s, locks)
    &&& forall|i: int|
        0 <= i < tx.outputs@.len() && i <= u32::MAX && locks.contains(#[trigger] tx.outputs@[i].lock_hash) ==> {
            let key = key_of(tx.outputs@[i].lock_hash, n, tx.hash, i);
            &&& !s.live.contains_key(key)
            &&& !s.txs.contains_key(key)
            &&& !s.outs.contains_key(key.cell_out_point)
        }
    &&& forall|a: int, b: int|
        0 <= a < b < tx.inputs@.len() ==> (#[trigger] tx.inputs@[a]).previous_output != (#[trigger] tx.inputs@[b]).previous_output
    &&& forall|j: int| 0 <= j < tx.inputs@.len() ==> unconsumed(s, locks, (#[trigger] tx.inputs@[j]).previous_output)
}

/// Restoring an out-point undoes spending it, where it was unconsumed and
/// its entries coherent.
proof fn lemma_restore_spend(s: IndexView, locks: Set<H256>, n: BlockNumber, h: H256, i: int, op: OutPoint)
    requires
        coherent(s, locks),
        unconsumed(s, locks, op),
    ensures
        restore(spend(s, locks, n, h, i, op), locks, op) == s,
{
    let t = spend(s, locks, n, h, i, op);
    if s.outs.contains_key(op) {
        let e = s.outs[op];
        let key = LockHashIndex { lock_hash: e.lock_hash, block_number: e.block_number, cell_out_point: op };
        if t != s {
            assert(s.txs.contains_key(key));
            assert(t.live.remove(key).insert(key, s.live[key]) =~= s.live) by {
                assert(t.live =~= s.live.remove(key));
            }
            let r = restore(t, locks, op);
            assert(r.live =~= s.live);
            assert(r.txs =~= s.txs);
            assert(r.outs =~= s.outs);
        }
    }
}

/// Spending out-points other than `op` leaves the entries of `op` alone.
proof fn lemma_spend_frame(s: IndexView, locks: Set<H256>, n: BlockNumber, h: H256, ins: Seq<CellInput>, op: OutPoint)
    requires
        forall|j: int| 0 <= j < ins.len() ==> (#[trigger] ins[j]).previous_output != op,
    ensures
        ({
            let t = spend_inputs(s, locks, n, h, ins);
            &&& t.outs.contains_key(op) == s.outs.contains_key(op)
            &&& t.outs[op] == s.outs[op]
            &&& forall|k: LockHashIndex| #[trigger] t.live.contains_key(k) && k.cell_out_point == op ==> s.live.contains_key(k)
            &&& forall|k: LockHashIndex| k.cell_out_point == op ==> (#[trigger] t.live.contains_key(k)) == s.live.contains_key(k)
                && t.live[k] == s.live[k] && t.txs.contains_key(k) == s.txs.contains_key(k) && t.txs[k] == s.txs[k]
            &&& t.states == s.states
        }),
    decreases ins.len(),
{
    if ins.len() > 0 {
        let pre = ins.drop_last();
        assert forall|j: int| 0 <= j < pre.len() implies (#[trigger] pre[j]).previous_output != op by {
            assert(pre[j] == ins[j]);
        }
        lemma_spend_frame(s, locks, n, h, pre, op);
        assert(ins[ins.len() - 1].previous_output != op);
    }
}

/// Spending keeps coherence.
proof fn lemma_spend_coherent(s: IndexView, locks: Set<H256>, n: BlockNumber, h: H256, i: int, op: OutPoint)
    requires
        coherent(s, locks),
    ensures
        coherent(spend(s, locks, n, h, i, op), locks),
{
    let t = spend(s, locks, n, h, i, op);
    assert forall|q: OutPoint|
        #[trigger] t.outs.contains_key(q) && locks.contains(t.outs[q].lock_hash) && t.outs[q].cell_output is None implies {
        let key = LockHashIndex { lock_hash: t.outs[q].lock_hash, block_number: t.outs[q].block_number, cell_out_point: q };
        t.live.contains_key(key) ==> t.txs.contains_key(key) && t.txs[key] == None::<TransactionPoint>
    } by {
        if q != op {
            assert(s.outs.contains_key(q));
        }
    }
}

/// Restoring the inputs `ins` in reverse undoes spending them.
proof fn lemma_restore_inputs(s: IndexView, locks: Set<H256>, n: BlockNumber, h: H256, ins: Seq<CellInput>)
    requires
        coherent(s, locks),
        forall|a: int, b: int| 0 <= a < b < ins.len() ==> (#[trigger] ins[a]).previous_output != (#[trigger] ins[b]).previous_output,
        forall|j: int| 0 <= j < ins.len() ==> unconsumed(s, locks, (#[trigger] ins[j]).previous_output),
    ensures
        restore_inputs(spend_inputs(s, locks, n, h, ins), locks, ins) == s,
        coherent(spend_inputs(s, locks, n, h, ins), locks),
    decreases ins.len(),
{
    if ins.len() > 0 {
        let pre = ins.drop_last();
        let op = ins.last().previous_output;
        assert forall|a: int, b: int| 0 <= a < b < pre.len() implies (#[trigger] pre[a]).previous_output != (#[trigger] pre[b]).previous_output by {
            assert(pre[a] == ins[a]);
            assert(pre[b] == ins[b]);
        }
        assert forall|j: int| 0 <= j < pre.len() implies unconsumed(s, locks, (#[trigger] pre[j]).previous_output) by {
            assert(pre[j] == ins[j]);
        }
        lemma_restore_inputs(s, locks, n, h, pre);
        let z = spend_inputs(s, locks, n, h, pre);
        assert forall|j: int| 0 <= j < pre.len() implies (#[trigger] pre[j]).previous_output != op by {
            assert(pre[j] == ins[j]);
            assert(ins[j].previous_output != ins[ins.len() - 1].previous_output);
        }
        lemma_spend_frame(s, locks, n, h, pre, op);
        assert(unconsumed(s, locks, ins[ins.len() - 1].previous_output));
        assert(unconsumed(z, locks, op));
        lemma_restore_spend(z, locks, n, h, ins.len() - 1, op);
        lemma_spend_coherent(z, locks, n, h, ins.len() - 1, op);
    }
}

/// Adding outputs of transaction `h` at positions other than that of `op`
/// leaves the entries of `op` alone; what it adds is unconsumed.
proof fn lemma_add_frame(s: IndexView, locks: Set<H256>, n: BlockNumber, h: H256, outs: Seq<CellOutput>, op: OutPoint)
    requires
        op.tx_hash == h ==> op.index >= outs.len(),
    ensures
        ({
            let t = add_outputs(s, locks, n, h, outs);
            &&& t.outs.contains_key(op) == s.outs.contains_key(op)
            &&& t.outs[op] == s.outs[op]
            &&& forall|k: LockHashIndex| k.cell_out_point == op ==> (#[trigger] t.live.contains_key(k)) == s.live.contains_key(k)
                && t.live[k] == s.live[k] && t.txs.contains_key(k) == s.txs.contains_key(k) && t.txs[k] == s.txs[k]
        }),
    decreases outs.len(),
{
    if outs.len() > 0 {
        lemma_add_frame(s, locks, n, h, outs.drop_last(), op);
    }
}

proof fn lemma_add_keeps(s: IndexView, locks: Set<H256>, n: BlockNumber, h: H256, outs: Seq<CellOutput>)
    requires
        coherent(s, locks),
        forall|i: int|
            0 <= i < outs.len() && i <= u32::MAX && locks.contains(#[trigger] outs[i].lock_hash) ==> {
                let key = key_of(outs[i].lock_hash, n, h, i);
                &&& !s.live.contains_key(key)
                &&& !s.txs.contains_key(key)
                &&& !s.outs.contains_key(key.cell_out_point)
            },
    ensures
        coherent(add_outputs(s, locks, n, h, outs), locks),
        forall|op: OutPoint| unconsumed(s, locks, op) ==> #[trigger] unconsumed(add_outputs(s, locks, n, h, outs), locks, op),
        drop_outputs(add_outputs(s, locks, n, h, outs), locks, n, h, outs) == s,
        add_outputs(s, locks, n, h, outs).states == s.states,
    decreases outs.len(),
{
    if outs.len() > 0 {
        let pre = outs.drop_last();
        let m = outs.len() - 1;
        let o = outs.last();
        assert forall|i: int|
            0 <= i < pre.len() && i <= u32::MAX && locks.contains(#[trigger] pre[i].lock_hash) implies {
            let key = key_of(pre[i].lock_hash, n, h, i);
            &&& !s.live.contains_key(key)
            &&& !s.txs.contains_key(key)
            &&& !s.outs.contains_key(key.cell_out_point)
        } by {
            assert(pre[i] == outs[i]);
        }
        lemma_add_keeps(s, locks, n, h, pre);
        let y = add_outputs(s, locks, n, h, pre);
        if locks.contains(o.lock_hash) && m <= u32::MAX {
            let key = key_of(o.lock_hash, n, h, m);
            let op = key.cell_out_point;
            assert(outs[m] == o);
            lemma_add_frame(s, locks, n, h, pre, op);
            assert(!y.live.contains_key(key));
            assert(!y.txs.contains_key(key));
            assert(!y.outs.contains_key(op));
            let t = add_output(y, locks, n, h, m, o);
            assert(drop_output(t, locks, n, h, m, o).live =~= y.live);
            assert(drop_output(t, locks, n, h, m, o).txs =~= y.txs);
            assert(drop_output(t, locks, n, h, m, o).outs =~= y.outs);
            assert(coherent(t, locks)) by {
                assert forall|q: OutPoint|
                    #[trigger] t.outs.contains_key(q) && locks.contains(t.outs[q].lock_hash) && t.outs[q].cell_output is None implies {
                    let k = LockHashIndex { lock_hash: t.outs[q].lock_hash, block_number: t.outs[q].block_number, cell_out_point: q };
                    t.live.contains_key(k) ==> t.txs.contains_key(k) && t.txs[k] == None::<TransactionPoint>
                } by {
                    if q != op {
                        assert(y.outs.contains_key(q));
                    }
                }
            }
            assert forall|q: OutPoint| unconsumed(s, locks, q) implies #[trigger] unconsumed(t, locks, q) by {
                assert(unconsumed(y, locks, q));
            }
        }
        assert(outs.drop_last() == pre);
    }
}

/// Detaching a transaction undoes attaching it, where it is undoable.
pub proof fn lemma_detach_tx_undoes(s: IndexView, locks: Set<H256>, n: BlockNumber, tx: Transaction)
    requires
        undoable(s, locks, n, tx),
    ensures
        detach_tx(attach_tx(s, locks, n, tx), locks, n, tx) == s,
{
    lemma_add_keeps(s, locks, n, tx.hash, tx.outputs@);
    let y = add_outputs(s, locks, n, tx.hash, tx.outputs@);
    if !tx.is_cellbase_spec() {
        assert forall|j: int| 0 <= j < tx.inputs@.len() implies unconsumed(y, locks, (#[trigger] tx.inputs@[j]).previous_output) by {
            assert(unconsumed(s, locks, tx.inputs@[j].previous_output));
        }
        lemma_restore_inputs(y, locks, n, tx.hash, tx.inputs@);
    }
}

/// Detaching a block undoes attaching it, when each of its transactions is
/// undoable at the index that the transactions before it leave.
pub proof fn lemma_detach_undoes_attach(s: IndexView, locks: Set<H256>, b: Block)
    requires
        forall|t: int|
            0 <= t < b.transactions@.len() ==> undoable(
                attach_txs(s, locks, b.header.number, b.transactions@.subrange(0, t)),
                locks,
                b.header.number,
                #[trigger] b.transactions@[t],
            ),
    ensures
        detached(attached(s, locks, b), locks, b) == s,
{
    lemma_txs_undo(s, locks, b.header.number, b.transactions@);
}

proof fn lemma_txs_undo(s: IndexView, locks: Set<H256>, n: BlockNumber, txs: Seq<Transaction>)
    requires
        forall|t: int|
            0 <= t < txs.len() ==> undoable(attach_txs(s, locks, n, txs.subrange(0, t)), locks, n, #[trigger] txs[t]),
    ensures
        detach_txs(attach_txs(s, locks, n, txs), locks, n, txs) == s,
    decreases txs.len(),
{
    if txs.len() > 0 {
        let pre = txs.drop_last();
        assert forall|t: int| 0 <= t < pre.len() implies undoable(attach_txs(s, locks, n, pre.subrange(0, t)), locks, n, #[trigger] pre[t]) by {
            assert(pre.subrange(0, t) =~= txs.subrange(0, t));
            assert(pre[t] == txs[t]);
        }
        lemma_txs_undo(s, locks, n, pre);
        let w = attach_txs(s, locks, n, pre);
        assert(txs.subrange(0, txs.len() - 1) =~= pre);
        assert(undoable(w, locks, n, txs[txs.len() - 1]));
        lemma_detach_tx_undoes(w, locks, n, txs.last());
    }
}

/// Each transaction of each of the blocks `bs` is undoable at the index that
/// attaching everything before it leaves.
pub open spec fn undoable_blocks(s: IndexView, locks: Set<H256>, bs: Seq<Block>) -> bool {
    forall|k: int, t: int|
        0 <= k < bs.len() && 0 <= t < bs[k].transactions@.len() ==> undoable(
            attach_txs(attach_blocks(s, locks, bs.subrange(0, k)), locks, bs[k].header.number, bs[k].transactions@.subrange(0, t)),
            locks,
            bs[k].header.number,
            #[trigger] bs[k].transactions@[t],
        )
}

proof fn lemma_detach_blocks_first(x: IndexView, locks: Set<H256>, b: Block, rest: Seq<Block>)
    ensures
        detach_blocks(x, locks, seq![b] + rest) == detach_blocks(detached(x, locks, b), locks, rest),
    decreases rest.len(),
{
    if rest.len() == 0 {
        assert((seq![b] + rest).drop_last() =~= Seq::<Block>::empty());
        assert(detach_blocks(x, locks, Seq::<Block>::empty()) == x);
    } else {
        lemma_detach_blocks_first(x, locks, b, rest.drop_last());
        assert((seq![b] + rest).drop_last() =~= seq![b] + rest.drop_last());
    }
}

/// Attaching the blocks `bs` in turn and then detaching them newest first
/// gives back the index, when every transaction is undoable where it was
/// attached.
pub proof fn lemma_reorg_inverse(s: IndexView, locks: Set<H256>, bs: Seq<Block>)
    requires
        undoable_blocks(s, locks, bs),
    ensures
        detach_blocks(attach_blocks(s, locks, bs), locks, bs.reverse()) == s,
    decreases bs.len(),
{
    if bs.len() == 0 {
        assert(bs.reverse() =~= Seq::<Block>::empty());
    } else {
        let pre = bs.drop_last();
        let last = bs.last();
        assert forall|k: int, t: int|
            0 <= k < pre.len() && 0 <= t < pre[k].transactions@.len() implies undoable(
            attach_txs(attach_blocks(s, locks, pre.subrange(0, k)), locks, pre[k].header.number, pre[k].transactions@.subrange(0, t)),
            locks,
            pre[k].header.number,
            #[trigger] pre[k].transactions@[t],
        ) by {
            assert(pre.subrange(0, k) =~= bs.subrange(0, k));
            assert(pre[k] == bs[k]);
            assert(undoable(
                attach_txs(attach_blocks(s, locks, bs.subrange(0, k)), locks, bs[k].header.number, bs[k].transactions@.subrange(0, t)),
                locks,
                bs[k].header.number,
                bs[k].transactions@[t],
            ));
        }
        lemma_reorg_inverse(s, locks, pre);
        let w = attach_blocks(s, locks, pre);
        assert(bs.subrange(0, bs.len() - 1) =~= pre);
        assert forall|t: int| 0 <= t < last.transactions@.len() implies undoable(
            attach_txs(w, locks, last.header.number, last.transactions@.subrange(0, t)),
            locks,
            last.header.number,
            #[trigger] last.transactions@[t],
        ) by {
            assert(undoable(
                attach_txs(attach_blocks(s, locks, bs.subrange(0, bs.len() - 1)), locks, bs[bs.len() - 1].header.number, bs[bs.len() - 1].transactions@.subrange(0, t)),
                locks,
                bs[bs.len() - 1].header.number,
                bs[bs.len() - 1].transactions@[t],
            ));
        }
        lemma_detach_undoes_attach(w, locks, last);
        assert(bs.reverse() =~= seq![last] + pre.reverse());
        lemma_detach_blocks_first(attached(w, locks, last), locks, last, pre.reverse());
    }
}


/// `s` holds, for the locks `locks`, exactly the cells that `created` lists
/// by out-point and `consumed` does not name: as live cells, and as reverse
/// entries that keep the output once consumed.
pub open spec fn models(s: IndexView, locks: Set<H256>, created: Map<OutPoint, (LockHashIndex, CellOutput)>, consumed: Set<OutPoint>) -> bool {
    &&& forall|k: LockHashIndex|
        #[trigger] s.live.contains_key(k) <==> (created.contains_key(k.cell_out_point) && created[k.cell_out_point].0 == k
            && !consumed.contains(k.cell_out_point))
    &&& forall|k: LockHashIndex| #[trigger] s.live.contains_key(k) ==> s.live[k] == created[k.cell_out_point].1
    &&& forall|op: OutPoint|
        (#[trigger] s.outs.contains_key(op) && locks.contains(s.outs[op].lock_hash)) <==> created.contains_key(op)
    &&& forall|op: OutPoint|
        #[trigger] created.contains_key(op) ==> {
            &&& created[op].0.cell_out_point == op
            &&& locks.contains(created[op].0.lock_hash)
            &&& s.outs[op].lock_hash == created[op].0.lock_hash
            &&& s.outs[op].block_number == created[op].0.block_number
            &&& (s.outs[op].cell_output is None <==> !consumed.contains(op))
        }
}

/// The cells that the outputs `outs` of transaction `h` in block `n` add
/// for `locks`.
pub open spec fn outs_created(
    c: Map<OutPoint, (LockHashIndex, CellOutput)>,
    locks: Set<H256>,
    n: BlockNumber,
    h: H256,
    outs: Seq<CellOutput>,
) -> Map<OutPoint, (LockHashIndex, CellOutput)>
    decreases outs.len(),
{
    if outs.len() == 0 {
        c
    } else {
        let prev = outs_created(c, locks, n, h, outs.drop_last());
        let i = outs.len() - 1;
        let o = outs.last();
        if locks.contains(o.lock_hash) && i <= u32::MAX {
            let key = key_of(o.lock_hash, n, h, i);
            prev.insert(key.cell_out_point, (key, o))
        } else {
            prev
        }
    }
}

/// The out-points that the inputs `ins` consume.
pub open spec fn ins_consumed(d: Set<OutPoint>, ins: Seq<CellInput>) -> Set<OutPoint>
    decreases ins.len(),
{
    if ins.len() == 0 {
        d
    } else {
        ins_consumed(d, ins.drop_last()).insert(ins.last().previous_output)
    }
}

pub open spec fn tx_created(c: Map<OutPoint, (LockHashIndex, CellOutput)>, locks: Set<H256>, n: BlockNumber, tx: Transaction) -> Map<OutPoint, (LockHashIndex, CellOutput)> {
    outs_created(c, locks, n, tx.hash, tx.outputs@)
}

pub open spec fn tx_consumed(d: Set<OutPoint>, tx: Transaction) -> Set<OutPoint> {
    if tx.is_cellbase_spec() {
        d
    } else {
        ins_consumed(d, tx.inputs@)
    }
}

/// `tx` of block `n` creates no out-point already created or consumed,
/// spends no out-point twice, and has no more inputs than out-point
/// positions.
pub open spec fn valid_tx(c: Map<OutPoint, (LockHashIndex, CellOutput)>, d: Set<OutPoint>, locks: Set<H256>, n: BlockNumber, tx: Transaction) -> bool {
    &&& forall|i: int|
        0 <= i < tx.outputs@.len() && i <= u32::MAX && locks.contains(#[trigger] tx.outputs@[i].lock_hash) ==> {
            let op = OutPoint { tx_hash: tx.hash, index: i as u32 };
            !c.contains_key(op) && !d.contains(op)
        }
    &&& !tx.is_cellbase_spec() ==> {
        &&& tx.inputs@.len() <= u32::MAX + 1
        &&& forall|a: int, b: int|
            0 <= a < b < tx.inputs@.len() ==> (#[trigger] tx.inputs@[a]).previous_output != (#[trigger] tx.inputs@[b]).previous_output
        &&& forall|j: int| 0 <= j < tx.inputs@.len() ==> !d.contains((#[trigger] tx.inputs@[j]).previous_output)
    }
}

proof fn lemma_outs_created_frame(c: Map<OutPoint, (LockHashIndex, CellOutput)>, locks: Set<H256>, n: BlockNumber, h: H256, outs: Seq<CellOutput>, op: OutPoint)
    requires
        op.tx_hash == h ==> op.index >= outs.len(),
    ensures
        outs_created(c, locks, n, h, outs).contains_key(op) == c.contains_key(op),
        outs_created(c, locks, n, h, outs)[op] == c[op],
    decreases outs.len(),
{
    if outs.len() > 0 {
        lemma_outs_created_frame(c, locks, n, h, outs.drop_last(), op);
    }
}

proof fn lemma_model_outputs(
    s: IndexView,
    locks: Set<H256>,
    c: Map<OutPoint, (LockHashIndex, CellOutput)>,
    d: Set<OutPoint>,
    n: BlockNumber,
    h: H256,
    outs: Seq<CellOutput>,
)
    requires
        models(s, locks, c, d),
        forall|i: int|
            0 <= i < outs.len() && i <= u32::MAX && locks.contains(#[trigger] outs[i].lock_hash) ==> {
                let op = OutPoint { tx_hash: h, index: i as u32 };
                !c.contains_key(op) && !d.contains(op)
            },
    ensures
        models(add_outputs(s, locks, n, h, outs), locks, outs_created(c, locks, n, h, outs), d),
    decreases outs.len(),
{
    if outs.len() > 0 {
        let pre = outs.drop_last();
        assert forall|i: int|
            0 <= i < pre.len() && i <= u32::MAX && locks.contains(#[trigger] pre[i].lock_hash) implies {
            let op = OutPoint { tx_hash: h, index: i as u32 };
            !c.contains_key(op) && !d.contains(op)
        } by {
            assert(pre[i] == outs[i]);
        }
        lemma_model_outputs(s, locks, c, d, n, h, pre);
        let y = add_outputs(s, locks, n, h, pre);
        let cy = outs_created(c, locks, n, h, pre);
        let i = outs.len() - 1;
        let o = outs.last();
        if locks.contains(o.lock_hash) && i <= u32::MAX {
            let key = key_of(o.lock_hash, n, h, i);
            let op = key.cell_out_point;
            assert(outs[i] == o);
            lemma_outs_created_frame(c, locks, n, h, pre, op);
            assert(!cy.contains_key(op));
            let t = add_output(y, locks, n, h, i, o);
            let ct = cy.insert(op, (key, o));
            assert forall|k: LockHashIndex| #[trigger] t.live.contains_key(k) <==> (ct.contains_key(k.cell_out_point)
                && ct[k.cell_out_point].0 == k && !d.contains(k.cell_out_point)) by {
                if k.cell_out_point == op && y.live.contains_key(k) {
                    assert(cy.contains_key(k.cell_out_point));
                }
            }
            assert forall|q: OutPoint| (#[trigger] t.outs.contains_key(q) && locks.contains(t.outs[q].lock_hash)) <==> ct.contains_key(q) by {
                if q != op {
                    assert(t.outs.contains_key(q) == y.outs.contains_key(q));
                }
            }
            assert(models(t, locks, ct, d));
        }
    }
}

proof fn lemma_model_inputs(
    s: IndexView,
    locks: Set<H256>,
    c: Map<OutPoint, (LockHashIndex, CellOutput)>,
    d: Set<OutPoint>,
    n: BlockNumber,
    h: H256,
    ins: Seq<CellInput>,
)
    requires
        models(s, locks, c, d),
        ins.len() <= u32::MAX + 1,
        forall|a: int, b: int| 0 <= a < b < ins.len() ==> (#[trigger] ins[a]).previous_output != (#[trigger] ins[b]).previous_output,
        forall|j: int| 0 <= j < ins.len() ==> !d.contains((#[trigger] ins[j]).previous_output),
    ensures
        models(spend_inputs(s, locks, n, h, ins), locks, c, ins_consumed(d, ins)),
    decreases ins.len(),
{
    if ins.len() > 0 {
        let pre = ins.drop_last();
        let op = ins.last().previous_output;
        let i = ins.len() - 1;
        assert forall|a: int, b: int| 0 <= a < b < pre.len() implies (#[trigger] pre[a]).previous_output != (#[trigger] pre[b]).previous_output by {
            assert(pre[a] == ins[a]);
            assert(pre[b] == ins[b]);
        }
        assert forall|j: int| 0 <= j < pre.len() implies !d.contains((#[trigger] pre[j]).previous_output) by {
            assert(pre[j] == ins[j]);
        }
        lemma_model_inputs(s, locks, c, d, n, h, pre);
        let y = spend_inputs(s, locks, n, h, pre);
        let dy = ins_consumed(d, pre);
        assert(!dy.contains(op)) by {
            lemma_ins_consumed_has(d, pre, op);
            assert(!d.contains(ins[i].previous_output));
            assert forall|j: int| 0 <= j < pre.len() implies pre[j].previous_output != op by {
                assert(pre[j] == ins[j]);
                assert(ins[j].previous_output != ins[i].previous_output);
            }
        }
        let t = spend(y, locks, n, h, i, op);
        let dt = dy.insert(op);
        if y.outs.contains_key(op) && locks.contains(y.outs[op].lock_hash) {
            assert(c.contains_key(op));
            let key = c[op].0;
            assert(y.live.contains_key(key));
            assert forall|k: LockHashIndex| #[trigger] t.live.contains_key(k) <==> (c.contains_key(k.cell_out_point)
                && c[k.cell_out_point].0 == k && !dt.contains(k.cell_out_point)) by {
            }
            assert(models(t, locks, c, dt));
        } else {
            assert(!c.contains_key(op));
            assert forall|k: LockHashIndex| #[trigger] t.live.contains_key(k) <==> (c.contains_key(k.cell_out_point)
                && c[k.cell_out_point].0 == k && !dt.contains(k.cell_out_point)) by {
            }
            assert(models(t, locks, c, dt));
        }
    }
}

proof fn lemma_ins_consumed_has(d: Set<OutPoint>, ins: Seq<CellInput>, op: OutPoint)
    ensures
        ins_consumed(d, ins).contains(op) <==> (d.contains(op) || exists|j: int| 0 <= j < ins.len() && (#[trigger] ins[j]).previous_output == op),
    decreases ins.len(),
{
    if ins.len() > 0 {
        lemma_ins_consumed_has(d, ins.drop_last(), op);
        if exists|j: int| 0 <= j < ins.len() - 1 && (#[trigger] ins.drop_last()[j]).previous_output == op {
            let j = choose|j: int| 0 <= j < ins.len() - 1 && (#[trigger] ins.drop_last()[j]).previous_output == op;
            assert(ins[j].previous_output == op);
        }
        if exists|j: int| 0 <= j < ins.len() && (#[trigger] ins[j]).previous_output == op {
            let j = choose|j: int| 0 <= j < ins.len() && (#[trigger] ins[j]).previous_output == op;
            if j < ins.len() - 1 {
                assert(ins.drop_last()[j].previous_output == op);
            }
        }
    }
}

/// Attaching a valid transaction moves the index from one model to the next.
proof fn lemma_model_tx(
    s: IndexView,
    locks: Set<H256>,
    c: Map<OutPoint, (LockHashIndex, CellOutput)>,
    d: Set<OutPoint>,
    n: BlockNumber,
    tx: Transaction,
)
    requires
        models(s, locks, c, d),
        valid_tx(c, d, locks, n, tx),
    ensures
        models(attach_tx(s, locks, n, tx), locks, tx_created(c, locks, n, tx), tx_consumed(d, tx)),
{
    lemma_model_outputs(s, locks, c, d, n, tx.hash, tx.outputs@);
    if !tx.is_cellbase_spec() {
        lemma_model_inputs(
            add_outputs(s, locks, n, tx.hash, tx.outputs@),
            locks,
            tx_created(c, locks, n, tx),
            d,
            n,
            tx.hash,
            tx.inputs@,
        );
    }
}

pub open spec fn txs_created(c: Map<OutPoint, (LockHashIndex, CellOutput)>, locks: Set<H256>, n: BlockNumber, txs: Seq<Transaction>) -> Map<OutPoint, (LockHashIndex, CellOutput)>
    decreases txs.len(),
{
    if txs.len() == 0 {
        c
    } else {
        tx_created(txs_created(c, locks, n, txs.drop_last()), locks, n, txs.last())
    }
}

pub open spec fn txs_consumed(d: Set<OutPoint>, txs: Seq<Transaction>) -> Set<OutPoint>
    decreases txs.len(),
{
    if txs.len() == 0 {
        d
    } else {
        tx_consumed(txs_consumed(d, txs.drop_last()), txs.last())
    }
}

/// Each of `txs` is valid after those before it.
pub open spec fn valid_txs(c: Map<OutPoint, (LockHashIndex, CellOutput)>, d: Set<OutPoint>, locks: Set<H256>, n: BlockNumber, txs: Seq<Transaction>) -> bool
    decreases txs.len(),
{
    if txs.len() == 0 {
        true
    } else {
        &&& valid_txs(c, d, locks, n, txs.drop_last())
        &&& valid_tx(txs_created(c, locks, n, txs.drop_last()), txs_consumed(d, txs.drop_last()), locks, n, txs.last())
    }
}

/// The cells that the blocks `bs` create for `locks`, by out-point.
pub open spec fn blocks_created(c: Map<OutPoint, (LockHashIndex, CellOutput)>, locks: Set<H256>, bs: Seq<Block>) -> Map<OutPoint, (LockHashIndex, CellOutput)>
    decreases bs.len(),
{
    if bs.len() == 0 {
        c
    } else {
        txs_created(blocks_created(c, locks, bs.drop_last()), locks, bs.last().header.number, bs.last().transactions@)
    }
}

/// The out-points that the inputs of the blocks `bs` consume.
pub open spec fn blocks_consumed(d: Set<OutPoint>, bs: Seq<Block>) -> Set<OutPoint>
    decreases bs.len(),
{
    if bs.len() == 0 {
        d
    } else {
        txs_consumed(blocks_consumed(d, bs.drop_last()), bs.last().transactions@)
    }
}

/// Every transaction of the blocks `bs` is valid after all before it: the
/// blocks create each out-point once, before any input consumes it, and
/// consume each at most once.
pub open spec fn valid_blocks(locks: Set<H256>, bs: Seq<Block>) -> bool
    decreases bs.len(),
{
    if bs.len() == 0 {
        true
    } else {
        let pre = bs.drop_last();
        &&& valid_blocks(locks, pre)
        &&& valid_txs(
            blocks_created(Map::empty(), locks, pre),
            blocks_consumed(Set::empty(), pre),
            locks,
            bs.last().header.number,
            bs.last().transactions@,
        )
    }
}

proof fn lemma_model_txs(
    s: IndexView,
    locks: Set<H256>,
    c: Map<OutPoint, (LockHashIndex, CellOutput)>,
    d: Set<OutPoint>,
    n: BlockNumber,
    txs: Seq<Transaction>,
)
    requires
        models(s, locks, c, d),
        valid_txs(c, d, locks, n, txs),
    ensures
        models(attach_txs(s, locks, n, txs), locks, txs_created(c, locks, n, txs), txs_consumed(d, txs)),
    decreases txs.len(),
{
    if txs.len() > 0 {
        lemma_model_txs(s, locks, c, d, n, txs.drop_last());
        lemma_model_tx(
            attach_txs(s, locks, n, txs.drop_last()),
            locks,
            txs_created(c, locks, n, txs.drop_last()),
            txs_consumed(d, txs.drop_last()),
            n,
            txs.last(),
        );
    }
}

proof fn lemma_model_blocks(s: IndexView, locks: Set<H256>, bs: Seq<Block>)
    requires
        models(s, locks, Map::empty(), Set::empty()),
        valid_blocks(locks, bs),
    ensures
        models(attach_blocks(s, locks, bs), locks, blocks_created(Map::empty(), locks, bs), blocks_consumed(Set::empty(), bs)),
    decreases bs.len(),
{
    if bs.len() > 0 {
        let pre = bs.drop_last();
        lemma_model_blocks(s, locks, pre);
        lemma_model_txs(
            attach_blocks(s, locks, pre),
            locks,
            blocks_created(Map::empty(), locks, pre),
            blocks_consumed(Set::empty(), pre),
            bs.last().header.number,
            bs.last().transactions@,
        );
    }
}

/// For the locks `locks`, an index that holds no cells and then has the
/// blocks `bs` attached holds as live cells exactly the outputs of those
/// locks that the blocks create and that no input of theirs consumes, when
/// the blocks create each out-point once, before any input consumes it, and
/// consume each at most once.
pub proof fn lemma_live_cells(s: IndexView, locks: Set<H256>, bs: Seq<Block>)
    requires
        s.live == Map::<LockHashIndex, CellOutput>::empty(),
        s.outs == Map::<OutPoint, LockHashCellOutput>::empty(),
        valid_blocks(locks, bs),
    ensures
        ({
            let t = attach_blocks(s, locks, bs);
            let created = blocks_created(Map::empty(), locks, bs);
            let consumed = blocks_consumed(Set::empty(), bs);
            &&& forall|k: LockHashIndex|
                #[trigger] t.live.contains_key(k) <==> (created.contains_key(k.cell_out_point) && created[k.cell_out_point].0 == k
                    && !consumed.contains(k.cell_out_point))
            &&& forall|k: LockHashIndex| #[trigger] t.live.contains_key(k) ==> t.live[k] == created[k.cell_out_point].1
            &&& forall|op: OutPoint| #[trigger] created.contains_key(op) ==> locks.contains(created[op].0.lock_hash)
        }),
{
    lemma_model_blocks(s, locks, bs);
}

/// The canonical blocks numbered below `k`.
pub open spec fn canonical_prefix(v: StoreView, k: int) -> Seq<Block> {
    Seq::new(k as nat, |i: int| v.canonical_block(i))
}

proof fn lemma_range_extends(s: IndexView, locks: Set<H256>, v: StoreView, lo: int, hi: int)
    requires
        0 <= lo <= hi,
    ensures
        attach_range(attach_blocks(s, locks, canonical_prefix(v, lo)), locks, v, lo, hi) == attach_blocks(
            s,
            locks,
            canonical_prefix(v, hi),
        ),
    decreases hi - lo,
{
    if hi > lo {
        lemma_range_extends(s, locks, v, lo, hi - 1);
        assert(canonical_prefix(v, hi).drop_last() =~= canonical_prefix(v, hi - 1));
    }
}

/// An index whose one registered lock sits at canonical number `n`, with
/// the cells that the canonical blocks up to `n` give it, is brought by a
/// resync to the cells that the canonical blocks up to the top give it.
pub proof fn lemma_sync_extends(e: IndexView, v: StoreView, lock: H256, st: LockHashIndexState)
    requires
        e.states == map![lock => st],
        v.number_of(st.block_hash) == Some(st.block_number),
        st.block_number < v.index.len(),
    ensures
        ({
            let s = attach_blocks(e, set![lock], canonical_prefix(v, st.block_number + 1));
            let mid = rewind_all(s, v, seq![(lock, st)]);
            &&& mid == s
            &&& mid.states.dom() == set![lock]
            &&& min_checkpoint(mid.states) == st.block_number
            &&& attach_range(mid, mid.states.dom(), v, min_checkpoint(mid.states) + 1, v.index.len() as int)
                == attach_blocks(e, set![lock], canonical_prefix(v, v.index.len() as int))
        }),
{
    let locks = set![lock];
    let s = attach_blocks(e, locks, canonical_prefix(v, st.block_number + 1));
    lemma_blocks_keep_states(e, locks, Seq::empty(), canonical_prefix(v, st.block_number + 1));
    assert(detach_blocks(e, locks, Seq::<Block>::empty()) == e);
    assert(s.states == e.states);
    let entries = seq![(lock, st)];
    assert(entries.drop_last() =~= Seq::<(H256, LockHashIndexState)>::empty());
    assert(entries.last() == (lock, st));
    assert(rewind_all(s, v, entries.drop_last()) == s);
    assert(rewind_lock(s, v, lock, st) == s);
    assert(rewind_all(s, v, entries) == s);
    assert(s.states.dom() =~= locks);
    assert(is_min_checkpoint(s.states, st.block_number)) by {
        assert(s.states.contains_key(lock));
    }
    let x = min_checkpoint(s.states);
    assert(is_min_checkpoint(s.states, x));
    assert(x == st.block_number) by {
        let k = choose|k: H256| #[trigger] s.states.contains_key(k) && s.states[k].block_number == x;
        assert(s.states.contains_key(lock));
    }
    lemma_range_extends(e, locks, v, st.block_number + 1, v.index.len() as int);
}

/// After a resync of such an index, with no cells before the canonical
/// blocks up to its checkpoint were attached, the live cells of `lock` are
/// exactly the outputs that the canonical chain up to the top creates for it
/// and does not consume, when that chain is valid for `lock`.
pub proof fn lemma_sync_live_cells(e: IndexView, v: StoreView, lock: H256, st: LockHashIndexState)
    requires
        e.states == map![lock => st],
        e.live == Map::<LockHashIndex, CellOutput>::empty(),
        e.outs == Map::<OutPoint, LockHashCellOutput>::empty(),
        v.number_of(st.block_hash) == Some(st.block_number),
        st.block_number < v.index.len(),
        valid_blocks(set![lock], canonical_prefix(v, v.index.len() as int)),
    ensures
        ({
            let s = attach_blocks(e, set![lock], canonical_prefix(v, st.block_number + 1));
            let mid = rewind_all(s, v, seq![(lock, st)]);
            let t = attach_range(mid, mid.states.dom(), v, min_checkpoint(mid.states) + 1, v.index.len() as int);
            let created = blocks_created(Map::empty(), set![lock], canonical_prefix(v, v.index.len() as int));
            let consumed = blocks_consumed(Set::empty(), canonical_prefix(v, v.index.len() as int));
            &&& forall|k: LockHashIndex|
                #[trigger] t.live.contains_key(k) <==> (created.contains_key(k.cell_out_point) && created[k.cell_out_point].0 == k
                    && !consumed.contains(k.cell_out_point))
            &&& forall|k: LockHashIndex| #[trigger] t.live.contains_key(k) ==> t.live[k] == created[k.cell_out_point].1
        }),
{
    lemma_sync_extends(e, v, lock, st);
    lemma_live_cells(e, set![lock], canonical_prefix(v, v.index.len() as int));
}

} // verus!
