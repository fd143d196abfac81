//! The block store: every stored block with its derived metadata, and the
//! canonical index from block number to block fingerprint.
use vstd::prelude::*;

use crate::types::{Block, BlockExt, BlockNumber, H256, Header, Transaction, TransactionMeta};

verus! {

/// What a store holds: the stored blocks with their metadata, side by side,
/// and the canonical fingerprints by number.
pub ghost struct StoreView {
    pub blocks: Seq<Block>,
    pub exts: Seq<BlockExt>,
    pub index: Seq<H256>,
    pub roots: Seq<(H256, H256)>,
    pub metas: Seq<(H256, H256, TransactionMeta)>,
}

impl StoreView {
    pub open spec fn has(self, h: H256) -> bool {
        exists|i: int| 0 <= i < self.blocks.len() && #[trigger] self.blocks[i].header.hash == h
    }

    /// Where the block with fingerprint `h` is kept.
    pub open spec fn slot(self, h: H256) -> int {
        choose|i: int| 0 <= i < self.blocks.len() && #[trigger] self.blocks[i].header.hash == h
    }

    pub open spec fn block_of(self, h: H256) -> Option<Block> {
        if self.has(h) {
            Some(self.blocks[self.slot(h)])
        } else {
            None
        }
    }

    pub open spec fn header_of(self, h: H256) -> Option<Header> {
        if self.has(h) {
            Some(self.blocks[self.slot(h)].header)
        } else {
            None
        }
    }

    pub open spec fn ext_of(self, h: H256) -> Option<BlockExt> {
        if self.has(h) {
            Some(self.exts[self.slot(h)])
        } else {
            None
        }
    }

    /// The canonical fingerprint at number `n`.
    pub open spec fn hash_at(self, n: int) -> Option<H256> {
        if 0 <= n < self.index.len() {
            Some(self.index[n])
        } else {
            None
        }
    }

    /// The number of `h` when `h` is on the canonical chain.
    pub open spec fn number_of(self, h: H256) -> Option<BlockNumber> {
        if self.has(h) && self.hash_at(self.header_of(h).unwrap().number as int) == Some(h) {
            Some(self.header_of(h).unwrap().number)
        } else {
            None
        }
    }

    /// The stored block that the canonical index lists at `n`.
    #[verifier::opaque]
    pub open spec fn canonical_block(self, n: int) -> Block {
        self.block_of(self.index[n]).unwrap()
    }

    /// The parent of `hd` is stored, one number below it.
    pub open spec fn parent_ok(self, hd: Header) -> bool {
        &&& hd.number > 0
        &&& self.header_of(hd.parent_hash) is Some
        &&& self.header_of(hd.parent_hash).unwrap().number + 1 == hd.number
    }

    /// The metadata of stored block `i` adds its own difficulty and uncles
    /// to its parent's; a genesis has its own difficulty and no uncles.
    pub open spec fn ext_ok(self, i: int) -> bool {
        let b = self.blocks[i];
        let e = self.exts[i];
        if b.header.number == 0 {
            e.total_difficulty == b.header.difficulty && e.total_uncles_count == 0
        } else {
            &&& self.ext_of(b.header.parent_hash) is Some
            &&& e.total_difficulty == self.ext_of(b.header.parent_hash).unwrap().total_difficulty + b.header.difficulty
            &&& e.total_uncles_count == self.ext_of(b.header.parent_hash).unwrap().total_uncles_count + b.uncles@.len()
        }
    }

    /// The metadata of block `b` on top of its stored parent.
    pub open spec fn ext_after(self, b: Block, received_at: u64) -> BlockExt {
        let p = self.ext_of(b.header.parent_hash).unwrap();
        BlockExt {
            total_difficulty: (p.total_difficulty + b.header.difficulty) as u128,
            total_uncles_count: (p.total_uncles_count + b.uncles@.len()) as u64,
            received_at,
        }
    }

    /// Whether the totals of `b` on top of its stored parent fit.
    pub open spec fn ext_fits(self, b: Block) -> bool {
        let p = self.ext_of(b.header.parent_hash).unwrap();
        p.total_difficulty + b.header.difficulty <= u128::MAX && p.total_uncles_count + b.uncles@.len() <= u64::MAX
    }

    /// No fingerprint is stored twice.
    pub open spec fn unique(self) -> bool {
        forall|i: int, j: int|
            #![trigger self.blocks[i], self.blocks[j]]
            0 <= i < self.blocks.len() && 0 <= j < self.blocks.len() && i != j
                ==> self.blocks[i].header.hash != self.blocks[j].header.hash
    }

    pub proof fn lemma_slot(self, i: int)
        requires
            self.unique(),
            0 <= i < self.blocks.len(),
        ensures
            self.has(self.blocks[i].header.hash),
            self.slot(self.blocks[i].header.hash) == i,
    {
        let h = self.blocks[i].header.hash;
        assert(self.has(h));
        let k = self.slot(h);
        assert(self.blocks[k].header.hash == h);
        if k != i {
            assert(self.blocks[k].header.hash != self.blocks[i].header.hash);
        }
    }

    /// Blocks are stored once each; every block but a genesis has its parent
    /// stored one number below; the index runs from a genesis along parent
    /// links, and names the only block at number 0.
    pub open spec fn wf(self) -> bool {
        &&& self.blocks.len() == self.exts.len()
        &&& self.unique()
        &&& forall|i: int| 0 <= i < self.blocks.len() ==> #[trigger] self.ext_ok(i)
        &&& forall|i: int|
            0 <= i < self.blocks.len() && #[trigger] self.blocks[i].header.number > 0 ==> {
                let p = self.blocks[i].header.parent_hash;
                &&& self.has(p)
                &&& self.header_of(p).unwrap().number == self.blocks[i].header.number - 1
            }
        &&& forall|i: int|
            0 <= i < self.blocks.len() && #[trigger] self.blocks[i].header.number == 0
                ==> self.index.len() > 0 && self.blocks[i].header.hash == self.index[0]
        &&& forall|n: int|
            0 <= n < self.index.len() ==> {
                &&& self.has(#[trigger] self.index[n])
                &&& self.header_of(self.index[n]).unwrap().number == n
            }
        &&& forall|n: int|
            0 < n < self.index.len() ==> #[trigger] self.header_of(self.index[n]).unwrap().parent_hash
                == self.index[n - 1]
    }

    /// The ancestor of `hdr` at number `target`, found by following parent
    /// links down from `hdr`.
    pub open spec fn walk(self, hdr: Header, target: BlockNumber) -> Option<Header>
        decreases hdr.number,
    {
        if target > hdr.number {
            None
        } else if target == hdr.number {
            Some(hdr)
        } else {
            match self.header_of(hdr.parent_hash) {
                Some(p) => if p.number < hdr.number {
                    self.walk(p, target)
                } else {
                    None
                },
                None => None,
            }
        }
    }

    /// The ancestor of the block `base` at number `target`.
    pub open spec fn ancestor(self, base: H256, target: BlockNumber) -> Option<Header> {
        match self.header_of(base) {
            Some(h) => self.walk(h, target),
            None => None,
        }
    }

    /// Whether the block `to` is reached from `from` by following parent links.
    pub open spec fn reaches(self, from: Header, to: H256) -> bool
        decreases from.number,
    {
        from.hash == to || match self.header_of(from.parent_hash) {
            Some(p) => p.number < from.number && self.reaches(p, to),
            None => false,
        }
    }
}

proof fn lemma_first_tx(txs: Seq<Transaction>, h: H256, k: int)
    requires
        0 <= k <= txs.len(),
        forall|j: int| 0 <= j < k ==> txs[j].hash != h,
        k < txs.len() ==> txs[k].hash == h,
    ensures
        first_tx(txs, h) == if k < txs.len() {
            Some(txs[k])
        } else {
            None
        },
    decreases k,
{
    if k > 0 {
        assert(txs[0].hash != h);
        lemma_first_tx(txs.drop_first(), h, k - 1);
    }
}

/// Appending blocks keeps every lookup of the blocks already stored.
pub(crate) proof fn lemma_grow_keeps(pre: StoreView, post: StoreView)
    requires
        pre.unique(),
        post.unique(),
        pre.blocks.len() <= post.blocks.len(),
        pre.exts.len() == pre.blocks.len(),
        post.exts.len() == post.blocks.len(),
        forall|i: int| 0 <= i < pre.blocks.len() ==> pre.blocks[i] == post.blocks[i],
        forall|i: int| 0 <= i < pre.exts.len() ==> pre.exts[i] == post.exts[i],
    ensures
        forall|h: H256| #[trigger] pre.has(h) ==> post.has(h) && post.block_of(h) == pre.block_of(h)
            && post.header_of(h) == pre.header_of(h) && post.ext_of(h) == pre.ext_of(h),
{
    assert forall|h: H256| #[trigger] pre.has(h) implies post.has(h) && post.block_of(h)
        == pre.block_of(h) && post.header_of(h) == pre.header_of(h) && post.ext_of(h)
        == pre.ext_of(h) by {
        let i = pre.slot(h);
        pre.lemma_slot(i);
        assert(post.blocks[i] == pre.blocks[i]);
        post.lemma_slot(i);
    }
}

/// The output root last recorded for block `h` in `roots`.
pub open spec fn root_in(roots: Seq<(H256, H256)>, h: H256) -> Option<H256>
    decreases roots.len(),
{
    if roots.len() == 0 {
        None
    } else if roots.last().0 == h {
        Some(roots.last().1)
    } else {
        root_in(roots.drop_last(), h)
    }
}

/// The metadata last recorded for transaction `tx` under output root `root`.
pub open spec fn meta_in(metas: Seq<(H256, H256, TransactionMeta)>, root: H256, tx: H256) -> Option<TransactionMeta>
    decreases metas.len(),
{
    if metas.len() == 0 {
        None
    } else if metas.last().0 == root && metas.last().1 == tx {
        Some(metas.last().2)
    } else {
        meta_in(metas.drop_last(), root, tx)
    }
}

/// The first of `txs` whose fingerprint is `h`.
pub open spec fn first_tx(txs: Seq<Transaction>, h: H256) -> Option<Transaction>
    decreases txs.len(),
{
    if txs.len() == 0 {
        None
    } else if txs[0].hash == h {
        Some(txs[0])
    } else {
        first_tx(txs.drop_first(), h)
    }
}

impl StoreView {
    /// The transaction `h` as the canonical blocks below number `n` hold it,
    /// searched from the newest block down.
    pub open spec fn tx_below(self, n: int, h: H256) -> Option<Transaction>
        decreases n,
    {
        if n <= 0 {
            None
        } else {
            match first_tx(self.canonical_block(n - 1).transactions@, h) {
                Some(t) => Some(t),
                None => self.tx_below(n - 1, h),
            }
        }
    }

    /// The transaction `h` on the canonical chain.
    pub open spec fn tx_of(self, h: H256) -> Option<Transaction> {
        self.tx_below(self.index.len() as int, h)
    }
}

/// Stored blocks, their metadata and the canonical index.
pub struct ChainStore {
    blocks: Vec<Block>,
    exts: Vec<BlockExt>,
    index: Vec<H256>,
    output_roots: Vec<(H256, H256)>,
    metas: Vec<(H256, H256, TransactionMeta)>,
}

impl View for ChainStore {
    type V = StoreView;

    closed spec fn view(&self) -> StoreView {
        StoreView {
            blocks: self.blocks@,
            exts: self.exts@,
            index: self.index@,
            roots: self.output_roots@,
            metas: self.metas@,
        }
    }
}


/// Why a block could not be stored.
#[derive(Clone, Copy, Debug, PartialEq, Eq, Structural)]
pub enum StoreError {
    /// A block with the same fingerprint is already stored.
    Duplicate,
    /// Its parent is not stored one number below it.
    UnknownParent,
    /// Its total difficulty or uncle count does not fit.
    Overflow,
}

/// Where the first of `txs` with fingerprint `h` stands.
fn find_tx(txs: &Vec<Transaction>, h: &H256) -> (r: Option<usize>)
    ensures
        match r {
            Some(k) => k < txs@.len() && first_tx(txs@, *h) == Some(txs@[k as int]),
            None => first_tx(txs@, *h).is_none(),
        },
{
    let mut k: usize = 0;
    while k < txs.len()
        invariant
            k <= txs@.len(),
            forall|j: int| 0 <= j < k ==> txs@[j].hash != *h,
        decreases txs@.len() - k,
    {
        if txs[k].hash == *h {
            proof {
                lemma_first_tx(txs@, *h, k as int);
            }
            return Some(k);
        }
        k = k + 1;
    }
    proof {
        lemma_first_tx(txs@, *h, k as int);
    }
    None
}

impl ChainStore {
    /// An empty store.
    pub fn new() -> (r: ChainStore)
        ensures
            r@.wf(),
            r@.blocks.len() == 0,
            r@.index.len() == 0,
    {
        ChainStore {
            blocks: Vec::new(),
            exts: Vec::new(),
            index: Vec::new(),
            output_roots: Vec::new(),
            metas: Vec::new(),
        }
    }

    fn find(&self, h: &H256) -> (r: Option<usize>)
        requires
            self@.wf(),
        ensures
            match r {
                Some(i) => self@.has(*h) && i == self@.slot(*h) && i < self@.blocks.len(),
                None => !self@.has(*h),
            },
    {
        let mut i: usize = 0;
        while i < self.blocks.len()
            invariant
                self@.wf(),
                i <= self.blocks@.len(),
                forall|j: int| 0 <= j < i ==> self.blocks@[j].header.hash != *h,
            decreases self.blocks@.len() - i,
        {
            if self.blocks[i].header.hash == *h {
                proof {
                    self@.lemma_slot(i as int);
                }
                return Some(i);
            }
            i = i + 1;
        }
        None
    }

    /// The header stored under `h`.
    pub fn get_header(&self, h: &H256) -> (r: Option<Header>)
        requires
            self@.wf(),
        ensures
            r == self@.header_of(*h),
    {
        match self.find(h) {
            Some(i) => Some(self.blocks[i].header),
            None => None,
        }
    }

    /// The block stored under `h`.
    pub fn get_block(&self, h: &H256) -> (r: Option<&Block>)
        requires
            self@.wf(),
        ensures
            r.is_some() == self@.has(*h),
            r.is_some() ==> self@.block_of(*h) == Some(*r.unwrap()),
    {
        match self.find(h) {
            Some(i) => Some(&self.blocks[i]),
            None => None,
        }
    }

    /// The metadata stored for `h`.
    pub fn get_block_ext(&self, h: &H256) -> (r: Option<BlockExt>)
        requires
            self@.wf(),
        ensures
            r == self@.ext_of(*h),
    {
        match self.find(h) {
            Some(i) => Some(self.exts[i]),
            None => None,
        }
    }

    /// The canonical fingerprint at number `n`.
    pub fn get_block_hash(&self, n: BlockNumber) -> (r: Option<H256>)
        ensures
            r == self@.hash_at(n as int),
    {
        if n < self.index.len() as u64 {
            Some(self.index[n as usize])
        } else {
            None
        }
    }

    /// The number of `h` when it is canonical.
    pub fn get_block_number(&self, h: &H256) -> (r: Option<BlockNumber>)
        requires
            self@.wf(),
        ensures
            r == self@.number_of(*h),
    {
        match self.get_header(h) {
            Some(header) => {
                if self.get_block_hash(header.number) == Some(*h) {
                    Some(header.number)
                } else {
                    None
                }
            },
            None => None,
        }
    }

    /// The number of canonical blocks.
    pub fn canonical_len(&self) -> (r: usize)
        ensures
            r == self@.index.len(),
    {
        self.index.len()
    }

    /// The canonical transaction with fingerprint `h`, from the newest block
    /// that holds it.
    pub fn get_transaction(&self, h: &H256) -> (r: Option<&Transaction>)
        requires
            self@.wf(),
        ensures
            match r {
                Some(t) => self@.tx_of(*h) == Some(*t),
                None => self@.tx_of(*h).is_none(),
            },
    {
        let mut n: usize = self.index.len();
        while n > 0
            invariant
                self@.wf(),
                n <= self@.index.len(),
                self@.tx_of(*h) == self@.tx_below(n as int, *h),
            decreases n,
        {
            let b = self.canonical_block(n - 1);
            match find_tx(&b.transactions, h) {
                Some(k) => {
                    return Some(&b.transactions[k]);
                },
                None => {},
            }
            n = n - 1;
        }
        None
    }

    /// Writes the genesis block into an empty store: its block, metadata
    /// with its own difficulty as total and no uncles, and index entry 0.
    pub fn init(&mut self, genesis: Block)
        requires
            old(self)@.wf(),
            old(self)@.blocks.len() == 0,
            old(self)@.index.len() == 0,
            genesis.header.number == 0,
        ensures
            final(self)@.wf(),
            final(self)@.blocks == seq![genesis],
            final(self)@.exts == seq![
                BlockExt {
                    total_difficulty: genesis.header.difficulty,
                    total_uncles_count: 0,
                    received_at: genesis.header.timestamp,
                },
            ],
            final(self)@.index == seq![genesis.header.hash],
            final(self)@.roots == old(self)@.roots,
            final(self)@.metas == old(self)@.metas,
    {
        let ext = BlockExt {
            total_difficulty: genesis.header.difficulty,
            total_uncles_count: 0,
            received_at: genesis.header.timestamp,
        };
        let h = genesis.header.hash;
        self.blocks.push(genesis);
        self.exts.push(ext);
        self.index.push(h);
        proof {
            assert(self@.blocks =~= seq![genesis]);
            assert(self@.exts =~= seq![ext]);
            assert(self@.index =~= seq![h]);
            self@.lemma_slot(0);
        }
    }

    /// Stores a block whose parent is stored one number below it, with its
    /// metadata: total difficulty and uncle count add to the parent's.
    pub fn insert_block(&mut self, block: Block, received_at: u64) -> (r: Result<(), StoreError>)
        requires
            old(self)@.wf(),
        ensures
            final(self)@.wf(),
            final(self)@.index == old(self)@.index,
            final(self)@.roots == old(self)@.roots,
            final(self)@.metas == old(self)@.metas,
            r is Err ==> final(self)@ == old(self)@,
            r == Err::<(), StoreError>(StoreError::Duplicate) <==> old(self)@.has(block.header.hash),
            r == Err::<(), StoreError>(StoreError::UnknownParent) <==> (!old(self)@.has(
                block.header.hash,
            ) && !old(self)@.parent_ok(block.header)),
            r == Err::<(), StoreError>(StoreError::Overflow) <==> (!old(self)@.has(block.header.hash)
                && old(self)@.parent_ok(block.header) && !old(self)@.ext_fits(block)),
            r is Ok ==> final(self)@.blocks == old(self)@.blocks.push(block) && final(self)@.exts
                == old(self)@.exts.push(old(self)@.ext_after(block, received_at)),
    {
        if self.find(&block.header.hash).is_some() {
            return Err(StoreError::Duplicate);
        }
        if block.header.number == 0 {
            return Err(StoreError::UnknownParent);
        }
        match self.get_header(&block.header.parent_hash) {
            Some(p) => {
                if p.number != block.header.number - 1 {
                    return Err(StoreError::UnknownParent);
                }
            },
            None => {
                return Err(StoreError::UnknownParent);
            },
        }
        proof {
            let i = self@.slot(block.header.parent_hash);
            self@.lemma_slot(i);
        }
        let pe = self.get_block_ext(&block.header.parent_hash).unwrap();
        if pe.total_difficulty > u128::MAX - block.header.difficulty
            || pe.total_uncles_count as u128 + block.uncles.len() as u128 > u64::MAX as u128 {
            return Err(StoreError::Overflow);
        }
        let ext = BlockExt {
            total_difficulty: pe.total_difficulty + block.header.difficulty,
            total_uncles_count: pe.total_uncles_count + block.uncles.len() as u64,
            received_at,
        };
        let ghost pre = self@;
        self.blocks.push(block);
        self.exts.push(ext);
        proof {
            let post = self@;
            assert(post.unique()) by {
                assert forall|i: int, j: int|
                    #![trigger post.blocks[i], post.blocks[j]]
                    0 <= i < post.blocks.len() && 0 <= j < post.blocks.len() && i != j
                        implies post.blocks[i].header.hash != post.blocks[j].header.hash by {
                    if i < pre.blocks.len() && j < pre.blocks.len() {
                        assert(pre.blocks[i] == post.blocks[i]);
                        assert(pre.blocks[j] == post.blocks[j]);
                    } else if i < pre.blocks.len() {
                        assert(pre.blocks[i] == post.blocks[i]);
                    } else {
                        assert(pre.blocks[j] == post.blocks[j]);
                    }
                }
            }
            lemma_grow_keeps(pre, post);
            assert forall|i: int|
                0 <= i < post.blocks.len() && #[trigger] post.blocks[i].header.number > 0 implies {
                let p = post.blocks[i].header.parent_hash;
                &&& post.has(p)
                &&& post.header_of(p).unwrap().number == post.blocks[i].header.number - 1
            } by {
                if i < pre.blocks.len() {
                    assert(pre.blocks[i] == post.blocks[i]);
                }
            }
            assert forall|n: int|
                0 < n < post.index.len() implies #[trigger] post.header_of(post.index[n]).unwrap().parent_hash
                == post.index[n - 1] by {
                assert(pre.has(pre.index[n]));
            }
            assert forall|i: int| 0 <= i < post.blocks.len() implies #[trigger] post.ext_ok(i) by {
                if i < pre.blocks.len() {
                    assert(pre.ext_ok(i));
                    assert(pre.blocks[i] == post.blocks[i]);
                    assert(pre.exts[i] == post.exts[i]);
                    if pre.blocks[i].header.number > 0 {
                        assert(pre.has(pre.blocks[i].header.parent_hash));
                    }
                } else {
                    assert(pre.has(block.header.parent_hash));
                }
            }
        }
        Ok(())
    }

    /// Makes `h` the next canonical block: it is stored, one number above
    /// the canonical top, and its parent is that top.
    pub fn push_index(&mut self, h: H256)
        requires
            old(self)@.wf(),
            old(self)@.index.len() > 0,
            old(self)@.header_of(h) is Some,
            old(self)@.header_of(h).unwrap().number == old(self)@.index.len(),
            old(self)@.header_of(h).unwrap().parent_hash == old(self)@.index.last(),
        ensures
            final(self)@.wf(),
            final(self)@.blocks == old(self)@.blocks,
            final(self)@.exts == old(self)@.exts,
            final(self)@.roots == old(self)@.roots,
            final(self)@.metas == old(self)@.metas,
            final(self)@.index == old(self)@.index.push(h),
    {
        self.index.push(h);
        proof {
            assert forall|i: int| 0 <= i < self@.blocks.len() implies #[trigger] self@.ext_ok(i) by {
                assert(old(self)@.ext_ok(i));
            }
        }
    }

    /// Drops the canonical entries from number `len` up.
    pub fn truncate_index(&mut self, len: usize)
        requires
            old(self)@.wf(),
            0 < len <= old(self)@.index.len(),
        ensures
            final(self)@.wf(),
            final(self)@.blocks == old(self)@.blocks,
            final(self)@.exts == old(self)@.exts,
            final(self)@.roots == old(self)@.roots,
            final(self)@.metas == old(self)@.metas,
            final(self)@.index == old(self)@.index.subrange(0, len as int),
    {
        self.index.truncate(len);
        proof {
            assert forall|i: int| 0 <= i < self@.blocks.len() implies #[trigger] self@.ext_ok(i) by {
                assert(old(self)@.ext_ok(i));
            }
        }
    }

    /// The branch from the stored header `hd` down to the canonical chain:
    /// the fingerprints of `hd` and its ancestors off the chain, newest
    /// first, and the number where the branch leaves the chain.
    pub fn branch_of(&self, hd: &Header) -> (r: (Vec<H256>, usize))
        requires
            self@.wf(),
            self@.header_of(hd.hash) == Some(*hd),
        ensures
            r.1 < self@.index.len(),
            r.0@.len() > 0 ==> r.0@[0] == hd.hash,
            r.0@.len() == 0 ==> r.1 == hd.number && self@.index[hd.number as int] == hd.hash,
            r.0@.len() > 0 ==> self@.header_of(r.0@.last()).unwrap().parent_hash == self@.index[r.1 as int],
            forall|k: int|
                0 <= k < r.0@.len() ==> self@.has(#[trigger] r.0@[k]) && self@.header_of(r.0@[k]).unwrap().number
                    == r.1 + (r.0@.len() - k),
            forall|k: int|
                0 <= k < r.0@.len() - 1 ==> self@.header_of(#[trigger] r.0@[k]).unwrap().parent_hash == r.0@[k + 1],
    {
        let ghost v = self@;
        let mut path: Vec<H256> = Vec::new();
        let mut cur = *hd;
        while !(cur.number < self.index.len() as u64 && self.index[cur.number as usize] == cur.hash)
            invariant
                v == self@,
                v.wf(),
                v.header_of(cur.hash) == Some(cur),
                path@.len() > 0 ==> v.header_of(path@.last()).unwrap().parent_hash == cur.hash,
                path@.len() > 0 ==> path@[0] == hd.hash,
                path@.len() == 0 ==> cur == *hd,
                forall|k: int|
                    0 <= k < path@.len() ==> v.has(#[trigger] path@[k]) && v.header_of(path@[k]).unwrap().number
                        == cur.number + (path@.len() - k),
                forall|k: int|
                    0 <= k < path@.len() - 1 ==> v.header_of(#[trigger] path@[k]).unwrap().parent_hash == path@[k + 1],
            decreases cur.number,
        {
            proof {
                assert(v.has(cur.hash));
                let i = v.slot(cur.hash);
                assert(v.blocks[i].header == cur);
                if cur.number == 0 {
                    assert(v.blocks[i].header.hash == v.index[0]);
                }
            }
            let parent = self.get_header(&cur.parent_hash).unwrap();
            path.push(cur.hash);
            proof {
                assert(v.has(cur.hash));
            }
            cur = parent;
        }
        (path, cur.number as usize)
    }

    /// Makes the branch `path` (newest first, as `branch_of` gives it)
    /// canonical above number `fork`.
    #[verifier::rlimit(50)]
    pub fn reroute(&mut self, path: &Vec<H256>, fork: usize)
        requires
            old(self)@.wf(),
            fork < old(self)@.index.len(),
            path@.len() > 0 ==> old(self)@.header_of(path@.last()).unwrap().parent_hash == old(self)@.index[fork as int],
            forall|k: int|
                0 <= k < path@.len() ==> old(self)@.has(#[trigger] path@[k]) && old(self)@.header_of(
                    path@[k],
                ).unwrap().number == fork + (path@.len() - k),
            forall|k: int|
                0 <= k < path@.len() - 1 ==> old(self)@.header_of(#[trigger] path@[k]).unwrap().parent_hash
                    == path@[k + 1],
        ensures
            final(self)@.wf(),
            final(self)@.blocks == old(self)@.blocks,
            final(self)@.exts == old(self)@.exts,
            final(self)@.roots == old(self)@.roots,
            final(self)@.metas == old(self)@.metas,
            final(self)@.index.len() == fork + 1 + path@.len(),
            path@.len() > 0 ==> final(self)@.index.last() == path@[0],
            path@.len() == 0 ==> final(self)@.index.last() == old(self)@.index[fork as int],
            final(self)@.index.subrange(0, fork + 1) == old(self)@.index.subrange(0, fork + 1),
            forall|k: int| 0 <= k < path@.len() ==> final(self)@.index[fork + 1 + k] == #[trigger] path@[path@.len() - 1 - k],
    {
        let ghost v = self@;
        // the index length bounds `fork + 1`
        let _len = self.index.len();
        self.truncate_index(fork + 1);
        let mut j: usize = path.len();
        while j > 0
            invariant
                self@.wf(),
                self@.blocks == v.blocks,
                self@.exts == v.exts,
                self@.roots == v.roots,
                self@.metas == v.metas,
                v.wf(),
                fork < v.index.len(),
                self@.index.subrange(0, fork + 1) == v.index.subrange(0, fork + 1),
                forall|k: int| 0 <= k < path@.len() - j ==> self@.index[fork + 1 + k] == #[trigger] path@[path@.len() - 1 - k],
                j <= path@.len(),
                self@.index.len() == fork + 1 + (path@.len() - j),
                self@.index.len() > 0,
                j == path@.len() ==> self@.index.last() == v.index[fork as int],
                j < path@.len() ==> self@.index.last() == path@[j as int],
                path@.len() > 0 ==> v.header_of(path@.last()).unwrap().parent_hash == v.index[fork as int],
                forall|k: int|
                    0 <= k < path@.len() ==> v.has(#[trigger] path@[k]) && v.header_of(path@[k]).unwrap().number
                        == fork + (path@.len() - k),
                forall|k: int|
                    0 <= k < path@.len() - 1 ==> v.header_of(#[trigger] path@[k]).unwrap().parent_hash == path@[k + 1],
            decreases j,
        {
            proof {
                assert(v.has(path@[j - 1]));
                assert(self@.header_of(path@[j - 1]) == v.header_of(path@[j - 1]));
                if j < path@.len() {
                    assert(v.header_of(path@[j - 1]).unwrap().parent_hash == path@[j as int]);
                }
            }
            self.push_index(path[j - 1]);
            j = j - 1;
        }
    }

    /// Records the output root of block `h`.
    pub fn insert_output_root(&mut self, h: H256, root: H256)
        requires
            old(self)@.wf(),
        ensures
            final(self)@ == (StoreView { roots: old(self)@.roots.push((h, root)), ..old(self)@ }),
    {
        self.output_roots.push((h, root));
    }

    /// Records the metadata of transaction `tx` under output root `root`.
    pub fn insert_transaction_meta(&mut self, root: H256, tx: H256, meta: TransactionMeta)
        requires
            old(self)@.wf(),
        ensures
            final(self)@ == (StoreView { metas: old(self)@.metas.push((root, tx, meta)), ..old(self)@ }),
    {
        self.metas.push((root, tx, meta));
    }

    /// The output root recorded for block `h`.
    pub fn get_output_root(&self, h: &H256) -> (r: Option<H256>)
        ensures
            r == root_in(self@.roots, *h),
    {
        let mut i: usize = self.output_roots.len();
        proof {
            assert(self@.roots.subrange(0, i as int) =~= self@.roots);
        }
        while i > 0
            invariant
                i <= self.output_roots@.len(),
                root_in(self@.roots, *h) == root_in(self@.roots.subrange(0, i as int), *h),
            decreases i,
        {
            proof {
                assert(self@.roots.subrange(0, i as int).drop_last() =~= self@.roots.subrange(0, i - 1));
            }
            if self.output_roots[i - 1].0 == *h {
                return Some(self.output_roots[i - 1].1);
            }
            i = i - 1;
        }
        None
    }

    /// The metadata recorded for transaction `tx` under output root `root`.
    pub fn get_transaction_meta(&self, root: &H256, tx: &H256) -> (r: Option<&TransactionMeta>)
        ensures
            match r {
                Some(m) => meta_in(self@.metas, *root, *tx) == Some(*m),
                None => meta_in(self@.metas, *root, *tx) is None,
            },
    {
        let mut i: usize = self.metas.len();
        proof {
            assert(self@.metas.subrange(0, i as int) =~= self@.metas);
        }
        while i > 0
            invariant
                i <= self.metas@.len(),
                meta_in(self@.metas, *root, *tx) == meta_in(self@.metas.subrange(0, i as int), *root, *tx),
            decreases i,
        {
            proof {
                assert(self@.metas.subrange(0, i as int).drop_last() =~= self@.metas.subrange(0, i - 1));
            }
            if self.metas[i - 1].0 == *root && self.metas[i - 1].1 == *tx {
                return Some(&self.metas[i - 1].2);
            }
            i = i - 1;
        }
        None
    }

    /// Copies of the canonical blocks numbered in `[lo, hi)`, oldest first
    /// when `newest_first` is false, else newest first.
    pub fn canonical_copies(&self, lo: usize, hi: usize, newest_first: bool) -> (r: Vec<Block>)
        requires
            self@.wf(),
            lo <= hi <= self@.index.len(),
        ensures
            r@.len() == hi - lo,
            forall|t: int| 0 <= t < r@.len() ==> (#[trigger] r@[t]).model() == self@.canonical_block(
                if newest_first { hi - 1 - t } else { lo + t },
            ).model(),
    {
        let mut r: Vec<Block> = Vec::new();
        let mut t: usize = 0;
        while t < hi - lo
            invariant
                self@.wf(),
                lo <= hi <= self@.index.len(),
                r@.len() == t,
                t <= hi - lo,
                forall|q: int| 0 <= q < t ==> (#[trigger] r@[q]).model() == self@.canonical_block(
                    if newest_first { hi - 1 - q } else { lo + q },
                ).model(),
            decreases hi - lo - t,
        {
            let n = if newest_first { hi - 1 - t } else { lo + t };
            let b = self.canonical_block(n);
            r.push(b.duplicate());
            t = t + 1;
        }
        r
    }

    /// The canonical block at number `n`.
    pub fn canonical_block(&self, n: usize) -> (r: &Block)
        requires
            self@.wf(),
            n < self@.index.len(),
        ensures
            *r == self@.canonical_block(n as int),
    {
        let h = self.index[n];
        proof {
            assert(self@.has(self@.index[n as int]));
            reveal(StoreView::canonical_block);
        }
        self.get_block(&h).unwrap()
    }
}

} // verus!
