//! The chain provider: the store, the shared tip and the consensus
//! parameters, and the read-side queries over them.
use vstd::prelude::*;

use crate::consensus::{Consensus, Ratio};
use crate::store::{meta_in, root_in, ChainStore, StoreError, StoreView};
use crate::types::{
    bytes_view, script_of_witness, short_id_of, Script,
    Block, BlockExt, BlockNumber, Capacity, CellInput, CellOutput, H256, Header, OutPoint, ProposalShortId, Transaction, TransactionMeta, CellStatus,
};

verus! {

/// The current tip: its header, its cumulative difficulty and its
/// output-root commitment.
#[derive(Clone, Copy, Debug, PartialEq, Eq, Structural)]
pub struct TipHeader {
    pub inner: Header,
    pub total_difficulty: u128,
    pub output_root: H256,
}

impl TipHeader {
    pub fn new(header: Header, total_difficulty: u128, output_root: H256) -> (r: TipHeader)
        ensures
            r == (TipHeader { inner: header, total_difficulty, output_root }),
    {
        TipHeader { inner: header, total_difficulty, output_root }
    }

    pub fn number(&self) -> (r: BlockNumber)
        ensures
            r == self.inner.number,
    {
        self.inner.number
    }

    pub fn hash(&self) -> (r: H256)
        ensures
            r == self.inner.hash,
    {
        self.inner.hash
    }

    pub fn total_difficulty(&self) -> (r: u128)
        ensures
            r == self.total_difficulty,
    {
        self.total_difficulty
    }

    pub fn inner(&self) -> (r: &Header)
        ensures
            *r == self.inner,
    {
        &self.inner
    }

    pub fn into_inner(self) -> (r: Header)
        ensures
            r == self.inner,
    {
        self.inner
    }
}

/// Walking down a canonical chain lands on the canonical block at the
/// target number.
proof fn lemma_canonical_walk(v: StoreView, n: int, t: BlockNumber)
    requires
        v.wf(),
        0 <= t <= n < v.index.len(),
    ensures
        v.walk(v.header_of(v.index[n]).unwrap(), t) == v.header_of(v.index[t as int]),
    decreases n - t,
{
    assert(v.has(v.index[n]));
    if n > t {
        assert(v.header_of(v.index[n]).unwrap().parent_hash == v.index[n - 1]);
        assert(v.has(v.index[n - 1]));
        lemma_canonical_walk(v, n - 1, t);
    }
}

/// What a walk finds has the target number and is reached along parent
/// links.
proof fn lemma_walk_correct(v: StoreView, hdr: Header, t: BlockNumber)
    requires
        v.walk(hdr, t) is Some,
    ensures
        v.walk(hdr, t).unwrap().number == t,
        v.reaches(hdr, v.walk(hdr, t).unwrap().hash),
    decreases hdr.number,
{
    if t < hdr.number {
        let p = v.header_of(hdr.parent_hash).unwrap();
        lemma_walk_correct(v, p, t);
    }
}

/// An ancestor found for `base` at number `n` has number `n`, and is reached
/// from `base` by following parent links.
pub proof fn lemma_ancestor_correct(s: &Shared, base: H256, n: BlockNumber)
    requires
        s.chain().ancestor(base, n) is Some,
    ensures
        s.chain().ancestor(base, n).unwrap().number == n,
        s.chain().reaches(s.chain().header_of(base).unwrap(), s.chain().ancestor(base, n).unwrap().hash),
{
    lemma_walk_correct(s.chain(), s.chain().header_of(base).unwrap(), n);
}

/// Relies on bigint's `U256` multiplication and division, exact below 2^256:
/// a product of factors below 2^128, 2^64 and 2^64 stays below it.
#[verifier::external_body]
fn mul3_div(a: u128, b: u64, c: u64, d: u64) -> (r: u128)
    requires
        d > 0,
        a as int * b as int * c as int / d as int <= u128::MAX,
    ensures
        r == a as int * b as int * c as int / d as int,
{
    let product = bigint::U256::from_big_endian(&a.to_be_bytes()) * bigint::U256::from(b)
        * bigint::U256::from(c);
    let mut out = [0u8;32];
    (product / bigint::U256::from(d)).to_big_endian(&mut out);
    let mut low = [0u8;16];
    low.copy_from_slice(&out[16..]);
    u128::from_be_bytes(low)
}

/// The retargeted difficulty: `last × uncles × inverse_rate / interval`,
/// held to at most twice `last`, then raised to at least `min`.
pub open spec fn retarget(last: int, uncles: int, inverse_rate: int, interval: int, min: int) -> int {
    let raw = last * uncles * inverse_rate / interval;
    let capped = if raw > last * 2 {
        last * 2
    } else {
        raw
    };
    if capped < min {
        min
    } else {
        capped
    }
}

/// The difficulty of the block after `last`. Off an adjustment boundary it
/// is `last`'s. On one, the uncles counted between the ancestor one interval
/// below (or genesis) and `last` set it, with the orphan-rate target's
/// inverse rounded down.
pub open spec fn difficulty_after(v: StoreView, c: Consensus, last: Header) -> Option<u128> {
    let interval = c.difficulty_adjustment_interval;
    if (last.number + 1) % (interval as int) != 0 {
        Some(last.difficulty)
    } else {
        let start = if last.number >= interval {
            (last.number - interval) as u64
        } else {
            0
        };
        match v.ancestor(last.hash, start) {
            Some(sh) => Some(
                retarget(
                    last.difficulty as int,
                    v.ext_of(last.hash).unwrap().total_uncles_count - v.ext_of(sh.hash).unwrap().total_uncles_count,
                    (c.orphan_rate_target.denom / c.orphan_rate_target.numer) as int,
                    interval as int,
                    c.min_difficulty as int,
                ) as u128,
            ),
            None => None,
        }
    }
}

/// A walk down from a stored header lands on a stored header with no more
/// uncles counted.
proof fn lemma_walk_uncles(v: StoreView, hdr: Header, t: BlockNumber)
    requires
        v.wf(),
        v.header_of(hdr.hash) == Some(hdr),
        v.walk(hdr, t) is Some,
    ensures
        v.header_of(v.walk(hdr, t).unwrap().hash) == Some(v.walk(hdr, t).unwrap()),
        v.ext_of(v.walk(hdr, t).unwrap().hash) is Some,
        v.ext_of(hdr.hash) is Some,
        v.ext_of(v.walk(hdr, t).unwrap().hash).unwrap().total_uncles_count <= v.ext_of(hdr.hash).unwrap().total_uncles_count,
    decreases hdr.number,
{
    assert(v.has(hdr.hash));
    let i = v.slot(hdr.hash);
    assert(v.ext_ok(i));
    if t < hdr.number {
        let p = v.header_of(hdr.parent_hash).unwrap();
        let j = v.slot(hdr.parent_hash);
        v.lemma_slot(j);
        assert(v.blocks[j].header.hash == hdr.parent_hash);
        assert(v.header_of(p.hash) == Some(p));
        lemma_walk_uncles(v, p, t);
    }
}

proof fn lemma_raw_bounds(d: int, u: int, k: int, i: int)
    requires
        d >= 0,
        u >= 0,
        k >= 0,
        i > 0,
    ensures
        u * k >= 2 * i ==> d * u * k / i >= d * 2,
        u * k < 2 * i && d > 0 ==> d * u * k / i < d * 2,
        d == 0 ==> d * u * k / i == 0,
{
    if u * k >= 2 * i {
        assert(d * u * k >= d * 2 * i) by (nonlinear_arith)
            requires
                u * k >= 2 * i,
                d >= 0,
        ;
        assert((d * 2 * i) / i == d * 2) by (nonlinear_arith)
            requires
                i > 0,
        ;
        assert(d * u * k / i >= (d * 2 * i) / i) by (nonlinear_arith)
            requires
                d * u * k >= d * 2 * i,
                i > 0,
        ;
    }
    if u * k < 2 * i && d > 0 {
        assert(d * u * k < d * 2 * i) by (nonlinear_arith)
            requires
                u * k < 2 * i,
                d > 0,
        ;
        assert(d * u * k / i < d * 2) by (nonlinear_arith)
            requires
                d * u * k < d * 2 * i,
                i > 0,
                d * u * k >= 0,
        ;
    }
    if d == 0 {
        assert(d * u * k == 0) by (nonlinear_arith)
            requires
                d == 0,
        ;
    }
}

/// Every retarget lies between the minimum difficulty and twice the last
/// difficulty, whenever the minimum itself is within that bound.
pub proof fn lemma_retarget_bounds(last: int, uncles: int, inverse_rate: int, interval: int, min: int)
    requires
        last >= 0,
        uncles >= 0,
        inverse_rate >= 0,
        interval > 0,
        min <= last * 2,
    ensures
        min <= retarget(last, uncles, inverse_rate, interval, min) <= last * 2,
{
}

/// Why a fee or a reward could not be computed.
#[derive(Clone, Copy, Debug, PartialEq, Eq, Structural)]
pub enum SharedError {
    /// An input names an output that no canonical transaction has.
    InvalidInput,
    /// The outputs hold more capacity than the inputs.
    InvalidOutput,
    /// A sum of capacities does not fit a capacity.
    CapacityOverflow,
    /// The block whose reward is due is not on the chain of the given header.
    UnknownTarget,
    /// The cellbase of the block whose reward is due names no miner.
    InvalidCellbase,
}

/// The output that `op` names on the canonical chain.
pub open spec fn resolve(v: StoreView, op: OutPoint) -> Option<CellOutput> {
    match v.tx_of(op.tx_hash) {
        Some(t) => if (op.index as int) < t.outputs@.len() {
            Some(t.outputs@[op.index as int])
        } else {
            None
        },
        None => None,
    }
}

pub open spec fn inputs_resolve(v: StoreView, inputs: Seq<CellInput>) -> bool {
    forall|i: int| 0 <= i < inputs.len() ==> (#[trigger] resolve(v, inputs[i].previous_output)) is Some
}

/// The capacity that `inputs` spend.
pub open spec fn input_sum(v: StoreView, inputs: Seq<CellInput>) -> int
    decreases inputs.len(),
{
    if inputs.len() == 0 {
        0
    } else {
        input_sum(v, inputs.drop_last()) + resolve(v, inputs.last().previous_output).unwrap().capacity
    }
}

/// The capacity that `outputs` hold.
pub open spec fn output_sum(outputs: Seq<CellOutput>) -> int
    decreases outputs.len(),
{
    if outputs.len() == 0 {
        0
    } else {
        output_sum(outputs.drop_last()) + outputs.last().capacity
    }
}

/// The fee of `tx`: what its inputs spend less what its outputs hold.
pub open spec fn fee_of(v: StoreView, tx: Transaction) -> Result<Capacity, SharedError> {
    if !inputs_resolve(v, tx.inputs@) {
        Err(SharedError::InvalidInput)
    } else if input_sum(v, tx.inputs@) > u64::MAX {
        Err(SharedError::CapacityOverflow)
    } else if output_sum(tx.outputs@) > input_sum(v, tx.inputs@) {
        Err(SharedError::InvalidOutput)
    } else {
        Ok((input_sum(v, tx.inputs@) - output_sum(tx.outputs@)) as u64)
    }
}

/// Whether block `b` or one of its uncles proposes `id`.
pub open spec fn proposes(b: Block, id: ProposalShortId) -> bool {
    b.proposals@.contains(id) || exists|k: int|
        0 <= k < b.uncles@.len() && (#[trigger] b.uncles@[k]).proposals@.contains(id)
}

/// `ids` lists, each once, exactly the ids that `b` or its uncles propose.
#[verifier::opaque]
pub open spec fn ids_match(ids: Seq<ProposalShortId>, b: Block) -> bool {
    &&& ids.no_duplicates()
    &&& forall|id: ProposalShortId| #[trigger] ids.contains(id) <==> proposes(b, id)
}

/// An element of `union_proposal_ids_n` names exactly the ids that its
/// block proposes, which is what decides the proposer of a transaction.
pub proof fn lemma_union_proposes(ids: Seq<ProposalShortId>, b: Block, id: ProposalShortId)
    requires
        ids_match(ids, b),
    ensures
        ids.contains(id) <==> proposes(b, id),
{
    reveal(ids_match);
}

proof fn lemma_push_contains(s: Seq<ProposalShortId>, x: ProposalShortId, y: ProposalShortId)
    ensures
        s.push(x).contains(y) <==> (s.contains(y) || x == y),
{
    let t = s.push(x);
    if t.contains(y) && x != y {
        let w = choose|w: int| 0 <= w < t.len() && t[w] == y;
        assert(s[w] == y);
    }
    if s.contains(y) {
        let w = choose|w: int| 0 <= w < s.len() && s[w] == y;
        assert(t[w] == y);
    }
    if x == y {
        assert(t[s.len() as int] == y);
    }
}

/// Whether `acc` holds `id`.
fn holds_id(acc: &Vec<ProposalShortId>, id: ProposalShortId) -> (r: bool)
    ensures
        r == acc@.contains(id),
{
    let mut j: usize = 0;
    while j < acc.len()
        invariant
            j <= acc@.len(),
            forall|w: int| 0 <= w < j ==> acc@[w] != id,
        decreases acc@.len() - j,
    {
        if acc[j] == id {
            return true;
        }
        j = j + 1;
    }
    false
}

/// Adds to `acc` each of `ids` that it lacks.
fn extend_unique(acc: &mut Vec<ProposalShortId>, ids: &Vec<ProposalShortId>)
    requires
        old(acc)@.no_duplicates(),
    ensures
        final(acc)@.no_duplicates(),
        forall|id: ProposalShortId| #[trigger]
            final(acc)@.contains(id) <==> (old(acc)@.contains(id) || ids@.contains(id)),
{
    let ghost start = acc@;
    let mut i: usize = 0;
    while i < ids.len()
        invariant
            i <= ids@.len(),
            acc@.no_duplicates(),
            forall|id: ProposalShortId| #[trigger]
                acc@.contains(id) <==> (start.contains(id) || ids@.subrange(0, i as int).contains(id)),
        decreases ids@.len() - i,
    {
        let id = ids[i];
        let ghost before = acc@;
        if !holds_id(acc, id) {
            acc.push(id);
            proof {
                assert forall|a: int, b: int| 0 <= a < b < acc@.len() implies acc@[a] != acc@[b] by {
                    if b == acc@.len() - 1 {
                        assert(before[a] == acc@[a]);
                    }
                }
            }
        }
        proof {
            let p0 = ids@.subrange(0, i as int);
            let p1 = ids@.subrange(0, i + 1);
            assert(p1 =~= p0.push(id));
            assert forall|x: ProposalShortId| #[trigger]
                acc@.contains(x) <==> (start.contains(x) || p1.contains(x)) by {
                lemma_push_contains(p0, id, x);
                lemma_push_contains(before, id, x);
            }
        }
        i = i + 1;
    }
    proof {
        assert(ids@.subrange(0, i as int) =~= ids@);
    }
}

/// The ids that block `b` and its uncles propose, each once.
pub fn block_proposal_ids(b: &Block) -> (r: Vec<ProposalShortId>)
    ensures
        ids_match(r@, *b),
{
    proof {
        reveal(ids_match);
    }
    let mut r: Vec<ProposalShortId> = Vec::new();
    extend_unique(&mut r, &b.proposals);
    let mut k: usize = 0;
    while k < b.uncles.len()
        invariant
            k <= b.uncles@.len(),
            r@.no_duplicates(),
            forall|id: ProposalShortId| #[trigger]
                r@.contains(id) <==> (b.proposals@.contains(id) || exists|u: int|
                    0 <= u < k && (#[trigger] b.uncles@[u]).proposals@.contains(id)),
        decreases b.uncles@.len() - k,
    {
        extend_unique(&mut r, &b.uncles[k].proposals);
        k = k + 1;
        proof {
            assert forall|id: ProposalShortId| #[trigger]
                r@.contains(id) <==> (b.proposals@.contains(id) || exists|u: int|
                    0 <= u < k && (#[trigger] b.uncles@[u]).proposals@.contains(id)) by {
                if b.uncles@[k - 1].proposals@.contains(id) {
                    assert(0 <= k - 1 < k);
                }
            }
        }
    }
    r
}

/// The ids proposed by the `m` canonical blocks from `top` down.
fn window_ids(store: &ChainStore, top: usize, m: usize) -> (r: Vec<Vec<ProposalShortId>>)
    requires
        store@.wf(),
        top < store@.index.len(),
        m <= top,
    ensures
        r@.len() == m,
        forall|i: int|
            #![trigger r@[i]]
            0 <= i < r@.len() ==> ids_match(r@[i]@, store@.canonical_block(top - i)),
{
    let mut ret: Vec<Vec<ProposalShortId>> = Vec::new();
    let mut i: usize = 0;
    while i < m
        invariant
            store@.wf(),
            top < store@.index.len(),
            m <= top,
            i <= m,
            ret@.len() == i,
            forall|j: int|
                #![trigger ret@[j]]
                0 <= j < ret@.len() ==> ids_match(ret@[j]@, store@.canonical_block(top - j)),
        decreases m - i,
    {
        let b = store.canonical_block(top - i);
        let ids = block_proposal_ids(b);
        let ghost old_ret = ret@;
        ret.push(ids);
        proof {
            assert forall|j: int|
                #![trigger ret@[j]]
                0 <= j < ret@.len() implies ids_match(ret@[j]@, store@.canonical_block(top - j)) by {
                if j < i {
                    assert(ret@[j] == old_ret[j]);
                }
            }
        }
        i = i + 1;
    }
    ret
}

/// The block on the chain of `parent` at number `k`.
pub open spec fn block_at(v: StoreView, parent: Header, k: int) -> Option<Block> {
    if k < 0 || k > u64::MAX {
        None
    } else {
        match v.ancestor(parent.hash, k as u64) {
            Some(h) => v.block_of(h.hash),
            None => None,
        }
    }
}

/// Whether a block on the chain of `parent` numbered in `[lo, hi)` proposes
/// `id`.
pub open spec fn proposed_in(v: StoreView, parent: Header, lo: int, hi: int, id: ProposalShortId) -> bool {
    exists|k: int|
        lo <= k < hi && (#[trigger] block_at(v, parent, k)) is Some && proposes(
            block_at(v, parent, k).unwrap(),
            id,
        )
}

/// The miner lock that the cellbase of `b` carries in its first witness.
pub open spec fn miner_of(b: Block) -> Option<(H256, Seq<Seq<u8>>)> {
    if b.transactions@.len() > 0 && b.transactions@[0].witnesses@.len() > 0 {
        script_of_witness(bytes_view(b.transactions@[0].witnesses@[0]@))
    } else {
        None
    }
}

/// Whether the proposer share of `tx`, committed at number `c` on the chain
/// of `parent`, is due to the block `target`: it is no cellbase, `target`
/// proposes it, and no block of its window below `target` did.
pub open spec fn credited(v: StoreView, parent: Header, target: Block, far: u64, c: int, tx: Transaction) -> bool {
    let id = short_id_of(tx.hash);
    &&& !tx.is_cellbase_spec()
    &&& proposes(target, id)
    &&& !proposed_in(v, parent, if c >= far { c - far } else { 0 }, target.header.number as int, id)
}

/// The proposer's part of a fee.
pub open spec fn share(fee: u64, ratio: Ratio) -> int {
    fee as int * ratio.numer as int / ratio.denom as int
}

/// The shares due to `target` from `txs`, committed at `c`.
pub open spec fn txs_share(v: StoreView, parent: Header, target: Block, far: u64, ratio: Ratio, c: int, txs: Seq<Transaction>) -> int
    decreases txs.len(),
{
    if txs.len() == 0 {
        0
    } else {
        txs_share(v, parent, target, far, ratio, c, txs.drop_last()) + if credited(
            v,
            parent,
            target,
            far,
            c,
            txs.last(),
        ) && fee_of(v, txs.last()) is Ok {
            share(fee_of(v, txs.last()).unwrap(), ratio)
        } else {
            0
        }
    }
}

/// Every credited transaction of `txs` has a fee.
pub open spec fn txs_ok(v: StoreView, parent: Header, target: Block, far: u64, c: int, txs: Seq<Transaction>) -> bool {
    forall|i: int|
        0 <= i < txs.len() && #[trigger] credited(v, parent, target, far, c, txs[i]) ==> fee_of(
            v,
            txs[i],
        ) is Ok
}

/// The shares due to `target` from the blocks numbered in `[lo, hi)` on the
/// chain of `parent`.
pub open spec fn window_share(v: StoreView, parent: Header, target: Block, far: u64, ratio: Ratio, lo: int, hi: int) -> int
    decreases hi - lo,
{
    if hi <= lo {
        0
    } else {
        window_share(v, parent, target, far, ratio, lo, hi - 1) + match block_at(v, parent, hi - 1) {
            Some(b) => txs_share(v, parent, target, far, ratio, hi - 1, b.transactions@),
            None => 0,
        }
    }
}

/// Every block numbered in `[lo, hi)` is on the chain of `parent`, and each
/// of its credited transactions has a fee.
pub open spec fn window_ok(v: StoreView, parent: Header, target: Block, far: u64, lo: int, hi: int) -> bool {
    forall|k: int|
        lo <= k < hi ==> (#[trigger] block_at(v, parent, k)) is Some && txs_ok(
            v,
            parent,
            target,
            far,
            k,
            block_at(v, parent, k).unwrap().transactions@,
        )
}

/// Whether `b` or one of its uncles proposes `id`.
fn block_proposes(b: &Block, id: ProposalShortId) -> (r: bool)
    ensures
        r == proposes(*b, id),
{
    if holds_id(&b.proposals, id) {
        return true;
    }
    let mut k: usize = 0;
    while k < b.uncles.len()
        invariant
            k <= b.uncles@.len(),
            !b.proposals@.contains(id),
            forall|u: int| 0 <= u < k ==> !(#[trigger] b.uncles@[u]).proposals@.contains(id),
        decreases b.uncles@.len() - k,
    {
        if holds_id(&b.uncles[k].proposals, id) {
            return true;
        }
        k = k + 1;
    }
    false
}

proof fn lemma_txs_share_mono(
    v: StoreView,
    parent: Header,
    target: Block,
    far: u64,
    ratio: Ratio,
    c: int,
    txs: Seq<Transaction>,
    k: int,
)
    requires
        0 <= k <= txs.len(),
        ratio.denom > 0,
    ensures
        0 <= txs_share(v, parent, target, far, ratio, c, txs.subrange(0, k)) <= txs_share(
            v,
            parent,
            target,
            far,
            ratio,
            c,
            txs,
        ),
    decreases txs.len() - k,
{
    lemma_txs_share_nonneg(v, parent, target, far, ratio, c, txs.subrange(0, k));
    if k < txs.len() {
        lemma_txs_share_mono(v, parent, target, far, ratio, c, txs, k + 1);
        assert(txs.subrange(0, k + 1).drop_last() =~= txs.subrange(0, k));
        assert(txs.subrange(0, k + 1).last() == txs[k]);
        let f = fee_of(v, txs[k]);
        if f is Ok {
            assert(f.unwrap() as int * ratio.numer as int >= 0) by (nonlinear_arith)
                requires
                    f.unwrap() >= 0,
                    ratio.numer >= 0,
            ;
        }
    } else {
        assert(txs.subrange(0, k) =~= txs);
        lemma_txs_share_nonneg(v, parent, target, far, ratio, c, txs);
    }
}

proof fn lemma_txs_share_nonneg(
    v: StoreView,
    parent: Header,
    target: Block,
    far: u64,
    ratio: Ratio,
    c: int,
    txs: Seq<Transaction>,
)
    requires
        ratio.denom > 0,
    ensures
        txs_share(v, parent, target, far, ratio, c, txs) >= 0,
    decreases txs.len(),
{
    if txs.len() > 0 {
        lemma_txs_share_nonneg(v, parent, target, far, ratio, c, txs.drop_last());
        let f = fee_of(v, txs.last());
        if f is Ok {
            assert(f.unwrap() as int * ratio.numer as int >= 0) by (nonlinear_arith)
                requires
                    f.unwrap() >= 0,
                    ratio.numer >= 0,
            ;
        }
    }
}

proof fn lemma_window_share_mono(
    v: StoreView,
    parent: Header,
    target: Block,
    far: u64,
    ratio: Ratio,
    lo: int,
    mid: int,
    hi: int,
)
    requires
        mid <= hi,
        ratio.denom > 0,
    ensures
        window_share(v, parent, target, far, ratio, lo, mid) <= window_share(
            v,
            parent,
            target,
            far,
            ratio,
            lo,
            hi,
        ),
    decreases hi - mid,
{
    if mid < hi {
        lemma_window_share_mono(v, parent, target, far, ratio, lo, mid, hi - 1);
        if hi > lo {
            match block_at(v, parent, hi - 1) {
                Some(b) => lemma_txs_share_nonneg(v, parent, target, far, ratio, hi - 1, b.transactions@),
                None => {},
            }
        }
    }
}

/// Sums over longer prefixes are no smaller.
proof fn lemma_output_sum_grows(outs: Seq<CellOutput>, k: int)
    requires
        0 <= k <= outs.len(),
    ensures
        output_sum(outs) >= output_sum(outs.subrange(0, k)),
    decreases outs.len() - k,
{
    if k < outs.len() {
        lemma_output_sum_grows(outs, k + 1);
        assert(outs.subrange(0, k + 1).drop_last() =~= outs.subrange(0, k));
    } else {
        assert(outs.subrange(0, k) =~= outs);
    }
}

/// A change of the canonical chain: the blocks that left it, newest first,
/// and those that joined it, oldest first.
#[derive(Clone, Debug)]
pub struct TipChange {
    pub detached_blocks: Vec<Block>,
    pub attached_blocks: Vec<Block>,
}

/// Why a block could not be processed.
#[derive(Clone, Copy, Debug, PartialEq, Eq, Structural)]
pub enum ProcessError {
    /// The block is stored already.
    Duplicate,
    /// Its parent is not stored one number below it.
    UnknownParent,
    /// Its total difficulty or uncle count does not fit.
    Overflow,
}

/// When a block `p1` proposes a transaction before another block `p2`, both
/// on the chain of `parent` and within the window of the block at `c` that
/// commits it, the proposer share of that transaction is not due to `p2`;
/// it is due to `p1` when no block of the window proposed it before `p1`.
pub proof fn lemma_proposer_first_wins(
    s: &Shared,
    parent: Header,
    p1: Block,
    p2: Block,
    c: int,
    tx: Transaction,
)
    requires
        block_at(s.chain(), parent, p1.header.number as int) == Some(p1),
        proposes(p1, short_id_of(tx.hash)),
        p1.header.number < p2.header.number,
        c - s.params().tx_proposal_window.farthest <= p1.header.number,
    ensures
        !credited(s.chain(), parent, p2, s.params().tx_proposal_window.farthest, c, tx),
        !tx.is_cellbase_spec() && !proposed_in(
            s.chain(),
            parent,
            if c >= s.params().tx_proposal_window.farthest {
                c - s.params().tx_proposal_window.farthest
            } else {
                0
            },
            p1.header.number as int,
            short_id_of(tx.hash),
        ) ==> credited(s.chain(), parent, p1, s.params().tx_proposal_window.farthest, c, tx),
{
    let far = s.params().tx_proposal_window.farthest;
    let lo = if c >= far { c - far } else { 0 };
    assert(block_at(s.chain(), parent, p1.header.number as int) is Some);
    assert(lo <= p1.header.number as int);
    assert(proposed_in(s.chain(), parent, lo, p2.header.number as int, short_id_of(tx.hash)));
}

/// Whether every transaction of `b` is a cellbase.
pub open spec fn only_cellbases(b: Block) -> bool {
    forall|i: int| 0 <= i < b.transactions@.len() ==> (#[trigger] b.transactions@[i]).is_cellbase_spec()
}

proof fn lemma_cellbases_share_nothing(
    v: StoreView,
    parent: Header,
    target: Block,
    far: u64,
    ratio: Ratio,
    c: int,
    txs: Seq<Transaction>,
)
    requires
        forall|i: int| 0 <= i < txs.len() ==> (#[trigger] txs[i]).is_cellbase_spec(),
    ensures
        txs_share(v, parent, target, far, ratio, c, txs) == 0,
        txs_ok(v, parent, target, far, c, txs),
    decreases txs.len(),
{
    if txs.len() > 0 {
        lemma_cellbases_share_nothing(v, parent, target, far, ratio, c, txs.drop_last());
        assert(txs[txs.len() - 1].is_cellbase_spec());
    }
}

proof fn lemma_window_share_nothing(v: StoreView, parent: Header, target: Block, far: u64, ratio: Ratio, lo: int, hi: int)
    requires
        forall|k: int| lo <= k < hi ==> (#[trigger] block_at(v, parent, k)) is Some && only_cellbases(block_at(v, parent, k).unwrap()),
    ensures
        window_share(v, parent, target, far, ratio, lo, hi) == 0,
        window_ok(v, parent, target, far, lo, hi),
    decreases hi - lo,
{
    if hi > lo {
        lemma_window_share_nothing(v, parent, target, far, ratio, lo, hi - 1);
        let b = block_at(v, parent, hi - 1).unwrap();
        lemma_cellbases_share_nothing(v, parent, target, far, ratio, hi - 1, b.transactions@);
        assert forall|k: int| lo <= k < hi implies (#[trigger] block_at(v, parent, k)) is Some && txs_ok(
            v,
            parent,
            target,
            far,
            k,
            block_at(v, parent, k).unwrap().transactions@,
        ) by {
            let bk = block_at(v, parent, k).unwrap();
            lemma_cellbases_share_nothing(v, parent, target, far, ratio, k, bk.transactions@);
        }
    }
}

/// When the blocks in the reach of the target of `parent` commit nothing but
/// their cellbases, the reward of the target is its base subsidy alone.
pub proof fn lemma_reward_without_commits(s: &Shared, parent: Header, target: Block)
    requires
        parent.number >= s.params().tx_proposal_window.farthest,
        block_at(s.chain(), parent, parent.number - s.params().tx_proposal_window.farthest) == Some(target),
        forall|k: int|
            parent.number - s.params().tx_proposal_window.farthest + s.params().tx_proposal_window.closest <= k
                <= parent.number ==> (#[trigger] block_at(s.chain(), parent, k)) is Some && only_cellbases(
                block_at(s.chain(), parent, k).unwrap(),
            ),
    ensures
        ({
            let c = s.params();
            let far = c.tx_proposal_window.farthest;
            let t = parent.number - far;
            let lo = t + c.tx_proposal_window.closest;
            &&& window_share(s.chain(), parent, target, far, c.proposer_reward_ratio, lo, parent.number + 1) == 0
            &&& window_ok(s.chain(), parent, target, far, lo, parent.number + 1)
        }),
{
    let c = s.params();
    let far = c.tx_proposal_window.farthest;
    let t = parent.number - far;
    lemma_window_share_nothing(
        s.chain(),
        parent,
        target,
        far,
        c.proposer_reward_ratio,
        t + c.tx_proposal_window.closest,
        parent.number + 1,
    );
}

/// A retargeted difficulty lies between the minimum difficulty and twice the
/// last difficulty, whenever the minimum itself is within that bound.
pub proof fn lemma_difficulty_bounds(s: &Shared, last: Header)
    requires
        (last.number + 1) % (s.params().difficulty_adjustment_interval as int) == 0,
        difficulty_after(s.chain(), s.params(), last) is Some,
        s.params().min_difficulty <= last.difficulty * 2,
        last.difficulty <= u128::MAX / 2,
        s.wf(),
    ensures
        s.params().min_difficulty <= difficulty_after(s.chain(), s.params(), last).unwrap() <= last.difficulty * 2,
{
    let c = s.params();
    let interval = c.difficulty_adjustment_interval;
    let start = if last.number >= interval { (last.number - interval) as u64 } else { 0 };
    let v = s.chain();
    let sh = v.ancestor(last.hash, start).unwrap();
    lemma_walk_uncles(v, v.header_of(last.hash).unwrap(), start);
    let se = v.ext_of(sh.hash).unwrap();
    let le = v.ext_of(last.hash).unwrap();
    let k = (c.orphan_rate_target.denom / c.orphan_rate_target.numer) as int;
    lemma_retarget_bounds(
        last.difficulty as int,
        le.total_uncles_count - se.total_uncles_count,
        k,
        interval as int,
        c.min_difficulty as int,
    );
}

/// The output root recorded for block `h`, or zero.
pub open spec fn root_or_zero(v: StoreView, h: H256) -> H256 {
    match root_in(v.roots, h) {
        Some(r) => r,
        None => H256::zero_spec(),
    }
}

/// The status of the output `op` as of output root `root`: unknown without
/// metadata for its transaction or beyond its outputs, old when spent, and
/// otherwise the output that the canonical chain holds.
pub open spec fn cell_status(v: StoreView, root: H256, op: OutPoint) -> CellStatus {
    match meta_in(v.metas, root, op.tx_hash) {
        Some(m) => if (op.index as int) < m.spent@.len() {
            if m.spent@[op.index as int] {
                CellStatus::Old
            } else {
                match resolve(v, op) {
                    Some(o) => CellStatus::Current(o),
                    None => CellStatus::Unknown,
                }
            }
        } else {
            CellStatus::Unknown
        },
        None => CellStatus::Unknown,
    }
}

/// The store, the shared tip and the consensus parameters.
pub struct Shared {
    store: ChainStore,
    tip_header: TipHeader,
    consensus: Consensus,
}

impl Shared {
    pub closed spec fn chain(&self) -> StoreView {
        self.store@
    }

    pub closed spec fn tip(&self) -> TipHeader {
        self.tip_header
    }

    pub closed spec fn params(&self) -> Consensus {
        self.consensus
    }

    /// The store is well formed and holds a canonical chain, whose top the
    /// tip names, with its stored header and total difficulty.
    pub open spec fn wf(&self) -> bool {
        &&& self.chain().wf()
        &&& self.chain().index.len() > 0
        &&& self.params().valid()
        &&& self.chain().header_of(self.chain().index.last()) == Some(self.tip().inner)
        &&& self.chain().ext_of(self.chain().index.last()) is Some
        &&& self.chain().ext_of(self.chain().index.last()).unwrap().total_difficulty
            == self.tip().total_difficulty
        &&& self.tip().output_root == root_or_zero(self.chain(), self.tip().inner.hash)
    }

    /// A provider over `store`. An empty store first receives the genesis
    /// block of `consensus`; the tip is then the top of the canonical chain.
    pub fn new(store: ChainStore, consensus: Consensus) -> (r: Shared)
        requires
            store@.wf(),
            store@.index.len() > 0 || store@.blocks.len() == 0,
            consensus.valid(),
            consensus.genesis_block.header.number == 0,
        ensures
            r.wf(),
            r.params() == consensus,
            store@.index.len() > 0 ==> r.chain() == store@,
            store@.index.len() == 0 ==> r.chain().blocks.len() == 1 && r.chain().blocks[0].model()
                == consensus.genesis_block.model() && r.chain().index == seq![
                consensus.genesis_block.header.hash,
            ],
            store@.index.len() == 0 ==> r.chain().exts == seq![
                BlockExt {
                    total_difficulty: consensus.genesis_block.header.difficulty,
                    total_uncles_count: 0,
                    received_at: consensus.genesis_block.header.timestamp,
                },
            ],
            r.tip().output_root == root_or_zero(r.chain(), r.tip().inner.hash),
    {
        let mut store = store;
        if store.canonical_len() == 0 {
            let genesis = consensus.genesis_block.duplicate();
            store.init(genesis);
        }

        let top = store.canonical_len() - 1;
        let h = store.get_block_hash(top as u64).unwrap();
        proof {
            assert(store@.has(store@.index[top as int]));
        }
        let header = store.get_header(&h).unwrap();
        let ext = store.get_block_ext(&h).unwrap();
        let root = match store.get_output_root(&h) {
            Some(r) => r,
            None => H256::zero(),
        };
        Shared { store, tip_header: TipHeader::new(header, ext.total_difficulty, root), consensus }
    }
}


impl Shared {
    pub fn tip_header(&self) -> (r: &TipHeader)
        ensures
            *r == self.tip(),
    {
        &self.tip_header
    }

    pub fn store(&self) -> (r: &ChainStore)
        ensures
            r@ == self.chain(),
    {
        &self.store
    }

    pub fn consensus(&self) -> (r: &Consensus)
        ensures
            *r == self.params(),
    {
        &self.consensus
    }

    /// The header of block `h`; the tip's is served from the shared cell.
    pub fn block_header(&self, h: &H256) -> (r: Option<Header>)
        requires
            self.wf(),
        ensures
            r == self.chain().header_of(*h),
    {
        if self.tip_header.inner.hash == *h {
            proof {
                let v = self.chain();
                assert(v.has(v.index.last()));
            }
            Some(self.tip_header.inner)
        } else {
            self.store.get_header(h)
        }
    }

    pub fn block(&self, h: &H256) -> (r: Option<&Block>)
        requires
            self.wf(),
        ensures
            r.is_some() == self.chain().has(*h),
            r.is_some() ==> self.chain().block_of(*h) == Some(*r.unwrap()),
    {
        self.store.get_block(h)
    }

    pub fn block_hash(&self, n: BlockNumber) -> (r: Option<H256>)
        ensures
            r == self.chain().hash_at(n as int),
    {
        self.store.get_block_hash(n)
    }

    pub fn block_number(&self, h: &H256) -> (r: Option<BlockNumber>)
        requires
            self.wf(),
        ensures
            r == self.chain().number_of(*h),
    {
        self.store.get_block_number(h)
    }

    pub fn block_ext(&self, h: &H256) -> (r: Option<BlockExt>)
        requires
            self.wf(),
        ensures
            r == self.chain().ext_of(*h),
    {
        self.store.get_block_ext(h)
    }

    pub fn get_transaction(&self, h: &H256) -> (r: Option<&Transaction>)
        requires
            self.wf(),
        ensures
            match r {
                Some(t) => self.chain().tx_of(*h) == Some(*t),
                None => self.chain().tx_of(*h).is_none(),
            },
    {
        self.store.get_transaction(h)
    }

    /// Whether a canonical block holds the transaction `h`.
    pub fn contain_transaction(&self, h: &H256) -> (r: bool)
        requires
            self.wf(),
        ensures
            r == self.chain().tx_of(*h).is_some(),
    {
        self.store.get_transaction(h).is_some()
    }

    pub fn genesis_hash(&self) -> (r: H256)
        ensures
            r == self.params().genesis_block.header.hash,
    {
        self.consensus.genesis_block.header.hash
    }

    /// The base subsidy of a block: the initial block reward at every number.
    pub fn block_reward(&self, _number: BlockNumber) -> (r: Capacity)
        ensures
            r == self.params().initial_block_reward,
    {
        self.consensus.initial_block_reward
    }

    /// The difficulty of the block that follows `last`.
    pub fn calculate_difficulty(&self, last: &Header) -> (r: Option<u128>)
        requires
            self.wf(),
            (last.number + 1) % (self.params().difficulty_adjustment_interval as int) == 0
                ==> last.difficulty <= u128::MAX / 2,
        ensures
            r == difficulty_after(self.chain(), self.params(), *last),
    {
        let interval = self.consensus.difficulty_adjustment_interval;
        if last.number % interval != interval - 1 {
            proof {
                assert((last.number + 1) % (interval as int) != 0) by (nonlinear_arith)
                    requires
                        interval > 0,
                        last.number % interval != interval - 1,
                ;
            }
            return Some(last.difficulty);
        }
        proof {
            assert((last.number + 1) % (interval as int) == 0) by (nonlinear_arith)
                requires
                    interval > 0,
                    last.number % interval == interval - 1,
            ;
        }
        let start = last.number.saturating_sub(interval);
        let start_header = match self.get_ancestor(&last.hash, start) {
            Some(h) => h,
            None => {
                return None;
            },
        };
        proof {
            let v = self.chain();
            lemma_walk_uncles(v, v.header_of(last.hash).unwrap(), start);
        }
        let start_ext = self.block_ext(&start_header.hash).unwrap();
        let last_ext = self.block_ext(&last.hash).unwrap();
        let uncles = last_ext.total_uncles_count - start_ext.total_uncles_count;
        let inverse_rate = self.consensus.orphan_rate_target.denom
            / self.consensus.orphan_rate_target.numer;
        let d = last.difficulty;
        let max_difficulty = d * 2;
        proof {
            lemma_raw_bounds(d as int, uncles as int, inverse_rate as int, interval as int);
            assert(uncles as int * inverse_rate as int <= u64::MAX as int * u64::MAX as int) by (nonlinear_arith)
                requires
                    uncles <= u64::MAX,
                    inverse_rate <= u64::MAX,
            ;
        }
        let capped = if (uncles as u128) * (inverse_rate as u128) >= 2 * (interval as u128) || d == 0 {
            max_difficulty
        } else {
            mul3_div(d, uncles, inverse_rate, interval)
        };
        if capped < self.consensus.min_difficulty {
            Some(self.consensus.min_difficulty)
        } else {
            Some(capped)
        }
    }

    /// The output that `op` names on the canonical chain.
    fn resolve_input(&self, op: &OutPoint) -> (r: Option<CellOutput>)
        requires
            self.wf(),
        ensures
            r == resolve(self.chain(), *op),
    {
        match self.get_transaction(&op.tx_hash) {
            Some(t) => {
                if (op.index as usize) < t.outputs.len() {
                    Some(t.outputs[op.index as usize])
                } else {
                    None
                }
            },
            None => None,
        }
    }

    /// The fee that `tx` pays: what its inputs spend on the canonical chain
    /// less what its outputs hold. An unresolved input comes first, then an
    /// input sum that does not fit a capacity, then outputs above inputs.
    pub fn calculate_transaction_fee(&self, tx: &Transaction) -> (r: Result<Capacity, SharedError>)
        requires
            self.wf(),
        ensures
            r == fee_of(self.chain(), *tx),
    {
        let ghost v = self.chain();
        let ghost ins = tx.inputs@;
        let mut fee: u64 = 0;
        let mut overflow = false;
        let mut i: usize = 0;
        while i < tx.inputs.len()
            invariant
                self.wf(),
                v == self.chain(),
                ins == tx.inputs@,
                i <= ins.len(),
                inputs_resolve(v, ins.subrange(0, i as int)),
                !overflow ==> fee == input_sum(v, ins.subrange(0, i as int)),
                overflow ==> input_sum(v, ins.subrange(0, i as int)) > u64::MAX,
            decreases ins.len() - i,
        {
            let ghost pre = ins.subrange(0, i as int);
            let ghost next = ins.subrange(0, i + 1);
            proof {
                assert(next.drop_last() =~= pre);
            }
            match self.resolve_input(&tx.inputs[i].previous_output) {
                Some(o) => {
                    if !overflow {
                        if fee <= u64::MAX - o.capacity {
                            fee = fee + o.capacity;
                        } else {
                            overflow = true;
                        }
                    }
                },
                None => {
                    proof {
                        assert(!inputs_resolve(v, ins));
                    }
                    return Err(SharedError::InvalidInput);
                },
            }
            i = i + 1;
            proof {
                assert forall|j: int| 0 <= j < next.len() implies (#[trigger] resolve(
                    v,
                    next[j].previous_output,
                )) is Some by {
                    if j < i - 1 {
                        assert(next[j] == pre[j]);
                    }
                }
            }
        }
        proof {
            assert(ins.subrange(0, i as int) =~= ins);
        }
        if overflow {
            return Err(SharedError::CapacityOverflow);
        }
        let ghost outs = tx.outputs@;
        let mut spent: u64 = 0;
        let mut k: usize = 0;
        while k < tx.outputs.len()
            invariant
                outs == tx.outputs@,
                k <= outs.len(),
                spent == output_sum(outs.subrange(0, k as int)),
                spent <= fee,
                v == self.chain(),
                ins == tx.inputs@,
                fee == input_sum(v, ins),
                inputs_resolve(v, ins),
            decreases outs.len() - k,
        {
            proof {
                assert(outs.subrange(0, k + 1).drop_last() =~= outs.subrange(0, k as int));
            }
            let c = tx.outputs[k].capacity;
            if c > fee - spent {
                proof {
                    lemma_output_sum_grows(outs, k as int + 1);
                }
                return Err(SharedError::InvalidOutput);
            }
            spent = spent + c;
            k = k + 1;
        }
        proof {
            assert(outs.subrange(0, k as int) =~= outs);
        }
        Ok(fee - spent)
    }

    /// The ids proposed in the canonical blocks `bn`, `bn - 1`, ... (at most
    /// `n` of them, and none below number 1), newest first; each element
    /// holds a block's own proposals and its uncles', each id once. Empty
    /// when `bn` is above the canonical top.
    pub fn union_proposal_ids_n(&self, bn: BlockNumber, n: usize) -> (r: Vec<Vec<ProposalShortId>>)
        requires
            self.wf(),
        ensures
            self.chain().hash_at(bn as int) is None ==> r@.len() == 0,
            self.chain().hash_at(bn as int) is Some ==> r@.len() == if bn > n as u64 {
                n as int
            } else {
                bn as int
            },
            forall|i: int|
                #![trigger r@[i]]
                0 <= i < r@.len() ==> ids_match(r@[i]@, self.chain().canonical_block(bn - i)),
    {
        if bn >= self.store.canonical_len() as u64 {
            return Vec::new();
        }
        let top: usize = bn as usize;
        let m: usize = if top > n {
            n
        } else {
            top
        };
        let r = window_ids(&self.store, top, m);
        r
    }

    /// The block on the chain of `parent` at number `k`.
    fn block_on_chain(&self, parent: &Header, k: u64) -> (r: Option<&Block>)
        requires
            self.wf(),
        ensures
            match r {
                Some(b) => block_at(self.chain(), *parent, k as int) == Some(*b),
                None => block_at(self.chain(), *parent, k as int) is None,
            },
    {
        match self.get_ancestor(&parent.hash, k) {
            Some(h) => self.block(&h.hash),
            None => None,
        }
    }

    /// Whether a block on the chain of `parent` numbered in `[lo, hi)`
    /// proposes `id`.
    fn proposed_between(&self, parent: &Header, lo: u64, hi: u64, id: ProposalShortId) -> (r: bool)
        requires
            self.wf(),
        ensures
            r == proposed_in(self.chain(), *parent, lo as int, hi as int, id),
    {
        let ghost v = self.chain();
        let mut k: u64 = lo;
        while k < hi
            invariant
                self.wf(),
                v == self.chain(),
                lo <= k,
                forall|j: int|
                    lo <= j < k ==> !((#[trigger] block_at(v, *parent, j)) is Some && proposes(
                        block_at(v, *parent, j).unwrap(),
                        id,
                    )),
            decreases hi - k,
        {
            match self.block_on_chain(parent, k) {
                Some(b) => {
                    if block_proposes(b, id) {
                        return true;
                    }
                },
                None => {},
            }
            k = k + 1;
        }
        false
    }

    /// Adds to `acc` the shares due to `target` from `txs`, committed at `c`.
    fn commit_share(
        &self,
        parent: &Header,
        target: &Block,
        c: u64,
        txs: &Vec<Transaction>,
        acc: u64,
    ) -> (r: Result<u64, SharedError>)
        requires
            self.wf(),
        ensures
            ({
                let v = self.chain();
                let far = self.params().tx_proposal_window.farthest;
                let ratio = self.params().proposer_reward_ratio;
                let total = acc + txs_share(v, *parent, *target, far, ratio, c as int, txs@);
                &&& r is Ok <==> txs_ok(v, *parent, *target, far, c as int, txs@) && total <= u64::MAX
                &&& r is Ok ==> r.unwrap() == total
            }),
    {
        let ghost v = self.chain();
        let far = self.consensus.tx_proposal_window.farthest;
        let ratio = self.consensus.proposer_reward_ratio;
        let lo: u64 = if c >= far {
            c - far
        } else {
            0
        };
        let mut sum: u64 = acc;
        let mut i: usize = 0;
        while i < txs.len()
            invariant
                self.wf(),
                v == self.chain(),
                far == self.params().tx_proposal_window.farthest,
                ratio == self.params().proposer_reward_ratio,
                lo == if c >= far { c - far } else { 0 },
                i <= txs@.len(),
                txs_ok(v, *parent, *target, far, c as int, txs@.subrange(0, i as int)),
                sum == acc + txs_share(v, *parent, *target, far, ratio, c as int, txs@.subrange(0, i as int)),
            decreases txs@.len() - i,
        {
            let ghost pre = txs@.subrange(0, i as int);
            let ghost next = txs@.subrange(0, i + 1);
            proof {
                assert(next.drop_last() =~= pre);
                assert(next.last() == txs@[i as int]);
            }
            let tx = &txs[i];
            let id = tx.proposal_short_id();
            let due = !tx.is_cellbase() && block_proposes(target, id) && !self.proposed_between(
                parent,
                lo,
                target.header.number,
                id,
            );
            if due {
                match self.calculate_transaction_fee(tx) {
                    Ok(fee) => {
                        proof {
                            assert(fee as int * ratio.numer as int <= u64::MAX as int * u64::MAX as int)
                                by (nonlinear_arith)
                                requires
                                    fee <= u64::MAX,
                                    ratio.numer <= u64::MAX,
                            ;
                            assert(fee as int * ratio.numer as int / ratio.denom as int <= fee as int)
                                by (nonlinear_arith)
                                requires
                                    ratio.numer <= ratio.denom,
                                    ratio.denom > 0,
                                    fee >= 0,
                            ;
                        }
                        let wide: u128 = (fee as u128) * (ratio.numer as u128) / (ratio.denom as u128);
                        let part = wide as u64;
                        if part > u64::MAX - sum {
                            proof {
                                lemma_txs_share_mono(v, *parent, *target, far, ratio, c as int, txs@, i + 1);
                            }
                            return Err(SharedError::CapacityOverflow);
                        }
                        sum = sum + part;
                    },
                    Err(e) => {
                        proof {
                            assert(credited(v, *parent, *target, far, c as int, txs@[i as int]));
                        }
                        return Err(e);
                    },
                }
            }
            i = i + 1;
            proof {
                assert forall|j: int|
                    0 <= j < next.len() && #[trigger] credited(v, *parent, *target, far, c as int, next[j])
                        implies fee_of(v, next[j]) is Ok by {
                    if j < i - 1 {
                        assert(next[j] == pre[j]);
                    }
                }
            }
        }
        proof {
            assert(txs@.subrange(0, i as int) =~= txs@);
        }
        Ok(sum)
    }

    /// Adds to `base` the shares due to `target` from the blocks numbered in
    /// `[lo, hi)` on the chain of `parent`.
    #[verifier::rlimit(60)]
    fn window_reward(
        &self,
        parent: &Header,
        target: &Block,
        lo: u128,
        hi: u128,
        base: u64,
    ) -> (r: Result<u64, SharedError>)
        requires
            self.wf(),
            lo <= hi,
            hi <= u64::MAX as int + 1,
        ensures
            ({
                let v = self.chain();
                let far = self.params().tx_proposal_window.farthest;
                let ratio = self.params().proposer_reward_ratio;
                let total = base + window_share(v, *parent, *target, far, ratio, lo as int, hi as int);
                &&& r is Ok <==> window_ok(v, *parent, *target, far, lo as int, hi as int) && total
                    <= u64::MAX
                &&& r is Ok ==> r.unwrap() == total
            }),
    {
        let ghost v = self.chain();
        let far = self.consensus.tx_proposal_window.farthest;
        let ratio = self.consensus.proposer_reward_ratio;
        let mut acc: u64 = base;
        let mut c: u128 = lo;
        while c < hi
            invariant
                self.wf(),
                v == self.chain(),
                far == self.params().tx_proposal_window.farthest,
                ratio == self.params().proposer_reward_ratio,
                lo <= c <= hi,
                hi <= u64::MAX as int + 1,
                window_ok(v, *parent, *target, far, lo as int, c as int),
                acc == base + window_share(v, *parent, *target, far, ratio, lo as int, c as int),
            decreases hi - c,
        {
            let b = match self.block_on_chain(parent, c as u64) {
                Some(b) => b,
                None => {
                    proof {
                        assert(block_at(v, *parent, c as int) is None);
                    }
                    return Err(SharedError::UnknownTarget);
                },
            };
            match self.commit_share(parent, target, c as u64, &b.transactions, acc) {
                Ok(x) => {
                    acc = x;
                    proof {
                        assert(block_at(v, *parent, c as int) == Some(*b));
                        assert(window_share(v, *parent, *target, far, ratio, lo as int, c + 1)
                            == window_share(v, *parent, *target, far, ratio, lo as int, c as int)
                            + txs_share(v, *parent, *target, far, ratio, c as int, b.transactions@));
                        assert forall|k: int| lo <= k < c + 1 implies (#[trigger] block_at(v, *parent, k)) is Some && txs_ok(
                            v,
                            *parent,
                            *target,
                            far,
                            k,
                            block_at(v, *parent, k).unwrap().transactions@,
                        ) by {
                        }
                    }
                },
                Err(e) => {
                    proof {
                        assert(block_at(v, *parent, c as int) == Some(*b));
                        if txs_ok(v, *parent, *target, far, c as int, b.transactions@) {
                            assert(window_share(v, *parent, *target, far, ratio, lo as int, c + 1)
                                == window_share(v, *parent, *target, far, ratio, lo as int, c as int)
                                + txs_share(v, *parent, *target, far, ratio, c as int, b.transactions@));
                            lemma_window_share_mono(v, *parent, *target, far, ratio, lo as int, c + 1, hi as int);
                        }
                    }
                    return Err(e);
                },
            }
            c = c + 1;
        }
        Ok(acc)
    }

    /// The miner lock and the reward of the block `far` below `parent`, where
    /// `far` is the farthest proposal distance: that block's proposals can be
    /// committed no later than `parent`. The reward is the block's base
    /// subsidy plus the proposer share of each fee committed on the chain of
    /// `parent` in that block's proposal reach, for transactions that it
    /// proposed first.
    pub fn finalize_block_reward(&self, parent: &Header) -> (r: Result<(Script, Capacity), SharedError>)
        requires
            self.wf(),
        ensures
            ({
                let v = self.chain();
                let c = self.params();
                let far = c.tx_proposal_window.farthest;
                let close = c.tx_proposal_window.closest;
                let t = parent.number - far;
                &&& parent.number < far ==> r == Err::<(Script, Capacity), SharedError>(
                    SharedError::UnknownTarget,
                )
                &&& parent.number >= far && block_at(v, *parent, t) is None ==> r == Err::<
                    (Script, Capacity),
                    SharedError,
                >(SharedError::UnknownTarget)
                &&& parent.number >= far && block_at(v, *parent, t) is Some ==> {
                    let tb = block_at(v, *parent, t).unwrap();
                    let total = c.initial_block_reward + window_share(
                        v,
                        *parent,
                        tb,
                        far,
                        c.proposer_reward_ratio,
                        t + close,
                        parent.number + 1,
                    );
                    &&& miner_of(tb) is None ==> r == Err::<(Script, Capacity), SharedError>(
                        SharedError::InvalidCellbase,
                    )
                    &&& miner_of(tb) is Some ==> (r is Ok <==> window_ok(
                        v,
                        *parent,
                        tb,
                        far,
                        t + close,
                        parent.number + 1,
                    ) && total <= u64::MAX)
                    &&& r is Ok ==> r.unwrap().0@ == miner_of(tb).unwrap() && r.unwrap().1 == total
                }
            }),
    {
        let ghost v = self.chain();
        let far = self.consensus.tx_proposal_window.farthest;
        let close = self.consensus.tx_proposal_window.closest;
        let ratio = self.consensus.proposer_reward_ratio;
        if parent.number < far {
            return Err(SharedError::UnknownTarget);
        }
        let t = parent.number - far;
        let target = match self.block_on_chain(parent, t) {
            Some(b) => b,
            None => {
                return Err(SharedError::UnknownTarget);
            },
        };
        if target.transactions.len() == 0 || target.transactions[0].witnesses.len() == 0 {
            return Err(SharedError::InvalidCellbase);
        }
        let miner = match Script::from_witness(&target.transactions[0].witnesses[0]) {
            Some(s) => s,
            None => {
                return Err(SharedError::InvalidCellbase);
            },
        };
        let base = self.block_reward(t);
        let lo: u128 = (t + close) as u128;
        let hi: u128 = parent.number as u128 + 1;
        proof {
            assert(lo as int == t + close);
        }
        match self.window_reward(parent, target, lo, hi, base) {
            Ok(acc) => Ok((miner, acc)),
            Err(e) => Err(e),
        }
    }

    /// Stores `block`, whose parent must be stored one number below it, with
    /// its metadata: total difficulty and uncle count add to the parent's. A
    /// block whose total difficulty exceeds the tip's becomes the new tip; the
    /// canonical index then runs along its ancestors, and the change is
    /// returned: the blocks that left the chain newest first, those that
    /// joined it oldest first.
    pub fn process_block(&mut self, block: Block, received_at: u64) -> (r: Result<TipChange, ProcessError>)
        requires
            old(self).wf(),
        ensures
            final(self).wf(),
            final(self).params() == old(self).params(),
            r is Err ==> final(self).chain() == old(self).chain() && final(self).tip() == old(self).tip(),
            r == Err::<TipChange, ProcessError>(ProcessError::Duplicate) <==> old(self).chain().has(block.header.hash),
            r == Err::<TipChange, ProcessError>(ProcessError::UnknownParent) <==> !old(self).chain().has(
                block.header.hash,
            ) && !old(self).chain().parent_ok(block.header),
            r is Ok <==> !old(self).chain().has(block.header.hash) && old(self).chain().parent_ok(block.header)
                && old(self).chain().ext_fits(block),
            r is Ok ==> final(self).chain().blocks == old(self).chain().blocks.push(block)
                && final(self).chain().exts == old(self).chain().exts.push(
                old(self).chain().ext_after(block, received_at),
            ),
            r is Ok && old(self).chain().ext_after(block, received_at).total_difficulty <= old(
                self,
            ).tip().total_difficulty ==> {
                &&& final(self).tip() == old(self).tip()
                &&& final(self).chain().index == old(self).chain().index
                &&& r.unwrap().detached_blocks@.len() == 0
                &&& r.unwrap().attached_blocks@.len() == 0
            },
            r is Ok && old(self).chain().ext_after(block, received_at).total_difficulty > old(
                self,
            ).tip().total_difficulty ==> {
                let old_len = old(self).chain().index.len() as int;
                let d = r.unwrap().detached_blocks@;
                let a = r.unwrap().attached_blocks@;
                let base = old_len - d.len();
                let v = final(self).chain();
                &&& final(self).tip().inner == block.header
                &&& v.index.last() == block.header.hash
                &&& 1 <= base <= old_len
                &&& v.index.len() == base + a.len()
                &&& v.index.subrange(0, base) == old(self).chain().index.subrange(0, base)
                &&& forall|k: int| 0 <= k < d.len() ==> (#[trigger] d[k]).model() == old(self).chain().canonical_block(old_len - 1 - k).model()
                &&& forall|k: int| 0 <= k < a.len() ==> (#[trigger] a[k]).model() == v.canonical_block(base + k).model()
            },
    {
        let header = block.header;
        let ghost pre = self.store@;
        match self.store.insert_block(block, received_at) {
            Ok(()) => {},
            Err(StoreError::Duplicate) => {
                return Err(ProcessError::Duplicate);
            },
            Err(StoreError::UnknownParent) => {
                return Err(ProcessError::UnknownParent);
            },
            Err(StoreError::Overflow) => {
                return Err(ProcessError::Overflow);
            },
        }
        proof {
            let post = self.store@;
            post.lemma_slot(post.blocks.len() - 1);
            let top = pre.index.last();
            pre.lemma_slot(pre.slot(top));
            assert(pre.has(top));
            assert(post.blocks[pre.slot(top)] == pre.blocks[pre.slot(top)]);
            post.lemma_slot(pre.slot(top));
            crate::store::lemma_grow_keeps(pre, post);
            reveal(StoreView::canonical_block);
            assert forall|n: int| 0 <= n < pre.index.len() implies #[trigger] post.canonical_block(n) == pre.canonical_block(n) by {
                assert(pre.has(pre.index[n]));
            }
        }
        let ext = self.store.get_block_ext(&header.hash).unwrap();
        let mut change = TipChange { detached_blocks: Vec::new(), attached_blocks: Vec::new() };
        if ext.total_difficulty <= self.tip_header.total_difficulty {
            return Ok(change);
        }
        let (path, fork) = self.store.branch_of(&header);
        let old_len = self.store.canonical_len();
        change.detached_blocks = self.store.canonical_copies(fork + 1, old_len, true);
        self.store.reroute(&path, fork);
        let new_len = self.store.canonical_len();
        change.attached_blocks = self.store.canonical_copies(fork + 1, new_len, false);
        proof {
            assert(path@.len() > 0);
            assert(self.store@.index.subrange(0, fork + 1) == pre.index.subrange(0, fork + 1));
        }
        let root = match self.store.get_output_root(&header.hash) {
            Some(r) => r,
            None => H256::zero(),
        };
        self.tip_header = TipHeader::new(header, ext.total_difficulty, root);
        Ok(change)
    }

    /// The output root recorded for block `h`.
    pub fn output_root(&self, h: &H256) -> (r: Option<H256>)
        ensures
            r == root_in(self.chain().roots, *h),
    {
        self.store.get_output_root(h)
    }

    /// Records the output root of block `h`; the tip follows when `h` is the
    /// tip.
    pub fn insert_output_root(&mut self, h: H256, root: H256)
        requires
            old(self).wf(),
        ensures
            final(self).wf(),
            final(self).chain() == (StoreView { roots: old(self).chain().roots.push((h, root)), ..old(self).chain() }),
            final(self).params() == old(self).params(),
            final(self).tip().inner == old(self).tip().inner,
    {
        self.store.insert_output_root(h, root);
        if self.tip_header.inner.hash == h {
            self.tip_header.output_root = root;
        }
        proof {
            let v = self.chain();
            assert(v.roots.drop_last() == old(self).chain().roots);
            assert forall|i: int| 0 <= i < v.blocks.len() implies #[trigger] v.ext_ok(i) by {
                assert(old(self).chain().ext_ok(i));
            }
        }
    }

    /// Records the metadata of transaction `tx` under output root `root`.
    pub fn insert_transaction_meta(&mut self, root: H256, tx: H256, meta: TransactionMeta)
        requires
            old(self).wf(),
        ensures
            final(self).wf(),
            final(self).chain() == (StoreView { metas: old(self).chain().metas.push((root, tx, meta)), ..old(self).chain() }),
            final(self).params() == old(self).params(),
            final(self).tip() == old(self).tip(),
    {
        self.store.insert_transaction_meta(root, tx, meta);
        proof {
            let v = self.chain();
            assert forall|i: int| 0 <= i < v.blocks.len() implies #[trigger] v.ext_ok(i) by {
                assert(old(self).chain().ext_ok(i));
            }
        }
    }

    /// The metadata of transaction `h` as of the tip's output root.
    pub fn get_transaction_meta(&self, h: &H256) -> (r: Option<&TransactionMeta>)
        requires
            self.wf(),
        ensures
            match r {
                Some(m) => meta_in(self.chain().metas, self.tip().output_root, *h) == Some(*m),
                None => meta_in(self.chain().metas, self.tip().output_root, *h) is None,
            },
    {
        self.store.get_transaction_meta(&self.tip_header.output_root, h)
    }

    /// The metadata of transaction `h` as of the output root of block
    /// `parent`.
    pub fn get_transaction_meta_at(&self, h: &H256, parent: &H256) -> (r: Option<&TransactionMeta>)
        requires
            self.wf(),
        ensures
            match root_in(self.chain().roots, *parent) {
                Some(root) => match r {
                    Some(m) => meta_in(self.chain().metas, root, *h) == Some(*m),
                    None => meta_in(self.chain().metas, root, *h) is None,
                },
                None => r is None,
            },
    {
        match self.output_root(parent) {
            Some(root) => self.store.get_transaction_meta(&root, h),
            None => None,
        }
    }

    fn status_from(&self, meta: Option<&TransactionMeta>, op: &OutPoint) -> (r: CellStatus)
        requires
            self.wf(),
        ensures
            match meta {
                Some(m) => if (op.index as int) < m.spent@.len() {
                    if m.spent@[op.index as int] {
                        r == CellStatus::Old
                    } else {
                        r == match resolve(self.chain(), *op) {
                            Some(o) => CellStatus::Current(o),
                            None => CellStatus::Unknown,
                        }
                    }
                } else {
                    r == CellStatus::Unknown
                },
                None => r == CellStatus::Unknown,
            },
    {
        match meta {
            Some(m) => {
                let index = op.index as usize;
                if index < m.len() {
                    if m.is_spent(index) {
                        CellStatus::Old
                    } else {
                        match self.resolve_input(op) {
                            Some(o) => CellStatus::Current(o),
                            None => CellStatus::Unknown,
                        }
                    }
                } else {
                    CellStatus::Unknown
                }
            },
            None => CellStatus::Unknown,
        }
    }

    /// The status of the output `op` as of the tip.
    pub fn cell(&self, op: &OutPoint) -> (r: CellStatus)
        requires
            self.wf(),
        ensures
            r == cell_status(self.chain(), self.tip().output_root, *op),
    {
        let meta = self.get_transaction_meta(&op.tx_hash);
        self.status_from(meta, op)
    }

    /// The status of the output `op` as of block `parent`; unknown when no
    /// output root is recorded for `parent`.
    pub fn cell_at(&self, op: &OutPoint, parent: &H256) -> (r: CellStatus)
        requires
            self.wf(),
        ensures
            r == match root_in(self.chain().roots, *parent) {
                Some(root) => cell_status(self.chain(), root, *op),
                None => CellStatus::Unknown,
            },
    {
        let meta = self.get_transaction_meta_at(&op.tx_hash, parent);
        self.status_from(meta, op)
    }

    /// The ancestor of `base` at number `number`. A canonical `base` is
    /// answered from the canonical index; any other by walking parent links.
    pub fn get_ancestor(&self, base: &H256, number: BlockNumber) -> (r: Option<Header>)
        requires
            self.wf(),
        ensures
            r == self.chain().ancestor(*base, number),
    {
        let ghost v = self.chain();
        match self.block_number(base) {
            Some(n) => {
                proof {
                    lemma_canonical_walk(v, n as int, if number <= n { number } else { n });
                }
                if number > n {
                    None
                } else {
                    match self.block_hash(number) {
                        Some(h) => self.block_header(&h),
                        None => None,
                    }
                }
            },
            None => {
                let start = match self.block_header(base) {
                    Some(h) => h,
                    None => {
                        return None;
                    },
                };
                let mut walk = start;
                assert(v.ancestor(*base, number) == v.walk(start, number));
                if number > walk.number {
                    return None;
                }
                while walk.number > number
                    invariant
                        self.wf(),
                        v == self.chain(),
                        walk.number >= number,
                        v.walk(start, number) == v.walk(walk, number),
                        v.ancestor(*base, number) == v.walk(start, number),
                    decreases walk.number,
                {
                    match self.block_header(&walk.parent_hash) {
                        Some(p) => {
                            if p.number < walk.number && p.number >= number {
                                walk = p;
                            } else {
                                if p.number < walk.number {
                                    assert(v.walk(p, number) is None);
                                }
                                assert(v.walk(walk, number) is None);
                                return None;
                            }
                        },
                        None => {
                            assert(v.walk(walk, number) is None);
                            return None;
                        },
                    }
                }
                Some(walk)
            },
        }
    }
}

/// Assembles a provider over an in-memory store.
pub struct SharedBuilder {
    store: ChainStore,
    consensus: Option<Consensus>,
}

/// The genesis block of the default chain: number 0, zero fingerprints and
/// the minimum difficulty.
pub fn default_genesis() -> (r: Block)
    ensures
        r.header.number == 0,
        r.header.difficulty == 0x100,
{
    Block {
        header: Header {
            hash: H256::zero(),
            parent_hash: H256::zero(),
            number: 0,
            timestamp: 0,
            difficulty: 0x100,
            nonce: 0,
            proposals_root: H256::zero(),
            txs_root: H256::zero(),
        },
        transactions: Vec::new(),
        proposals: Vec::new(),
        uncles: Vec::new(),
    }
}

impl SharedBuilder {
    pub closed spec fn spec_consensus(&self) -> Option<Consensus> {
        self.consensus
    }

    pub closed spec fn spec_store(&self) -> StoreView {
        self.store@
    }

    /// A builder over an empty in-memory store, with the default parameters
    /// but an initial block reward of 50.
    pub fn new_memory() -> (r: SharedBuilder)
        ensures
            r.spec_store().blocks.len() == 0,
            r.spec_store().wf(),
            r.spec_store().index.len() == 0,
            r.spec_consensus() is Some,
            r.spec_consensus().unwrap().valid(),
            r.spec_consensus().unwrap().initial_block_reward == 50,
            r.spec_consensus().unwrap().genesis_block.header.number == 0,
    {
        let c = Consensus::new(default_genesis());
        SharedBuilder { store: ChainStore::new(), consensus: Some(Consensus { initial_block_reward: 50, ..c }) }
    }

    pub fn consensus(self, value: Consensus) -> (r: SharedBuilder)
        ensures
            r.spec_consensus() == Some(value),
            r.spec_store() == self.spec_store(),
    {
        SharedBuilder { consensus: Some(value), ..self }
    }

    /// The provider; without parameters set, the defaults over the default
    /// genesis.
    pub fn build(self) -> (r: Shared)
        requires
            self.spec_store().wf(),
            self.spec_store().index.len() > 0 || self.spec_store().blocks.len() == 0,
            self.spec_consensus() is Some ==> self.spec_consensus().unwrap().valid()
                && self.spec_consensus().unwrap().genesis_block.header.number == 0,
        ensures
            r.wf(),
            self.spec_consensus() is Some ==> r.params() == self.spec_consensus().unwrap(),
    {
        let consensus = match self.consensus {
            Some(c) => c,
            None => Consensus::new(default_genesis()),
        };
        Shared::new(self.store, consensus)
    }
}

} // verus!
