//! The ledger's data model: fingerprints, transactions, headers, blocks.
use vstd::prelude::*;

verus! {

/// A block number; genesis is 0.
pub type BlockNumber = u64;

/// A count of indivisible currency units.
pub type Capacity = u64;

/// A 32-byte fingerprint, held as four big-endian 64-bit words: `w0` holds
/// bytes 0..8, `w3` bytes 24..32.
#[derive(Clone, Copy, Debug, PartialEq, Eq, Structural, Hash)]
pub struct H256 {
    pub w0: u64,
    pub w1: u64,
    pub w2: u64,
    pub w3: u64,
}

/// Byte order on fingerprints, which is the order of their words.
pub open spec fn h256_lt(a: H256, b: H256) -> bool {
    a.w0 < b.w0 || (a.w0 == b.w0 && (a.w1 < b.w1 || (a.w1 == b.w1 && (a.w2 < b.w2 || (
    a.w2 == b.w2 && a.w3 < b.w3)))))
}

impl H256 {
    pub open spec fn zero_spec() -> H256 {
        H256 { w0: 0, w1: 0, w2: 0, w3: 0 }
    }

    /// The all-zero fingerprint.
    pub fn zero() -> (r: H256)
        ensures
            r == H256::zero_spec(),
    {
        H256 { w0: 0, w1: 0, w2: 0, w3: 0 }
    }

    pub fn is_zero(&self) -> (r: bool)
        ensures
            r == (self.w0 == 0 && self.w1 == 0 && self.w2 == 0 && self.w3 == 0),
    {
        self.w0 == 0 && self.w1 == 0 && self.w2 == 0 && self.w3 == 0
    }

    /// Whether `self` sorts before `other` in byte order.
    pub fn less_than(&self, other: &H256) -> (r: bool)
        ensures
            r == h256_lt(*self, *other),
    {
        if self.w0 != other.w0 {
            self.w0 < other.w0
        } else if self.w1 != other.w1 {
            self.w1 < other.w1
        } else if self.w2 != other.w2 {
            self.w2 < other.w2
        } else {
            self.w3 < other.w3
        }
    }
}


/// The value of eight bytes read big-endian.
pub open spec fn be_value(b: Seq<u8>) -> nat
    decreases b.len(),
{
    if b.len() == 0 {
        0
    } else {
        be_value(b.drop_last()) * 256 + b.last() as nat
    }
}

/// The fingerprint whose bytes are `b` (32 of them).
pub open spec fn h256_of_bytes(b: Seq<u8>) -> H256 {
    H256 {
        w0: be_value(b.subrange(0, 8)) as u64,
        w1: be_value(b.subrange(8, 16)) as u64,
        w2: be_value(b.subrange(16, 24)) as u64,
        w3: be_value(b.subrange(24, 32)) as u64,
    }
}

proof fn lemma_be_value_bound(b: Seq<u8>)
    ensures
        be_value(b) < pow256(b.len()),
    decreases b.len(),
{
    if b.len() > 0 {
        lemma_be_value_bound(b.drop_last());
        assert(be_value(b.drop_last()) * 256 + 255 < pow256((b.len() - 1) as nat) * 256) by (nonlinear_arith)
            requires
                be_value(b.drop_last()) < pow256((b.len() - 1) as nat),
        ;
    }
}

/// `256` raised to `n`.
pub open spec fn pow256(n: nat) -> nat
    decreases n,
{
    if n == 0 {
        1
    } else {
        pow256((n - 1) as nat) * 256
    }
}

/// Reads the eight bytes of `b` from `start` as one big-endian word.
fn read_be_word(b: &Vec<u8>, start: usize) -> (r: u64)
    requires
        start + 8 <= b@.len(),
    ensures
        r == be_value(b@.subrange(start as int, start + 8)),
{
    let mut acc: u64 = 0;
    let n: usize = b.len();
    let end: usize = start + 8;
    let mut i: usize = start;
    while i < end
        invariant
            start <= i <= end,
            end == start + 8,
            end <= b@.len(),
            acc == be_value(b@.subrange(start as int, i as int)),
        decreases end - i,
    {
        proof {
            let sub = b@.subrange(start as int, i as int);
            let next = b@.subrange(start as int, i + 1);
            assert(next.drop_last() =~= sub);
            assert(pow256(0) == 1);
            lemma_be_value_bound(sub);
            assert(pow256(sub.len()) <= pow256(7)) by {
                lemma_pow256_mono(sub.len(), 7);
            }
            assert(pow256(7) == 0x100_0000_0000_0000) by {
                reveal_with_fuel(pow256, 8);
            }
        }
        acc = acc * 256 + b[i] as u64;
        i = i + 1;
    }
    acc
}

proof fn lemma_pow256_mono(a: nat, b: nat)
    requires
        a <= b,
    ensures
        pow256(a) <= pow256(b),
    decreases b,
{
    if a < b {
        lemma_pow256_mono(a, (b - 1) as nat);
    }
}

impl H256 {
    /// The fingerprint spelled by exactly 32 bytes, or `None` for any other
    /// length.
    pub fn from_slice(b: &Vec<u8>) -> (r: Option<H256>)
        ensures
            b@.len() == 32 <==> r.is_some(),
            r.is_some() ==> r.unwrap() == h256_of_bytes(b@),
    {
        if b.len() != 32 {
            return None;
        }
        Some(
            H256 {
                w0: read_be_word(b, 0),
                w1: read_be_word(b, 8),
                w2: read_be_word(b, 16),
                w3: read_be_word(b, 24),
            },
        )
    }
}


/// A proposal short id: the first ten bytes of a transaction fingerprint,
/// read big-endian.
#[derive(Clone, Copy, Debug, PartialEq, Eq, Structural, Hash)]
pub struct ProposalShortId {
    pub id: u128,
}

/// The short id of the transaction with fingerprint `h`.
pub open spec fn short_id_of(h: H256) -> ProposalShortId {
    ProposalShortId { id: (h.w0 * 0x1_0000 + h.w1 / 0x1_0000_0000_0000) as u128 }
}

impl ProposalShortId {
    pub fn from_tx_hash(h: &H256) -> (r: ProposalShortId)
        ensures
            r == short_id_of(*h),
    {
        let hi: u128 = h.w0 as u128;
        let lo: u128 = (h.w1 / 0x1_0000_0000_0000) as u128;
        assert(hi * 0x1_0000 + lo <= u128::MAX) by (nonlinear_arith)
            requires
                hi <= u64::MAX,
                lo < 0x1_0000,
        ;
        ProposalShortId { id: hi * 0x1_0000 + lo }
    }
}

/// Identifies one output of one transaction.
#[derive(Clone, Copy, Debug, PartialEq, Eq, Structural, Hash)]
pub struct OutPoint {
    pub tx_hash: H256,
    pub index: u32,
}

impl OutPoint {
    /// The out-point that names no output; a cellbase input spends it.
    pub fn null() -> (r: OutPoint)
        ensures
            r.is_null_spec(),
    {
        OutPoint { tx_hash: H256::zero(), index: u32::MAX }
    }

    pub open spec fn is_null_spec(self) -> bool {
        self.tx_hash == (H256 { w0: 0, w1: 0, w2: 0, w3: 0 }) && self.index == u32::MAX
    }

    pub fn is_null(&self) -> (r: bool)
        ensures
            r == self.is_null_spec(),
    {
        self.tx_hash.is_zero() && self.index == u32::MAX
    }
}

/// A transaction input: the output it spends, and its time lock.
#[derive(Clone, Copy, Debug, PartialEq, Eq, Structural, Hash)]
pub struct CellInput {
    pub previous_output: OutPoint,
    pub since: u64,
}

impl CellInput {
    /// The single input of the cellbase of block `number`.
    pub fn new_cellbase_input(number: BlockNumber) -> (r: CellInput)
        ensures
            r.previous_output.is_null_spec(),
            r.since == number,
    {
        CellInput { previous_output: OutPoint::null(), since: number }
    }
}

/// A transaction output as the chain rules and the lock index read it: its
/// capacity and the fingerprints of its data, lock and type scripts.
#[derive(Clone, Copy, Debug, PartialEq, Eq, Structural, Hash)]
pub struct CellOutput {
    pub capacity: Capacity,
    pub data_hash: H256,
    pub lock_hash: H256,
    pub type_hash: Option<H256>,
}

/// A lock script: the fingerprint of its code and its arguments.
#[derive(Clone, Debug, PartialEq, Eq, Hash)]
pub struct Script {
    pub code_hash: H256,
    pub args: Vec<Vec<u8>>,
}

/// Byte strings as sequences.
pub open spec fn bytes_view(v: Seq<Vec<u8>>) -> Seq<Seq<u8>> {
    Seq::new(v.len(), |i: int| v[i]@)
}

impl View for Script {
    type V = (H256, Seq<Seq<u8>>);

    open spec fn view(&self) -> (H256, Seq<Seq<u8>>) {
        (self.code_hash, bytes_view(self.args@))
    }
}

/// A copy of `b`.
pub fn copy_bytes(b: &Vec<u8>) -> (r: Vec<u8>)
    ensures
        r@ == b@,
{
    let mut r: Vec<u8> = Vec::new();
    let mut i: usize = 0;
    while i < b.len()
        invariant
            i <= b@.len(),
            r@ == b@.subrange(0, i as int),
        decreases b@.len() - i,
    {
        r.push(b[i]);
        i = i + 1;
        proof {
            assert(r@ =~= b@.subrange(0, i as int));
        }
    }
    proof {
        assert(r@ =~= b@);
    }
    r
}

/// The script that a cellbase witness carries: every item but the last is an
/// argument, and the last is the 32-byte code fingerprint.
pub open spec fn script_of_witness(w: Seq<Seq<u8>>) -> Option<(H256, Seq<Seq<u8>>)> {
    if w.len() >= 1 && w.last().len() == 32 {
        Some((h256_of_bytes(w.last()), w.drop_last()))
    } else {
        None
    }
}

impl Script {
    /// Reads the script out of a witness, as `script_of_witness` says.
    pub fn from_witness(w: &Vec<Vec<u8>>) -> (r: Option<Script>)
        ensures
            match r {
                Some(s) => script_of_witness(bytes_view(w@)) == Some(s@),
                None => script_of_witness(bytes_view(w@)).is_none(),
            },
    {
        let n = w.len();
        if n == 0 {
            return None;
        }
        let code_hash = match H256::from_slice(&w[n - 1]) {
            Some(h) => h,
            None => return None,
        };
        let mut args: Vec<Vec<u8>> = Vec::new();
        let mut i: usize = 0;
        while i < n - 1
            invariant
                n == w@.len(),
                n >= 1,
                i <= n - 1,
                bytes_view(args@) == bytes_view(w@).subrange(0, i as int),
            decreases n - 1 - i,
        {
            let c = copy_bytes(&w[i]);
            assert(c@ == w@[i as int]@);
            let ghost before = args@;
            args.push(c);
            i = i + 1;
            proof {
                assert(args@ == before.push(c));
                assert(bytes_view(before).len() == before.len());
                assert(before.len() == i - 1);
                assert(args@.len() == i);
                assert forall|j: int| 0 <= j < i implies #[trigger] bytes_view(args@)[j] == bytes_view(
                    w@,
                )[j] by {
                    if j < i - 1 {
                        assert(bytes_view(before)[j] == bytes_view(w@).subrange(0, i - 1)[j]);
                        assert(bytes_view(args@)[j] == args@[j]@);
                        assert(args@[j] == before[j]);
                    } else {
                        assert(bytes_view(args@)[j] == args@[j]@);
                        assert(args@[j] == c);
                    }
                }
                assert(bytes_view(args@) =~= bytes_view(w@).subrange(0, i as int));
            }
        }
        let r = Script { code_hash, args };
        proof {
            assert(bytes_view(args@) =~= bytes_view(w@).drop_last());
        }
        Some(r)
    }
}

/// A transaction: its fingerprint, inputs, outputs, dependencies and witnesses.
#[derive(Clone, Debug, PartialEq, Eq)]
pub struct Transaction {
    pub hash: H256,
    pub inputs: Vec<CellInput>,
    pub outputs: Vec<CellOutput>,
    pub deps: Vec<OutPoint>,
    pub witnesses: Vec<Vec<Vec<u8>>>,
}

impl Transaction {
    /// A cellbase has one input, which spends the null out-point.
    pub open spec fn is_cellbase_spec(&self) -> bool {
        self.inputs@.len() == 1 && self.inputs@[0].previous_output.is_null_spec()
    }

    pub fn is_cellbase(&self) -> (r: bool)
        ensures
            r == self.is_cellbase_spec(),
    {
        self.inputs.len() == 1 && self.inputs[0].previous_output.is_null()
    }

    pub fn proposal_short_id(&self) -> (r: ProposalShortId)
        ensures
            r == short_id_of(self.hash),
    {
        ProposalShortId::from_tx_hash(&self.hash)
    }
}

/// A block header. Its fingerprint is computed outside and carried along.
#[derive(Clone, Copy, Debug, PartialEq, Eq, Structural, Hash)]
pub struct Header {
    pub hash: H256,
    pub parent_hash: H256,
    pub number: BlockNumber,
    pub timestamp: u64,
    pub difficulty: u128,
    pub nonce: u64,
    pub proposals_root: H256,
    pub txs_root: H256,
}

/// An uncle: its header and the ids that it proposed.
#[derive(Clone, Debug, PartialEq, Eq)]
pub struct UncleBlock {
    pub header: Header,
    pub proposals: Vec<ProposalShortId>,
}

/// A block: header, transactions (the first is the cellbase), proposed ids
/// and uncles.
#[derive(Clone, Debug, PartialEq, Eq)]
pub struct Block {
    pub header: Header,
    pub transactions: Vec<Transaction>,
    pub proposals: Vec<ProposalShortId>,
    pub uncles: Vec<UncleBlock>,
}

/// Metadata derived for each stored block.
#[derive(Clone, Copy, Debug, PartialEq, Eq, Structural, Hash)]
pub struct BlockExt {
    pub total_difficulty: u128,
    pub total_uncles_count: u64,
    pub received_at: u64,
}

/// Which outputs of a transaction are spent, as of one output root.
#[derive(Clone, Debug, PartialEq, Eq)]
pub struct TransactionMeta {
    pub spent: Vec<bool>,
}

impl TransactionMeta {
    pub fn len(&self) -> (r: usize)
        ensures
            r == self.spent@.len(),
    {
        self.spent.len()
    }

    pub fn is_spent(&self, i: usize) -> (r: bool)
        requires
            i < self.spent@.len(),
        ensures
            r == self.spent@[i as int],
    {
        self.spent[i]
    }
}

/// What an out-point names: a live output, a spent one, or nothing known.
#[derive(Clone, Copy, Debug, PartialEq, Eq, Structural)]
pub enum CellStatus {
    Current(CellOutput),
    Old,
    Unknown,
}

/// A copy of `v`.
pub fn copy_vec<T: Copy>(v: &Vec<T>) -> (r: Vec<T>)
    ensures
        r@ == v@,
{
    let mut r: Vec<T> = Vec::new();
    let mut i: usize = 0;
    while i < v.len()
        invariant
            i <= v@.len(),
            r@ == v@.subrange(0, i as int),
        decreases v@.len() - i,
    {
        r.push(v[i]);
        i = i + 1;
        proof {
            assert(r@ =~= v@.subrange(0, i as int));
        }
    }
    proof {
        assert(r@ =~= v@);
    }
    r
}

/// A copy of the byte strings `v`.
pub fn copy_byte_strings(v: &Vec<Vec<u8>>) -> (r: Vec<Vec<u8>>)
    ensures
        bytes_view(r@) == bytes_view(v@),
{
    let mut r: Vec<Vec<u8>> = Vec::new();
    let mut i: usize = 0;
    while i < v.len()
        invariant
            i <= v@.len(),
            r@.len() == i,
            forall|j: int| 0 <= j < i ==> (#[trigger] r@[j])@ == v@[j]@,
        decreases v@.len() - i,
    {
        r.push(copy_bytes(&v[i]));
        i = i + 1;
    }
    proof {
        assert(bytes_view(r@) =~= bytes_view(v@));
    }
    r
}

/// A transaction as values: fingerprint, inputs, outputs, dependencies and
/// witnesses as byte strings.
pub ghost struct TxModel {
    pub hash: H256,
    pub inputs: Seq<CellInput>,
    pub outputs: Seq<CellOutput>,
    pub deps: Seq<OutPoint>,
    pub witnesses: Seq<Seq<Seq<u8>>>,
}

/// A block as values.
pub ghost struct BlockModel {
    pub header: Header,
    pub transactions: Seq<TxModel>,
    pub proposals: Seq<ProposalShortId>,
    pub uncles: Seq<(Header, Seq<ProposalShortId>)>,
}

impl Transaction {
    pub open spec fn model(&self) -> TxModel {
        TxModel {
            hash: self.hash,
            inputs: self.inputs@,
            outputs: self.outputs@,
            deps: self.deps@,
            witnesses: Seq::new(self.witnesses@.len(), |i: int| bytes_view(self.witnesses@[i]@)),
        }
    }

    /// A copy of the transaction.
    pub fn duplicate(&self) -> (r: Transaction)
        ensures
            r.model() == self.model(),
    {
        let mut witnesses: Vec<Vec<Vec<u8>>> = Vec::new();
        let mut i: usize = 0;
        while i < self.witnesses.len()
            invariant
                i <= self.witnesses@.len(),
                witnesses@.len() == i,
                forall|j: int| 0 <= j < i ==> bytes_view((#[trigger] witnesses@[j])@) == bytes_view(self.witnesses@[j]@),
            decreases self.witnesses@.len() - i,
        {
            witnesses.push(copy_byte_strings(&self.witnesses[i]));
            i = i + 1;
        }
        let r = Transaction {
            hash: self.hash,
            inputs: copy_vec(&self.inputs),
            outputs: copy_vec(&self.outputs),
            deps: copy_vec(&self.deps),
            witnesses,
        };
        proof {
            assert(r.model().witnesses =~= self.model().witnesses);
        }
        r
    }
}

impl Block {
    pub open spec fn model(&self) -> BlockModel {
        BlockModel {
            header: self.header,
            transactions: Seq::new(self.transactions@.len(), |i: int| self.transactions@[i].model()),
            proposals: self.proposals@,
            uncles: Seq::new(self.uncles@.len(), |i: int| (self.uncles@[i].header, self.uncles@[i].proposals@)),
        }
    }

    /// A copy of the block.
    pub fn duplicate(&self) -> (r: Block)
        ensures
            r.model() == self.model(),
    {
        let mut transactions: Vec<Transaction> = Vec::new();
        let mut i: usize = 0;
        while i < self.transactions.len()
            invariant
                i <= self.transactions@.len(),
                transactions@.len() == i,
                forall|j: int| 0 <= j < i ==> (#[trigger] transactions@[j]).model() == self.transactions@[j].model(),
            decreases self.transactions@.len() - i,
        {
            transactions.push(self.transactions[i].duplicate());
            i = i + 1;
        }
        let mut uncles: Vec<UncleBlock> = Vec::new();
        let mut k: usize = 0;
        while k < self.uncles.len()
            invariant
                k <= self.uncles@.len(),
                uncles@.len() == k,
                forall|j: int|
                    0 <= j < k ==> (#[trigger] uncles@[j]).header == self.uncles@[j].header && uncles@[j].proposals@
                        == self.uncles@[j].proposals@,
            decreases self.uncles@.len() - k,
        {
            uncles.push(UncleBlock { header: self.uncles[k].header, proposals: copy_vec(&self.uncles[k].proposals) });
            k = k + 1;
        }
        let r = Block { header: self.header, transactions, proposals: copy_vec(&self.proposals), uncles };
        proof {
            assert(r.model().transactions =~= self.model().transactions);
            assert(r.model().uncles =~= self.model().uncles);
        }
        r
    }
}

} // verus!
