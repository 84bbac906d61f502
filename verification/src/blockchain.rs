//! The ledger: its blocks, the pending transactions, the known peers, and
//! the rules by which a chain of blocks is judged.

use crate::digest::{
    decimal, digest_has_zero_prefix, has_zero_prefix, hash_bytes, hex_text, push_decimal,
    push_signed_decimal, sha256_digest,
};
use crate::encoding::{
    canonical_hash, encode_block, encode_blocks, push_json_string, push_text, push_transactions,
    BlockView,
};
use crate::transaction::{
    insert_transaction, lemma_with_transaction_holds, lemma_with_transaction_sorted, sorted,
    transaction_views, with_transaction, Transaction, TransactionView,
};
use vstd::prelude::*;
use vstd::string::*;

verus! {

/// A bundle of transactions with its place in the chain, the time it was
/// made, the solved puzzle value and the hash of the block before it.
#[derive(Debug, Clone, PartialEq, Eq, PartialOrd, Ord)]
pub struct Block {
    pub index: usize,
    pub timestamp: i64,
    pub proof: u64,
    pub previous_hash: String,
    pub transactions: Vec<Transaction>,
}

impl View for Block {
    type V = BlockView;

    open spec fn view(&self) -> BlockView {
        BlockView {
            index: self.index,
            timestamp: self.timestamp,
            proof: self.proof,
            previous_hash: self.previous_hash@,
            transactions: transaction_views(self.transactions@),
        }
    }
}

/// The views of a run of blocks, in the same order.
pub open spec fn block_views(bs: Seq<Block>) -> Seq<BlockView> {
    Seq::new(bs.len(), |i: int| bs[i]@)
}

/// The views of a run of texts, in the same order.
pub open spec fn text_views(ts: Seq<String>) -> Seq<Seq<char>> {
    Seq::new(ts.len(), |i: int| ts[i]@)
}

/// The bytes that are hashed to judge `proof` against `last_proof`: the two
/// decimal numerals, one after the other.
pub open spec fn proof_guess(last_proof: u64, proof: u64) -> Seq<u8> {
    decimal(last_proof as nat) + decimal(proof as nat)
}

/// Whether `proof` solves the puzzle that `last_proof` sets: the hash of the
/// guess begins with `difficulty` zeros.
pub open spec fn is_valid_proof(last_proof: u64, proof: u64, difficulty: u64) -> bool {
    has_zero_prefix(hex_text(sha256_digest(proof_guess(last_proof, proof))), difficulty as nat)
}

/// Whether `proof` is the smallest solution of the puzzle.
pub open spec fn is_least_proof(last_proof: u64, proof: u64, difficulty: u64) -> bool {
    &&& is_valid_proof(last_proof, proof, difficulty)
    &&& forall|q: u64| q < proof ==> !is_valid_proof(last_proof, q, difficulty)
}

/// Whether the puzzle has a solution among the 64-bit numbers.
pub open spec fn solvable(last_proof: u64, difficulty: u64) -> bool {
    exists|q: u64| is_valid_proof(last_proof, q, difficulty)
}

/// Whether `cur` names the hash of `prev` as its previous hash.
pub open spec fn hash_linked(prev: BlockView, cur: BlockView) -> bool {
    cur.previous_hash == canonical_hash(prev)
}

/// Whether the proof of `cur` solves the puzzle that the proof of `prev` sets.
pub open spec fn proof_linked(prev: BlockView, cur: BlockView, difficulty: u64) -> bool {
    is_valid_proof(prev.proof, cur.proof, difficulty)
}

/// Whether every block of `chain` but the first is linked to the one before
/// it, by hash and by proof.
pub open spec fn is_valid_chain(chain: Seq<BlockView>, difficulty: u64) -> bool {
    forall|i: int|
        #![trigger chain[i]]
        0 < i < chain.len() ==> hash_linked(chain[i - 1], chain[i]) && proof_linked(
            chain[i - 1],
            chain[i],
            difficulty,
        )
}

/// `nodes` with `address` added at the end unless it is already there.
pub open spec fn with_node(nodes: Seq<Seq<char>>, address: Seq<char>) -> Seq<Seq<char>> {
    if nodes.contains(address) {
        nodes
    } else {
        nodes.push(address)
    }
}

/// The transaction that pays the node for a mined block.
pub open spec fn reward() -> TransactionView {
    TransactionView { sender: "0"@, recipient: "my node address"@, amount: 1 }
}

/// Whether `l` is a ledger as it is first made: the genesis block alone, no
/// pending transaction and no peer.
pub open spec fn is_fresh(l: LedgerView, difficulty: u64) -> bool {
    &&& l.chain.len() == 1
    &&& l.chain[0].index == 1
    &&& l.chain[0].proof == 100
    &&& l.chain[0].previous_hash == "Genesis block."@
    &&& l.chain[0].transactions == Seq::<TransactionView>::empty()
    &&& l.pending == Seq::<TransactionView>::empty()
    &&& l.nodes == Seq::<Seq<char>>::empty()
    &&& l.difficulty == difficulty
}

/// Whether mining on the ledger `before` gives `block` and leaves the
/// ledger `after`: the block carries the least proof for the puzzle of the
/// last block, that block's hash, and the pending transactions with the
/// reward; it stands at the end of the chain, and nothing is left pending.
pub open spec fn mines(before: LedgerView, block: BlockView, after: LedgerView) -> bool {
    &&& is_least_proof(before.chain.last().proof, block.proof, before.difficulty)
    &&& block.index == before.chain.len() + 1
    &&& block.previous_hash == canonical_hash(before.chain.last())
    &&& block.transactions == with_transaction(before.pending, reward())
    &&& after == (LedgerView {
        chain: before.chain.push(block),
        pending: Seq::empty(),
        ..before
    })
}

/// A transaction that is submitted and then mined is in the new block, with
/// the reward and with what was pending before, and with nothing else; and
/// nothing is left pending.
pub proof fn lemma_submit_then_mine(
    start: LedgerView,
    t: TransactionView,
    submitted: LedgerView,
    block: BlockView,
    mined: LedgerView,
)
    requires
        sorted(start.pending),
        submitted == (LedgerView { pending: with_transaction(start.pending, t), ..start }),
        mines(submitted, block, mined),
    ensures
        sorted(block.transactions),
        mined.pending.len() == 0,
        mined.chain.last() == block,
        mined.chain.len() == start.chain.len() + 1,
        forall|x: TransactionView|
            block.transactions.contains(x) <==> start.pending.contains(x) || x == t || x
                == reward(),
{
    let a = with_transaction(start.pending, t);
    let b = with_transaction(a, reward());
    lemma_with_transaction_sorted(start.pending, t);
    lemma_with_transaction_sorted(a, reward());
    assert forall|x: TransactionView| a.contains(x) <==> start.pending.contains(x) || x == t by {
        lemma_with_transaction_holds(start.pending, t, x);
    }
    assert forall|x: TransactionView| b.contains(x) <==> a.contains(x) || x == reward() by {
        lemma_with_transaction_holds(a, reward(), x);
    }
}

/// Mining keeps a valid chain valid: the new block is linked to the last
/// one by hash and by proof, so mining and validation never disagree.
pub proof fn lemma_mine_keeps_chain_valid(before: LedgerView, block: BlockView, after: LedgerView)
    requires
        before.chain.len() >= 1,
        is_valid_chain(before.chain, before.difficulty),
        mines(before, block, after),
    ensures
        is_valid_chain(after.chain, after.difficulty),
{
    let chain = after.chain;
    assert forall|i: int| 0 < i < chain.len() implies hash_linked(#[trigger] chain[i - 1], chain[i])
        && proof_linked(chain[i - 1], chain[i], after.difficulty) by {
        if i < before.chain.len() {
            assert(chain[i] == before.chain[i]);
            assert(chain[i - 1] == before.chain[i - 1]);
        } else {
            assert(chain[i] == block);
            assert(chain[i - 1] == before.chain.last());
        }
    }
}

/// Whether the blocks of `chain` are numbered from one upward without a gap.
pub open spec fn sequential(chain: Seq<BlockView>) -> bool {
    forall|i: int| 0 <= i < chain.len() ==> (#[trigger] chain[i]).index == i + 1
}

/// A ledger as it is first made has its one block numbered one.
pub proof fn lemma_fresh_chain_sequential(fresh: LedgerView, difficulty: u64)
    requires
        is_fresh(fresh, difficulty),
    ensures
        sequential(fresh.chain),
{
}

/// Mining goes on numbering without a gap: each index is used once, and
/// they rise along the chain.
pub proof fn lemma_mine_keeps_chain_sequential(
    before: LedgerView,
    block: BlockView,
    after: LedgerView,
)
    requires
        sequential(before.chain),
        mines(before, block, after),
    ensures
        sequential(after.chain),
{
}

/// A chain of at most one block is valid at every difficulty.
pub proof fn lemma_short_chain_valid(chain: Seq<BlockView>, difficulty: u64)
    requires
        chain.len() <= 1,
    ensures
        is_valid_chain(chain, difficulty),
{
}

/// Registering an address a second time changes nothing: the peers are the
/// same, and as many, as after the first time.
pub proof fn lemma_register_node_idempotent(nodes: Seq<Seq<char>>, address: Seq<char>)
    ensures
        with_node(with_node(nodes, address), address) == with_node(nodes, address),
        with_node(with_node(nodes, address), address).len() == with_node(nodes, address).len(),
        with_node(nodes, address).contains(address),
{
    if !nodes.contains(address) {
        assert(nodes.push(address)[nodes.len() as int] == address);
    }
}

/// A chain in which some block after the first names another hash than
/// that of the block before it is not valid, whatever the difficulty.
pub proof fn lemma_tampered_hash_rejected(chain: Seq<BlockView>, i: int, difficulty: u64)
    requires
        0 < i < chain.len(),
        chain[i].previous_hash != canonical_hash(chain[i - 1]),
    ensures
        !is_valid_chain(chain, difficulty),
{
    assert(!hash_linked(chain[i - 1], chain[i]));
}

/// A chain in which the proofs of two neighbours fail the puzzle at the
/// given difficulty is not valid, however its hashes are linked.
pub proof fn lemma_failed_proof_rejected(chain: Seq<BlockView>, i: int, difficulty: u64)
    requires
        0 < i < chain.len(),
        !is_valid_proof(chain[i - 1].proof, chain[i].proof, difficulty),
    ensures
        !is_valid_chain(chain, difficulty),
{
    assert(!proof_linked(chain[i - 1], chain[i], difficulty));
}

/// Two blocks with the same fields have the same encoding and the same
/// canonical hash.
pub proof fn lemma_hash_deterministic(a: Block, b: Block)
    requires
        a@ == b@,
    ensures
        encode_block(a@) == encode_block(b@),
        canonical_hash(a@) == canonical_hash(b@),
{
}

/// What a ledger holds, as plain values.
pub ghost struct LedgerView {
    pub chain: Seq<BlockView>,
    pub pending: Seq<TransactionView>,
    pub nodes: Seq<Seq<char>>,
    pub difficulty: u64,
}

/// A node's ledger: the chain of blocks, the transactions that wait for the
/// next block, the addresses of the peers, and the difficulty of the puzzle.
#[derive(Debug)]
pub struct Blockchain {
    chain: Vec<Block>,
    current_transactions: Vec<Transaction>,
    nodes: Vec<String>,
    difficulty: u64,
}

/// `url::Url`, a peer's address as it is handed in. Nothing inside it is
/// visible here; the ledger keeps its text.
#[verifier::external_type_specification]
#[verifier::external_body]
pub struct ExUrl(url::Url);

/// The text of a URL: its serialization, by which two URLs are compared.
pub uninterp spec fn url_text(address: url::Url) -> Seq<char>;

/// Turns a URL into its text through `String::from`, which `url` implements
/// for `Url`. Trusted: the result is the URL's serialization.
#[verifier::external_body]
fn url_into_string(address: url::Url) -> (text: String)
    ensures
        text@ == url_text(address),
{
    String::from(address)
}

/// Reads the clock through `chrono::offset::Utc::now` and gives the seconds
/// since the epoch. Trusted, and nothing is claimed of the value. The call
/// panics where the system clock stands before the epoch.
#[verifier::external_body]
fn unix_time_now() -> i64 {
    chrono::offset::Utc::now().timestamp()
}

/// Appends the canonical encoding of `block` to `out`.
pub fn push_block(out: &mut Vec<u8>, block: &Block)
    ensures
        final(out)@ == old(out)@ + encode_block(block@),
{
    push_text(out, "{\"index\":");
    push_decimal(out, block.index as u64);
    push_text(out, ",\"timestamp\":");
    push_signed_decimal(out, block.timestamp);
    push_text(out, ",\"proof\":");
    push_decimal(out, block.proof);
    push_text(out, ",\"previous_hash\":");
    push_json_string(out, block.previous_hash.as_str());
    push_text(out, ",\"transactions\":[");
    push_transactions(out, &block.transactions);
    push_text(out, "]}");
    assert(final(out)@ =~= old(out)@ + encode_block(block@));
}

/// The canonical encoding of `block`.
pub fn encode(block: &Block) -> (out: Vec<u8>)
    ensures
        out@ == encode_block(block@),
{
    let mut out: Vec<u8> = Vec::new();
    push_block(&mut out, block);
    assert(out@ =~= encode_block(block@));
    out
}

/// The encoding of `chain` as peers exchange it.
pub fn encode_chain(chain: &Vec<Block>) -> (out: Vec<u8>)
    ensures
        out@ == crate::encoding::encode_chain(block_views(chain@)),
{
    let ghost views = block_views(chain@);
    let mut out: Vec<u8> = Vec::new();
    out.push(0x5b);
    let mut i: usize = 0;
    while i < chain.len()
        invariant
            0 <= i <= chain@.len(),
            views == block_views(chain@),
            out@ == seq![0x5bu8] + encode_blocks(views.take(i as int)),
        decreases chain@.len() - i,
    {
        if i > 0 {
            out.push(0x2c);
        }
        push_block(&mut out, &chain[i]);
        proof {
            let next = views.take(i + 1);
            assert(next.drop_last() =~= views.take(i as int));
            assert(next.last() == chain@[i as int]@);
            if i == 0 {
                assert(next[0] == chain@[0]@);
                assert(encode_blocks(views.take(0)) =~= Seq::<u8>::empty());
            }
            assert(out@ =~= seq![0x5bu8] + encode_blocks(next));
        }
        i += 1;
    }
    assert(views.take(i as int) =~= views);
    out.push(0x5d);
    out
}

/// The canonical hash of `block`, as hexadecimal text.
pub fn block_hash(block: &Block) -> (hash: String)
    ensures
        hash@ == canonical_hash(block@),
{
    let bytes = encode(block);
    hash_bytes(bytes.as_slice())
}

impl View for Blockchain {
    type V = LedgerView;

    closed spec fn view(&self) -> LedgerView {
        LedgerView {
            chain: block_views(self.chain@),
            pending: transaction_views(self.current_transactions@),
            nodes: text_views(self.nodes@),
            difficulty: self.difficulty,
        }
    }
}

/// Whether a ledger's state is in order: there is a first block, the pending
/// transactions are sorted, and no peer occurs twice.
pub open spec fn well_formed(l: LedgerView) -> bool {
    &&& l.chain.len() >= 1
    &&& sorted(l.pending)
    &&& forall|i: int, j: int| 0 <= i < j < l.nodes.len() ==> l.nodes[i] != l.nodes[j]
}

impl Blockchain {
    /// Whether this ledger's state is in order.
    pub open spec fn wf(&self) -> bool {
        well_formed(self@)
    }

    /// A ledger with the difficulty 3.
    pub fn new() -> (ledger: Blockchain)
        ensures
            ledger.wf(),
            is_fresh(ledger@, 3),
    {
        Self::new_with(3)
    }

    /// A ledger that holds the genesis block and nothing else.
    pub fn new_with(difficulty: u64) -> (ledger: Blockchain)
        ensures
            ledger.wf(),
            is_fresh(ledger@, difficulty),
    {
        let mut blockchain = Blockchain {
            chain: Vec::new(),
            current_transactions: Vec::new(),
            nodes: Vec::new(),
            difficulty,
        };
        let block = blockchain.create_block(100, "Genesis block.".to_owned());
        blockchain.chain.push(block);
        assert(blockchain@.chain =~= seq![block@]);
        assert(blockchain@.chain[0].transactions =~= Seq::<TransactionView>::empty());
        assert(blockchain@.pending =~= Seq::<TransactionView>::empty());
        assert(blockchain@.nodes =~= Seq::<Seq<char>>::empty());
        blockchain
    }

    /// Puts `transaction` at its place among the pending ones, unless one
    /// with the same fields waits already, and gives the index of the block
    /// that will hold it.
    pub fn new_transaction(&mut self, transaction: Transaction) -> (index: usize)
        requires
            old(self).wf(),
            old(self)@.chain.last().index < usize::MAX,
        ensures
            final(self).wf(),
            index == old(self)@.chain.last().index + 1,
            final(self)@ == (LedgerView {
                pending: with_transaction(old(self)@.pending, transaction@),
                ..old(self)@
            }),
    {
        insert_transaction(&mut self.current_transactions, transaction);
        self.last_block().index + 1
    }

    /// Mines a block: solves the puzzle set by the last block, adds the
    /// reward to the pending transactions and moves them all into a new
    /// block at the end of the chain. Where the puzzle has no solution the
    /// ledger stays as it is.
    pub fn mine(&mut self) -> (mined: Option<&Block>)
        requires
            old(self).wf(),
            old(self)@.chain.len() < usize::MAX,
        ensures
            final(self).wf(),
            match mined {
                Some(block) => mines(old(self)@, block@, final(self)@),
                None => !solvable(old(self)@.chain.last().proof, old(self)@.difficulty)
                    && final(self)@ == old(self)@,
            },
    {
        match self.new_block_proof() {
            None => None,
            Some(new_block_proof) => {
                let miner = Transaction::new("0".to_owned(), "my node address".to_owned(), 1);
                insert_transaction(&mut self.current_transactions, miner);
                assert(self@.chain == old(self)@.chain);
                assert(self@.nodes == old(self)@.nodes);
                let previous_hash = self.hash_last_block();
                let mined_block = self.new_block(new_block_proof, previous_hash);
                Some(mined_block)
            },
        }
    }

    /// The blocks, first to last.
    pub fn chain(&self) -> (chain: &Vec<Block>)
        ensures
            block_views(chain@) == self@.chain,
    {
        &self.chain
    }

    /// The transactions that wait for the next block, in rising order.
    pub fn current_transactions(&self) -> (pending: &Vec<Transaction>)
        ensures
            transaction_views(pending@) == self@.pending,
    {
        &self.current_transactions
    }

    /// The difficulty of the puzzle, fixed when the ledger was made.
    pub fn difficulty(&self) -> (difficulty: u64)
        ensures
            difficulty == self@.difficulty,
    {
        self.difficulty
    }

    /// Adds a peer's address, unless it is known already, and says whether
    /// it was added.
    pub fn register_node(&mut self, address: url::Url) -> (inserted: bool)
        requires
            old(self).wf(),
        ensures
            final(self).wf(),
            inserted == !old(self)@.nodes.contains(url_text(address)),
            final(self)@ == (LedgerView {
                nodes: with_node(old(self)@.nodes, url_text(address)),
                ..old(self)@
            }),
    {
        let text = url_into_string(address);
        let mut i: usize = 0;
        while i < self.nodes.len()
            invariant
                0 <= i <= self.nodes@.len(),
                *self == *old(self),
                self.wf(),
                text@ == url_text(address),
                forall|k: int| 0 <= k < i ==> self.nodes@[k]@ != text@,
            decreases self.nodes@.len() - i,
        {
            if self.nodes[i] == text {
                assert(text_views(self.nodes@)[i as int] == text@);
                return false;
            }
            i += 1;
        }
        let ghost before = text_views(self.nodes@);
        assert forall|k: int| 0 <= k < before.len() implies before[k] != text@ by {}
        self.nodes.push(text);
        assert(text_views(self.nodes@) =~= before.push(text@));
        true
    }

    /// The texts of the peers' addresses, in the order in which they were registered.
    pub fn nodes(&self) -> (nodes: &Vec<String>)
        ensures
            text_views(nodes@) == self@.nodes,
    {
        &self.nodes
    }

    /// Puts `new_chain` in the place of the chain, without judging it.
    pub fn replace(&mut self, new_chain: Vec<Block>)
        requires
            old(self).wf(),
            new_chain@.len() >= 1,
        ensures
            final(self).wf(),
            final(self)@ == (LedgerView { chain: block_views(new_chain@), ..old(self)@ }),
    {
        self.chain = new_chain;
    }

    /// The number of blocks.
    pub fn len(&self) -> (n: usize)
        ensures
            n == self@.chain.len(),
    {
        self.chain.len()
    }

    /// Makes the next block from the pending transactions, stamped with the
    /// time given, and leaves none pending.
    pub fn create_block_at(&mut self, proof: u64, previous_hash: String, timestamp: i64) -> (block:
        Block)
        requires
            old(self)@.chain.len() < usize::MAX,
        ensures
            block@ == (BlockView {
                index: (old(self)@.chain.len() + 1) as usize,
                timestamp,
                proof,
                previous_hash: previous_hash@,
                transactions: old(self)@.pending,
            }),
            final(self)@ == (LedgerView { pending: Seq::empty(), ..old(self)@ }),
    {
        let mut txns: Vec<Transaction> = Vec::new();
        txns.append(&mut self.current_transactions);
        assert(txns@ =~= old(self).current_transactions@);
        assert(transaction_views(self.current_transactions@) =~= Seq::empty());
        Block { index: self.chain.len() + 1, timestamp, proof, previous_hash, transactions: txns }
    }

    /// Makes the next block from the pending transactions, stamped with the
    /// current time, and leaves none pending.
    pub fn create_block(&mut self, proof: u64, previous_hash: String) -> (block: Block)
        requires
            old(self)@.chain.len() < usize::MAX,
        ensures
            block@ == (BlockView {
                index: (old(self)@.chain.len() + 1) as usize,
                timestamp: block@.timestamp,
                proof,
                previous_hash: previous_hash@,
                transactions: old(self)@.pending,
            }),
            final(self)@ == (LedgerView { pending: Seq::empty(), ..old(self)@ }),
    {
        let timestamp = unix_time_now();
        self.create_block_at(proof, previous_hash, timestamp)
    }

    /// Makes the next block from the pending transactions and puts it at
    /// the end of the chain.
    pub fn new_block(&mut self, proof: u64, previous_hash: String) -> (block: &Block)
        requires
            old(self)@.chain.len() < usize::MAX,
        ensures
            block@ == (BlockView {
                index: (old(self)@.chain.len() + 1) as usize,
                timestamp: block@.timestamp,
                proof,
                previous_hash: previous_hash@,
                transactions: old(self)@.pending,
            }),
            final(self)@ == (LedgerView {
                chain: old(self)@.chain.push(block@),
                pending: Seq::empty(),
                ..old(self)@
            }),
    {
        let block = self.create_block(proof, previous_hash);
        let ghost before = block_views(self.chain@);
        self.chain.push(block);
        assert(block_views(self.chain@) =~= before.push(block@));
        let n = self.chain.len();
        &self.chain[n - 1]
    }

    /// The last block of the chain.
    pub fn last_block(&self) -> (block: &Block)
        requires
            self.wf(),
        ensures
            block@ == self@.chain.last(),
    {
        let n = self.chain.len();
        &self.chain[n - 1]
    }

    /// The least proof that solves the puzzle set by the last block.
    pub fn new_block_proof(&self) -> (r: Option<u64>)
        requires
            self.wf(),
        ensures
            match r {
                Some(p) => is_least_proof(self@.chain.last().proof, p, self@.difficulty),
                None => !solvable(self@.chain.last().proof, self@.difficulty),
            },
    {
        let last_block = self.last_block();
        let last_proof = last_block.proof;
        Self::proof_of_work(last_proof, self.difficulty)
    }

    /// The hash of the last block.
    pub fn hash_last_block(&self) -> (hash: String)
        requires
            self.wf(),
        ensures
            hash@ == canonical_hash(self@.chain.last()),
    {
        block_hash(self.last_block())
    }

    /// The hash of `block`: the digest of its canonical encoding. It never
    /// fails.
    pub fn hash(block: &Block) -> (r: Result<String, String>)
        ensures
            r matches Ok(h) && h@ == canonical_hash(block@),
    {
        Ok(block_hash(block))
    }

    /// Whether `proof` solves the puzzle that `last_proof` sets.
    pub fn valid_proof(last_proof: u64, proof: u64, difficulty: u64) -> (r: bool)
        ensures
            r == is_valid_proof(last_proof, proof, difficulty),
    {
        let mut guess: Vec<u8> = Vec::new();
        push_decimal(&mut guess, last_proof);
        push_decimal(&mut guess, proof);
        assert(guess@ =~= proof_guess(last_proof, proof));
        digest_has_zero_prefix(guess.as_slice(), difficulty)
    }

    /// Searches the 64-bit numbers from zero upward for the first that solves
    /// the puzzle; `None` where none of them does.
    pub fn proof_of_work(last_proof: u64, difficulty: u64) -> (r: Option<u64>)
        ensures
            match r {
                Some(p) => is_least_proof(last_proof, p, difficulty),
                None => !solvable(last_proof, difficulty),
            },
    {
        let mut proof: u64 = 0;
        loop
            invariant
                forall|q: u64| q < proof ==> !is_valid_proof(last_proof, q, difficulty),
            decreases u64::MAX - proof,
        {
            if Self::valid_proof(last_proof, proof, difficulty) {
                return Some(proof);
            }
            if proof == u64::MAX {
                return None;
            }
            proof += 1;
        }
    }

    /// Whether `current_block` names the hash of `previous_block`.
    pub fn check_hash(previous_block: &Block, current_block: &Block) -> (r: bool)
        ensures
            r == hash_linked(previous_block@, current_block@),
    {
        let previous_block_hash = block_hash(previous_block);
        current_block.previous_hash == previous_block_hash
    }

    /// Whether the proof of `current_block` solves the puzzle set by the
    /// proof of `previous_block`.
    pub fn check_proof(previous_block: &Block, current_block: &Block, difficulty: u64) -> (r: bool)
        ensures
            r == proof_linked(previous_block@, current_block@, difficulty),
    {
        Self::valid_proof(previous_block.proof, current_block.proof, difficulty)
    }

    /// Whether `chain` is linked throughout, judged at this ledger's
    /// difficulty. A chain of at most one block is valid.
    pub fn valid_chain(&self, chain: &Vec<Block>) -> (r: bool)
        ensures
            r == is_valid_chain(block_views(chain@), self@.difficulty),
    {
        let ghost views = block_views(chain@);
        let mut i: usize = 1;
        while i < chain.len()
            invariant
                1 <= i,
                views == block_views(chain@),
                forall|k: int|
                    #![trigger views[k]]
                    0 < k < i && k < views.len() ==> hash_linked(views[k - 1], views[k])
                        && proof_linked(views[k - 1], views[k], self.difficulty),
            decreases chain@.len() - i,
        {
            let previous_block = &chain[i - 1];
            let block = &chain[i];
            assert(views[i - 1] == previous_block@ && views[i as int] == block@);
            if !Self::check_hash(previous_block, block) || !Self::check_proof(
                previous_block,
                block,
                self.difficulty,
            ) {
                return false;
            }
            i += 1;
        }
        true
    }
}

} // verus!
