//! Consensus among peers: the longest valid chain wins.

use crate::blockchain::{block_views, is_valid_chain, Block, Blockchain, LedgerView};
use crate::encoding::BlockView;
use vstd::prelude::*;

verus! {

/// What came back from one peer: its chain, or the reason why there is none.
#[derive(Debug)]
pub enum PeerReply {
    /// The peer's chain, first block to last.
    Chain(Vec<Block>),
    /// The peer could not be reached, or did not answer with success.
    FetchError,
    /// The peer's answer could not be read as a chain.
    FormatError,
}

impl View for PeerReply {
    type V = Option<Seq<BlockView>>;

    open spec fn view(&self) -> Option<Seq<BlockView>> {
        match self {
            PeerReply::Chain(chain) => Some(block_views(chain@)),
            PeerReply::FetchError => None,
            PeerReply::FormatError => None,
        }
    }
}

/// The views of a run of replies, in the same order.
pub open spec fn reply_views(replies: Seq<PeerReply>) -> Seq<Option<Seq<BlockView>>> {
    Seq::new(replies.len(), |i: int| replies[i]@)
}

/// Whether a reply can take the place of a chain of `length` blocks: it
/// holds a chain that is longer and that is valid.
pub open spec fn eligible(reply: Option<Seq<BlockView>>, length: nat, difficulty: u64) -> bool {
    match reply {
        Some(chain) => chain.len() > length && is_valid_chain(chain, difficulty),
        None => false,
    }
}

/// The length to beat once `best` has been found among `replies`.
pub open spec fn length_to_beat(
    replies: Seq<Option<Seq<BlockView>>>,
    best: Option<int>,
    own_length: nat,
) -> nat {
    match best {
        Some(j) => match replies[j] {
            Some(chain) => chain.len(),
            None => own_length,
        },
        None => own_length,
    }
}

/// The place of the reply that is kept after the first `n` replies were
/// looked at in turn: each reply that is eligible against the longest chain
/// so far takes over.
pub open spec fn best_after(
    replies: Seq<Option<Seq<BlockView>>>,
    n: nat,
    own_length: nat,
    difficulty: u64,
) -> Option<int>
    decreases n,
{
    if n == 0 {
        None
    } else {
        let before = best_after(replies, (n - 1) as nat, own_length, difficulty);
        if eligible(replies[n - 1], length_to_beat(replies, before, own_length), difficulty) {
            Some(n - 1)
        } else {
            before
        }
    }
}

/// The place of the reply whose chain is adopted, if any is.
pub open spec fn chosen(replies: Seq<Option<Seq<BlockView>>>, own_length: nat, difficulty: u64)
    -> Option<int> {
    best_after(replies, replies.len(), own_length, difficulty)
}

/// What is known of the reply kept after the first `n`: it is eligible
/// against the ledger's own chain, no eligible reply among them is longer,
/// and none before it is as long; and none is kept only where none is
/// eligible.
pub proof fn lemma_best_after(
    replies: Seq<Option<Seq<BlockView>>>,
    n: nat,
    own_length: nat,
    difficulty: u64,
)
    requires
        n <= replies.len(),
    ensures
        match best_after(replies, n, own_length, difficulty) {
            Some(j) => {
                &&& 0 <= j < n
                &&& eligible(replies[j], own_length, difficulty)
                &&& forall|k: int|
                    0 <= k < n && eligible(#[trigger] replies[k], own_length, difficulty)
                        ==> replies[k].unwrap().len() <= replies[j].unwrap().len()
                &&& forall|k: int|
                    0 <= k < j && eligible(#[trigger] replies[k], own_length, difficulty)
                        ==> replies[k].unwrap().len() < replies[j].unwrap().len()
            },
            None => forall|k: int|
                0 <= k < n ==> !eligible(#[trigger] replies[k], own_length, difficulty),
        },
    decreases n,
{
    if n > 0 {
        lemma_best_after(replies, (n - 1) as nat, own_length, difficulty);
    }
}

/// A chain is adopted only where it is longer than the ledger's own and
/// valid; it is then as long as any reply that is both, and the first of
/// that length. Where no reply is both, none is adopted.
pub proof fn lemma_chosen(
    replies: Seq<Option<Seq<BlockView>>>,
    own_length: nat,
    difficulty: u64,
)
    ensures
        match chosen(replies, own_length, difficulty) {
            Some(j) => {
                &&& 0 <= j < replies.len()
                &&& replies[j] matches Some(chain)
                &&& chain.len() > own_length
                &&& is_valid_chain(chain, difficulty)
                &&& forall|k: int|
                    0 <= k < replies.len() && eligible(
                        #[trigger] replies[k],
                        own_length,
                        difficulty,
                    ) ==> replies[k].unwrap().len() <= chain.len()
                &&& forall|k: int|
                    0 <= k < j && eligible(#[trigger] replies[k], own_length, difficulty)
                        ==> replies[k].unwrap().len() < chain.len()
            },
            None => forall|k: int|
                0 <= k < replies.len() ==> !eligible(
                    #[trigger] replies[k],
                    own_length,
                    difficulty,
                ),
        },
{
    lemma_best_after(replies, replies.len(), own_length, difficulty);
}

/// The consensus routine.
pub struct Consensus;

impl Consensus {
    /// Looks at the peers' replies in turn and adopts the longest valid
    /// chain among them, if it is longer than the ledger's own; says whether
    /// the chain was replaced. Replies without a chain are passed over.
    pub fn resolve_conflicts(blockchain: &mut Blockchain, replies: Vec<PeerReply>) -> (replaced:
        bool)
        requires
            old(blockchain).wf(),
        ensures
            final(blockchain).wf(),
            match chosen(
                reply_views(replies@),
                old(blockchain)@.chain.len(),
                old(blockchain)@.difficulty,
            ) {
                Some(j) => replaced && final(blockchain)@ == (LedgerView {
                    chain: reply_views(replies@)[j].unwrap(),
                    ..old(blockchain)@
                }),
                None => !replaced && final(blockchain)@ == old(blockchain)@,
            },
    {
        let mut replies = replies;
        let ghost views = reply_views(replies@);
        let ghost own_length = blockchain@.chain.len();
        let ghost difficulty = blockchain@.difficulty;
        let mut best: Option<usize> = None;
        let mut max_length: usize = blockchain.len();
        let mut i: usize = 0;
        while i < replies.len()
            invariant
                0 <= i <= replies@.len(),
                views == reply_views(replies@),
                difficulty == blockchain@.difficulty,
                match best {
                    Some(j) => j < i && best_after(views, i as nat, own_length, difficulty) == Some(
                        j as int,
                    ),
                    None => best_after(views, i as nat, own_length, difficulty) == None::<int>,
                },
                max_length == length_to_beat(
                    views,
                    best_after(views, i as nat, own_length, difficulty),
                    own_length,
                ),
            decreases replies@.len() - i,
        {
            assert(views[i as int] == replies@[i as int]@);
            match &replies[i] {
                PeerReply::Chain(chain) => {
                    if chain.len() > max_length && blockchain.valid_chain(chain) {
                        max_length = chain.len();
                        best = Some(i);
                    }
                },
                _ => {},
            }
            i += 1;
        }
        proof {
            lemma_best_after(views, views.len(), own_length, difficulty);
        }
        match best {
            Some(j) => {
                assert(views[j as int] == replies@[j as int]@);
                match replies.remove(j) {
                    PeerReply::Chain(longest_chain) => {
                        blockchain.replace(longest_chain);
                        true
                    },
                    _ => false,
                }
            },
            None => false,
        }
    }
}

} // verus!
