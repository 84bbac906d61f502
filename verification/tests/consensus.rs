use pow_ledger::blockchain::{Block, Blockchain};
use pow_ledger::consensus::{Consensus, PeerReply};
use pow_ledger::transaction::Transaction;

fn mined_chain(blocks: usize) -> Vec<Block> {
    let mut ledger = Blockchain::new_with(1);
    for i in 1..blocks {
        ledger.new_transaction(Transaction::new("a".into(), "b".into(), i as u64));
        ledger.mine().expect("mined");
    }
    ledger.chain().clone()
}

#[test]
fn longer_valid_chain_replaces() {
    let mut ledger = Blockchain::new_with(1);
    let candidate = mined_chain(3);
    let last_hash = candidate[2].previous_hash.clone();
    let replaced = Consensus::resolve_conflicts(&mut ledger, vec![PeerReply::Chain(candidate)]);
    assert!(replaced);
    assert_eq!(ledger.len(), 3);
    assert_eq!(ledger.last_block().previous_hash, last_hash);
}

#[test]
fn longer_invalid_chain_does_not_replace() {
    let mut ledger = Blockchain::new_with(1);
    let own_timestamp = ledger.last_block().timestamp;
    let mut candidate = mined_chain(3);
    candidate[1].previous_hash = String::from("abc");
    let replaced = Consensus::resolve_conflicts(&mut ledger, vec![PeerReply::Chain(candidate)]);
    assert!(!replaced);
    assert_eq!(ledger.len(), 1);
    assert_eq!(ledger.last_block().timestamp, own_timestamp);
}

#[test]
fn chain_with_failed_proof_does_not_replace() {
    let mut ledger = Blockchain::new_with(3);
    let candidate = mined_chain(2);
    let replaced = Consensus::resolve_conflicts(&mut ledger, vec![PeerReply::Chain(candidate)]);
    assert!(!replaced);
    assert_eq!(ledger.len(), 1);
}

#[test]
fn equal_or_shorter_chain_does_not_replace() {
    let mut ledger = Blockchain::new_with(1);
    ledger.mine().expect("mined");
    let own_hash = ledger.hash_last_block();
    let replies = vec![PeerReply::Chain(mined_chain(2)), PeerReply::Chain(mined_chain(1))];
    assert!(!Consensus::resolve_conflicts(&mut ledger, replies));
    assert_eq!(ledger.len(), 2);
    assert_eq!(ledger.hash_last_block(), own_hash);
}

#[test]
fn failed_peers_are_passed_over() {
    let mut ledger = Blockchain::new_with(1);
    let replies = vec![
        PeerReply::FetchError,
        PeerReply::Chain(mined_chain(2)),
        PeerReply::FormatError,
    ];
    assert!(Consensus::resolve_conflicts(&mut ledger, replies));
    assert_eq!(ledger.len(), 2);
    let mut ledger = Blockchain::new_with(1);
    assert!(!Consensus::resolve_conflicts(
        &mut ledger,
        vec![PeerReply::FetchError, PeerReply::FormatError]
    ));
    assert!(!Consensus::resolve_conflicts(&mut ledger, Vec::new()));
    assert_eq!(ledger.len(), 1);
}

#[test]
fn first_of_the_longest_chains_wins() {
    let mut ledger = Blockchain::new_with(1);
    let mut first = mined_chain(3);
    first[2].timestamp = 11;
    let mut second = mined_chain(3);
    second[2].timestamp = 22;
    let mut longest = mined_chain(4);
    longest[3].timestamp = 33;
    let mut also_longest = mined_chain(4);
    also_longest[3].timestamp = 44;
    let replies = vec![
        PeerReply::Chain(mined_chain(2)),
        PeerReply::Chain(first),
        PeerReply::Chain(second),
        PeerReply::Chain(longest),
        PeerReply::Chain(also_longest),
    ];
    assert!(Consensus::resolve_conflicts(&mut ledger, replies));
    assert_eq!(ledger.len(), 4);
    assert_eq!(ledger.last_block().timestamp, 33);
}

#[test]
fn peers_and_pending_survive_a_replacement() {
    let mut ledger = Blockchain::new_with(1);
    ledger.new_transaction(Transaction::new("a".into(), "b".into(), 100));
    ledger.register_node(url::Url::parse("http://localhost:9000").expect("valid url"));
    assert!(Consensus::resolve_conflicts(&mut ledger, vec![PeerReply::Chain(mined_chain(2))]));
    assert_eq!(ledger.current_transactions().len(), 1);
    assert_eq!(ledger.nodes().len(), 1);
    assert_eq!(ledger.difficulty(), 1);
}
