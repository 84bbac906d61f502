use pow_ledger::blockchain::{encode, encode_chain, Block, Blockchain};
use pow_ledger::transaction::Transaction;
use url::Url;

#[test]
fn new_transaction() {
    let mut blockchain = Blockchain::new();
    let txn = Transaction::new(String::from("a"), String::from("b"), 100);
    let _idx = blockchain.new_transaction(txn);
    let last_txn = blockchain.current_transactions().iter().next_back().expect("expected a txn");
    assert_eq!(last_txn.sender, String::from("a"));
    assert_eq!(last_txn.recipient, String::from("b"));
    assert_eq!(last_txn.amount, 100);
}

#[test]
fn new_block() {
    let mut blockchain = Blockchain::new();
    let txn = Transaction::new(String::from("a"), String::from("b"), 100);
    blockchain.new_transaction(txn);

    let a = blockchain.current_transactions().len();
    assert_eq!(1, a, "1 transaction");

    blockchain.new_block(2, String::from("abc"));

    let b = blockchain.current_transactions().len();
    assert_eq!(0, b, "New block should clear transactions (which were on the previous block");
}

#[test]
fn hash() {
    let mut blockchain = Blockchain::new();
    blockchain.new_block(2, String::from("abc"));
    let block = blockchain.last_block();
    let hash = Blockchain::hash(block);
    let hash2 = Blockchain::hash(block);
    println!("{:?}", hash);
    assert!(hash.is_ok());
    assert_eq!(hash.unwrap(), hash2.unwrap(), "Expected same block to hash to the same value");
}

#[test]
fn valid_proof_false() {
    assert_eq!(Blockchain::valid_proof(100, 1, 3), false);
}

#[test]
fn proof_of_work() {
    let blockchain = Blockchain::new();
    println!("Starting proof of work... (long running)");
    let proof = blockchain.new_block_proof().expect("a proof");
    println!("Finished proof of work: {}", proof);
    assert!(proof > 1, "expected a higher proof");
    assert!(Blockchain::valid_proof(100, proof, 3));
}

#[test]
fn chain() {
    let mut blockchain = Blockchain::new();

    assert_eq!(blockchain.chain().len(), 1, "Expected 1 block (genesis)");
    blockchain.new_block(100, "abc".into());
    assert_eq!(blockchain.chain().len(), 2, "Expected 2 blocks");
}

#[test]
fn register_node() {
    let mut blockchain = Blockchain::new();
    let test_local_url = Url::parse("http://localhost:9000").expect("valid url");
    blockchain.register_node(test_local_url.clone());
    assert_eq!(blockchain.nodes().len(), 1, "Expected 1 node");
    blockchain.register_node(test_local_url);
    assert_eq!(blockchain.nodes().len(), 1, "Expected 1 node after dupe add (idempotent)");
}

#[test]
fn valid_chain_invalid_hash() {
    let mut blockchain = Blockchain::new();
    let txn = Transaction::new(String::from("a"), String::from("b"), 100);
    blockchain.new_transaction(txn);
    //invalid hash
    blockchain.new_block(2, String::from("abc"));
    assert!(!blockchain.valid_chain(blockchain.chain()), "blockchain not valid (hash mismatch)");
}

#[test]
fn valid_chain_invalid_proof() {
    let mut blockchain = Blockchain::new();
    let txn = Transaction::new(String::from("a"), String::from("b"), 100);
    blockchain.new_transaction(txn);
    //valid hash, invalid proof
    let hash = blockchain.hash_last_block();
    blockchain.new_block(2, hash);

    assert!(!blockchain.valid_chain(blockchain.chain()), "blockchain not valid (proof mismatch)");
}

#[test]
fn valid_chain_ok() {
    let mut blockchain = Blockchain::new();
    let txn = Transaction::new(String::from("a"), String::from("b"), 100);
    blockchain.new_transaction(txn);
    assert!(blockchain.mine().is_some());
    assert!(
        blockchain.valid_chain(blockchain.chain()),
        "blockchain should be valid with a mined block"
    );
}

#[test]
fn genesis_block_fields() {
    let blockchain = Blockchain::new_with(5);
    assert_eq!(blockchain.len(), 1);
    assert_eq!(blockchain.difficulty(), 5);
    let genesis = blockchain.last_block();
    assert_eq!(genesis.index, 1);
    assert_eq!(genesis.proof, 100);
    assert_eq!(genesis.previous_hash, "Genesis block.");
    assert!(genesis.transactions.is_empty());
    assert!(blockchain.current_transactions().is_empty());
    assert!(blockchain.nodes().is_empty());
    assert_eq!(Blockchain::new().difficulty(), 3);
}

#[test]
fn genesis_timestamp_comes_from_the_clock() {
    let blockchain = Blockchain::new();
    assert!(blockchain.last_block().timestamp > 1_500_000_000);
}

#[test]
fn new_transaction_returns_next_index() {
    let mut blockchain = Blockchain::new_with(1);
    let idx = blockchain.new_transaction(Transaction::new("a".into(), "b".into(), 1));
    assert_eq!(idx, 2);
    blockchain.mine().expect("mined");
    let idx = blockchain.new_transaction(Transaction::new("a".into(), "b".into(), 1));
    assert_eq!(idx, 3);
}

#[test]
fn equal_transactions_are_kept_once() {
    let mut blockchain = Blockchain::new();
    blockchain.new_transaction(Transaction::new("a".into(), "b".into(), 100));
    blockchain.new_transaction(Transaction::new("a".into(), "b".into(), 100));
    blockchain.new_transaction(Transaction::new("a".into(), "b".into(), 101));
    assert_eq!(blockchain.current_transactions().len(), 2);
    assert_eq!(blockchain.current_transactions()[0].amount, 100);
    assert_eq!(blockchain.current_transactions()[1].amount, 101);
    let a = Transaction::new("a".into(), "b".into(), 100);
    assert!(a.same(&blockchain.current_transactions()[0]));
    assert!(!a.same(&blockchain.current_transactions()[1]));
}

#[test]
fn new_block_at_takes_the_given_values() {
    let mut blockchain = Blockchain::new();
    blockchain.new_transaction(Transaction::new("a".into(), "b".into(), 100));
    let block = blockchain.create_block_at(7, String::from("abc"), 42);
    assert_eq!(block.index, 2);
    assert_eq!(block.timestamp, 42);
    assert_eq!(block.proof, 7);
    assert_eq!(block.previous_hash, "abc");
    assert_eq!(block.transactions.len(), 1);
    assert!(blockchain.current_transactions().is_empty());
    assert_eq!(blockchain.len(), 1);
}

#[test]
fn least_proofs_for_small_difficulties() {
    assert_eq!(Blockchain::proof_of_work(100, 0), Some(0));
    assert_eq!(Blockchain::proof_of_work(100, 1), Some(16));
    assert_eq!(Blockchain::proof_of_work(100, 2), Some(226));
    assert_eq!(Blockchain::proof_of_work(100, 3), Some(6016));
}

#[test]
fn proof_of_work_result_is_valid_and_least() {
    for last_proof in [0u64, 1, 100, 12345] {
        let proof = Blockchain::proof_of_work(last_proof, 2).expect("a proof");
        assert!(Blockchain::valid_proof(last_proof, proof, 2));
        for smaller in 0..proof {
            assert!(!Blockchain::valid_proof(last_proof, smaller, 2));
        }
    }
}

#[test]
fn valid_proof_at_the_edges() {
    assert!(Blockchain::valid_proof(100, 1, 0));
    assert!(Blockchain::valid_proof(100, 6016, 3));
    assert!(!Blockchain::valid_proof(100, 6016, 64));
    assert!(!Blockchain::valid_proof(100, 6016, 65));
    assert!(!Blockchain::valid_proof(100, 6016, u64::MAX));
}

#[test]
fn mine_moves_pending_and_reward_into_the_block() {
    let mut blockchain = Blockchain::new_with(1);
    blockchain.new_transaction(Transaction::new("c".into(), "d".into(), 5));
    blockchain.new_transaction(Transaction::new("a".into(), "b".into(), 100));
    let genesis_hash = blockchain.hash_last_block();
    let block = blockchain.mine().expect("mined").clone();
    assert_eq!(block.index, 2);
    assert_eq!(block.proof, 16);
    assert_eq!(block.previous_hash, genesis_hash);
    assert_eq!(block.transactions.len(), 3);
    assert_eq!(block.transactions[0].sender, "0");
    assert_eq!(block.transactions[0].recipient, "my node address");
    assert_eq!(block.transactions[0].amount, 1);
    assert_eq!(block.transactions[1].sender, "a");
    assert_eq!(block.transactions[2].sender, "c");
    assert!(blockchain.current_transactions().is_empty());
    assert_eq!(blockchain.len(), 2);
    assert_eq!(blockchain.last_block().index, 2);
}

#[test]
fn end_to_end_mining() {
    let mut blockchain = Blockchain::new_with(1);
    assert_eq!(blockchain.len(), 1);
    blockchain.new_transaction(Transaction::new("a".into(), "b".into(), 100));
    blockchain.mine().expect("mined");
    assert_eq!(blockchain.len(), 2);
    assert_eq!(blockchain.last_block().transactions.len(), 2);
    assert!(blockchain.valid_chain(blockchain.chain()));
}

#[test]
fn short_chains_are_valid() {
    let blockchain = Blockchain::new();
    assert!(blockchain.valid_chain(&Vec::new()));
    assert!(blockchain.valid_chain(blockchain.chain()));
}

#[test]
fn valid_chain_depends_on_difficulty() {
    let mut easy = Blockchain::new_with(1);
    easy.mine().expect("mined");
    let hard = Blockchain::new_with(3);
    assert!(easy.valid_chain(easy.chain()));
    assert!(!hard.valid_chain(easy.chain()));
}

#[test]
fn register_node_reports_insertion() {
    let mut blockchain = Blockchain::new();
    let a = Url::parse("http://localhost:9000").expect("valid url");
    let b = Url::parse("http://localhost:9001/chain").expect("valid url");
    assert!(blockchain.register_node(a.clone()));
    assert!(blockchain.register_node(b));
    assert!(!blockchain.register_node(a));
    assert_eq!(blockchain.nodes().len(), 2);
    assert_eq!(blockchain.nodes()[0], "http://localhost:9000/");
    assert_eq!(blockchain.nodes()[1], "http://localhost:9001/chain");
}

#[test]
fn replace_puts_the_new_chain_in_place() {
    let mut other = Blockchain::new_with(1);
    other.mine().expect("mined");
    let mut blockchain = Blockchain::new_with(1);
    blockchain.new_transaction(Transaction::new("a".into(), "b".into(), 100));
    blockchain.replace(other.chain().clone());
    assert_eq!(blockchain.len(), 2);
    assert_eq!(blockchain.last_block().proof, 16);
    assert_eq!(blockchain.current_transactions().len(), 1);
}

#[test]
fn block_encoding_is_exact() {
    let block = Block {
        index: 2,
        timestamp: -5,
        proof: 7,
        previous_hash: String::from("a\"b\\c\n\u{1}\u{e9}"),
        transactions: vec![
            Transaction::new("a".into(), "b".into(), 100),
            Transaction::new("0".into(), "my node address".into(), 1),
        ],
    };
    let expected = "{\"index\":2,\"timestamp\":-5,\"proof\":7,\"previous_hash\":\"a\\\"b\\\\c\\n\\u0001\u{e9}\",\"transactions\":[{\"sender\":\"a\",\"recipient\":\"b\",\"amount\":100},{\"sender\":\"0\",\"recipient\":\"my node address\",\"amount\":1}]}";
    assert_eq!(String::from_utf8(encode(&block)).expect("utf-8"), expected);
    assert_eq!(
        Blockchain::hash(&block).expect("hash"),
        "82fc59bbdcb2217a1d8c1ed0ae36ce0bb2c547af59bafc6018bca00b5b1a6560"
    );
}

#[test]
fn genesis_like_block_hash() {
    let block = Block {
        index: 1,
        timestamp: 0,
        proof: 100,
        previous_hash: String::from("Genesis block."),
        transactions: Vec::new(),
    };
    assert_eq!(
        Blockchain::hash(&block).expect("hash"),
        "4b4ec79d151d4d2e2f54123a962007741d866ab02a9eeb64ae1589ad5fc8bd3f"
    );
}

#[test]
fn check_hash_and_check_proof() {
    let mut blockchain = Blockchain::new_with(1);
    blockchain.mine().expect("mined");
    let chain = blockchain.chain();
    assert!(Blockchain::check_hash(&chain[0], &chain[1]));
    assert!(!Blockchain::check_hash(&chain[1], &chain[0]));
    assert!(Blockchain::check_proof(&chain[0], &chain[1], 1));
    assert!(!Blockchain::check_proof(&chain[0], &chain[1], 3));
}

#[test]
fn pending_transactions_are_sorted() {
    let mut blockchain = Blockchain::new();
    for (sender, recipient, amount) in [
        ("b", "x", 1u64),
        ("a", "y", 2),
        ("ab", "x", 3),
        ("\u{e9}", "x", 4),
        ("a", "x", 9),
        ("a", "x", 7),
        ("", "z", 0),
        ("a", "y", 2),
    ] {
        blockchain.new_transaction(Transaction::new(sender.into(), recipient.into(), amount));
    }
    let got: Vec<(String, String, u64)> = blockchain
        .current_transactions()
        .iter()
        .map(|t| (t.sender.clone(), t.recipient.clone(), t.amount))
        .collect();
    let mut expected = got.clone();
    expected.sort();
    expected.dedup();
    assert_eq!(got, expected);
    assert_eq!(got.len(), 7);
    assert_eq!(got[0].0, "");
    assert_eq!(got[1], (String::from("a"), String::from("x"), 7));
    assert_eq!(got[6].0, "\u{e9}");
}

#[test]
fn submission_order_does_not_change_the_block() {
    let mut one = Blockchain::new_with(1);
    one.new_transaction(Transaction::new("a".into(), "b".into(), 100));
    one.new_transaction(Transaction::new("c".into(), "d".into(), 5));
    let mut other = Blockchain::new_with(1);
    other.new_transaction(Transaction::new("c".into(), "d".into(), 5));
    other.new_transaction(Transaction::new("a".into(), "b".into(), 100));
    let first = one.create_block_at(1, String::from("abc"), 7);
    let second = other.create_block_at(1, String::from("abc"), 7);
    assert_eq!(encode(&first), encode(&second));
}

#[test]
fn chain_encoding_is_an_array_of_blocks() {
    let block = |index: usize| Block {
        index,
        timestamp: 3,
        proof: 4,
        previous_hash: String::from("h"),
        transactions: Vec::new(),
    };
    assert_eq!(encode_chain(&Vec::new()), b"[]".to_vec());
    let one = "{\"index\":1,\"timestamp\":3,\"proof\":4,\"previous_hash\":\"h\",\"transactions\":[]}";
    let two = "{\"index\":2,\"timestamp\":3,\"proof\":4,\"previous_hash\":\"h\",\"transactions\":[]}";
    assert_eq!(
        String::from_utf8(encode_chain(&vec![block(1)])).expect("utf-8"),
        format!("[{}]", one)
    );
    assert_eq!(
        String::from_utf8(encode_chain(&vec![block(1), block(2)])).expect("utf-8"),
        format!("[{},{}]", one, two)
    );
}
