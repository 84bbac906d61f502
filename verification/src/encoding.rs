//! The canonical encoding of blocks: the bytes that are hashed and exchanged.
//!
//! A block is written as a JSON object with its fields in a fixed order and
//! no white space, so that equal blocks always give equal bytes.

use crate::digest::{decimal, hex_digit, hex_digit_byte, hex_text, push_decimal, sha256_digest, signed_decimal};
use crate::text::text_bytes;
use crate::transaction::{transaction_views, Transaction, TransactionView};
use vstd::prelude::*;
use vstd::string::*;

verus! {

/// What a block is, as plain values.
pub ghost struct BlockView {
    pub index: usize,
    pub timestamp: i64,
    pub proof: u64,
    pub previous_hash: Seq<char>,
    pub transactions: Seq<TransactionView>,
}

/// How one byte of a text stands inside a JSON string: the quote, the
/// backslash and the control characters are escaped, all others stand as
/// they are.
pub open spec fn escape_byte(b: u8) -> Seq<u8> {
    if b == 0x22 {
        seq![0x5cu8, 0x22u8]
    } else if b == 0x5c {
        seq![0x5cu8, 0x5cu8]
    } else if b == 0x08 {
        seq![0x5cu8, 0x62u8]
    } else if b == 0x09 {
        seq![0x5cu8, 0x74u8]
    } else if b == 0x0a {
        seq![0x5cu8, 0x6eu8]
    } else if b == 0x0c {
        seq![0x5cu8, 0x66u8]
    } else if b == 0x0d {
        seq![0x5cu8, 0x72u8]
    } else if b < 0x20 {
        seq![
            0x5cu8,
            0x75u8,
            0x30u8,
            0x30u8,
            hex_digit(b / 16) as u8,
            hex_digit(b % 16) as u8,
        ]
    } else {
        seq![b]
    }
}

/// The bytes of a text with every byte escaped.
pub open spec fn escaped(s: Seq<u8>) -> Seq<u8>
    decreases s.len(),
{
    if s.len() == 0 {
        Seq::empty()
    } else {
        escaped(s.drop_last()) + escape_byte(s.last())
    }
}

/// A text as a JSON string: its escaped UTF-8 bytes between quotes.
pub open spec fn json_string(s: Seq<char>) -> Seq<u8> {
    seq![0x22u8] + escaped(text_bytes(s)) + seq![0x22u8]
}

/// The encoding of a transaction: an object with the sender, the recipient
/// and the amount, in this order.
pub open spec fn encode_transaction(t: TransactionView) -> Seq<u8> {
    text_bytes("{\"sender\":"@) + json_string(t.sender) + text_bytes(",\"recipient\":"@)
        + json_string(t.recipient) + text_bytes(",\"amount\":"@) + decimal(t.amount as nat)
        + text_bytes("}"@)
}

/// The encodings of a run of transactions, with a comma between neighbours.
pub open spec fn encode_transactions(ts: Seq<TransactionView>) -> Seq<u8>
    decreases ts.len(),
{
    if ts.len() == 0 {
        Seq::empty()
    } else if ts.len() == 1 {
        encode_transaction(ts[0])
    } else {
        encode_transactions(ts.drop_last()) + seq![0x2cu8] + encode_transaction(ts.last())
    }
}

/// The canonical encoding of a block: an object with the index, the
/// timestamp, the proof, the previous hash and the transactions, in this
/// order.
pub open spec fn encode_block(b: BlockView) -> Seq<u8> {
    text_bytes("{\"index\":"@) + decimal(b.index as nat) + text_bytes(",\"timestamp\":"@)
        + signed_decimal(b.timestamp as int) + text_bytes(",\"proof\":"@) + decimal(b.proof as nat)
        + text_bytes(",\"previous_hash\":"@) + json_string(b.previous_hash) + text_bytes(
        ",\"transactions\":["@,
    ) + encode_transactions(b.transactions) + text_bytes("]}"@)
}

/// The encodings of a run of blocks, with a comma between neighbours.
pub open spec fn encode_blocks(bs: Seq<BlockView>) -> Seq<u8>
    decreases bs.len(),
{
    if bs.len() == 0 {
        Seq::empty()
    } else if bs.len() == 1 {
        encode_block(bs[0])
    } else {
        encode_blocks(bs.drop_last()) + seq![0x2cu8] + encode_block(bs.last())
    }
}

/// The encoding of a chain as peers exchange it: an array of its blocks.
pub open spec fn encode_chain(chain: Seq<BlockView>) -> Seq<u8> {
    seq![0x5bu8] + encode_blocks(chain) + seq![0x5du8]
}

/// The canonical hash of a block: the SHA-256 digest of its encoding, as
/// hexadecimal text.
pub open spec fn canonical_hash(b: BlockView) -> Seq<char> {
    hex_text(sha256_digest(encode_block(b)))
}

/// Appends `bytes` to `out`.
pub fn push_bytes(out: &mut Vec<u8>, bytes: &[u8])
    ensures
        final(out)@ == old(out)@ + bytes@,
{
    let mut i: usize = 0;
    while i < bytes.len()
        invariant
            0 <= i <= bytes@.len(),
            out@ == old(out)@ + bytes@.take(i as int),
        decreases bytes@.len() - i,
    {
        out.push(bytes[i]);
        assert(out@ =~= old(out)@ + bytes@.take(i + 1));
        i += 1;
    }
    assert(bytes@.take(i as int) =~= bytes@);
}

/// Appends the UTF-8 bytes of `s` to `out`.
pub fn push_text(out: &mut Vec<u8>, s: &str)
    ensures
        final(out)@ == old(out)@ + text_bytes(s@),
{
    push_bytes(out, s.as_bytes());
}

/// Appends the escaped form of one byte to `out`.
pub fn push_escaped_byte(out: &mut Vec<u8>, b: u8)
    ensures
        final(out)@ == old(out)@ + escape_byte(b),
{
    if b == 0x22 {
        out.push(0x5c);
        out.push(0x22);
    } else if b == 0x5c {
        out.push(0x5c);
        out.push(0x5c);
    } else if b == 0x08 {
        out.push(0x5c);
        out.push(0x62);
    } else if b == 0x09 {
        out.push(0x5c);
        out.push(0x74);
    } else if b == 0x0a {
        out.push(0x5c);
        out.push(0x6e);
    } else if b == 0x0c {
        out.push(0x5c);
        out.push(0x66);
    } else if b == 0x0d {
        out.push(0x5c);
        out.push(0x72);
    } else if b < 0x20 {
        out.push(0x5c);
        out.push(0x75);
        out.push(0x30);
        out.push(0x30);
        out.push(hex_digit_byte(b / 16));
        out.push(hex_digit_byte(b % 16));
    } else {
        out.push(b);
    }
    assert(final(out)@ =~= old(out)@ + escape_byte(b));
}

/// Appends `s` as a JSON string to `out`.
pub fn push_json_string(out: &mut Vec<u8>, s: &str)
    ensures
        final(out)@ == old(out)@ + json_string(s@),
{
    out.push(0x22);
    let bytes = s.as_bytes();
    let mut i: usize = 0;
    while i < bytes.len()
        invariant
            0 <= i <= bytes@.len(),
            bytes@ == text_bytes(s@),
            out@ == old(out)@ + seq![0x22u8] + escaped(bytes@.take(i as int)),
        decreases bytes@.len() - i,
    {
        push_escaped_byte(out, bytes[i]);
        proof {
            let next = bytes@.take(i + 1);
            assert(next.drop_last() =~= bytes@.take(i as int));
            assert(out@ =~= old(out)@ + seq![0x22u8] + escaped(next));
        }
        i += 1;
    }
    out.push(0x22);
    assert(bytes@.take(i as int) =~= bytes@);
    assert(final(out)@ =~= old(out)@ + json_string(s@));
}

/// Appends the encoding of `t` to `out`.
pub fn push_transaction(out: &mut Vec<u8>, t: &Transaction)
    ensures
        final(out)@ == old(out)@ + encode_transaction(t@),
{
    push_text(out, "{\"sender\":");
    push_json_string(out, t.sender.as_str());
    push_text(out, ",\"recipient\":");
    push_json_string(out, t.recipient.as_str());
    push_text(out, ",\"amount\":");
    push_decimal(out, t.amount);
    push_text(out, "}");
    assert(final(out)@ =~= old(out)@ + encode_transaction(t@));
}

/// Appends the encodings of `ts`, with commas between them, to `out`.
pub fn push_transactions(out: &mut Vec<u8>, ts: &Vec<Transaction>)
    ensures
        final(out)@ == old(out)@ + encode_transactions(transaction_views(ts@)),
{
    let ghost views = transaction_views(ts@);
    let mut i: usize = 0;
    while i < ts.len()
        invariant
            0 <= i <= ts@.len(),
            views == transaction_views(ts@),
            out@ == old(out)@ + encode_transactions(views.take(i as int)),
        decreases ts@.len() - i,
    {
        let ghost before = out@;
        if i > 0 {
            out.push(0x2c);
        }
        push_transaction(out, &ts[i]);
        proof {
            let next = views.take(i + 1);
            assert(next.drop_last() =~= views.take(i as int));
            assert(next.last() == ts@[i as int]@);
            if i == 0 {
                assert(next[0] == ts@[0]@);
                assert(encode_transactions(views.take(0)) =~= Seq::<u8>::empty());
                assert(out@ =~= old(out)@ + encode_transactions(next));
            } else {
                assert(out@ =~= old(out)@ + encode_transactions(next));
            }
        }
        i += 1;
    }
    assert(views.take(i as int) =~= views);
}

} // verus!
