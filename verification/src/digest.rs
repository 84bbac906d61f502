//! SHA-256 digests, their hexadecimal text, and decimal numerals.

use sha2::Digest;
use vstd::prelude::*;
use vstd::string::*;

verus! {

/// The SHA-256 digest of a byte string, as the `sha2` crate computes it.
pub uninterp spec fn sha256_digest(data: Seq<u8>) -> Seq<u8>;

/// Calls `sha2::Sha256::digest` on `data`. Trusted: the result is the digest
/// of exactly these bytes, and a SHA-256 digest is 32 bytes long.
#[verifier::external_body]
fn sha256(data: &[u8]) -> (out: Vec<u8>)
    ensures
        out@ == sha256_digest(data@),
        out@.len() == 32,
{
    sha2::Sha256::digest(data).to_vec()
}

/// The lower-case hexadecimal digit for a value below sixteen.
pub open spec fn hex_digit(n: u8) -> char {
    if n == 0 {
        '0'
    } else if n == 1 {
        '1'
    } else if n == 2 {
        '2'
    } else if n == 3 {
        '3'
    } else if n == 4 {
        '4'
    } else if n == 5 {
        '5'
    } else if n == 6 {
        '6'
    } else if n == 7 {
        '7'
    } else if n == 8 {
        '8'
    } else if n == 9 {
        '9'
    } else if n == 10 {
        'a'
    } else if n == 11 {
        'b'
    } else if n == 12 {
        'c'
    } else if n == 13 {
        'd'
    } else if n == 14 {
        'e'
    } else {
        'f'
    }
}

/// The `i`-th half-byte of `d`, high half first.
pub open spec fn nibble(d: Seq<u8>, i: int) -> u8 {
    if i % 2 == 0 {
        d[i / 2] / 16
    } else {
        d[i / 2] % 16
    }
}

/// The hexadecimal text of a byte string: two digits per byte.
pub open spec fn hex_text(d: Seq<u8>) -> Seq<char> {
    Seq::new(2 * d.len(), |i: int| hex_digit(nibble(d, i)))
}

/// Whether `text` begins with `n` characters `'0'`.
pub open spec fn has_zero_prefix(text: Seq<char>, n: nat) -> bool {
    n <= text.len() && forall|i: int| 0 <= i < n ==> text[i] == '0'
}

/// The decimal numeral of `n`, as ASCII digits without leading zeros.
pub open spec fn decimal(n: nat) -> Seq<u8>
    decreases n,
{
    if n < 10 {
        seq![(48 + n) as u8]
    } else {
        decimal(n / 10).push((48 + n % 10) as u8)
    }
}

/// The decimal numeral of a signed number, with `-` before a negative one.
pub open spec fn signed_decimal(n: int) -> Seq<u8> {
    if n < 0 {
        seq![45u8] + decimal((-n) as nat)
    } else {
        decimal(n as nat)
    }
}

/// Appends the decimal numeral of `n` to `out`.
pub fn push_decimal(out: &mut Vec<u8>, n: u64)
    ensures
        final(out)@ == old(out)@ + decimal(n as nat),
    decreases n,
{
    if n >= 10 {
        push_decimal(out, n / 10);
    }
    let digit: u8 = 48 + (n % 10) as u8;
    out.push(digit);
    assert(final(out)@ =~= old(out)@ + decimal(n as nat));
}

/// Appends the decimal numeral of a signed number to `out`.
pub fn push_signed_decimal(out: &mut Vec<u8>, n: i64)
    ensures
        final(out)@ == old(out)@ + signed_decimal(n as int),
{
    if n < 0 {
        out.push(45u8);
        let magnitude: u64 = if n == i64::MIN {
            9223372036854775808u64
        } else {
            (-n) as u64
        };
        push_decimal(out, magnitude);
        assert(final(out)@ =~= old(out)@ + signed_decimal(n as int));
    } else {
        push_decimal(out, n as u64);
    }
}

/// The ASCII code of a hexadecimal digit.
pub fn hex_digit_byte(n: u8) -> (b: u8)
    requires
        n < 16,
    ensures
        b == hex_digit(n) as u8,
{
    if n < 10 {
        48 + n
    } else {
        87 + n
    }
}

/// The one-character text of a hexadecimal digit.
fn hex_digit_str(n: u8) -> (s: &'static str)
    requires
        n < 16,
    ensures
        s@ == seq![hex_digit(n)],
{
    proof {
        reveal_strlit("0");
        reveal_strlit("1");
        reveal_strlit("2");
        reveal_strlit("3");
        reveal_strlit("4");
        reveal_strlit("5");
        reveal_strlit("6");
        reveal_strlit("7");
        reveal_strlit("8");
        reveal_strlit("9");
        reveal_strlit("a");
        reveal_strlit("b");
        reveal_strlit("c");
        reveal_strlit("d");
        reveal_strlit("e");
        reveal_strlit("f");
    }
    let s: &'static str = if n == 0 {
        "0"
    } else if n == 1 {
        "1"
    } else if n == 2 {
        "2"
    } else if n == 3 {
        "3"
    } else if n == 4 {
        "4"
    } else if n == 5 {
        "5"
    } else if n == 6 {
        "6"
    } else if n == 7 {
        "7"
    } else if n == 8 {
        "8"
    } else if n == 9 {
        "9"
    } else if n == 10 {
        "a"
    } else if n == 11 {
        "b"
    } else if n == 12 {
        "c"
    } else if n == 13 {
        "d"
    } else if n == 14 {
        "e"
    } else {
        "f"
    };
    assert(s@ =~= seq![hex_digit(n)]);
    s
}

/// The hexadecimal text of `bytes`, in lower case.
pub fn to_hex(bytes: &[u8]) -> (text: String)
    ensures
        text@ == hex_text(bytes@),
{
    let mut text = String::new();
    let mut i: usize = 0;
    while i < bytes.len()
        invariant
            0 <= i <= bytes@.len(),
            text@ == hex_text(bytes@.take(i as int)),
        decreases bytes@.len() - i,
    {
        let b: u8 = bytes[i];
        text.append(hex_digit_str(b / 16));
        text.append(hex_digit_str(b % 16));
        proof {
            let done = bytes@.take(i as int);
            let next = bytes@.take(i + 1);
            assert(next.len() == i + 1);
            assert forall|k: int| 0 <= k < 2 * i implies nibble(next, k) == nibble(done, k) by {
                assert(next[k / 2] == done[k / 2]);
            }
            assert(nibble(next, 2 * i) == b / 16);
            assert(nibble(next, 2 * i + 1) == b % 16);
            assert(text@ =~= hex_text(next));
        }
        i += 1;
    }
    assert(bytes@.take(i as int) =~= bytes@);
    text
}

/// The SHA-256 digest of `data`, as hexadecimal text.
pub fn hash_bytes(data: &[u8]) -> (text: String)
    ensures
        text@ == hex_text(sha256_digest(data@)),
{
    let digest = sha256(data);
    to_hex(digest.as_slice())
}

/// The SHA-256 digest of the UTF-8 bytes of `text`, as hexadecimal text.
pub fn hash_string(text: &str) -> (hash: String)
    ensures
        hash@ == hex_text(sha256_digest(text.spec_bytes())),
{
    hash_bytes(text.as_bytes())
}

/// Whether the hexadecimal text of `digest` begins with `n` zeros.
pub fn starts_with_zeros(digest: &[u8], n: u64) -> (r: bool)
    ensures
        r == has_zero_prefix(hex_text(digest@), n as nat),
{
    let len: usize = digest.len();
    if n / 2 > len as u64 || (n / 2 == len as u64 && n % 2 == 1) {
        return false;
    }
    let mut i: u64 = 0;
    while i < n
        invariant
            0 <= i <= n,
            n <= 2 * digest@.len(),
            forall|k: int| 0 <= k < i ==> hex_text(digest@)[k] == '0',
        decreases n - i,
    {
        let b: u8 = digest[(i / 2) as usize];
        let half: u8 = if i % 2 == 0 {
            b / 16
        } else {
            b % 16
        };
        assert(half == nibble(digest@, i as int));
        if half != 0 {
            assert(hex_text(digest@)[i as int] != '0');
            return false;
        }
        i += 1;
    }
    true
}

/// Whether the hexadecimal text of the SHA-256 digest of `data` begins with
/// `n` zeros.
pub fn digest_has_zero_prefix(data: &[u8], n: u64) -> (r: bool)
    ensures
        r == has_zero_prefix(hex_text(sha256_digest(data@)), n as nat),
{
    let digest = sha256(data);
    starts_with_zeros(digest.as_slice(), n)
}

} // verus!
