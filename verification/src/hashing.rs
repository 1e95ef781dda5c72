//! Placement hashes and the text labels that are hashed.

use vstd::prelude::*;
use vstd::utf8::encode_utf8;
use sha2::Digest;
use vstd::string::StringExecFns;

verus! {

/// The SHA-256 digest of a byte string, as computed by the `sha2` crate.
pub uninterp spec fn sha256_digest(data: Seq<u8>) -> Seq<u8>;

/// Calls `sha2::Sha256::digest`. Trusted: the result equals `sha256_digest`
/// applied to the input bytes, and is 32 bytes long (the crate's output size
/// for SHA-256 is `U32`).
#[verifier::external_body]
fn sha256(data: &[u8]) -> (digest: Vec<u8>)
    ensures
        digest@ == sha256_digest(data@),
        digest@.len() == 32,
{
    sha2::Sha256::digest(data).to_vec()
}

/// The unsigned big-endian number written by a byte string.
pub open spec fn big_endian_value(bytes: Seq<u8>) -> nat
    decreases bytes.len(),
{
    if bytes.len() == 0 {
        0
    } else {
        big_endian_value(bytes.drop_last()) * 256 + (bytes.last() as nat)
    }
}

/// 256 to the power `n`.
pub open spec fn pow256(n: nat) -> nat
    decreases n,
{
    if n == 0 {
        1
    } else {
        256 * pow256((n - 1) as nat)
    }
}

proof fn lemma_big_endian_bound(bytes: Seq<u8>)
    ensures
        big_endian_value(bytes) < pow256(bytes.len()),
    decreases bytes.len(),
{
    if bytes.len() > 0 {
        lemma_big_endian_bound(bytes.drop_last());
        let v = big_endian_value(bytes.drop_last());
        let p = pow256(bytes.drop_last().len());
        assert(v * 256 + bytes.last() < p * 256) by (nonlinear_arith)
            requires
                v < p,
                bytes.last() < 256,
        ;
    }
}

/// The position of a text on the ring: the first eight bytes of the SHA-256
/// digest of its UTF-8 encoding, read as a big-endian unsigned integer.
pub open spec fn ring_hash(text: Seq<char>) -> u64 {
    big_endian_value(sha256_digest(encode_utf8(text)).take(8)) as u64
}

/// Computes `ring_hash` of a text: hashes its UTF-8 bytes and reads the
/// position from the digest.
pub fn ring_position(input: &str) -> (position: u64)
    ensures
        position == ring_hash(input@),
        position as nat == big_endian_value(sha256_digest(encode_utf8(input@)).take(8)),
{
    let digest = sha256(input.as_bytes());
    position_from_digest(digest.as_slice())
}

/// Reads a ring position from a digest: its first eight bytes as a
/// big-endian unsigned integer.
pub fn position_from_digest(digest: &[u8]) -> (position: u64)
    requires
        digest@.len() >= 8,
    ensures
        position as nat == big_endian_value(digest@.take(8)),
{
    let mut acc: u64 = 0;
    let mut i: usize = 0;
    proof {
        reveal_with_fuel(pow256, 9);
        assert(pow256(8) == 0x1_0000_0000_0000_0000nat);
    }
    while i < 8
        invariant
            i <= 8,
            digest@.len() >= 8,
            acc as nat == big_endian_value(digest@.take(i as int)),
            pow256(8) == 0x1_0000_0000_0000_0000nat,
        decreases 8 - i,
    {
        proof {
            assert(digest@.take(i as int + 1).drop_last() =~= digest@.take(i as int));
            lemma_big_endian_bound(digest@.take(i as int + 1));
            lemma_pow256_monotone((i + 1) as nat, 8);
        }
        acc = acc * 256 + digest[i] as u64;
        i = i + 1;
    }
    acc
}

proof fn lemma_pow256_monotone(a: nat, b: nat)
    requires
        a <= b,
    ensures
        pow256(a) <= pow256(b),
    decreases b,
{
    if a < b {
        lemma_pow256_monotone(a, (b - 1) as nat);
        assert(pow256(b) == 256 * pow256((b - 1) as nat));
    }
}

/// The decimal digit character for a value below ten.
pub open spec fn digit_char(d: nat) -> char {
    if d == 0 { '0' }
    else if d == 1 { '1' }
    else if d == 2 { '2' }
    else if d == 3 { '3' }
    else if d == 4 { '4' }
    else if d == 5 { '5' }
    else if d == 6 { '6' }
    else if d == 7 { '7' }
    else if d == 8 { '8' }
    else { '9' }
}

/// The decimal text of a natural number, without sign or leading zeros.
pub open spec fn decimal(n: nat) -> Seq<char>
    decreases n,
{
    if n < 10 {
        seq![digit_char(n)]
    } else {
        decimal(n / 10).push(digit_char(n % 10))
    }
}

fn digit_str(d: u64) -> (s: &'static str)
    requires
        d < 10,
    ensures
        s@ == seq![digit_char(d as nat)],
{
    if d == 0 {
        proof { reveal_strlit("0"); }
        "0"
    } else if d == 1 {
        proof { reveal_strlit("1"); }
        "1"
    } else if d == 2 {
        proof { reveal_strlit("2"); }
        "2"
    } else if d == 3 {
        proof { reveal_strlit("3"); }
        "3"
    } else if d == 4 {
        proof { reveal_strlit("4"); }
        "4"
    } else if d == 5 {
        proof { reveal_strlit("5"); }
        "5"
    } else if d == 6 {
        proof { reveal_strlit("6"); }
        "6"
    } else if d == 7 {
        proof { reveal_strlit("7"); }
        "7"
    } else if d == 8 {
        proof { reveal_strlit("8"); }
        "8"
    } else {
        proof { reveal_strlit("9"); }
        "9"
    }
}

/// Appends the decimal text of `n` to `out`.
pub fn push_decimal(out: &mut String, n: u64)
    ensures
        final(out)@ == old(out)@ + decimal(n as nat),
    decreases n,
{
    if n >= 10 {
        push_decimal(out, n / 10);
    }
    out.append(digit_str(n % 10));
    proof {
        if n >= 10 {
            assert(decimal(n as nat) == decimal((n / 10) as nat).push(digit_char((n % 10) as nat)));
        }
    }
    assert(final(out)@ =~= old(out)@ + decimal(n as nat));
}

/// The label of the `i`-th virtual node of a physical node: its id, a dash,
/// and `i` in decimal.
pub open spec fn virtual_node_label(node_id: Seq<char>, i: nat) -> Seq<char> {
    node_id + seq!['-'] + decimal(i)
}

/// Builds `virtual_node_label(node_id, i)`.
pub fn make_virtual_node_label(node_id: &str, i: u32) -> (label: String)
    ensures
        label@ == virtual_node_label(node_id@, i as nat),
{
    let mut label = String::from_str(node_id);
    proof { reveal_strlit("-"); }
    label.append("-");
    push_decimal(&mut label, i as u64);
    assert(label@ =~= virtual_node_label(node_id@, i as nat));
    label
}

} // verus!
