//! Fiat–Shamir challenge derivation.
//!
//! A challenge is derived from a list of group elements: each element is
//! rendered as the decimal JSON array of its compressed bytes, the renderings
//! are concatenated and hashed with SHA-256, and the 32-byte digest is split
//! into two 16-byte big-endian halves combined as `h1 * 2^128 + h2`, reduced
//! into the scalar field. Interoperability requires this byte-exact pipeline.

use vstd::arithmetic::div_mod::{lemma_add_mod_noop, lemma_small_mod};
use vstd::prelude::*;

use crate::group::{compressed_of, dlogs, group_order, point_bytes, EncryptedValue, KeyType};

verus! {

/// Name for the SHA-256 digest of a byte sequence; sha2 computes a function
/// of the input bytes alone.
pub uninterp spec fn sha256_of(data: Seq<u8>) -> Seq<u8>;

/// Relies on `sha2::Sha256`: the 32-byte digest of the input, a function of
/// the input bytes alone.
#[verifier::external_body]
fn sha256(data: &Vec<u8>) -> (r: Vec<u8>)
    ensures
        r@ == sha256_of(data@),
        r@.len() == 32,
{
    <sha2::Sha256 as sha2::Digest>::digest(data.as_slice()).to_vec()
}

/// The value of a byte sequence read as a big-endian integer.
pub open spec fn be_val(s: Seq<u8>) -> nat
    decreases s.len(),
{
    if s.len() == 0 {
        0
    } else {
        be_val(s.drop_last()) * 256 + s.last() as nat
    }
}

/// Powers of 256.
pub open spec fn pow256(n: nat) -> nat
    decreases n,
{
    if n == 0 {
        1
    } else {
        256 * pow256((n - 1) as nat)
    }
}

proof fn lemma_be_val_bound(s: Seq<u8>)
    ensures
        be_val(s) < pow256(s.len()),
    decreases s.len(),
{
    if s.len() == 0 {
    } else {
        lemma_be_val_bound(s.drop_last());
        let b = be_val(s.drop_last());
        let p = pow256((s.len() - 1) as nat);
        assert(b * 256 + s.last() < 256 * p) by (nonlinear_arith)
            requires
                b < p,
                s.last() < 256,
        ;
    }
}

/// The digest folded into the scalar field: the first sixteen bytes weighted
/// by `2^128`, plus the last sixteen, reduced modulo the group order.
pub open spec fn fold_digest(h: Seq<u8>) -> nat {
    (be_val(h.take(16)) * 0x100000000000000000000000000000000nat + be_val(h.skip(16)))
        % group_order()
}

/// Fold sixteen bytes at `off` into a big-endian integer.
fn fold16(h: &Vec<u8>, off: usize) -> (r: u128)
    requires
        off + 16 <= h@.len(),
    ensures
        r == be_val(h@.subrange(off as int, off as int + 16)),
{
    let hl = h.len();
    let mut acc: u128 = 0;
    for i in 0..16usize
        invariant
            hl == h@.len(),
            off + 16 <= hl,
            acc == be_val(h@.subrange(off as int, off as int + i)),
            acc < pow256(i as nat),
    {
        proof {
            let pre = h@.subrange(off as int, off as int + i);
            let post = h@.subrange(off as int, off as int + i + 1);
            assert(post.drop_last() =~= pre);
            assert(post.last() == h@[off + i]);
            assert(pow256((i + 1) as nat) == 256 * pow256(i as nat));
            assert(pow256(16) == 0x100000000000000000000000000000000nat) by {
                reveal_with_fuel(pow256, 17);
            }
            assert(acc * 256 + h@[off + i] < 256 * pow256(i as nat)) by (nonlinear_arith)
                requires
                    acc < pow256(i as nat),
                    h@[off + i] < 256,
            ;
            assert(256 * pow256(i as nat) <= pow256(16)) by {
                lemma_pow256_increases((i + 1) as nat, 16);
            }
        }
        acc = acc * 256 + (h[off + i] as u128);
    }
    acc
}

proof fn lemma_pow256_increases(a: nat, b: nat)
    requires
        a <= b,
    ensures
        pow256(a) <= pow256(b),
    decreases b,
{
    if a < b {
        lemma_pow256_increases(a, (b - 1) as nat);
        assert(pow256((b - 1) as nat) <= 256 * pow256((b - 1) as nat)) by (nonlinear_arith)
            requires
                pow256((b - 1) as nat) >= 0,
        ;
    }
}

/// Reduce a 32-byte digest into the scalar field, as `h1 * 2^128 + h2`.
fn hash_to_field(digest: &Vec<u8>) -> (r: KeyType)
    requires
        digest@.len() == 32,
    ensures
        r.scalar() == fold_digest(digest@),
{
    let h1 = fold16(digest, 0);
    let h2 = fold16(digest, 16);
    proof {
        assert(digest@.subrange(0, 16) =~= digest@.take(16));
        assert(digest@.subrange(16, 32) =~= digest@.skip(16));
        lemma_be_val_bound(digest@.take(16));
        lemma_be_val_bound(digest@.skip(16));
        assert(pow256(16) == 0x100000000000000000000000000000000nat) by {
            reveal_with_fuel(pow256, 17);
        }
        lemma_small_mod(h1 as nat, group_order());
        lemma_small_mod(h2 as nat, group_order());
    }
    let k1 = KeyType::from_u128(h1);
    let kmax = KeyType::from_u128(u128::MAX);
    let one = KeyType::from_u64(1);
    proof {
        lemma_small_mod(u128::MAX as nat, group_order());
        lemma_small_mod(1, group_order());
    }
    let m = crate::group::fr_add(&kmax, &one);
    proof {
        lemma_small_mod(0x100000000000000000000000000000000nat, group_order());
    }
    let t = crate::group::fr_mul(&k1, &m);
    let k2 = KeyType::from_u128(h2);
    let r = crate::group::fr_add(&t, &k2);
    proof {
        let big: int = 0x100000000000000000000000000000000int;
        let g = group_order() as int;
        lemma_add_mod_noop(h1 * big, h2 as int, g);
        lemma_small_mod(h2 as nat, group_order());
    }
    r
}

/// The decimal ASCII rendering of one byte.
pub open spec fn dec_rep(b: u8) -> Seq<u8> {
    if b < 10 {
        seq![(b + 48) as u8]
    } else if b < 100 {
        seq![((b / 10) + 48) as u8, ((b % 10) + 48) as u8]
    } else {
        seq![((b / 100) + 48) as u8, (((b / 10) % 10) + 48) as u8, ((b % 10) + 48) as u8]
    }
}

/// The comma-separated decimal renderings of a byte sequence.
pub open spec fn json_items(s: Seq<u8>) -> Seq<u8>
    decreases s.len(),
{
    if s.len() == 0 {
        seq![]
    } else if s.len() == 1 {
        dec_rep(s[0])
    } else {
        json_items(s.drop_last()) + seq![44u8] + dec_rep(s.last())
    }
}

/// The JSON array rendering of a byte sequence: `[` items `]`.
pub open spec fn json_arr(s: Seq<u8>) -> Seq<u8> {
    seq![91u8] + json_items(s) + seq![93u8]
}

/// The bytes a group element contributes to a transcript: the JSON array of
/// its compressed encoding.
pub open spec fn point_blob(d: nat) -> Seq<u8> {
    json_arr(compressed_of(d))
}

/// The transcript of a list of group elements: their blobs concatenated.
pub open spec fn transcript(ds: Seq<nat>) -> Seq<u8>
    decreases ds.len(),
{
    if ds.len() == 0 {
        seq![]
    } else {
        transcript(ds.drop_last()) + point_blob(ds.last())
    }
}

/// The Fiat–Shamir challenge over a list of group elements.
pub open spec fn chal_of(ds: Seq<nat>) -> nat {
    fold_digest(sha256_of(transcript(ds)))
}

pub proof fn lemma_transcript_push(ds: Seq<nat>, d: nat)
    ensures
        transcript(ds.push(d)) == transcript(ds) + point_blob(d),
{
    assert(ds.push(d).drop_last() =~= ds);
    assert(ds.push(d).last() == d);
}

fn push_decimal(out: &mut Vec<u8>, b: u8)
    ensures
        final(out)@ == old(out)@ + dec_rep(b),
{
    if b < 10 {
        out.push(b + 48);
    } else if b < 100 {
        out.push(b / 10 + 48);
        out.push(b % 10 + 48);
    } else {
        out.push(b / 100 + 48);
        out.push((b / 10) % 10 + 48);
        out.push(b % 10 + 48);
    }
    proof {
        assert(out@ =~= old(out)@ + dec_rep(b));
    }
}

/// Append the JSON array rendering of `bytes`, matching the serialization a
/// JSON encoder gives a byte vector.
fn append_json_array(out: &mut Vec<u8>, bytes: &Vec<u8>)
    ensures
        final(out)@ == old(out)@ + json_arr(bytes@),
{
    out.push(91);
    let n = bytes.len();
    for i in 0..n
        invariant
            n == bytes@.len(),
            out@ == old(out)@ + seq![91u8] + json_items(bytes@.take(i as int)),
    {
        proof {
            let pre = bytes@.take(i as int);
            let post = bytes@.take(i + 1);
            assert(post.drop_last() =~= pre);
            assert(post.last() == bytes@[i as int]);
        }
        if i > 0 {
            out.push(44);
        }
        push_decimal(out, bytes[i]);
        proof {
            if i == 0 {
                assert(json_items(bytes@.take(1)) == dec_rep(bytes@[0]));
                assert(out@ =~= old(out)@ + seq![91u8] + json_items(bytes@.take(1)));
            } else {
                assert(out@ =~= old(out)@ + seq![91u8] + json_items(bytes@.take(i + 1)));
            }
        }
    }
    out.push(93);
    proof {
        assert(bytes@.take(n as int) =~= bytes@);
        assert(out@ =~= old(out)@ + json_arr(bytes@));
    }
}

/// Append the transcript contribution of one group element.
fn append_point(out: &mut Vec<u8>, v: &EncryptedValue)
    ensures
        final(out)@ == old(out)@ + point_blob(v.dlog()),
{
    let b = point_bytes(v);
    append_json_array(out, &b);
}

/// The challenge over `points` followed by three more elements, in order.
/// This is the hash every proof transcript uses: all deck cards first, then
/// the two commitments and the statement point of the branch under check.
pub(crate) fn hash_points(
    points: &Vec<EncryptedValue>,
    a: &EncryptedValue,
    b: &EncryptedValue,
    c: &EncryptedValue,
) -> (r: KeyType)
    ensures
        r.scalar() == chal_of(dlogs(points@).push(a.dlog()).push(b.dlog()).push(c.dlog())),
{
    let mut buf: Vec<u8> = Vec::new();
    let n = points.len();
    for i in 0..n
        invariant
            n == points@.len(),
            buf@ == transcript(dlogs(points@).take(i as int)),
    {
        proof {
            let ds = dlogs(points@);
            assert(ds.take(i + 1).drop_last() =~= ds.take(i as int));
            assert(ds.take(i + 1).last() == points@[i as int].dlog());
            lemma_transcript_push(ds.take(i as int), points@[i as int].dlog());
            assert(ds.take(i + 1) =~= ds.take(i as int).push(points@[i as int].dlog()));
        }
        append_point(&mut buf, &points[i]);
    }
    proof {
        assert(dlogs(points@).take(n as int) =~= dlogs(points@));
    }
    append_point(&mut buf, a);
    append_point(&mut buf, b);
    append_point(&mut buf, c);
    proof {
        let ds = dlogs(points@);
        lemma_transcript_push(ds, a.dlog());
        lemma_transcript_push(ds.push(a.dlog()), b.dlog());
        lemma_transcript_push(ds.push(a.dlog()).push(b.dlog()), c.dlog());
        assert(buf@ =~= transcript(ds.push(a.dlog()).push(b.dlog()).push(c.dlog())));
    }
    let digest = sha256(&buf);
    hash_to_field(&digest)
}

/// The challenge over exactly three group elements.
pub(crate) fn hash3(a: &EncryptedValue, b: &EncryptedValue, c: &EncryptedValue) -> (r: KeyType)
    ensures
        r.scalar() == chal_of(seq![a.dlog(), b.dlog(), c.dlog()]),
{
    let empty: Vec<EncryptedValue> = Vec::new();
    let r = hash_points(&empty, a, b, c);
    proof {
        assert(dlogs(empty@).push(a.dlog()).push(b.dlog()).push(c.dlog()) =~= seq![
            a.dlog(),
            b.dlog(),
            c.dlog(),
        ]);
    }
    r
}

} // verus!
