//! The verifiable shuffle protocol: non-interactive zero-knowledge proofs
//! that a shuffle-and-re-encryption step is a permutation of a previous deck
//! (a one-of-n disjunctive proof per output card), and that a per-card
//! re-encryption used a committed key (a Chaum–Pedersen-style proof).
//!
//! All transcripts are verified by recomputation of the Fiat–Shamir
//! challenge chain; the completeness laws at the bottom show that a proof
//! produced by `generate` passes `verify`.

use vstd::arithmetic::div_mod::{
    lemma_add_mod_noop, lemma_add_mod_noop_right, lemma_mod_multiples_vanish, lemma_mod_self_0,
    lemma_mod_twice, lemma_mul_mod_noop_left, lemma_mul_mod_noop_right, lemma_small_mod,
    lemma_sub_mod_noop,
};
use vstd::calc;
use vstd::prelude::*;

use crate::encryption::{emul, encrypt, lemma_cipher_roundtrip, rand_key};
use crate::fiat_shamir::{chal_of, hash3, hash_points};
use crate::group::{
    dlogs, fr_eq, fr_mul, fr_sub, generator_value, group_order, point_add, sub_r, EncryptedValue,
    KeyType,
};

verus! {

/// One branch of a transcript: a Fiat–Shamir challenge and a response.
#[derive(Clone, Copy)]
pub struct ChallProof {
    pub challenge: KeyType,
    pub response: KeyType,
}

/// The model of `linear_combination`: `x*e + y*s` in the group, that is, on
/// discrete logs, modulo the group order.
pub open spec fn lincomb(e: nat, x: nat, s: nat, y: nat) -> nat {
    (x * e + y * s) % group_order()
}

/// `encrypt(x, e) + encrypt(y, s)`: the simulated or recomputed commitment.
pub fn linear_combination(
    a: &KeyType,
    x: &EncryptedValue,
    b: &KeyType,
    y: &EncryptedValue,
) -> (r: EncryptedValue)
    ensures
        r.dlog() == lincomb(a.scalar(), x.dlog(), b.scalar(), y.dlog()),
{
    let xa = encrypt(x, a);
    let yb = encrypt(y, b);
    let r = point_add(&xa, &yb);
    proof {
        lemma_add_mod_noop(
            (x.dlog() * a.scalar()) as int,
            (y.dlog() * b.scalar()) as int,
            group_order() as int,
        );
    }
    r
}

/// The challenge a verifier recomputes for branch `ind` of a ring transcript:
/// the hash of all deck cards, the recomputed key commitment, the statement
/// point, and the recomputed card commitment.
pub open spec fn branch_next(points: Seq<nat>, p: nat, pk: nat, ind: int, e: nat, s: nat) -> nat {
    chal_of(
        points.push(lincomb(e, pk, s, 1)).push(p).push(lincomb(e, p, s, points[ind])),
    )
}

/// A valid one-of-n ring: one branch per deck position, and each branch's
/// recomputed challenge equals the next branch's stored challenge, cyclically.
pub open spec fn ring_ok(points: Seq<nat>, p: nat, pk: nat, pr: Seq<ChallProof>) -> bool {
    &&& pr.len() == points.len()
    &&& forall|i: int|
        0 <= i < pr.len() ==> #[trigger] branch_next(
            points,
            p,
            pk,
            i,
            pr[i].challenge.scalar(),
            pr[i].response.scalar(),
        ) == pr[(i + 1) % (pr.len() as int)].challenge.scalar()
}

/// A valid Chaum–Pedersen transcript for `pp == encrypt(p, key)`: the stored
/// challenge equals the hash of the statement and the recomputed commitment.
pub open spec fn cp_ok(p: nat, pp: nat, e: nat, s: nat) -> bool {
    chal_of(seq![p, pp, lincomb(e, pp, s, p)]) == e
}

/// The closing identity of both proof kinds: with response
/// `s = r - e*key`, the verifier's linear combination over the statement
/// `emul(d, key)` and the base `d` recomputes the original commitment
/// `emul(d, r)`.
pub proof fn lemma_masked_response(d: nat, k: nat, rr: nat, e: nat)
    ensures
        lincomb(e, emul(d, k), sub_r(rr, emul(e, k)), d) == emul(d, rr),
{
    let g = group_order() as int;
    let di = d as int;
    let ki = k as int;
    let ri = rr as int;
    let ei = e as int;
    let u = (ei * ki) % g;
    let v = ((ri + g) - u) % g;
    assert(sub_r(rr, emul(e, k)) == v);
    assert(lincomb(e, emul(d, k), sub_r(rr, emul(e, k)), d) == (((di * ki) % g) * ei + di * v)
        % g);
    // Fold both addends under a single modulus.
    lemma_add_mod_noop(((di * ki) % g) * ei, di * v, g);
    lemma_mul_mod_noop_left(di * ki, ei, g);
    lemma_mul_mod_noop_right(di, (ri + g) - u, g);
    assert(di * ((ri + g) - u) == di * ri + di * g - di * u) by (nonlinear_arith);
    // Drop the multiple of the group order.
    assert(di * g == g * di) by (nonlinear_arith);
    lemma_mod_multiples_vanish(di, di * ri - di * u, g);
    assert((di * ri + di * g - di * u) % g == (di * ri - di * u) % g);
    // Replace the reduced factor in `d * ((e*k) % g)` by the full product.
    lemma_mul_mod_noop_right(di, ei * ki, g);
    assert(di * (ei * ki) == di * ki * ei) by (nonlinear_arith);
    lemma_sub_mod_noop(di * ri, di * u, g);
    lemma_mod_twice(di * u, g);
    assert((di * u) % g == (di * ki * ei) % g);
    assert((di * ri - di * u) % g == ((di * ri) % g - (di * ki * ei) % g) % g);
    // The recomputed commitment: the `d*k*e` terms cancel.
    calc! {
        (==)
        ((((di * ki) % g) * ei + di * v) % g); {
            assert((((di * ki) % g) * ei) % g == (di * ki * ei) % g);
            assert((di * v) % g == (di * ri - di * u) % g);
        }
        (((di * ki * ei) % g + ((di * ri) % g - (di * ki * ei) % g) % g) % g); {
            lemma_add_mod_noop_right(
                (di * ki * ei) % g,
                (di * ri) % g - (di * ki * ei) % g,
                g,
            );
            lemma_mod_twice(di * ki * ei, g);
        }
        (((di * ki * ei) % g + ((di * ri) % g - (di * ki * ei) % g)) % g); {}
        (((di * ri) % g) % g); {
            lemma_mod_twice(di * ri, g);
        }
        ((di * ri) % g);
    }
    assert(emul(d, rr) == (di * ri) % g);
}

/// Recompute one ring transcript. `p` is the output card under check,
/// `points` the claimed previous deck, `public_key` the prover's committed
/// key image. Returns false, never panics, on a ring of the wrong length or
/// any challenge that fails recomputation.
fn verify_1_in_n(
    p: &EncryptedValue,
    points: &Vec<EncryptedValue>,
    public_key: &EncryptedValue,
    pr: &Vec<ChallProof>,
) -> (r: bool)
    ensures
        r == ring_ok(dlogs(points@), p.dlog(), public_key.dlog(), pr@),
{
    let n = points.len();
    if pr.len() != n {
        return false;
    }
    let g = generator_value();
    for ind in 0..n
        invariant
            n == points@.len(),
            n == pr@.len(),
            g.dlog() == 1,
            forall|j: int|
                0 <= j < ind ==> #[trigger] branch_next(
                    dlogs(points@),
                    p.dlog(),
                    public_key.dlog(),
                    j,
                    pr@[j].challenge.scalar(),
                    pr@[j].response.scalar(),
                ) == pr@[(j + 1) % (n as int)].challenge.scalar(),
    {
        let cp = &pr[ind];
        let r_i = linear_combination(&cp.challenge, p, &cp.response, &points[ind]);
        let r_y = linear_combination(&cp.challenge, public_key, &cp.response, &g);
        let e_next = hash_points(points, &r_y, p, &r_i);
        let nxt = if ind == n - 1 {
            0
        } else {
            ind + 1
        };
        proof {
            if ind == n - 1 {
                lemma_mod_self_0(n as int);
            } else {
                lemma_small_mod((ind + 1) as nat, n as nat);
            }
            assert(nxt as int == (ind + 1) % (n as int));
            assert(e_next.scalar() == branch_next(
                dlogs(points@),
                p.dlog(),
                public_key.dlog(),
                ind as int,
                cp.challenge.scalar(),
                cp.response.scalar(),
            ));
        }
        if !fr_eq(&e_next, &pr[nxt].challenge) {
            return false;
        }
    }
    true
}

/// A challenge chain: the transcripts for the consecutive branch indexes
/// starting at `start`, opening with challenge `e_in`, each branch's
/// recomputed challenge feeding the next stored one, and the last recomputed
/// challenge being `e_out`.
pub open spec fn chain_ok(
    points: Seq<nat>,
    p: nat,
    pk: nat,
    pr: Seq<ChallProof>,
    start: int,
    e_in: nat,
    e_out: nat,
) -> bool {
    &&& (pr.len() == 0 ==> e_out == e_in)
    &&& (pr.len() > 0 ==> {
        &&& pr[0].challenge.scalar() == e_in
        &&& (forall|j: int|
            0 <= j < pr.len() - 1 ==> #[trigger] branch_next(
                points,
                p,
                pk,
                start + j,
                pr[j].challenge.scalar(),
                pr[j].response.scalar(),
            ) == pr[j + 1].challenge.scalar())
        &&& branch_next(
            points,
            p,
            pk,
            start + pr.len() - 1,
            pr[pr.len() - 1].challenge.scalar(),
            pr[pr.len() - 1].response.scalar(),
        ) == e_out
    })
}

/// Extending a chain by one branch whose stored challenge is the chain's
/// last recomputed one.
proof fn lemma_chain_push(
    points: Seq<nat>,
    p: nat,
    pk: nat,
    pr: Seq<ChallProof>,
    start: int,
    e_in: nat,
    e_out: nat,
    cp: ChallProof,
    e_new: nat,
)
    requires
        chain_ok(points, p, pk, pr, start, e_in, e_out),
        cp.challenge.scalar() == e_out,
        branch_next(points, p, pk, start + pr.len(), cp.challenge.scalar(), cp.response.scalar())
            == e_new,
    ensures
        chain_ok(points, p, pk, pr.push(cp), start, e_in, e_new),
{
    let ex = pr.push(cp);
    assert(ex[ex.len() - 1] == cp);
    if pr.len() == 0 {
        assert(ex[0] == cp);
    } else {
        assert(ex[0] == pr[0]);
        assert forall|j: int| 0 <= j < ex.len() - 1 implies #[trigger] branch_next(
            points,
            p,
            pk,
            start + j,
            ex[j].challenge.scalar(),
            ex[j].response.scalar(),
        ) == ex[j + 1].challenge.scalar() by {
            if j < pr.len() - 1 {
                assert(ex[j] == pr[j]);
                assert(ex[j + 1] == pr[j + 1]);
            } else {
                assert(j == pr.len() - 1);
                assert(ex[j] == pr[j]);
                assert(ex[j + 1] == cp);
            }
        }
    }
}

/// Assembling a full ring from the two simulated chains and the closing branch:
/// branch indexes run `0..ind` (head), `ind` (closing), `ind+1..n` (tail); the
/// generation order was tail, then head, then the closing branch, so the tail
/// opens with the closing branch's recomputed challenge `e0`, the head continues
/// from the tail's last challenge, and the closing branch closes the ring.
proof fn lemma_ring_assemble(
    points: Seq<nat>,
    p: nat,
    pk: nat,
    head: Seq<ChallProof>,
    closing: ChallProof,
    tail: Seq<ChallProof>,
    ind: int,
    e0: nat,
    e_mid: nat,
    e_fin: nat,
)
    requires
        0 <= ind < points.len(),
        head.len() == ind,
        tail.len() == points.len() - ind - 1,
        chain_ok(points, p, pk, tail, ind + 1, e0, e_mid),
        chain_ok(points, p, pk, head, 0, e_mid, e_fin),
        closing.challenge.scalar() == e_fin,
        branch_next(points, p, pk, ind, closing.challenge.scalar(), closing.response.scalar()) == e0,
    ensures
        ring_ok(points, p, pk, head + seq![closing] + tail),
{
    let pr = head + seq![closing] + tail;
    let n = points.len() as int;
    assert(pr.len() == n);
    assert(pr[ind] == closing);
    assert forall|i: int| 0 <= i < n - 1 implies #[trigger] ((i + 1) % n) == i + 1 by {
        lemma_small_mod((i + 1) as nat, n as nat);
    }
    assert(n % n == 0) by {
        lemma_mod_self_0(n);
    }
    assert forall|i: int| 0 <= i < n implies #[trigger] branch_next(
        points,
        p,
        pk,
        i,
        pr[i].challenge.scalar(),
        pr[i].response.scalar(),
    ) == pr[(i + 1) % n].challenge.scalar() by {
        if i < ind {
            assert(pr[i] == head[i]);
            assert((i + 1) % n == i + 1);
            if i < ind - 1 {
                assert(pr[i + 1] == head[i + 1]);
                assert(branch_next(
                    points,
                    p,
                    pk,
                    0 + i,
                    head[i].challenge.scalar(),
                    head[i].response.scalar(),
                ) == head[i + 1].challenge.scalar());
            } else {
                assert(i == ind - 1);
                assert(branch_next(
                    points,
                    p,
                    pk,
                    0 + head.len() - 1,
                    head[head.len() - 1].challenge.scalar(),
                    head[head.len() - 1].response.scalar(),
                ) == e_fin);
                assert(pr[i + 1] == closing);
            }
        } else if i == ind {
            if ind < n - 1 {
                assert((i + 1) % n == i + 1);
                assert(tail.len() > 0);
                assert(pr[ind + 1] == tail[0]);
                assert(tail[0].challenge.scalar() == e0);
            } else {
                assert(ind == n - 1);
                assert(tail.len() == 0);
                assert(e_mid == e0);
                assert((i + 1) % n == 0);
                if ind == 0 {
                    assert(head.len() == 0);
                    assert(e_fin == e_mid);
                    assert(pr[0] == closing);
                } else {
                    assert(pr[0] == head[0]);
                    assert(head[0].challenge.scalar() == e_mid);
                }
            }
        } else {
            let j = i - ind - 1;
            assert(pr[i] == tail[j]);
            if i < n - 1 {
                assert((i + 1) % n == i + 1);
                assert(pr[i + 1] == tail[j + 1]);
                assert(branch_next(
                    points,
                    p,
                    pk,
                    ind + 1 + j,
                    tail[j].challenge.scalar(),
                    tail[j].response.scalar(),
                ) == tail[j + 1].challenge.scalar());
            } else {
                assert(i == n - 1);
                assert(j == tail.len() - 1);
                assert(branch_next(
                    points,
                    p,
                    pk,
                    ind + 1 + tail.len() - 1,
                    tail[tail.len() - 1].challenge.scalar(),
                    tail[tail.len() - 1].response.scalar(),
                ) == e_mid);
                assert((i + 1) % n == 0);
                if ind == 0 {
                    assert(head.len() == 0);
                    assert(e_fin == e_mid);
                    assert(pr[0] == closing);
                } else {
                    assert(pr[0] == head[0]);
                    assert(head[0].challenge.scalar() == e_mid);
                }
            }
        }
    }
}

/// Build the one-of-n ring for an output card sourced from input position
/// `ind`: seed the challenge from the real commitments, simulate every other
/// branch with a random response, and close the ring with the real response.
fn one_in_n(p_key: &KeyType, points: &Vec<EncryptedValue>, ind: usize) -> (r: Vec<ChallProof>)
    requires
        ind < points@.len(),
    ensures
        r@.len() == points@.len(),
        ring_ok(
            dlogs(points@),
            emul(dlogs(points@)[ind as int], p_key.scalar()),
            emul(1, p_key.scalar()),
            r@,
        ),
{
    let n = points.len();
    let g = generator_value();
    let p = encrypt(&points[ind], p_key);
    let rr = rand_key();
    let public_key = encrypt(&g, p_key);
    let r_i0 = encrypt(&points[ind], &rr);
    let r_y0 = encrypt(&g, &rr);
    let mut e = hash_points(points, &r_y0, &p, &r_i0);
    let ghost ds = dlogs(points@);
    let ghost e0 = e.scalar();
    let ghost k = p_key.scalar();
    let mut tail: Vec<ChallProof> = Vec::new();
    let start = ind + 1;
    for i in start..n
        invariant
            n == points@.len(),
            ind < n,
            start == ind + 1,
            ds == dlogs(points@),
            k == p_key.scalar(),
            g.dlog() == 1,
            p.dlog() == emul(ds[ind as int], k),
            public_key.dlog() == emul(1, k),
            r_i0.dlog() == emul(ds[ind as int], rr.scalar()),
            r_y0.dlog() == emul(1, rr.scalar()),
            e0 == chal_of(ds.push(r_y0.dlog()).push(p.dlog()).push(r_i0.dlog())),
            tail@.len() == i - ind - 1,
            chain_ok(ds, p.dlog(), public_key.dlog(), tail@, ind + 1, e0, e.scalar()),
    {
        let s = rand_key();
        let r_i = linear_combination(&e, &p, &s, &points[i]);
        let r_y = linear_combination(&e, &public_key, &s, &g);
        let cp = ChallProof { challenge: e, response: s };
        let e_next = hash_points(points, &r_y, &p, &r_i);
        proof {
            assert(ds[i as int] == points@[i as int].dlog());
            assert(e_next.scalar() == branch_next(
                ds,
                p.dlog(),
                public_key.dlog(),
                i as int,
                cp.challenge.scalar(),
                cp.response.scalar(),
            ));
            lemma_chain_push(
                ds,
                p.dlog(),
                public_key.dlog(),
                tail@,
                ind + 1,
                e0,
                e.scalar(),
                cp,
                e_next.scalar(),
            );
        }
        tail.push(cp);
        e = e_next;
    }
    let ghost e_mid = e.scalar();
    let mut head: Vec<ChallProof> = Vec::new();
    for i in 0..ind
        invariant
            n == points@.len(),
            ind < n,
            ds == dlogs(points@),
            k == p_key.scalar(),
            g.dlog() == 1,
            p.dlog() == emul(ds[ind as int], k),
            public_key.dlog() == emul(1, k),
            r_i0.dlog() == emul(ds[ind as int], rr.scalar()),
            r_y0.dlog() == emul(1, rr.scalar()),
            e0 == chal_of(ds.push(r_y0.dlog()).push(p.dlog()).push(r_i0.dlog())),
            tail@.len() == n - ind - 1,
            chain_ok(ds, p.dlog(), public_key.dlog(), tail@, ind + 1, e0, e_mid),
            head@.len() == i,
            chain_ok(ds, p.dlog(), public_key.dlog(), head@, 0, e_mid, e.scalar()),
    {
        let s = rand_key();
        let r_i = linear_combination(&e, &p, &s, &points[i]);
        let r_y = linear_combination(&e, &public_key, &s, &g);
        let cp = ChallProof { challenge: e, response: s };
        let e_next = hash_points(points, &r_y, &p, &r_i);
        proof {
            assert(ds[i as int] == points@[i as int].dlog());
            assert(e_next.scalar() == branch_next(
                ds,
                p.dlog(),
                public_key.dlog(),
                i as int,
                cp.challenge.scalar(),
                cp.response.scalar(),
            ));
            lemma_chain_push(
                ds,
                p.dlog(),
                public_key.dlog(),
                head@,
                0,
                e_mid,
                e.scalar(),
                cp,
                e_next.scalar(),
            );
        }
        head.push(cp);
        e = e_next;
    }
    let ek = fr_mul(&e, p_key);
    let s_fin = fr_sub(&rr, &ek);
    let closing = ChallProof { challenge: e, response: s_fin };
    proof {
        lemma_masked_response(ds[ind as int], k, rr.scalar(), e.scalar());
        lemma_masked_response(1, k, rr.scalar(), e.scalar());
        assert(lincomb(e.scalar(), p.dlog(), s_fin.scalar(), ds[ind as int]) == r_i0.dlog());
        assert(lincomb(e.scalar(), public_key.dlog(), s_fin.scalar(), 1) == r_y0.dlog());
        assert(branch_next(
            ds,
            p.dlog(),
            public_key.dlog(),
            ind as int,
            closing.challenge.scalar(),
            closing.response.scalar(),
        ) == e0);
        lemma_ring_assemble(
            ds,
            p.dlog(),
            public_key.dlog(),
            head@,
            closing,
            tail@,
            ind as int,
            e0,
            e_mid,
            e.scalar(),
        );
    }
    let ghost gh = head@;
    let ghost gt = tail@;
    let mut res = head;
    res.push(closing);
    res.append(&mut tail);
    proof {
        assert(res@ =~= gh + seq![closing] + gt);
    }
    res
}

/// The ring sequences held by a vector of transcript vectors.
pub open spec fn rings_of(prs: Seq<Vec<ChallProof>>) -> Seq<Seq<ChallProof>> {
    prs.map_values(|v: Vec<ChallProof>| v@)
}

/// No two entries are the same group element.
pub open spec fn distinct_values(s: Seq<nat>) -> bool {
    forall|i: int, j: int| 0 <= i < j < s.len() ==> s[i] != s[j]
}

/// A valid shuffle proof against the verifier's own previous deck: the
/// claimed previous deck matches, the lengths agree, no output card repeats,
/// and every output position carries a valid one-of-n ring.
pub open spec fn shuffle_proof_ok(
    prev_c: Seq<nat>,
    aftr: Seq<nat>,
    pk: nat,
    prs: Seq<Seq<ChallProof>>,
    prev: Seq<nat>,
) -> bool {
    &&& prev_c == prev
    &&& aftr.len() == prev_c.len()
    &&& prs.len() == aftr.len()
    &&& distinct_values(aftr)
    &&& forall|i: int| 0 <= i < prs.len() ==> ring_ok(prev_c, aftr[i], pk, #[trigger] prs[i])
}

/// A shuffled, re-encrypted deck together with one ring transcript per
/// output position.
pub struct ShuffleWithProof {
    pub values_prev: Vec<EncryptedValue>,
    pub values_aftr: Vec<EncryptedValue>,
    pub public_key: EncryptedValue,
    pub proofs: Vec<Vec<ChallProof>>,
}

impl ShuffleWithProof {
    /// Shuffle and re-encrypt `values_prev` by `perm` and the masking key,
    /// proving each output position with a one-of-n ring.
    pub fn generate(
        values_prev: Vec<EncryptedValue>,
        p_key: &KeyType,
        perm: &Vec<usize>,
    ) -> (r: ShuffleWithProof)
        requires
            perm@.len() == values_prev@.len(),
            forall|i: int| 0 <= i < perm@.len() ==> (#[trigger] perm@[i]) < values_prev@.len(),
        ensures
            r.values_prev@ == values_prev@,
            r.public_key.dlog() == emul(1, p_key.scalar()),
            r.values_aftr@.len() == values_prev@.len(),
            forall|i: int|
                0 <= i < perm@.len() ==> (#[trigger] r.values_aftr@[i]).dlog() == emul(
                    values_prev@[perm@[i] as int].dlog(),
                    p_key.scalar(),
                ),
            r.proofs@.len() == values_prev@.len(),
            forall|i: int|
                0 <= i < perm@.len() ==> ring_ok(
                    dlogs(values_prev@),
                    r.values_aftr@[i].dlog(),
                    r.public_key.dlog(),
                    (#[trigger] r.proofs@[i])@,
                ),
    {
        let n = values_prev.len();
        let g = generator_value();
        let public_key = encrypt(&g, p_key);
        let mut values_aftr: Vec<EncryptedValue> = Vec::new();
        let mut proofs: Vec<Vec<ChallProof>> = Vec::new();
        for i in 0..n
            invariant
                n == values_prev@.len(),
                n == perm@.len(),
                forall|j: int| 0 <= j < n ==> (#[trigger] perm@[j]) < n,
                public_key.dlog() == emul(1, p_key.scalar()),
                values_aftr@.len() == i,
                proofs@.len() == i,
                forall|j: int|
                    0 <= j < i ==> (#[trigger] values_aftr@[j]).dlog() == emul(
                        values_prev@[perm@[j] as int].dlog(),
                        p_key.scalar(),
                    ),
                forall|j: int|
                    0 <= j < i ==> ring_ok(
                        dlogs(values_prev@),
                        values_aftr@[j].dlog(),
                        public_key.dlog(),
                        (#[trigger] proofs@[j])@,
                    ),
        {
            let ind = perm[i];
            let pp = encrypt(&values_prev[ind], p_key);
            let ring = one_in_n(p_key, &values_prev, ind);
            proof {
                assert(dlogs(values_prev@)[ind as int] == values_prev@[ind as int].dlog());
            }
            values_aftr.push(pp);
            proofs.push(ring);
        }
        ShuffleWithProof { values_prev, values_aftr, public_key, proofs }
    }

    /// Recompute every ring against the verifier's own previous deck, and
    /// check that no two output cards coincide. Returns false, and never
    /// panics, on any mismatch.
    pub fn verify(&self, prev: &Vec<EncryptedValue>) -> (r: bool)
        ensures
            r == shuffle_proof_ok(
                dlogs(self.values_prev@),
                dlogs(self.values_aftr@),
                self.public_key.dlog(),
                rings_of(self.proofs@),
                dlogs(prev@),
            ),
    {
        if !crate::encryption::decks_equal(&self.values_prev, prev) {
            return false;
        }
        let n = self.values_prev.len();
        if self.values_aftr.len() != n || self.proofs.len() != n {
            return false;
        }
        let ghost aftr = dlogs(self.values_aftr@);
        for i in 0..n
            invariant
                n == self.values_prev@.len(),
                n == self.values_aftr@.len(),
                n == self.proofs@.len(),
                aftr == dlogs(self.values_aftr@),
                forall|a: int, b: int| 0 <= a < b < n && a < i ==> aftr[a] != aftr[b],
        {
            for j in (i + 1)..n
                invariant
                    n == self.values_prev@.len(),
                    n == self.values_aftr@.len(),
                    i < n,
                    aftr == dlogs(self.values_aftr@),
                    forall|b: int| i < b < j ==> aftr[i as int] != aftr[b],
            {
                if crate::group::value_eq(&self.values_aftr[i], &self.values_aftr[j]) {
                    proof {
                        assert(aftr[i as int] == aftr[j as int]);
                        assert(!distinct_values(aftr));
                    }
                    return false;
                }
            }
        }
        for i in 0..n
            invariant
                n == self.values_prev@.len(),
                n == self.values_aftr@.len(),
                n == self.proofs@.len(),
                aftr == dlogs(self.values_aftr@),
                forall|a: int, b: int| 0 <= a < b < n ==> aftr[a] != aftr[b],
                forall|j: int|
                    0 <= j < i ==> ring_ok(
                        dlogs(self.values_prev@),
                        aftr[j],
                        self.public_key.dlog(),
                        #[trigger] rings_of(self.proofs@)[j],
                    ),
        {
            if !verify_1_in_n(
                &self.values_aftr[i],
                &self.values_prev,
                &self.public_key,
                &self.proofs[i],
            ) {
                proof {
                    assert(rings_of(self.proofs@)[i as int] == self.proofs@[i as int]@);
                }
                return false;
            }
            proof {
                assert(rings_of(self.proofs@)[i as int] == self.proofs@[i as int]@);
            }
        }
        true
    }
}

/// Completeness of the shuffle proof: a proof of the shape `generate`
/// promises, built over a duplicate-free previous deck with an injective
/// permutation and an invertible masking key, passes `verify` against that
/// same previous deck.
pub proof fn lemma_shuffle_proof_completeness(
    prev: Seq<nat>,
    aftr: Seq<nat>,
    pk: nat,
    prs: Seq<Seq<ChallProof>>,
    perm: Seq<int>,
    k: nat,
    ik: nat,
)
    requires
        perm.len() == prev.len(),
        aftr.len() == prev.len(),
        prs.len() == prev.len(),
        forall|i: int| 0 <= i < perm.len() ==> 0 <= #[trigger] perm[i] < prev.len(),
        forall|i: int, j: int| 0 <= i < j < perm.len() ==> perm[i] != perm[j],
        distinct_values(prev),
        forall|i: int| 0 <= i < prev.len() ==> #[trigger] prev[i] < group_order(),
        (k * ik) % group_order() == 1,
        pk == emul(1, k),
        forall|i: int| 0 <= i < aftr.len() ==> #[trigger] aftr[i] == emul(prev[perm[i]], k),
        forall|i: int| 0 <= i < prs.len() ==> ring_ok(prev, aftr[i], pk, #[trigger] prs[i]),
    ensures
        shuffle_proof_ok(prev, aftr, pk, prs, prev),
{
    assert forall|i: int, j: int| 0 <= i < j < aftr.len() implies aftr[i] != aftr[j] by {
        if aftr[i] == aftr[j] {
            lemma_emul_injective(prev[perm[i]], prev[perm[j]], k, ik);
            assert(prev[perm[i]] == prev[perm[j]]);
            assert(perm[i] != perm[j]);
            if perm[i] < perm[j] {
                assert(prev[perm[i]] != prev[perm[j]]);
            } else {
                assert(prev[perm[j]] != prev[perm[i]]);
            }
        }
    }
}

/// A Chaum–Pedersen transcript proving that `pp` re-encrypts `p` under a
/// known key: commitment `encrypt(p, r)`, challenge by hash, response
/// `r - e*key`.
fn mask_proof(p: &EncryptedValue, k: &KeyType, pp: &EncryptedValue) -> (r: ChallProof)
    requires
        pp.dlog() == emul(p.dlog(), k.scalar()),
    ensures
        cp_ok(p.dlog(), pp.dlog(), r.challenge.scalar(), r.response.scalar()),
{
    let rr = rand_key();
    let r_p = encrypt(p, &rr);
    let e = hash3(p, pp, &r_p);
    let ek = fr_mul(&e, k);
    let s = fr_sub(&rr, &ek);
    proof {
        lemma_masked_response(p.dlog(), k.scalar(), rr.scalar(), e.scalar());
        assert(lincomb(e.scalar(), pp.dlog(), s.scalar(), p.dlog()) == r_p.dlog());
    }
    ChallProof { challenge: e, response: s }
}

/// A valid re-encryption proof against the verifier's own previous deck:
/// the claimed previous deck matches, the lengths agree, and every position
/// carries a valid Chaum–Pedersen transcript.
pub open spec fn encrypt_proof_ok(
    prev_c: Seq<nat>,
    aftr: Seq<nat>,
    prs: Seq<ChallProof>,
    prev: Seq<nat>,
) -> bool {
    &&& prev_c == prev
    &&& aftr.len() == prev_c.len()
    &&& prs.len() == prev_c.len()
    &&& forall|i: int|
        0 <= i < prs.len() ==> cp_ok(
            prev_c[i],
            aftr[i],
            (#[trigger] prs[i]).challenge.scalar(),
            prs[i].response.scalar(),
        )
}

/// A batch of per-position re-encryptions, each with its Chaum–Pedersen
/// transcript.
pub struct EncryptWithProof {
    pub values_prev: Vec<EncryptedValue>,
    pub values_aftr: Vec<EncryptedValue>,
    pub proofs: Vec<ChallProof>,
}

impl EncryptWithProof {
    /// Re-encrypt every position with its own key and prove each step.
    pub fn generate(values_prev: Vec<EncryptedValue>, keys: &Vec<KeyType>) -> (r:
        EncryptWithProof)
        requires
            keys@.len() == values_prev@.len(),
        ensures
            r.values_prev@ == values_prev@,
            r.values_aftr@.len() == values_prev@.len(),
            r.proofs@.len() == values_prev@.len(),
            forall|i: int|
                0 <= i < values_prev@.len() ==> (#[trigger] r.values_aftr@[i]).dlog() == emul(
                    values_prev@[i].dlog(),
                    keys@[i].scalar(),
                ),
            forall|i: int|
                0 <= i < values_prev@.len() ==> cp_ok(
                    values_prev@[i].dlog(),
                    r.values_aftr@[i].dlog(),
                    (#[trigger] r.proofs@[i]).challenge.scalar(),
                    r.proofs@[i].response.scalar(),
                ),
    {
        let n = values_prev.len();
        let mut values_aftr: Vec<EncryptedValue> = Vec::new();
        let mut proofs: Vec<ChallProof> = Vec::new();
        for i in 0..n
            invariant
                n == values_prev@.len(),
                n == keys@.len(),
                values_aftr@.len() == i,
                proofs@.len() == i,
                forall|j: int|
                    0 <= j < i ==> (#[trigger] values_aftr@[j]).dlog() == emul(
                        values_prev@[j].dlog(),
                        keys@[j].scalar(),
                    ),
                forall|j: int|
                    0 <= j < i ==> cp_ok(
                        values_prev@[j].dlog(),
                        values_aftr@[j].dlog(),
                        (#[trigger] proofs@[j]).challenge.scalar(),
                        proofs@[j].response.scalar(),
                    ),
        {
            let pp = encrypt(&values_prev[i], &keys[i]);
            let cp = mask_proof(&values_prev[i], &keys[i], &pp);
            values_aftr.push(pp);
            proofs.push(cp);
        }
        EncryptWithProof { values_prev, values_aftr, proofs }
    }

    /// Recompute every transcript against the verifier's own previous deck.
    /// Returns false, and never panics, on any mismatch: a differing previous
    /// deck, differing lengths, or a transcript that fails recomputation.
    pub fn verify(&self, prev: &Vec<EncryptedValue>) -> (r: bool)
        ensures
            r == encrypt_proof_ok(
                dlogs(self.values_prev@),
                dlogs(self.values_aftr@),
                self.proofs@,
                dlogs(prev@),
            ),
    {
        if !crate::encryption::decks_equal(&self.values_prev, prev) {
            return false;
        }
        let n = self.values_prev.len();
        if self.values_aftr.len() != n || self.proofs.len() != n {
            return false;
        }
        for i in 0..n
            invariant
                n == self.values_prev@.len(),
                n == self.values_aftr@.len(),
                n == self.proofs@.len(),
                forall|j: int|
                    0 <= j < i ==> cp_ok(
                        dlogs(self.values_prev@)[j],
                        dlogs(self.values_aftr@)[j],
                        (#[trigger] self.proofs@[j]).challenge.scalar(),
                        self.proofs@[j].response.scalar(),
                    ),
        {
            let p = &self.values_prev[i];
            let pp = &self.values_aftr[i];
            let cp = &self.proofs[i];
            let r_p = linear_combination(&cp.challenge, pp, &cp.response, p);
            let e_v = hash3(p, pp, &r_p);
            if !fr_eq(&cp.challenge, &e_v) {
                proof {
                    assert(!cp_ok(
                        dlogs(self.values_prev@)[i as int],
                        dlogs(self.values_aftr@)[i as int],
                        self.proofs@[i as int].challenge.scalar(),
                        self.proofs@[i as int].response.scalar(),
                    ));
                }
                return false;
            }
        }
        true
    }
}

/// Completeness of the re-encryption proof: any proof with the shape that
/// `generate` promises passes `verify` against the same previous deck.
pub proof fn lemma_encrypt_proof_completeness(
    prev: Seq<nat>,
    aftr: Seq<nat>,
    prs: Seq<ChallProof>,
)
    requires
        aftr.len() == prev.len(),
        prs.len() == prev.len(),
        forall|i: int|
            0 <= i < prs.len() ==> cp_ok(
                prev[i],
                aftr[i],
                (#[trigger] prs[i]).challenge.scalar(),
                prs[i].response.scalar(),
            ),
    ensures
        encrypt_proof_ok(prev, aftr, prs, prev),
{
}

/// Multiplying two residues below the group order by the same invertible key
/// is injective: equal products force equal residues.
pub proof fn lemma_emul_injective(a: nat, b: nat, k: nat, ik: nat)
    requires
        a < group_order(),
        b < group_order(),
        (k * ik) % group_order() == 1,
        emul(a, k) == emul(b, k),
    ensures
        a == b,
{
    lemma_cipher_roundtrip(a, k, ik);
    lemma_cipher_roundtrip(b, k, ik);
}

} // verus!
