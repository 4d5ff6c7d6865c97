use mental_poker::encryption::{basic_deck, decrypt, encrypt, mul_key, rand_key, short_deck, Translator};
use mental_poker::group::KeyType;
use mental_poker::serial::{key_from_bytes, key_to_bytes};
use mental_poker::verifiable::{ChallProof, EncryptWithProof, ShuffleWithProof};
use rand::seq::SliceRandom;

fn shuffled_identity(n: usize) -> Vec<usize> {
    let mut perm: Vec<usize> = (0..n).collect();
    perm.shuffle(&mut rand::thread_rng());
    perm
}

#[test]
fn shuffle_with_proof() {
    let deck = basic_deck();
    let p_key = rand_key();
    let perm = shuffled_identity(deck.len());
    let proof = ShuffleWithProof::generate(deck.clone(), &p_key, &perm);
    let trans = Translator::new(&basic_deck());
    for i in proof.values_aftr.iter() {
        trans.translate(decrypt(i, &p_key)).unwrap();
    }
    assert!(proof.verify(&deck));
}

#[test]
fn encrypt_with_proof() {
    let deck = basic_deck();
    let keys: Vec<KeyType> = (0..deck.len()).map(|_| rand_key()).collect();
    let proof = EncryptWithProof::generate(deck.clone(), &keys);
    let trans = Translator::new(&basic_deck());
    for (v, k) in proof.values_aftr.iter().zip(keys.iter()) {
        trans.translate(decrypt(v, k)).unwrap();
    }
    assert!(proof.verify(&deck));
}

#[test]
fn shuffle_with_proof_short() {
    let deck = short_deck();
    let p_key = rand_key();
    let perm = shuffled_identity(deck.len());
    let proof = ShuffleWithProof::generate(deck.clone(), &p_key, &perm);
    let trans = Translator::new(&basic_deck());
    for i in proof.values_aftr.iter() {
        trans.translate(decrypt(i, &p_key)).unwrap();
    }
    assert!(proof.verify(&deck));
}

#[test]
fn encrypt_with_proof_short() {
    let deck = short_deck();
    let keys: Vec<KeyType> = (0..deck.len()).map(|_| rand_key()).collect();
    let proof = EncryptWithProof::generate(deck.clone(), &keys);
    let trans = Translator::new(&basic_deck());
    for (v, k) in proof.values_aftr.iter().zip(keys.iter()) {
        trans.translate(decrypt(v, k)).unwrap();
    }
    assert!(proof.verify(&deck));
}

#[test]
fn shuffle_proof_rejects_mutated_card() {
    let deck = short_deck();
    let p_key = rand_key();
    let perm = shuffled_identity(deck.len());
    let mut proof = ShuffleWithProof::generate(deck.clone(), &p_key, &perm);
    proof.values_aftr[3] = encrypt(&proof.values_aftr[3], &rand_key());
    assert!(!proof.verify(&deck));
}

#[test]
fn shuffle_proof_rejects_wrong_previous_deck() {
    let deck = short_deck();
    let p_key = rand_key();
    let perm = shuffled_identity(deck.len());
    let proof = ShuffleWithProof::generate(deck, &p_key, &perm);
    let other = basic_deck();
    assert!(!proof.verify(&other));
}

#[test]
fn shuffle_proof_rejects_duplicate_cards() {
    let deck = short_deck();
    let p_key = rand_key();
    let perm = shuffled_identity(deck.len());
    let mut proof = ShuffleWithProof::generate(deck.clone(), &p_key, &perm);
    proof.values_aftr[1] = proof.values_aftr[0];
    assert!(!proof.verify(&deck));
}

#[test]
fn encrypt_proof_rejects_altered_response() {
    let deck = short_deck();
    let keys: Vec<KeyType> = (0..deck.len()).map(|_| rand_key()).collect();
    let mut proof = EncryptWithProof::generate(deck.clone(), &keys);
    let bad = mul_key(&proof.proofs[0].response, &KeyType::from_u64(2));
    proof.proofs[0] = ChallProof { challenge: proof.proofs[0].challenge, response: bad };
    assert!(!proof.verify(&deck));
}

#[test]
fn encrypt_proof_rejects_altered_challenge() {
    let deck = short_deck();
    let keys: Vec<KeyType> = (0..deck.len()).map(|_| rand_key()).collect();
    let mut proof = EncryptWithProof::generate(deck.clone(), &keys);
    let bad = mul_key(&proof.proofs[5].challenge, &KeyType::from_u64(3));
    proof.proofs[5] = ChallProof { challenge: bad, response: proof.proofs[5].response };
    assert!(!proof.verify(&deck));
}

/// Corrupt one byte of a transmitted response scalar: the re-decoded proof
/// must fail verification and must not panic.
#[test]
fn shuffle_proof_rejects_corrupted_response_byte() {
    let deck = short_deck();
    let p_key = rand_key();
    let perm = shuffled_identity(deck.len());
    let mut proof = ShuffleWithProof::generate(deck.clone(), &p_key, &perm);
    let original = proof.proofs[0][0].response;
    let bytes = key_to_bytes(&original);
    let mut corrupted = None;
    'outer: for pos in 0..bytes.len() {
        for bit in 0..8u8 {
            let mut candidate = bytes.clone();
            candidate[pos] ^= 1 << bit;
            if let Some(k) = key_from_bytes(&candidate) {
                corrupted = Some(k);
                break 'outer;
            }
        }
    }
    let challenge = proof.proofs[0][0].challenge;
    proof.proofs[0][0] = ChallProof { challenge, response: corrupted.unwrap() };
    assert!(!proof.verify(&deck));
}

#[test]
fn shuffle_proof_rejects_truncated_ring() {
    let deck = short_deck();
    let p_key = rand_key();
    let perm = shuffled_identity(deck.len());
    let mut proof = ShuffleWithProof::generate(deck.clone(), &p_key, &perm);
    proof.proofs[2].pop();
    assert!(!proof.verify(&deck));
}
