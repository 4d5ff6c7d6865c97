use mental_poker::encryption::{basic_deck, decrypt, short_deck, Translator};
use mental_poker::moves::MoveError;
use mental_poker::player::{encrypt_round, fold_keys, shuffle_round, Owner, Player};

/// Two parties run the verifiable deck preparation over a 16-card deck;
/// afterwards both sides' combined keys open the 16 distinct original cards,
/// and a draw resolves for player 0 while player 1 records the ownership.
#[test]
fn two_party_preparation_and_draw() {
    let deck = short_deck();

    // Party 0 shuffles and proves; party 1 verifies against its own deck.
    let (sp0, mask0) = shuffle_round(deck.clone()).unwrap();
    assert!(sp0.verify(&deck));

    // Party 1 shuffles party 0's output and proves; party 0 verifies.
    let (sp1, mask1) = shuffle_round(sp0.values_aftr.clone()).unwrap();
    assert!(sp1.verify(&sp0.values_aftr));

    // Party 0 re-encrypts party 1's output per position; party 1 verifies.
    let (ep0, mut keys0) = encrypt_round(sp1.values_aftr.clone()).unwrap();
    assert!(ep0.verify(&sp1.values_aftr));

    // Party 1 re-encrypts party 0's output per position; party 0 verifies.
    let (ep1, mut keys1) = encrypt_round(ep0.values_aftr.clone()).unwrap();
    assert!(ep1.verify(&ep0.values_aftr));

    // Each side folds its per-position keys with its masking key.
    fold_keys(&mut keys0, &mask0);
    fold_keys(&mut keys1, &mask1);
    let final_deck = ep1.values_aftr.clone();

    // Both sides' keys together open the 16 distinct original identities.
    let translator = Translator::new(&basic_deck());
    let base_translator = Translator::new(&basic_deck());
    let mut seen: Vec<usize> = Vec::new();
    for i in 0..final_deck.len() {
        let opened = decrypt(&decrypt(&final_deck[i], &keys0[i]), &keys1[i]);
        let index = translator.translate(opened).unwrap();
        assert!(!seen.contains(&index));
        seen.push(index);
    }
    let mut expected: Vec<usize> = Vec::new();
    for i in 0..4 {
        for j in 9..13 {
            expected.push(i * 13 + j);
        }
    }
    seen.sort();
    assert_eq!(seen, expected);

    // Player 0 draws the top card; player 1 grants it and records ownership.
    let mut p0 = Player::new("p0".to_string(), final_deck.clone(), keys0);
    let mut p1 = Player::new("p1".to_string(), final_deck, keys1);
    let top = p0.top_of_deck().unwrap();
    assert_eq!(top, 0);
    let granted = p1.grant_draw(0, top).unwrap();
    let drawn = p0.resolve_draw(top, &vec![granted]).unwrap();
    assert_eq!(drawn.ind, 0);
    assert_eq!(p1.owners[0], Some(Owner::Other(0)));
    let drawn_index = base_translator.translate(basic_deck()[drawn.card.index()]).unwrap();
    assert_eq!(drawn_index, drawn.card.index());
    assert!(expected.contains(&drawn_index));
    assert_eq!(p0.show_hand(), vec![drawn]);
    assert_eq!(p0.deck_size(), 15);

    // Player 0 plays the drawn card; player 1 resolves its identity.
    let reveal = p0.play_card(drawn.ind).unwrap();
    let resolved = p1.resolve_played(0, drawn.ind, &reveal).unwrap();
    assert_eq!(resolved, drawn.card);
}

#[test]
fn grant_draw_rejects_wrong_position() {
    let deck = short_deck();
    let keys: Vec<_> = (0..deck.len())
        .map(|_| mental_poker::encryption::rand_key())
        .collect();
    let mut p = Player::new("p".to_string(), deck, keys);
    assert!(matches!(p.grant_draw(0, 5), Err(MoveError::WrongIndex)));
    assert!(p.grant_draw(0, 0).is_ok());
}

#[test]
fn resolve_played_rejects_unowned_position() {
    let deck = short_deck();
    let keys: Vec<_> = (0..deck.len())
        .map(|_| mental_poker::encryption::rand_key())
        .collect();
    let reveal = keys[0];
    let p = Player::new("p".to_string(), deck, keys);
    assert_eq!(p.resolve_played(0, 0, &reveal), Err(MoveError::NotOwner));
    assert_eq!(p.resolve_played(0, 99, &reveal), Err(MoveError::WrongIndex));
}

#[test]
fn resolve_draw_rejects_wrong_key() {
    let deck = short_deck();
    let keys: Vec<_> = (0..deck.len())
        .map(|_| mental_poker::encryption::rand_key())
        .collect();
    let mut p = Player::new("p".to_string(), deck, keys);
    // A random key from a dishonest peer leaves a value outside the deck.
    let bogus = mental_poker::encryption::rand_key();
    assert_eq!(p.resolve_draw(0, &vec![bogus]), Err(MoveError::UnknownCard));
    // A zero key cannot decrypt at all.
    let zero = mental_poker::group::KeyType::from_u64(0);
    assert_eq!(p.resolve_draw(0, &vec![zero]), Err(MoveError::BadKey));
}
