use mental_poker::encryption::{basic_deck, decks_equal, decrypt, Translator};
use mental_poker::group::EncryptedValue;
use mental_poker::shuffle::{PartyBasic, PartyState};

fn prepare_players() -> Vec<PartyBasic> {
    vec![PartyBasic::new(), PartyBasic::new(), PartyBasic::new()]
}

#[test]
fn validate_preparation() {
    let players = prepare_players();
    for player in players.iter() {
        assert_eq!(player.state, PartyState::WaitForShuffle);
    }
}

fn run_protocol(players: &mut Vec<PartyBasic>) {
    let mut deck: Vec<EncryptedValue> = basic_deck();
    loop {
        let mut done = true;
        for player in players.iter_mut() {
            player.make_turn(&mut deck).unwrap();
            done &= player.state == PartyState::Done;
        }
        if done {
            break;
        }
    }
}

#[test]
fn check_decks() {
    let mut players = prepare_players();
    run_protocol(&mut players);
    let (decks, keys): (Vec<_>, Vec<_>) = players.into_iter().map(|p| p.retrieve_deck()).unzip();
    for w in decks.windows(2) {
        assert!(decks_equal(&w[0], &w[1]));
    }
    assert!(decks.iter().all(|d| d.len() == 52));
    assert!(keys.iter().all(|k| k.len() == 52));
}

#[test]
fn decryption() {
    let mut players = prepare_players();
    run_protocol(&mut players);
    let (decks, keys): (Vec<_>, Vec<_>) = players.into_iter().map(|p| p.retrieve_deck()).unzip();
    let mut deck = decks.first().unwrap().clone();
    for party_keys in keys.iter() {
        for (value, key) in deck.iter_mut().zip(party_keys.iter()) {
            *value = decrypt(value, key);
        }
    }
    let translator = Translator::new(&basic_deck());
    let mut perm = deck
        .into_iter()
        .map(|v| translator.translate(v))
        .flatten()
        .collect::<Vec<usize>>();
    assert_ne!(perm, (0..52).collect::<Vec<usize>>());
    perm.sort();
    assert_eq!(perm, (0..52).collect::<Vec<usize>>());
}

#[test]
fn done_state_is_terminal() {
    let mut players = prepare_players();
    run_protocol(&mut players);
    let mut deck: Vec<EncryptedValue> = basic_deck();
    let player = players.first_mut().unwrap();
    assert!(player.is_done());
    player.make_turn(&mut deck).unwrap();
    assert_eq!(player.state, PartyState::Done);
}
