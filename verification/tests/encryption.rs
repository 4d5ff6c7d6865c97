use mental_poker::encryption::{
    basic_deck, decrypt, encrypt, keys_equal, mul_key, rand_key, short_deck, Translator,
};
use mental_poker::group::{generator_value, value_eq, zero_value, KeyType};
use mental_poker::serial::{key_from_bytes, key_to_bytes, value_from_bytes, value_to_bytes};

#[test]
fn starting_deck() {
    let deck = basic_deck();
    let g = generator_value();
    for (i, v) in deck.iter().enumerate() {
        assert!(value_eq(v, &encrypt(&g, &KeyType::from_u64(i as u64))));
    }
}

#[test]
fn translation() {
    let translator = Translator::new(&basic_deck());
    const INDEX: u64 = 10;
    let elem = encrypt(&generator_value(), &KeyType::from_u64(INDEX));
    assert_eq!(INDEX as usize, translator.translate(elem).unwrap());
}

#[test]
#[should_panic]
fn translation_fail() {
    let translator = Translator::new(&basic_deck());
    const INDEX: u64 = 60;
    let elem = encrypt(&generator_value(), &KeyType::from_u64(INDEX));
    translator.translate(elem).unwrap();
}

#[test]
fn translation_outside_domain_is_none() {
    let translator = Translator::new(&basic_deck());
    let elem = encrypt(&generator_value(), &KeyType::from_u64(52));
    assert!(translator.translate(elem).is_none());
}

#[test]
fn test_encrypt_decrypt() {
    let plaintext = encrypt(&generator_value(), &rand_key());
    let p_key = rand_key();
    let ciphertext = encrypt(&plaintext, &p_key);
    let plaintext_p = decrypt(&ciphertext, &p_key);
    assert!(value_eq(&plaintext, &plaintext_p));
}

#[test]
#[should_panic]
fn test_encrypt_decrypt_fail() {
    let plaintext = encrypt(&generator_value(), &rand_key());
    let p_key = rand_key();
    let other_key = rand_key();
    let ciphertext = encrypt(&plaintext, &p_key);
    let plaintext_p = decrypt(&ciphertext, &other_key);
    assert!(value_eq(&plaintext, &plaintext_p));
}

#[test]
fn lib_starting_deck() {
    let deck = basic_deck();
    let g = generator_value();
    for (i, v) in deck.iter().enumerate() {
        assert!(value_eq(v, &encrypt(&g, &KeyType::from_u64(i as u64))));
    }
}

#[test]
fn lib_translation() {
    let translator = Translator::new(&basic_deck());
    const INDEX: u64 = 10;
    let elem = encrypt(&generator_value(), &KeyType::from_u64(INDEX));
    assert_eq!(INDEX as usize, translator.translate(elem).unwrap());
}

#[test]
#[should_panic]
fn lib_translation_fail() {
    let translator = Translator::new(&basic_deck());
    const INDEX: u64 = 60;
    let elem = encrypt(&generator_value(), &KeyType::from_u64(INDEX));
    translator.translate(elem).unwrap();
}

#[test]
fn test_eq() {
    let g = encrypt(&generator_value(), &rand_key());
    let s1 = rand_key();
    let s2 = rand_key();
    let s = mul_key(&s1, &s2);
    let mut g1 = encrypt(&g, &s1);
    let mut g2 = encrypt(&g, &s2);
    g1 = encrypt(&g1, &s2);
    g2 = encrypt(&g2, &s1);
    let g3 = encrypt(&g, &s);
    let ser1 = value_to_bytes(&g1);
    let ser2 = value_to_bytes(&g2);
    let ser3 = value_to_bytes(&g3);
    assert_eq!(ser1, ser2);
    assert_eq!(ser1, ser3);
}

#[test]
fn group_serialize_deserialize_gen() {
    let g = generator_value();
    let serialized = value_to_bytes(&g);
    let deserialized = value_from_bytes(&serialized).unwrap();
    assert!(value_eq(&deserialized, &g));
}

#[test]
fn group_serialize_deserialize_zero() {
    let g = zero_value();
    let serialized = value_to_bytes(&g);
    let deserialized = value_from_bytes(&serialized).unwrap();
    assert!(value_eq(&deserialized, &g));
}

#[test]
fn group_serialize_deserialize_rand() {
    let g = encrypt(&generator_value(), &rand_key());
    let serialized = value_to_bytes(&g);
    let deserialized = value_from_bytes(&serialized).unwrap();
    assert!(value_eq(&deserialized, &g));
}

#[test]
fn scalar_serialize_deserialize_zero() {
    let g = KeyType::from_u64(0);
    let serialized = key_to_bytes(&g);
    let deserialized = key_from_bytes(&serialized).unwrap();
    assert!(keys_equal(&deserialized, &g));
}

#[test]
fn scalar_serialize_deserialize_gen() {
    let g = KeyType::from_u64(1);
    let serialized = key_to_bytes(&g);
    let deserialized = key_from_bytes(&serialized).unwrap();
    assert!(keys_equal(&deserialized, &g));
}

#[test]
fn scalar_serialize_deserialize_rand() {
    let g = rand_key();
    let serialized = key_to_bytes(&g);
    let deserialized = key_from_bytes(&serialized).unwrap();
    assert!(keys_equal(&deserialized, &g));
}

#[test]
fn encrypt_commutes_with_composed_key() {
    let v = encrypt(&generator_value(), &KeyType::from_u64(7));
    let k1 = rand_key();
    let k2 = rand_key();
    let one_way = encrypt(&encrypt(&v, &k1), &k2);
    let other_way = encrypt(&encrypt(&v, &k2), &k1);
    let composed = encrypt(&v, &mul_key(&k1, &k2));
    assert!(value_eq(&one_way, &other_way));
    assert!(value_eq(&one_way, &composed));
}

#[test]
fn base_deck_translates_to_own_index() {
    let deck = basic_deck();
    let translator = Translator::new(&deck);
    for (i, v) in deck.iter().enumerate() {
        assert_eq!(translator.translate(*v), Some(i));
    }
}

#[test]
fn short_deck_positions() {
    let deck = short_deck();
    assert_eq!(deck.len(), 16);
    let g = generator_value();
    let translator = Translator::new(&basic_deck());
    for i in 0..4u64 {
        for j in 9..13u64 {
            let ind = i * 13 + j;
            let pos = (i * 4 + j - 9) as usize;
            assert!(value_eq(&deck[pos], &encrypt(&g, &KeyType::from_u64(ind))));
            assert_eq!(translator.translate(deck[pos]), Some(ind as usize));
        }
    }
}
