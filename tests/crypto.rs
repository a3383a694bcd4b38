use std::collections::HashSet;

use digital_vault::crypto::{
    combine_keys, decrypt_file, encrypt_file, generate_circle_keys, generate_cloud_creds,
    generate_key, generate_nonce, pad_key, unpad_key,
};
use digital_vault::error::AppError;
use digital_vault::vault::{Circle, Key, KeyPiece};

fn circle(name: &str, required: bool, comments: &[&str]) -> Circle {
    Circle {
        required,
        key_comments: comments.iter().map(|c| c.to_string()).collect(),
        name: name.to_string(),
        keys: None,
    }
}

fn get_basic_combo() -> Vec<Circle> {
    vec![circle("Friends", false, &["a", "b", "c", "d", "e"])]
}

fn circles_to_keys(circles: Vec<Circle>) -> Vec<KeyPiece> {
    let mut just_keys: Vec<KeyPiece> = Vec::new();
    for circle in circles {
        let mut keys = circle.keys.expect("Keys not set");
        just_keys.append(&mut keys);
    }
    just_keys
}

fn keys_are_unique(keys: &Vec<KeyPiece>, key: &Key) {
    let mut set: HashSet<KeyPiece> = HashSet::from_iter(keys.clone());
    assert_eq!(set.len(), keys.len(), "Non-unique keys");
    set.insert(key.to_vec());
    assert_eq!(set.len(), keys.len() + 1, "Non-unique keys - Main key included.");
}

fn test_circle_combination(circles: Vec<Circle>, threshold: u8) -> Result<(), AppError> {
    let key = generate_key();
    let circles_with_keys =
        generate_circle_keys(&key, circles, threshold).expect("Did not receive circles with keys.");
    let just_keys: Vec<KeyPiece> = circles_to_keys(circles_with_keys);
    keys_are_unique(&just_keys, &key);
    let result = combine_keys(just_keys)?;
    let zero_key = vec![0u8, 32];
    assert_ne!(zero_key, result, "Got zero key result");
    assert_eq!(result, key, "Key does not match input");
    Ok(())
}

fn get_test_data() -> Vec<u8> {
    let rand1 = generate_key();
    let rand2 = generate_key();
    let rand3 = generate_nonce();
    let mut buff: Vec<u8> = Vec::new();
    buff.extend_from_slice(rand1.as_slice());
    buff.extend_from_slice(rand2.as_slice());
    buff.extend_from_slice(rand3.as_slice());
    buff
}

#[test]
fn basic_key_combination() {
    let circles: Vec<Circle> = get_basic_combo();
    test_circle_combination(circles, 3).expect("Failed to do circle test");
}

#[test]
fn one_required_circle() {
    let circles = vec![
        circle("Friends", false, &["a", "b", "c", "d", "e"]),
        circle("Family", true, &["a"]),
    ];
    test_circle_combination(circles, 3).expect("Failed to do circle test");
}

#[test]
fn all_circles_required() {
    let circles = vec![
        circle("Friends", true, &["a", "b", "c", "d", "e"]),
        circle("Family", true, &["a", "b"]),
    ];
    test_circle_combination(circles, 3).expect("Failed to do circle test");
}

#[test]
fn complex() {
    let circles = vec![
        circle("One", true, &["a", "b", "c", "d", "e"]),
        circle("Two", true, &["a", "b"]),
        circle("Three", false, &["a", "b", "e"]),
        circle("Four", false, &["a"]),
    ];
    test_circle_combination(circles, 8).expect("Failed to do circle test");
}

#[test]
fn one() {
    let circles = vec![circle("One", true, &["a"])];
    test_circle_combination(circles, 1).expect("Failed to do circle test");
}

#[test]
fn two_keys() {
    let circles = vec![circle("One", true, &["a", "b"])];
    test_circle_combination(circles.clone(), 1).expect("Failed to do circle test");
    test_circle_combination(circles, 2).expect("Failed to do circle test");
}

#[test]
fn max_keys_in_one() {
    let mut key_comments = Vec::new();
    for c in 0u8..255 {
        key_comments.push(u8::to_string(&c));
    }
    let all_in_one_circle: Vec<Circle> = vec![Circle {
        required: true,
        key_comments,
        name: "One".to_string(),
        keys: None,
    }];
    test_circle_combination(all_in_one_circle.clone(), 3).expect("Failed to do circle test");
    test_circle_combination(all_in_one_circle.clone(), 200).expect("Failed to do circle test");
    test_circle_combination(all_in_one_circle, 255).expect("Failed to do circle test");
}

#[test]
fn max_keys_in_lots() {
    let mut circles: Vec<Circle> = Vec::new();
    for c in 0u8..(255 / 5) {
        let mut keys = Vec::new();
        for key in 0u8..5 {
            keys.push(format!("Key {}", key));
        }
        circles.push(Circle {
            required: c % 10 == 0,
            key_comments: keys,
            name: format!("Circle {}", c),
            keys: None,
        });
    }
    test_circle_combination(circles.clone(), 3).expect("Failed to do circle test");
    test_circle_combination(circles.clone(), 200).expect("Failed to do circle test");
    let required_only: Vec<Circle> = circles.into_iter().filter(|circle| !circle.required).collect();
    test_circle_combination(required_only.clone(), required_only.len() as u8)
        .expect("Failed to do circle test");
}

#[test]
fn minimum_provided() {
    let circles = vec![circle("One", true, &["a", "b", "a"])];
    let threshold: u8 = 2;
    let key = generate_key();
    let circles_with_keys =
        generate_circle_keys(&key, circles, threshold).expect("Did not receive circles with keys.");
    let mut just_keys: Vec<KeyPiece> = circles_to_keys(circles_with_keys);
    just_keys.remove(0);
    let result_key = combine_keys(just_keys).expect("Failed to combine");
    let zero_key = [0u8; 32];
    assert_ne!(result_key, zero_key, "Checking the result is not a zero key");
    assert_eq!(key, result_key);
}

#[test]
fn insufficient_provided() {
    let circles = vec![circle("One", true, &["a", "b", "a"])];
    let threshold: u8 = 2;
    let key = generate_key();
    let circles_with_keys =
        generate_circle_keys(&key, circles, threshold).expect("Did not receive circles with keys.");
    let mut just_keys: Vec<KeyPiece> = circles_to_keys(circles_with_keys);
    just_keys.remove(0);
    just_keys.remove(0);
    let result = combine_keys(just_keys);
    assert!(result.is_err());
    assert_eq!(
        result.expect_err("Expected error value, did not get one.").error_type,
        "indiv_combine".to_string()
    );
}

#[test]
fn wrong_provided() {
    let circles = vec![circle("One", true, &["a", "b", "a"])];
    let threshold: u8 = 2;
    let key = generate_key();
    let circles_with_keys =
        generate_circle_keys(&key, circles, threshold).expect("Did not receive circles with keys.");
    let mut just_keys: Vec<KeyPiece> = circles_to_keys(circles_with_keys);
    just_keys.remove(0);
    just_keys.push(Vec::from([
        3, 177, 254, 72, 26, 76, 65, 56, 154, 81, 198, 240, 46, 41, 59, 156, 229, 163, 178, 0,
        181, 217, 32, 67, 209, 164, 223, 111, 107, 93, 233, 195, 224, 243, 133, 84, 153, 72,
        213, 16, 150, 218, 72, 14, 97, 82, 10, 179, 160, 181, 182, 126, 240, 136, 253, 152,
        203, 179, 252, 237, 203, 90, 209, 186, 78, 224, 145, 193, 179, 126, 198, 116, 80, 28,
        83, 133, 154, 21, 170, 97, 40, 138, 163, 149, 227, 111, 228, 64, 59, 188, 85, 69, 48,
        146, 61, 229, 132, 127, 235, 235, 32, 186, 60, 24, 31, 49, 244, 40, 110, 126, 176, 47,
        144,
    ]));
    let result = combine_keys(just_keys);
    assert!(result.is_err());
    assert_eq!(
        result.expect_err("Expected error value, did not get one.").error_type,
        "indiv_combine".to_string()
    );
}

#[test]
fn simple_encryption_decrypt() {
    let key = generate_key();
    let nonce = generate_nonce();
    let test_data = get_test_data();
    let encrypted =
        encrypt_file(&key, &test_data, &[], nonce).expect("Failed to encrypt sample file");
    assert_eq!(encrypted.nonce, Vec::from(nonce.as_slice()));
    assert!(encrypted.ciphertext.len() > 0);
    let decrypted = decrypt_file(&key, encrypted).expect("Failed to decrypt");
    assert_eq!(decrypted, test_data, "Decrypted data does not match encrypted data");
}

#[test]
fn encrypt_with_aad() {
    let key = generate_key();
    let nonce = generate_nonce();
    let aad = "Lorem ipsum dolor sit amet, consectetur adipiscing elit. Proin hendrerit, nibh non volutpat laoreet, eros lacus placerat lacus, non scelerisque leo eros nec est. Mauris cursus diam hendrerit, finibus felis at, pellentesque sem. ".as_bytes();
    let test_data = get_test_data();
    let encrypted =
        encrypt_file(&key, &test_data, aad, nonce).expect("Failed to encrypt sample file");
    assert_eq!(encrypted.nonce, Vec::from(nonce.as_slice()));
    assert!(encrypted.ciphertext.len() > 0);
    assert_eq!(encrypted.aad, aad);
    let decrypted = decrypt_file(&key, encrypted).expect("Failed to decrypt");
    assert_eq!(decrypted, test_data, "Decrypted data does not match encrypted data");
}

#[test]
fn wrong_key_gives_error() {
    let key = generate_key();
    let other_key = generate_key();
    let nonce = generate_nonce();
    let test_data = get_test_data();
    let encrypted = encrypt_file(&key, &test_data, &[], nonce).expect("failed to encrypt");
    let decrypted = decrypt_file(&other_key, encrypted);
    assert!(decrypted.is_err());
}

// Further cases.

fn minted_pieces(circles: Vec<Circle>, threshold: u8) -> (Key, Vec<Vec<KeyPiece>>) {
    let key = generate_key();
    let out = generate_circle_keys(&key, circles, threshold).expect("split");
    (key, out.into_iter().map(|c| c.keys.expect("keys")).collect())
}

#[test]
fn ciphertext_is_message_plus_tag() {
    let key = generate_key();
    let nonce = generate_nonce();
    let data = vec![7u8; 100];
    let encrypted = encrypt_file(&key, &data, b"meta", nonce).expect("encrypt");
    assert_eq!(encrypted.ciphertext.len(), 116);
    assert_ne!(&encrypted.ciphertext[..100], &data[..]);
}

#[test]
fn wrong_aad_gives_error() {
    let key = generate_key();
    let nonce = generate_nonce();
    let data = get_test_data();
    let mut encrypted = encrypt_file(&key, &data, b"name: Test", nonce).expect("encrypt");
    encrypted.aad[0] ^= 1;
    assert!(decrypt_file(&key, encrypted).is_err());
}

#[test]
fn pad_and_unpad() {
    let share: Vec<u8> = (1..=33).collect();
    let padded = pad_key(share.clone());
    assert_eq!(padded[0], 33);
    assert_eq!(&padded[1..34], &share[..]);
    assert!(padded[34..].iter().all(|b| *b == 0));
    assert_eq!(unpad_key(&padded.to_vec()).expect("unpad"), share);
    let key: Vec<u8> = vec![9; 32];
    assert_eq!(unpad_key(&pad_key(key.clone()).to_vec()).expect("unpad"), key);
}

#[test]
fn unpad_rejects_bad_length_byte() {
    let mut padded = pad_key(vec![1; 33]).to_vec();
    padded[0] = 31;
    assert_eq!(unpad_key(&padded).unwrap_err().error_type, "unknown");
    assert_eq!(unpad_key(&vec![33; 63]).unwrap_err().error_type, "unknown");
}

#[test]
fn piece_lengths_follow_circles() {
    let circles = vec![
        circle("Friends", false, &["a", "b", "c", "d", "e"]),
        circle("Family", true, &["a"]),
    ];
    let (_, pieces) = minted_pieces(circles, 3);
    assert!(pieces[0].iter().all(|p| p.len() == 113));
    assert!(pieces[1].iter().all(|p| p.len() == 146));
}

#[test]
fn single_circle_any_three_of_five() {
    let (key, pieces) = minted_pieces(get_basic_combo(), 3);
    let p = &pieces[0];
    for (a, b, c) in [(0, 1, 2), (0, 2, 4), (1, 3, 4), (2, 3, 4)] {
        let sel = vec![p[a].clone(), p[b].clone(), p[c].clone()];
        assert_eq!(combine_keys(sel).expect("combine"), key);
    }
    let two = vec![p[1].clone(), p[3].clone()];
    assert_eq!(combine_keys(two).unwrap_err().error_type, "indiv_combine");
}

#[test]
fn duplicate_piece_counts_once() {
    let (_, pieces) = minted_pieces(get_basic_combo(), 3);
    let p = &pieces[0];
    let sel = vec![p[0].clone(), p[1].clone(), p[1].clone()];
    assert_eq!(combine_keys(sel).unwrap_err().error_type, "indiv_combine");
}

#[test]
fn friends_only_misses_family() {
    let circles = vec![
        circle("Friends", false, &["a", "b", "c", "d", "e"]),
        circle("Family", true, &["a"]),
    ];
    let (key, pieces) = minted_pieces(circles, 3);
    let friends = vec![pieces[0][0].clone(), pieces[0][1].clone(), pieces[0][2].clone()];
    assert_eq!(combine_keys(friends).unwrap_err().error_type, "circle_combine");
    let mixed = vec![pieces[0][3].clone(), pieces[0][4].clone(), pieces[1][0].clone()];
    assert_eq!(combine_keys(mixed).expect("combine"), key);
}

#[test]
fn both_required_circles_must_contribute() {
    let circles = vec![
        circle("Friends", true, &["a", "b", "c", "d", "e"]),
        circle("Family", true, &["a", "b"]),
    ];
    let (key, pieces) = minted_pieces(circles, 3);
    let one_circle = vec![pieces[0][0].clone(), pieces[0][1].clone(), pieces[0][2].clone()];
    assert_eq!(combine_keys(one_circle).unwrap_err().error_type, "circle_combine");
    let both = vec![pieces[0][0].clone(), pieces[1][1].clone(), pieces[0][4].clone()];
    assert_eq!(combine_keys(both).expect("combine"), key);
}

#[test]
fn foreign_piece_is_not_the_key() {
    let (key, pieces) = minted_pieces(get_basic_combo(), 3);
    let (_, other) = minted_pieces(get_basic_combo(), 3);
    let sel = vec![pieces[0][0].clone(), pieces[0][1].clone(), other[0][2].clone()];
    match combine_keys(sel) {
        Ok(k) => assert_ne!(k, key),
        Err(e) => assert_eq!(e.error_type, "indiv_combine"),
    }
}

#[test]
fn malformed_piece_length_is_refused() {
    let (_, pieces) = minted_pieces(get_basic_combo(), 3);
    let mut long = pieces[0][0].clone();
    long.extend_from_slice(&[0u8; 40]);
    let sel = vec![long, pieces[0][1].clone(), pieces[0][2].clone()];
    assert_eq!(combine_keys(sel).unwrap_err().error_type, "combine");
    let short = vec![vec![1u8; 50]];
    assert_eq!(combine_keys(short).unwrap_err().error_type, "combine");
}

#[test]
fn splitter_refuses_bad_configurations() {
    let key = generate_key();
    let e = generate_circle_keys(&key, get_basic_combo(), 6).unwrap_err();
    assert_eq!(e.error_type, "SSS");
    let e = generate_circle_keys(&key, get_basic_combo(), 0).unwrap_err();
    assert_eq!(e.error_type, "SSS");
    let e = generate_circle_keys(&key, vec![circle("Empty", false, &[])], 1).unwrap_err();
    assert_eq!(e.error_type, "SSS");
    let many: Vec<String> = (0..256).map(|i| i.to_string()).collect();
    let big = vec![Circle { required: false, key_comments: many, name: "Big".to_string(), keys: None }];
    let e = generate_circle_keys(&key, big, 3).unwrap_err();
    assert_eq!(e.error_type, "int_size");
}

#[test]
fn minted_circles_keep_their_details() {
    let circles = vec![
        circle("Friends", false, &["a", "b"]),
        circle("Family", true, &["c"]),
    ];
    let key = generate_key();
    let out = generate_circle_keys(&key, circles.clone(), 2).expect("split");
    for (o, c) in out.iter().zip(circles.iter()) {
        assert_eq!(o.name, c.name);
        assert_eq!(o.required, c.required);
        assert_eq!(o.key_comments, c.key_comments);
        assert_eq!(o.keys.as_ref().expect("keys").len(), c.key_comments.len());
    }
}

#[test]
fn share_token_is_key_prefix() {
    let (key, creds) = generate_cloud_creds();
    assert_eq!(creds.share_token, key[0..8].to_vec());
    assert_eq!(creds.owner_token.len(), 16);
}
