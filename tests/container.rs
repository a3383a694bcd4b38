use digital_vault::container::{
    mint_keys, new_public_info, open_vault, public_info, seal_vault, unlock_cloud, unlock_vault,
};
use digital_vault::crypto::{generate_key, generate_nonce};
use digital_vault::error::{app_error, make_error};
use digital_vault::meta::{decode_meta, encode_meta};
use digital_vault::notice::privacy_notice;
use digital_vault::util::file_name_from;
use digital_vault::vault::{
    Circle, KeyCollection, KeyPiece, PersonalInfo, ShareConfiguration, Vault, VaultType,
};

fn basic_vault() -> Vault {
    Vault {
        vault_type: VaultType::Offline,
        personal_info: PersonalInfo {
            name: "Test".to_string(),
            email_address: "test@example.com".to_string(),
            full_legal_name: None,
            phone_number: None,
            guidance_doc: None,
            address: None,
        },
        share_config: ShareConfiguration {
            required: 3,
            circles: vec![Circle {
                required: false,
                key_comments: ["a", "b", "c", "d", "e"].iter().map(|s| s.to_string()).collect(),
                name: "Friends".to_string(),
                keys: None,
            }],
        },
        vault_folder: "/foo/bar".to_string(),
        alert_duration: 0,
        reminder_period: 0,
        keys: None,
    }
}

fn all_pieces(kc: &KeyCollection) -> Vec<KeyPiece> {
    let mut out = Vec::new();
    for c in &kc.share_keys {
        out.extend(c.keys.clone().expect("keys"));
    }
    out
}

#[test]
fn encode_works() {
    let mut f: Vec<u8> = Vec::new();
    let meta = b"Test_encode foo@bar.com /foo/bar".to_vec();
    let res = encode_meta(&mut f, meta);
    assert!(res.len() > 0);
}

#[test]
fn frame_round_trip() {
    let mut out: Vec<u8> = Vec::new();
    let meta: Vec<u8> = (0..300u32).map(|i| (i % 256) as u8).collect();
    let aad = encode_meta(&mut out, meta.clone());
    assert_eq!(aad, meta);
    assert_eq!(&out[0..4], &[0, 0, 1, 44]);
    out.extend_from_slice(b"ciphertext");
    let (raw, rest) = decode_meta(&out).expect("decode");
    assert_eq!(raw, meta);
    assert_eq!(rest, b"ciphertext".to_vec());
}

#[test]
fn truncated_frame_is_io_error() {
    assert_eq!(decode_meta(&[0, 0]).unwrap_err().error_type, "io");
    assert_eq!(decode_meta(&[0, 0, 0, 5, 1, 2]).unwrap_err().error_type, "io");
    let (raw, rest) = decode_meta(&[0, 0, 0, 0]).expect("empty meta");
    assert!(raw.is_empty() && rest.is_empty());
}

#[test]
fn seal_then_open_with_key() {
    let key = generate_key();
    let nonce = generate_nonce();
    let archive = b"archive bytes".to_vec();
    let meta = b"public".to_vec();
    let sealed = seal_vault(&key, nonce, meta.clone(), &archive).expect("seal");
    assert_eq!(sealed.len(), 4 + meta.len() + archive.len() + 16);
    let (raw, ct) = decode_meta(&sealed).expect("decode");
    assert_eq!(raw, meta);
    let opened = open_vault(&key, &nonce, raw, ct).expect("open");
    assert_eq!(opened, archive);
}

#[test]
fn open_with_wrong_key_or_length() {
    let key = generate_key();
    let nonce = generate_nonce();
    let sealed = seal_vault(&key, nonce, b"m".to_vec(), &b"data".to_vec()).expect("seal");
    let (raw, ct) = decode_meta(&sealed).expect("decode");
    let other = generate_key();
    assert_eq!(open_vault(&other, &nonce, raw.clone(), ct.clone()).unwrap_err().error_type, "crypto");
    assert_eq!(open_vault(&key[0..16], &nonce, raw.clone(), ct.clone()).unwrap_err().error_type, "key_length");
    assert_eq!(open_vault(&key, &nonce[0..8], raw, ct).unwrap_err().error_type, "crypto");
}

#[test]
fn create_and_unlock_with_pieces() {
    let vault = basic_vault();
    let (kc, creds) = mint_keys(&vault).expect("mint").expect("fresh keys");
    assert_eq!(creds.share_token, kc.main[0..8].to_vec());
    let nonce = generate_nonce();
    let info = public_info(&vault, nonce, "/tmp/out".to_string());
    assert_eq!(info.name, "Test");
    assert_eq!(info.email_address, "test@example.com");
    assert_eq!(info.share_config.required, 3);
    assert_eq!(info.nonce.len(), 12);
    assert!(info.share_config.circles.iter().all(|c| c.keys.is_none()));
    let archive = b"tar image".to_vec();
    let sealed = seal_vault(&kc.main, nonce, b"serialized public info".to_vec(), &archive).expect("seal");
    let (raw, ct) = decode_meta(&sealed).expect("decode");
    let pieces = all_pieces(&kc);
    let three = vec![pieces[0].clone(), pieces[2].clone(), pieces[4].clone()];
    assert_eq!(unlock_vault(three, &nonce, raw.clone(), ct.clone()).expect("unlock"), archive);
    let two = vec![pieces[0].clone(), pieces[2].clone()];
    assert_eq!(unlock_vault(two, &nonce, raw, ct).unwrap_err().error_type, "indiv_combine");
}

#[test]
fn tampered_prologue_fails_with_crypto() {
    let vault = basic_vault();
    let (kc, _) = mint_keys(&vault).expect("mint").expect("fresh keys");
    let nonce = generate_nonce();
    let mut sealed =
        seal_vault(&kc.main, nonce, b"name: Test".to_vec(), &b"archive".to_vec()).expect("seal");
    sealed[6] ^= 0x20;
    let (raw, ct) = decode_meta(&sealed).expect("decode");
    let pieces = all_pieces(&kc);
    let err = unlock_vault(pieces, &nonce, raw, ct).unwrap_err();
    assert_eq!(err.error_type, "crypto");
}

#[test]
fn existing_keys_are_reused() {
    let mut vault = basic_vault();
    let (kc, _) = mint_keys(&vault).expect("mint").expect("fresh keys");
    vault.keys = Some(kc);
    assert!(mint_keys(&vault).expect("mint").is_none());
}

#[test]
fn minted_pieces_are_distinct() {
    let vault = basic_vault();
    let (kc, _) = mint_keys(&vault).expect("mint").expect("fresh keys");
    let pieces = all_pieces(&kc);
    for i in 0..pieces.len() {
        assert_ne!(pieces[i], kc.main.to_vec());
        for j in 0..i {
            assert_ne!(pieces[i], pieces[j]);
        }
    }
}

#[test]
fn cloud_unlock_gives_share_token() {
    let vault = basic_vault();
    let (kc, creds) = mint_keys(&vault).expect("mint").expect("fresh keys");
    let pieces = all_pieces(&kc);
    let token = unlock_cloud(pieces[1..4].to_vec()).expect("unlock");
    assert_eq!(token.to_vec(), creds.share_token);
    assert_eq!(unlock_cloud(pieces[1..3].to_vec()).unwrap_err().error_type, "indiv_combine");
}

#[test]
fn max_slots_in_one_required_circle() {
    for t in [3u8, 200, 255] {
        let mut vault = basic_vault();
        vault.share_config.required = t;
        vault.share_config.circles = vec![Circle {
            required: true,
            key_comments: (0..255).map(|i| i.to_string()).collect(),
            name: "One".to_string(),
            keys: None,
        }];
        let (kc, _) = mint_keys(&vault).expect("mint").expect("fresh keys");
        let pieces = all_pieces(&kc);
        assert_eq!(pieces.len(), 255);
        let sel = pieces[(255 - t as usize)..].to_vec();
        assert_eq!(unlock_cloud(sel).expect("unlock").to_vec(), kc.main[0..8].to_vec());
    }
}

#[test]
fn notice_substitutes_details() {
    let mut info = basic_vault().personal_info;
    info.phone_number = Some("555-0100".to_string());
    let text = String::from_utf8(privacy_notice(&info)).expect("utf8");
    assert!(text.starts_with("This folder contains the contents of Test's digital vault."));
    assert!(text.ends_with("\nTest\ntest@example.com\n\n555-0100\n\n\n"));
    assert!(!text.contains('{'));
    assert!(!text.contains("None"));
}

#[test]
fn error_helpers() {
    let e = app_error("boom".to_string());
    assert_eq!(e.error_type, "unknown");
    assert_eq!(e.message, "boom");
    let e = make_error("fs", "File does not exist");
    assert_eq!(e.error_type, "fs");
    assert_eq!(e.message, "File does not exist");
}

#[test]
fn file_names_render_decimal() {
    assert_eq!(file_name_from(0, 0), b"0-0".to_vec());
    assert_eq!(file_name_from(12345, 1700000000123), b"12345-1700000000123".to_vec());
    assert_eq!(
        file_name_from(u64::MAX, 9),
        format!("{}-9", u64::MAX).into_bytes()
    );
    let a = file_name_from(1, 23);
    let b = file_name_from(12, 3);
    let c = file_name_from(1, 24);
    assert_ne!(a, b);
    assert_ne!(a, c);
    assert_ne!(b, c);
}

type PublicInfoRecord = ((u8, Vec<(bool, Vec<String>, String, Option<Vec<Vec<u8>>>)>), String, String, Vec<u8>, String);

#[test]
fn basic_encode_decode() {
    let info: PublicInfoRecord = (
        (4, vec![]),
        "Test_encode".to_string(),
        "foo@bar.com".to_string(),
        vec![0, 1, 2, 3, 4, 5],
        "/foo/bar".to_string(),
    );
    let mut writable: Vec<u8> = Vec::new();
    let serialized = rmp_serde::to_vec(&info).expect("serialize");
    let res = encode_meta(&mut writable, serialized);
    assert!(res.len() > 0);

    let result = decode_meta(&writable);
    assert!(result.is_ok(), "Failed to decode");
    let (raw, rest) = result.unwrap();
    assert!(rest.is_empty());
    assert_eq!(raw, res);
    let meta: PublicInfoRecord = rmp_serde::from_slice(&raw).expect("deserialize");
    assert_eq!(info.1, meta.1, "Returned meta is incorrect");
    assert_eq!(info.2, meta.2, "Returned meta is incorrect");
    assert_eq!(info.3, meta.3, "Returned meta is incorrect");
    assert_eq!(info.4, meta.4, "Returned meta is incorrect");
}

#[test]
fn reused_keys_still_get_a_fresh_nonce() {
    let mut vault = basic_vault();
    let (kc, _) = mint_keys(&vault).expect("mint").expect("fresh keys");
    vault.keys = Some(kc);
    let (n1, info1) = new_public_info(&vault, "/tmp/a".to_string());
    let (n2, info2) = new_public_info(&vault, "/tmp/a".to_string());
    assert_ne!(n1, n2);
    assert_eq!(info1.nonce, n1.to_vec());
    assert_eq!(info2.nonce, n2.to_vec());
    assert_eq!(info1.path, "/tmp/a");
}
