//! The lifecycle of a sealed vault: minting keys, sealing the archive behind
//! the framed public metadata, and opening it with the key or with pieces.
use vstd::prelude::*;

use crate::aead::{opened, sealable, sealed};
use crate::bytes::{join_bytes, lemma_bytes_deep_view, lemma_push_deep_view, sub_bytes};
use crate::crypto::{
    combine_keys, combine_outcome, copy_strings, decrypt_file, encrypt_file, generate_circle_keys,
    generate_cloud_creds, generate_nonce, minted, required_before, required_total, slots_before, slots_total,
    split_error_tag, split_of, split_ok, EncryptedFile,
};
use crate::error::{make_error, AppResult};
use crate::meta::{encode_meta, framed, lemma_unframe_framed, unframe};
use crate::vault::{
    Circle, CloudKeyData, Key, KeyCollection, KeyPiece, PublicInfo, ShareConfiguration, Vault,
};

verus! {

broadcast use lemma_bytes_deep_view;

/// What creating a vault hands back: its keys, where it was written, and the
/// cloud handles when fresh keys were minted.
#[derive(Debug)]
pub struct CreateResponse {
    pub keys: KeyCollection,
    pub cloud_keys: Option<CloudKeyData>,
    pub path: String,
}

/// Mints the keys of a vault that has none: a fresh vault key with its cloud
/// handles, split over the vault's circles. Returns `None` for a vault that
/// already holds its keys, which are then reused.
pub fn mint_keys(vault: &Vault) -> (r: AppResult<Option<(KeyCollection, CloudKeyData)>>)
    ensures
        vault.keys is Some ==> r matches Ok(None),
        vault.keys is None ==> match r {
            Ok(Some((kc, creds))) => {
                &&& split_ok(vault.share_config.circles@, vault.share_config.required as nat)
                &&& split_of(
                    kc.main@,
                    vault.share_config.circles@,
                    vault.share_config.required as nat,
                    kc.share_keys@,
                )
                &&& creds.share_token@ == kc.main@.subrange(0, 8)
                &&& creds.owner_token@.len() == 16
            },
            Ok(None) => false,
            Err(e) => !split_ok(vault.share_config.circles@, vault.share_config.required as nat)
                && e.error_type@ == split_error_tag(vault.share_config.circles@),
        },
{
    if vault.keys.is_some() {
        return Ok(None);
    }
    let (key, creds) = generate_cloud_creds();
    let circles = copy_circles(&vault.share_config.circles, true);
    proof {
        lemma_same_shape(circles@, vault.share_config.circles@);
    }
    let circles_with_keys = generate_circle_keys(&key, circles, vault.share_config.required)?;
    proof {
        let t = vault.share_config.required as nat;
        let (gs, zs) = choose|gs: Seq<Seq<u8>>, zs: Seq<Seq<u8>>|
            #[trigger] minted(key@, circles@, t, circles_with_keys@, gs, zs);
        assert(minted(key@, vault.share_config.circles@, t, circles_with_keys@, gs, zs));
    }
    Ok(Some((KeyCollection { share_keys: circles_with_keys, main: key }, creds)))
}

/// `a` and `b` list circles of the same names, recipients and requirement.
pub open spec fn same_shape(a: Seq<Circle>, b: Seq<Circle>) -> bool {
    &&& a.len() == b.len()
    &&& forall|i: int|
        0 <= i < a.len() ==> {
            &&& (#[trigger] a[i]).required == b[i].required
            &&& a[i].name@ == b[i].name@
            &&& a[i].key_comments@ == b[i].key_comments@
        }
}

proof fn lemma_same_counts(a: Seq<Circle>, b: Seq<Circle>, n: int)
    requires
        same_shape(a, b),
        0 <= n <= a.len(),
    ensures
        required_before(a, n) == required_before(b, n),
        slots_before(a, n) == slots_before(b, n),
    decreases n,
{
    if n > 0 {
        lemma_same_counts(a, b, n - 1);
        assert(a[n - 1].required == b[n - 1].required);
        assert(a[n - 1].key_comments@ == b[n - 1].key_comments@);
    }
}

/// Circles of the same shape are split alike.
proof fn lemma_same_shape(a: Seq<Circle>, b: Seq<Circle>)
    requires
        same_shape(a, b),
    ensures
        required_total(a) == required_total(b),
        slots_total(a) == slots_total(b),
        forall|n: int| 0 <= n <= a.len() ==> #[trigger] required_before(a, n) == required_before(b, n),
        forall|n: int| 0 <= n <= a.len() ==> #[trigger] slots_before(a, n) == slots_before(b, n),
{
    assert forall|n: int| 0 <= n <= a.len() implies #[trigger] required_before(a, n) == required_before(b, n) by {
        lemma_same_counts(a, b, n);
    }
    assert forall|n: int| 0 <= n <= a.len() implies #[trigger] slots_before(a, n) == slots_before(b, n) by {
        lemma_same_counts(a, b, n);
    }
    lemma_same_counts(a, b, a.len() as int);
}

/// A copy of the circles; their pieces are kept only when `with_keys`.
fn copy_circles(circles: &Vec<Circle>, with_keys: bool) -> (r: Vec<Circle>)
    ensures
        r@.len() == circles@.len(),
        forall|i: int|
            0 <= i < r@.len() ==> {
                &&& (#[trigger] r@[i]).required == circles@[i].required
                &&& r@[i].name@ == circles@[i].name@
                &&& r@[i].key_comments@ == circles@[i].key_comments@
                &&& with_keys ==> r@[i].keys.deep_view() == circles@[i].keys.deep_view()
                &&& !with_keys ==> r@[i].keys is None
            },
{
    let mut r: Vec<Circle> = Vec::new();
    let mut i: usize = 0;
    while i < circles.len()
        invariant
            i <= circles@.len(),
            r@.len() == i,
            forall|j: int|
                0 <= j < i ==> {
                    &&& (#[trigger] r@[j]).required == circles@[j].required
                    &&& r@[j].name@ == circles@[j].name@
                    &&& r@[j].key_comments@ == circles@[j].key_comments@
                    &&& with_keys ==> r@[j].keys.deep_view() == circles@[j].keys.deep_view()
                    &&& !with_keys ==> r@[j].keys is None
                },
        decreases circles@.len() - i,
    {
        let c = &circles[i];
        let keys = if with_keys {
            match &c.keys {
                Some(k) => Some(copy_pieces(k)),
                None => None,
            }
        } else {
            None
        };
        r.push(
            Circle {
                required: c.required,
                key_comments: copy_strings(&c.key_comments),
                name: c.name.clone(),
                keys,
            },
        );
        i = i + 1;
    }
    r
}

fn copy_pieces(v: &Vec<KeyPiece>) -> (r: Vec<KeyPiece>)
    ensures
        r.deep_view() == v.deep_view(),
{
    let mut r: Vec<KeyPiece> = Vec::new();
    let mut i: usize = 0;
    while i < v.len()
        invariant
            i <= v@.len(),
            r.deep_view() == v.deep_view().subrange(0, i as int),
        decreases v@.len() - i,
    {
        let p = sub_bytes(v[i].as_slice(), 0, v[i].len());
        let ghost before = r.deep_view();
        let ghost old_r = r;
        let ghost pc = p;
        r.push(p);
        proof {
            lemma_push_deep_view(before, r, old_r, pc);
            assert(v@[i as int]@.subrange(0, v@[i as int]@.len() as int) =~= v@[i as int]@);
        }
        i = i + 1;
        assert(r.deep_view() =~= v.deep_view().subrange(0, i as int));
    }
    assert(v.deep_view().subrange(0, i as int) =~= v.deep_view());
    r
}

/// `info` is the clear-text prologue of `vault`: the owner's name and email,
/// the share configuration without any minted pieces, the nonce and the path.
pub open spec fn is_public_info(info: PublicInfo, vault: Vault, nonce: Seq<u8>, path: Seq<char>) -> bool {
    &&& info.name@ == vault.personal_info.name@
    &&& info.email_address@ == vault.personal_info.email_address@
    &&& info.share_config.required == vault.share_config.required
    &&& info.share_config.circles@.len() == vault.share_config.circles@.len()
    &&& forall|i: int|
        0 <= i < info.share_config.circles@.len() ==> {
            &&& (#[trigger] info.share_config.circles@[i]).required
                == vault.share_config.circles@[i].required
            &&& info.share_config.circles@[i].name@ == vault.share_config.circles@[i].name@
            &&& info.share_config.circles@[i].key_comments@
                == vault.share_config.circles@[i].key_comments@
            &&& info.share_config.circles@[i].keys is None
        }
    &&& info.nonce@ == nonce
    &&& info.path@ == path
}

/// The clear-text prologue of `vault` for the given nonce and path.
pub fn public_info(vault: &Vault, nonce: [u8; 12], path: String) -> (r: PublicInfo)
    ensures
        is_public_info(r, *vault, nonce@, path@),
{
    let circles = copy_circles(&vault.share_config.circles, false);
    let nonce_bytes = sub_bytes(nonce.as_slice(), 0, 12);
    assert(nonce_bytes@ =~= nonce@);
    let info = PublicInfo {
        share_config: ShareConfiguration { required: vault.share_config.required, circles },
        name: vault.personal_info.name.clone(),
        email_address: vault.personal_info.email_address.clone(),
        nonce: nonce_bytes,
        path,
    };
    assert(info.share_config.circles@ == circles@);
    info
}

/// The bytes of a sealed vault: the framed public metadata, then the archive
/// encrypted under `key` and `nonce` with the metadata as associated data.
pub open spec fn sealed_vault(key: Seq<u8>, nonce: Seq<u8>, meta: Seq<u8>, archive: Seq<u8>) -> Seq<u8> {
    framed(meta) + sealed(key, nonce, meta, archive)
}

/// The prologue of `vault` with a freshly minted nonce, which is returned
/// with it.
pub fn new_public_info(vault: &Vault, path: String) -> (r: ([u8; 12], PublicInfo))
    ensures
        is_public_info(r.1, *vault, r.0@, path@),
{
    let nonce = generate_nonce();
    let info = public_info(vault, nonce, path);
    (nonce, info)
}

/// A sealed vault unframes into the metadata it was sealed with and the
/// ciphertext of its archive, which is what the key opens.
pub proof fn lemma_unframe_sealed_vault(key: Seq<u8>, nonce: Seq<u8>, meta: Seq<u8>, archive: Seq<u8>)
    requires
        meta.len() <= u32::MAX,
    ensures
        unframe(sealed_vault(key, nonce, meta, archive)) == Some((meta, sealed(key, nonce, meta, archive))),
{
    lemma_unframe_framed(meta, sealed(key, nonce, meta, archive));
}

/// Seals `archive` behind the serialized public metadata `public_meta`.
pub fn seal_vault(key: &Key, nonce: [u8; 12], public_meta: Vec<u8>, archive: &Vec<u8>) -> (r: AppResult<
    Vec<u8>,
>)
    requires
        public_meta@.len() <= u32::MAX,
    ensures
        r is Ok <==> sealable(archive@),
        r matches Ok(bytes) ==> bytes@ == sealed_vault(key@, nonce@, public_meta@, archive@),
        r matches Err(e) ==> e.error_type@ == "crypto"@,
{
    let mut writer: Vec<u8> = Vec::new();
    let aad = encode_meta(&mut writer, public_meta);
    let encrypted = encrypt_file(key, archive, aad.as_slice(), nonce)?;
    Ok(join_bytes(writer.as_slice(), encrypted.ciphertext.as_slice()))
}

/// Decrypts a vault's archive with its key, given the nonce and raw metadata
/// read from the vault's head and the ciphertext after them.
pub fn open_vault(key: &[u8], nonce: &[u8], raw_meta: Vec<u8>, ciphertext: Vec<u8>) -> (r: AppResult<
    Vec<u8>,
>)
    ensures
        key@.len() != 32 ==> (r matches Err(e) && e.error_type@ == "key_length"@),
        key@.len() == 32 && nonce@.len() != 12 ==> (r matches Err(e) && e.error_type@ == "crypto"@),
        key@.len() == 32 && nonce@.len() == 12 ==> match r {
            Ok(p) => opened(key@, nonce@, raw_meta@, ciphertext@) == Some(p@),
            Err(e) => opened(key@, nonce@, raw_meta@, ciphertext@) is None && e.error_type@
                == "crypto"@,
        },
        forall|archive: Seq<u8>|
            key@.len() == 32 && nonce@.len() == 12 && sealable(archive) && #[trigger] sealed(
                key@,
                nonce@,
                raw_meta@,
                archive,
            ) == ciphertext@ ==> (r matches Ok(p) && p@ == archive),
{
    if key.len() != 32 {
        return Err(make_error("key_length", "The key must be 32 bytes."));
    }
    decrypt_archive(key, nonce, raw_meta, ciphertext, "Decryption failed.")
}

fn decrypt_archive(
    key: &[u8],
    nonce: &[u8],
    raw_meta: Vec<u8>,
    ciphertext: Vec<u8>,
    message: &str,
) -> (r: AppResult<Vec<u8>>)
    requires
        key@.len() == 32,
    ensures
        nonce@.len() != 12 ==> (r matches Err(e) && e.error_type@ == "crypto"@),
        nonce@.len() == 12 ==> match r {
            Ok(p) => opened(key@, nonce@, raw_meta@, ciphertext@) == Some(p@),
            Err(e) => opened(key@, nonce@, raw_meta@, ciphertext@) is None && e.error_type@
                == "crypto"@,
        },
        forall|archive: Seq<u8>|
            nonce@.len() == 12 && sealable(archive) && #[trigger] sealed(
                key@,
                nonce@,
                raw_meta@,
                archive,
            ) == ciphertext@ ==> (r matches Ok(p) && p@ == archive),
{
    if nonce.len() != 12 {
        return Err(make_error("crypto", message));
    }
    let file = EncryptedFile {
        ciphertext,
        nonce: sub_bytes(nonce, 0, 12),
        aad: raw_meta,
    };
    assert(file.nonce@ =~= nonce@);
    match decrypt_file(key, file) {
        Ok(p) => Ok(p),
        Err(_) => Err(make_error("crypto", message)),
    }
}

/// Combines key pieces and decrypts a vault's archive with the key they
/// restore. A failure to decrypt after the pieces combined is a `crypto`
/// error: the pieces were the wrong set or for another vault.
pub fn unlock_vault(keys: Vec<KeyPiece>, nonce: &[u8], raw_meta: Vec<u8>, ciphertext: Vec<u8>) -> (r:
    AppResult<Vec<u8>>)
    ensures
        match combine_outcome(keys.deep_view()) {
            Err(tag) => r matches Err(e) && e.error_type@ == tag,
            Ok(k) => if nonce@.len() != 12 {
                r matches Err(e) && e.error_type@ == "crypto"@
            } else {
                match r {
                    Ok(p) => opened(k, nonce@, raw_meta@, ciphertext@) == Some(p@),
                    Err(e) => opened(k, nonce@, raw_meta@, ciphertext@) is None && e.error_type@
                        == "crypto"@,
                }
            },
        },
{
    let secret_key = combine_keys(keys)?;
    decrypt_archive(
        secret_key.as_slice(),
        nonce,
        raw_meta,
        ciphertext,
        "Decryption failed. Did you provide all of the required keys, and are they definitely for this vault? The combined key was not correct.",
    )
}

/// Combines key pieces and returns the share token of the vault they unlock:
/// the first eight bytes of its key.
pub fn unlock_cloud(keys: Vec<KeyPiece>) -> (r: AppResult<[u8; 8]>)
    ensures
        match combine_outcome(keys.deep_view()) {
            Ok(k) => r matches Ok(t) && t@ == k.subrange(0, 8),
            Err(tag) => r matches Err(e) && e.error_type@ == tag,
        },
{
    let secret_key = combine_keys(keys)?;
    let mut token = [0u8; 8];
    let mut i: usize = 0;
    while i < 8
        invariant
            i <= 8,
            forall|j: int| 0 <= j < i ==> token@[j] == secret_key@[j],
        decreases 8 - i,
    {
        token[i] = secret_key[i];
        i = i + 1;
    }
    assert(token@ =~= secret_key@.subrange(0, 8));
    Ok(token)
}

} // verus!
