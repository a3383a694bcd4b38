use vstd::prelude::*;

verus! {

/// One recipient's share of the vault key.
pub type KeyPiece = Vec<u8>;

/// The symmetric key that encrypts a vault.
pub type Key = [u8; 32];

#[derive(Clone, Debug, PartialEq, Eq, Structural)]
pub enum VaultType {
    Offline,
    Cloud,
}

#[derive(Clone, Debug)]
pub struct PersonalInfo {
    pub name: String,
    pub email_address: String,
    pub full_legal_name: Option<String>,
    pub phone_number: Option<String>,
    pub guidance_doc: Option<String>,
    pub address: Option<String>,
}

/// A threshold of individual shares over an ordered list of circles.
#[derive(Clone, Debug)]
pub struct ShareConfiguration {
    pub required: u8,
    pub circles: Vec<Circle>,
}

/// A named group of recipients, one per key comment. A required circle must
/// contribute at least one piece to any reconstruction.
#[derive(Clone, Debug)]
pub struct Circle {
    pub required: bool,
    pub key_comments: Vec<String>,
    pub name: String,
    pub keys: Option<Vec<KeyPiece>>,
}

#[derive(Clone)]
pub struct Vault {
    pub vault_type: VaultType,
    pub personal_info: PersonalInfo,
    pub share_config: ShareConfiguration,
    pub vault_folder: String,
    pub alert_duration: u32,
    pub reminder_period: u8,
    /// Present when an existing vault is re-sealed with the keys it already has.
    pub keys: Option<KeyCollection>,
}

/// Handles for a cloud-hosted copy: `share_token` is the first eight bytes of
/// the vault key, `owner_token` sixteen random bytes.
#[derive(Clone, Debug)]
pub struct CloudKeyData {
    pub owner_token: Vec<u8>,
    pub share_token: Vec<u8>,
}

#[derive(Clone, Debug)]
pub struct KeyCollection {
    pub share_keys: Vec<Circle>,
    pub main: Key,
}

/// The clear-text prologue of a sealed vault.
#[derive(Clone, Debug)]
pub struct PublicInfo {
    pub share_config: ShareConfiguration,
    pub name: String,
    pub email_address: String,
    pub nonce: Vec<u8>,
    pub path: String,
}

impl Circle {
    /// The circle's pieces, or an empty sequence when none were minted.
    pub open spec fn pieces(&self) -> Seq<Seq<u8>> {
        match self.keys {
            Some(k) => k.deep_view(),
            None => Seq::empty(),
        }
    }
}

} // verus!
