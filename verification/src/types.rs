use vstd::prelude::*;

verus! {

/// How command output is rendered.
#[derive(Debug, Clone, Copy, PartialEq, Eq, Structural)]
pub enum OutputFormat {
    Table,
    Json,
    Env,
    Postman,
    Terraform,
}

/// All items, as a display or export listing.
#[derive(Debug)]
pub struct PrintOutput {
    pub items: Vec<PrintItem>,
}

/// One listed item: name, shown value, and its kind as text.
#[derive(Debug)]
pub struct PrintItem {
    pub key: String,
    pub value: String,
    pub item_type: String,
}

/// All key names with their kinds.
#[derive(Debug)]
pub struct KeysOutput {
    pub keys: Vec<KeyItem>,
}

/// One key name with its kind as text.
#[derive(Debug)]
pub struct KeyItem {
    pub key: String,
    pub item_type: String,
}

/// The whole status report.
#[derive(Debug)]
pub struct StatusOutput {
    pub safe_path: String,
    pub metadata: StatusMetadata,
    pub statistics: StatusStatistics,
    pub integrity: StatusIntegrity,
}

#[derive(Debug)]
pub struct StatusMetadata {
    pub version: String,
    pub description: String,
    pub created: String,
    pub updated: String,
}

#[derive(Debug)]
pub struct StatusStatistics {
    pub total_secrets: usize,
    pub encrypted: usize,
    pub plain_text: usize,
}

#[derive(Debug)]
pub struct StatusIntegrity {
    pub password_hash_ok: bool,
    pub encrypted_secrets_verified: Option<bool>,
    pub verification_details: Option<StatusVerificationDetails>,
}

/// How many encrypted values opened under the verified password, and
/// which did not.
#[derive(Debug)]
pub struct StatusVerificationDetails {
    pub total_encrypted: usize,
    pub verified: usize,
    pub failed: usize,
    pub failed_keys: Vec<String>,
}

/// The listing of safes found in a directory.
#[derive(Debug)]
pub struct SafesListOutput {
    pub safes: Vec<SafeInfo>,
}

/// One safe file's summary.
#[derive(Debug)]
pub struct SafeInfo {
    pub file: String,
    pub description: String,
    pub statistics: SafeStatistics,
    pub updated: String,
    pub status: String,
}

#[derive(Debug)]
pub struct SafeStatistics {
    pub total: usize,
    pub encrypted: usize,
    pub plain: usize,
}

} // verus!
