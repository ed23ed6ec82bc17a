//! Sync: the JSON report and the printable form of the encryption key.
use vstd::prelude::*;

verus! {

/// JSON output format for sync result
pub struct SyncResultJson {
    pub status: String,
    pub uploaded: i64,
    pub downloaded: usize,
    pub history_count: i64,
    pub store_history_count: u64,
    pub store_init_triggered: bool,
    pub force: bool,
    pub error: Option<String>,
}

/// The `sync` family of commands.
pub enum Cmd {
    /// Sync with the configured server
    Sync {
        /// Force re-download everything
        force: bool,
        /// Output in JSON format
        json: bool,
    },
    /// Login to the configured server
    Login,
    /// Log out
    Logout,
    /// Register with the configured server
    Register,
    /// Print the encryption key for transfer to another machine
    Key {
        /// Switch to base64 output of the key
        base64: bool,
    },
    /// Display the sync status
    Status,
}

/// A sync report as a mathematical value.
pub struct SyncResultJsonView {
    pub status: Seq<char>,
    pub uploaded: i64,
    pub downloaded: usize,
    pub history_count: i64,
    pub store_history_count: u64,
    pub store_init_triggered: bool,
    pub force: bool,
    pub error: Option<Seq<char>>,
}

impl View for SyncResultJson {
    type V = SyncResultJsonView;

    open spec fn view(&self) -> SyncResultJsonView {
        SyncResultJsonView {
            status: self.status@,
            uploaded: self.uploaded,
            downloaded: self.downloaded,
            history_count: self.history_count,
            store_history_count: self.store_history_count,
            store_init_triggered: self.store_init_triggered,
            force: self.force,
            error: self.error.deep_view(),
        }
    }
}

impl SyncResultJson {
    /// The report of a finished sync.
    pub fn success(
        uploaded: i64,
        downloaded: usize,
        history_count: i64,
        store_history_count: u64,
        store_init_triggered: bool,
        force: bool,
    ) -> (res: SyncResultJson)
        ensures
            res@ == (SyncResultJsonView {
                status: "success"@,
                uploaded,
                downloaded,
                history_count,
                store_history_count,
                store_init_triggered,
                force,
                error: None,
            }),
    {
        SyncResultJson {
            status: String::from_str("success"),
            uploaded,
            downloaded,
            history_count,
            store_history_count,
            store_init_triggered,
            force,
            error: None,
        }
    }
}

/// The history count as the comparison with the store reads it: an `i64`
/// reinterpreted as a `u64` (a negative count wraps to a large value).
pub open spec fn count_as_u64(history_length: i64) -> int {
    if history_length >= 0 {
        history_length as int
    } else {
        history_length as int + 0x1_0000_0000_0000_0000
    }
}

/// Whether the history store must be initialised from the history index:
/// the index holds more entries than the store.
pub fn store_init_needed(history_length: i64, store_history_length: u64) -> (res: bool)
    ensures
        res == (count_as_u64(history_length) > store_history_length),
{
    let as_u64 = history_length as u64;
    assert(as_u64 as int == count_as_u64(history_length)) by (bit_vector)
        requires
            as_u64 == history_length as u64;
    as_u64 > store_history_length
}

/// The totals of a sync round, or of a first round and the second one that
/// follows a store initialisation: uploads and downloads add up.
pub fn sync_totals(first: (i64, usize), second: Option<(i64, usize)>) -> (res: (i64, usize))
    requires
        second matches Some(s) ==> (i64::MIN <= first.0 + s.0 <= i64::MAX && first.1 + s.1 <= usize::MAX),
    ensures
        res == match second {
            Some(s) => ((first.0 + s.0) as i64, (first.1 + s.1) as usize),
            None => first,
        },
{
    match second {
        Some(s) => (first.0 + s.0, first.1 + s.1),
        None => first,
    }
}

/// The phrase that BIP-39 gives `entropy` in its English word list.
pub uninterp spec fn english_mnemonic(entropy: Seq<u8>) -> Seq<char>;

/// Entropy that BIP-39 can encode: 16 to 32 bytes, a multiple of 4.
pub open spec fn mnemonic_entropy_ok(len: nat) -> bool {
    len % 4 == 0 && 16 <= len <= 32
}

/// `bip39::Mnemonic::from_entropy(entropy, Language::English)` of the
/// `tiny-bip39` crate, displayed (its phrase: the words joined by single
/// spaces). The source refuses entropy that is not 128, 160, 192, 224 or 256
/// bits long, and succeeds otherwise; the phrase is a function of the
/// entropy.
#[verifier::external_body]
fn english_phrase(entropy: &[u8]) -> (res: Option<String>)
    requires
        entropy@.len() <= usize::MAX / 8,
    ensures
        res.is_some() <==> mnemonic_entropy_ok(entropy@.len()),
        res matches Some(p) ==> p@ == english_mnemonic(entropy@),
{
    match bip39::Mnemonic::from_entropy(entropy, bip39::Language::English) {
        Ok(m) => Some(m.to_string()),
        Err(_) => None,
    }
}

/// The encryption key as a BIP-39 phrase, for transfer to another machine;
/// `invalid key` where the key cannot be encoded.
pub fn key_mnemonic(key: &[u8]) -> (res: Result<String, String>)
    requires
        key@.len() <= usize::MAX / 8,
    ensures
        mnemonic_entropy_ok(key@.len()) ==> (res matches Ok(p) && p@ == english_mnemonic(key@)),
        !mnemonic_entropy_ok(key@.len()) ==> (res matches Err(e) && e@ == "invalid key"@),
{
    match english_phrase(key) {
        Some(p) => Ok(p),
        None => Err(String::from_str("invalid key")),
    }
}

} // verus!
