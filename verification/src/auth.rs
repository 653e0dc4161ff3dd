//! Keeping login tokens in a credential store: the store abstraction, its
//! system-keyring implementation (which cuts long values over several entries),
//! an in-memory implementation, and saving, loading and clearing token sets.

use vstd::prelude::*;

use crate::chunks::{
    apply_writes, chunk_username, classify_entry, concat_chunks, entry_username, first_missing_chunk,
    format_chunk_username, format_entry_username, is_store_plan, join_chunks,
    lemma_apply_writes_distinct, load_outcome, plan_store, planned_part, stored_chunks,
    stored_entry_kind,
    views, write_view, KeyringWrite, LoadFailure, StoredEntry, WritePart,
};
use crate::models::AuthTokens;
use crate::text::{
    decimal, format_i64, format_u128, format_usize, parse_i64, parse_signed64, signed_decimal,
    utf8_byte_count, utf8_len,
};

verus! {

// ---------------------------------------------------------------------------
// The credential store abstraction
// ---------------------------------------------------------------------------

/// A place where credentials are stored, loaded and deleted by key.
pub trait CredentialStore {
    /// What the store holds, key by key. Nothing is modelled unless the store
    /// says otherwise.
    open spec fn entries(&self) -> Map<Seq<char>, Seq<char>> {
        Map::empty()
    }

    /// The store keeps what it is given: `store` always succeeds and sets the key,
    /// `delete` always succeeds and removes it, and `load` finds exactly what is held.
    /// Stores that rest on outside state make no such promise, which is the default.
    open spec fn remembers(&self) -> bool {
        false
    }

    /// The messages with which storing `value` under `key` may fail. Any message,
    /// unless the store says otherwise.
    open spec fn store_error(key: Seq<char>, value: Seq<char>, message: Seq<char>) -> bool {
        true
    }

    /// The messages with which loading `key` may fail. Any message, unless the store
    /// says otherwise.
    open spec fn load_error(key: Seq<char>, message: Seq<char>) -> bool {
        true
    }

    /// The messages with which deleting `key` may fail. Any message, unless the store
    /// says otherwise.
    open spec fn delete_error(key: Seq<char>, message: Seq<char>) -> bool {
        true
    }

    /// Store a credential with the given key and value.
    fn store(&mut self, key: &str, value: &str) -> (r: Result<(), String>)
        ensures
            final(self).remembers() == old(self).remembers(),
            old(self).remembers() ==> r is Ok && final(self).entries() == old(
                self,
            ).entries().insert(key@, value@),
            r matches Err(m) ==> Self::store_error(key@, value@, m@),
    ;

    /// Load a credential by key.
    fn load(&self, key: &str) -> (r: Result<String, String>)
        ensures
            self.remembers() ==> match r {
                Ok(v) => self.entries().contains_key(key@) && v@ == self.entries()[key@],
                Err(_) => !self.entries().contains_key(key@),
            },
            r matches Err(m) ==> Self::load_error(key@, m@),
    ;

    /// Delete a credential by key.
    fn delete(&mut self, key: &str) -> (r: Result<(), String>)
        ensures
            final(self).remembers() == old(self).remembers(),
            old(self).remembers() ==> r is Ok && final(self).entries() == old(
                self,
            ).entries().remove(key@),
            r matches Err(m) ==> Self::delete_error(key@, m@),
    ;
}

// ---------------------------------------------------------------------------
// The system keyring
// ---------------------------------------------------------------------------

/// An entry of the platform's secure credential storage.
#[verifier::external_type_specification]
#[verifier::external_body]
pub struct ExKeyringEntry(keyring::Entry);

/// A failure reported by the platform's secure credential storage.
#[verifier::external_type_specification]
#[verifier::external_body]
pub struct ExKeyringError(keyring::Error);

/// `keyring::Entry::new`: a handle on the entry for `(service, user)`. Whether the
/// platform store hands one out depends on the platform; nothing is promised.
#[verifier::external_body]
fn keyring_entry(service: &str, user: &str) -> (r: Result<keyring::Entry, keyring::Error>) {
    keyring::Entry::new(service, user)
}

/// `keyring::Entry::set_password`; the outcome depends on the platform store.
#[verifier::external_body]
fn keyring_set(entry: &keyring::Entry, secret: &str) -> (r: Result<(), keyring::Error>) {
    entry.set_password(secret)
}

/// `keyring::Entry::get_password`; what comes back depends on the platform store.
#[verifier::external_body]
fn keyring_get(entry: &keyring::Entry) -> (r: Result<String, keyring::Error>) {
    entry.get_password()
}

/// `keyring::Entry::delete_password`; the outcome depends on the platform store.
#[verifier::external_body]
fn keyring_delete(entry: &keyring::Entry) -> (r: Result<(), keyring::Error>) {
    entry.delete_password()
}

/// Whether a keyring error is `keyring::Error::NoEntry`, the one that says the entry
/// does not exist. Nothing is promised of which errors the platform gives.
#[verifier::external_body]
fn keyring_error_is_missing(e: &keyring::Error) -> (r: bool) {
    matches!(e, keyring::Error::NoEntry)
}

/// The `Display` text of a keyring error.
#[verifier::external_body]
fn keyring_error_text(e: &keyring::Error) -> (r: String) {
    e.to_string()
}

/// The keyring was asked for a handle on the entry `user` of `service`, and gave `h`.
pub closed spec fn keyring_opened(
    service: Seq<char>,
    user: Seq<char>,
    h: Result<keyring::Entry, keyring::Error>,
) -> bool {
    exists|s: &str, u: &str|
        #![trigger call_ensures(keyring_entry, (s, u), h)]
        s@ == service && u@ == user && call_ensures(keyring_entry, (s, u), h)
}

/// The keyring was asked to set the secret of the entry `entry` to `secret`, and
/// answered `r`.
pub closed spec fn keyring_secret_set(
    entry: keyring::Entry,
    secret: Seq<char>,
    r: Result<(), keyring::Error>,
) -> bool {
    exists|t: &str|
        #![trigger call_ensures(keyring_set, (&entry, t), r)]
        t@ == secret && call_ensures(keyring_set, (&entry, t), r)
}

/// The keyring set the secret of the entry `user` of `service` to `secret`: a handle
/// was made for that entry, and setting its secret to exactly `secret` succeeded.
pub closed spec fn keyring_wrote(service: Seq<char>, user: Seq<char>, secret: Seq<char>) -> bool {
    exists|e: keyring::Entry|
        #[trigger] keyring_opened(service, user, Ok(e)) && keyring_secret_set(e, secret, Ok(()))
}

/// The keyring was asked to delete the entry `user` of `service`: a handle was asked
/// for, and when one was made, the deletion of its secret was asked for (whatever
/// the keyring answered).
pub closed spec fn keyring_delete_attempted(service: Seq<char>, user: Seq<char>) -> bool {
    exists|h: Result<keyring::Entry, keyring::Error>|
        #[trigger] keyring_opened(service, user, h) && (h matches Ok(e) ==> exists|
            d: Result<(), keyring::Error>,
        | #[trigger] call_ensures(keyring_delete, (&e,), d))
}

/// Reading the entry `user` of `service` from the keyring gave `res`: its text, a
/// read failure (`Access`), or no handle (`Open`).
pub closed spec fn keyring_read(
    service: Seq<char>,
    user: Seq<char>,
    res: Result<String, KeyringStep>,
) -> bool {
    match res {
        Ok(text) => exists|e: keyring::Entry|
            #![trigger keyring_opened(service, user, Ok(e)), call_ensures(keyring_get, (&e,), Ok::<String, keyring::Error>(text))]
            keyring_opened(service, user, Ok(e)) && call_ensures(
                keyring_get,
                (&e,),
                Ok::<String, keyring::Error>(text),
            ),
        Err(KeyringStep::Open) => exists|err: keyring::Error|
            #[trigger] keyring_opened(service, user, Err(err)),
        Err(KeyringStep::Access) => exists|e: keyring::Entry, err: keyring::Error|
            #![trigger keyring_opened(service, user, Ok(e)), call_ensures(keyring_get, (&e,), Err::<String, keyring::Error>(err))]
            keyring_opened(service, user, Ok(e)) && call_ensures(
                keyring_get,
                (&e,),
                Err::<String, keyring::Error>(err),
            ),
    }
}

/// The keyring said that the entry `user` of `service` does not exist: a handle was
/// made, and reading its secret failed with an error that `keyring_error_is_missing`
/// found to be `NoEntry`.
pub closed spec fn keyring_said_missing(service: Seq<char>, user: Seq<char>) -> bool {
    exists|e: keyring::Entry, err: keyring::Error|
        #![trigger keyring_opened(service, user, Ok(e)), call_ensures(keyring_error_is_missing, (&err,), true)]
        keyring_opened(service, user, Ok(e)) && call_ensures(
            keyring_get,
            (&e,),
            Err::<String, keyring::Error>(err),
        ) && call_ensures(keyring_error_is_missing, (&err,), true)
}

/// The keyring could not be used for the entry `user` of `service`: no handle could be
/// made, or reading its secret failed with an error that `keyring_error_is_missing`
/// found not to be `NoEntry`.
pub closed spec fn keyring_unusable(service: Seq<char>, user: Seq<char>) -> bool {
    ||| exists|err: keyring::Error| #[trigger] keyring_opened(service, user, Err(err))
    ||| exists|e: keyring::Entry, err: keyring::Error|
        #![trigger keyring_opened(service, user, Ok(e)), call_ensures(keyring_error_is_missing, (&err,), false)]
        keyring_opened(service, user, Ok(e)) && call_ensures(
            keyring_get,
            (&e,),
            Err::<String, keyring::Error>(err),
        ) && call_ensures(keyring_error_is_missing, (&err,), false)
}

/// Service name under which the tokens are kept in the system keyring.
pub const SERVICE_NAME: &'static str = "educartable-sync";

/// Prefix of the keyring user names of the token fields.
pub const USERNAME_PREFIX: &'static str = "auth";

/// Stores credentials in the system keyring, one entry per value, or several
/// entries for a value too long for one (see [`crate::chunks`]).
pub struct KeyringCredentialStore {
    service_name: String,
    username_prefix: String,
}

/// Which of the two calls on a keyring entry failed.
#[derive(Debug, PartialEq, Eq, Structural)]
pub enum KeyringStep {
    /// Making the entry handle; for a read, also any failure other than a missing
    /// entry, where the keyring itself could not be used.
    Open,
    /// Writing or deleting its secret; for a read, the entry is missing.
    Access,
}

/// The message given when writing `write` for `key` failed at `step`, with the
/// keyring's own error text.
pub open spec fn write_failure(
    key: Seq<char>,
    part: WritePart,
    secret: Seq<char>,
    step: KeyringStep,
    error_text: Seq<char>,
) -> Seq<char> {
    match (part, step) {
        (WritePart::Whole, KeyringStep::Open) => "Cannot access system keyring for '"@ + key
            + "'. Please check your system permissions."@,
        (WritePart::Whole, KeyringStep::Access) => "Cannot save '"@ + key + "' credential ("@
            + decimal(secret.len()) + " chars, "@ + decimal(utf8_len(secret)) + " bytes). Error: "@
            + error_text,
        (WritePart::Marker, KeyringStep::Open) => "Cannot access system keyring for '"@ + key
            + "'."@,
        (WritePart::Marker, KeyringStep::Access) => "Cannot save '"@ + key + "' metadata."@,
        (WritePart::Chunk(i), KeyringStep::Open) => "Cannot access system keyring for '"@ + key
            + "' chunk "@ + decimal(i as nat) + "."@,
        (WritePart::Chunk(i), KeyringStep::Access) => "Cannot save '"@ + key + "' chunk "@
            + decimal(i as nat) + " ("@ + decimal(secret.len()) + " chars, "@ + decimal(
            utf8_len(secret),
        ) + " bytes). Error: "@ + error_text,
    }
}

/// The message of a failed write never shows the secret: two secrets of the same
/// length in characters and in UTF-8 bytes give the same message.
pub proof fn lemma_write_failure_hides_secret(
    key: Seq<char>,
    part: WritePart,
    secret1: Seq<char>,
    secret2: Seq<char>,
    step: KeyringStep,
    error_text: Seq<char>,
)
    requires
        secret1.len() == secret2.len(),
        utf8_len(secret1) == utf8_len(secret2),
    ensures
        write_failure(key, part, secret1, step, error_text) == write_failure(
            key,
            part,
            secret2,
            step,
            error_text,
        ),
{
}

/// Builds the message of a failed keyring write (see [`write_failure`]).
pub fn write_failure_message(
    key: &str,
    write: &KeyringWrite,
    step: KeyringStep,
    error_text: &str,
) -> (m: String)
    ensures
        m@ == write_failure(key@, write.part, write.secret@, step, error_text@),
{
    let chars = format_usize(write.secret.unicode_len());
    let bytes = format_u128(utf8_byte_count(write.secret.as_str()));
    match (&write.part, step) {
        (WritePart::Whole, KeyringStep::Open) => {
            let mut m = String::from_str("Cannot access system keyring for '");
            m.append(key);
            m.append("'. Please check your system permissions.");
            m
        },
        (WritePart::Whole, KeyringStep::Access) => {
            let mut m = String::from_str("Cannot save '");
            m.append(key);
            m.append("' credential (");
            m.append(chars.as_str());
            m.append(" chars, ");
            m.append(bytes.as_str());
            m.append(" bytes). Error: ");
            m.append(error_text);
            m
        },
        (WritePart::Marker, KeyringStep::Open) => {
            let mut m = String::from_str("Cannot access system keyring for '");
            m.append(key);
            m.append("'.");
            m
        },
        (WritePart::Marker, KeyringStep::Access) => {
            let mut m = String::from_str("Cannot save '");
            m.append(key);
            m.append("' metadata.");
            m
        },
        (WritePart::Chunk(i), KeyringStep::Open) => {
            let index = format_usize(*i);
            let mut m = String::from_str("Cannot access system keyring for '");
            m.append(key);
            m.append("' chunk ");
            m.append(index.as_str());
            m.append(".");
            m
        },
        (WritePart::Chunk(i), KeyringStep::Access) => {
            let index = format_usize(*i);
            let mut m = String::from_str("Cannot save '");
            m.append(key);
            m.append("' chunk ");
            m.append(index.as_str());
            m.append(" (");
            m.append(chars.as_str());
            m.append(" chars, ");
            m.append(bytes.as_str());
            m.append(" bytes). Error: ");
            m.append(error_text);
            m
        },
    }
}

/// The message given when loading `key` failed.
pub open spec fn load_failure(key: Seq<char>, failure: LoadFailure) -> Seq<char> {
    match failure {
        LoadFailure::MainOpen => "Cannot access system keyring. Please check your system permissions."@,
        LoadFailure::MainMissing => "Not authenticated. Missing token field '"@ + key
            + "'. Please log in first."@,
        LoadFailure::CorruptMarker => "Corrupted metadata for '"@ + key
            + "'. Please log in again."@,
        LoadFailure::ChunkOpen(_) => "Cannot access system keyring."@,
        LoadFailure::ChunkMissing(i) => "Missing '"@ + key + "' chunk "@ + decimal(i as nat)
            + ". Please log in again."@,
    }
}

/// Builds the message of a failed load (see [`load_failure`]).
pub fn load_failure_message(key: &str, failure: LoadFailure) -> (m: String)
    ensures
        m@ == load_failure(key@, failure),
{
    match failure {
        LoadFailure::MainOpen => String::from_str(
            "Cannot access system keyring. Please check your system permissions.",
        ),
        LoadFailure::MainMissing => {
            let mut m = String::from_str("Not authenticated. Missing token field '");
            m.append(key);
            m.append("'. Please log in first.");
            m
        },
        LoadFailure::CorruptMarker => {
            let mut m = String::from_str("Corrupted metadata for '");
            m.append(key);
            m.append("'. Please log in again.");
            m
        },
        LoadFailure::ChunkOpen(_) => String::from_str("Cannot access system keyring."),
        LoadFailure::ChunkMissing(i) => {
            let index = format_usize(i);
            let mut m = String::from_str("Missing '");
            m.append(key);
            m.append("' chunk ");
            m.append(index.as_str());
            m.append(". Please log in again.");
            m
        },
    }
}

/// A load that failed because the keyring could not be used (a handle could not be
/// made, or a read failed otherwise than on a missing entry), rather than on a missing
/// or damaged entry.
pub open spec fn is_access_failure(failure: LoadFailure) -> bool {
    failure is MainOpen || failure is ChunkOpen
}

/// The message of a load that could not reach the keyring.
pub open spec fn keyring_unreachable(message: Seq<char>) -> bool {
    message == "Cannot access system keyring. Please check your system permissions."@ || message
        == "Cannot access system keyring."@
}

/// The messages of the load failures that did not reach the keyring are exactly the
/// keyring-unreachable messages.
pub proof fn lemma_access_failure_messages(key: Seq<char>, failure: LoadFailure)
    ensures
        keyring_unreachable(load_failure(key, failure)) <==> is_access_failure(failure),
{
    reveal_strlit("Cannot access system keyring. Please check your system permissions.");
    reveal_strlit("Cannot access system keyring.");
    reveal_strlit("Not authenticated. Missing token field '");
    reveal_strlit("Corrupted metadata for '");
    reveal_strlit("Missing '");
    let m = load_failure(key, failure);
    match failure {
        LoadFailure::MainMissing => {
            assert(m[0] == 'N');
        },
        LoadFailure::CorruptMarker => {
            assert(m[1] == 'o');
        },
        LoadFailure::ChunkMissing(_) => {
            assert(m[0] == 'M');
        },
        _ => {},
    }
}

/// Only the `MainMissing` failure gives the missing-field message.
pub proof fn lemma_load_failure_distinct(key: Seq<char>, failure: LoadFailure)
    ensures
        load_failure(key, failure) == load_failure(key, LoadFailure::MainMissing) ==> failure
            == LoadFailure::MainMissing,
{
    reveal_strlit("Cannot access system keyring. Please check your system permissions.");
    reveal_strlit("Cannot access system keyring.");
    reveal_strlit("Not authenticated. Missing token field '");
    reveal_strlit("Corrupted metadata for '");
    reveal_strlit("Missing '");
    let m = load_failure(key, failure);
    let missing = load_failure(key, LoadFailure::MainMissing);
    assert(missing[0] == 'N');
    match failure {
        LoadFailure::MainOpen => {
            assert(m[0] == 'C');
        },
        LoadFailure::CorruptMarker => {
            assert(m[0] == 'C');
        },
        LoadFailure::ChunkOpen(_) => {
            assert(m[0] == 'C');
        },
        LoadFailure::ChunkMissing(_) => {
            assert(m[0] == 'M');
        },
        _ => {},
    }
}

/// A missing or damaged entry is never reported as an unreachable keyring: only the
/// failures that could not use the keyring give those messages, so a user who never
/// logged in is found not authenticated rather than met with an error.
pub proof fn lemma_missing_entry_not_unreachable(key: Seq<char>, i: usize)
    ensures
        !keyring_unreachable(load_failure(key, LoadFailure::MainMissing)),
        !keyring_unreachable(load_failure(key, LoadFailure::CorruptMarker)),
        !keyring_unreachable(load_failure(key, LoadFailure::ChunkMissing(i))),
{
    lemma_access_failure_messages(key, LoadFailure::MainMissing);
    lemma_access_failure_messages(key, LoadFailure::CorruptMarker);
    lemma_access_failure_messages(key, LoadFailure::ChunkMissing(i));
}

/// A successful keyring store wrote the whole plan of the value: when the store's
/// outcome shows some plan written entry by entry, every entry of the value's plan was
/// written with its own text (the plan being unique).
pub proof fn lemma_stored_value_written(
    service: Seq<char>,
    prefix: Seq<char>,
    key: Seq<char>,
    value: Seq<char>,
    ws: Seq<(Seq<char>, Seq<char>)>,
)
    requires
        exists|ws2: Seq<(Seq<char>, Seq<char>)>|
            #[trigger] is_store_plan(prefix, key, value, ws2) && forall|i: int|
                0 <= i < ws2.len() ==> #[trigger] keyring_wrote(service, ws2[i].0, ws2[i].1),
        is_store_plan(prefix, key, value, ws),
    ensures
        forall|i: int| 0 <= i < ws.len() ==> #[trigger] keyring_wrote(service, ws[i].0, ws[i].1),
{
    let ws2 = choose|ws2: Seq<(Seq<char>, Seq<char>)>|
        #[trigger] is_store_plan(prefix, key, value, ws2) && forall|i: int|
            0 <= i < ws2.len() ==> #[trigger] keyring_wrote(service, ws2[i].0, ws2[i].1);
    crate::chunks::lemma_store_plan_unique(prefix, key, value, ws, ws2);
}

/// Whether a load failure's message says the keyring could not be reached.
pub fn is_keyring_unreachable(message: &String) -> (r: bool)
    ensures
        r == keyring_unreachable(message@),
{
    let first = String::from_str("Cannot access system keyring. Please check your system permissions.");
    let second = String::from_str("Cannot access system keyring.");
    *message == first || *message == second
}

/// The message given when deleting `key` could not even open its main entry.
pub open spec fn delete_failure(key: Seq<char>) -> Seq<char> {
    "Cannot access system keyring for '"@ + key + "'."@
}

/// `read` reads the entries `m`: it gives the text of an entry that `m` holds, and
/// reports an entry that `m` does not hold as unreadable.
pub open spec fn reads_from<R: Fn(&str) -> Result<String, KeyringStep>>(
    read: R,
    m: Map<Seq<char>, Seq<char>>,
) -> bool {
    forall|u: &str, res: Result<String, KeyringStep>|
        #[trigger] call_ensures(read, (u,), res) ==> match res {
            Ok(s) => m.contains_key(u@) && s@ == m[u@],
            Err(step) => step == KeyringStep::Access && !m.contains_key(u@),
        }
}

/// Reading the entry named `name` with `read` gave the text `text`.
pub open spec fn read_text<R: Fn(&str) -> Result<String, KeyringStep>>(
    read: R,
    name: Seq<char>,
    text: Seq<char>,
) -> bool {
    exists|u: &str, s: String|
        #![trigger call_ensures(read, (u,), Ok::<String, KeyringStep>(s))]
        u@ == name && s@ == text && call_ensures(read, (u,), Ok::<String, KeyringStep>(s))
}

/// Reading pieces `1` to `pieces.len()` of `key` with `read` gave `pieces`.
pub open spec fn pieces_read<R: Fn(&str) -> Result<String, KeyringStep>>(
    read: R,
    prefix: Seq<char>,
    key: Seq<char>,
    pieces: Seq<Seq<char>>,
) -> bool {
    forall|i: int|
        0 <= i < pieces.len() ==> #[trigger] read_text(
            read,
            chunk_username(prefix, key, (i + 1) as nat),
            pieces[i],
        )
}

/// Reading the main entry of `key` with `read` gave the marker of `n` pieces.
pub open spec fn marker_read<R: Fn(&str) -> Result<String, KeyringStep>>(
    read: R,
    prefix: Seq<char>,
    key: Seq<char>,
    n: usize,
) -> bool {
    exists|text: Seq<char>|
        #[trigger] read_text(read, entry_username(prefix, key), text) && stored_entry_kind(text)
            == StoredEntry::Chunked(n)
}

/// The reads made with `read` account for `outcome`: a value is the main entry's text,
/// or the marker's pieces read one by one and joined; a failure is met on the read
/// that it names, after the reads that lead to it.
pub open spec fn load_seen<R: Fn(&str) -> Result<String, KeyringStep>>(
    read: R,
    prefix: Seq<char>,
    key: Seq<char>,
    outcome: Result<Seq<char>, LoadFailure>,
) -> bool {
    let main = entry_username(prefix, key);
    match outcome {
        Ok(v) => {
            ||| exists|text: Seq<char>|
                #[trigger] read_text(read, main, text) && stored_entry_kind(text)
                    == StoredEntry::Plain && v == text
            ||| exists|n: usize, pieces: Seq<Seq<char>>|
                #[trigger] marker_read(read, prefix, key, n) && #[trigger] pieces_read(
                    read,
                    prefix,
                    key,
                    pieces,
                ) && pieces.len() == n && v == concat_chunks(pieces)
        },
        Err(LoadFailure::MainOpen) => read_gave(read, main, Err(KeyringStep::Open)),
        Err(LoadFailure::MainMissing) => read_gave(read, main, Err(KeyringStep::Access)),
        Err(LoadFailure::CorruptMarker) => exists|text: Seq<char>|
            #[trigger] read_text(read, main, text) && stored_entry_kind(text)
                == StoredEntry::Corrupt,
        Err(LoadFailure::ChunkOpen(i)) => exists|n: usize, pieces: Seq<Seq<char>>|
            #[trigger] marker_read(read, prefix, key, n) && #[trigger] pieces_read(
                read,
                prefix,
                key,
                pieces,
            ) && 1 <= i <= n && pieces.len() == i - 1 && read_gave(
                read,
                chunk_username(prefix, key, i as nat),
                Err(KeyringStep::Open),
            ),
        Err(LoadFailure::ChunkMissing(i)) => exists|n: usize, pieces: Seq<Seq<char>>|
            #[trigger] marker_read(read, prefix, key, n) && #[trigger] pieces_read(
                read,
                prefix,
                key,
                pieces,
            ) && 1 <= i <= n && pieces.len() == i - 1 && read_gave(
                read,
                chunk_username(prefix, key, i as nat),
                Err(KeyringStep::Access),
            ),
    }
}

/// Loads the value under `key`, reading entries with `read`: the main entry's text,
/// or, when it is a marker of `n` pieces, the pieces `1` to `n` joined, stopping at
/// the first piece that cannot be read. Failures give the messages of
/// [`load_failure`]; when `read` reads a fixed set of entries, the outcome is
/// [`load_outcome`] of them.
pub fn load_entries<R: Fn(&str) -> Result<String, KeyringStep>>(
    prefix: &str,
    key: &str,
    read: &R,
) -> (r: Result<String, String>)
    requires
        forall|u: &str| call_requires(*read, (u,)),
    ensures
        match r {
            Ok(s) => load_seen(*read, prefix@, key@, Ok(s@)),
            Err(msg) => exists|f: LoadFailure|
                msg@ == #[trigger] load_failure(key@, f) && load_seen(*read, prefix@, key@, Err(f)),
        },
        forall|m: Map<Seq<char>, Seq<char>>|
            #[trigger] reads_from(*read, m) ==> match load_outcome(m, prefix@, key@) {
                Ok(v) => r matches Ok(s) && s@ == v,
                Err(f) => r matches Err(msg) && msg@ == load_failure(key@, f),
            },
{
    let main = format_entry_username(prefix, key);
    let mname: &str = main.as_str();
    let ghost main_name = entry_username(prefix@, key@);
    let mres = read(mname);
    proof {
        assert(call_ensures(*read, (mname,), mres));
    }
    let text = match mres {
        Ok(t) => t,
        Err(KeyringStep::Open) => {
            assert(read_gave(*read, main_name, Err(KeyringStep::Open)));
            assert(load_seen(*read, prefix@, key@, Err(LoadFailure::MainOpen)));
            return Err(load_failure_message(key, LoadFailure::MainOpen));
        },
        Err(KeyringStep::Access) => {
            assert(read_gave(*read, main_name, Err(KeyringStep::Access)));
            assert(load_seen(*read, prefix@, key@, Err(LoadFailure::MainMissing)));
            return Err(load_failure_message(key, LoadFailure::MainMissing));
        },
    };
    assert(read_text(*read, main_name, text@));
    assert(forall|m: Map<Seq<char>, Seq<char>>|
        #[trigger] reads_from(*read, m) ==> m.contains_key(main_name) && m[main_name] == text@);
    match classify_entry(text.as_str()) {
        StoredEntry::Plain => {
            assert(load_seen(*read, prefix@, key@, Ok(text@)));
            Ok(text)
        },
        StoredEntry::Corrupt => {
            assert(load_seen(*read, prefix@, key@, Err(LoadFailure::CorruptMarker)));
            Err(load_failure_message(key, LoadFailure::CorruptMarker))
        },
        StoredEntry::Chunked(count) => {
            let mut chunks: Vec<String> = Vec::new();
            let mut done: usize = 0;
            proof {
                assert(marker_read(*read, prefix@, key@, count));
                assert(views(chunks@) =~= Seq::<Seq<char>>::empty());
                assert forall|m: Map<Seq<char>, Seq<char>>| reads_from(*read, m) implies views(
                    chunks@,
                ) == stored_chunks(m, prefix@, key@, 0) by {
                    assert(views(chunks@) =~= stored_chunks(m, prefix@, key@, 0));
                }
            }
            while done < count
                invariant
                    done <= count,
                    chunks@.len() == done,
                    stored_entry_kind(text@) == StoredEntry::Chunked(count),
                    main_name == entry_username(prefix@, key@),
                    forall|u: &str| call_requires(*read, (u,)),
                    marker_read(*read, prefix@, key@, count),
                    pieces_read(*read, prefix@, key@, views(chunks@)),
                    forall|m: Map<Seq<char>, Seq<char>>|
                        #[trigger] reads_from(*read, m) ==> {
                            &&& m.contains_key(main_name)
                            &&& m[main_name] == text@
                            &&& first_missing_chunk(m, prefix@, key@, 1, count as nat)
                                == first_missing_chunk(
                                m,
                                prefix@,
                                key@,
                                (done + 1) as nat,
                                count as nat,
                            )
                            &&& views(chunks@) == stored_chunks(m, prefix@, key@, done as nat)
                        },
                decreases count - done,
            {
                let index = done + 1;
                let username = format_chunk_username(prefix, key, index);
                let ghost before = chunks@;
                let ghost piece_name = chunk_username(prefix@, key@, index as nat);
                let uname: &str = username.as_str();
                let res = read(uname);
                match res {
                    Ok(piece) => {
                        proof {
                            assert(call_ensures(*read, (uname,), res));
                            assert(read_text(*read, piece_name, piece@));
                            assert forall|m: Map<Seq<char>, Seq<char>>|
                                reads_from(*read, m) implies m.contains_key(piece_name)
                                && m[piece_name] == piece@ by {
                                assert(call_ensures(*read, (uname,), res));
                            }
                        }
                        chunks.push(piece);
                        proof {
                            assert(views(chunks@) =~= views(before).push(piece@));
                            assert forall|i: int| 0 <= i < views(chunks@).len() implies #[trigger] read_text(
                                *read,
                                chunk_username(prefix@, key@, (i + 1) as nat),
                                views(chunks@)[i],
                            ) by {
                                if i < done {
                                    assert(views(chunks@)[i] == views(before)[i]);
                                }
                            }
                            assert forall|m: Map<Seq<char>, Seq<char>>|
                                reads_from(*read, m) implies {
                                &&& first_missing_chunk(m, prefix@, key@, 1, count as nat)
                                    == first_missing_chunk(
                                    m,
                                    prefix@,
                                    key@,
                                    (index + 1) as nat,
                                    count as nat,
                                )
                                &&& views(chunks@) == stored_chunks(
                                    m,
                                    prefix@,
                                    key@,
                                    index as nat,
                                )
                            } by {
                                assert(m.contains_key(piece_name));
                                assert(views(before) == stored_chunks(m, prefix@, key@, done as nat));
                                assert(first_missing_chunk(m, prefix@, key@, index as nat, count as nat)
                                    == first_missing_chunk(m, prefix@, key@, (index + 1) as nat, count as nat));
                                assert(stored_chunks(m, prefix@, key@, index as nat) =~= stored_chunks(
                                    m,
                                    prefix@,
                                    key@,
                                    done as nat,
                                ).push(m[piece_name]));
                            }
                        }
                    },
                    Err(KeyringStep::Open) => {
                        proof {
                            assert(call_ensures(*read, (uname,), res));
                            assert(read_gave(*read, piece_name, Err(KeyringStep::Open)));
                            assert(pieces_read(*read, prefix@, key@, views(chunks@)));
                            assert(load_seen(*read, prefix@, key@, Err(LoadFailure::ChunkOpen(index))));
                        }
                        return Err(load_failure_message(key, LoadFailure::ChunkOpen(index)));
                    },
                    Err(KeyringStep::Access) => {
                        proof {
                            assert forall|m: Map<Seq<char>, Seq<char>>|
                                #[trigger] reads_from(*read, m) implies first_missing_chunk(
                                m,
                                prefix@,
                                key@,
                                1,
                                count as nat,
                            ) == Some(index as nat) && load_outcome(m, prefix@, key@) == Err::<
                                Seq<char>,
                                LoadFailure,
                            >(LoadFailure::ChunkMissing(index)) by {
                                assert(call_ensures(*read, (uname,), res));
                                assert(!m.contains_key(piece_name));
                            }
                            assert(read_gave(*read, piece_name, Err(KeyringStep::Access)));
                            assert(pieces_read(*read, prefix@, key@, views(chunks@)));
                            assert(load_seen(*read, prefix@, key@, Err(LoadFailure::ChunkMissing(index))));
                        }
                        return Err(load_failure_message(key, LoadFailure::ChunkMissing(index)));
                    },
                }
                done = index;
            }
            let joined = join_chunks(&chunks);
            assert(load_seen(*read, prefix@, key@, Ok(joined@)));
            Ok(joined)
        },
    }
}

/// Writes the planned entries in order with `write`, which reports a failure as the
/// call that failed and the keyring's error text; stops at the first failure, with the
/// message of [`write_failure`] for it.
pub fn write_entries<W: Fn(&KeyringWrite) -> Result<(), (KeyringStep, String)>>(
    key: &str,
    writes: &Vec<KeyringWrite>,
    write: &W,
) -> (r: Result<(), String>)
    requires
        forall|w: &KeyringWrite| call_requires(*write, (w,)),
    ensures
        match r {
            Ok(()) => forall|i: int|
                0 <= i < writes@.len() ==> #[trigger] call_ensures(
                    *write,
                    (&writes@[i],),
                    Ok::<(), (KeyringStep, String)>(()),
                ),
            Err(msg) => exists|i: int, step: KeyringStep, t: String|
                {
                    &&& 0 <= i < writes@.len()
                    &&& forall|j: int|
                        0 <= j < i ==> #[trigger] call_ensures(
                            *write,
                            (&writes@[j],),
                            Ok::<(), (KeyringStep, String)>(()),
                        )
                    &&& call_ensures(
                        *write,
                        (&writes@[i],),
                        Err::<(), (KeyringStep, String)>((step, t)),
                    )
                    &&& msg@ == write_failure(key@, writes@[i].part, writes@[i].secret@, step, t@)
                },
        },
{
    let mut i: usize = 0;
    while i < writes.len()
        invariant
            i <= writes@.len(),
            forall|w: &KeyringWrite| call_requires(*write, (w,)),
            forall|j: int|
                0 <= j < i ==> #[trigger] call_ensures(
                    *write,
                    (&writes@[j],),
                    Ok::<(), (KeyringStep, String)>(()),
                ),
        decreases writes.len() - i,
    {
        let res = write(&writes[i]);
        match res {
            Ok(()) => {
                assert(call_ensures(*write, (&writes@[i as int],), res));
                assert(res->Ok_0 == ());
                assert(res == Ok::<(), (KeyringStep, String)>(()));
            },
            Err((step, text)) => {
                let m = write_failure_message(key, &writes[i], step, text.as_str());
                assert(call_ensures(
                    *write,
                    (&writes@[i as int],),
                    Err::<(), (KeyringStep, String)>((step, text)),
                ));
                return Err(m);
            },
        }
        i = i + 1;
    }
    Ok(())
}

/// How many pieces go with a main entry whose reading gave `main`: the count of a
/// marker, none when the entry is not a marker or could not be read.
pub open spec fn deletion_count<E>(main: Result<String, E>) -> usize {
    match main {
        Ok(text) => match stored_entry_kind(text@) {
            StoredEntry::Chunked(count) => count,
            _ => 0,
        },
        Err(_) => 0,
    }
}

/// How many pieces to delete along with a main entry whose reading gave `main` (see
/// [`deletion_count`]).
pub fn chunks_to_delete<E>(main: &Result<String, E>) -> (n: usize)
    ensures
        n == deletion_count(*main),
{
    match main {
        Ok(text) => match classify_entry(text.as_str()) {
            StoredEntry::Chunked(count) => count,
            _ => 0,
        },
        Err(_) => 0,
    }
}

/// `del` was asked to delete the entry named `name`.
pub open spec fn delete_requested<D: Fn(&str) -> bool>(del: D, name: Seq<char>) -> bool {
    exists|u: &str, deleted: bool|
        #![trigger call_ensures(del, (u,), deleted)]
        u@ == name && call_ensures(del, (u,), deleted)
}

/// Reading the entry named `name` with `read` gave `res`.
pub open spec fn read_gave<R: Fn(&str) -> Result<String, KeyringStep>>(
    read: R,
    name: Seq<char>,
    res: Result<String, KeyringStep>,
) -> bool {
    exists|u: &str| #![trigger call_ensures(read, (u,), res)] u@ == name && call_ensures(read, (u,), res)
}

/// Deletes the value under `key`, reading with `read` and deleting with `del`: reads
/// the main entry; fails with [`delete_failure`] when its handle cannot be made;
/// otherwise asks `del` to delete pieces `1` to `n` of a marker of `n` pieces (see
/// [`deletion_count`]) and then the main entry, whatever each deletion gives, and
/// succeeds.
pub fn delete_entries<R: Fn(&str) -> Result<String, KeyringStep>, D: Fn(&str) -> bool>(
    prefix: &str,
    key: &str,
    read: &R,
    del: &D,
) -> (r: Result<(), String>)
    requires
        forall|u: &str| call_requires(*read, (u,)),
        forall|u: &str| call_requires(*del, (u,)),
    ensures
        match r {
            Err(m) => m@ == delete_failure(key@) && read_gave(
                *read,
                entry_username(prefix@, key@),
                Err(KeyringStep::Open),
            ),
            Ok(()) => {
                &&& delete_requested(*del, entry_username(prefix@, key@))
                &&& exists|res: Result<String, KeyringStep>|
                    {
                        &&& #[trigger] read_gave(*read, entry_username(prefix@, key@), res)
                        &&& res != Err::<String, KeyringStep>(KeyringStep::Open)
                        &&& forall|i: nat|
                            1 <= i <= deletion_count(res) ==> delete_requested(
                                *del,
                                #[trigger] chunk_username(prefix@, key@, i),
                            )
                    }
            },
        },
{
    let main = format_entry_username(prefix, key);
    let mname: &str = main.as_str();
    let res = read(mname);
    let ghost main_name = entry_username(prefix@, key@);
    assert(read_gave(*read, main_name, res));
    if let Err(KeyringStep::Open) = res {
        let mut m = String::from_str("Cannot access system keyring for '");
        m.append(key);
        m.append("'.");
        return Err(m);
    }
    let count = chunks_to_delete(&res);
    let mut done: usize = 0;
    while done < count
        invariant
            done <= count,
            forall|u: &str| call_requires(*del, (u,)),
            forall|i: nat|
                1 <= i <= done ==> delete_requested(
                    *del,
                    #[trigger] chunk_username(prefix@, key@, i),
                ),
        decreases count - done,
    {
        let index = done + 1;
        let username = format_chunk_username(prefix, key, index);
        let uname: &str = username.as_str();
        let deleted = del(uname);
        assert(delete_requested(*del, chunk_username(prefix@, key@, index as nat)));
        done = index;
    }
    let deleted = del(mname);
    assert(delete_requested(*del, main_name));
    Ok(())
}

impl KeyringCredentialStore {
    /// The service name the entries are kept under.
    pub closed spec fn service(&self) -> Seq<char> {
        self.service_name@
    }

    /// The prefix of the entries' user names.
    pub closed spec fn prefix(&self) -> Seq<char> {
        self.username_prefix@
    }

    /// A store under the service `educartable-sync` with user names prefixed `auth`.
    pub fn new() -> (s: Self)
        ensures
            s.service() == SERVICE_NAME@,
            s.prefix() == USERNAME_PREFIX@,
    {
        KeyringCredentialStore {
            service_name: String::from_str(SERVICE_NAME),
            username_prefix: String::from_str(USERNAME_PREFIX),
        }
    }

    /// Writes the secret of one entry; on failure, which call failed and the
    /// keyring's error text.
    fn write_secret(&self, write: &KeyringWrite) -> (r: Result<(), (KeyringStep, String)>)
        ensures
            r is Ok ==> keyring_wrote(self.service(), write.username@, write.secret@),
    {
        let entry = match keyring_entry(self.service_name.as_str(), write.username.as_str()) {
            Ok(e) => e,
            Err(e) => {
                return Err((KeyringStep::Open, keyring_error_text(&e)));
            },
        };
        let secret: &str = write.secret.as_str();
        let res = keyring_set(&entry, secret);
        match res {
            Ok(()) => {
                assert(res->Ok_0 == ());
                assert(res == Ok::<(), keyring::Error>(()));
                assert(call_ensures(keyring_set, (&entry, secret), res));
                assert(keyring_opened(self.service(), write.username@, Ok(entry)));
                assert(keyring_secret_set(entry, write.secret@, Ok(())));
                Ok(())
            },
            Err(e) => Err((KeyringStep::Access, keyring_error_text(&e))),
        }
    }

    /// Stores `value` under `key` in the keyring: the entries of [`plan_store`],
    /// written in order by [`write_entries`].
    pub fn store_value(&self, key: &str, value: &str) -> (r: Result<(), String>)
        ensures
            r matches Err(m) ==> exists|
                ws: Seq<(Seq<char>, Seq<char>)>,
                i: int,
                step: KeyringStep,
                t: Seq<char>,
            |
                #![trigger is_store_plan(self.prefix(), key@, value@, ws), write_failure(key@, planned_part(value@, i), ws[i].1, step, t)]
                is_store_plan(self.prefix(), key@, value@, ws) && 0 <= i < ws.len() && m@
                    == write_failure(key@, planned_part(value@, i), ws[i].1, step, t),
            r is Ok ==> exists|ws: Seq<(Seq<char>, Seq<char>)>|
                #[trigger] is_store_plan(self.prefix(), key@, value@, ws) && forall|i: int|
                    0 <= i < ws.len() ==> #[trigger] keyring_wrote(self.service(), ws[i].0, ws[i].1),
    {
        let writes = plan_store(self.username_prefix.as_str(), key, value);
        let write = |w: &KeyringWrite| -> (res: Result<(), (KeyringStep, String)>)
            ensures
                res is Ok ==> keyring_wrote(self.service(), w.username@, w.secret@),
            { self.write_secret(w) };
        let r = write_entries(key, &writes, &write);
        proof {
            if r is Ok {
                let ws = writes@.map_values(|w: KeyringWrite| write_view(w));
                assert forall|i: int| 0 <= i < ws.len() implies #[trigger] keyring_wrote(
                    self.service(),
                    ws[i].0,
                    ws[i].1,
                ) by {
                    assert(call_ensures(
                        write,
                        (&writes@[i],),
                        Ok::<(), (KeyringStep, String)>(()),
                    ));
                    assert(ws[i] == write_view(writes@[i]));
                }
                assert(is_store_plan(self.prefix(), key@, value@, ws));
            }
            if r is Err {
                let ws = writes@.map_values(|w: KeyringWrite| write_view(w));
                let (i, step, t) = choose|i: int, step: KeyringStep, t: String|
                    0 <= i < writes@.len() && call_ensures(
                        write,
                        (&writes@[i],),
                        Err::<(), (KeyringStep, String)>((step, t)),
                    ) && r->Err_0@ == write_failure(
                        key@,
                        writes@[i].part,
                        writes@[i].secret@,
                        step,
                        t@,
                    );
                assert(ws[i].1 == writes@[i].secret@);
                assert(writes@[i].part == planned_part(value@, i));
                assert(is_store_plan(self.prefix(), key@, value@, ws));
            }
        }
        r
    }

    /// Reads the secret of one entry: a missing entry is `Access`; a handle that cannot
    /// be made, or any other read failure, is `Open` (the keyring could not be used).
    fn read_entry(&self, username: &str) -> (r: Result<String, KeyringStep>)
        ensures
            r matches Err(KeyringStep::Access) ==> keyring_said_missing(self.service(), username@),
            r matches Err(KeyringStep::Open) ==> keyring_unusable(self.service(), username@),
    {
        let svc: &str = self.service_name.as_str();
        let h = keyring_entry(svc, username);
        let entry = match h {
            Ok(e) => e,
            Err(err) => {
                assert(keyring_opened(self.service(), username@, h));
                assert(keyring_opened(self.service(), username@, Err(err)));
                return Err(KeyringStep::Open);
            },
        };
        assert(keyring_opened(self.service(), username@, h));
        assert(keyring_opened(self.service(), username@, Ok(entry)));
        let g = keyring_get(&entry);
        match g {
            Ok(s) => Ok(s),
            Err(e) => {
                assert(call_ensures(keyring_get, (&entry,), Err::<String, keyring::Error>(e)));
                let missing = keyring_error_is_missing(&e);
                assert(call_ensures(keyring_error_is_missing, (&e,), missing));
                if missing {
                    Err(KeyringStep::Access)
                } else {
                    Err(KeyringStep::Open)
                }
            },
        }
    }

    /// Loads the value under `key` from the keyring (see [`load_entries`]).
    pub fn load_value(&self, key: &str) -> (r: Result<String, String>)
        ensures
            r matches Err(m) ==> exists|f: LoadFailure| m@ == load_failure(key@, f),
            r matches Err(m) && keyring_unreachable(m@) ==> exists|u: Seq<char>|
                #[trigger] keyring_unusable(self.service(), u),
            r matches Err(m) && m@ == load_failure(key@, LoadFailure::MainMissing)
                ==> keyring_said_missing(self.service(), entry_username(self.prefix(), key@)),
    {
        let read = |username: &str| -> (res: Result<String, KeyringStep>)
            ensures
                res matches Err(KeyringStep::Access) ==> keyring_said_missing(
                    self.service(),
                    username@,
                ),
                res matches Err(KeyringStep::Open) ==> keyring_unusable(self.service(), username@),
            { self.read_entry(username) };
        let r = load_entries(self.username_prefix.as_str(), key, &read);
        proof {
            if r is Err {
                let m = r->Err_0@;
                let f = choose|f: LoadFailure|
                    m == #[trigger] load_failure(key@, f) && load_seen(read, self.prefix(), key@, Err(f));
                lemma_access_failure_messages(key@, f);
                lemma_load_failure_distinct(key@, f);
                if keyring_unreachable(m) {
                    match f {
                        LoadFailure::MainOpen => {
                            let u = choose|u: &str|
                                u@ == entry_username(self.prefix(), key@) && call_ensures(
                                    read,
                                    (u,),
                                    Err::<String, KeyringStep>(KeyringStep::Open),
                                );
                            assert(keyring_unusable(self.service(), u@));
                        },
                        LoadFailure::ChunkOpen(i) => {
                            let (n, pieces) = choose|n: usize, pieces: Seq<Seq<char>>|
                                marker_read(read, self.prefix(), key@, n) && pieces_read(
                                    read,
                                    self.prefix(),
                                    key@,
                                    pieces,
                                ) && 1 <= i <= n && pieces.len() == i - 1 && read_gave(
                                    read,
                                    chunk_username(self.prefix(), key@, i as nat),
                                    Err(KeyringStep::Open),
                                );
                            let u = choose|u: &str|
                                u@ == chunk_username(self.prefix(), key@, i as nat)
                                    && call_ensures(
                                    read,
                                    (u,),
                                    Err::<String, KeyringStep>(KeyringStep::Open),
                                );
                            assert(keyring_unusable(self.service(), u@));
                        },
                        _ => {},
                    }
                }
                if m == load_failure(key@, LoadFailure::MainMissing) {
                    assert(f == LoadFailure::MainMissing);
                    let u = choose|u: &str|
                        u@ == entry_username(self.prefix(), key@) && call_ensures(
                            read,
                            (u,),
                            Err::<String, KeyringStep>(KeyringStep::Access),
                        );
                }
            }
        }
        r
    }

    /// Deletes the value under `key` from the keyring (see [`delete_entries`]): each
    /// entry is deleted through a handle of its own, and entries that cannot be
    /// deleted (such as missing ones) are passed over.
    pub fn delete_value(&self, key: &str) -> (r: Result<(), String>)
        ensures
            r matches Err(m) ==> m@ == delete_failure(key@),
            r is Ok ==> keyring_delete_attempted(
                self.service(),
                entry_username(self.prefix(), key@),
            ),
            r is Ok ==> exists|res: Result<String, KeyringStep>|
                #[trigger] keyring_read(self.service(), entry_username(self.prefix(), key@), res)
                    && forall|i: nat|
                    1 <= i <= deletion_count(res) ==> keyring_delete_attempted(
                        self.service(),
                        #[trigger] chunk_username(self.prefix(), key@, i),
                    ),
    {
        let read = |username: &str| -> (res: Result<String, KeyringStep>)
            ensures
                keyring_read(self.service(), username@, res),
            {
                let svc: &str = self.service_name.as_str();
                let h = keyring_entry(svc, username);
                match h {
                    Ok(entry) => {
                        let g = keyring_get(&entry);
                        match g {
                            Ok(text) => {
                                assert(keyring_opened(self.service(), username@, h));
                                assert(keyring_opened(self.service(), username@, Ok(entry)));
                                assert(call_ensures(
                                    keyring_get,
                                    (&entry,),
                                    Ok::<String, keyring::Error>(text),
                                ));
                                let res: Result<String, KeyringStep> = Ok(text);
                                assert(res->Ok_0 == text);
                                assert(exists|e: keyring::Entry|
                                    keyring_opened(self.service(), username@, Ok(e)) && call_ensures(
                                        keyring_get,
                                        (&e,),
                                        Ok::<String, keyring::Error>(res->Ok_0),
                                    ));
                                assert(keyring_read(self.service(), username@, res));
                                res
                            },
                            Err(err) => {
                                assert(keyring_opened(self.service(), username@, h));
                                assert(keyring_opened(self.service(), username@, Ok(entry)));
                                assert(call_ensures(
                                    keyring_get,
                                    (&entry,),
                                    Err::<String, keyring::Error>(err),
                                ));
                                assert(keyring_read(self.service(), username@, Err(KeyringStep::Access)));
                                Err(KeyringStep::Access)
                            },
                        }
                    },
                    Err(err) => {
                        assert(keyring_opened(self.service(), username@, h));
                        assert(keyring_opened(self.service(), username@, Err(err)));
                        Err(KeyringStep::Open)
                    },
                }
            };
        let del = |username: &str| -> (deleted: bool)
            ensures
                keyring_delete_attempted(self.service(), username@),
            {
                let svc: &str = self.service_name.as_str();
                let h = keyring_entry(svc, username);
                match h {
                    Ok(entry) => {
                        let d = keyring_delete(&entry);
                        assert(keyring_opened(self.service(), username@, h));
                        d.is_ok()
                    },
                    Err(_) => {
                        assert(keyring_opened(self.service(), username@, h));
                        false
                    },
                }
            };
        let r = delete_entries(self.username_prefix.as_str(), key, &read, &del);
        proof {
            let main = entry_username(self.prefix(), key@);
            if r is Ok {
                let (u, b) = choose|u: &str, b: bool| u@ == main && call_ensures(del, (u,), b);
                assert(keyring_delete_attempted(self.service(), main));
                let res = choose|res: Result<String, KeyringStep>|
                    {
                        &&& #[trigger] read_gave(read, main, res)
                        &&& res != Err::<String, KeyringStep>(KeyringStep::Open)
                        &&& forall|i: nat|
                            1 <= i <= deletion_count(res) ==> delete_requested(
                                del,
                                #[trigger] chunk_username(self.prefix(), key@, i),
                            )
                    };
                let v = choose|v: &str| v@ == main && call_ensures(read, (v,), res);
                assert(keyring_read(self.service(), main, res));
                assert forall|i: nat|
                    1 <= i <= deletion_count(res) implies keyring_delete_attempted(
                    self.service(),
                    #[trigger] chunk_username(self.prefix(), key@, i),
                ) by {
                    let name = chunk_username(self.prefix(), key@, i);
                    assert(delete_requested(del, name));
                    let (w, c) = choose|w: &str, c: bool| w@ == name && call_ensures(del, (w,), c);
                }
            }
        }
        r
    }
}

/// The messages with which the keyring store fails to store `value` under `key`: the
/// message of a failed write of one of the entries planned for it.
pub open spec fn keyring_store_error(key: Seq<char>, value: Seq<char>, message: Seq<char>) -> bool {
    exists|prefix: Seq<char>, ws: Seq<(Seq<char>, Seq<char>)>, i: int, step: KeyringStep, t: Seq<char>|
        #![trigger is_store_plan(prefix, key, value, ws), write_failure(key, planned_part(value, i), ws[i].1, step, t)]
        is_store_plan(prefix, key, value, ws) && 0 <= i < ws.len() && message == write_failure(
            key,
            planned_part(value, i),
            ws[i].1,
            step,
            t,
        )
}

/// The messages with which the keyring store fails to load `key`: those of
/// [`load_failure`].
pub open spec fn keyring_load_error(key: Seq<char>, message: Seq<char>) -> bool {
    exists|f: LoadFailure| message == #[trigger] load_failure(key, f)
}

/// The keyring is outside state: nothing is modelled of what it holds, so the store
/// keeps the defaults of [`CredentialStore::entries`] and
/// [`CredentialStore::remembers`]; its failures are those of `store_value` and
/// `load_value`.
impl CredentialStore for KeyringCredentialStore {
    open spec fn store_error(key: Seq<char>, value: Seq<char>, message: Seq<char>) -> bool {
        keyring_store_error(key, value, message)
    }

    open spec fn load_error(key: Seq<char>, message: Seq<char>) -> bool {
        keyring_load_error(key, message)
    }

    open spec fn delete_error(key: Seq<char>, message: Seq<char>) -> bool {
        message == delete_failure(key)
    }

    fn store(&mut self, key: &str, value: &str) -> (r: Result<(), String>) {
        let r = self.store_value(key, value);
        proof {
            if r is Err {
                let m = r->Err_0@;
                let (ws, i, step, t) = choose|
                    ws: Seq<(Seq<char>, Seq<char>)>,
                    i: int,
                    step: KeyringStep,
                    t: Seq<char>,
                |
                    is_store_plan(self.prefix(), key@, value@, ws) && 0 <= i < ws.len() && m
                        == write_failure(key@, planned_part(value@, i), ws[i].1, step, t);
                assert(is_store_plan(self.prefix(), key@, value@, ws));
                assert(m == write_failure(key@, planned_part(value@, i), ws[i].1, step, t));
            }
        }
        r
    }

    fn load(&self, key: &str) -> (r: Result<String, String>) {
        self.load_value(key)
    }

    fn delete(&mut self, key: &str) -> (r: Result<(), String>) {
        self.delete_value(key)
    }
}

// ---------------------------------------------------------------------------
// An in-memory store
// ---------------------------------------------------------------------------

/// The (key, value) views of a list of pairs.
pub open spec fn pair_views(pairs: Seq<(String, String)>) -> Seq<(Seq<char>, Seq<char>)> {
    pairs.map_values(|p: (String, String)| (p.0@, p.1@))
}

/// The pairs without those whose key is `key`.
pub open spec fn without_key(pairs: Seq<(Seq<char>, Seq<char>)>, key: Seq<char>) -> Seq<
    (Seq<char>, Seq<char>),
>
    decreases pairs.len(),
{
    if pairs.len() == 0 {
        pairs
    } else if pairs.last().0 == key {
        without_key(pairs.drop_last(), key)
    } else {
        without_key(pairs.drop_last(), key).push(pairs.last())
    }
}

proof fn lemma_without_key(pairs: Seq<(Seq<char>, Seq<char>)>, key: Seq<char>)
    ensures
        apply_writes(Map::empty(), without_key(pairs, key)) == apply_writes(
            Map::empty(),
            pairs,
        ).remove(key),
    decreases pairs.len(),
{
    if pairs.len() > 0 {
        lemma_without_key(pairs.drop_last(), key);
        let rest = without_key(pairs.drop_last(), key);
        if pairs.last().0 != key {
            assert(rest.push(pairs.last()).drop_last() =~= rest);
        }
        assert(apply_writes(Map::empty(), without_key(pairs, key)) =~= apply_writes(
            Map::empty(),
            pairs,
        ).remove(key));
    } else {
        assert(apply_writes(Map::<Seq<char>, Seq<char>>::empty(), pairs).remove(key)
            =~= Map::empty());
    }
}

proof fn lemma_last_occurrence(pairs: Seq<(Seq<char>, Seq<char>)>, key: Seq<char>, j: int)
    requires
        0 <= j < pairs.len(),
        pairs[j].0 == key,
        forall|k: int| j < k < pairs.len() ==> pairs[k].0 != key,
    ensures
        apply_writes(Map::empty(), pairs).contains_key(key),
        apply_writes(Map::empty(), pairs)[key] == pairs[j].1,
    decreases pairs.len(),
{
    if j < pairs.len() - 1 {
        lemma_last_occurrence(pairs.drop_last(), key, j);
    }
}

proof fn lemma_no_occurrence(pairs: Seq<(Seq<char>, Seq<char>)>, key: Seq<char>)
    requires
        forall|k: int| 0 <= k < pairs.len() ==> pairs[k].0 != key,
    ensures
        !apply_writes(Map::empty(), pairs).contains_key(key),
    decreases pairs.len(),
{
    if pairs.len() > 0 {
        lemma_no_occurrence(pairs.drop_last(), key);
    }
}

/// A credential store held in memory, for tests and for running without a keyring.
pub struct MockCredentialStore {
    pairs: Vec<(String, String)>,
}

impl MockCredentialStore {
    /// The entries held, as a map.
    pub closed spec fn held(&self) -> Map<Seq<char>, Seq<char>> {
        apply_writes(Map::empty(), pair_views(self.pairs@))
    }

    /// An empty store.
    pub fn new() -> (s: Self)
        ensures
            s.held() == Map::<Seq<char>, Seq<char>>::empty(),
            s.remembers(),
            s.entries() == Map::<Seq<char>, Seq<char>>::empty(),
    {
        let s = MockCredentialStore { pairs: Vec::new() };
        assert(pair_views(s.pairs@) =~= Seq::<(Seq<char>, Seq<char>)>::empty());
        s
    }

    /// Position of the last pair with this key.
    fn find(&self, key: &str) -> (r: Option<usize>)
        ensures
            match r {
                Some(j) => j < self.pairs@.len() && self.pairs@[j as int].0@ == key@ && forall|
                    k: int,
                | j < k < self.pairs@.len() ==> self.pairs@[k].0@ != key@,
                None => forall|k: int| 0 <= k < self.pairs@.len() ==> self.pairs@[k].0@ != key@,
            },
    {
        let wanted = String::from_str(key);
        let mut i: usize = self.pairs.len();
        while i > 0
            invariant
                i <= self.pairs@.len(),
                wanted@ == key@,
                forall|k: int| i <= k < self.pairs@.len() ==> self.pairs@[k].0@ != key@,
            decreases i,
        {
            if self.pairs[i - 1].0 == wanted {
                return Some(i - 1);
            }
            i = i - 1;
        }
        None
    }

    /// Whether a value is held under `key`.
    pub fn contains_key(&self, key: &str) -> (r: bool)
        ensures
            r == self.held().contains_key(key@),
    {
        match self.find(key) {
            Some(j) => {
                proof {
                    lemma_last_occurrence(pair_views(self.pairs@), key@, j as int);
                }
                true
            },
            None => {
                proof {
                    lemma_no_occurrence(pair_views(self.pairs@), key@);
                }
                false
            },
        }
    }

    /// Drops every pair whose key is `key`.
    fn remove_key(&mut self, key: &str)
        ensures
            final(self).held() == old(self).held().remove(key@),
    {
        let wanted = String::from_str(key);
        let mut kept: Vec<(String, String)> = Vec::new();
        let mut i: usize = 0;
        while i < self.pairs.len()
            invariant
                i <= self.pairs@.len(),
                wanted@ == key@,
                pair_views(kept@) == without_key(pair_views(self.pairs@).take(i as int), key@),
            decreases self.pairs.len() - i,
        {
            let ghost before = pair_views(self.pairs@).take(i as int);
            proof {
                assert(pair_views(self.pairs@).take(i + 1).drop_last() =~= before);
                assert(pair_views(self.pairs@).take(i + 1).last() == (
                    self.pairs@[i as int].0@,
                    self.pairs@[i as int].1@,
                ));
            }
            if self.pairs[i].0 != wanted {
                let ghost kv = pair_views(kept@);
                let k = String::from_str(self.pairs[i].0.as_str());
                let v = String::from_str(self.pairs[i].1.as_str());
                kept.push((k, v));
                assert(pair_views(kept@) =~= kv.push((self.pairs@[i as int].0@, self.pairs@[i as int].1@)));
            }
            i = i + 1;
        }
        proof {
            assert(pair_views(self.pairs@).take(i as int) =~= pair_views(self.pairs@));
            lemma_without_key(pair_views(self.pairs@), key@);
        }
        self.pairs = kept;
    }
}

impl CredentialStore for MockCredentialStore {
    open spec fn entries(&self) -> Map<Seq<char>, Seq<char>> {
        self.held()
    }

    open spec fn remembers(&self) -> bool {
        true
    }

    fn store(&mut self, key: &str, value: &str) -> (r: Result<(), String>) {
        self.remove_key(key);
        let ghost before = pair_views(self.pairs@);
        self.pairs.push((String::from_str(key), String::from_str(value)));
        proof {
            assert(pair_views(self.pairs@) =~= before.push((key@, value@)));
            assert(pair_views(self.pairs@).drop_last() =~= before);
            assert(self.held() =~= apply_writes(Map::empty(), before).insert(key@, value@));
        }
        Ok(())
    }

    fn load(&self, key: &str) -> (r: Result<String, String>) {
        match self.find(key) {
            Some(j) => {
                proof {
                    lemma_last_occurrence(pair_views(self.pairs@), key@, j as int);
                }
                Ok(String::from_str(self.pairs[j].1.as_str()))
            },
            None => {
                proof {
                    lemma_no_occurrence(pair_views(self.pairs@), key@);
                }
                let mut m = String::from_str("Key '");
                m.append(key);
                m.append("' not found");
                Err(m)
            },
        }
    }

    fn delete(&mut self, key: &str) -> (r: Result<(), String>) {
        self.remove_key(key);
        Ok(())
    }
}

// ---------------------------------------------------------------------------
// Token sets
// ---------------------------------------------------------------------------

/// The entries written for a token set, in the order they are written: each field
/// under its own name, the expiry time as decimal text.
pub open spec fn token_entries(t: AuthTokens) -> Seq<(Seq<char>, Seq<char>)> {
    seq![
        ("access_token"@, t.access_token@),
        ("refresh_token"@, t.refresh_token@),
        ("id_token"@, t.id_token@),
        ("expires_at"@, signed_decimal(t.expires_at as int)),
        ("session_state"@, t.session_state@),
    ]
}

/// The entries after storing a token set over `m`.
pub open spec fn with_tokens(m: Map<Seq<char>, Seq<char>>, t: AuthTokens) -> Map<
    Seq<char>,
    Seq<char>,
> {
    apply_writes(m, token_entries(t))
}

/// The entries after deleting every token field from `m`.
pub open spec fn without_tokens(m: Map<Seq<char>, Seq<char>>) -> Map<Seq<char>, Seq<char>> {
    m.remove("access_token"@).remove("refresh_token"@).remove("id_token"@).remove(
        "expires_at"@,
    ).remove("session_state"@)
}

/// Every token field has an entry.
pub open spec fn token_fields_present(m: Map<Seq<char>, Seq<char>>) -> bool {
    &&& m.contains_key("access_token"@)
    &&& m.contains_key("refresh_token"@)
    &&& m.contains_key("id_token"@)
    &&& m.contains_key("expires_at"@)
    &&& m.contains_key("session_state"@)
}

/// `t` is the token set held in `m`: every field present and equal, the expiry text
/// parsing to `t.expires_at`.
pub open spec fn tokens_held(m: Map<Seq<char>, Seq<char>>, t: AuthTokens) -> bool {
    &&& token_fields_present(m)
    &&& t.access_token@ == m["access_token"@]
    &&& t.refresh_token@ == m["refresh_token"@]
    &&& t.id_token@ == m["id_token"@]
    &&& parse_signed64(m["expires_at"@]) == Some(t.expires_at as int)
    &&& t.session_state@ == m["session_state"@]
}

/// Two token sets with the same fields.
pub open spec fn same_tokens(a: AuthTokens, b: AuthTokens) -> bool {
    &&& a.access_token@ == b.access_token@
    &&& a.refresh_token@ == b.refresh_token@
    &&& a.id_token@ == b.id_token@
    &&& a.expires_at == b.expires_at
    &&& a.session_state@ == b.session_state@
}

/// The message given when the stored expiry time does not parse.
pub open spec fn corrupted_tokens_message() -> Seq<char> {
    "Login credentials are corrupted. Please log in again."@
}

/// The first failure among `results`, in order: none when every result is a success;
/// otherwise the message of the first `Err`, every result before it being a success.
pub fn first_error<T>(results: &Vec<Result<T, String>>) -> (r: Option<String>)
    ensures
        r is None <==> forall|i: int| 0 <= i < results@.len() ==> #[trigger] results@[i] is Ok,
        r matches Some(e) ==> exists|i: int|
            0 <= i < results@.len() && (#[trigger] results@[i] matches Err(x) && x@ == e@)
                && forall|j: int| 0 <= j < i ==> #[trigger] results@[j] is Ok,
{
    let mut i: usize = 0;
    while i < results.len()
        invariant
            i <= results@.len(),
            forall|j: int| 0 <= j < i ==> #[trigger] results@[j] is Ok,
        decreases results.len() - i,
    {
        match &results[i] {
            Ok(_) => {},
            Err(x) => {
                let e = x.clone();
                assert(results@[i as int] matches Err(y) && y@ == e@);
                return Some(e);
            },
        }
        i = i + 1;
    }
    None
}

/// Stores a token set field by field, in order, stopping at the first failure; the
/// result is [`first_error`] of the results gathered: the first failing field's own
/// message, later fields not being attempted.
pub fn store_tokens<S: CredentialStore>(store: &mut S, tokens: &AuthTokens) -> (r: Result<
    (),
    String,
>)
    ensures
        final(store).remembers() == old(store).remembers(),
        old(store).remembers() ==> r is Ok && final(store).entries() == with_tokens(
            old(store).entries(),
            *tokens,
        ),
        r matches Err(m) ==> exists|i: int|
            0 <= i < 5 && #[trigger] S::store_error(
                token_entries(*tokens)[i].0,
                token_entries(*tokens)[i].1,
                m@,
            ),
{
    let ghost m0 = store.entries();
    let ghost w = token_entries(*tokens);
    let names = token_field_names();
    let expires = format_i64(tokens.expires_at);
    let mut values: Vec<&str> = Vec::new();
    values.push(tokens.access_token.as_str());
    values.push(tokens.refresh_token.as_str());
    values.push(tokens.id_token.as_str());
    values.push(expires.as_str());
    values.push(tokens.session_state.as_str());
    proof {
        reveal_strlit("access_token");
        assert(forall|k: int| 0 <= k < 5 ==> #[trigger] names@[k]@ == w[k].0);
        assert(forall|k: int| 0 <= k < 5 ==> #[trigger] values@[k]@ == w[k].1);
        assert(w.take(0) =~= Seq::<(Seq<char>, Seq<char>)>::empty());
    }
    let mut results: Vec<Result<(), String>> = Vec::new();
    let mut failed = false;
    let mut i: usize = 0;
    while i < 5 && !failed
        invariant
            i <= 5,
            names@.len() == 5,
            values@.len() == 5,
            w == token_entries(*tokens),
            forall|k: int| 0 <= k < 5 ==> #[trigger] names@[k]@ == w[k].0,
            forall|k: int| 0 <= k < 5 ==> #[trigger] values@[k]@ == w[k].1,
            results@.len() == i,
            failed ==> i > 0 && results@[i - 1] is Err,
            !failed ==> forall|k: int| 0 <= k < i ==> #[trigger] results@[k] is Ok,
            forall|k: int|
                0 <= k < i ==> (#[trigger] results@[k] matches Err(e) ==> S::store_error(
                    w[k].0,
                    w[k].1,
                    e@,
                )),
            store.remembers() == old(store).remembers(),
            old(store).remembers() ==> !failed && store.entries() == apply_writes(
                m0,
                w.take(i as int),
            ),
        decreases 5 - i,
    {
        let res = store.store(names[i], values[i]);
        let bad = res.is_err();
        let ghost before = results@;
        results.push(res);
        proof {
            assert forall|k: int|
                0 <= k < i + 1 implies (#[trigger] results@[k] matches Err(e) ==> S::store_error(
                w[k].0,
                w[k].1,
                e@,
            )) by {
                if k < i {
                    assert(results@[k] == before[k]);
                }
            }
            if !bad {
                assert forall|k: int| 0 <= k < i + 1 implies #[trigger] results@[k] is Ok by {
                    if k < i {
                        assert(results@[k] == before[k]);
                    }
                }
            }
            assert(w.take(i + 1).drop_last() =~= w.take(i as int));
            assert(w.take(i + 1).last() == w[i as int]);
        }
        failed = bad;
        i = i + 1;
    }
    match first_error(&results) {
        Some(e) => {
            assert(exists|i: int|
                0 <= i < 5 && #[trigger] S::store_error(
                    token_entries(*tokens)[i].0,
                    token_entries(*tokens)[i].1,
                    e@,
                )) by {
                let k = choose|k: int|
                    0 <= k < results@.len() && (#[trigger] results@[k] matches Err(x) && x@ == e@)
                        && forall|j: int| 0 <= j < k ==> #[trigger] results@[j] is Ok;
                assert(results@[k] matches Err(x) && x@ == e@);
                assert(S::store_error(
                    token_entries(*tokens)[k].0,
                    token_entries(*tokens)[k].1,
                    e@,
                ));
            }
            let ghost ev = e@;
            let r: Result<(), String> = Err(e);
            assert(r matches Err(m) && m@ == ev);
            assert(r matches Err(m) && exists|i: int|
                0 <= i < 5 && #[trigger] S::store_error(
                    token_entries(*tokens)[i].0,
                    token_entries(*tokens)[i].1,
                    m@,
                ));
            r
        },
        None => {
            proof {
                if old(store).remembers() {
                    assert(w.take(5) =~= w);
                }
            }
            Ok(())
        },
    }
}

/// The names of the token fields, in the order they are handled.
pub open spec fn token_keys() -> Seq<Seq<char>> {
    seq!["access_token"@, "refresh_token"@, "id_token"@, "expires_at"@, "session_state"@]
}

/// Builds a token set from the results of loading its fields in order, the loading
/// having stopped at the first failure: that failure's own message; otherwise the
/// fields loaded, with the expiry time parsed as `i64` and refused with
/// [`corrupted_tokens_message`] when it does not parse.
pub fn tokens_from_loads(loads: &Vec<Result<String, String>>) -> (r: Result<AuthTokens, String>)
    requires
        loads@.len() == 5 || exists|i: int| 0 <= i < loads@.len() && #[trigger] loads@[i] is Err,
    ensures
        (exists|i: int| 0 <= i < loads@.len() && #[trigger] loads@[i] is Err) ==> (r matches Err(
            m,
        ) && exists|i: int|
            0 <= i < loads@.len() && (#[trigger] loads@[i] matches Err(x) && x@ == m@) && forall|
                j: int,
            | 0 <= j < i ==> #[trigger] loads@[j] is Ok),
        (forall|i: int| 0 <= i < loads@.len() ==> #[trigger] loads@[i] is Ok) ==> match parse_signed64(
            loads@[3]->Ok_0@,
        ) {
            Some(v) => r matches Ok(t) && t.access_token@ == loads@[0]->Ok_0@ && t.refresh_token@
                == loads@[1]->Ok_0@ && t.id_token@ == loads@[2]->Ok_0@ && t.expires_at == v
                && t.session_state@ == loads@[4]->Ok_0@,
            None => r matches Err(m) && m@ == corrupted_tokens_message(),
        },
{
    match first_error(loads) {
        Some(e) => {
            let ghost ev = e@;
            let r: Result<AuthTokens, String> = Err(e);
            assert(r matches Err(m) && m@ == ev);
            r
        },
        None => {
            let access_token = match &loads[0] {
                Ok(v) => v.clone(),
                Err(e) => e.clone(),
            };
            let refresh_token = match &loads[1] {
                Ok(v) => v.clone(),
                Err(e) => e.clone(),
            };
            let id_token = match &loads[2] {
                Ok(v) => v.clone(),
                Err(e) => e.clone(),
            };
            let expires_at_text = match &loads[3] {
                Ok(v) => v.clone(),
                Err(e) => e.clone(),
            };
            let session_state = match &loads[4] {
                Ok(v) => v.clone(),
                Err(e) => e.clone(),
            };
            match parse_i64(expires_at_text.as_str()) {
                Some(expires_at) => Ok(
                    AuthTokens { access_token, refresh_token, id_token, expires_at, session_state },
                ),
                None => Err(
                    String::from_str("Login credentials are corrupted. Please log in again."),
                ),
            }
        },
    }
}

/// Loads a token set field by field, in order, stopping at the first failure, and
/// builds it with [`tokens_from_loads`]: the first failing field's own message, or the
/// fields with the expiry time parsed (refused when it does not parse).
pub fn load_tokens<S: CredentialStore>(store: &S) -> (r: Result<AuthTokens, String>)
    ensures
        store.remembers() ==> match r {
            Ok(t) => tokens_held(store.entries(), t),
            Err(m) => !token_fields_present(store.entries()) || (parse_signed64(
                store.entries()["expires_at"@],
            ) is None && m@ == corrupted_tokens_message()),
        },
        r matches Err(m) ==> m@ == corrupted_tokens_message() || exists|i: int|
            0 <= i < 5 && #[trigger] S::load_error(token_keys()[i], m@),
{
    let ghost keys = token_keys();
    let ghost e = store.entries();
    let names = token_field_names();
    proof {
        reveal_strlit("access_token");
        assert(keys[0] == "access_token"@);
        assert(keys[1] == "refresh_token"@);
        assert(keys[2] == "id_token"@);
        assert(keys[3] == "expires_at"@);
        assert(keys[4] == "session_state"@);
        assert(forall|k: int| 0 <= k < 5 ==> #[trigger] names@[k]@ == keys[k]);
    }
    let mut loads: Vec<Result<String, String>> = Vec::new();
    let mut failed = false;
    let mut i: usize = 0;
    while i < 5 && !failed
        invariant
            i <= 5,
            names@.len() == 5,
            keys == token_keys(),
            e == store.entries(),
            forall|k: int| 0 <= k < 5 ==> #[trigger] names@[k]@ == keys[k],
            loads@.len() == i,
            failed ==> i > 0 && loads@[i - 1] is Err,
            !failed ==> forall|k: int| 0 <= k < i ==> #[trigger] loads@[k] is Ok,
            forall|k: int|
                0 <= k < i ==> (#[trigger] loads@[k] matches Err(x) ==> S::load_error(keys[k], x@)),
            store.remembers() ==> forall|k: int|
                0 <= k < i ==> match #[trigger] loads@[k] {
                    Ok(v) => e.contains_key(keys[k]) && v@ == e[keys[k]],
                    Err(_) => !e.contains_key(keys[k]),
                },
        decreases 5 - i,
    {
        let res = store.load(names[i]);
        let bad = res.is_err();
        let ghost before = loads@;
        loads.push(res);
        proof {
            assert forall|k: int|
                0 <= k < i + 1 implies (#[trigger] loads@[k] matches Err(x) ==> S::load_error(
                keys[k],
                x@,
            )) by {
                if k < i {
                    assert(loads@[k] == before[k]);
                }
            }
            if !bad {
                assert forall|k: int| 0 <= k < i + 1 implies #[trigger] loads@[k] is Ok by {
                    if k < i {
                        assert(loads@[k] == before[k]);
                    }
                }
            }
            if store.remembers() {
                assert forall|k: int| 0 <= k < i + 1 implies match #[trigger] loads@[k] {
                    Ok(v) => e.contains_key(keys[k]) && v@ == e[keys[k]],
                    Err(_) => !e.contains_key(keys[k]),
                } by {
                    if k < i {
                        assert(loads@[k] == before[k]);
                    }
                }
            }
        }
        failed = bad;
        i = i + 1;
    }
    assert(loads@.len() == 5 || loads@[loads@.len() - 1] is Err);
    let r = tokens_from_loads(&loads);
    proof {
        if exists|k: int| 0 <= k < loads@.len() && #[trigger] loads@[k] is Err {
            let m = r->Err_0;
            let k = choose|k: int|
                0 <= k < loads@.len() && (#[trigger] loads@[k] matches Err(x) && x@ == m@)
                    && forall|j: int| 0 <= j < k ==> #[trigger] loads@[j] is Ok;
            assert(loads@[k] matches Err(x) && x@ == m@);
            assert(S::load_error(token_keys()[k], m@));
            if store.remembers() {
                assert(!e.contains_key(keys[k]));
                assert(!token_fields_present(e));
            }
        } else {
            assert(loads@.len() == 5);
            assert(loads@[0] is Ok);
            assert(loads@[1] is Ok);
            assert(loads@[2] is Ok);
            assert(loads@[3] is Ok);
            assert(loads@[4] is Ok);
        }
    }
    r
}

/// The names of the token fields, in the order they are handled.
pub fn token_field_names() -> (r: Vec<&'static str>)
    ensures
        r@.len() == 5,
        r@[0]@ == "access_token"@,
        r@[1]@ == "refresh_token"@,
        r@[2]@ == "id_token"@,
        r@[3]@ == "expires_at"@,
        r@[4]@ == "session_state"@,
{
    let mut v: Vec<&'static str> = Vec::new();
    v.push("access_token");
    v.push("refresh_token");
    v.push("id_token");
    v.push("expires_at");
    v.push("session_state");
    v
}

/// The message that lists the fields that could not be deleted.
pub open spec fn clear_failure_prefix() -> Seq<char> {
    "Failed to clear some login credentials: "@
}

/// One listed failure, `<field>: <message>`, for the token field numbered `f.0`.
pub open spec fn failure_item(f: (int, Seq<char>)) -> Seq<char> {
    token_keys()[f.0] + ": "@ + f.1
}

/// The listed failures, separated by `, `.
pub open spec fn failure_list(items: Seq<(int, Seq<char>)>) -> Seq<char>
    decreases items.len(),
{
    if items.len() == 0 {
        Seq::empty()
    } else if items.len() == 1 {
        failure_item(items[0])
    } else {
        failure_list(items.drop_last()) + ", "@ + failure_item(items.last())
    }
}

/// `items` lists, in the order of the fields, token fields (by number) whose deletion
/// failed, each with a message the store `S` may fail with.
pub open spec fn valid_failures<S: CredentialStore>(items: Seq<(int, Seq<char>)>) -> bool {
    &&& forall|k: int|
        0 <= k < items.len() ==> 0 <= #[trigger] items[k].0 < 5 && S::delete_error(
            token_keys()[items[k].0],
            items[k].1,
        )
    &&& forall|a: int, b: int| 0 <= a < b < items.len() ==> #[trigger] items[a].0 < #[trigger] items[b].0
}

/// The failed deletions among `results` (one per token field, in order), each as the
/// field's number and the failure's message.
pub open spec fn failed_fields(results: Seq<Result<(), String>>) -> Seq<(int, Seq<char>)>
    decreases results.len(),
{
    if results.len() == 0 {
        Seq::empty()
    } else {
        let rest = failed_fields(results.drop_last());
        match results.last() {
            Ok(_) => rest,
            Err(e) => rest.push(((results.len() - 1) as int, e@)),
        }
    }
}

/// No deletion failed exactly when every result is a success; the failed fields are
/// numbered inside the results, in increasing order.
proof fn lemma_failed_fields_shape(results: Seq<Result<(), String>>)
    ensures
        failed_fields(results).len() == 0 <==> forall|i: int|
            0 <= i < results.len() ==> #[trigger] results[i] is Ok,
        forall|k: int|
            0 <= k < failed_fields(results).len() ==> 0 <= #[trigger] failed_fields(results)[k].0
                < results.len(),
        forall|a: int, b: int|
            0 <= a < b < failed_fields(results).len() ==> #[trigger] failed_fields(results)[a].0
                < #[trigger] failed_fields(results)[b].0,
    decreases results.len(),
{
    if results.len() > 0 {
        let init = results.drop_last();
        lemma_failed_fields_shape(init);
        let rest = failed_fields(init);
        let items = failed_fields(results);
        if results.last() is Ok {
            if items.len() == 0 {
                assert forall|i: int| 0 <= i < results.len() implies #[trigger] results[i] is Ok by {
                    if i < init.len() {
                        assert(init[i] == results[i]);
                    }
                }
            }
            if exists|i: int| 0 <= i < init.len() && !(#[trigger] init[i] is Ok) {
                let i = choose|i: int| 0 <= i < init.len() && !(#[trigger] init[i] is Ok);
                assert(results[i] == init[i]);
            }
        } else {
            assert(results[results.len() - 1] == results.last());
            assert forall|k: int| 0 <= k < items.len() implies 0 <= #[trigger] items[k].0
                < results.len() by {
                if k < rest.len() {
                    assert(items[k] == rest[k]);
                }
            }
            assert forall|a: int, b: int| 0 <= a < b < items.len() implies #[trigger] items[a].0
                < #[trigger] items[b].0 by {
                assert(items[a] == rest[a]);
                if b < rest.len() {
                    assert(items[b] == rest[b]);
                }
            }
        }
    }
}

/// When every failed result's message is one that `S` may fail with for its field,
/// the failed fields are valid failures of `S`.
proof fn lemma_failed_fields<S: CredentialStore>(results: Seq<Result<(), String>>)
    requires
        results.len() <= 5,
        forall|i: int|
            0 <= i < results.len() ==> (#[trigger] results[i] matches Err(e) ==> S::delete_error(
                token_keys()[i],
                e@,
            )),
    ensures
        valid_failures::<S>(failed_fields(results)),
    decreases results.len(),
{
    lemma_failed_fields_shape(results);
    if results.len() > 0 {
        let init = results.drop_last();
        assert forall|i: int|
            0 <= i < init.len() implies (#[trigger] init[i] matches Err(e) ==> S::delete_error(
            token_keys()[i],
            e@,
        )) by {
            assert(init[i] == results[i]);
        }
        lemma_failed_fields::<S>(init);
        let rest = failed_fields(init);
        let items = failed_fields(results);
        if !(results.last() is Ok) {
            assert(results[results.len() - 1] == results.last());
            assert forall|k: int| 0 <= k < items.len() implies 0 <= #[trigger] items[k].0 < 5
                && S::delete_error(token_keys()[items[k].0], items[k].1) by {
                if k < rest.len() {
                    assert(items[k] == rest[k]);
                }
            }
        }
    }
}

/// The outcome of clearing the token fields, given each field's deletion result in
/// order: success exactly when every deletion succeeded; otherwise
/// [`clear_failure_prefix`] followed by each failed field, in order, as
/// `<field>: <message>`, separated by `, `.
pub fn clear_outcome(results: &Vec<Result<(), String>>) -> (r: Result<(), String>)
    requires
        results@.len() == 5,
    ensures
        r is Ok <==> forall|i: int| 0 <= i < 5 ==> #[trigger] results@[i] is Ok,
        r matches Err(m) ==> m@ == clear_failure_prefix() + failure_list(failed_fields(results@)),
{
    let names = token_field_names();
    proof {
        reveal_strlit("access_token");
        assert(token_keys()[0] == "access_token"@);
        assert(token_keys()[1] == "refresh_token"@);
        assert(token_keys()[2] == "id_token"@);
        assert(token_keys()[3] == "expires_at"@);
        assert(token_keys()[4] == "session_state"@);
        lemma_failed_fields_shape(results@);
        assert(results@.take(0) =~= Seq::<Result<(), String>>::empty());
    }
    let mut m = String::from_str("Failed to clear some login credentials: ");
    let mut any = false;
    let mut i: usize = 0;
    proof {
        assert(m@ =~= clear_failure_prefix() + failure_list(failed_fields(results@.take(0))));
    }
    while i < 5
        invariant
            i <= 5,
            results@.len() == 5,
            names@.len() == 5,
            forall|k: int| 0 <= k < 5 ==> #[trigger] names@[k]@ == token_keys()[k],
            any == (failed_fields(results@.take(i as int)).len() > 0),
            m@ == clear_failure_prefix() + failure_list(failed_fields(results@.take(i as int))),
        decreases 5 - i,
    {
        let ghost before = failed_fields(results@.take(i as int));
        proof {
            assert(results@.take(i + 1).drop_last() =~= results@.take(i as int));
            assert(results@.take(i + 1).last() == results@[i as int]);
        }
        match &results[i] {
            Ok(_) => {},
            Err(e) => {
                let ghost after = before.push((i as int, e@));
                assert(failed_fields(results@.take(i + 1)) == after);
                if any {
                    m.append(", ");
                }
                m.append(names[i]);
                m.append(": ");
                m.append(e.as_str());
                proof {
                    assert(after.drop_last() =~= before);
                    assert(names@[i as int]@ == token_keys()[i as int]);
                    if before.len() == 0 {
                        assert(failure_list(before) =~= Seq::<char>::empty());
                    }
                    assert(m@ =~= clear_failure_prefix() + failure_list(after));
                }
                any = true;
            },
        }
        i = i + 1;
    }
    assert(results@.take(5) =~= results@);
    if any {
        Err(m)
    } else {
        Ok(())
    }
}

/// Deletes every token field in order, going on after failures, and reports the
/// outcome of [`clear_outcome`] over the deletion results. A store that keeps what it
/// is given ends without the token fields, and the call succeeds. An error lists the
/// failed fields, each with a message the store may fail with.
pub fn delete_tokens<S: CredentialStore>(store: &mut S) -> (r: Result<(), String>)
    ensures
        final(store).remembers() == old(store).remembers(),
        old(store).remembers() ==> r is Ok && final(store).entries() == without_tokens(
            old(store).entries(),
        ),
        r matches Err(m) ==> exists|items: Seq<(int, Seq<char>)>|
            #[trigger] valid_failures::<S>(items) && items.len() > 0 && m@ == clear_failure_prefix()
                + failure_list(items),
{
    let ghost m0 = store.entries();
    let names = token_field_names();
    proof {
        reveal_strlit("access_token");
        assert(token_keys()[0] == "access_token"@);
        assert(token_keys()[1] == "refresh_token"@);
        assert(token_keys()[2] == "id_token"@);
        assert(token_keys()[3] == "expires_at"@);
        assert(token_keys()[4] == "session_state"@);
    }
    let mut results: Vec<Result<(), String>> = Vec::new();
    let mut i: usize = 0;
    while i < names.len()
        invariant
            names@.len() == 5,
            forall|k: int| 0 <= k < 5 ==> #[trigger] names@[k]@ == token_keys()[k],
            names@[0]@ == "access_token"@,
            names@[1]@ == "refresh_token"@,
            names@[2]@ == "id_token"@,
            names@[3]@ == "expires_at"@,
            names@[4]@ == "session_state"@,
            i <= 5,
            results@.len() == i,
            store.remembers() == old(store).remembers(),
            forall|k: int|
                0 <= k < i ==> (#[trigger] results@[k] matches Err(e) ==> S::delete_error(
                    token_keys()[k],
                    e@,
                )),
            old(store).remembers() ==> (forall|k: int| 0 <= k < i ==> #[trigger] results@[k] is Ok)
                && store.entries() == (if i == 0 {
                m0
            } else if i == 1 {
                m0.remove("access_token"@)
            } else if i == 2 {
                m0.remove("access_token"@).remove("refresh_token"@)
            } else if i == 3 {
                m0.remove("access_token"@).remove("refresh_token"@).remove("id_token"@)
            } else if i == 4 {
                m0.remove("access_token"@).remove("refresh_token"@).remove("id_token"@).remove(
                    "expires_at"@,
                )
            } else {
                without_tokens(m0)
            }),
        decreases 5 - i,
    {
        let name = names[i];
        let res = store.delete(name);
        let ghost before = results@;
        results.push(res);
        proof {
            assert(names@[i as int]@ == token_keys()[i as int]);
            assert forall|k: int|
                0 <= k < i + 1 implies (#[trigger] results@[k] matches Err(e) ==> S::delete_error(
                token_keys()[k],
                e@,
            )) by {
                if k < i {
                    assert(results@[k] == before[k]);
                }
            }
            if old(store).remembers() {
                assert forall|k: int| 0 <= k < i + 1 implies #[trigger] results@[k] is Ok by {
                    if k < i {
                        assert(results@[k] == before[k]);
                    }
                }
            }
        }
        i = i + 1;
    }
    proof {
        lemma_failed_fields::<S>(results@);
        lemma_failed_fields_shape(results@);
    }
    let r = clear_outcome(&results);
    proof {
        if r is Err {
            assert(valid_failures::<S>(failed_fields(results@)));
        }
    }
    r
}

/// Stores a token set in the system keyring; a failure is that of writing one of the
/// entries planned for one of the fields.
pub fn store_tokens_default(tokens: &AuthTokens) -> (r: Result<(), String>)
    ensures
        r matches Err(m) ==> exists|i: int|
            0 <= i < 5 && #[trigger] keyring_store_error(
                token_entries(*tokens)[i].0,
                token_entries(*tokens)[i].1,
                m@,
            ),
{
    let mut store = KeyringCredentialStore::new();
    store_tokens(&mut store, tokens)
}

/// Loads the token set from the system keyring; a failure is that of loading one of
/// the fields, or a corrupted expiry time.
pub fn load_tokens_default() -> (r: Result<AuthTokens, String>)
    ensures
        r matches Err(m) ==> m@ == corrupted_tokens_message() || exists|i: int|
            0 <= i < 5 && #[trigger] keyring_load_error(token_keys()[i], m@),
{
    let store = KeyringCredentialStore::new();
    load_tokens(&store)
}

/// Deletes the token set from the system keyring; a failure lists the fields whose
/// main entry could not be opened, each with the message of [`delete_failure`].
pub fn delete_tokens_default() -> (r: Result<(), String>)
    ensures
        r matches Err(m) ==> exists|items: Seq<(int, Seq<char>)>|
            #[trigger] valid_failures::<KeyringCredentialStore>(items) && items.len() > 0 && m@
                == clear_failure_prefix() + failure_list(items),
{
    let mut store = KeyringCredentialStore::new();
    delete_tokens(&mut store)
}

// ---------------------------------------------------------------------------
// Laws of token sets
// ---------------------------------------------------------------------------

/// After storing a token set, every field is there and the set read back is the one
/// stored: the entries written by `store_tokens` are read by `load_tokens` as the
/// same tokens, whatever the entries held before.
pub proof fn lemma_tokens_round_trip(m: Map<Seq<char>, Seq<char>>, t: AuthTokens, loaded: AuthTokens)
    requires
        tokens_held(with_tokens(m, t), loaded),
    ensures
        same_tokens(loaded, t),
{
    lemma_stored_tokens_held(m, t);
}

/// After storing a token set, the entries hold it (so `load_tokens` succeeds on a
/// store that remembers).
pub proof fn lemma_stored_tokens_held(m: Map<Seq<char>, Seq<char>>, t: AuthTokens)
    ensures
        tokens_held(with_tokens(m, t), t),
{
    reveal_strlit("access_token");
    reveal_strlit("refresh_token");
    reveal_strlit("id_token");
    reveal_strlit("expires_at");
    reveal_strlit("session_state");
    let w = token_entries(t);
    assert forall|a: int, b: int|
        0 <= a < w.len() && 0 <= b < w.len() && a != b implies #[trigger] w[a].0
        != #[trigger] w[b].0 by {
        assert(w[a].0.len() != w[b].0.len() || w[a].0[0] != w[b].0[0] || w[a].0[1] != w[b].0[1]);
    }
    lemma_apply_writes_distinct(m, w, 0);
    lemma_apply_writes_distinct(m, w, 1);
    lemma_apply_writes_distinct(m, w, 2);
    lemma_apply_writes_distinct(m, w, 3);
    lemma_apply_writes_distinct(m, w, 4);
    crate::text::lemma_parse_format_i64(t.expires_at);
}

/// After deleting the token fields, no token set can be loaded.
pub proof fn lemma_deleted_tokens_absent(m: Map<Seq<char>, Seq<char>>)
    ensures
        !token_fields_present(without_tokens(m)),
{
}

} // verus!
