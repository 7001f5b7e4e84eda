//! The database's own decisions: its identity, the manifest bootstrap, and
//! the sequencing of committed batches.
use vstd::prelude::*;

use crate::error::StorageError;
use crate::manifest::{lemma_db_id_round_trip, manifest_entry_at, manifest_entry_bytes, ManifestEntryModel, ManifestLogEntry};
use crate::options::DbOptions;
use crate::wal_entry::{WalEntry, WalRequest};

verus! {

/// A client mutation.
pub enum DbCmd {
    Put { key: Vec<u8>, value: Vec<u8> },
    Delete { key: Vec<u8> },
}

impl DbCmd {
    /// The log entry that records this command.
    pub fn into_wal_entry(self) -> (r: WalEntry)
        ensures
            match self {
                DbCmd::Put { key, value } => r == WalEntry::Put { key, value },
                DbCmd::Delete { key } => r == WalEntry::Delete { key },
            },
    {
        match self {
            DbCmd::Put { key, value } => WalEntry::Put { key, value },
            DbCmd::Delete { key } => WalEntry::Delete { key },
        }
    }
}

/// What the UUID parser of the `uuid` crate makes of a string: the 128-bit
/// value, or nothing where the string is not a UUID in one of its formats.
pub uninterp spec fn uuid_parse(s: Seq<char>) -> Option<u128>;

/// Relies on `uuid::Uuid::parse_str` and `Uuid::as_u128`: the value a
/// string denotes depends on the string alone, and the hyphenated lower-case
/// form of a value (what `Display` writes) parses back to that value.
#[verifier::external_body]
fn parse_uuid(s: &str) -> (r: Option<u128>)
    ensures
        r == uuid_parse(s@),
        forall|x: u128| s@ == uuid_text(x) ==> r == Some(x),
{
    match uuid::Uuid::parse_str(s) {
        Ok(u) => Some(u.as_u128()),
        Err(_) => None,
    }
}

/// The lower-case hexadecimal digit of `d`.
pub open spec fn hex_digit(d: nat) -> char {
    if d < 10 {
        (48 + d) as char
    } else {
        (87 + d) as char
    }
}

/// Nibble `k` of `id`, counted from the most significant.
pub open spec fn nibble(id: u128, k: int) -> nat {
    (id as nat / vstd::arithmetic::power2::pow2((4 * (31 - k)) as nat)) % 16
}

/// The hyphenated lower-case form of a UUID: groups of 8, 4, 4, 4 and 12
/// hexadecimal digits.
pub open spec fn uuid_text(id: u128) -> Seq<char> {
    Seq::new(
        36,
        |i: int|
            if i == 8 || i == 13 || i == 18 || i == 23 {
                '-'
            } else {
                let k = if i < 8 {
                    i
                } else if i < 13 {
                    i - 1
                } else if i < 18 {
                    i - 2
                } else if i < 23 {
                    i - 3
                } else {
                    i - 4
                };
                hex_digit(nibble(id, k))
            },
    )
}

/// Relies on `uuid::Uuid::from_u128` and its `Display`, which writes the
/// hyphenated lower-case form.
#[verifier::external_body]
fn uuid_string(id: u128) -> (r: String)
    ensures
        r@ == uuid_text(id),
{
    uuid::Uuid::from_u128(id).to_string()
}

/// The identity of a database: the stored one where `stored` holds the
/// contents of its IDENTITY file, else `fresh`, to be stored. Returns the
/// identity and whether it is new; stored text that is no UUID is `Corrupt`.
pub fn open_identity(stored: Option<&str>, fresh: u128) -> (r: Result<(u128, bool), StorageError>)
    ensures
        match stored {
            None => r == Ok::<(u128, bool), StorageError>((fresh, true)),
            Some(s) => match uuid_parse(s@) {
                Some(id) => r == Ok::<(u128, bool), StorageError>((id, false)),
                None => r == Err::<(u128, bool), StorageError>(StorageError::Corrupt),
            },
        },
        stored matches Some(s) ==> forall|x: u128| s@ == uuid_text(x) ==> r == Ok::<(u128, bool), StorageError>((x, false)),
{
    match stored {
        None => Ok((fresh, true)),
        Some(s) => match parse_uuid(s) {
            Some(id) => Ok((id, false)),
            None => Err(StorageError::Corrupt),
        },
    }
}

/// The text of an IDENTITY file holding `id`.
pub fn identity_text(id: u128) -> (r: String)
    ensures
        r@ == uuid_text(id),
{
    uuid_string(id)
}

/// The manifest record that advertises the database's identity.
pub fn identity_entry(id: u128) -> (r: ManifestLogEntry)
    ensures
        r@ == ManifestEntryModel::DbId(uuid_text(id)),
{
    ManifestLogEntry::DbId { db_id: uuid_string(id) }
}

/// The manifest record that registers log `log_number`, without tags.
pub fn wal_addition_entry(log_number: u64) -> (r: ManifestLogEntry)
    ensures
        r@ == ManifestEntryModel::WalAddition(log_number, Seq::empty()),
{
    let tags = Vec::new();
    ManifestLogEntry::WalAddition { log_number, tags }
}

/// The first bytes of a new manifest: the identity record, which decodes
/// as the first record of the manifest to the identity's text.
pub fn manifest_bootstrap(id: u128) -> (r: Vec<u8>)
    ensures
        r@ == manifest_entry_bytes(ManifestEntryModel::DbId(uuid_text(id))),
        manifest_entry_at(r@, 0) == Some((ManifestEntryModel::DbId(uuid_text(id)), r@.len())),
{
    proof {
        let b = vstd::utf8::encode_utf8(uuid_text(id));
        assert(b.len() <= u64::MAX) by {
            lemma_utf8_len_bound(uuid_text(id));
        }
        lemma_db_id_round_trip(uuid_text(id), Seq::<u8>::empty());
        assert(manifest_entry_bytes(ManifestEntryModel::DbId(uuid_text(id))) + Seq::<u8>::empty() =~= manifest_entry_bytes(
            ManifestEntryModel::DbId(uuid_text(id)),
        ));
    }
    let mut out: Vec<u8> = Vec::new();
    identity_entry(id).write(&mut out);
    assert(out@ =~= manifest_entry_bytes(ManifestEntryModel::DbId(uuid_text(id))));
    out
}

/// UTF-8 takes at most four bytes a character.
proof fn lemma_utf8_len_bound(cs: Seq<char>)
    ensures
        vstd::utf8::encode_utf8(cs).len() <= 4 * cs.len(),
    decreases cs.len(),
{
    if cs.len() > 0 {
        lemma_utf8_len_bound(cs.drop_first());
    }
}

/// The value of a string of ASCII decimal digits.
pub open spec fn decimal_value(s: Seq<u8>) -> nat
    decreases s.len(),
{
    if s.len() == 0 {
        0
    } else {
        (10 * decimal_value(s.drop_last()) + (s.last() as int - 48)) as nat
    }
}

pub open spec fn all_digits(s: Seq<u8>) -> bool {
    forall|i: int| 0 <= i < s.len() ==> 48 <= #[trigger] s[i] <= 57
}

/// The prefix of every manifest file name, "MANIFEST-".
pub open spec fn manifest_prefix() -> Seq<u8> {
    seq![77u8, 65u8, 78u8, 73u8, 70u8, 69u8, 83u8, 84u8, 45u8]
}

/// The sequence number in a CURRENT file's bytes `MANIFEST-<n>`: `Corrupt`
/// unless they are that prefix and a non-empty run of digits whose value
/// fits 64 bits.
pub fn manifest_seq(current: &[u8]) -> (r: Result<u64, StorageError>)
    ensures
        ({
            let s = current@;
            let digits = s.subrange(9, s.len() as int);
            if s.len() > 9 && s.subrange(0, 9) == manifest_prefix() && all_digits(digits) && decimal_value(digits) <= u64::MAX {
                r == Ok::<u64, StorageError>(decimal_value(digits) as u64)
            } else {
                r == Err::<u64, StorageError>(StorageError::Corrupt)
            }
        }),
{
    let ghost s = current@;
    let n = current.len();
    if n <= 9 {
        return Err(StorageError::Corrupt);
    }
    let prefix: Vec<u8> = vec![77u8, 65u8, 78u8, 73u8, 70u8, 69u8, 83u8, 84u8, 45u8];
    assert(prefix@ =~= manifest_prefix());
    let mut i: usize = 0;
    while i < 9
        invariant
            i <= 9,
            9 < n,
            n == s.len(),
            s == current@,
            prefix@ == manifest_prefix(),
            forall|j: int| 0 <= j < i ==> s[j] == manifest_prefix()[j],
        decreases 9 - i,
    {
        if current[i] != prefix[i] {
            assert(s.subrange(0, 9)[i as int] != manifest_prefix()[i as int]);
            return Err(StorageError::Corrupt);
        }
        i = i + 1;
    }
    assert(s.subrange(0, 9) =~= manifest_prefix());
    let ghost digits = s.subrange(9, s.len() as int);
    let mut value: u64 = 0;
    let mut k: usize = 9;
    assert(digits.subrange(0, 0) =~= Seq::<u8>::empty());
    while k < n
        invariant
            9 <= k <= n,
            n == s.len(),
            s == current@,
            digits == s.subrange(9, s.len() as int),
            all_digits(digits.subrange(0, k - 9)),
            value as nat == decimal_value(digits.subrange(0, k - 9)),
        decreases n - k,
    {
        let c = current[k];
        let ghost pre = digits.subrange(0, k - 9);
        let ghost next = digits.subrange(0, k - 8);
        proof {
            assert(next.drop_last() =~= pre);
            assert(next.last() == c);
        }
        if c < 48 || c > 57 {
            proof {
                assert(digits[k - 9] == c);
            }
            return Err(StorageError::Corrupt);
        }
        let d = (c - 48) as u64;
        if value > (u64::MAX - d) / 10 {
            proof {
                assert(decimal_value(next) > u64::MAX) by (nonlinear_arith)
                    requires
                        decimal_value(next) == 10 * value + d,
                        value > (u64::MAX - d) / 10,
                        d <= 9,
                ;
                if all_digits(digits) {
                    lemma_decimal_prefix_bound(digits, (k - 8) as nat);
                }
            }
            return Err(StorageError::Corrupt);
        }
        proof {
            assert(10 * value + d <= u64::MAX) by (nonlinear_arith)
                requires
                    value <= (u64::MAX - d) / 10,
                    d <= 9,
            ;
            assert forall|j: int| 0 <= j < next.len() implies 48 <= #[trigger] next[j] <= 57 by {
                if j < pre.len() {
                    assert(next[j] == pre[j]);
                }
            }
        }
        value = 10 * value + d;
        k = k + 1;
    }
    assert(digits.subrange(0, n - 9) =~= digits);
    Ok(value)
}

/// A longer digit string never has a smaller value.
proof fn lemma_decimal_prefix_bound(s: Seq<u8>, i: nat)
    requires
        i <= s.len(),
        all_digits(s),
    ensures
        decimal_value(s.subrange(0, i as int)) <= decimal_value(s),
    decreases s.len() - i,
{
    if i < s.len() {
        lemma_decimal_prefix_bound(s, i + 1);
        let a = s.subrange(0, i as int);
        let b = s.subrange(0, (i + 1) as int);
        assert(b.drop_last() =~= a);
        assert(48 <= s[i as int] <= 57);
    } else {
        assert(s.subrange(0, i as int) =~= s);
    }
}

/// The database's commit state: its identity, its options and the sequence
/// number of the next batch. Files, channels and the tasks that run them are
/// the host's.
pub struct Db {
    id: u128,
    options: DbOptions,
    seq_num: u64,
}

impl Db {
    pub closed spec fn identity(&self) -> u128 {
        self.id
    }

    pub closed spec fn opts(&self) -> DbOptions {
        self.options
    }

    /// The database's identity.
    pub fn id(&self) -> (r: u128)
        ensures
            r == self.identity(),
    {
        self.id
    }

    pub fn options(&self) -> (r: DbOptions)
        ensures
            r == self.opts(),
    {
        self.options
    }

    /// The sequence number the next batch gets.
    pub closed spec fn next_seq(&self) -> u64 {
        self.seq_num
    }

    /// The sequence number the next batch gets.
    pub fn next_seq_num(&self) -> (r: u64)
        ensures
            r == self.next_seq(),
    {
        self.seq_num
    }

    /// A database with identity `id` whose first batch gets sequence number 0.
    pub fn new(id: u128, options: DbOptions) -> (r: Self)
        ensures
            r.identity() == id,
            r.opts() == options,
            r.next_seq() == 0,
    {
        Self { id, options, seq_num: 0 }
    }

    /// The sequence number of the next batch; advances it.
    fn incr_seq_num(&mut self) -> (r: u64)
        requires
            old(self).next_seq() < u64::MAX,
        ensures
            r == old(self).next_seq(),
            final(self).next_seq() == old(self).next_seq() + 1,
            final(self).identity() == old(self).identity(),
            final(self).opts() == old(self).opts(),
    {
        let seq_num = self.seq_num;
        self.seq_num = self.seq_num + 1;
        seq_num
    }

    /// Commits `batch` as one request with the next sequence number; the
    /// request goes to the log in this order.
    pub fn batch(&mut self, batch: Vec<DbCmd>) -> (r: WalRequest)
        requires
            old(self).next_seq() < u64::MAX,
        ensures
            r.seq_num == old(self).next_seq(),
            final(self).next_seq() == old(self).next_seq() + 1,
            final(self).identity() == old(self).identity(),
            final(self).opts() == old(self).opts(),
            r.entries@.len() == batch@.len(),
            forall|i: int| 0 <= i < batch@.len() ==> #[trigger] r.entries@[i] == match batch@[i] {
                DbCmd::Put { key, value } => WalEntry::Put { key, value },
                DbCmd::Delete { key } => WalEntry::Delete { key },
            },
    {
        let seq_num = self.incr_seq_num();
        let ghost cmds = batch@;
        let mut entries: Vec<WalEntry> = Vec::new();
        let mut batch = batch;
        let mut rev: Vec<DbCmd> = Vec::new();
        while batch.len() > 0
            invariant
                rev@.len() + batch@.len() == cmds.len(),
                forall|i: int| 0 <= i < batch@.len() ==> #[trigger] batch@[i] == cmds[i],
                forall|i: int| 0 <= i < rev@.len() ==> #[trigger] rev@[i] == cmds[cmds.len() - 1 - i],
            decreases batch@.len(),
        {
            let c = batch.pop().unwrap();
            rev.push(c);
        }
        while rev.len() > 0
            invariant
                rev@.len() + entries@.len() == cmds.len(),
                forall|i: int| 0 <= i < rev@.len() ==> #[trigger] rev@[i] == cmds[cmds.len() - 1 - i],
                forall|i: int| 0 <= i < entries@.len() ==> #[trigger] entries@[i] == match cmds[i] {
                    DbCmd::Put { key, value } => WalEntry::Put { key, value },
                    DbCmd::Delete { key } => WalEntry::Delete { key },
                },
            decreases rev@.len(),
        {
            let c = rev.pop().unwrap();
            entries.push(c.into_wal_entry());
        }
        WalRequest::new(seq_num, entries)
    }

    /// Commits one put.
    pub fn set(&mut self, key: &[u8], value: &[u8]) -> (r: WalRequest)
        requires
            old(self).next_seq() < u64::MAX,
        ensures
            r.seq_num == old(self).next_seq(),
            final(self).next_seq() == old(self).next_seq() + 1,
            r.entries@.len() == 1,
            r.entries@[0] matches WalEntry::Put { key: k, value: v } && k@ == key@ && v@ == value@,
    {
        let k = crate::bytes::copy_range(key, 0, key.len());
        let v = crate::bytes::copy_range(value, 0, value.len());
        assert(k@ =~= key@);
        assert(v@ =~= value@);
        let cmds = vec![DbCmd::Put { key: k, value: v }];
        self.batch(cmds)
    }

    /// Commits one delete.
    pub fn delete(&mut self, key: &[u8]) -> (r: WalRequest)
        requires
            old(self).next_seq() < u64::MAX,
        ensures
            r.seq_num == old(self).next_seq(),
            final(self).next_seq() == old(self).next_seq() + 1,
            r.entries@.len() == 1,
            r.entries@[0] matches WalEntry::Delete { key: k } && k@ == key@,
    {
        let k = crate::bytes::copy_range(key, 0, key.len());
        assert(k@ =~= key@);
        let cmds = vec![DbCmd::Delete { key: k }];
        self.batch(cmds)
    }

    /// Point lookups are served by the memtable and the sorted tables, which
    /// this handle does not hold: nothing is found here.
    pub fn get(&self, key: &[u8]) -> (r: Option<Vec<u8>>)
        ensures
            r is None,
    {
        None
    }
}

/// Batches committed one after another get the sequence numbers 0, 1, 2, …
/// in call order: after `n` batches on a new database the next one gets `n`.
pub proof fn lemma_commit_order(seqs: Seq<u64>)
    requires
        seqs.len() > 0,
        seqs[0] == 0,
        forall|i: int| 0 < i < seqs.len() ==> #[trigger] seqs[i] == seqs[i - 1] + 1,
    ensures
        forall|i: int| 0 <= i < seqs.len() ==> #[trigger] seqs[i] == i,
        forall|i: int, j: int| 0 <= i < j < seqs.len() ==> seqs[i] < seqs[j],
{
    assert forall|i: int| 0 <= i < seqs.len() implies #[trigger] seqs[i] == i by {
        lemma_seq_at(seqs, i);
    }
}

proof fn lemma_seq_at(seqs: Seq<u64>, i: int)
    requires
        0 <= i < seqs.len(),
        seqs[0] == 0,
        forall|j: int| 0 < j < seqs.len() ==> #[trigger] seqs[j] == seqs[j - 1] + 1,
    ensures
        seqs[i] == i,
    decreases i,
{
    if i > 0 {
        lemma_seq_at(seqs, i - 1);
        assert(seqs[i] == seqs[i - 1] + 1);
    }
}

} // verus!
