//! The manifest log: typed, tag-terminated catalog records.
use vstd::prelude::*;
use vstd::utf8::encode_utf8;

use crate::error::StorageError;
use crate::string::{lp_at, lp_bytes, lp_string_at, read_bytes, read_string, write_bytes, write_string};
use crate::varint::{
    read_varint_u32, read_varint_u64, varint_encode, varint_u32_at, varint_u64_at, write_varint_u32, write_varint_u64,
};

verus! {

/// The kinds of manifest records, numbered 1 to 11 on disk.
pub enum ManifestLogEntryType {
    LogNumber,
    PrevFileNumber,
    NextFileNumber,
    LastSequence,
    MaxColumnFamily,
    DeletedFile,
    NewFile,
    InAtomicGroup,
    DbId,
    WalAddition,
    WalDeletion,
}

/// The tags of a WAL addition, numbered from 0.
pub enum WalTagType {
    Terminate,
    SyncedSize,
}

/// The tags of a new-file record, numbered from 0.
pub enum NewFileTagType {
    Terminate,
    NeedCompaction,
    FileCreationTime,
    FileCheckSum,
    FileCheckSumFuncName,
}

#[derive(Debug, Clone, Copy, PartialEq, Eq, Structural)]
pub enum WalTag {
    Terminate,
    SyncedSize { size: u64 },
}

#[derive(Debug, Clone)]
pub enum NewFileTag {
    Terminate,
    NeedCompaction,
    FileCreationTime { time: u64 },
    FileCheckSum { chec_sum: u32 },
    FileCheckSumFuncName { func_name: String },
}

#[derive(Debug, Clone)]
pub enum ManifestLogEntry {
    LogNumber { log_number: u64 },
    PrevFileNumber { prev_file_number: u64 },
    NextFileNumber { next_file_number: u64 },
    LastSequence { last_sequence: u64 },
    MaxColumnFamily { max_column_family: u32 },
    DeletedFile { level: u32, file_number: u64 },
    NewFile {
        level: u32,
        file_number: u64,
        file_size: u64,
        smallest: Vec<u8>,
        largest: Vec<u8>,
        smallest_seqno: u64,
        largest_seqno: u64,
        tags: Vec<NewFileTag>,
    },
    InAtomicGroup { version_edit_count: u32 },
    DbId { db_id: String },
    WalAddition { log_number: u64, tags: Vec<WalTag> },
    WalDeletion { log_number: u64 },
}

/// What a new-file tag holds.
pub enum NewFileTagModel {
    Terminate,
    NeedCompaction,
    FileCreationTime(u64),
    FileCheckSum(u32),
    FileCheckSumFuncName(Seq<char>),
}

/// What a manifest record holds.
pub enum ManifestEntryModel {
    LogNumber(u64),
    PrevFileNumber(u64),
    NextFileNumber(u64),
    LastSequence(u64),
    MaxColumnFamily(u32),
    DeletedFile(u32, u64),
    NewFile(u32, u64, u64, Seq<u8>, Seq<u8>, u64, u64, Seq<NewFileTagModel>),
    InAtomicGroup(u32),
    DbId(Seq<char>),
    WalAddition(u64, Seq<WalTag>),
    WalDeletion(u64),
}

impl View for NewFileTag {
    type V = NewFileTagModel;

    open spec fn view(&self) -> NewFileTagModel {
        match self {
            NewFileTag::Terminate => NewFileTagModel::Terminate,
            NewFileTag::NeedCompaction => NewFileTagModel::NeedCompaction,
            NewFileTag::FileCreationTime { time } => NewFileTagModel::FileCreationTime(*time),
            NewFileTag::FileCheckSum { chec_sum } => NewFileTagModel::FileCheckSum(*chec_sum),
            NewFileTag::FileCheckSumFuncName { func_name } => NewFileTagModel::FileCheckSumFuncName(func_name@),
        }
    }
}

pub open spec fn tags_view(tags: Seq<NewFileTag>) -> Seq<NewFileTagModel> {
    tags.map_values(|t: NewFileTag| t@)
}

impl View for ManifestLogEntry {
    type V = ManifestEntryModel;

    open spec fn view(&self) -> ManifestEntryModel {
        match self {
            ManifestLogEntry::LogNumber { log_number } => ManifestEntryModel::LogNumber(*log_number),
            ManifestLogEntry::PrevFileNumber { prev_file_number } => ManifestEntryModel::PrevFileNumber(*prev_file_number),
            ManifestLogEntry::NextFileNumber { next_file_number } => ManifestEntryModel::NextFileNumber(*next_file_number),
            ManifestLogEntry::LastSequence { last_sequence } => ManifestEntryModel::LastSequence(*last_sequence),
            ManifestLogEntry::MaxColumnFamily { max_column_family } => ManifestEntryModel::MaxColumnFamily(*max_column_family),
            ManifestLogEntry::DeletedFile { level, file_number } => ManifestEntryModel::DeletedFile(*level, *file_number),
            ManifestLogEntry::NewFile {
                level,
                file_number,
                file_size,
                smallest,
                largest,
                smallest_seqno,
                largest_seqno,
                tags,
            } => ManifestEntryModel::NewFile(
                *level,
                *file_number,
                *file_size,
                smallest@,
                largest@,
                *smallest_seqno,
                *largest_seqno,
                tags_view(tags@),
            ),
            ManifestLogEntry::InAtomicGroup { version_edit_count } => ManifestEntryModel::InAtomicGroup(*version_edit_count),
            ManifestLogEntry::DbId { db_id } => ManifestEntryModel::DbId(db_id@),
            ManifestLogEntry::WalAddition { log_number, tags } => ManifestEntryModel::WalAddition(*log_number, tags@),
            ManifestLogEntry::WalDeletion { log_number } => ManifestEntryModel::WalDeletion(*log_number),
        }
    }
}

// ---- encoding ----

pub open spec fn wal_tag_type(t: WalTag) -> nat {
    match t {
        WalTag::Terminate => 0,
        WalTag::SyncedSize { .. } => 1,
    }
}

pub open spec fn wal_tag_bytes(t: WalTag) -> Seq<u8> {
    match t {
        WalTag::Terminate => varint_encode(0),
        WalTag::SyncedSize { size } => varint_encode(1) + varint_encode(size as nat),
    }
}

/// Tags, then the terminating tag.
pub open spec fn wal_tags_bytes(ts: Seq<WalTag>) -> Seq<u8>
    decreases ts.len(),
{
    if ts.len() == 0 {
        varint_encode(0)
    } else {
        wal_tag_bytes(ts[0]) + wal_tags_bytes(ts.drop_first())
    }
}

pub open spec fn new_file_tag_type(t: NewFileTagModel) -> nat {
    match t {
        NewFileTagModel::Terminate => 0,
        NewFileTagModel::NeedCompaction => 1,
        NewFileTagModel::FileCreationTime(_) => 2,
        NewFileTagModel::FileCheckSum(_) => 3,
        NewFileTagModel::FileCheckSumFuncName(_) => 4,
    }
}

pub open spec fn new_file_tag_bytes(t: NewFileTagModel) -> Seq<u8> {
    varint_encode(new_file_tag_type(t)) + match t {
        NewFileTagModel::FileCreationTime(time) => varint_encode(time as nat),
        NewFileTagModel::FileCheckSum(c) => varint_encode(c as nat),
        NewFileTagModel::FileCheckSumFuncName(name) => lp_bytes(encode_utf8(name)),
        _ => Seq::<u8>::empty(),
    }
}

/// Tags, then the terminating tag.
pub open spec fn new_file_tags_bytes(ts: Seq<NewFileTagModel>) -> Seq<u8>
    decreases ts.len(),
{
    if ts.len() == 0 {
        varint_encode(0)
    } else {
        new_file_tag_bytes(ts[0]) + new_file_tags_bytes(ts.drop_first())
    }
}

pub open spec fn entry_type(e: ManifestEntryModel) -> nat {
    match e {
        ManifestEntryModel::LogNumber(_) => 1,
        ManifestEntryModel::PrevFileNumber(_) => 2,
        ManifestEntryModel::NextFileNumber(_) => 3,
        ManifestEntryModel::LastSequence(_) => 4,
        ManifestEntryModel::MaxColumnFamily(_) => 5,
        ManifestEntryModel::DeletedFile(..) => 6,
        ManifestEntryModel::NewFile(..) => 7,
        ManifestEntryModel::InAtomicGroup(_) => 8,
        ManifestEntryModel::DbId(_) => 9,
        ManifestEntryModel::WalAddition(..) => 10,
        ManifestEntryModel::WalDeletion(_) => 11,
    }
}

/// The bytes of one manifest record: its type as a varint, then its fields.
pub open spec fn manifest_entry_bytes(e: ManifestEntryModel) -> Seq<u8> {
    varint_encode(entry_type(e)) + match e {
        ManifestEntryModel::LogNumber(v) => varint_encode(v as nat),
        ManifestEntryModel::PrevFileNumber(v) => varint_encode(v as nat),
        ManifestEntryModel::NextFileNumber(v) => varint_encode(v as nat),
        ManifestEntryModel::LastSequence(v) => varint_encode(v as nat),
        ManifestEntryModel::MaxColumnFamily(v) => varint_encode(v as nat),
        ManifestEntryModel::DeletedFile(level, n) => varint_encode(level as nat) + varint_encode(n as nat),
        ManifestEntryModel::NewFile(level, n, size, smallest, largest, sseq, lseq, tags) => varint_encode(level as nat)
            + varint_encode(n as nat) + varint_encode(size as nat) + lp_bytes(smallest) + lp_bytes(largest)
            + varint_encode(sseq as nat) + varint_encode(lseq as nat) + new_file_tags_bytes(tags),
        ManifestEntryModel::InAtomicGroup(v) => varint_encode(v as nat),
        ManifestEntryModel::DbId(id) => lp_bytes(encode_utf8(id)),
        ManifestEntryModel::WalAddition(n, tags) => varint_encode(n as nat) + wal_tags_bytes(tags),
        ManifestEntryModel::WalDeletion(n) => varint_encode(n as nat),
    }
}

// ---- decoding, by position in `d` ----

pub open spec fn u64_at(d: Seq<u8>, p: nat) -> Option<(u64, nat)> {
    match varint_u64_at(d.subrange(p as int, d.len() as int)) {
        Some((v, l)) => Some((v as u64, p + l)),
        None => None,
    }
}

pub open spec fn u32_at(d: Seq<u8>, p: nat) -> Option<(u32, nat)> {
    match varint_u32_at(d.subrange(p as int, d.len() as int)) {
        Some((v, l)) => Some((v as u32, p + l)),
        None => None,
    }
}

pub open spec fn bytes_at(d: Seq<u8>, p: nat) -> Option<(Seq<u8>, nat)> {
    match lp_at(d.subrange(p as int, d.len() as int)) {
        Some((b, l)) => Some((b, p + l)),
        None => None,
    }
}

pub open spec fn string_at(d: Seq<u8>, p: nat) -> Option<(Seq<char>, nat)> {
    match lp_string_at(d.subrange(p as int, d.len() as int)) {
        Some((s, l)) => Some((s, p + l)),
        None => None,
    }
}

pub open spec fn wal_tag_at(d: Seq<u8>, p: nat) -> Option<(WalTag, nat)> {
    match u32_at(d, p) {
        Some((t, p1)) => if t == 0 {
            Some((WalTag::Terminate, p1))
        } else if t == 1 {
            match u64_at(d, p1) {
                Some((size, p2)) => Some((WalTag::SyncedSize { size }, p2)),
                None => None,
            }
        } else {
            None
        },
        None => None,
    }
}

/// Tags up to and including the terminating one; the terminator is not listed.
pub open spec fn wal_tags_at(d: Seq<u8>, p: nat) -> Option<(Seq<WalTag>, nat)>
    decreases d.len() - p,
{
    match wal_tag_at(d, p) {
        Some((WalTag::Terminate, p1)) => Some((seq![], p1)),
        Some((t, p1)) => if p < p1 <= d.len() {
            match wal_tags_at(d, p1) {
                Some((ts, p2)) => Some((seq![t] + ts, p2)),
                None => None,
            }
        } else {
            None
        },
        None => None,
    }
}

pub open spec fn new_file_tag_at(d: Seq<u8>, p: nat) -> Option<(NewFileTagModel, nat)> {
    match u32_at(d, p) {
        Some((t, p1)) => if t == 0 {
            Some((NewFileTagModel::Terminate, p1))
        } else if t == 1 {
            Some((NewFileTagModel::NeedCompaction, p1))
        } else if t == 2 {
            match u64_at(d, p1) {
                Some((v, p2)) => Some((NewFileTagModel::FileCreationTime(v), p2)),
                None => None,
            }
        } else if t == 3 {
            match u32_at(d, p1) {
                Some((v, p2)) => Some((NewFileTagModel::FileCheckSum(v), p2)),
                None => None,
            }
        } else if t == 4 {
            match string_at(d, p1) {
                Some((s, p2)) => Some((NewFileTagModel::FileCheckSumFuncName(s), p2)),
                None => None,
            }
        } else {
            None
        },
        None => None,
    }
}

/// Tags up to and including the terminating one; the terminator is not listed.
pub open spec fn new_file_tags_at(d: Seq<u8>, p: nat) -> Option<(Seq<NewFileTagModel>, nat)>
    decreases d.len() - p,
{
    match new_file_tag_at(d, p) {
        Some((NewFileTagModel::Terminate, p1)) => Some((seq![], p1)),
        Some((t, p1)) => if p < p1 <= d.len() {
            match new_file_tags_at(d, p1) {
                Some((ts, p2)) => Some((seq![t] + ts, p2)),
                None => None,
            }
        } else {
            None
        },
        None => None,
    }
}

pub open spec fn new_file_at(d: Seq<u8>, p: nat) -> Option<(ManifestEntryModel, nat)> {
    match u32_at(d, p) {
        Some((level, p1)) => match u64_at(d, p1) {
            Some((n, p2)) => match u64_at(d, p2) {
                Some((size, p3)) => match bytes_at(d, p3) {
                    Some((smallest, p4)) => match bytes_at(d, p4) {
                        Some((largest, p5)) => match u64_at(d, p5) {
                            Some((sseq, p6)) => match u64_at(d, p6) {
                                Some((lseq, p7)) => match new_file_tags_at(d, p7) {
                                    Some((tags, p8)) => Some(
                                        (ManifestEntryModel::NewFile(level, n, size, smallest, largest, sseq, lseq, tags), p8),
                                    ),
                                    None => None,
                                },
                                None => None,
                            },
                            None => None,
                        },
                        None => None,
                    },
                    None => None,
                },
                None => None,
            },
            None => None,
        },
        None => None,
    }
}

/// The manifest record at position `p` of `d` and the position after it.
pub open spec fn manifest_entry_at(d: Seq<u8>, p: nat) -> Option<(ManifestEntryModel, nat)> {
    match u32_at(d, p) {
        Some((t, p1)) => if t == 1 {
            match u64_at(d, p1) {
                Some((v, p2)) => Some((ManifestEntryModel::LogNumber(v), p2)),
                None => None,
            }
        } else if t == 2 {
            match u64_at(d, p1) {
                Some((v, p2)) => Some((ManifestEntryModel::PrevFileNumber(v), p2)),
                None => None,
            }
        } else if t == 3 {
            match u64_at(d, p1) {
                Some((v, p2)) => Some((ManifestEntryModel::NextFileNumber(v), p2)),
                None => None,
            }
        } else if t == 4 {
            match u64_at(d, p1) {
                Some((v, p2)) => Some((ManifestEntryModel::LastSequence(v), p2)),
                None => None,
            }
        } else if t == 5 {
            match u32_at(d, p1) {
                Some((v, p2)) => Some((ManifestEntryModel::MaxColumnFamily(v), p2)),
                None => None,
            }
        } else if t == 6 {
            match u32_at(d, p1) {
                Some((level, p2)) => match u64_at(d, p2) {
                    Some((n, p3)) => Some((ManifestEntryModel::DeletedFile(level, n), p3)),
                    None => None,
                },
                None => None,
            }
        } else if t == 7 {
            new_file_at(d, p1)
        } else if t == 8 {
            match u32_at(d, p1) {
                Some((v, p2)) => Some((ManifestEntryModel::InAtomicGroup(v), p2)),
                None => None,
            }
        } else if t == 9 {
            match string_at(d, p1) {
                Some((s, p2)) => Some((ManifestEntryModel::DbId(s), p2)),
                None => None,
            }
        } else if t == 10 {
            match u64_at(d, p1) {
                Some((n, p2)) => match wal_tags_at(d, p2) {
                    Some((tags, p3)) => Some((ManifestEntryModel::WalAddition(n, tags), p3)),
                    None => None,
                },
                None => None,
            }
        } else if t == 11 {
            match u64_at(d, p1) {
                Some((v, p2)) => Some((ManifestEntryModel::WalDeletion(v), p2)),
                None => None,
            }
        } else {
            None
        },
        None => None,
    }
}

} // verus!

verus! {

impl WalTag {
    pub fn get_type(&self) -> (r: u32)
        ensures
            r == wal_tag_type(*self),
    {
        match self {
            WalTag::Terminate => 0,
            WalTag::SyncedSize { .. } => 1,
        }
    }

    pub fn write(&self, out: &mut Vec<u8>)
        ensures
            final(out)@ == old(out)@ + wal_tag_bytes(*self),
    {
        write_varint_u32(self.get_type(), out);
        match self {
            WalTag::Terminate => {},
            WalTag::SyncedSize { size } => {
                let ghost mid = out@;
                write_varint_u64(*size, out);
                assert(out@ =~= old(out)@ + wal_tag_bytes(*self));
            },
        }
    }

    /// Reads one tag at `*pos`; an unknown tag type is `Corrupt`.
    pub fn read(data: &[u8], pos: &mut usize) -> (r: Result<WalTag, StorageError>)
        requires
            *old(pos) <= data@.len(),
        ensures
            *final(pos) <= data@.len(),
            match wal_tag_at(data@, *old(pos) as nat) {
                Some((t, p)) => r == Ok::<WalTag, StorageError>(t) && *final(pos) == p,
                None => r == Err::<WalTag, StorageError>(StorageError::Corrupt),
            },
    {
        let t = match read_varint_u32(data, pos) {
            Ok(t) => t,
            Err(e) => return Err(e),
        };
        if t == 0 {
            Ok(WalTag::Terminate)
        } else if t == 1 {
            let size = match read_varint_u64(data, pos) {
                Ok(v) => v,
                Err(e) => return Err(e),
            };
            Ok(WalTag::SyncedSize { size })
        } else {
            Err(StorageError::Corrupt)
        }
    }
}

impl NewFileTag {
    pub fn get_type(&self) -> (r: u32)
        ensures
            r == new_file_tag_type(self@),
    {
        match self {
            NewFileTag::Terminate => 0,
            NewFileTag::NeedCompaction => 1,
            NewFileTag::FileCreationTime { .. } => 2,
            NewFileTag::FileCheckSum { .. } => 3,
            NewFileTag::FileCheckSumFuncName { .. } => 4,
        }
    }

    pub fn write(&self, out: &mut Vec<u8>)
        ensures
            final(out)@ == old(out)@ + new_file_tag_bytes(self@),
    {
        write_varint_u32(self.get_type(), out);
        match self {
            NewFileTag::Terminate => {
                assert(out@ =~= old(out)@ + new_file_tag_bytes(self@));
            },
            NewFileTag::NeedCompaction => {
                assert(out@ =~= old(out)@ + new_file_tag_bytes(self@));
            },
            NewFileTag::FileCreationTime { time } => {
                write_varint_u64(*time, out);
                assert(out@ =~= old(out)@ + new_file_tag_bytes(self@));
            },
            NewFileTag::FileCheckSum { chec_sum } => {
                write_varint_u32(*chec_sum, out);
                assert(out@ =~= old(out)@ + new_file_tag_bytes(self@));
            },
            NewFileTag::FileCheckSumFuncName { func_name } => {
                write_string(func_name.as_str(), out);
                assert(out@ =~= old(out)@ + new_file_tag_bytes(self@));
            },
        }
    }

    /// Reads one tag at `*pos`; an unknown tag type is `Corrupt`.
    pub fn read(data: &[u8], pos: &mut usize) -> (r: Result<NewFileTag, StorageError>)
        requires
            *old(pos) <= data@.len(),
        ensures
            *final(pos) <= data@.len(),
            match new_file_tag_at(data@, *old(pos) as nat) {
                Some((t, p)) => r matches Ok(v) && v@ == t && *final(pos) == p,
                None => r == Err::<NewFileTag, StorageError>(StorageError::Corrupt),
            },
    {
        let t = match read_varint_u32(data, pos) {
            Ok(t) => t,
            Err(e) => return Err(e),
        };
        if t == 0 {
            Ok(NewFileTag::Terminate)
        } else if t == 1 {
            Ok(NewFileTag::NeedCompaction)
        } else if t == 2 {
            match read_varint_u64(data, pos) {
                Ok(time) => Ok(NewFileTag::FileCreationTime { time }),
                Err(e) => Err(e),
            }
        } else if t == 3 {
            match read_varint_u32(data, pos) {
                Ok(chec_sum) => Ok(NewFileTag::FileCheckSum { chec_sum }),
                Err(e) => Err(e),
            }
        } else if t == 4 {
            match read_string(data, pos) {
                Ok(func_name) => Ok(NewFileTag::FileCheckSumFuncName { func_name }),
                Err(e) => Err(e),
            }
        } else {
            Err(StorageError::Corrupt)
        }
    }
}

fn write_wal_tags(tags: &Vec<WalTag>, out: &mut Vec<u8>)
    ensures
        final(out)@ == old(out)@ + wal_tags_bytes(tags@),
{
    let ghost start = out@;
    let ghost ts = tags@;
    let mut i: usize = 0;
    assert(ts.subrange(0, ts.len() as int) =~= ts);
    while i < tags.len()
        invariant
            i <= ts.len(),
            ts == tags@,
            start + wal_tags_bytes(ts) == out@ + wal_tags_bytes(ts.subrange(i as int, ts.len() as int)),
        decreases ts.len() - i,
    {
        let ghost before = out@;
        tags[i].write(out);
        proof {
            let t = ts.subrange(i as int, ts.len() as int);
            assert(t.drop_first() =~= ts.subrange(i + 1, ts.len() as int));
            assert(t[0] == ts[i as int]);
            assert(before + wal_tags_bytes(t) =~= out@ + wal_tags_bytes(ts.subrange(i + 1, ts.len() as int)));
        }
        i = i + 1;
    }
    WalTag::Terminate.write(out);
    assert(ts.subrange(i as int, ts.len() as int) =~= Seq::<WalTag>::empty());
}

fn write_new_file_tags(tags: &Vec<NewFileTag>, out: &mut Vec<u8>)
    ensures
        final(out)@ == old(out)@ + new_file_tags_bytes(tags_view(tags@)),
{
    let ghost start = out@;
    let ghost ts = tags_view(tags@);
    let mut i: usize = 0;
    assert(ts.subrange(0, ts.len() as int) =~= ts);
    while i < tags.len()
        invariant
            i <= ts.len(),
            ts == tags_view(tags@),
            start + new_file_tags_bytes(ts) == out@ + new_file_tags_bytes(ts.subrange(i as int, ts.len() as int)),
        decreases ts.len() - i,
    {
        let ghost before = out@;
        tags[i].write(out);
        proof {
            let t = ts.subrange(i as int, ts.len() as int);
            assert(t.drop_first() =~= ts.subrange(i + 1, ts.len() as int));
            assert(t[0] == tags@[i as int]@);
            assert(before + new_file_tags_bytes(t) =~= out@ + new_file_tags_bytes(ts.subrange(i + 1, ts.len() as int)));
        }
        i = i + 1;
    }
    NewFileTag::Terminate.write(out);
    assert(ts.subrange(i as int, ts.len() as int) =~= Seq::<NewFileTagModel>::empty());
}

fn read_wal_tags(data: &[u8], pos: &mut usize) -> (r: Result<Vec<WalTag>, StorageError>)
    requires
        *old(pos) <= data@.len(),
    ensures
        *final(pos) <= data@.len(),
        match wal_tags_at(data@, *old(pos) as nat) {
            Some((ts, p)) => r matches Ok(v) && v@ == ts && *final(pos) == p,
            None => r == Err::<Vec<WalTag>, StorageError>(StorageError::Corrupt),
        },
{
    let ghost p0 = *pos as nat;
    let mut tags: Vec<WalTag> = Vec::new();
    loop
        invariant
            *pos <= data@.len(),
            p0 == *old(pos) as nat,
            wal_tags_at(data@, p0) == match wal_tags_at(data@, *pos as nat) {
                Some((rest, pe)) => Some((tags@ + rest, pe)),
                None => None::<(Seq<WalTag>, nat)>,
            },
        decreases data@.len() - *pos,
    {
        let ghost before = *pos;
        let tag = match WalTag::read(data, pos) {
            Ok(t) => t,
            Err(e) => {
                proof {
                    assert(wal_tags_at(data@, before as nat) is None);
                }
                return Err(e);
            },
        };
        match tag {
            WalTag::Terminate => {
                assert(wal_tags_at(data@, before as nat) == Some((Seq::<WalTag>::empty(), *pos as nat)));
                assert(tags@ + Seq::<WalTag>::empty() =~= tags@);
                return Ok(tags);
            },
            _ => {
                proof {
                    assert(before < *pos) by {
                        crate::varint::lemma_varint_decode_bounds(data@.subrange(before as int, data@.len() as int));
                    }
                }
                let ghost old_tags = tags@;
                tags.push(tag);
                proof {
                    match wal_tags_at(data@, *pos as nat) {
                        Some((rest, pe)) => {
                            assert(old_tags + (seq![tag] + rest) =~= tags@ + rest);
                        },
                        None => {},
                    }
                }
            },
        }
    }
}

fn read_new_file_tags(data: &[u8], pos: &mut usize) -> (r: Result<Vec<NewFileTag>, StorageError>)
    requires
        *old(pos) <= data@.len(),
    ensures
        *final(pos) <= data@.len(),
        match new_file_tags_at(data@, *old(pos) as nat) {
            Some((ts, p)) => r matches Ok(v) && tags_view(v@) == ts && *final(pos) == p,
            None => r == Err::<Vec<NewFileTag>, StorageError>(StorageError::Corrupt),
        },
{
    let ghost p0 = *pos as nat;
    let mut tags: Vec<NewFileTag> = Vec::new();
    loop
        invariant
            *pos <= data@.len(),
            p0 == *old(pos) as nat,
            new_file_tags_at(data@, p0) == match new_file_tags_at(data@, *pos as nat) {
                Some((rest, pe)) => Some((tags_view(tags@) + rest, pe)),
                None => None::<(Seq<NewFileTagModel>, nat)>,
            },
        decreases data@.len() - *pos,
    {
        let ghost before = *pos;
        let tag = match NewFileTag::read(data, pos) {
            Ok(t) => t,
            Err(e) => {
                proof {
                    assert(new_file_tags_at(data@, before as nat) is None);
                }
                return Err(e);
            },
        };
        match tag {
            NewFileTag::Terminate => {
                assert(new_file_tags_at(data@, before as nat) == Some((Seq::<NewFileTagModel>::empty(), *pos as nat)));
                assert(tags_view(tags@) + Seq::<NewFileTagModel>::empty() =~= tags_view(tags@));
                return Ok(tags);
            },
            _ => {
                proof {
                    assert(before < *pos) by {
                        crate::varint::lemma_varint_decode_bounds(data@.subrange(before as int, data@.len() as int));
                    }
                }
                let ghost old_tags = tags@;
                let ghost tv = tag@;
                tags.push(tag);
                proof {
                    assert(tags_view(tags@) =~= tags_view(old_tags).push(tv));
                    match new_file_tags_at(data@, *pos as nat) {
                        Some((rest, pe)) => {
                            assert(tags_view(old_tags) + (seq![tv] + rest) =~= tags_view(tags@) + rest);
                        },
                        None => {},
                    }
                }
            },
        }
    }
}

impl ManifestLogEntry {
    pub fn get_type(&self) -> (r: u32)
        ensures
            r == entry_type(self@),
    {
        match self {
            ManifestLogEntry::LogNumber { .. } => 1,
            ManifestLogEntry::PrevFileNumber { .. } => 2,
            ManifestLogEntry::NextFileNumber { .. } => 3,
            ManifestLogEntry::LastSequence { .. } => 4,
            ManifestLogEntry::MaxColumnFamily { .. } => 5,
            ManifestLogEntry::DeletedFile { .. } => 6,
            ManifestLogEntry::NewFile { .. } => 7,
            ManifestLogEntry::InAtomicGroup { .. } => 8,
            ManifestLogEntry::DbId { .. } => 9,
            ManifestLogEntry::WalAddition { .. } => 10,
            ManifestLogEntry::WalDeletion { .. } => 11,
        }
    }

    /// Appends the record: its type, then its fields.
    pub fn write(&self, out: &mut Vec<u8>)
        ensures
            final(out)@ == old(out)@ + manifest_entry_bytes(self@),
    {
        let ghost start = out@;
        write_varint_u32(self.get_type(), out);
        match self {
            ManifestLogEntry::LogNumber { log_number } => write_varint_u64(*log_number, out),
            ManifestLogEntry::PrevFileNumber { prev_file_number } => write_varint_u64(*prev_file_number, out),
            ManifestLogEntry::NextFileNumber { next_file_number } => write_varint_u64(*next_file_number, out),
            ManifestLogEntry::LastSequence { last_sequence } => write_varint_u64(*last_sequence, out),
            ManifestLogEntry::MaxColumnFamily { max_column_family } => write_varint_u32(*max_column_family, out),
            ManifestLogEntry::DeletedFile { level, file_number } => {
                write_varint_u32(*level, out);
                write_varint_u64(*file_number, out);
            },
            ManifestLogEntry::NewFile {
                level,
                file_number,
                file_size,
                smallest,
                largest,
                smallest_seqno,
                largest_seqno,
                tags,
            } => {
                write_varint_u32(*level, out);
                write_varint_u64(*file_number, out);
                write_varint_u64(*file_size, out);
                write_bytes(smallest.as_slice(), out);
                write_bytes(largest.as_slice(), out);
                write_varint_u64(*smallest_seqno, out);
                write_varint_u64(*largest_seqno, out);
                write_new_file_tags(tags, out);
            },
            ManifestLogEntry::InAtomicGroup { version_edit_count } => write_varint_u32(*version_edit_count, out),
            ManifestLogEntry::DbId { db_id } => write_string(db_id.as_str(), out),
            ManifestLogEntry::WalAddition { log_number, tags } => {
                write_varint_u64(*log_number, out);
                write_wal_tags(tags, out);
            },
            ManifestLogEntry::WalDeletion { log_number } => write_varint_u64(*log_number, out),
        }
        assert(out@ =~= start + manifest_entry_bytes(self@));
    }

    fn read_new_file(data: &[u8], pos: &mut usize) -> (r: Result<ManifestLogEntry, StorageError>)
        requires
            *old(pos) <= data@.len(),
        ensures
            *final(pos) <= data@.len(),
            match new_file_at(data@, *old(pos) as nat) {
                Some((m, p)) => r matches Ok(e) && e@ == m && *final(pos) == p,
                None => r matches Err(e) && e == StorageError::Corrupt,
            },
    {
        let level = match read_varint_u32(data, pos) {
            Ok(v) => v,
            Err(e) => return Err(e),
        };
        let file_number = match read_varint_u64(data, pos) {
            Ok(v) => v,
            Err(e) => return Err(e),
        };
        let file_size = match read_varint_u64(data, pos) {
            Ok(v) => v,
            Err(e) => return Err(e),
        };
        let smallest = match read_bytes(data, pos) {
            Ok(v) => v,
            Err(e) => return Err(e),
        };
        let largest = match read_bytes(data, pos) {
            Ok(v) => v,
            Err(e) => return Err(e),
        };
        let smallest_seqno = match read_varint_u64(data, pos) {
            Ok(v) => v,
            Err(e) => return Err(e),
        };
        let largest_seqno = match read_varint_u64(data, pos) {
            Ok(v) => v,
            Err(e) => return Err(e),
        };
        let tags = match read_new_file_tags(data, pos) {
            Ok(v) => v,
            Err(e) => return Err(e),
        };
        Ok(
            ManifestLogEntry::NewFile {
                level,
                file_number,
                file_size,
                smallest,
                largest,
                smallest_seqno,
                largest_seqno,
                tags,
            },
        )
    }

    /// Reads the record at `*pos` and moves past it; an unknown type or a
    /// malformed field is `Corrupt`.
    #[verifier::rlimit(100)]
    pub fn read(data: &[u8], pos: &mut usize) -> (r: Result<ManifestLogEntry, StorageError>)
        requires
            *old(pos) <= data@.len(),
        ensures
            *final(pos) <= data@.len(),
            match manifest_entry_at(data@, *old(pos) as nat) {
                Some((m, p)) => r matches Ok(e) && e@ == m && *final(pos) == p,
                None => r matches Err(e) && e == StorageError::Corrupt,
            },
    {
        let t = match read_varint_u32(data, pos) {
            Ok(t) => t,
            Err(e) => return Err(e),
        };
        if t == 1 {
            match read_varint_u64(data, pos) {
                Ok(log_number) => Ok(ManifestLogEntry::LogNumber { log_number }),
                Err(e) => Err(e),
            }
        } else if t == 2 {
            match read_varint_u64(data, pos) {
                Ok(prev_file_number) => Ok(ManifestLogEntry::PrevFileNumber { prev_file_number }),
                Err(e) => Err(e),
            }
        } else if t == 3 {
            match read_varint_u64(data, pos) {
                Ok(next_file_number) => Ok(ManifestLogEntry::NextFileNumber { next_file_number }),
                Err(e) => Err(e),
            }
        } else if t == 4 {
            match read_varint_u64(data, pos) {
                Ok(last_sequence) => Ok(ManifestLogEntry::LastSequence { last_sequence }),
                Err(e) => Err(e),
            }
        } else if t == 5 {
            match read_varint_u32(data, pos) {
                Ok(max_column_family) => Ok(ManifestLogEntry::MaxColumnFamily { max_column_family }),
                Err(e) => Err(e),
            }
        } else if t == 6 {
            let level = match read_varint_u32(data, pos) {
                Ok(v) => v,
                Err(e) => return Err(e),
            };
            match read_varint_u64(data, pos) {
                Ok(file_number) => Ok(ManifestLogEntry::DeletedFile { level, file_number }),
                Err(e) => Err(e),
            }
        } else if t == 7 {
            Self::read_new_file(data, pos)
        } else if t == 8 {
            match read_varint_u32(data, pos) {
                Ok(version_edit_count) => Ok(ManifestLogEntry::InAtomicGroup { version_edit_count }),
                Err(e) => Err(e),
            }
        } else if t == 9 {
            match read_string(data, pos) {
                Ok(db_id) => Ok(ManifestLogEntry::DbId { db_id }),
                Err(e) => Err(e),
            }
        } else if t == 10 {
            let log_number = match read_varint_u64(data, pos) {
                Ok(v) => v,
                Err(e) => return Err(e),
            };
            match read_wal_tags(data, pos) {
                Ok(tags) => Ok(ManifestLogEntry::WalAddition { log_number, tags }),
                Err(e) => Err(e),
            }
        } else if t == 11 {
            match read_varint_u64(data, pos) {
                Ok(log_number) => Ok(ManifestLogEntry::WalDeletion { log_number }),
                Err(e) => Err(e),
            }
        } else {
            Err(StorageError::Corrupt)
        }
    }
}

/// Appends each record in order.
pub fn write_entries(entries: &Vec<ManifestLogEntry>, out: &mut Vec<u8>)
    ensures
        final(out)@ == old(out)@ + entries_bytes(entries@),
{
    let ghost start = out@;
    let mut i: usize = 0;
    assert(entries@.take(0) =~= Seq::<ManifestLogEntry>::empty());
    while i < entries.len()
        invariant
            i <= entries@.len(),
            out@ == start + entries_bytes(entries@.take(i as int)),
        decreases entries@.len() - i,
    {
        entries[i].write(out);
        proof {
            let t = entries@.take(i + 1);
            assert(t.drop_last() =~= entries@.take(i as int));
        }
        i = i + 1;
    }
    assert(entries@.take(i as int) =~= entries@);
}

/// The records of `es`, each encoded, one after another.
pub open spec fn entries_bytes(es: Seq<ManifestLogEntry>) -> Seq<u8>
    decreases es.len(),
{
    if es.len() == 0 {
        seq![]
    } else {
        entries_bytes(es.drop_last()) + manifest_entry_bytes(es.last()@)
    }
}

/// The records decoded one after another from position `p` of `d`, up to
/// the first that does not decode, and the position after the last.
pub open spec fn entries_at(d: Seq<u8>, p: nat) -> (Seq<ManifestEntryModel>, nat)
    decreases d.len() - p,
{
    if p < d.len() {
        match manifest_entry_at(d, p) {
            Some((m, p1)) => if p < p1 <= d.len() {
                let (rest, end) = entries_at(d, p1);
                (seq![m] + rest, end)
            } else {
                (seq![], p)
            },
            None => (seq![], p),
        }
    } else {
        (seq![], p)
    }
}

pub open spec fn entries_view(es: Seq<ManifestLogEntry>) -> Seq<ManifestEntryModel> {
    es.map_values(|e: ManifestLogEntry| e@)
}

/// Reads records from the start of `data` until its end or the first record
/// that does not decode. Returns them with the number of bytes they take.
fn decode_prefix(data: &[u8]) -> (r: (Vec<ManifestLogEntry>, usize))
    ensures
        (entries_view(r.0@), r.1 as nat) == entries_at(data@, 0),
{
    let mut pos: usize = 0;
    let mut out: Vec<ManifestLogEntry> = Vec::new();
    assert(entries_view(out@) + entries_at(data@, 0).0 =~= entries_at(data@, 0).0);
    loop
        invariant
            pos <= data@.len(),
            entries_at(data@, 0) == (entries_view(out@) + entries_at(data@, pos as nat).0, entries_at(data@, pos as nat).1),
        decreases data@.len() - pos,
    {
        if pos >= data.len() {
            assert(entries_view(out@) + Seq::<ManifestEntryModel>::empty() =~= entries_view(out@));
            return (out, pos);
        }
        let mut p = pos;
        match ManifestLogEntry::read(data, &mut p) {
            Ok(e) => {
                if p <= pos {
                    assert(entries_view(out@) + Seq::<ManifestEntryModel>::empty() =~= entries_view(out@));
                    return (out, pos);
                }
                let ghost ev = e@;
                let ghost before = out@;
                out.push(e);
                proof {
                    assert(entries_view(out@) =~= entries_view(before).push(ev));
                    let rest = entries_at(data@, p as nat).0;
                    assert(entries_view(before) + (seq![ev] + rest) =~= entries_view(out@) + rest);
                }
                pos = p;
            },
            Err(_) => {
                assert(entries_view(out@) + Seq::<ManifestEntryModel>::empty() =~= entries_view(out@));
                return (out, pos);
            },
        }
    }
}

/// An identity record reads back as itself, whatever follows it.
pub proof fn lemma_db_id_round_trip(id: Seq<char>, rest: Seq<u8>)
    requires
        encode_utf8(id).len() <= u64::MAX,
    ensures
        manifest_entry_at(manifest_entry_bytes(ManifestEntryModel::DbId(id)) + rest, 0) == Some(
            (ManifestEntryModel::DbId(id), manifest_entry_bytes(ManifestEntryModel::DbId(id)).len()),
        ),
{
    let b = encode_utf8(id);
    let t = varint_encode(9);
    let l = varint_encode(b.len());
    let d = manifest_entry_bytes(ManifestEntryModel::DbId(id)) + rest;
    assert(d =~= t + (l + b + rest));
    assert(d.subrange(0, d.len() as int) =~= d);
    crate::varint::lemma_varint_u64_round_trip(9, l + b + rest);
    let p1 = t.len();
    let s1 = d.subrange(p1 as int, d.len() as int);
    assert(s1 =~= l + (b + rest));
    crate::varint::lemma_varint_u64_round_trip(b.len() as u64, b + rest);
    assert(s1.subrange(l.len() as int, (l.len() + b.len()) as int) =~= b);
    vstd::utf8::encode_utf8_valid_utf8(id);
    vstd::utf8::encode_utf8_decode_utf8(id);
}

// ---- telling a torn last record from a malformed one ----

/// The varint of at most `w` bytes at position `p` of `d` is cut off by the
/// end of `d`: fewer than `w` bytes are left and each carries the high bit.
pub open spec fn num_torn(d: Seq<u8>, p: nat, w: nat) -> bool {
    let s = d.subrange(p as int, d.len() as int);
    s.len() < w && forall|i: int| 0 <= i < s.len() ==> #[trigger] s[i] >= 128
}

/// The length-prefixed string at position `p` of `d` is cut off by the end of
/// `d`: its length is, or its bytes run past the end.
pub open spec fn lp_torn(d: Seq<u8>, p: nat) -> bool {
    let s = d.subrange(p as int, d.len() as int);
    num_torn(d, p, 10) || (varint_u64_at(s) matches Some((l, k)) && k + l > s.len())
}

pub open spec fn wal_tag_torn(d: Seq<u8>, p: nat) -> bool {
    match u32_at(d, p) {
        None => num_torn(d, p, 5),
        Some((t, p1)) => t == 1 && num_torn(d, p1, 10),
    }
}

pub open spec fn wal_tags_torn(d: Seq<u8>, p: nat) -> bool
    decreases d.len() - p,
{
    match wal_tag_at(d, p) {
        Some((WalTag::Terminate, _)) => false,
        Some((_, p1)) => if p < p1 <= d.len() {
            wal_tags_torn(d, p1)
        } else {
            false
        },
        None => wal_tag_torn(d, p),
    }
}

pub open spec fn new_file_tag_torn(d: Seq<u8>, p: nat) -> bool {
    match u32_at(d, p) {
        None => num_torn(d, p, 5),
        Some((t, p1)) => if t == 2 {
            num_torn(d, p1, 10)
        } else if t == 3 {
            num_torn(d, p1, 5)
        } else if t == 4 {
            lp_torn(d, p1)
        } else {
            false
        },
    }
}

pub open spec fn new_file_tags_torn(d: Seq<u8>, p: nat) -> bool
    decreases d.len() - p,
{
    match new_file_tag_at(d, p) {
        Some((NewFileTagModel::Terminate, _)) => false,
        Some((_, p1)) => if p < p1 <= d.len() {
            new_file_tags_torn(d, p1)
        } else {
            false
        },
        None => new_file_tag_torn(d, p),
    }
}

pub open spec fn new_file_torn(d: Seq<u8>, p: nat) -> bool {
    match u32_at(d, p) {
        None => num_torn(d, p, 5),
        Some((_, p1)) => match u64_at(d, p1) {
            None => num_torn(d, p1, 10),
            Some((_, p2)) => match u64_at(d, p2) {
                None => num_torn(d, p2, 10),
                Some((_, p3)) => match bytes_at(d, p3) {
                    None => lp_torn(d, p3),
                    Some((_, p4)) => match bytes_at(d, p4) {
                        None => lp_torn(d, p4),
                        Some((_, p5)) => match u64_at(d, p5) {
                            None => num_torn(d, p5, 10),
                            Some((_, p6)) => match u64_at(d, p6) {
                                None => num_torn(d, p6, 10),
                                Some((_, p7)) => new_file_tags_torn(d, p7),
                            },
                        },
                    },
                },
            },
        },
    }
}

/// The record at position `p` of `d` is cut off by the end of `d`: decoding
/// it runs out of bytes before it ends, rather than meeting bytes that no
/// record holds there.
pub open spec fn entry_torn(d: Seq<u8>, p: nat) -> bool {
    match u32_at(d, p) {
        None => num_torn(d, p, 5),
        Some((t, p1)) => if t == 1 || t == 2 || t == 3 || t == 4 || t == 11 {
            num_torn(d, p1, 10)
        } else if t == 5 || t == 8 {
            num_torn(d, p1, 5)
        } else if t == 6 {
            match u32_at(d, p1) {
                None => num_torn(d, p1, 5),
                Some((_, p2)) => num_torn(d, p2, 10),
            }
        } else if t == 7 {
            new_file_torn(d, p1)
        } else if t == 9 {
            lp_torn(d, p1)
        } else if t == 10 {
            match u64_at(d, p1) {
                None => num_torn(d, p1, 10),
                Some((_, p2)) => wal_tags_torn(d, p2),
            }
        } else {
            false
        },
    }
}

fn num_torn_at(data: &[u8], pos: usize, w: usize) -> (r: bool)
    requires
        pos <= data@.len(),
    ensures
        r == num_torn(data@, pos as nat, w as nat),
{
    let ghost s = data@.subrange(pos as int, data@.len() as int);
    if data.len() - pos >= w {
        return false;
    }
    let mut i: usize = pos;
    while i < data.len()
        invariant
            pos <= i <= data@.len(),
            s == data@.subrange(pos as int, data@.len() as int),
            forall|k: int| 0 <= k < i - pos ==> #[trigger] s[k] >= 128,
        decreases data@.len() - i,
    {
        if data[i] < 128 {
            assert(s[i - pos] == data@[i as int]);
            return false;
        }
        assert(s[i - pos] == data@[i as int]);
        i = i + 1;
    }
    true
}

fn lp_torn_at(data: &[u8], pos: usize) -> (r: bool)
    requires
        pos <= data@.len(),
    ensures
        r == lp_torn(data@, pos as nat),
{
    if num_torn_at(data, pos, 10) {
        return true;
    }
    let mut q = pos;
    match read_varint_u64(data, &mut q) {
        Ok(l) => l > (data.len() - q) as u64,
        Err(_) => false,
    }
}

fn wal_tag_torn_at(data: &[u8], pos: usize) -> (r: bool)
    requires
        pos <= data@.len(),
    ensures
        r == wal_tag_torn(data@, pos as nat),
{
    let mut q = pos;
    match read_varint_u32(data, &mut q) {
        Ok(t) => t == 1 && num_torn_at(data, q, 10),
        Err(_) => num_torn_at(data, pos, 5),
    }
}

fn wal_tags_torn_at(data: &[u8], pos: usize) -> (r: bool)
    requires
        pos <= data@.len(),
    ensures
        r == wal_tags_torn(data@, pos as nat),
{
    let mut p = pos;
    loop
        invariant
            p <= data@.len(),
            wal_tags_torn(data@, pos as nat) == wal_tags_torn(data@, p as nat),
        decreases data@.len() - p,
    {
        let mut q = p;
        match WalTag::read(data, &mut q) {
            Err(_) => return wal_tag_torn_at(data, p),
            Ok(WalTag::Terminate) => return false,
            Ok(_) => {
                if q <= p {
                    return false;
                }
                p = q;
            },
        }
    }
}

fn new_file_tag_torn_at(data: &[u8], pos: usize) -> (r: bool)
    requires
        pos <= data@.len(),
    ensures
        r == new_file_tag_torn(data@, pos as nat),
{
    let mut q = pos;
    match read_varint_u32(data, &mut q) {
        Ok(t) => if t == 2 {
            num_torn_at(data, q, 10)
        } else if t == 3 {
            num_torn_at(data, q, 5)
        } else if t == 4 {
            lp_torn_at(data, q)
        } else {
            false
        },
        Err(_) => num_torn_at(data, pos, 5),
    }
}

fn new_file_tags_torn_at(data: &[u8], pos: usize) -> (r: bool)
    requires
        pos <= data@.len(),
    ensures
        r == new_file_tags_torn(data@, pos as nat),
{
    let mut p = pos;
    loop
        invariant
            p <= data@.len(),
            new_file_tags_torn(data@, pos as nat) == new_file_tags_torn(data@, p as nat),
        decreases data@.len() - p,
    {
        let mut q = p;
        match NewFileTag::read(data, &mut q) {
            Err(_) => return new_file_tag_torn_at(data, p),
            Ok(tag) => {
                match tag {
                    NewFileTag::Terminate => return false,
                    _ => {},
                }
                if q <= p {
                    return false;
                }
                p = q;
            },
        }
    }
}

fn new_file_torn_at(data: &[u8], pos: usize) -> (r: bool)
    requires
        pos <= data@.len(),
    ensures
        r == new_file_torn(data@, pos as nat),
{
    let mut q = pos;
    match read_varint_u32(data, &mut q) {
        Ok(_) => {},
        Err(_) => return num_torn_at(data, pos, 5),
    }
    let p1 = q;
    match read_varint_u64(data, &mut q) {
        Ok(_) => {},
        Err(_) => return num_torn_at(data, p1, 10),
    }
    let p2 = q;
    match read_varint_u64(data, &mut q) {
        Ok(_) => {},
        Err(_) => return num_torn_at(data, p2, 10),
    }
    let p3 = q;
    match read_bytes(data, &mut q) {
        Ok(_) => {},
        Err(_) => return lp_torn_at(data, p3),
    }
    let p4 = q;
    match read_bytes(data, &mut q) {
        Ok(_) => {},
        Err(_) => return lp_torn_at(data, p4),
    }
    let p5 = q;
    match read_varint_u64(data, &mut q) {
        Ok(_) => {},
        Err(_) => return num_torn_at(data, p5, 10),
    }
    let p6 = q;
    match read_varint_u64(data, &mut q) {
        Ok(_) => {},
        Err(_) => return num_torn_at(data, p6, 10),
    }
    new_file_tags_torn_at(data, q)
}

/// Whether the record at `pos` is cut off by the end of `data` (a torn last
/// record) rather than malformed.
pub fn entry_torn_at(data: &[u8], pos: usize) -> (r: bool)
    requires
        pos <= data@.len(),
    ensures
        r == entry_torn(data@, pos as nat),
{
    let mut q = pos;
    let t = match read_varint_u32(data, &mut q) {
        Ok(t) => t,
        Err(_) => return num_torn_at(data, pos, 5),
    };
    if t == 1 || t == 2 || t == 3 || t == 4 || t == 11 {
        num_torn_at(data, q, 10)
    } else if t == 5 || t == 8 {
        num_torn_at(data, q, 5)
    } else if t == 6 {
        let p1 = q;
        match read_varint_u32(data, &mut q) {
            Ok(_) => num_torn_at(data, q, 10),
            Err(_) => num_torn_at(data, p1, 5),
        }
    } else if t == 7 {
        new_file_torn_at(data, q)
    } else if t == 9 {
        lp_torn_at(data, q)
    } else if t == 10 {
        let p1 = q;
        match read_varint_u64(data, &mut q) {
            Ok(_) => wal_tags_torn_at(data, q),
            Err(_) => num_torn_at(data, p1, 10),
        }
    } else {
        false
    }
}

/// Reads the records of a manifest: all of them, up to a torn last record,
/// which ends the stream cleanly. Returns them with the number of bytes they
/// take. A record that does not decode and is not cut off by the end of
/// `data` is `Corrupt`.
pub fn read_entries(data: &[u8]) -> (r: Result<(Vec<ManifestLogEntry>, usize), StorageError>)
    ensures
        ({
            let (es, end) = entries_at(data@, 0);
            if end < data@.len() && !entry_torn(data@, end) {
                r == Err::<(Vec<ManifestLogEntry>, usize), StorageError>(StorageError::Corrupt)
            } else {
                r matches Ok((v, n)) && entries_view(v@) == es && n == end
            }
        }),
{
    let (entries, used) = decode_prefix(data);
    if used < data.len() && !entry_torn_at(data, used) {
        return Err(StorageError::Corrupt);
    }
    Ok((entries, used))
}

} // verus!
