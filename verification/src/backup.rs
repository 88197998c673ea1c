//! Snapshot exports with a SHA-256 footer, their verification before a restore,
//! and the migration of first-format databases.
use vstd::prelude::*;
use vstd::string::*;
use vstd::utf8::*;

use crate::binary::{
    block, encode_vector, from_le, le, lemma_from_le, lemma_le_from, lemma_le_len, push_le,
    read_u32, vector_rows,
};
use crate::engine::stored_revision;
use crate::error::{corrupt, verdict, Error, ErrorView, Result, Verdict};
use crate::keys::{
    apply, change_key, document_key, lemma_apply_concat, lemma_apply_untouched, member, ops_view,
    put, put_op, revision_bytes, vector_key, KeyOp, Kv, Op,
};
use crate::maintenance::{current_format, flattened, format_current, text_bytes, STAGE_BYTES};
use crate::model::{Document, NamespaceConfig, NamespaceStats};
use crate::outside::{
    absorbed, batch_new, batch_ops, batch_put, hasher_finish, hasher_new, hasher_update, sha256,
    BatchOps, Hasher,
};
use crate::text::{
    append_bytes, bytes_eq, bytes_lt, copy_range, lemma_lex_irreflexive, lemma_lex_transitive,
    lex_lt,
};

verus! {

pub const MAX_RECORD: usize = 16777216;

pub const MAX_KEY: u32 = 2048;

// ---------------------------------------------------------------------------
// The format
// ---------------------------------------------------------------------------
/// A key of the database with its value.
pub struct Record {
    pub key: Vec<u8>,
    pub value: Vec<u8>,
}

pub struct RecordView {
    pub key: Seq<u8>,
    pub value: Seq<u8>,
}

impl View for Record {
    type V = RecordView;

    open spec fn view(&self) -> RecordView {
        RecordView { key: self.key@, value: self.value@ }
    }
}

pub open spec fn record_views(records: Seq<Record>) -> Seq<RecordView> {
    records.map_values(|r: Record| r@)
}

/// `GMBAK`, the format version, CR and LF.
pub open spec fn backup_header() -> Seq<u8> {
    seq![71u8, 77u8, 66u8, 65u8, 75u8, 2u8, 13u8, 10u8]
}

pub open spec fn record_bytes(record: RecordView) -> Seq<u8> {
    le(record.key.len(), 4) + le(record.value.len(), 4) + record.key + record.value
}

pub open spec fn records_bytes(records: Seq<RecordView>) -> Seq<u8>
    decreases records.len(),
{
    if records.len() == 0 {
        Seq::empty()
    } else {
        records_bytes(records.drop_last()) + record_bytes(records.last())
    }
}

/// What the checksum covers: the header and all records.
pub open spec fn covered_bytes(records: Seq<RecordView>) -> Seq<u8> {
    backup_header() + records_bytes(records)
}

/// The record count and the checksum.
pub open spec fn footer_bytes(count: nat, hashed: Seq<u8>) -> Seq<u8> {
    le(count, 8) + sha256(hashed)
}

/// A complete backup: the sentinel of the footer takes the place of a key length.
pub open spec fn backup_bytes(records: Seq<RecordView>) -> Seq<u8> {
    covered_bytes(records) + le(4294967295, 4) + footer_bytes(
        records.len(),
        covered_bytes(records),
    )
}

pub fn header() -> (bytes: Vec<u8>)
    ensures
        bytes@ == backup_header(),
{
    let bytes: Vec<u8> = vec![71u8, 77u8, 66u8, 65u8, 75u8, 2u8, 13u8, 10u8];
    assert(bytes@ =~= backup_header());
    bytes
}

// ---------------------------------------------------------------------------
// Export
// ---------------------------------------------------------------------------
/// An export in progress.
pub struct Exporter {
    hasher: Hasher,
    count: u64,
}

impl Exporter {
    /// What the header and records so far amount to.
    pub closed spec fn written(&self) -> Seq<u8> {
        absorbed(self.hasher)
    }

    pub closed spec fn records(&self) -> nat {
        self.count as nat
    }

    /// Starts an export; the header is written first.
    pub fn new() -> (exporter: Exporter)
        ensures
            exporter.written() == backup_header(),
            exporter.records() == 0,
    {
        let mut hasher = hasher_new();
        let bytes = header();
        hasher_update(&mut hasher, bytes.as_slice());
        assert(absorbed(hasher) =~= backup_header());
        Exporter { hasher, count: 0 }
    }

    /// The bytes of the next record.
    pub fn record(&mut self, key: &[u8], value: &[u8]) -> (bytes: Vec<u8>)
        requires
            old(self).records() < u64::MAX,
        ensures
            bytes@ == record_bytes(RecordView { key: key@, value: value@ }),
            final(self).written() == old(self).written() + bytes@,
            final(self).records() == old(self).records() + 1,
    {
        let mut bytes: Vec<u8> = Vec::new();
        push_le(&mut bytes, key.len() as u64, 4);
        push_le(&mut bytes, value.len() as u64, 4);
        append_bytes(&mut bytes, key);
        append_bytes(&mut bytes, value);
        assert(bytes@ =~= record_bytes(RecordView { key: key@, value: value@ }));
        hasher_update(&mut self.hasher, bytes.as_slice());
        self.count = self.count + 1;
        bytes
    }

    /// The bytes that end the export.
    pub fn footer(self) -> (bytes: Vec<u8>)
        ensures
            bytes@ == le(4294967295, 4) + footer_bytes(self.records(), self.written()),
            footer_bytes(self.records(), self.written()).len() == 40,
    {
        let mut bytes: Vec<u8> = Vec::new();
        push_le(&mut bytes, 4294967295, 4);
        push_le(&mut bytes, self.count, 8);
        let hash = hasher_finish(self.hasher);
        append_bytes(&mut bytes, hash.as_slice());
        proof {
            lemma_le_len(self.count as nat, 8);
        }
        assert(bytes@ =~= le(4294967295, 4) + footer_bytes(self.records(), self.written()));
        bytes
    }
}

/// Exports all records at once.
pub fn export(records: &Vec<Record>) -> (bytes: Vec<u8>)
    ensures
        bytes@ == backup_bytes(record_views(records@)),
        footer_sized(record_views(records@)),
{
    let ghost view = record_views(records@);
    let mut exporter = Exporter::new();
    let mut bytes = header();
    let mut i: usize = 0;
    assert(bytes@ =~= covered_bytes(view.take(0)));
    while i < records.len()
        invariant
            i <= records@.len(),
            view == record_views(records@),
            bytes@ == covered_bytes(view.take(i as int)),
            exporter.written() == bytes@,
            exporter.records() == i,
        decreases records@.len() - i,
    {
        let frame = exporter.record(records[i].key.as_slice(), records[i].value.as_slice());
        append_bytes(&mut bytes, frame.as_slice());
        proof {
            assert(view.take(i + 1).drop_last() =~= view.take(i as int));
            assert(view.take(i + 1).last() == records@[i as int]@);
            assert(bytes@ =~= covered_bytes(view.take(i + 1)));
        }
        i += 1;
    }
    assert(view.take(i as int) =~= view);
    let footer = exporter.footer();
    append_bytes(&mut bytes, footer.as_slice());
    assert(bytes@ =~= backup_bytes(view));
    bytes
}

// ---------------------------------------------------------------------------
// Verification
// ---------------------------------------------------------------------------
pub open spec fn format_key_bytes() -> Seq<u8> {
    encode_utf8("meta/format"@)
}

/// Whether the first eight bytes of a file start a backup.
pub fn check_header(bytes: &[u8]) -> (result: Result<()>)
    ensures
        verdict(result) == if bytes@ == backup_header() {
            Ok(())
        } else {
            Err(ErrorView::Corrupt("unsupported backup format"@))
        },
{
    if bytes_eq(bytes, header().as_slice()) {
        Ok(())
    } else {
        Err(corrupt("unsupported backup format"))
    }
}

/// The four bytes at the start of a record: the length of its key, or `None` at
/// the sentinel of the footer.
pub fn key_length(bytes: &[u8]) -> (length: Option<u32>)
    requires
        bytes@.len() == 4,
    ensures
        match length {
            Some(n) => n != 4294967295 && bytes@ == le(n as nat, 4),
            None => bytes@ == le(4294967295, 4),
        },
{
    let n = read_u32(bytes, 0);
    proof {
        assert(bytes@.subrange(0, 4) =~= bytes@);
        lemma_from_le(bytes@);
    }
    if n == 4294967295 {
        None
    } else {
        Some(n)
    }
}

pub open spec fn lengths_valid(key: nat, value: nat) -> bool {
    1 <= key <= MAX_KEY && value <= MAX_RECORD
}

/// Reads the length of a record's value and checks both lengths.
pub fn value_length(key: u32, bytes: &[u8]) -> (result: Result<usize>)
    requires
        bytes@.len() == 4,
    ensures
        match result {
            Ok(n) => bytes@ == le(n as nat, 4) && lengths_valid(key as nat, n as nat),
            Err(e) => !lengths_valid(key as nat, from_le(bytes@)) && e@ == ErrorView::Corrupt(
                "invalid backup record length"@,
            ),
        },
{
    let n = read_u32(bytes, 0) as usize;
    proof {
        assert(bytes@.subrange(0, 4) =~= bytes@);
        lemma_from_le(bytes@);
    }
    if key == 0 || key > MAX_KEY || n > MAX_RECORD {
        return Err(corrupt("invalid backup record length"));
    }
    Ok(n)
}

/// Keys ascend strictly, and the format marker, where it stands, is current.
pub open spec fn record_verdict(previous: Seq<u8>, record: RecordView) -> Verdict {
    if !lex_lt(previous, record.key) {
        Err(ErrorView::Corrupt("backup keys must be strictly ordered"@))
    } else if record.key == format_key_bytes() && record.value != format_current() {
        Err(ErrorView::Corrupt("backup is not a complete v2 database"@))
    } else {
        Ok(())
    }
}

pub open spec fn last_key(records: Seq<RecordView>) -> Seq<u8> {
    if records.len() == 0 {
        Seq::empty()
    } else {
        records.last().key
    }
}

/// Every record was accepted after the one before it.
pub open spec fn records_valid(records: Seq<RecordView>) -> bool
    decreases records.len(),
{
    records.len() == 0 || (records_valid(records.drop_last()) && record_verdict(
        last_key(records.drop_last()),
        records.last(),
    ) is Ok)
}

pub open spec fn has_format(records: Seq<RecordView>) -> bool {
    exists|i: int| 0 <= i < records.len() && (#[trigger] records[i]).key == format_key_bytes()
}

pub open spec fn footer_verdict(records: Seq<RecordView>, footer: Seq<u8>, trailing: bool) -> Verdict {
    if has_format(records) && footer == footer_bytes(records.len(), covered_bytes(records))
        && !trailing {
        Ok(())
    } else {
        Err(ErrorView::Corrupt("backup count, checksum, or footer is invalid"@))
    }
}

/// A verification in progress.
pub struct Verifier {
    hasher: Hasher,
    count: u64,
    format: bool,
    previous: Vec<u8>,
    records: Ghost<Seq<RecordView>>,
}

impl Verifier {
    /// The records that have been accepted.
    pub closed spec fn accepted(&self) -> Seq<RecordView> {
        self.records@
    }

    pub closed spec fn valid(&self) -> bool {
        &&& absorbed(self.hasher) == covered_bytes(self.records@)
        &&& self.count == self.records@.len()
        &&& self.format == has_format(self.records@)
        &&& self.previous@ == last_key(self.records@)
        &&& records_valid(self.records@)
    }

    /// Starts after the header.
    pub fn new() -> (verifier: Verifier)
        ensures
            verifier.valid(),
            verifier.accepted() == Seq::<RecordView>::empty(),
    {
        let mut hasher = hasher_new();
        let bytes = header();
        hasher_update(&mut hasher, bytes.as_slice());
        assert(absorbed(hasher) =~= covered_bytes(Seq::empty()));
        Verifier {
            hasher,
            count: 0,
            format: false,
            previous: Vec::new(),
            records: Ghost(Seq::empty()),
        }
    }

    /// Accepts or rejects the next record.
    pub fn record(&mut self, key: &[u8], value: &[u8]) -> (result: Result<()>)
        requires
            old(self).valid(),
            old(self).accepted().len() < u64::MAX,
        ensures
            final(self).valid(),
            verdict(result) == record_verdict(
                last_key(old(self).accepted()),
                RecordView { key: key@, value: value@ },
            ),
            final(self).accepted() == if result is Ok {
                old(self).accepted().push(RecordView { key: key@, value: value@ })
            } else {
                old(self).accepted()
            },
    {
        let ghost before = self.records@;
        let ghost added = RecordView { key: key@, value: value@ };
        if !bytes_lt(self.previous.as_slice(), key) {
            return Err(corrupt("backup keys must be strictly ordered"));
        }
        let is_format = bytes_eq(key, text_bytes("meta/format").as_slice());
        if is_format && !bytes_eq(value, current_format().as_slice()) {
            return Err(corrupt("backup is not a complete v2 database"));
        }
        let mut bytes: Vec<u8> = Vec::new();
        push_le(&mut bytes, key.len() as u64, 4);
        push_le(&mut bytes, value.len() as u64, 4);
        append_bytes(&mut bytes, key);
        append_bytes(&mut bytes, value);
        assert(bytes@ =~= record_bytes(added));
        hasher_update(&mut self.hasher, bytes.as_slice());
        self.count = self.count + 1;
        if is_format {
            self.format = true;
        }
        self.previous = copy_range(key, 0, key.len());
        self.records = Ghost(before.push(added));
        proof {
            let after = before.push(added);
            assert(after.drop_last() =~= before);
            assert(self.previous@ =~= key@);
            assert(absorbed(self.hasher) =~= covered_bytes(after));
            if has_format(before) {
                let i = choose|i: int|
                    0 <= i < before.len() && (#[trigger] before[i]).key == format_key_bytes();
                assert(after[i] == before[i]);
            }
            assert(after[before.len() as int] == added);
            if has_format(after) {
                let i = choose|i: int|
                    0 <= i < after.len() && (#[trigger] after[i]).key == format_key_bytes();
                if i < before.len() {
                    assert(before[i] == after[i]);
                }
            }
        }
        Ok(())
    }

    /// Decides the backup by its footer. `trailing` says whether anything
    /// follows it.
    pub fn finish(self, footer: &[u8], trailing: bool) -> (result: Result<()>)
        requires
            self.valid(),
            footer@.len() == 40,
        ensures
            verdict(result) == footer_verdict(self.accepted(), footer@, trailing),
    {
        let mut expected: Vec<u8> = Vec::new();
        push_le(&mut expected, self.count, 8);
        let hash = hasher_finish(self.hasher);
        append_bytes(&mut expected, hash.as_slice());
        assert(expected@ =~= footer_bytes(self.records@.len(), covered_bytes(self.records@)));
        if !self.format || !bytes_eq(footer, expected.as_slice()) || trailing {
            return Err(corrupt("backup count, checksum, or footer is invalid"));
        }
        Ok(())
    }
}

/// The keys of accepted records ascend, so no key occurs twice.
pub proof fn law_records_ascend(records: Seq<RecordView>, i: int, j: int)
    requires
        records_valid(records),
        0 <= i < j < records.len(),
    ensures
        lex_lt(records[i].key, records[j].key),
    decreases records.len(),
{
    let front = records.drop_last();
    if j < records.len() - 1 {
        law_records_ascend(front, i, j);
        assert(front[i] == records[i] && front[j] == records[j]);
    } else if i == j - 1 {
        assert(front.last() == records[i]);
    } else {
        law_records_ascend(front, i, j - 1);
        assert(front[i] == records[i] && front[j - 1] == records[j - 1]);
        lemma_lex_transitive(records[i].key, records[j - 1].key, records[j].key);
    }
}

/// The keys of the records ascend strictly and none is empty: what a scan of a
/// database yields.
pub open spec fn scan_order(records: Seq<RecordView>) -> bool {
    &&& forall|i: int| 0 <= i < records.len() ==> (#[trigger] records[i]).key.len() > 0
    &&& forall|i: int, j: int|
        #![trigger records[i], records[j]]
        0 <= i < j < records.len() ==> lex_lt(records[i].key, records[j].key)
}

proof fn lemma_scan_accepted(records: Seq<RecordView>)
    requires
        scan_order(records),
        forall|i: int|
            0 <= i < records.len() && (#[trigger] records[i]).key == format_key_bytes()
                ==> records[i].value == format_current(),
    ensures
        records_valid(records),
    decreases records.len(),
{
    if records.len() > 0 {
        let front = records.drop_last();
        assert forall|i: int| 0 <= i < front.len() implies (#[trigger] front[i]).key.len() > 0 by {
            assert(front[i] == records[i]);
        }
        assert forall|i: int, j: int|
            #![trigger front[i], front[j]]
            0 <= i < j < front.len() implies lex_lt(front[i].key, front[j].key) by {
            assert(front[i] == records[i] && front[j] == records[j]);
        }
        assert forall|i: int|
            0 <= i < front.len() && (#[trigger] front[i]).key == format_key_bytes() implies front[i].value
            == format_current() by {
            assert(front[i] == records[i]);
        }
        lemma_scan_accepted(front);
        let last = records[records.len() - 1];
        if front.len() > 0 {
            assert(records[records.len() - 2] == front.last());
        } else {
            assert(last.key.len() > 0);
        }
    }
}

/// Every accepted length and record can be read back from its frame: a frame
/// starts with the lengths, which the sentinel never equals.
pub proof fn law_record_frame_reads_back(record: RecordView)
    requires
        lengths_valid(record.key.len(), record.value.len()),
    ensures
        ({
            let bytes = record_bytes(record);
            let k = record.key.len() as int;
            let v = record.value.len() as int;
            &&& bytes.len() == 8 + k + v
            &&& from_le(bytes.subrange(0, 4)) == k
            &&& from_le(bytes.subrange(4, 8)) == v
            &&& bytes.subrange(0, 4) != le(4294967295, 4)
            &&& bytes.subrange(8, 8 + k) == record.key
            &&& bytes.subrange(8 + k, 8 + k + v) == record.value
        }),
{
    let bytes = record_bytes(record);
    let k = record.key.len();
    let v = record.value.len();
    lemma_le_len(k, 4);
    lemma_le_len(v, 4);
    crate::binary::lemma_fits_32(k);
    crate::binary::lemma_fits_32(v);
    crate::binary::lemma_fits_32(4294967295);
    lemma_le_from(k, 4);
    lemma_le_from(v, 4);
    lemma_le_from(4294967295, 4);
    assert(bytes.subrange(0, 4) =~= le(k, 4));
    assert(bytes.subrange(4, 8) =~= le(v, 4));
    assert(bytes.subrange(8, 8 + k as int) =~= record.key);
    assert(bytes.subrange(8 + k as int, 8 + k as int + v as int) =~= record.value);
}

// ---------------------------------------------------------------------------
// Reading a file
// ---------------------------------------------------------------------------
/// What a backup file holds next.
#[derive(Clone, Copy, Debug, PartialEq, Eq, Structural)]
pub enum Expect {
    Header,
    KeyLength,
    ValueLength(u32),
    /// A key and a value of these lengths.
    Body(u32, u32),
    Footer,
    End,
}

/// How far a file has been read.
#[verifier::ext_equal]
pub struct Progress {
    pub expect: Expect,
    pub accepted: Seq<RecordView>,
    pub footer: Seq<u8>,
}

impl Progress {
    pub open spec fn start() -> Progress {
        Progress { expect: Expect::Header, accepted: Seq::empty(), footer: Seq::empty() }
    }

    /// How many bytes are read next.
    pub open spec fn need(self) -> nat {
        match self.expect {
            Expect::Header => 8,
            Expect::KeyLength | Expect::ValueLength(_) => 4,
            Expect::Body(k, v) => (k + v) as nat,
            Expect::Footer => 40,
            Expect::End => 0,
        }
    }

    /// The next bytes have been read.
    pub open spec fn fed(self, bytes: Seq<u8>) -> std::result::Result<Progress, ErrorView> {
        match self.expect {
            Expect::Header => if bytes == backup_header() {
                Ok(Progress { expect: Expect::KeyLength, ..self })
            } else {
                Err(ErrorView::Corrupt("unsupported backup format"@))
            },
            Expect::KeyLength => if bytes == le(4294967295, 4) {
                Ok(Progress { expect: Expect::Footer, ..self })
            } else {
                Ok(Progress { expect: Expect::ValueLength(from_le(bytes) as u32), ..self })
            },
            Expect::ValueLength(k) => if lengths_valid(k as nat, from_le(bytes)) {
                Ok(Progress { expect: Expect::Body(k, from_le(bytes) as u32), ..self })
            } else {
                Err(ErrorView::Corrupt("invalid backup record length"@))
            },
            Expect::Body(k, _) => {
                let record = RecordView { key: bytes.take(k as int), value: bytes.skip(k as int) };
                match record_verdict(last_key(self.accepted), record) {
                    Err(e) => Err(e),
                    Ok(_) => Ok(
                        Progress {
                            expect: Expect::KeyLength,
                            accepted: self.accepted.push(record),
                            ..self
                        },
                    ),
                }
            },
            Expect::Footer => Ok(Progress { expect: Expect::End, footer: bytes, ..self }),
            Expect::End => Ok(self),
        }
    }

    pub open spec fn sound(self) -> bool {
        &&& self.expect matches Expect::ValueLength(k) ==> k != 4294967295
        &&& self.expect matches Expect::Body(k, v) ==> lengths_valid(k as nat, v as nat)
    }
}

/// Reads a backup file piece by piece and verifies it.
pub struct Reader {
    expect: Expect,
    footer: Vec<u8>,
    verifier: Verifier,
}

impl View for Reader {
    type V = Progress;

    closed spec fn view(&self) -> Progress {
        Progress {
            expect: self.expect,
            accepted: self.verifier.accepted(),
            footer: self.footer@,
        }
    }
}

impl Reader {
    pub closed spec fn valid(&self) -> bool {
        &&& self.verifier.valid()
        &&& self@.sound()
        &&& self.expect == Expect::End ==> self.footer@.len() == 40
    }

    pub fn new() -> (reader: Reader)
        ensures
            reader.valid(),
            reader@ == Progress::start(),
    {
        let reader = Reader {
            expect: Expect::Header,
            footer: Vec::new(),
            verifier: Verifier::new(),
        };
        assert(reader@ =~= Progress::start());
        reader
    }

    /// How many bytes to read next; nothing once the footer has been read.
    pub fn need(&self) -> (bytes: usize)
        requires
            self.valid(),
        ensures
            bytes == self@.need(),
            bytes == 0 <==> self@.expect == Expect::End,
    {
        match self.expect {
            Expect::Header => 8,
            Expect::KeyLength => 4,
            Expect::ValueLength(_) => 4,
            Expect::Body(k, v) => (k + v) as usize,
            Expect::Footer => 40,
            Expect::End => 0,
        }
    }

    /// Takes the bytes that were needed. Returns a record where they hold one.
    pub fn feed(&mut self, bytes: &[u8]) -> (result: Result<Option<Record>>)
        requires
            old(self).valid(),
            old(self)@.accepted.len() < u64::MAX,
            bytes@.len() == old(self)@.need(),
        ensures
            final(self).valid(),
            match result {
                Ok(record) => {
                    &&& old(self)@.fed(bytes@) == Ok::<Progress, ErrorView>(final(self)@)
                    &&& match record {
                        Some(r) => final(self)@.accepted == old(self)@.accepted.push(r@)
                            && lengths_valid(r@.key.len(), r@.value.len()),
                        None => final(self)@.accepted == old(self)@.accepted,
                    }
                    &&& record is Some == (old(self)@.expect is Body)
                },
                Err(e) => old(self)@.fed(bytes@) == Err::<Progress, ErrorView>(e@),
            },
    {
        match self.expect {
            Expect::Header => match check_header(bytes) {
                Ok(_) => {
                    self.expect = Expect::KeyLength;
                    Ok(None)
                },
                Err(e) => Err(e),
            },
            Expect::KeyLength => {
                proof {
                    crate::binary::lemma_fits_32(4294967295);
                    lemma_le_from(4294967295, 4);
                }
                match key_length(bytes) {
                    Some(k) => {
                        proof {
                            crate::binary::lemma_fits_32(k as nat);
                            lemma_le_from(k as nat, 4);
                        }
                        self.expect = Expect::ValueLength(k);
                    },
                    None => {
                        self.expect = Expect::Footer;
                    },
                }
                Ok(None)
            },
            Expect::ValueLength(k) => match value_length(k, bytes) {
                Ok(v) => {
                    proof {
                        crate::binary::lemma_fits_32(v as nat);
                        lemma_le_from(v as nat, 4);
                    }
                    self.expect = Expect::Body(k, v as u32);
                    Ok(None)
                },
                Err(e) => Err(e),
            },
            Expect::Body(k, v) => {
                let key = copy_range(bytes, 0, k as usize);
                let value = copy_range(bytes, k as usize, bytes.len());
                proof {
                    assert(key@ =~= bytes@.take(k as int));
                    assert(value@ =~= bytes@.skip(k as int));
                }
                match self.verifier.record(key.as_slice(), value.as_slice()) {
                    Ok(_) => {
                        self.expect = Expect::KeyLength;
                        Ok(Some(Record { key, value }))
                    },
                    Err(e) => Err(e),
                }
            },
            Expect::Footer => {
                self.footer = copy_range(bytes, 0, bytes.len());
                assert(self.footer@ =~= bytes@);
                self.expect = Expect::End;
                Ok(None)
            },
            Expect::End => Ok(None),
        }
    }

    /// Decides the file once its footer has been read. `trailing` says whether
    /// anything follows it.
    pub fn finish(self, trailing: bool) -> (result: Result<()>)
        requires
            self.valid(),
            self@.expect == Expect::End,
        ensures
            verdict(result) == footer_verdict(self@.accepted, self@.footer, trailing),
    {
        self.verifier.finish(self.footer.as_slice(), trailing)
    }
}

impl Progress {
    /// Reading the rest of a file to its end, and nothing but the file, ends in
    /// acceptance.
    pub open spec fn accepts(self, rest: Seq<u8>) -> bool
        decreases rest.len(), if self.expect == Expect::End { 0int } else { 1int },
    {
        if self.expect == Expect::End {
            footer_verdict(self.accepted, self.footer, rest.len() > 0) is Ok
        } else if rest.len() < self.need() || self.need() == 0 {
            false
        } else {
            match self.fed(rest.take(self.need() as int)) {
                Err(_) => false,
                Ok(next) => next.accepts(rest.skip(self.need() as int)),
            }
        }
    }
}

/// A database that an export holds completely: current, in order, and with no
/// record beyond the limits of the format.
pub open spec fn exportable(records: Seq<RecordView>) -> bool {
    records_valid(records) && has_format(records) && all_lengths_valid(records)
}

/// The footer of the export has its 40 bytes, as every footer that is written
/// has.
pub open spec fn footer_sized(records: Seq<RecordView>) -> bool {
    footer_bytes(records.len(), covered_bytes(records)).len() == 40
}

/// What has been read so far, for what has been accepted so far.
spec fn consumed(progress: Progress) -> Seq<u8> {
    let covered = covered_bytes(progress.accepted);
    match progress.expect {
        Expect::Header => Seq::empty(),
        Expect::KeyLength => covered,
        Expect::ValueLength(k) => covered + le(k as nat, 4),
        Expect::Body(k, v) => covered + le(k as nat, 4) + le(v as nat, 4),
        Expect::Footer => covered + le(4294967295, 4),
        Expect::End => covered + le(4294967295, 4) + progress.footer,
    }
}

proof fn lemma_fed_consumes(progress: Progress, bytes: Seq<u8>)
    requires
        progress.sound(),
        progress.expect != Expect::End,
        progress.expect == Expect::Header ==> progress.accepted.len() == 0,
        records_valid(progress.accepted),
        all_lengths_valid(progress.accepted),
        bytes.len() == progress.need(),
        progress.fed(bytes) is Ok,
    ensures
        ({
            let next = progress.fed(bytes)->Ok_0;
            &&& next.sound()
            &&& next.expect != Expect::Header
            &&& next.expect == Expect::End ==> next.footer.len() == 40
            &&& records_valid(next.accepted)
            &&& all_lengths_valid(next.accepted)
            &&& consumed(next) == consumed(progress) + bytes
        }),
{
    let next = progress.fed(bytes)->Ok_0;
    match progress.expect {
        Expect::Header => {
            assert(progress.accepted =~= Seq::<RecordView>::empty());
            assert(consumed(next) =~= bytes);
        },
        Expect::KeyLength => {
            lemma_from_le(bytes);
            crate::binary::lemma_from_le_bound(bytes);
        },
        Expect::ValueLength(k) => {
            lemma_from_le(bytes);
            crate::binary::lemma_from_le_bound(bytes);
        },
        Expect::Body(k, v) => {
            let record = RecordView { key: bytes.take(k as int), value: bytes.skip(k as int) };
            assert(next.accepted.drop_last() =~= progress.accepted);
            assert(record.key.len() == k && record.value.len() == v);
            assert(record.key + record.value =~= bytes);
            assert(consumed(next) =~= consumed(progress) + bytes);
            assert forall|i: int| 0 <= i < next.accepted.len() implies lengths_valid(
                (#[trigger] next.accepted[i]).key.len(),
                next.accepted[i].value.len(),
            ) by {
                if i < progress.accepted.len() {
                    assert(next.accepted[i] == progress.accepted[i]);
                }
            }
        },
        Expect::Footer => {
            assert(consumed(next) =~= consumed(progress) + bytes);
        },
        Expect::End => {},
    }
}

proof fn lemma_accepted_is_export(progress: Progress, rest: Seq<u8>) -> (records: Seq<RecordView>)
    requires
        progress.sound(),
        progress.expect == Expect::Header ==> progress.accepted.len() == 0,
        progress.expect == Expect::End ==> progress.footer.len() == 40,
        records_valid(progress.accepted),
        all_lengths_valid(progress.accepted),
        progress.accepts(rest),
    ensures
        exportable(records),
        footer_sized(records),
        consumed(progress) + rest == backup_bytes(records),
    decreases rest.len(), if progress.expect == Expect::End { 0int } else { 1int },
{
    if progress.expect == Expect::End {
        assert(consumed(progress) + rest =~= backup_bytes(progress.accepted));
        progress.accepted
    } else {
        let n = progress.need() as int;
        let bytes = rest.take(n);
        let next = progress.fed(bytes)->Ok_0;
        lemma_fed_consumes(progress, bytes);
        let records = lemma_accepted_is_export(next, rest.skip(n));
        assert(bytes + rest.skip(n) =~= rest);
        assert(consumed(next) + rest.skip(n) =~= consumed(progress) + rest);
        records
    }
}

/// The bytes of the records from `i` on.
spec fn remaining(records: Seq<RecordView>, i: nat) -> Seq<u8>
    decreases records.len() - i,
{
    if i >= records.len() {
        Seq::empty()
    } else {
        record_bytes(records[i as int]) + remaining(records, i + 1)
    }
}

proof fn lemma_remaining(records: Seq<RecordView>, i: nat)
    requires
        i <= records.len(),
    ensures
        records_bytes(records.take(i as int)) + remaining(records, i) == records_bytes(records),
    decreases records.len() - i,
{
    if i == records.len() {
        assert(records.take(i as int) =~= records);
        assert(records_bytes(records) + remaining(records, i) =~= records_bytes(records));
    } else {
        lemma_remaining(records, i + 1);
        let next = records.take(i as int + 1);
        assert(next.drop_last() =~= records.take(i as int));
        assert(next.last() == records[i as int]);
        assert(records_bytes(records.take(i as int)) + remaining(records, i) =~= records_bytes(next)
            + remaining(records, i + 1));
    }
}

proof fn lemma_prefix_valid(records: Seq<RecordView>, i: nat)
    requires
        records_valid(records),
        i < records.len(),
    ensures
        record_verdict(last_key(records.take(i as int)), records[i as int]) is Ok,
    decreases records.len(),
{
    let front = records.drop_last();
    if i < front.len() {
        lemma_prefix_valid(front, i);
        assert(front.take(i as int) =~= records.take(i as int));
        assert(front[i as int] == records[i as int]);
    } else {
        assert(front =~= records.take(i as int));
    }
}

proof fn lemma_export_accepted(records: Seq<RecordView>, i: nat)
    requires
        footer_sized(records),
        exportable(records),
        i <= records.len(),
    ensures
        (Progress {
            expect: Expect::KeyLength,
            accepted: records.take(i as int),
            footer: Seq::empty(),
        }).accepts(
            remaining(records, i) + le(4294967295, 4) + footer_bytes(
                records.len(),
                covered_bytes(records),
            ),
        ),
    decreases records.len() - i,
{
    let tail = le(4294967295, 4) + footer_bytes(records.len(), covered_bytes(records));
    let at = Progress {
        expect: Expect::KeyLength,
        accepted: records.take(i as int),
        footer: Seq::empty(),
    };
    let rest = remaining(records, i) + le(4294967295, 4) + footer_bytes(
        records.len(),
        covered_bytes(records),
    );
    assert(rest =~= remaining(records, i) + tail);
    lemma_le_len(4294967295, 4);
    lemma_le_len(records.len(), 8);
    crate::binary::lemma_fits_32(4294967295);
    lemma_le_from(4294967295, 4);
    reveal_with_fuel(Progress::accepts, 4);
    if i == records.len() {
        assert(rest =~= tail);
        assert(rest.take(4) =~= le(4294967295, 4));
        let end = rest.skip(4);
        assert(end =~= footer_bytes(records.len(), covered_bytes(records)));
        assert(end.take(40) =~= end);
        assert(end.skip(40).len() == 0);
        assert(records.take(i as int) =~= records);
    } else {
        let record = records[i as int];
        let k = record.key.len() as int;
        let v = record.value.len() as int;
        law_record_frame_reads_back(record);
        let frame = record_bytes(record);
        let more = remaining(records, i + 1) + tail;
        assert(rest =~= frame + more);
        assert(lengths_valid(record.key.len(), record.value.len()));
        // The key length.
        assert(rest.take(4) =~= frame.subrange(0, 4));
        let one = Progress { expect: Expect::ValueLength(k as u32), ..at };
        assert(at.fed(rest.take(4)) == Ok::<Progress, ErrorView>(one));
        // The value length.
        let rest1 = rest.skip(4);
        assert(rest1.take(4) =~= frame.subrange(4, 8));
        let two = Progress { expect: Expect::Body(k as u32, v as u32), ..at };
        assert(one.fed(rest1.take(4)) == Ok::<Progress, ErrorView>(two));
        // The key and the value.
        let rest2 = rest1.skip(4);
        let body = rest2.take(k + v);
        assert(body.take(k) =~= frame.subrange(8, 8 + k));
        assert(body.skip(k) =~= frame.subrange(8 + k, 8 + k + v));
        lemma_prefix_valid(records, i);
        let three = Progress {
            expect: Expect::KeyLength,
            accepted: records.take(i as int + 1),
            footer: Seq::empty(),
        };
        assert(records.take(i as int).push(record) =~= records.take(i as int + 1));
        assert(two.fed(body) == Ok::<Progress, ErrorView>(three));
        assert(rest2.skip(k + v) =~= more);
        lemma_export_accepted(records, i + 1);
        assert(more =~= remaining(records, i + 1) + le(4294967295, 4) + footer_bytes(
            records.len(),
            covered_bytes(records),
        ));
        assert(two.accepts(rest2));
        assert(one.accepts(rest1));
        assert(at.accepts(rest));
    }
}

/// The export of a current database passes verification, unless one of its
/// records is beyond the limits of the format.
pub proof fn law_export_verifies(records: Seq<RecordView>)
    requires
        footer_sized(records),
        scan_order(records),
        has_format(records),
        all_lengths_valid(records),
        forall|i: int|
            0 <= i < records.len() && (#[trigger] records[i]).key == format_key_bytes()
                ==> records[i].value == format_current(),
    ensures
        Progress::start().accepts(backup_bytes(records)),
{
    lemma_scan_accepted(records);
    assert(exportable(records));
    law_accepted_files_are_exports(backup_bytes(records));
}

/// Verification accepts a file if and only if it is, byte for byte, the export
/// of a current database whose records are within the limits of the format. A
/// truncated or extended file, a changed byte, reordered keys or an incomplete
/// database is accepted only if what it spells is itself such an export.
pub proof fn law_accepted_files_are_exports(file: Seq<u8>)
    ensures
        Progress::start().accepts(file) <==> exists|records: Seq<RecordView>| #[trigger]
            exportable(records) && footer_sized(records) && file == backup_bytes(records),
{
    if Progress::start().accepts(file) {
        let records = lemma_accepted_is_export(Progress::start(), file);
        assert(consumed(Progress::start()) + file =~= file);
        assert(exportable(records) && footer_sized(records) && file == backup_bytes(records));
    }
    if exists|records: Seq<RecordView>| #[trigger]
        exportable(records) && footer_sized(records) && file == backup_bytes(records) {
        let records = choose|records: Seq<RecordView>| #[trigger]
            exportable(records) && footer_sized(records) && file == backup_bytes(records);
        lemma_remaining(records, 0);
        assert(records.take(0) =~= Seq::<RecordView>::empty());
        lemma_export_accepted(records, 0);
        let rest = remaining(records, 0) + le(4294967295, 4) + footer_bytes(
            records.len(),
            covered_bytes(records),
        );
        assert(file =~= backup_header() + rest);
        assert(file.take(8) =~= backup_header());
        assert(file.skip(8) =~= rest);
        let next = Progress {
            expect: Expect::KeyLength,
            accepted: records.take(0),
            footer: Seq::empty(),
        };
        assert(Progress::start().fed(file.take(8)) == Ok::<Progress, ErrorView>(next));
    }
}

// ---------------------------------------------------------------------------
// Restore
// ---------------------------------------------------------------------------
pub open spec fn restored(records: Seq<RecordView>) -> Seq<RecordView>
    decreases records.len(),
{
    if records.len() == 0 {
        Seq::empty()
    } else {
        let front = restored(records.drop_last());
        if records.last().key == format_key_bytes() {
            front
        } else {
            front.push(records.last())
        }
    }
}

/// Whether a database that holds this key can be restored into.
pub open spec fn restorable(key: Seq<u8>) -> Verdict {
    if key == format_key_bytes() {
        Ok(())
    } else {
        Err(ErrorView::Conflict("restore requires an empty database prefix"@))
    }
}

/// A restore needs a database that holds nothing but its format marker.
pub fn check_restorable(key: &[u8]) -> (result: Result<()>)
    ensures
        verdict(result) == restorable(key@),
{
    if bytes_eq(key, text_bytes("meta/format").as_slice()) {
        Ok(())
    } else {
        Err(Error::Conflict("restore requires an empty database prefix".to_string()))
    }
}

/// The batches that a restore has filled, the one that it is filling with its
/// size in bytes, and how many records it has taken.
pub struct RestoreRun {
    pub done: Seq<Seq<RecordView>>,
    pub pending: Seq<RecordView>,
    pub size: int,
    pub count: int,
}

impl RestoreRun {
    pub open spec fn start() -> RestoreRun {
        RestoreRun { done: Seq::empty(), pending: Seq::empty(), size: 0, count: 0 }
    }

    /// One more record. The format marker is left for the end, and a batch is
    /// full once it has reached the stage size.
    pub open spec fn with_record(self, record: RecordView) -> RestoreRun {
        let size = self.size + record.key.len() + record.value.len();
        let all = self.pending.push(record);
        if record.key == format_key_bytes() {
            self
        } else if size >= STAGE_BYTES {
            RestoreRun {
                done: self.done.push(all),
                pending: Seq::empty(),
                size: 0,
                count: self.count + 1,
            }
        } else {
            RestoreRun { pending: all, size, count: self.count + 1, ..self }
        }
    }
}

/// A restore in progress: the records of the batch that is being filled.
pub struct Restorer {
    pub pending: Vec<Record>,
    pub size: u64,
    pub count: u64,
}

impl Restorer {
    pub fn new() -> (restorer: Restorer)
        ensures
            record_views(restorer.pending@) == Seq::<RecordView>::empty(),
            restorer.size == 0,
            restorer.count == 0,
    {
        let restorer = Restorer { pending: Vec::new(), size: 0, count: 0 };
        assert(record_views(restorer.pending@) =~= Seq::<RecordView>::empty());
        restorer
    }

    /// Adds a record, except for the format marker, which comes last. Returns a
    /// batch to commit once it has reached the stage size.
    pub fn add(&mut self, record: Record) -> (full: Option<Vec<Record>>)
        requires
            lengths_valid(record.key@.len(), record.value@.len()),
            old(self).size < STAGE_BYTES,
            old(self).count < u64::MAX,
        ensures
            final(self).size < STAGE_BYTES,
            (RestoreRun {
                done: Seq::empty(),
                pending: record_views(old(self).pending@),
                size: old(self).size as int,
                count: old(self).count as int,
            }).with_record(record@) == (RestoreRun {
                done: match full {
                    Some(batch) => seq![record_views(batch@)],
                    None => Seq::empty(),
                },
                pending: record_views(final(self).pending@),
                size: final(self).size as int,
                count: final(self).count as int,
            }),
    {
        let ghost before = record_views(self.pending@);
        let ghost added = record@;
        if bytes_eq(record.key.as_slice(), text_bytes("meta/format").as_slice()) {
            return None;
        }
        self.size = self.size + record.key.len() as u64 + record.value.len() as u64;
        self.count = self.count + 1;
        self.pending.push(record);
        assert(record_views(self.pending@) =~= before.push(added));
        if self.size >= STAGE_BYTES as u64 {
            let mut full: Vec<Record> = Vec::new();
            std::mem::swap(&mut full, &mut self.pending);
            self.size = 0;
            proof {
                assert(record_views(self.pending@) =~= Seq::<RecordView>::empty());
                assert(Seq::<Seq<RecordView>>::empty().push(before.push(added)) =~= seq![
                    record_views(full@),
                ]);
            }
            return Some(full);
        }
        None
    }
}

pub open spec fn record_puts(records: Seq<RecordView>) -> BatchOps
    decreases records.len(),
{
    if records.len() == 0 {
        BatchOps::empty()
    } else {
        record_puts(records.drop_last()).insert(records.last().key, Some(records.last().value))
    }
}

pub open spec fn all_lengths_valid(records: Seq<RecordView>) -> bool {
    forall|i: int|
        0 <= i < records.len() ==> lengths_valid(
            (#[trigger] records[i]).key.len(),
            records[i].value.len(),
        )
}

/// Collects restored records in one SlateDB batch. The last batch also restores
/// the readable format marker.
pub fn restore_batch(records: &Vec<Record>, last: bool) -> (batch: slatedb::WriteBatch)
    requires
        all_lengths_valid(record_views(records@)),
    ensures
        batch_ops(batch) == if last {
            record_puts(record_views(records@)).insert(format_key_bytes(), Some(format_current()))
        } else {
            record_puts(record_views(records@))
        },
{
    let ghost view = record_views(records@);
    let mut batch = batch_new();
    let mut i: usize = 0;
    while i < records.len()
        invariant
            i <= records@.len(),
            view == record_views(records@),
            all_lengths_valid(view),
            batch_ops(batch) == record_puts(view.take(i as int)),
        decreases records@.len() - i,
    {
        proof {
            assert(view[i as int] == records@[i as int]@);
            assert(lengths_valid(view[i as int].key.len(), view[i as int].value.len()));
            assert(view.take(i + 1).drop_last() =~= view.take(i as int));
        }
        batch_put(&mut batch, records[i].key.as_slice(), records[i].value.as_slice());
        i += 1;
    }
    assert(view.take(i as int) =~= view);
    if last {
        let key = text_bytes("meta/format");
        let value = current_format();
        proof {
            lemma_format_sizes();
        }
        batch_put(&mut batch, key.as_slice(), value.as_slice());
    }
    batch
}

proof fn lemma_format_sizes()
    ensures
        format_key_bytes().len() == 11,
        format_current().len() == 13,
{
    reveal_strlit("meta/format");
    reveal_strlit("gengis-mimi:2");
    is_ascii_chars_encode_utf8("meta/format"@);
    is_ascii_chars_encode_utf8("gengis-mimi:2"@);
}

/// The database that a sequence of records describes.
pub open spec fn contents(records: Seq<RecordView>) -> Map<Seq<u8>, Seq<u8>>
    decreases records.len(),
{
    if records.len() == 0 {
        Map::empty()
    } else {
        contents(records.drop_last()).insert(records.last().key, records.last().value)
    }
}

proof fn lemma_contents(records: Seq<RecordView>, key: Seq<u8>)
    ensures
        contents(records).contains_key(key) <==> exists|i: int|
            0 <= i < records.len() && (#[trigger] records[i]).key == key,
    decreases records.len(),
{
    if records.len() > 0 {
        let front = records.drop_last();
        lemma_contents(front, key);
        if exists|i: int| 0 <= i < front.len() && (#[trigger] front[i]).key == key {
            let i = choose|i: int| 0 <= i < front.len() && (#[trigger] front[i]).key == key;
            assert(records[i] == front[i]);
        }
        if exists|i: int| 0 <= i < records.len() && (#[trigger] records[i]).key == key {
            let i = choose|i: int| 0 <= i < records.len() && (#[trigger] records[i]).key == key;
            if i < front.len() {
                assert(front[i] == records[i]);
            }
        }
        assert(records[records.len() - 1] == records.last());
    }
}

/// Restoring a verified backup into an empty database, and the format marker
/// last, reproduces the exported database key for key.
pub proof fn law_restore_reproduces(records: Seq<RecordView>)
    requires
        records_valid(records),
        has_format(records),
    ensures
        contents(restored(records)).insert(format_key_bytes(), format_current()) == contents(
            records,
        ),
{
    lemma_restored(records);
    let i = choose|i: int|
        0 <= i < records.len() && (#[trigger] records[i]).key == format_key_bytes();
    lemma_contents(records, format_key_bytes());
    lemma_format_value(records);
    assert(contents(restored(records)).insert(format_key_bytes(), format_current()) =~= contents(
        records,
    ));
}

proof fn lemma_restored(records: Seq<RecordView>)
    ensures
        contents(restored(records)) == contents(records).remove(format_key_bytes()),
    decreases records.len(),
{
    if records.len() > 0 {
        lemma_restored(records.drop_last());
        let front = restored(records.drop_last());
        if records.last().key != format_key_bytes() {
            assert(front.push(records.last()).drop_last() =~= front);
        }
        assert(contents(restored(records)) =~= contents(records).remove(format_key_bytes()));
    } else {
        assert(contents(restored(records)) =~= contents(records).remove(format_key_bytes()));
    }
}

proof fn lemma_format_value(records: Seq<RecordView>)
    requires
        records_valid(records),
    ensures
        contents(records).contains_key(format_key_bytes()) ==> contents(records)[format_key_bytes()]
            == format_current(),
    decreases records.len(),
{
    if records.len() > 0 {
        lemma_format_value(records.drop_last());
    }
}

/// A restore of the first `n` records.
pub open spec fn restore_run(records: Seq<RecordView>, n: nat) -> RestoreRun
    decreases n,
{
    if n == 0 {
        RestoreRun::start()
    } else {
        restore_run(records, (n - 1) as nat).with_record(records[n - 1])
    }
}

pub open spec fn joined_batches(batches: Seq<Seq<RecordView>>) -> Seq<RecordView>
    decreases batches.len(),
{
    if batches.len() == 0 {
        Seq::empty()
    } else {
        joined_batches(batches.drop_last()) + batches.last()
    }
}

/// A database after the operations of a batch.
pub open spec fn committed(db: Map<Seq<u8>, Seq<u8>>, ops: BatchOps) -> Map<Seq<u8>, Seq<u8>> {
    Map::new(
        |k: Seq<u8>|
            if ops.contains_key(k) {
                ops[k] is Some
            } else {
                db.contains_key(k)
            },
        |k: Seq<u8>|
            if ops.contains_key(k) {
                ops[k]->0
            } else {
                db[k]
            },
    )
}

pub open spec fn all_committed(db: Map<Seq<u8>, Seq<u8>>, batches: Seq<Seq<RecordView>>) -> Map<
    Seq<u8>,
    Seq<u8>,
>
    decreases batches.len(),
{
    if batches.len() == 0 {
        db
    } else {
        committed(all_committed(db, batches.drop_last()), record_puts(batches.last()))
    }
}

/// The database after the batches of a restore: the full ones, and then the last
/// one together with the format marker.
pub open spec fn restored_database(db: Map<Seq<u8>, Seq<u8>>, run: RestoreRun) -> Map<
    Seq<u8>,
    Seq<u8>,
> {
    committed(
        all_committed(db, run.done),
        record_puts(run.pending).insert(format_key_bytes(), Some(format_current())),
    )
}

proof fn lemma_restore_run(records: Seq<RecordView>, n: nat)
    requires
        n <= records.len(),
    ensures
        ({
            let run = restore_run(records, n);
            &&& joined_batches(run.done) + run.pending == restored(records.take(n as int))
            &&& run.count == restored(records.take(n as int)).len()
        }),
    decreases n,
{
    if n > 0 {
        let m = (n - 1) as nat;
        lemma_restore_run(records, m);
        let before = restore_run(records, m);
        let run = restore_run(records, n);
        let record = records[n - 1];
        assert(records.take(n as int).drop_last() =~= records.take(m as int));
        if record.key != format_key_bytes() {
            let all = before.pending.push(record);
            assert(joined_batches(before.done) + all =~= (joined_batches(before.done)
                + before.pending).push(record));
            if run.done != before.done {
                assert(run.done.drop_last() =~= before.done);
                assert(joined_batches(run.done) + run.pending =~= joined_batches(before.done) + all);
            }
        }
    } else {
        assert(joined_batches(RestoreRun::start().done) + RestoreRun::start().pending =~= restored(
            records.take(0),
        ));
    }
}

/// A database with these records put on top.
spec fn overwritten(db: Map<Seq<u8>, Seq<u8>>, records: Seq<RecordView>) -> Map<Seq<u8>, Seq<u8>>
    decreases records.len(),
{
    if records.len() == 0 {
        db
    } else {
        overwritten(db, records.drop_last()).insert(records.last().key, records.last().value)
    }
}

proof fn lemma_overwritten_concat(
    db: Map<Seq<u8>, Seq<u8>>,
    a: Seq<RecordView>,
    b: Seq<RecordView>,
)
    ensures
        overwritten(db, a + b) == overwritten(overwritten(db, a), b),
    decreases b.len(),
{
    if b.len() == 0 {
        assert(a + b =~= a);
    } else {
        lemma_overwritten_concat(db, a, b.drop_last());
        assert((a + b).drop_last() =~= a + b.drop_last());
    }
}

proof fn lemma_puts_overwrite(db: Map<Seq<u8>, Seq<u8>>, records: Seq<RecordView>)
    ensures
        committed(db, record_puts(records)) == overwritten(db, records),
        forall|k: Seq<u8>| #[trigger]
            record_puts(records).contains_key(k) ==> record_puts(records)[k] is Some,
    decreases records.len(),
{
    if records.len() == 0 {
        assert(committed(db, record_puts(records)) =~= db);
    } else {
        lemma_puts_overwrite(db, records.drop_last());
        assert(committed(db, record_puts(records)) =~= overwritten(db, records));
    }
}

proof fn lemma_all_committed(db: Map<Seq<u8>, Seq<u8>>, batches: Seq<Seq<RecordView>>)
    ensures
        all_committed(db, batches) == overwritten(db, joined_batches(batches)),
    decreases batches.len(),
{
    if batches.len() > 0 {
        let front = batches.drop_last();
        lemma_all_committed(db, front);
        lemma_puts_overwrite(all_committed(db, front), batches.last());
        lemma_overwritten_concat(db, joined_batches(front), batches.last());
    }
}

proof fn lemma_overwritten_contents(db: Map<Seq<u8>, Seq<u8>>, records: Seq<RecordView>)
    requires
        forall|k: Seq<u8>| #[trigger] db.contains_key(k) ==> k == format_key_bytes(),
    ensures
        overwritten(db, records).insert(format_key_bytes(), format_current()) == contents(
            records,
        ).insert(format_key_bytes(), format_current()),
    decreases records.len(),
{
    if records.len() == 0 {
        assert(db.insert(format_key_bytes(), format_current()) =~= contents(records).insert(
            format_key_bytes(),
            format_current(),
        ));
    } else {
        let front = records.drop_last();
        lemma_overwritten_contents(db, front);
        let a = overwritten(db, front).insert(format_key_bytes(), format_current());
        let b = contents(front).insert(format_key_bytes(), format_current());
        let x = overwritten(db, records).insert(format_key_bytes(), format_current());
        let y = contents(records).insert(format_key_bytes(), format_current());
        let last = records.last();
        if last.key == format_key_bytes() {
            assert(x =~= a);
            assert(y =~= b);
        } else {
            assert(x =~= a.insert(last.key, last.value));
            assert(y =~= b.insert(last.key, last.value));
        }
    }
}

proof fn lemma_keys_ascend(records: Seq<RecordView>, i: int)
    requires
        records_valid(records),
        0 <= i < records.len() - 1,
    ensures
        lex_lt(records[i].key, records.last().key),
    decreases records.len(),
{
    let front = records.drop_last();
    assert(front.last() == records[records.len() - 2]);
    if i < front.len() - 1 {
        lemma_keys_ascend(front, i);
        assert(front[i] == records[i]);
        lemma_lex_transitive(records[i].key, front.last().key, records.last().key);
    }
}

proof fn lemma_restored_count(records: Seq<RecordView>)
    requires
        records_valid(records),
    ensures
        contents(records).remove(format_key_bytes()).dom().finite(),
        contents(records).remove(format_key_bytes()).dom().len() == restored(records).len(),
    decreases records.len(),
{
    if records.len() == 0 {
        assert(contents(records).remove(format_key_bytes()).dom() =~= Set::<Seq<u8>>::empty());
    } else {
        let front = records.drop_last();
        let key = records.last().key;
        lemma_restored_count(front);
        let before = contents(front).remove(format_key_bytes()).dom();
        let after = contents(records).remove(format_key_bytes()).dom();
        if key == format_key_bytes() {
            assert(after =~= before);
        } else {
            assert(after =~= before.insert(key));
            assert(!contents(front).contains_key(key)) by {
                lemma_contents(front, key);
                if contents(front).contains_key(key) {
                    let i = choose|i: int| 0 <= i < front.len() && (#[trigger] front[i]).key == key;
                    lemma_keys_ascend(records, i);
                    lemma_lex_irreflexive(key);
                }
            }
        }
    }
}

/// The batches of a restore together put exactly the records of the backup but
/// for the format marker, which the last one sets. Into a database that holds
/// nothing but a marker this brings the exported database, key for key; the
/// count is the number of its other keys; and once there is one, the database
/// is refused for another restore.
pub proof fn law_restore_is_whole(records: Seq<RecordView>, db: Map<Seq<u8>, Seq<u8>>)
    requires
        exportable(records),
        forall|k: Seq<u8>| #[trigger] db.contains_key(k) ==> restorable(k) is Ok,
    ensures
        ({
            let run = restore_run(records, records.len());
            &&& joined_batches(run.done) + run.pending == restored(records)
            &&& restored_database(db, run) == contents(records)
            &&& run.count == contents(records).remove(format_key_bytes()).dom().len()
            &&& run.count > 0 ==> exists|k: Seq<u8>| #[trigger]
                contents(records).contains_key(k) && restorable(k) is Err
        }),
{
    let run = restore_run(records, records.len());
    let all = restored(records);
    lemma_restore_run(records, records.len());
    assert(records.take(records.len() as int) =~= records);
    lemma_all_committed(db, run.done);
    lemma_puts_overwrite(all_committed(db, run.done), run.pending);
    lemma_overwritten_concat(db, joined_batches(run.done), run.pending);
    let last = record_puts(run.pending).insert(format_key_bytes(), Some(format_current()));
    assert(restored_database(db, run) =~= overwritten(db, all).insert(
        format_key_bytes(),
        format_current(),
    )) by {
        let before = all_committed(db, run.done);
        let plain = committed(before, record_puts(run.pending));
        assert(plain == overwritten(db, all));
        assert forall|k: Seq<u8>| k != format_key_bytes() implies last.contains_key(k)
            == #[trigger] record_puts(run.pending).contains_key(k) by {}
        assert(committed(before, last) =~= plain.insert(format_key_bytes(), format_current()));
    }
    lemma_overwritten_contents(db, all);
    law_restore_reproduces(records);
    lemma_restored_count(records);
    if run.count > 0 {
        let dom = contents(records).remove(format_key_bytes()).dom();
        let k = dom.choose();
        assert(dom.contains(k));
        assert(contents(records).contains_key(k) && restorable(k) is Err);
    }
}

// ---------------------------------------------------------------------------
// Migration
// ---------------------------------------------------------------------------
/// The counters of a namespace before any document is converted.
pub open spec fn fresh_stats() -> NamespaceStats {
    NamespaceStats { revision: 1, documents: 0, bytes: 0, pending_documents: 0 }
}

/// What a converted document keeps: the vector that it carried or, where an
/// earlier run has already moved it, the one that is stored.
pub open spec fn migrated_vector_size(document: Document, stored: Option<usize>) -> int {
    match document.vector {
        Some(v) => block(v@.len(), vector_rows(v@)).len() as int,
        None => match stored {
            Some(n) => n as int,
            None => 0,
        },
    }
}

pub open spec fn migration_ops(name: Seq<char>, document: Document, encoded: Seq<u8>) -> Seq<Op> {
    let id = document.id@;
    let head = match document.vector {
        Some(v) => seq![put_op(member('v', name, id), block(v@.len(), vector_rows(v@)))],
        None => Seq::empty(),
    };
    head + seq![
        put_op(member('d', name, id), encoded),
        put_op(member('c', name, id), revision_bytes(1)),
    ]
}

pub open spec fn migrated_stats(
    stats: NamespaceStats,
    document: Document,
    encoded: Seq<u8>,
    stored: Option<usize>,
) -> NamespaceStats {
    NamespaceStats {
        revision: stats.revision,
        documents: (stats.documents + 1) as u64,
        bytes: (stats.bytes + encoded.len() + migrated_vector_size(document, stored)) as u64,
        pending_documents: (stats.pending_documents + 1) as u64,
    }
}

/// Converts a first-format document: its vector moves to a key of its own, and
/// it is recorded as changed. `encoded` is the document without its vector,
/// `stored` the size of a vector that an earlier run has already moved.
pub fn migrate_document(
    name: &str,
    schema: &NamespaceConfig,
    document: &Document,
    encoded: Vec<u8>,
    stored: Option<usize>,
    stats: &NamespaceStats,
) -> (result: Result<(Vec<KeyOp>, NamespaceStats)>)
    requires
        stats.documents < u64::MAX,
        stats.pending_documents < u64::MAX,
        stats.bytes + encoded@.len() + migrated_vector_size(*document, stored) <= u64::MAX,
    ensures
        match result {
            Ok((ops, after)) => {
                &&& document.vector is Some ==> schema.accepts_vector(document.vector->0@)
                &&& ops_view(ops@) == migration_ops(name@, *document, encoded@)
                &&& after == migrated_stats(*stats, *document, encoded@, stored)
            },
            Err(e) => document.vector is Some && schema.vector_verdict(document.vector->0@) == Err::<
                (),
                ErrorView,
            >(e@),
        },
{
    let id = document.id.as_str();
    let mut ops: Vec<KeyOp> = Vec::new();
    assert(ops_view(ops@) =~= Seq::<Op>::empty());
    let mut bytes: u64 = stats.bytes;
    match &document.vector {
        Some(vector) => {
            match schema.validate_vector(vector.as_slice()) {
                Ok(_) => {},
                Err(e) => return Err(e),
            }
            let block_bytes = encode_vector(vector);
            bytes = bytes + block_bytes.len() as u64;
            put(&mut ops, vector_key(name, id), block_bytes);
        },
        None => {
            match stored {
                Some(n) => {
                    bytes = bytes + n as u64;
                },
                None => {},
            }
        },
    }
    bytes = bytes + encoded.len() as u64;
    put(&mut ops, document_key(name, id), encoded);
    put(&mut ops, change_key(name, id), stored_revision(1));
    assert(ops_view(ops@) =~= migration_ops(name@, *document, encoded@));
    Ok(
        (
            ops,
            NamespaceStats {
                revision: stats.revision,
                documents: stats.documents + 1,
                bytes,
                pending_documents: stats.pending_documents + 1,
            },
        ),
    )
}

/// How many documents one batch of a migration converts.
pub const MIGRATION_DOCUMENTS: usize = 128;

/// The batches that a migration has filled, the one that it is filling with the
/// number of its documents, and the counters so far.
pub struct MigrationRun {
    pub done: Seq<Seq<Op>>,
    pub pending: Seq<Op>,
    pub count: int,
    pub stats: NamespaceStats,
}

impl MigrationRun {
    pub open spec fn start() -> MigrationRun {
        MigrationRun { done: Seq::empty(), pending: Seq::empty(), count: 0, stats: fresh_stats() }
    }

    /// One more document, whole in one batch.
    pub open spec fn with_document(
        self,
        name: Seq<char>,
        document: Document,
        encoded: Seq<u8>,
        stored: Option<usize>,
    ) -> MigrationRun {
        let all = self.pending + migration_ops(name, document, encoded);
        let stats = migrated_stats(self.stats, document, encoded, stored);
        if self.count + 1 == MIGRATION_DOCUMENTS {
            MigrationRun { done: self.done.push(all), pending: Seq::empty(), count: 0, stats }
        } else {
            MigrationRun { pending: all, count: self.count + 1, stats, ..self }
        }
    }
}

/// The conversion of one namespace, gathered into batches of whole documents.
pub struct Migration {
    pub pending: Vec<KeyOp>,
    pub count: usize,
    pub stats: NamespaceStats,
}

impl Migration {
    pub fn new() -> (migration: Migration)
        ensures
            ops_view(migration.pending@) == Seq::<Op>::empty(),
            migration.count == 0,
            migration.stats == fresh_stats(),
    {
        let migration = Migration {
            pending: Vec::new(),
            count: 0,
            stats: NamespaceStats { revision: 1, documents: 0, bytes: 0, pending_documents: 0 },
        };
        assert(ops_view(migration.pending@) =~= Seq::<Op>::empty());
        migration
    }

    /// Converts one more document. Returns a batch when it is full.
    pub fn add(
        &mut self,
        name: &str,
        schema: &NamespaceConfig,
        document: &Document,
        encoded: Vec<u8>,
        stored: Option<usize>,
    ) -> (result: Result<Option<Vec<KeyOp>>>)
        requires
            old(self).count < MIGRATION_DOCUMENTS,
            old(self).stats.documents < u64::MAX,
            old(self).stats.pending_documents < u64::MAX,
            old(self).stats.bytes + encoded@.len() + migrated_vector_size(*document, stored)
                <= u64::MAX,
        ensures
            final(self).count < MIGRATION_DOCUMENTS,
            match result {
                Ok(full) => {
                    &&& document.vector is Some ==> schema.accepts_vector(document.vector->0@)
                    &&& (MigrationRun {
                        done: Seq::empty(),
                        pending: ops_view(old(self).pending@),
                        count: old(self).count as int,
                        stats: old(self).stats,
                    }).with_document(name@, *document, encoded@, stored) == (MigrationRun {
                        done: match full {
                            Some(batch) => seq![ops_view(batch@)],
                            None => Seq::empty(),
                        },
                        pending: ops_view(final(self).pending@),
                        count: final(self).count as int,
                        stats: final(self).stats,
                    })
                },
                Err(e) => {
                    &&& document.vector is Some
                    &&& schema.vector_verdict(document.vector->0@) == Err::<(), ErrorView>(e@)
                    &&& *final(self) == *old(self)
                },
            },
    {
        let ghost before = ops_view(self.pending@);
        let (mut ops, after) = match migrate_document(
            name,
            schema,
            document,
            encoded,
            stored,
            &self.stats,
        ) {
            Ok(done) => done,
            Err(e) => return Err(e),
        };
        let ghost added = ops_view(ops@);
        self.pending.append(&mut ops);
        assert(ops_view(self.pending@) =~= before + added);
        self.stats = after;
        self.count = self.count + 1;
        if self.count == MIGRATION_DOCUMENTS {
            let mut full: Vec<KeyOp> = Vec::new();
            std::mem::swap(&mut full, &mut self.pending);
            self.count = 0;
            proof {
                assert(ops_view(self.pending@) =~= Seq::<Op>::empty());
                assert(Seq::<Seq<Op>>::empty().push(before + added) =~= seq![ops_view(full@)]);
            }
            Ok(Some(full))
        } else {
            Ok(None)
        }
    }
}

/// The operations that convert the first `n` documents of a namespace.
pub open spec fn namespace_migration(
    name: Seq<char>,
    documents: Seq<Document>,
    encoded: Seq<Seq<u8>>,
    n: nat,
) -> Seq<Op>
    decreases n,
{
    if n == 0 {
        Seq::empty()
    } else {
        namespace_migration(name, documents, encoded, (n - 1) as nat) + migration_ops(
            name,
            documents[n - 1],
            encoded[n - 1],
        )
    }
}

/// The counters once the first `n` documents are converted.
pub open spec fn namespace_counters(
    documents: Seq<Document>,
    encoded: Seq<Seq<u8>>,
    stored: Seq<Option<usize>>,
    n: nat,
) -> NamespaceStats
    decreases n,
{
    if n == 0 {
        fresh_stats()
    } else {
        migrated_stats(
            namespace_counters(documents, encoded, stored, (n - 1) as nat),
            documents[n - 1],
            encoded[n - 1],
            stored[n - 1],
        )
    }
}

/// What a later run finds of a document that an earlier run has converted: no
/// vector, and the block that the vector moved to.
pub open spec fn found_converted(
    first: Document,
    again: Document,
    stored: Option<usize>,
    found: Option<usize>,
) -> bool {
    &&& again.id@ == first.id@
    &&& again.vector is None
    &&& match first.vector {
        Some(v) => found is Some && found->0 == block(v@.len(), vector_rows(v@)).len(),
        None => found == stored,
    }
}

/// What a later run finds of a document that no run has converted.
pub open spec fn found_unconverted(
    first: Document,
    again: Document,
    stored: Option<usize>,
    found: Option<usize>,
) -> bool {
    &&& again.id@ == first.id@
    &&& found == stored
    &&& match first.vector {
        Some(v) => again.vector is Some && again.vector->0@ == v@,
        None => again.vector is None,
    }
}

proof fn lemma_member_ids(k1: char, i1: Seq<char>, k2: char, i2: Seq<char>, name: Seq<char>)
    requires
        member(k1, name, i1) == member(k2, name, i2),
    ensures
        k1 == k2,
        i1 == i2,
{
    let a = member(k1, name, i1);
    let b = member(k2, name, i2);
    assert(a[0] == k1 && b[0] == k2);
    let size = a.len() - i1.len();
    assert(i1 =~= a.skip(size));
    assert(i2 =~= b.skip(size));
}

proof fn lemma_converted_kept(
    db: Kv,
    name: Seq<char>,
    documents: Seq<Document>,
    encoded: Seq<Seq<u8>>,
    i: int,
    n: nat,
)
    requires
        0 <= i < n <= documents.len(),
        encoded.len() == documents.len(),
        forall|a: int, b: int|
            #![trigger documents[a], documents[b]]
            0 <= a < b < documents.len() ==> documents[a].id@ != documents[b].id@,
    ensures
        ({
            let after = apply(db, namespace_migration(name, documents, encoded, n));
            let d = member('d', name, documents[i].id@);
            let c = member('c', name, documents[i].id@);
            &&& after.contains_key(d) && after[d] == encoded[i]
            &&& after.contains_key(c) && after[c] == revision_bytes(1)
        }),
    decreases n,
{
    let m = (n - 1) as nat;
    let front = namespace_migration(name, documents, encoded, m);
    let own = migration_ops(name, documents[m as int], encoded[m as int]);
    let d = member('d', name, documents[i].id@);
    let c = member('c', name, documents[i].id@);
    lemma_apply_concat(db, front, own);
    let before = apply(db, front);
    if i == m {
        assert(d[0] == 'd' && c[0] == 'c');
        reveal_with_fuel(apply, 4);
        assert(own.last() == put_op(c, revision_bytes(1)));
        assert(own.drop_last().last() == put_op(d, encoded[i]));
    } else {
        lemma_converted_kept(db, name, documents, encoded, i, m);
        assert(documents[i].id@ != documents[m as int].id@);
        assert forall|k: int| 0 <= k < own.len() implies (#[trigger] own[k]).key != d && own[k].key
            != c by {
            let id = documents[m as int].id@;
            let key = own[k].key;
            assert(key == member('v', name, id) || key == member('d', name, id) || key == member(
                'c',
                name,
                id,
            ));
            if key == d || key == c {
                let kind = key[0];
                assert(member('v', name, id)[0] == 'v' && member('d', name, id)[0] == 'd' && member(
                    'c',
                    name,
                    id,
                )[0] == 'c');
                lemma_member_ids(kind, id, kind, documents[i].id@, name);
            }
        }
        lemma_apply_untouched(before, own, d);
        lemma_apply_untouched(before, own, c);
    }
}

/// A migration of the first `n` documents of a namespace.
pub open spec fn migration_run(
    name: Seq<char>,
    documents: Seq<Document>,
    encoded: Seq<Seq<u8>>,
    stored: Seq<Option<usize>>,
    n: nat,
) -> MigrationRun
    decreases n,
{
    if n == 0 {
        MigrationRun::start()
    } else {
        migration_run(name, documents, encoded, stored, (n - 1) as nat).with_document(
            name,
            documents[n - 1],
            encoded[n - 1],
            stored[n - 1],
        )
    }
}

/// The bytes that the first `n` documents and their vectors take once they are
/// converted.
pub open spec fn migrated_bytes(
    documents: Seq<Document>,
    encoded: Seq<Seq<u8>>,
    stored: Seq<Option<usize>>,
    n: nat,
) -> int
    decreases n,
{
    if n == 0 {
        0
    } else {
        migrated_bytes(documents, encoded, stored, (n - 1) as nat) + encoded[n - 1].len()
            + migrated_vector_size(documents[n - 1], stored[n - 1])
    }
}

proof fn lemma_migration_run(
    name: Seq<char>,
    documents: Seq<Document>,
    encoded: Seq<Seq<u8>>,
    stored: Seq<Option<usize>>,
    n: nat,
)
    ensures
        ({
            let run = migration_run(name, documents, encoded, stored, n);
            &&& flattened(run.done) + run.pending == namespace_migration(
                name,
                documents,
                encoded,
                n,
            )
            &&& run.stats == namespace_counters(documents, encoded, stored, n)
        }),
    decreases n,
{
    if n > 0 {
        let m = (n - 1) as nat;
        lemma_migration_run(name, documents, encoded, stored, m);
        let before = migration_run(name, documents, encoded, stored, m);
        let run = migration_run(name, documents, encoded, stored, n);
        let own = migration_ops(name, documents[n - 1], encoded[n - 1]);
        assert(flattened(before.done) + (before.pending + own) =~= (flattened(before.done)
            + before.pending) + own);
        if before.count + 1 == MIGRATION_DOCUMENTS {
            assert(run.done.drop_last() =~= before.done);
            assert(flattened(run.done) + run.pending =~= flattened(run.done));
        }
    } else {
        assert(flattened(MigrationRun::start().done) + MigrationRun::start().pending =~= Seq::<
            Op,
        >::empty());
    }
}

proof fn lemma_migrated_counters(
    documents: Seq<Document>,
    encoded: Seq<Seq<u8>>,
    stored: Seq<Option<usize>>,
    n: nat,
)
    requires
        n <= u64::MAX,
        migrated_bytes(documents, encoded, stored, n) <= u64::MAX,
    ensures
        namespace_counters(documents, encoded, stored, n) == (NamespaceStats {
            revision: 1,
            documents: n as u64,
            bytes: migrated_bytes(documents, encoded, stored, n) as u64,
            pending_documents: n as u64,
        }),
        0 <= migrated_bytes(documents, encoded, stored, n),
    decreases n,
{
    if n > 0 {
        assert(migrated_vector_size(documents[n - 1], stored[n - 1]) >= 0);
        lemma_migrated_counters(documents, encoded, stored, (n - 1) as nat);
    }
}

proof fn lemma_vector_moved(
    db: Kv,
    name: Seq<char>,
    documents: Seq<Document>,
    encoded: Seq<Seq<u8>>,
    i: int,
    n: nat,
)
    requires
        0 <= i < n <= documents.len(),
        encoded.len() == documents.len(),
        forall|a: int, b: int|
            #![trigger documents[a], documents[b]]
            0 <= a < b < documents.len() ==> documents[a].id@ != documents[b].id@,
    ensures
        ({
            let after = apply(db, namespace_migration(name, documents, encoded, n));
            let v = member('v', name, documents[i].id@);
            match documents[i].vector {
                Some(w) => after.contains_key(v) && after[v] == block(w@.len(), vector_rows(w@)),
                None => after.contains_key(v) == db.contains_key(v) && (db.contains_key(v)
                    ==> after[v] == db[v]),
            }
        }),
    decreases n,
{
    let m = (n - 1) as nat;
    let front = namespace_migration(name, documents, encoded, m);
    let own = migration_ops(name, documents[m as int], encoded[m as int]);
    let v = member('v', name, documents[i].id@);
    lemma_apply_concat(db, front, own);
    let before = apply(db, front);
    if i == m {
        let d = member('d', name, documents[i].id@);
        let c = member('c', name, documents[i].id@);
        assert(v[0] == 'v' && d[0] == 'd' && c[0] == 'c');
        reveal_with_fuel(apply, 4);
        assert(own.last() == put_op(c, revision_bytes(1)));
        assert(own.drop_last().last() == put_op(d, encoded[i]));
        if documents[i].vector is Some {
            let w = documents[i].vector->0;
            assert(own.drop_last().drop_last().last() == put_op(
                v,
                block(w@.len(), vector_rows(w@)),
            ));
        } else {
            assert(own.drop_last().drop_last() =~= Seq::<Op>::empty());
            lemma_vectors_untouched(db, name, documents, encoded, i, m);
        }
    } else {
        lemma_vector_moved(db, name, documents, encoded, i, m);
        lemma_step_untouched(name, documents, encoded, m as int, 'v', documents[i].id@);
        lemma_apply_untouched(before, own, v);
    }
}

proof fn lemma_step_untouched(
    name: Seq<char>,
    documents: Seq<Document>,
    encoded: Seq<Seq<u8>>,
    m: int,
    kind: char,
    id: Seq<char>,
)
    requires
        documents[m].id@ != id,
    ensures
        forall|k: int|
            0 <= k < migration_ops(name, documents[m], encoded[m]).len()
                ==> (#[trigger] migration_ops(name, documents[m], encoded[m])[k]).key != member(
                kind,
                name,
                id,
            ),
{
    let own = migration_ops(name, documents[m], encoded[m]);
    let other = documents[m].id@;
    assert forall|k: int| 0 <= k < own.len() implies (#[trigger] own[k]).key != member(
        kind,
        name,
        id,
    ) by {
        let key = own[k].key;
        assert(key == member('v', name, other) || key == member('d', name, other) || key == member(
            'c',
            name,
            other,
        ));
        if key == member('v', name, other) && key == member(kind, name, id) {
            lemma_member_ids('v', other, kind, id, name);
        }
        if key == member('d', name, other) && key == member(kind, name, id) {
            lemma_member_ids('d', other, kind, id, name);
        }
        if key == member('c', name, other) && key == member(kind, name, id) {
            lemma_member_ids('c', other, kind, id, name);
        }
    }
}

proof fn lemma_vectors_untouched(
    db: Kv,
    name: Seq<char>,
    documents: Seq<Document>,
    encoded: Seq<Seq<u8>>,
    i: int,
    n: nat,
)
    requires
        n <= i < documents.len(),
        encoded.len() == documents.len(),
        forall|a: int, b: int|
            #![trigger documents[a], documents[b]]
            0 <= a < b < documents.len() ==> documents[a].id@ != documents[b].id@,
    ensures
        ({
            let after = apply(db, namespace_migration(name, documents, encoded, n));
            let v = member('v', name, documents[i].id@);
            after.contains_key(v) == db.contains_key(v) && (db.contains_key(v) ==> after[v] == db[v])
        }),
    decreases n,
{
    if n > 0 {
        let m = (n - 1) as nat;
        lemma_vectors_untouched(db, name, documents, encoded, i, m);
        let front = namespace_migration(name, documents, encoded, m);
        let own = migration_ops(name, documents[m as int], encoded[m as int]);
        lemma_apply_concat(db, front, own);
        assert(documents[m as int].id@ != documents[i].id@);
        lemma_step_untouched(name, documents, encoded, m as int, 'v', documents[i].id@);
        lemma_apply_untouched(apply(db, front), own, member('v', name, documents[i].id@));
    }
}

pub proof fn lemma_others_untouched(
    db: Kv,
    name: Seq<char>,
    documents: Seq<Document>,
    encoded: Seq<Seq<u8>>,
    key: Seq<char>,
    n: nat,
)
    requires
        n <= documents.len(),
        forall|i: int|
            0 <= i < documents.len() ==> key != member('d', name, (#[trigger] documents[i]).id@)
                && key != member('v', name, documents[i].id@) && key != member(
                'c',
                name,
                documents[i].id@,
            ),
    ensures
        ({
            let after = apply(db, namespace_migration(name, documents, encoded, n));
            after.contains_key(key) == db.contains_key(key) && (db.contains_key(key) ==> after[key]
                == db[key])
        }),
    decreases n,
{
    if n > 0 {
        let m = (n - 1) as nat;
        lemma_others_untouched(db, name, documents, encoded, key, m);
        let front = namespace_migration(name, documents, encoded, m);
        let document = documents[m as int];
        let own = migration_ops(name, document, encoded[m as int]);
        lemma_apply_concat(db, front, own);
        assert forall|k: int| 0 <= k < own.len() implies (#[trigger] own[k]).key != key by {
            let id = document.id@;
            assert(own[k].key == member('v', name, id) || own[k].key == member('d', name, id)
                || own[k].key == member('c', name, id));
        }
        lemma_apply_untouched(apply(db, front), own, key);
    }
}

/// What a migration leaves of one document: its JSON without the vector, the
/// vector in a block of its own (one that was moved before stays as it is), and
/// a change record.
pub open spec fn converted(
    before: Kv,
    after: Kv,
    name: Seq<char>,
    document: Document,
    encoded: Seq<u8>,
) -> bool {
    let d = member('d', name, document.id@);
    let v = member('v', name, document.id@);
    let c = member('c', name, document.id@);
    &&& after.contains_key(d) && after[d] == encoded
    &&& after.contains_key(c) && after[c] == revision_bytes(1)
    &&& match document.vector {
        Some(w) => after.contains_key(v) && after[v] == block(w@.len(), vector_rows(w@)),
        None => after.contains_key(v) == before.contains_key(v) && (before.contains_key(v)
            ==> after[v] == before[v]),
    }
}

/// The batches of a migration together convert every document of a namespace
/// and leave every other key as it was. The counters then say how many
/// documents there are, that all of them await indexing, and how many bytes
/// they and their vectors take.
pub proof fn law_migration_converts_all(
    db: Kv,
    name: Seq<char>,
    documents: Seq<Document>,
    encoded: Seq<Seq<u8>>,
    stored: Seq<Option<usize>>,
)
    requires
        encoded.len() == documents.len(),
        stored.len() == documents.len(),
        documents.len() <= u64::MAX,
        migrated_bytes(documents, encoded, stored, documents.len()) <= u64::MAX,
        forall|a: int, b: int|
            #![trigger documents[a], documents[b]]
            0 <= a < b < documents.len() ==> documents[a].id@ != documents[b].id@,
    ensures
        ({
            let n = documents.len();
            let run = migration_run(name, documents, encoded, stored, n);
            let after = apply(db, flattened(run.done) + run.pending);
            &&& flattened(run.done) + run.pending == namespace_migration(
                name,
                documents,
                encoded,
                n,
            )
            &&& run.stats == namespace_counters(documents, encoded, stored, n)
            &&& run.stats.revision == 1
            &&& run.stats.documents == n
            &&& run.stats.pending_documents == n
            &&& run.stats.bytes == migrated_bytes(documents, encoded, stored, n)
            &&& forall|i: int|
                0 <= i < n ==> converted(db, after, name, #[trigger] documents[i], encoded[i])
            &&& forall|key: Seq<char>|
                (forall|i: int|
                    0 <= i < n ==> key != member('d', name, (#[trigger] documents[i]).id@) && key
                        != member('v', name, documents[i].id@) && key != member(
                        'c',
                        name,
                        documents[i].id@,
                    )) ==> (#[trigger] after.contains_key(key)) == db.contains_key(key) && (
                db.contains_key(key) ==> after[key] == db[key])
        }),
{
    let n = documents.len();
    let run = migration_run(name, documents, encoded, stored, n);
    let after = apply(db, flattened(run.done) + run.pending);
    lemma_migration_run(name, documents, encoded, stored, n);
    lemma_migrated_counters(documents, encoded, stored, n);
    assert forall|i: int| 0 <= i < n implies converted(
        db,
        after,
        name,
        #[trigger] documents[i],
        encoded[i],
    ) by {
        lemma_converted_kept(db, name, documents, encoded, i, n);
        lemma_vector_moved(db, name, documents, encoded, i, n);
    }
    assert forall|key: Seq<char>|
        (forall|i: int|
            0 <= i < n ==> key != member('d', name, (#[trigger] documents[i]).id@) && key != member(
                'v',
                name,
                documents[i].id@,
            ) && key != member('c', name, documents[i].id@)) implies (
    #[trigger] after.contains_key(key)) == db.contains_key(key) && (db.contains_key(key)
        ==> after[key] == db[key]) by {
        lemma_others_untouched(db, name, documents, encoded, key, n);
    }
}

/// An interrupted migration can run again from the start. Whatever number of
/// documents the earlier run had converted, the later one leaves the keys and
/// the counters of a run that was never interrupted.
pub proof fn law_migration_resumes(
    db: Kv,
    name: Seq<char>,
    documents: Seq<Document>,
    again: Seq<Document>,
    encoded: Seq<Seq<u8>>,
    stored: Seq<Option<usize>>,
    found: Seq<Option<usize>>,
    done: nat,
)
    requires
        done <= documents.len(),
        again.len() == documents.len(),
        encoded.len() == documents.len(),
        stored.len() == documents.len(),
        found.len() == documents.len(),
        forall|a: int, b: int|
            #![trigger documents[a], documents[b]]
            0 <= a < b < documents.len() ==> documents[a].id@ != documents[b].id@,
        forall|i: int|
            0 <= i < done ==> found_converted(
                #[trigger] documents[i],
                again[i],
                stored[i],
                found[i],
            ),
        forall|i: int|
            done <= i < documents.len() ==> found_unconverted(
                #[trigger] documents[i],
                again[i],
                stored[i],
                found[i],
            ),
    ensures
        ({
            let n = documents.len();
            let interrupted = apply(
                db,
                namespace_migration(name, documents, encoded, done),
            );
            &&& apply(interrupted, namespace_migration(name, again, encoded, n))
                == apply(db, namespace_migration(name, documents, encoded, n))
            &&& namespace_counters(again, encoded, found, n) == namespace_counters(
                documents,
                encoded,
                stored,
                n,
            )
        }),
{
    lemma_resumed(db, name, documents, again, encoded, stored, found, done, documents.len());
}

proof fn lemma_resumed(
    db: Kv,
    name: Seq<char>,
    documents: Seq<Document>,
    again: Seq<Document>,
    encoded: Seq<Seq<u8>>,
    stored: Seq<Option<usize>>,
    found: Seq<Option<usize>>,
    done: nat,
    n: nat,
)
    requires
        done <= documents.len(),
        n <= documents.len(),
        again.len() == documents.len(),
        encoded.len() == documents.len(),
        stored.len() == documents.len(),
        found.len() == documents.len(),
        forall|a: int, b: int|
            #![trigger documents[a], documents[b]]
            0 <= a < b < documents.len() ==> documents[a].id@ != documents[b].id@,
        forall|i: int|
            0 <= i < done ==> found_converted(
                #[trigger] documents[i],
                again[i],
                stored[i],
                found[i],
            ),
        forall|i: int|
            done <= i < documents.len() ==> found_unconverted(
                #[trigger] documents[i],
                again[i],
                stored[i],
                found[i],
            ),
    ensures
        apply(
            apply(db, namespace_migration(name, documents, encoded, done)),
            namespace_migration(name, again, encoded, n),
        ) == apply(
            db,
            namespace_migration(
                name,
                documents,
                encoded,
                if n < done {
                    done
                } else {
                    n
                },
            ),
        ),
        namespace_counters(again, encoded, found, n) == namespace_counters(
            documents,
            encoded,
            stored,
            n,
        ),
    decreases n,
{
    let interrupted = apply(
        db,
        namespace_migration(name, documents, encoded, done),
    );
    if n > 0 {
        let m = (n - 1) as nat;
        lemma_resumed(db, name, documents, again, encoded, stored, found, done, m);
        let front = namespace_migration(name, again, encoded, m);
        let own = migration_ops(name, again[m as int], encoded[m as int]);
        lemma_apply_concat(interrupted, front, own);
        let first = documents[m as int];
        if m < done {
            assert(found_converted(first, again[m as int], stored[m as int], found[m as int]));
            lemma_converted_kept(db, name, documents, encoded, m as int, done);
            let d = member('d', name, first.id@);
            let c = member('c', name, first.id@);
            assert(own =~= seq![put_op(d, encoded[m as int]), put_op(c, revision_bytes(1))]);
            reveal_with_fuel(apply, 4);
            assert(own.drop_last().drop_last() =~= Seq::<Op>::empty());
            assert(own.drop_last().last() == put_op(d, encoded[m as int]));
            assert(own.last() == put_op(c, revision_bytes(1)));
            assert(apply(interrupted, own) =~= interrupted);
        } else {
            assert(found_unconverted(first, again[m as int], stored[m as int], found[m as int]));
            assert(own =~= migration_ops(name, first, encoded[m as int]));
            lemma_apply_concat(
                db,
                namespace_migration(name, documents, encoded, m),
                own,
            );
        }
    }
}

// ---------------------------------------------------------------------------
// What a backup is
// ---------------------------------------------------------------------------
/// A backup can hold records with keys of 1 to 2048 bytes, each greater than the
/// one before in byte order, and values of at most 16 MiB, and among them the
/// marker of the current format.
pub proof fn law_exportable(records: Seq<RecordView>)
    ensures
        exportable(records) <==> {
            &&& forall|i: int|
                0 <= i < records.len() ==> {
                    let record = #[trigger] records[i];
                    &&& 1 <= record.key.len() && record.key.len() <= 2048
                    &&& record.value.len() <= 16777216
                    &&& record.key == encode_utf8("meta/format"@) ==> record.value == encode_utf8(
                        "gengis-mimi:2"@,
                    )
                }
            &&& forall|i: int, j: int|
                #![trigger records[i], records[j]]
                0 <= i < j < records.len() ==> lex_lt(records[i].key, records[j].key)
            &&& exists|i: int|
                0 <= i < records.len() && (#[trigger] records[i]).key == encode_utf8(
                    "meta/format"@,
                )
        },
{
    if exportable(records) {
        assert forall|i: int| 0 <= i < records.len() implies {
            let record = #[trigger] records[i];
            &&& 1 <= record.key.len() && record.key.len() <= 2048
            &&& record.value.len() <= 16777216
            &&& record.key == encode_utf8("meta/format"@) ==> record.value == encode_utf8(
                "gengis-mimi:2"@,
            )
        } by {
            assert(lengths_valid(records[i].key.len(), records[i].value.len()));
            lemma_record_accepted(records, i);
        }
        assert forall|i: int, j: int|
            #![trigger records[i], records[j]]
            0 <= i < j < records.len() implies lex_lt(records[i].key, records[j].key) by {
            law_records_ascend(records, i, j);
        }
    }
    if (forall|i: int|
        0 <= i < records.len() ==> {
            let record = #[trigger] records[i];
            &&& 1 <= record.key.len() && record.key.len() <= 2048
            &&& record.value.len() <= 16777216
            &&& record.key == encode_utf8("meta/format"@) ==> record.value == encode_utf8(
                "gengis-mimi:2"@,
            )
        }) && (forall|i: int, j: int|
        #![trigger records[i], records[j]]
        0 <= i < j < records.len() ==> lex_lt(records[i].key, records[j].key)) {
        lemma_scan_accepted(records);
    }
}

proof fn lemma_record_accepted(records: Seq<RecordView>, i: int)
    requires
        records_valid(records),
        0 <= i < records.len(),
    ensures
        records[i].key == encode_utf8("meta/format"@) ==> records[i].value == encode_utf8(
            "gengis-mimi:2"@,
        ),
    decreases records.len(),
{
    if i < records.len() - 1 {
        lemma_record_accepted(records.drop_last(), i);
        assert(records.drop_last()[i] == records[i]);
    }
}

/// A backup file is a header, the records, a mark that no record begins with, the
/// number of records, and the digest of header and records.
pub proof fn law_backup_layout(records: Seq<RecordView>)
    ensures
        ({
            let covered = seq![0x47u8, 0x4du8, 0x42u8, 0x41u8, 0x4bu8, 2u8, 0x0du8, 0x0au8]
                + records_bytes(records);
            backup_bytes(records) == covered + seq![0xffu8, 0xffu8, 0xffu8, 0xffu8] + le(
                records.len(),
                8,
            ) + sha256(covered)
        }),
        records_bytes(Seq::empty()) == Seq::<u8>::empty(),
        forall|record: RecordView| #[trigger]
            records_bytes(records.push(record)) == records_bytes(records) + le(
                record.key.len(),
                4,
            ) + le(record.value.len(), 4) + record.key + record.value,
{
    reveal_with_fuel(le, 5);
    assert(le(4294967295, 4) =~= seq![0xffu8, 0xffu8, 0xffu8, 0xffu8]);
    let covered = covered_bytes(records);
    assert(backup_bytes(records) =~= covered + seq![0xffu8, 0xffu8, 0xffu8, 0xffu8] + le(
        records.len(),
        8,
    ) + sha256(covered));
    assert forall|record: RecordView| #[trigger] records_bytes(records.push(record))
        == records_bytes(records) + le(record.key.len(), 4) + le(record.value.len(), 4) + record.key
        + record.value by {
        assert(records.push(record).drop_last() =~= records);
        assert(records_bytes(records.push(record)) =~= records_bytes(records) + le(
            record.key.len(),
            4,
        ) + le(record.value.len(), 4) + record.key + record.value);
    }
}

/// The contents of a backup are its records by key.
pub proof fn law_contents_by_key(records: Seq<RecordView>, i: int, key: Seq<u8>)
    requires
        records_valid(records),
    ensures
        0 <= i < records.len() ==> contents(records).contains_key(records[i].key) && contents(
            records,
        )[records[i].key] == records[i].value,
        contents(records).contains_key(key) <==> exists|j: int|
            0 <= j < records.len() && (#[trigger] records[j]).key == key,
    decreases records.len(),
{
    lemma_contents(records, key);
    if records.len() > 0 {
        let front = records.drop_last();
        let n = records.len() - 1;
        law_contents_by_key(front, i, key);
        if 0 <= i < n {
            assert(front[i] == records[i]);
            law_records_ascend(records, i, n);
            lemma_lex_irreflexive(records[n].key);
        }
    }
}

/// Of the records of a backup, a restore puts all but the marker, in their order,
/// and it refuses a database that holds anything but a marker.
pub proof fn law_restored_records(records: Seq<RecordView>, key: Seq<u8>)
    ensures
        restored(records) == records.filter(
            |record: RecordView| record.key != encode_utf8("meta/format"@),
        ),
        restorable(key) is Ok <==> key == encode_utf8("meta/format"@),
        restorable(key) is Err ==> restorable(key) == Err::<(), ErrorView>(
            ErrorView::Conflict("restore requires an empty database prefix"@),
        ),
    decreases records.len(),
{
    reveal(Seq::filter);
    if records.len() > 0 {
        law_restored_records(records.drop_last(), key);
    } else {
        assert(restored(records) =~= records);
    }
}

/// A document that is converted counts with what it then takes in the store: its
/// JSON and its vector, moved now or before.
pub proof fn law_migration_counts_bytes(
    before: Kv,
    after: Kv,
    name: Seq<char>,
    documents: Seq<Document>,
    encoded: Seq<Seq<u8>>,
    stored: Seq<Option<usize>>,
    n: nat,
)
    requires
        n < documents.len(),
        converted(before, after, name, documents[n as int], encoded[n as int]),
        ({
            let v = member('v', name, documents[n as int].id@);
            stored[n as int] == if before.contains_key(v) {
                Some(before[v].len() as usize)
            } else {
                None
            } && (before.contains_key(v) ==> before[v].len() <= usize::MAX)
        }),
    ensures
        ({
            let d = member('d', name, documents[n as int].id@);
            let v = member('v', name, documents[n as int].id@);
            migrated_bytes(documents, encoded, stored, n + 1) == migrated_bytes(
                documents,
                encoded,
                stored,
                n,
            ) + after[d].len() + if after.contains_key(v) {
                after[v].len() as int
            } else {
                0
            }
        }),
        migrated_bytes(documents, encoded, stored, 0) == 0,
{
}

/// Records are written as they are: their keys and values byte by byte.
pub proof fn law_records_show_their_bytes(records: Seq<Record>, i: int)
    requires
        0 <= i < records.len(),
    ensures
        record_views(records).len() == records.len(),
        record_views(records)[i].key == records[i].key@,
        record_views(records)[i].value == records[i].value@,
{
}

} // verus!
