//! Byte-level model of the pak container.
//!
//! A container starts with a little-endian `u32` entry count, followed by
//! that many fixed-size records. Each record is 156 bytes: `flags` (u32),
//! a 128-byte zero-terminated filename field, `uncompressed_size`,
//! `compressed_size`, `offset`, and three opaque u32 fields.

use vstd::prelude::*;
use vstd::utf8::{decode_utf8, valid_utf8};

verus! {

/// Size in bytes of one entry record in the table.
pub const RECORD_SIZE: usize = 156;

/// Size in bytes of the fixed filename field inside a record.
pub const FILENAME_FIELD_SIZE: usize = 128;

/// The ghost image of one decoded entry record.
pub ghost struct EntryModel {
    pub flags: u32,
    pub filename: Seq<char>,
    pub uncompressed_size: u32,
    pub compressed_size: u32,
    pub offset: u32,
    pub unk2: u32,
    pub unk3: u32,
    pub unk4: u32,
}

/// The `u32` encoded in little-endian order at position `i` of `d`.
pub open spec fn le32_at(d: Seq<u8>, i: int) -> u32
    recommends
        0 <= i,
        i + 4 <= d.len(),
{
    (d[i] as int + d[i + 1] as int * 0x100 + d[i + 2] as int * 0x10000 + d[i + 3] as int
        * 0x1000000) as u32
}

/// Number of records that the header claims.
pub open spec fn entry_count(d: Seq<u8>) -> u32
    recommends
        d.len() >= 4,
{
    le32_at(d, 0)
}

/// Byte position where record `k` starts.
pub open spec fn record_start(k: int) -> int {
    4 + RECORD_SIZE * k
}

/// True when the stream holds all of record `k`.
pub open spec fn record_complete(d: Seq<u8>, k: int) -> bool {
    record_start(k) + RECORD_SIZE <= d.len()
}

/// The 128-byte filename field of record `k`.
pub open spec fn filename_field(d: Seq<u8>, k: int) -> Seq<u8>
    recommends
        0 <= k,
        record_complete(d, k),
{
    d.subrange(record_start(k) + 4, record_start(k) + 4 + FILENAME_FIELD_SIZE)
}

/// True when `b` holds a zero byte.
pub open spec fn has_nul(b: Seq<u8>) -> bool {
    exists|i: int| 0 <= i < b.len() && b[i] == 0
}

/// Position of the first zero byte of `b`.
pub open spec fn nul_pos(b: Seq<u8>) -> int
    recommends
        has_nul(b),
    decreases b.len(),
{
    if b.len() == 0 {
        0
    } else if b[0] == 0 {
        0
    } else {
        1 + nul_pos(b.drop_first())
    }
}

/// The filename bytes of record `k`: the field up to its first zero byte.
pub open spec fn filename_bytes(d: Seq<u8>, k: int) -> Seq<u8>
    recommends
        0 <= k,
        record_complete(d, k),
        has_nul(filename_field(d, k)),
{
    filename_field(d, k).take(nul_pos(filename_field(d, k)))
}

/// True when record `k` is fully present and its filename field is
/// zero-terminated and valid UTF-8 before the terminator.
pub open spec fn record_wf(d: Seq<u8>, k: int) -> bool {
    &&& record_complete(d, k)
    &&& has_nul(filename_field(d, k))
    &&& valid_utf8(filename_bytes(d, k))
}

/// The decoded image of record `k`.
pub open spec fn record_model(d: Seq<u8>, k: int) -> EntryModel
    recommends
        0 <= k,
        record_wf(d, k),
{
    let rs = record_start(k);
    EntryModel {
        flags: le32_at(d, rs),
        filename: decode_utf8(filename_bytes(d, k)),
        uncompressed_size: le32_at(d, rs + 132),
        compressed_size: le32_at(d, rs + 136),
        offset: le32_at(d, rs + 140),
        unk2: le32_at(d, rs + 144),
        unk3: le32_at(d, rs + 148),
        unk4: le32_at(d, rs + 152),
    }
}

/// The index of the first record at or after `k` that is not well-formed,
/// or `n` when records `k..n` are all well-formed.
pub open spec fn first_bad_from(d: Seq<u8>, n: int, k: int) -> int
    recommends
        0 <= k <= n,
    decreases n - k,
{
    if k >= n {
        n
    } else if !record_wf(d, k) {
        k
    } else {
        first_bad_from(d, n, k + 1)
    }
}

/// True when the whole table decodes: the header is present and every
/// claimed record is well-formed.
pub open spec fn decode_ok(d: Seq<u8>) -> bool {
    d.len() >= 4 && forall|k: int| 0 <= k < entry_count(d) ==> record_wf(d, k)
}

/// The error that decoding `d` reports when it fails: the first record that
/// is not fully present gives `Truncated`; one that is present but whose
/// filename field lacks a terminator or valid UTF-8 gives `MalformedEntry`.
pub open spec fn decode_error(d: Seq<u8>) -> crate::archive::DecodeError {
    if d.len() < 4 {
        crate::archive::DecodeError::Truncated
    } else {
        let k = first_bad_from(d, entry_count(d) as int, 0);
        if record_complete(d, k) {
            crate::archive::DecodeError::MalformedEntry
        } else {
            crate::archive::DecodeError::Truncated
        }
    }
}

/// The filename-keyed index of records `0..upto`, later records
/// overwriting earlier ones of the same filename.
pub open spec fn table_map(d: Seq<u8>, upto: int) -> Map<Seq<char>, EntryModel>
    decreases upto,
{
    if upto <= 0 {
        Map::empty()
    } else {
        table_map(d, upto - 1).insert(
            record_model(d, upto - 1).filename,
            record_model(d, upto - 1),
        )
    }
}

/// The index that a full decode of `d` yields.
pub open spec fn archive_index(d: Seq<u8>) -> Map<Seq<char>, EntryModel>
    recommends
        decode_ok(d),
{
    table_map(d, entry_count(d) as int)
}

/// The first bad index is no smaller than `k`, every record before it from
/// `k` on is well-formed, and it is either `n` or a record that is not.
pub proof fn lemma_first_bad_from(d: Seq<u8>, n: int, k: int)
    requires
        0 <= k <= n,
    ensures
        k <= first_bad_from(d, n, k) <= n,
        forall|j: int| k <= j < first_bad_from(d, n, k) ==> record_wf(d, j),
        first_bad_from(d, n, k) < n ==> !record_wf(d, first_bad_from(d, n, k)),
    decreases n - k,
{
    if k < n && record_wf(d, k) {
        lemma_first_bad_from(d, n, k + 1);
    }
}

/// A single record that is not well-formed refutes the whole decode.
pub proof fn lemma_decode_bad(d: Seq<u8>, k: int)
    requires
        d.len() >= 4,
        0 <= k < entry_count(d),
        !record_wf(d, k),
    ensures
        !decode_ok(d),
{
    if decode_ok(d) {
        assert(record_wf(d, k));
        assert(false);
    }
}

/// When the records from `i` up to a bad one `k` are all well-formed, the
/// scan from `i` stops exactly at `k`.
pub proof fn lemma_first_bad_from_at(d: Seq<u8>, n: int, i: int, k: int)
    requires
        0 <= i <= k < n,
        forall|j: int| i <= j < k ==> record_wf(d, j),
        !record_wf(d, k),
    ensures
        first_bad_from(d, n, i) == k,
    decreases k - i,
{
    if i < k {
        lemma_first_bad_from_at(d, n, i + 1, k);
    }
}

/// Records at or past `upto1` do not decide what the table maps `f` to:
/// if none of the records in `upto1..upto2` carries filename `f`, the two
/// prefixes of the table agree on `f`.
pub proof fn lemma_table_map_untouched(d: Seq<u8>, upto1: int, upto2: int, f: Seq<char>)
    requires
        0 <= upto1 <= upto2,
        forall|k: int| upto1 <= k < upto2 ==> record_model(d, k).filename != f,
    ensures
        table_map(d, upto2).contains_key(f) == table_map(d, upto1).contains_key(f),
        table_map(d, upto1).contains_key(f) ==> table_map(d, upto2)[f] == table_map(d, upto1)[f],
    decreases upto2 - upto1,
{
    if upto1 < upto2 {
        lemma_table_map_untouched(d, upto1, upto2 - 1, f);
    }
}

/// The little-endian encoding of `x`.
pub open spec fn le32_bytes(x: u32) -> Seq<u8> {
    seq![
        (x as int % 0x100) as u8,
        (x as int / 0x100 % 0x100) as u8,
        (x as int / 0x10000 % 0x100) as u8,
        (x as int / 0x1000000 % 0x100) as u8,
    ]
}

/// Reading back the little-endian encoding of `x` yields `x`.
pub proof fn lemma_le32_round_trip(x: u32)
    ensures
        le32_bytes(x).len() == 4,
        le32_at(le32_bytes(x), 0) == x,
{
    assert(le32_at(le32_bytes(x), 0) == x) by {
        assert(x as int == x as int % 0x100 + (x as int / 0x100 % 0x100) * 0x100 + (x as int
            / 0x10000 % 0x100) * 0x10000 + (x as int / 0x1000000 % 0x100) * 0x1000000)
            by (nonlinear_arith);
    }
}

/// One record before encoding: its filename still as bytes.
pub ghost struct RawRecord {
    pub flags: u32,
    pub name: Seq<u8>,
    pub uncompressed_size: u32,
    pub compressed_size: u32,
    pub offset: u32,
    pub unk2: u32,
    pub unk3: u32,
    pub unk4: u32,
}

/// A raw record whose filename fits the fixed field: short enough, free of
/// zero bytes, and valid UTF-8.
pub open spec fn raw_record_wf(r: RawRecord) -> bool {
    &&& r.name.len() < FILENAME_FIELD_SIZE
    &&& forall|i: int| 0 <= i < r.name.len() ==> r.name[i] != 0
    &&& valid_utf8(r.name)
}

/// The entry that a raw record denotes once decoded.
pub open spec fn raw_model(r: RawRecord) -> EntryModel {
    EntryModel {
        flags: r.flags,
        filename: decode_utf8(r.name),
        uncompressed_size: r.uncompressed_size,
        compressed_size: r.compressed_size,
        offset: r.offset,
        unk2: r.unk2,
        unk3: r.unk3,
        unk4: r.unk4,
    }
}

/// Byte `i` of the encoding of `r`: the flags, the filename zero-padded to
/// its fixed width, then the six remaining numbers, every number
/// little-endian.
pub open spec fn record_byte(r: RawRecord, i: int) -> u8
    recommends
        raw_record_wf(r),
        0 <= i < RECORD_SIZE,
{
    if i < 4 {
        le32_bytes(r.flags)[i]
    } else if i < 132 {
        if i - 4 < r.name.len() {
            r.name[i - 4]
        } else {
            0u8
        }
    } else if i < 136 {
        le32_bytes(r.uncompressed_size)[i - 132]
    } else if i < 140 {
        le32_bytes(r.compressed_size)[i - 136]
    } else if i < 144 {
        le32_bytes(r.offset)[i - 140]
    } else if i < 148 {
        le32_bytes(r.unk2)[i - 144]
    } else if i < 152 {
        le32_bytes(r.unk3)[i - 148]
    } else {
        le32_bytes(r.unk4)[i - 152]
    }
}

/// The 156 record bytes that `r` denotes.
pub open spec fn encode_record(r: RawRecord) -> Seq<u8>
    recommends
        raw_record_wf(r),
{
    Seq::new(RECORD_SIZE as nat, |i: int| record_byte(r, i))
}

/// Four bytes of a stream that carry the encoding of `x` read back as `x`.
pub proof fn lemma_le32_at_of_bytes(d: Seq<u8>, i: int, x: u32)
    requires
        0 <= i,
        i + 4 <= d.len(),
        d[i] == le32_bytes(x)[0],
        d[i + 1] == le32_bytes(x)[1],
        d[i + 2] == le32_bytes(x)[2],
        d[i + 3] == le32_bytes(x)[3],
    ensures
        le32_at(d, i) == x,
{
    lemma_le32_round_trip(x);
}

/// The concatenation of the encoded records.
pub open spec fn encode_table(rs: Seq<RawRecord>) -> Seq<u8>
    decreases rs.len(),
{
    if rs.len() == 0 {
        Seq::empty()
    } else {
        encode_table(rs.drop_last()) + encode_record(rs.last())
    }
}

/// A whole synthesized container: the entry count, the table, the payload
/// region.
pub open spec fn encode_archive(rs: Seq<RawRecord>, payload: Seq<u8>) -> Seq<u8> {
    le32_bytes(rs.len() as u32) + encode_table(rs) + payload
}

/// An encoded record is one record long.
pub proof fn lemma_encode_record_len(r: RawRecord)
    requires
        raw_record_wf(r),
    ensures
        encode_record(r).len() == RECORD_SIZE,
{
}

/// An encoded table is as long as its records together.
pub proof fn lemma_encode_table_len(rs: Seq<RawRecord>)
    requires
        forall|k: int| 0 <= k < rs.len() ==> raw_record_wf(#[trigger] rs[k]),
    ensures
        encode_table(rs).len() == RECORD_SIZE * rs.len(),
    decreases rs.len(),
{
    if rs.len() > 0 {
        assert(forall|k: int| 0 <= k < rs.len() - 1 ==> rs.drop_last()[k] == rs[k]);
        lemma_encode_table_len(rs.drop_last());
        lemma_encode_record_len(rs.last());
    }
}

/// Record `k` of an encoded table sits at its fixed slot.
pub proof fn lemma_encode_table_slice(rs: Seq<RawRecord>, k: int)
    requires
        forall|j: int| 0 <= j < rs.len() ==> raw_record_wf(#[trigger] rs[j]),
        0 <= k < rs.len(),
    ensures
        encode_table(rs).subrange(RECORD_SIZE * k, RECORD_SIZE * k + RECORD_SIZE)
            == encode_record(rs[k]),
    decreases rs.len(),
{
    lemma_encode_table_len(rs);
    assert(forall|j: int| 0 <= j < rs.len() - 1 ==> rs.drop_last()[j] == rs[j]);
    lemma_encode_table_len(rs.drop_last());
    lemma_encode_record_len(rs.last());
    if k == rs.len() - 1 {
        assert(encode_table(rs).subrange(RECORD_SIZE * k, RECORD_SIZE * k + RECORD_SIZE)
            =~= encode_record(rs[k]));
    } else {
        lemma_encode_table_slice(rs.drop_last(), k);
        assert(encode_table(rs).subrange(RECORD_SIZE * k, RECORD_SIZE * k + RECORD_SIZE)
            =~= encode_table(rs.drop_last()).subrange(RECORD_SIZE * k, RECORD_SIZE * k
            + RECORD_SIZE));
    }
}

/// A record slot of a synthesized container that holds the encoding of a
/// well-formed raw record decodes to exactly the entry that record denotes.
pub proof fn lemma_record_decode(d: Seq<u8>, k: int, r: RawRecord)
    requires
        raw_record_wf(r),
        0 <= k,
        record_start(k) + RECORD_SIZE <= d.len(),
        d.subrange(record_start(k), record_start(k) + RECORD_SIZE) == encode_record(r),
    ensures
        record_wf(d, k),
        record_model(d, k) == raw_model(r),
{
    let rs_ = record_start(k);
    let enc = encode_record(r);
    assert forall|t: int| 0 <= t < RECORD_SIZE implies d[rs_ + t] == record_byte(r, t) by {
        assert(d.subrange(rs_, rs_ + RECORD_SIZE)[t] == enc[t]);
    }
    let nl = r.name.len() as int;
    // The filename field is the name followed by zero padding.
    let field = filename_field(d, k);
    assert forall|t: int| 0 <= t < FILENAME_FIELD_SIZE implies #[trigger] field[t] == record_byte(
        r,
        4 + t,
    ) by {
        assert(d[rs_ + (4 + t)] == record_byte(r, 4 + t));
    }
    assert(field[nl] == 0u8);
    lemma_nul_pos(field, nl);
    assert(filename_bytes(d, k) =~= r.name);
    // Each little-endian number sits at its fixed offset.
    assert(d[rs_ + 0] == record_byte(r, 0) && d[rs_ + 1] == record_byte(r, 1) && d[rs_ + 2]
        == record_byte(r, 2) && d[rs_ + 3] == record_byte(r, 3));
    lemma_le32_at_of_bytes(d, rs_, r.flags);
    assert(d[rs_ + 132] == record_byte(r, 132) && d[rs_ + 133] == record_byte(r, 133) && d[rs_
        + 134] == record_byte(r, 134) && d[rs_ + 135] == record_byte(r, 135));
    lemma_le32_at_of_bytes(d, rs_ + 132, r.uncompressed_size);
    assert(d[rs_ + 136] == record_byte(r, 136) && d[rs_ + 137] == record_byte(r, 137) && d[rs_
        + 138] == record_byte(r, 138) && d[rs_ + 139] == record_byte(r, 139));
    lemma_le32_at_of_bytes(d, rs_ + 136, r.compressed_size);
    assert(d[rs_ + 140] == record_byte(r, 140) && d[rs_ + 141] == record_byte(r, 141) && d[rs_
        + 142] == record_byte(r, 142) && d[rs_ + 143] == record_byte(r, 143));
    lemma_le32_at_of_bytes(d, rs_ + 140, r.offset);
    assert(d[rs_ + 144] == record_byte(r, 144) && d[rs_ + 145] == record_byte(r, 145) && d[rs_
        + 146] == record_byte(r, 146) && d[rs_ + 147] == record_byte(r, 147));
    lemma_le32_at_of_bytes(d, rs_ + 144, r.unk2);
    assert(d[rs_ + 148] == record_byte(r, 148) && d[rs_ + 149] == record_byte(r, 149) && d[rs_
        + 150] == record_byte(r, 150) && d[rs_ + 151] == record_byte(r, 151));
    lemma_le32_at_of_bytes(d, rs_ + 148, r.unk3);
    assert(d[rs_ + 152] == record_byte(r, 152) && d[rs_ + 153] == record_byte(r, 153) && d[rs_
        + 154] == record_byte(r, 154) && d[rs_ + 155] == record_byte(r, 155));
    lemma_le32_at_of_bytes(d, rs_ + 152, r.unk4);
}

/// The filename-keyed index that a list of raw records denotes, a later
/// record overwriting an earlier one of the same filename.
pub open spec fn raw_index(rs: Seq<RawRecord>, upto: int) -> Map<Seq<char>, EntryModel>
    decreases upto,
{
    if upto <= 0 {
        Map::empty()
    } else {
        raw_index(rs, upto - 1).insert(raw_model(rs[upto - 1]).filename, raw_model(rs[upto - 1]))
    }
}

/// When every record of a table decodes to the entry its raw record
/// denotes, the two indexes agree.
pub proof fn lemma_table_map_raw(d: Seq<u8>, rs: Seq<RawRecord>, upto: int)
    requires
        0 <= upto <= rs.len(),
        forall|k: int| 0 <= k < upto ==> record_model(d, k) == raw_model(#[trigger] rs[k]),
    ensures
        table_map(d, upto) == raw_index(rs, upto),
    decreases upto,
{
    if upto > 0 {
        lemma_table_map_raw(d, rs, upto - 1);
    }
}

/// Round trip of the table: a container synthesized from well-formed raw
/// records decodes — its claimed count is the number of records, every
/// record is well-formed and decodes to the entry its raw record denotes,
/// and the decoded index is the last-write-wins map of the raw records.
#[verifier::rlimit(50)]
pub proof fn lemma_encode_decode(rs: Seq<RawRecord>, payload: Seq<u8>)
    requires
        rs.len() <= u32::MAX,
        forall|k: int| 0 <= k < rs.len() ==> raw_record_wf(#[trigger] rs[k]),
    ensures
        ({
            let d = encode_archive(rs, payload);
            &&& d.len() == 4 + RECORD_SIZE * rs.len() + payload.len()
            &&& decode_ok(d)
            &&& entry_count(d) == rs.len()
            &&& forall|k: int| 0 <= k < rs.len() ==> record_wf(d, k) && record_model(d, k)
                == raw_model(#[trigger] rs[k])
            &&& archive_index(d) == raw_index(rs, rs.len() as int)
        }),
{
    let d = encode_archive(rs, payload);
    let n = rs.len() as int;
    let head = le32_bytes(rs.len() as u32);
    let table = encode_table(rs);
    lemma_encode_table_len(rs);
    assert(d.len() == 4 + RECORD_SIZE * n + payload.len());
    assert(d[0] == head[0] && d[1] == head[1] && d[2] == head[2] && d[3] == head[3]);
    lemma_le32_at_of_bytes(d, 0, rs.len() as u32);
    assert(entry_count(d) == rs.len());
    assert forall|k: int| 0 <= k < n implies record_wf(d, k) && record_model(d, k) == raw_model(
        #[trigger] rs[k],
    ) by {
        lemma_encode_table_slice(rs, k);
        lemma_encode_record_len(rs[k]);
        assert(RECORD_SIZE * k + RECORD_SIZE <= RECORD_SIZE * n) by (nonlinear_arith)
            requires
                k + 1 <= n,
        ;
        assert(d.subrange(record_start(k), record_start(k) + RECORD_SIZE) =~= table.subrange(
            RECORD_SIZE * k,
            RECORD_SIZE * k + RECORD_SIZE,
        ));
        lemma_record_decode(d, k, rs[k]);
    }
    assert(decode_ok(d)) by {
        assert forall|k: int| 0 <= k < entry_count(d) implies record_wf(d, k) by {
            assert(record_model(d, k) == raw_model(rs[k]));
        }
    }
    lemma_table_map_raw(d, rs, n);
}

/// An archive whose header claims more records than the stream holds fails
/// to decode, and the failure is `Truncated` — never a partial table —
/// provided every record that is fully present is well-formed.
pub proof fn lemma_overclaimed_count_truncated(d: Seq<u8>)
    requires
        d.len() >= 4,
        d.len() < record_start(entry_count(d) as int),
        forall|k: int| 0 <= k < entry_count(d) && record_complete(d, k) ==> record_wf(d, k),
    ensures
        !decode_ok(d),
        decode_error(d) == crate::archive::DecodeError::Truncated,
{
    let n = entry_count(d) as int;
    assert(n > 0);
    assert(!record_complete(d, n - 1));
    let kb = first_bad_from(d, n, 0);
    lemma_first_bad_from(d, n, 0);
    if kb == n {
        assert(record_wf(d, n - 1));
        assert(false);
    }
    if record_complete(d, kb) {
        assert(record_wf(d, kb));
        assert(false);
    }
    lemma_decode_bad(d, kb);
}

/// A record that is fully present but whose filename field holds no zero
/// byte makes the decode fail with `MalformedEntry`, provided every record
/// before it is well-formed.
pub proof fn lemma_unterminated_filename_malformed(d: Seq<u8>, k: int)
    requires
        d.len() >= 4,
        0 <= k < entry_count(d),
        record_complete(d, k),
        !has_nul(filename_field(d, k)),
        forall|j: int| 0 <= j < k ==> record_wf(d, j),
    ensures
        !decode_ok(d),
        decode_error(d) == crate::archive::DecodeError::MalformedEntry,
{
    lemma_first_bad_from_at(d, entry_count(d) as int, 0, k);
    lemma_decode_bad(d, k);
}

/// Of two records that carry the same filename the later one wins: when no
/// record after `j` carries that filename either, the decoded index maps it
/// to record `j`, and record `i` is unreachable.
pub proof fn lemma_duplicate_last_wins(d: Seq<u8>, i: int, j: int)
    requires
        decode_ok(d),
        0 <= i < j < entry_count(d),
        record_model(d, i).filename == record_model(d, j).filename,
        forall|k: int| j < k < entry_count(d) ==> record_model(d, k).filename != record_model(
            d,
            j,
        ).filename,
    ensures
        archive_index(d).contains_key(record_model(d, j).filename),
        archive_index(d)[record_model(d, j).filename] == record_model(d, j),
{
    let f = record_model(d, j).filename;
    let n = entry_count(d) as int;
    assert(table_map(d, j + 1).contains_key(f));
    assert(table_map(d, j + 1)[f] == record_model(d, j));
    lemma_table_map_untouched(d, j + 1, n, f);
}

/// Reads the little-endian `u32` at position `i`.
pub fn read_le32(d: &Vec<u8>, i: usize) -> (r: u32)
    requires
        i + 4 <= d@.len(),
    ensures
        r == le32_at(d@, i as int),
{
    let n = d.len();
    assert(i + 4 <= n);
    let b0 = d[i] as u32;
    let b1 = d[i + 1] as u32;
    let b2 = d[i + 2] as u32;
    let b3 = d[i + 3] as u32;
    b0 + b1 * 0x100 + b2 * 0x10000 + b3 * 0x1000000
}

/// A position whose prefix is free of zero bytes and that carries one is
/// the first: `nul_pos` returns exactly it.
pub proof fn lemma_nul_pos(b: Seq<u8>, p: int)
    requires
        0 <= p < b.len(),
        b[p] == 0,
        forall|j: int| 0 <= j < p ==> b[j] != 0,
    ensures
        has_nul(b),
        nul_pos(b) == p,
    decreases b.len(),
{
    if p > 0 {
        assert(forall|j: int| 0 <= j < p - 1 ==> b.drop_first()[j] == b[j + 1]);
        lemma_nul_pos(b.drop_first(), p - 1);
    }
}

/// Finds the first zero byte of the 128-byte window of `d` at `start`.
pub fn find_nul(d: &Vec<u8>, start: usize) -> (r: Option<usize>)
    requires
        start + FILENAME_FIELD_SIZE <= d@.len(),
    ensures
        ({
            let w = d@.subrange(start as int, start as int + FILENAME_FIELD_SIZE);
            match r {
                Some(p) => has_nul(w) && p == nul_pos(w) && p < FILENAME_FIELD_SIZE,
                None => !has_nul(w),
            }
        }),
{
    let ghost w = d@.subrange(start as int, start as int + FILENAME_FIELD_SIZE);
    let dn = d.len();
    assert(start + FILENAME_FIELD_SIZE <= dn);
    let mut j: usize = 0;
    while j < FILENAME_FIELD_SIZE
        invariant
            0 <= j <= FILENAME_FIELD_SIZE,
            dn == d@.len(),
            start + FILENAME_FIELD_SIZE <= dn,
            w == d@.subrange(start as int, start as int + FILENAME_FIELD_SIZE),
            forall|t: int| 0 <= t < j ==> w[t] != 0,
        decreases FILENAME_FIELD_SIZE - j,
    {
        if d[start + j] == 0 {
            proof {
                lemma_nul_pos(w, j as int);
            }
            return Some(j);
        }
        j = j + 1;
    }
    None
}

/// Copies `d[start..end]` into a fresh vector.
pub fn copy_range(d: &Vec<u8>, start: usize, end: usize) -> (r: Vec<u8>)
    requires
        start <= end <= d@.len(),
    ensures
        r@ == d@.subrange(start as int, end as int),
{
    let mut r: Vec<u8> = Vec::new();
    let mut j: usize = start;
    while j < end
        invariant
            start <= j <= end <= d@.len(),
            r@ == d@.subrange(start as int, j as int),
        decreases end - j,
    {
        r.push(d[j]);
        proof {
            assert(r@ =~= d@.subrange(start as int, j as int + 1));
        }
        j = j + 1;
    }
    r
}

/// Relies on `core::str::from_utf8`: it succeeds exactly on valid UTF-8 and
/// returns the string those bytes encode.
#[verifier::external_body]
pub(crate) fn utf8_to_string(bytes: &Vec<u8>) -> (r: Option<String>)
    ensures
        r is Some <==> valid_utf8(bytes@),
        r matches Some(s) ==> s@ == decode_utf8(bytes@),
{
    match core::str::from_utf8(bytes.as_slice()) {
        Ok(s) => Some(s.to_owned()),
        Err(_) => None,
    }
}

} // verus!
