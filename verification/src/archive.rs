//! The decoded archive index and the extraction engine.

use vstd::prelude::*;

use crate::format::{
    archive_index, copy_range, decode_error, decode_ok, encode_archive, filename_bytes,
    filename_field, find_nul, lemma_decode_bad, lemma_encode_decode, lemma_first_bad_from_at,
    lemma_table_map_untouched, raw_model, raw_record_wf, read_le32, record_complete, record_model,
    record_start, record_wf, table_map, utf8_to_string, EntryModel, RawRecord,
    FILENAME_FIELD_SIZE, RECORD_SIZE,
};
use vstd::utf8::decode_utf8;

verus! {

/// Why decoding an archive failed.
#[derive(Debug, Clone, Copy, PartialEq, Eq, Structural)]
pub enum DecodeError {
    /// The stream ended inside the header or inside a record.
    Truncated,
    /// A filename field lacks a zero terminator or is not valid UTF-8.
    MalformedEntry,
}

/// Why extracting one entry failed.
#[derive(Debug, Clone, Copy, PartialEq, Eq, Structural)]
pub enum ExtractError {
    /// The requested filename is absent from the index.
    NotFound,
    /// The declared size exceeds an addressable buffer length.
    SizeOverflow,
    /// The entry's offset lies past the end of the stream.
    SeekFailure,
    /// The stream holds fewer stored bytes than the entry declares.
    ReadFailure,
    /// The zlib stream is malformed or yields fewer bytes than declared.
    DecompressFailure,
}

/// Metadata record for one file stored inside the archive.
pub struct Entry {
    flags: u32,
    pub filename: String,
    pub uncompressed_size: u32,
    pub compressed_size: u32,
    pub offset: u32,
    unk2: u32,
    unk3: u32,
    unk4: u32,
}

impl View for Entry {
    type V = EntryModel;

    closed spec fn view(&self) -> EntryModel {
        EntryModel {
            flags: self.flags,
            filename: self.filename@,
            uncompressed_size: self.uncompressed_size,
            compressed_size: self.compressed_size,
            offset: self.offset,
            unk2: self.unk2,
            unk3: self.unk3,
            unk4: self.unk4,
        }
    }
}

/// The ghost images of a list of entries.
pub open spec fn seq_models(s: Seq<Entry>) -> Seq<EntryModel> {
    s.map_values(|x: Entry| x@)
}

/// True when no filename repeats in `s`.
pub open spec fn distinct_filenames(s: Seq<EntryModel>) -> bool {
    forall|i: int, j: int| 0 <= i < j < s.len() ==> s[i].filename != s[j].filename
}

/// The filename-keyed map that a list of entries denotes, later entries
/// overwriting earlier ones of the same filename.
pub open spec fn entries_map(s: Seq<EntryModel>) -> Map<Seq<char>, EntryModel>
    decreases s.len(),
{
    if s.len() == 0 {
        Map::empty()
    } else {
        entries_map(s.drop_last()).insert(s.last().filename, s.last())
    }
}

/// A filename is in the map exactly when some entry carries it.
pub proof fn lemma_entries_map_dom(s: Seq<EntryModel>, f: Seq<char>)
    ensures
        entries_map(s).contains_key(f) <==> exists|i: int| 0 <= i < s.len() && s[i].filename == f,
    decreases s.len(),
{
    if s.len() > 0 {
        lemma_entries_map_dom(s.drop_last(), f);
        if s.last().filename == f {
            assert(s[s.len() - 1].filename == f);
        } else {
            assert(forall|i: int|
                0 <= i < s.len() - 1 ==> s.drop_last()[i] == s[i]);
        }
    }
}

/// With distinct filenames, the map sends each entry's filename to it.
pub proof fn lemma_entries_map_get(s: Seq<EntryModel>, i: int)
    requires
        distinct_filenames(s),
        0 <= i < s.len(),
    ensures
        entries_map(s).contains_key(s[i].filename),
        entries_map(s)[s[i].filename] == s[i],
    decreases s.len(),
{
    if i < s.len() - 1 {
        assert(forall|a: int, b: int|
            0 <= a < b < s.len() - 1 ==> s.drop_last()[a] == s[a] && s.drop_last()[b] == s[b]);
        lemma_entries_map_get(s.drop_last(), i);
        assert(s.last().filename != s[i].filename);
    }
}

/// Replacing the entry that carries a filename with another of the same
/// filename acts on the map as an insert.
pub proof fn lemma_entries_map_update(s: Seq<EntryModel>, i: int, m: EntryModel)
    requires
        distinct_filenames(s),
        0 <= i < s.len(),
        s[i].filename == m.filename,
    ensures
        entries_map(s.update(i, m)) == entries_map(s).insert(m.filename, m),
    decreases s.len(),
{
    let t = s.update(i, m);
    if i == s.len() - 1 {
        assert(t.drop_last() =~= s.drop_last());
        assert(t.last() == m);
        assert(entries_map(t) =~= entries_map(s).insert(m.filename, m));
    } else {
        assert(t.drop_last() =~= s.drop_last().update(i, m));
        assert(forall|a: int, b: int|
            0 <= a < b < s.len() - 1 ==> s.drop_last()[a] == s[a] && s.drop_last()[b] == s[b]);
        assert(s.drop_last()[i] == s[i]);
        lemma_entries_map_update(s.drop_last(), i, m);
        assert(t.last() == s.last());
        assert(s.last().filename != m.filename);
        assert(entries_map(t) =~= entries_map(s).insert(m.filename, m));
    }
}

/// Puts `e` into the list: it replaces the entry of the same filename if
/// one is present, else it is appended.
#[verifier::loop_isolation(false)]
fn insert_entry(entries: &mut Vec<Entry>, e: Entry)
    requires
        distinct_filenames(seq_models(old(entries)@)),
    ensures
        distinct_filenames(seq_models(final(entries)@)),
        entries_map(seq_models(final(entries)@)) == entries_map(seq_models(old(entries)@)).insert(
            e@.filename,
            e@,
        ),
{
    let ghost s_old = seq_models(entries@);
    let n = entries.len();
    let mut i: usize = 0;
    while i < n
        invariant
            n == entries@.len(),
            0 <= i <= n,
            entries@ == old(entries)@,
            s_old == seq_models(entries@),
            forall|j: int| 0 <= j < i ==> seq_models(entries@)[j].filename != e@.filename,
        decreases n - i,
    {
        if entries[i].filename == e.filename {
            proof {
                assert(entries@[i as int].filename@ == e.filename@);
                assert(seq_models(entries@)[i as int] == entries@[i as int]@);
                assert(s_old[i as int].filename == e@.filename);
            }
            entries[i] = e;
            proof {
                assert(seq_models(entries@) =~= s_old.update(i as int, e@));
                lemma_entries_map_update(s_old, i as int, e@);
                assert(distinct_filenames(seq_models(entries@)));
            }
            return;
        }
        i = i + 1;
    }
    entries.push(e);
    proof {
        assert(seq_models(entries@).drop_last() =~= s_old);
        assert(seq_models(entries@).last() == e@);
        assert(entries_map(seq_models(entries@)) == entries_map(s_old).insert(e@.filename, e@));
        assert(forall|j: int| 0 <= j < s_old.len() ==> s_old[j].filename != e@.filename);
        let t = seq_models(entries@);
        assert(t.len() == s_old.len() + 1);
        assert(forall|a: int| 0 <= a < s_old.len() ==> t[a] == s_old[a]);
        assert(t[s_old.len() as int] == e@);
        assert(distinct_filenames(s_old));
        assert forall|a: int, b: int| 0 <= a < b < t.len() implies t[a].filename != t[b].filename by {
            if b == t.len() - 1 {
                assert(t[a] == s_old[a]);
                assert(t[b] == e@);
            } else {
                assert(t[a] == s_old[a]);
                assert(t[b] == s_old[b]);
            }
        }
        assert(distinct_filenames(t));
    }
}

/// The decoded in-memory form of one pak container: the filename-keyed
/// entry index plus the underlying byte source.
pub struct Archive {
    data: Vec<u8>,
    entries: Vec<Entry>,
}

impl Archive {
    /// The bytes of the underlying source.
    pub closed spec fn source(&self) -> Seq<u8> {
        self.data@
    }

    /// The ghost images of the held entries.
    pub closed spec fn models(&self) -> Seq<EntryModel> {
        seq_models(self.entries@)
    }

    /// The filename-keyed index of the archive.
    pub open spec fn index(&self) -> Map<Seq<char>, EntryModel> {
        entries_map(self.models())
    }

    /// No filename repeats among the held entries.
    pub open spec fn wf(&self) -> bool {
        distinct_filenames(self.models())
    }

    /// Decodes a whole pak container from its bytes.
    ///
    /// On success the archive holds the source bytes and the filename-keyed
    /// index of the table, a later record overwriting an earlier one of the
    /// same filename. A stream that ends inside the header or inside a
    /// record gives `Truncated`; a record whose filename field lacks a zero
    /// terminator, or is not valid UTF-8 before it, gives `MalformedEntry`.
    #[verifier::loop_isolation(false)]
    pub fn from_reader(data: Vec<u8>) -> (r: Result<Archive, DecodeError>)
        ensures
            match r {
                Ok(a) => decode_ok(data@) && a.wf() && a.source() == data@ && a.index()
                    == archive_index(data@),
                Err(e) => !decode_ok(data@) && e == decode_error(data@),
            },
    {
        let total = data.len();
        if total < 4 {
            return Err(DecodeError::Truncated);
        }
        let n = read_le32(&data, 0);
        let mut entries: Vec<Entry> = Vec::new();
        let mut k: u32 = 0;
        let mut pos: usize = 4;
        while k < n
            invariant
                0 <= k <= n,
                pos as int == record_start(k as int),
                pos <= total,
                forall|j: int| 0 <= j < k ==> record_wf(data@, j),
                distinct_filenames(seq_models(entries@)),
                entries_map(seq_models(entries@)) == table_map(data@, k as int),
            decreases n - k,
        {
            let ghost gk = k as int;
            if total - pos < RECORD_SIZE {
                proof {
                    assert(!record_complete(data@, gk));
                    lemma_first_bad_from_at(data@, n as int, 0, gk);
                    lemma_decode_bad(data@, gk);
                    assert(decode_error(data@) == DecodeError::Truncated);
                }
                return Err(DecodeError::Truncated);
            }
            let flags = read_le32(&data, pos);
            proof {
                assert(filename_field(data@, gk) =~= data@.subrange(
                    pos as int + 4,
                    pos as int + 4 + FILENAME_FIELD_SIZE,
                ));
            }
            let nul = match find_nul(&data, pos + 4) {
                Some(p) => p,
                None => {
                    proof {
                        assert(!record_wf(data@, gk));
                        lemma_first_bad_from_at(data@, n as int, 0, gk);
                        lemma_decode_bad(data@, gk);
                        assert(decode_error(data@) == DecodeError::MalformedEntry);
                    }
                    return Err(DecodeError::MalformedEntry);
                },
            };
            let name_bytes = copy_range(&data, pos + 4, pos + 4 + nul);
            proof {
                assert(name_bytes@ =~= filename_bytes(data@, gk));
            }
            let name = match utf8_to_string(&name_bytes) {
                Some(name) => name,
                None => {
                    proof {
                        assert(!record_wf(data@, gk));
                        lemma_first_bad_from_at(data@, n as int, 0, gk);
                        lemma_decode_bad(data@, gk);
                        assert(decode_error(data@) == DecodeError::MalformedEntry);
                    }
                    return Err(DecodeError::MalformedEntry);
                },
            };
            let uncompressed_size = read_le32(&data, pos + 132);
            let compressed_size = read_le32(&data, pos + 136);
            let offset = read_le32(&data, pos + 140);
            let unk2 = read_le32(&data, pos + 144);
            let unk3 = read_le32(&data, pos + 148);
            let unk4 = read_le32(&data, pos + 152);
            let e = Entry {
                flags,
                filename: name,
                uncompressed_size,
                compressed_size,
                offset,
                unk2,
                unk3,
                unk4,
            };
            proof {
                assert(record_wf(data@, gk));
                assert(e@ == record_model(data@, gk));
            }
            insert_entry(&mut entries, e);
            proof {
                assert(entries_map(seq_models(entries@)) == table_map(data@, gk + 1));
            }
            pos = pos + RECORD_SIZE;
            k = k + 1;
        }
        proof {
            assert(decode_ok(data@));
        }
        let a = Archive { data, entries };
        proof {
            assert(a.index() == archive_index(a.source()));
        }
        Ok(a)
    }

    /// Finds the position of the entry that carries `filename`, or reports
    /// that the index holds no such key.
    fn lookup(&self, filename: &str) -> (r: Option<usize>)
        requires
            self.wf(),
        ensures
            match r {
                Some(i) => 0 <= i < self.models().len() && self.models()[i as int].filename
                    == filename@ && self.index().contains_key(filename@) && self.index()[filename@]
                    == self.models()[i as int],
                None => !self.index().contains_key(filename@),
            },
    {
        let want: String = filename.to_owned();
        let n = self.entries.len();
        let mut i: usize = 0;
        while i < n
            invariant
                self.wf(),
                n == self.entries@.len(),
                0 <= i <= n,
                want@ == filename@,
                forall|j: int| 0 <= j < i ==> self.models()[j].filename != filename@,
            decreases n - i,
        {
            if self.entries[i].filename == want {
                proof {
                    assert(self.models()[i as int] == self.entries@[i as int]@);
                    lemma_entries_map_get(self.models(), i as int);
                }
                return Some(i);
            }
            i = i + 1;
        }
        proof {
            lemma_entries_map_dom(self.models(), filename@);
        }
        None
    }

    /// Materializes the full uncompressed content of the named entry.
    ///
    /// The index and the source are left unchanged. The entry's payload is
    /// read at its stored offset: raw when the two declared sizes are equal,
    /// inflated from a zlib stream otherwise, and in either case the buffer
    /// holds exactly `uncompressed_size` bytes.
    pub fn extract(&mut self, filename: &str) -> (r: Result<Vec<u8>, ExtractError>)
        requires
            old(self).wf(),
        ensures
            final(self).wf(),
            final(self).source() == old(self).source(),
            final(self).models() == old(self).models(),
            match r {
                Ok(v) => extract_spec(old(self).source(), old(self).index(), filename@) == Ok::<
                    Seq<u8>,
                    ExtractError,
                >(v@) && v@.len() == old(self).index()[filename@].uncompressed_size,
                Err(e) => extract_spec(old(self).source(), old(self).index(), filename@) == Err::<
                    Seq<u8>,
                    ExtractError,
                >(e),
            },
    {
        let i = match self.lookup(filename) {
            Some(i) => i,
            None => {
                return Err(ExtractError::NotFound);
            },
        };
        let u = self.entries[i].uncompressed_size;
        let c = self.entries[i].compressed_size;
        let off = self.entries[i].offset;
        proof {
            assert(self.index()[filename@].uncompressed_size == u);
            assert(self.index()[filename@].compressed_size == c);
            assert(self.index()[filename@].offset == off);
        }
        if u as u64 > usize::MAX as u64 {
            return Err(ExtractError::SizeOverflow);
        }
        let off_us = off as usize;
        if off_us > self.data.len() {
            return Err(ExtractError::SeekFailure);
        }
        if u == c {
            let u_us = u as usize;
            if u_us > self.data.len() - off_us {
                return Err(ExtractError::ReadFailure);
            }
            Ok(copy_range(&self.data, off_us, off_us + u_us))
        } else {
            match inflate_exact(&self.data, off_us, u as usize) {
                Ok(v) => Ok(v),
                Err(_) => Err(ExtractError::DecompressFailure),
            }
        }
    }

    /// Lists each indexed entry as its filename and its two declared sizes,
    /// in no promised order.
    pub fn list_entries(&self) -> (r: Vec<(String, u32, u32)>)
        requires
            self.wf(),
        ensures
            r@.len() == self.models().len(),
            forall|i: int| 0 <= i < r@.len() ==> self.index().contains_key(#[trigger] r@[i].0@)
                && self.index()[r@[i].0@].uncompressed_size == r@[i].1
                && self.index()[r@[i].0@].compressed_size == r@[i].2,
            forall|f: Seq<char>| #[trigger] self.index().contains_key(f) ==> exists|i: int|
                0 <= i < r@.len() && r@[i].0@ == f,
            forall|i: int, j: int| 0 <= i < j < r@.len() ==> r@[i].0@ != r@[j].0@,
    {
        let n = self.entries.len();
        let mut r: Vec<(String, u32, u32)> = Vec::new();
        let mut i: usize = 0;
        while i < n
            invariant
                self.wf(),
                n == self.entries@.len(),
                0 <= i <= n,
                r@.len() == i,
                forall|j: int| 0 <= j < i ==> #[trigger] r@[j].0@ == self.models()[j].filename
                    && r@[j].1 == self.models()[j].uncompressed_size && r@[j].2
                    == self.models()[j].compressed_size,
            decreases n - i,
        {
            let name = self.entries[i].filename.clone();
            let us = self.entries[i].uncompressed_size;
            let cs = self.entries[i].compressed_size;
            proof {
                assert(self.models()[i as int] == self.entries@[i as int]@);
            }
            r.push((name, us, cs));
            i = i + 1;
        }
        proof {
            assert forall|j: int| 0 <= j < r@.len() implies self.index().contains_key(
                #[trigger] r@[j].0@,
            ) && self.index()[r@[j].0@].uncompressed_size == r@[j].1
                && self.index()[r@[j].0@].compressed_size == r@[j].2 by {
                lemma_entries_map_get(self.models(), j);
            }
            assert forall|f: Seq<char>| #[trigger] self.index().contains_key(f) implies exists|i: int|
                0 <= i < r@.len() && r@[i].0@ == f by {
                lemma_entries_map_dom(self.models(), f);
                let w = choose|i: int| 0 <= i < self.models().len() && self.models()[i].filename
                    == f;
                assert(r@[w].0@ == f);
            }
        }
        r
    }
}

/// What extracting filename `f` from source `d` with index `m` yields: the
/// raw stored bytes when the declared sizes agree, the inflation of the
/// zlib stream at the entry's offset otherwise, or the error the attempt
/// runs into.
pub open spec fn extract_spec(
    d: Seq<u8>,
    m: Map<Seq<char>, EntryModel>,
    f: Seq<char>,
) -> Result<Seq<u8>, ExtractError> {
    if !m.contains_key(f) {
        Err(ExtractError::NotFound)
    } else {
        let e = m[f];
        if e.uncompressed_size > usize::MAX {
            Err(ExtractError::SizeOverflow)
        } else if e.offset > d.len() {
            Err(ExtractError::SeekFailure)
        } else if e.uncompressed_size == e.compressed_size {
            if e.offset + e.uncompressed_size > d.len() {
                Err(ExtractError::ReadFailure)
            } else {
                Ok(d.subrange(e.offset as int, e.offset + e.uncompressed_size))
            }
        } else {
            match inflate_prefix(d.skip(e.offset as int), e.uncompressed_size as nat) {
                Some(v) => Ok(v),
                None => Err(ExtractError::DecompressFailure),
            }
        }
    }
}

/// Round trip of a stored-raw entry: a container synthesized from
/// well-formed raw records decodes, and extracting the filename of a record
/// whose two declared sizes agree — no later record carrying that filename —
/// returns exactly the `content` bytes that the builder placed at the
/// record's offset.
#[verifier::rlimit(100)]
pub proof fn lemma_raw_entry_round_trip(
    rs: Seq<RawRecord>,
    payload: Seq<u8>,
    j: int,
    content: Seq<u8>,
)
    requires
        rs.len() <= u32::MAX,
        forall|k: int| 0 <= k < rs.len() ==> raw_record_wf(#[trigger] rs[k]),
        0 <= j < rs.len(),
        forall|k: int| j < k < rs.len() ==> decode_utf8(#[trigger] rs[k].name) != decode_utf8(
            rs[j].name,
        ),
        rs[j].uncompressed_size == rs[j].compressed_size,
        rs[j].offset + rs[j].uncompressed_size <= encode_archive(rs, payload).len(),
        encode_archive(rs, payload).subrange(
            rs[j].offset as int,
            rs[j].offset + rs[j].uncompressed_size,
        ) == content,
    ensures
        ({
            let d = encode_archive(rs, payload);
            &&& decode_ok(d)
            &&& extract_spec(d, archive_index(d), decode_utf8(rs[j].name)) == Ok::<
                Seq<u8>,
                ExtractError,
            >(content)
        }),
{
    let d = encode_archive(rs, payload);
    let n = rs.len() as int;
    let f = decode_utf8(rs[j].name);
    lemma_encode_decode(rs, payload);
    assert(record_model(d, j) == raw_model(rs[j]));
    assert(table_map(d, j + 1).contains_key(f));
    assert(table_map(d, j + 1)[f] == record_model(d, j));
    assert forall|k: int| j + 1 <= k < n implies record_model(d, k).filename != f by {
        assert(record_model(d, k) == raw_model(rs[k]));
    }
    lemma_table_map_untouched(d, j + 1, n, f);
    assert(archive_index(d).contains_key(f));
    let e = raw_model(rs[j]);
    assert(archive_index(d)[f] == e);
    assert(!(e.uncompressed_size > usize::MAX));
    assert(e.offset <= d.len());
    assert(extract_spec(d, archive_index(d), f) == Ok::<Seq<u8>, ExtractError>(
        d.subrange(e.offset as int, e.offset + e.uncompressed_size),
    ));
}

/// What `flate2` inflates a zlib stream at the head of `stream` to, read to
/// exactly `n` bytes, when that succeeds.
pub uninterp spec fn inflate_prefix(stream: Seq<u8>, n: nat) -> Option<Seq<u8>>;

/// Relies on `flate2::read::ZlibDecoder` over an in-memory slice: inflating
/// is a function of the input bytes and the requested length alone, and
/// `read_exact` fills the whole `n`-byte buffer or fails.
#[verifier::external_body]
fn inflate_exact(d: &Vec<u8>, start: usize, n: usize) -> (r: Result<Vec<u8>, ()>)
    requires
        start <= d@.len(),
    ensures
        r is Ok <==> inflate_prefix(d@.skip(start as int), n as nat) is Some,
        r matches Ok(v) ==> Some(v@) == inflate_prefix(d@.skip(start as int), n as nat) && v@.len()
            == n,
{
    let mut out = vec![0u8; n];
    let mut decoder = flate2::read::ZlibDecoder::new(&d[start..]);
    match std::io::Read::read_exact(&mut decoder, &mut out) {
        Ok(()) => Ok(out),
        Err(_) => Err(()),
    }
}

} // verus!
