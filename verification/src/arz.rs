//! The typed record database codec: header validation, the flattened string
//! table, the raw record index, per-record decompression and the tagged
//! value stream decoder.

use vstd::prelude::*;

use vstd::utf8::{decode_utf8, valid_utf8};

use crate::compression::{decompress_exact, spec_decompress_exact};
use crate::reader::{le16, le32, read_bytes, read_u16, read_u32};
use crate::text::utf8_to_string;
use crate::values::{
    assoc_get, assoc_insert, assoc_map, collapse_bools, collapse_floats, collapse_ints,
    collapse_strings, lemma_merge_step, unique_keys, DatabaseValue, ValueView,
};
use crate::DecodeError;

verus! {

/// Magic number that opens every database file.
pub const DB_MAGIC: u16 = 2;

/// The only supported format version.
pub const DB_VERSION: u16 = 3;

/// An index entry for one record: where its compressed payload lies and
/// which string names it. The payload itself is not yet decoded.
#[derive(Debug, Clone)]
pub struct RawRecord {
    pub string_index: u32,
    pub kind: String,
    pub offset: u32,
    pub compressed_len: u32,
    pub uncompressed_len: u32,
}

/// The mathematical shape of a raw record entry.
pub ghost struct RawRecordView {
    pub string_index: u32,
    pub kind: Seq<char>,
    pub offset: u32,
    pub compressed_len: u32,
    pub uncompressed_len: u32,
}

impl View for RawRecord {
    type V = RawRecordView;

    open spec fn view(&self) -> RawRecordView {
        RawRecordView {
            string_index: self.string_index,
            kind: self.kind@,
            offset: self.offset,
            compressed_len: self.compressed_len,
            uncompressed_len: self.uncompressed_len,
        }
    }
}

impl DeepView for RawRecord {
    type V = RawRecordView;

    open spec fn deep_view(&self) -> RawRecordView {
        self.view()
    }
}

/// One record index entry read at `pos`: `[string_index][kind_len][kind
/// bytes][offset][compressed_len][uncompressed_len]` followed by 8 reserved
/// bytes that are skipped without being read.
pub open spec fn spec_raw_record(d: Seq<u8>, pos: int) -> Result<
    (RawRecordView, int),
    DecodeError,
> {
    if pos < 0 || pos + 8 > d.len() {
        Err(DecodeError::TruncatedInput)
    } else {
        let kind_len = le32(d, pos + 4) as int;
        if pos + 8 + kind_len > d.len() {
            Err(DecodeError::TruncatedInput)
        } else {
            let kb = d.subrange(pos + 8, pos + 8 + kind_len);
            if !valid_utf8(kb) {
                Err(DecodeError::Encoding)
            } else {
                let q = pos + 8 + kind_len;
                if q + 12 > d.len() {
                    Err(DecodeError::TruncatedInput)
                } else {
                    Ok(
                        (
                            RawRecordView {
                                string_index: le32(d, pos),
                                kind: decode_utf8(kb),
                                offset: le32(d, q),
                                compressed_len: le32(d, q + 4),
                                uncompressed_len: le32(d, q + 8),
                            },
                            q + 20,
                        ),
                    )
                }
            }
        }
    }
}

/// The `n` record index entries read sequentially from `pos`.
pub open spec fn spec_raw_records(d: Seq<u8>, pos: int, n: nat) -> Result<
    Seq<RawRecordView>,
    DecodeError,
>
    decreases n,
{
    if n == 0 {
        Ok(Seq::empty())
    } else {
        match spec_raw_record(d, pos) {
            Err(e) => Err(e),
            Ok((rv, p)) => match spec_raw_records(d, p, (n - 1) as nat) {
                Err(e) => Err(e),
                Ok(rest) => Ok(seq![rv].add(rest)),
            },
        }
    }
}

/// A decoded database, bound to the byte buffer it was opened from. The
/// string table is built eagerly; records are decoded on demand.
#[derive(Debug)]
pub struct Database {
    pub data: Vec<u8>,
    pub strings: Vec<String>,
    pub head: u16,
    pub version: u16,
    pub record_count: u32,
    pub records_offset: u32,
    pub records_len: u32,
    pub string_table_offset: u32,
    pub string_table_len: u32,
}

/// `count` length-prefixed strings read from `pos`: their decoded forms and
/// the position after the last one.
pub open spec fn spec_read_strings(d: Seq<u8>, pos: int, n: nat) -> Result<
    (Seq<Seq<char>>, int),
    DecodeError,
>
    decreases n,
{
    if n == 0 {
        Ok((Seq::empty(), pos))
    } else if pos < 0 || pos + 4 > d.len() {
        Err(DecodeError::TruncatedInput)
    } else {
        let len = le32(d, pos) as int;
        if pos + 4 + len > d.len() {
            Err(DecodeError::TruncatedInput)
        } else {
            let bytes = d.subrange(pos + 4, pos + 4 + len);
            if !valid_utf8(bytes) {
                Err(DecodeError::Encoding)
            } else {
                match spec_read_strings(d, pos + 4 + len, (n - 1) as nat) {
                    Err(e) => Err(e),
                    Ok((rest, p)) => Ok((seq![decode_utf8(bytes)].add(rest), p)),
                }
            }
        }
    }
}

/// The flattened string table: repeated groups of `[count] count x [len,
/// bytes]` read from `pos` until `end` is reached.
pub open spec fn spec_string_table(d: Seq<u8>, pos: int, end: int) -> Result<
    Seq<Seq<char>>,
    DecodeError,
>
    decreases end - pos,
{
    if pos >= end {
        Ok(Seq::empty())
    } else if pos < 0 || pos + 4 > d.len() {
        Err(DecodeError::TruncatedInput)
    } else {
        let count = le32(d, pos) as nat;
        match spec_read_strings(d, pos + 4, count) {
            Err(e) => Err(e),
            Ok((ss, p)) => if p <= pos {
                // reading never moves backwards; this arm is out of reach
                Err(DecodeError::TruncatedInput)
            } else if p >= end {
                Ok(ss)
            } else {
                match spec_string_table(d, p, end) {
                    Err(e) => Err(e),
                    Ok(rest) => Ok(ss.add(rest)),
                }
            },
        }
    }
}

/// A successful string read lands after its starting position and yields
/// exactly the requested number of strings.
pub proof fn lemma_read_strings_pos(d: Seq<u8>, pos: int, n: nat)
    ensures
        spec_read_strings(d, pos, n) matches Ok(t) ==> t.1 >= pos && t.0.len() == n,
    decreases n,
{
    if n > 0 && !(pos < 0 || pos + 4 > d.len()) {
        let len = le32(d, pos) as int;
        if pos + 4 + len <= d.len() {
            lemma_read_strings_pos(d, pos + 4 + len, (n - 1) as nat);
        }
    }
}

/// The string table region of a database buffer, located by its header.
pub open spec fn spec_db_strings(d: Seq<u8>) -> Result<Seq<Seq<char>>, DecodeError> {
    spec_string_table(d, le32(d, 16) as int, le32(d, 16) as int + le32(d, 20) as int)
}

/// A valid database header: long enough, right magic, supported version.
pub open spec fn spec_db_header_ok(d: Seq<u8>) -> bool {
    d.len() >= 24 && le16(d, 0) == DB_MAGIC && le16(d, 2) == DB_VERSION
}

/// Reads `n` length-prefixed strings starting at `pos`, appending them to
/// `out`; returns the position after the last one.
fn read_strings_into(d: &Vec<u8>, pos: u64, n: u32, out: &mut Vec<String>) -> (r: Result<
    u64,
    DecodeError,
>)
    requires
        pos <= d.len(),
    ensures
        match r {
            Ok(p) => spec_read_strings(d@, pos as int, n as nat) matches Ok(t) && t.1 == p as int
                && final(out).deep_view() == old(out).deep_view().add(t.0) && p <= d.len(),
            Err(e) => spec_read_strings(d@, pos as int, n as nat) == Err::<
                (Seq<Seq<char>>, int),
                DecodeError,
            >(e),
        },
    decreases n,
{
    if n == 0 {
        proof {
            assert(out.deep_view() =~= old(out).deep_view().add(Seq::empty()));
        }
        return Ok(pos);
    }
    let len = match read_u32(d, pos as usize) {
        Ok(v) => v,
        Err(e) => {
            return Err(e);
        },
    };
    if len as u64 > d.len() as u64 - (pos + 4) {
        return Err(DecodeError::TruncatedInput);
    }
    let bytes = match read_bytes(d, pos as usize + 4, len as usize) {
        Ok(b) => b,
        Err(e) => {
            return Err(e);
        },
    };
    let s = match utf8_to_string(&bytes) {
        Ok(s) => s,
        Err(e) => {
            return Err(e);
        },
    };
    let ghost mid = out.deep_view().push(s@);
    out.push(s);
    proof {
        assert(out.deep_view() =~= mid);
    }
    let next = pos + 4 + len as u64;
    match read_strings_into(d, next, n - 1, out) {
        Ok(p) => {
            proof {
                let t0 = spec_read_strings(d@, next as int, (n - 1) as nat).unwrap().0;
                assert(out.deep_view() =~= old(out).deep_view().add(
                    seq![decode_utf8(d@.subrange(pos + 4, pos + 4 + len as int))].add(t0),
                ));
            }
            Ok(p)
        },
        Err(e) => Err(e),
    }
}

/// Reads string-table groups from `pos` until `end`, appending all their
/// strings to `out`.
fn read_string_table(d: &Vec<u8>, pos: u64, end: u64, out: &mut Vec<String>) -> (r: Result<
    (),
    DecodeError,
>)
    requires
        pos <= d.len() || pos >= end,
        end <= u64::MAX - 8,
    ensures
        match r {
            Ok(()) => spec_string_table(d@, pos as int, end as int) matches Ok(t)
                && final(out).deep_view() == old(out).deep_view().add(t),
            Err(e) => spec_string_table(d@, pos as int, end as int) == Err::<
                Seq<Seq<char>>,
                DecodeError,
            >(e),
        },
    decreases end - pos,
{
    if pos >= end {
        proof {
            assert(out.deep_view() =~= old(out).deep_view().add(Seq::empty()));
        }
        return Ok(());
    }
    let count = match read_u32(d, pos as usize) {
        Ok(v) => v,
        Err(e) => {
            return Err(e);
        },
    };
    let ghost before = out.deep_view();
    let p = match read_strings_into(d, pos + 4, count, out) {
        Ok(p) => p,
        Err(e) => {
            return Err(e);
        },
    };
    proof {
        lemma_read_strings_pos(d@, pos + 4, count as nat);
    }
    if p >= end {
        return Ok(());
    }
    match read_string_table(d, p, end, out) {
        Ok(()) => {
            proof {
                let ss = spec_read_strings(d@, pos + 4, count as nat).unwrap().0;
                let rest = spec_string_table(d@, p as int, end as int).unwrap();
                assert(out.deep_view() =~= old(out).deep_view().add(ss.add(rest)));
            }
            Ok(())
        },
        Err(e) => Err(e),
    }
}

/// A fully resolved record: its id, its kind, and its decoded fields. No
/// two fields share a name; a later entry in the stored stream has
/// overwritten any earlier one with the same name.
#[derive(Debug)]
pub struct Record {
    pub id: String,
    pub kind: String,
    pub data: Vec<(String, DatabaseValue)>,
}

impl Record {
    /// Field names are unique.
    pub open spec fn wf(self) -> bool {
        unique_keys(self.data@)
    }

    /// The name-to-value map the field list denotes.
    pub open spec fn data_map(self) -> Map<Seq<char>, ValueView> {
        assoc_map(self.data@)
    }

    /// Looks a field up by name.
    pub fn get(&self, name: &str) -> (r: Option<&DatabaseValue>)
        requires
            self.wf(),
        ensures
            match r {
                Some(v) => self.data_map().contains_key(name@) && v@ == self.data_map()[name@],
                None => !self.data_map().contains_key(name@),
            },
    {
        assoc_get(&self.data, name)
    }
}

/// The `n` raw 32-bit words of one entry, read from `pos`.
pub open spec fn spec_words(d: Seq<u8>, pos: int, n: nat) -> Result<Seq<u32>, DecodeError> {
    if pos < 0 || pos + 4 * n > d.len() {
        Err(DecodeError::TruncatedInput)
    } else {
        Ok(Seq::new(n, |i: int| le32(d, pos + 4 * i)))
    }
}

/// String-table resolution of every word of an entry.
pub open spec fn resolve_indices(ws: Seq<u32>, strings: Seq<Seq<char>>) -> Result<
    Seq<Seq<char>>,
    DecodeError,
> {
    if forall|i: int| 0 <= i < ws.len() ==> (ws[i] as int) < strings.len() {
        Ok(ws.map_values(|w: u32| strings[w as int]))
    } else {
        Err(DecodeError::Lookup)
    }
}

/// Boolean reading of every word of an entry: a stored word must be exactly
/// 0 or 1; anything else is a format violation.
pub open spec fn words_to_bools(ws: Seq<u32>) -> Result<Seq<bool>, DecodeError> {
    if forall|i: int| 0 <= i < ws.len() ==> (ws[i] == 0 || ws[i] == 1) {
        Ok(ws.map_values(|w: u32| w == 1))
    } else {
        Err(DecodeError::UnknownTag)
    }
}

/// One tagged entry at `pos`: `[type][count][name index]` and `count` raw
/// words whose reading the type selects; yields the field name, the
/// collapsed value, and the position after the entry.
pub open spec fn spec_entry(d: Seq<u8>, pos: int, strings: Seq<Seq<char>>) -> Result<
    (Seq<char>, ValueView, int),
    DecodeError,
> {
    if pos < 0 || pos + 8 > d.len() {
        Err(DecodeError::TruncatedInput)
    } else {
        let t = le16(d, pos);
        let c = le16(d, pos + 2) as nat;
        let si = le32(d, pos + 4) as int;
        if si >= strings.len() {
            Err(DecodeError::Lookup)
        } else if !(t == 0 || t == 1 || t == 2 || t == 3) {
            Err(DecodeError::UnknownTag)
        } else {
            match spec_words(d, pos + 8, c) {
                Err(e) => Err(e),
                Ok(ws) => {
                    let name = strings[si];
                    let p = pos + 8 + 4 * c;
                    if t == 0 {
                        Ok((name, collapse_ints(ws), p))
                    } else if t == 1 {
                        Ok((name, collapse_floats(ws), p))
                    } else if t == 2 {
                        match resolve_indices(ws, strings) {
                            Err(e) => Err(e),
                            Ok(ss) => Ok((name, collapse_strings(ss), p)),
                        }
                    } else {
                        match words_to_bools(ws) {
                            Err(e) => Err(e),
                            Ok(bs) => Ok((name, collapse_bools(bs), p)),
                        }
                    }
                },
            }
        }
    }
}

/// The whole tagged value stream of a record payload, decoded from `pos` to
/// the end of the buffer. A later entry for a name wins over an earlier
/// one.
pub open spec fn spec_fields(d: Seq<u8>, pos: int, strings: Seq<Seq<char>>) -> Result<
    Map<Seq<char>, ValueView>,
    DecodeError,
>
    decreases d.len() - pos,
{
    if pos >= d.len() {
        Ok(Map::empty())
    } else {
        match spec_entry(d, pos, strings) {
            Err(e) => Err(e),
            Ok((name, v, p)) => {
                if p <= pos {
                    // an entry is never empty; this arm is out of reach
                    Err(DecodeError::TruncatedInput)
                } else {
                    match spec_fields(d, p, strings) {
                        Err(e) => Err(e),
                        Ok(rest) => Ok(
                            if rest.contains_key(name) {
                                rest
                            } else {
                                rest.insert(name, v)
                            },
                        ),
                    }
                }
            },
        }
    }
}

/// Collapsing law: an entry stored with count 1 decodes to the scalar
/// variant of its type; any other count yields the matching sequence
/// variant, whose length is the declared count.
pub proof fn lemma_value_collapsing(d: Seq<u8>, pos: int, strings: Seq<Seq<char>>)
    requires
        spec_entry(d, pos, strings) is Ok,
    ensures
        ({
            let t = le16(d, pos);
            let c = le16(d, pos + 2);
            let v = spec_entry(d, pos, strings).unwrap().1;
            &&& c == 1 ==> ((t == 0 ==> v is Int) && (t == 1 ==> v is Float) && (t == 2 ==> v
                is Str) && (t == 3 ==> v is Bool))
            &&& c != 1 ==> ((t == 0 ==> (v matches ValueView::Ints(ws) && ws.len() == c)) && (t
                == 1 ==> (v matches ValueView::Floats(ws) && ws.len() == c)) && (t == 2 ==> (
            v matches ValueView::Strings(ss) && ss.len() == c)) && (t == 3 ==> (
            v matches ValueView::Bools(bs) && bs.len() == c)))
        }),
{
}

/// A value in collapsed form: a list of length one never appears as a
/// sequence variant.
pub open spec fn collapsed(v: ValueView) -> bool {
    match v {
        ValueView::Ints(ws) => ws.len() != 1,
        ValueView::Floats(ws) => ws.len() != 1,
        ValueView::Strings(ss) => ss.len() != 1,
        ValueView::Bools(bs) => bs.len() != 1,
        _ => true,
    }
}

/// The value of a decoded entry is always in collapsed form.
proof fn lemma_entry_collapsed(d: Seq<u8>, pos: int, strings: Seq<Seq<char>>)
    requires
        spec_entry(d, pos, strings) is Ok,
    ensures
        collapsed(spec_entry(d, pos, strings)->Ok_0.1),
{
}

/// Collapsing law over whole records: every field of a decoded record is
/// in collapsed form, whatever its name and wherever it stood in the
/// stream.
pub proof fn lemma_fields_collapsed(d: Seq<u8>, pos: int, strings: Seq<Seq<char>>)
    requires
        spec_fields(d, pos, strings) is Ok,
    ensures
        forall|k: Seq<char>|
            #[trigger] spec_fields(d, pos, strings)->Ok_0.contains_key(k) ==> collapsed(
                spec_fields(d, pos, strings)->Ok_0[k],
            ),
    decreases d.len() - pos,
{
    if pos < d.len() {
        let e = spec_entry(d, pos, strings)->Ok_0;
        lemma_entry_collapsed(d, pos, strings);
        lemma_fields_collapsed(d, e.2, strings);
    }
}

/// Joins the fields already decoded with what the rest of the stream
/// yields; the rest wins on a shared name.
pub open spec fn fields_combine(
    acc: Map<Seq<char>, ValueView>,
    r: Result<Map<Seq<char>, ValueView>, DecodeError>,
) -> Result<Map<Seq<char>, ValueView>, DecodeError> {
    match r {
        Ok(m) => Ok(acc.union_prefer_right(m)),
        Err(e) => Err(e),
    }
}

/// Reads the `n` raw words of one entry.
fn read_words(d: &Vec<u8>, pos: usize, n: u16) -> (r: Result<Vec<u32>, DecodeError>)
    requires
        d.len() <= 0x7fffffff,
        pos <= d.len(),
    ensures
        match r {
            Ok(ws) => spec_words(d@, pos as int, n as nat) == Ok::<Seq<u32>, DecodeError>(ws@),
            Err(e) => spec_words(d@, pos as int, n as nat) == Err::<Seq<u32>, DecodeError>(e),
        },
{
    if (n as usize) * 4 > d.len() - pos {
        return Err(DecodeError::TruncatedInput);
    }
    let mut out: Vec<u32> = Vec::new();
    let mut i: usize = 0;
    while i < n as usize
        invariant
            pos + 4 * (n as int) <= d.len(),
            i <= n as usize,
            out@ == Seq::new(i as nat, |k: int| le32(d@, pos + 4 * k)),
        decreases n as usize - i,
    {
        let w = read_u32(d, pos + 4 * i).unwrap();
        out.push(w);
        proof {
            assert(out@ =~= Seq::new((i + 1) as nat, |k: int| le32(d@, pos + 4 * k)));
        }
        i = i + 1;
    }
    proof {
        assert(out@ =~= spec_words(d@, pos as int, n as nat).unwrap());
    }
    Ok(out)
}

/// Resolves every word of a string entry against the string table.
fn resolve_words(ws: &Vec<u32>, strings: &Vec<String>) -> (r: Result<Vec<String>, DecodeError>)
    ensures
        match r {
            Ok(ss) => resolve_indices(ws@, strings.deep_view()) == Ok::<
                Seq<Seq<char>>,
                DecodeError,
            >(ss.deep_view()),
            Err(e) => resolve_indices(ws@, strings.deep_view()) == Err::<
                Seq<Seq<char>>,
                DecodeError,
            >(e),
        },
{
    let mut out: Vec<String> = Vec::new();
    let mut i: usize = 0;
    while i < ws.len()
        invariant
            i <= ws.len(),
            forall|k: int| 0 <= k < i ==> (ws@[k] as int) < strings.deep_view().len(),
            out.deep_view() == Seq::new(i as nat, |k: int| strings.deep_view()[ws@[k] as int]),
        decreases ws.len() - i,
    {
        let w = ws[i];
        if w as usize >= strings.len() {
            return Err(DecodeError::Lookup);
        }
        let s = strings[w as usize].clone();
        proof {
            assert(s@ == strings.deep_view()[w as int]);
        }
        let ghost mid = out.deep_view().push(s@);
        out.push(s);
        proof {
            assert(out.deep_view() =~= mid);
            assert(mid =~= Seq::new((i + 1) as nat, |k: int| strings.deep_view()[ws@[k] as int]));
        }
        i = i + 1;
    }
    proof {
        assert(out.deep_view() =~= ws@.map_values(|w: u32| strings.deep_view()[w as int]));
    }
    Ok(out)
}

/// Reads every word of a boolean entry, insisting on 0 or 1.
fn words_as_bools(ws: &Vec<u32>) -> (r: Result<Vec<bool>, DecodeError>)
    ensures
        match r {
            Ok(bs) => words_to_bools(ws@) == Ok::<Seq<bool>, DecodeError>(bs@),
            Err(e) => words_to_bools(ws@) == Err::<Seq<bool>, DecodeError>(e),
        },
{
    let mut out: Vec<bool> = Vec::new();
    let mut i: usize = 0;
    while i < ws.len()
        invariant
            i <= ws.len(),
            forall|k: int| 0 <= k < i ==> (ws@[k] == 0 || ws@[k] == 1),
            out@ == Seq::new(i as nat, |k: int| ws@[k] == 1),
        decreases ws.len() - i,
    {
        let w = ws[i];
        if w > 1 {
            return Err(DecodeError::UnknownTag);
        }
        out.push(w == 1);
        proof {
            assert(out@ =~= Seq::new((i + 1) as nat, |k: int| ws@[k] == 1));
        }
        i = i + 1;
    }
    proof {
        assert(out@ =~= ws@.map_values(|w: u32| w == 1));
    }
    Ok(out)
}

/// Decodes one tagged entry at `pos`.
fn decode_entry(d: &Vec<u8>, pos: usize, strings: &Vec<String>) -> (r: Result<
    (String, DatabaseValue, usize),
    DecodeError,
>)
    requires
        d.len() <= 0x7fffffff,
        pos <= d.len(),
    ensures
        match r {
            Ok(t) => spec_entry(d@, pos as int, strings.deep_view()) == Ok::<
                (Seq<char>, ValueView, int),
                DecodeError,
            >((t.0@, t.1@, t.2 as int)) && pos < t.2 <= d.len(),
            Err(e) => spec_entry(d@, pos as int, strings.deep_view()) == Err::<
                (Seq<char>, ValueView, int),
                DecodeError,
            >(e),
        },
{
    let t = match read_u16(d, pos) {
        Ok(v) => v,
        Err(e) => {
            return Err(e);
        },
    };
    let c = match read_u16(d, pos + 2) {
        Ok(v) => v,
        Err(e) => {
            return Err(e);
        },
    };
    let si = match read_u32(d, pos + 4) {
        Ok(v) => v,
        Err(e) => {
            return Err(e);
        },
    };
    if si as usize >= strings.len() {
        return Err(DecodeError::Lookup);
    }
    let name = strings[si as usize].clone();
    if !(t == 0 || t == 1 || t == 2 || t == 3) {
        return Err(DecodeError::UnknownTag);
    }
    let ws = match read_words(d, pos + 8, c) {
        Ok(ws) => ws,
        Err(e) => {
            return Err(e);
        },
    };
    let p = pos + 8 + 4 * (c as usize);
    let value = if t == 0 {
        DatabaseValue::of_ints(ws)
    } else if t == 1 {
        DatabaseValue::of_floats(ws)
    } else if t == 2 {
        let ss = match resolve_words(&ws, strings) {
            Ok(ss) => ss,
            Err(e) => {
                return Err(e);
            },
        };
        DatabaseValue::of_strings(ss)
    } else {
        let bs = match words_as_bools(&ws) {
            Ok(bs) => bs,
            Err(e) => {
                return Err(e);
            },
        };
        DatabaseValue::of_bools(bs)
    };
    Ok((name, value, p))
}

/// Decodes a whole decompressed record payload into its field list,
/// applying the collapsing rule to every entry and letting a later entry
/// overwrite an earlier one with the same name.
pub fn decode_fields(payload: &Vec<u8>, strings: &Vec<String>) -> (r: Result<
    Vec<(String, DatabaseValue)>,
    DecodeError,
>)
    requires
        payload.len() <= 0x7fffffff,
    ensures
        match r {
            Ok(v) => unique_keys(v@) && spec_fields(payload@, 0, strings.deep_view()) == Ok::<
                Map<Seq<char>, ValueView>,
                DecodeError,
            >(assoc_map(v@)),
            Err(e) => spec_fields(payload@, 0, strings.deep_view()) == Err::<
                Map<Seq<char>, ValueView>,
                DecodeError,
            >(e),
        },
{
    let ghost gs = strings.deep_view();
    let mut out: Vec<(String, DatabaseValue)> = Vec::new();
    let mut pos: usize = 0;
    proof {
        assert(assoc_map(out@) =~= Map::<Seq<char>, ValueView>::empty());
        if spec_fields(payload@, 0, gs) is Ok {
            let m = spec_fields(payload@, 0, gs)->Ok_0;
            assert(assoc_map(out@).union_prefer_right(m) =~= m);
        }
    }
    loop
        invariant
            payload.len() <= 0x7fffffff,
            pos <= payload.len(),
            unique_keys(out@),
            gs == strings.deep_view(),
            fields_combine(assoc_map(out@), spec_fields(payload@, pos as int, gs)) == spec_fields(
                payload@,
                0,
                gs,
            ),
        decreases payload.len() - pos,
    {
        if pos >= payload.len() {
            proof {
                assert(assoc_map(out@).union_prefer_right(Map::empty()) =~= assoc_map(out@));
            }
            return Ok(out);
        }
        let (name, value, p) = match decode_entry(payload, pos, strings) {
            Ok(t) => t,
            Err(e) => {
                return Err(e);
            },
        };
        proof {
            let rest = spec_fields(payload@, p as int, gs);
            if rest is Ok {
                lemma_merge_step(assoc_map(out@), rest->Ok_0, name@, value@);
            }
        }
        assoc_insert(&mut out, name, value);
        pos = p;
    }
}

/// The decompressed payload of a record: `compressed_len` bytes taken at
/// `offset + 24` (a fixed 24-byte sub-header is skipped uninterpreted) and
/// decoded into exactly `uncompressed_len` bytes.
pub open spec fn spec_payload(d: Seq<u8>, raw: RawRecordView) -> Result<Seq<u8>, DecodeError> {
    if raw.offset as int + 24 + raw.compressed_len as int > d.len() {
        Err(DecodeError::TruncatedInput)
    } else {
        match spec_decompress_exact(
            d.subrange(raw.offset as int + 24, raw.offset as int + 24 + raw.compressed_len as int),
            raw.uncompressed_len as nat,
        ) {
            Some(p) => Ok(p),
            None => Err(DecodeError::Decompression),
        }
    }
}

/// The decoded payload always has exactly the uncompressed length its
/// index entry declares.
pub proof fn lemma_payload_len(d: Seq<u8>, raw: RawRecordView)
    requires
        spec_payload(d, raw) is Ok,
    ensures
        spec_payload(d, raw).unwrap().len() == raw.uncompressed_len,
{
}

/// Fully resolving a raw record: name lookup, payload decompression, and
/// the decoding of its tagged value stream.
pub open spec fn spec_resolve(d: Seq<u8>, strings: Seq<Seq<char>>, raw: RawRecordView) -> Result<
    Map<Seq<char>, ValueView>,
    DecodeError,
> {
    if raw.string_index as int >= strings.len() {
        Err(DecodeError::Lookup)
    } else {
        match spec_payload(d, raw) {
            Err(e) => Err(e),
            Ok(p) => spec_fields(p, 0, strings),
        }
    }
}

/// Reads one record index entry at `pos`; returns it and the position of
/// the next entry.
fn read_raw_record(d: &Vec<u8>, pos: u64) -> (r: Result<(RawRecord, u64), DecodeError>)
    requires
        d.len() as int <= 0xffff_ffff_ffff_0000,
    ensures
        match r {
            Ok(t) => spec_raw_record(d@, pos as int) == Ok::<(RawRecordView, int), DecodeError>(
                (t.0@, t.1 as int),
            ) && t.1 <= d.len() + 20,
            Err(e) => spec_raw_record(d@, pos as int) == Err::<(RawRecordView, int), DecodeError>(
                e,
            ),
        },
{
    if pos > d.len() as u64 {
        return Err(DecodeError::TruncatedInput);
    }
    let string_index = match read_u32(d, pos as usize) {
        Ok(v) => v,
        Err(e) => {
            return Err(e);
        },
    };
    let kind_len = match read_u32(d, pos as usize + 4) {
        Ok(v) => v,
        Err(e) => {
            return Err(e);
        },
    };
    if kind_len as u64 > d.len() as u64 - (pos + 8) {
        return Err(DecodeError::TruncatedInput);
    }
    let kind_bytes = match read_bytes(d, pos as usize + 8, kind_len as usize) {
        Ok(b) => b,
        Err(e) => {
            return Err(e);
        },
    };
    let kind = match utf8_to_string(&kind_bytes) {
        Ok(s) => s,
        Err(e) => {
            return Err(e);
        },
    };
    let q = pos + 8 + kind_len as u64;
    let offset = match read_u32(d, q as usize) {
        Ok(v) => v,
        Err(e) => {
            return Err(e);
        },
    };
    let compressed_len = match read_u32(d, q as usize + 4) {
        Ok(v) => v,
        Err(e) => {
            return Err(e);
        },
    };
    let uncompressed_len = match read_u32(d, q as usize + 8) {
        Ok(v) => v,
        Err(e) => {
            return Err(e);
        },
    };
    Ok(
        (
            RawRecord { string_index, kind, offset, compressed_len, uncompressed_len },
            q + 20,
        ),
    )
}

/// Reads `n` record index entries from `pos`, appending them to `out`.
fn read_raw_records_into(d: &Vec<u8>, pos: u64, n: u32, out: &mut Vec<RawRecord>) -> (r: Result<
    (),
    DecodeError,
>)
    requires
        d.len() as int <= 0xffff_ffff_ffff_0000,
    ensures
        match r {
            Ok(()) => spec_raw_records(d@, pos as int, n as nat) matches Ok(s)
                && final(out).deep_view() == old(out).deep_view().add(s),
            Err(e) => spec_raw_records(d@, pos as int, n as nat) == Err::<
                Seq<RawRecordView>,
                DecodeError,
            >(e),
        },
    decreases n,
{
    if n == 0 {
        proof {
            assert(out.deep_view() =~= old(out).deep_view().add(Seq::empty()));
        }
        return Ok(());
    }
    let (rr, p) = match read_raw_record(d, pos) {
        Ok(t) => t,
        Err(e) => {
            return Err(e);
        },
    };
    let ghost mid = out.deep_view().push(rr@);
    out.push(rr);
    proof {
        assert(out.deep_view() =~= mid);
    }
    match read_raw_records_into(d, p, n - 1, out) {
        Ok(()) => {
            proof {
                let s0 = spec_raw_records(d@, p as int, (n - 1) as nat).unwrap();
                assert(out.deep_view() =~= old(out).deep_view().add(
                    seq![spec_raw_record(d@, pos as int).unwrap().0].add(s0),
                ));
            }
            Ok(())
        },
        Err(e) => Err(e),
    }
}

impl Database {
    /// The decoded header fields agree with the underlying bytes and the
    /// string table is the decoded form of the table region.
    pub open spec fn wf(self) -> bool {
        &&& spec_db_header_ok(self.data@)
        &&& self.head == le16(self.data@, 0)
        &&& self.version == le16(self.data@, 2)
        &&& self.records_offset == le32(self.data@, 4)
        &&& self.records_len == le32(self.data@, 8)
        &&& self.record_count == le32(self.data@, 12)
        &&& self.string_table_offset == le32(self.data@, 16)
        &&& self.string_table_len == le32(self.data@, 20)
        &&& spec_db_strings(self.data@) == Ok::<Seq<Seq<char>>, DecodeError>(
            self.strings.deep_view(),
        )
    }

    /// Opens a database over an in-memory buffer: validates magic and
    /// version, then eagerly builds the flattened string table.
    pub fn from(data: Vec<u8>) -> (r: Result<Database, DecodeError>)
        ensures
            r is Ok <==> spec_db_header_ok(data@) && spec_db_strings(data@) is Ok,
            r matches Ok(db) ==> db.wf() && db.data@ == data@,
            data@.len() < 4 ==> r == Err::<Database, DecodeError>(DecodeError::TruncatedInput),
            data@.len() >= 4 && !(le16(data@, 0) == DB_MAGIC && le16(data@, 2) == DB_VERSION)
                ==> r == Err::<Database, DecodeError>(DecodeError::Format),
            data@.len() >= 4 && le16(data@, 0) == DB_MAGIC && le16(data@, 2) == DB_VERSION
                && data@.len() < 24 ==> r == Err::<Database, DecodeError>(
                DecodeError::TruncatedInput,
            ),
            spec_db_header_ok(data@) && spec_db_strings(data@) is Err ==> r == Err::<
                Database,
                DecodeError,
            >(spec_db_strings(data@)->Err_0),
    {
        let head = match read_u16(&data, 0) {
            Ok(v) => v,
            Err(e) => {
                return Err(e);
            },
        };
        let version = match read_u16(&data, 2) {
            Ok(v) => v,
            Err(e) => {
                return Err(e);
            },
        };
        if head != DB_MAGIC || version != DB_VERSION {
            return Err(DecodeError::Format);
        }
        if data.len() < 24 {
            return Err(DecodeError::TruncatedInput);
        }
        let records_offset = read_u32(&data, 4).unwrap();
        let records_len = read_u32(&data, 8).unwrap();
        let record_count = read_u32(&data, 12).unwrap();
        let string_table_offset = read_u32(&data, 16).unwrap();
        let string_table_len = read_u32(&data, 20).unwrap();
        let start = string_table_offset as u64;
        let end = start + string_table_len as u64;
        let mut strings: Vec<String> = Vec::new();
        if start < end && start > data.len() as u64 {
            // the first group read would already be out of bounds
            return Err(DecodeError::TruncatedInput);
        }
        match read_string_table(&data, start, end, &mut strings) {
            Ok(()) => {
                proof {
                    assert(strings.deep_view() =~= spec_db_strings(data@).unwrap());
                }
                Ok(
                    Database {
                        data,
                        strings,
                        head,
                        version,
                        record_count,
                        records_offset,
                        records_len,
                        string_table_offset,
                        string_table_len,
                    },
                )
            },
            Err(e) => Err(e),
        }
    }

    /// Reads the whole record index: `record_count` entries starting at
    /// `records_offset`, each followed by 8 reserved bytes. The bound on
    /// the buffer length only keeps index arithmetic inside the machine
    /// word; any buffer that fits in memory is far below it.
    pub fn iter_records(&self) -> (r: Result<Vec<RawRecord>, DecodeError>)
        requires
            self.wf(),
            self.data.len() as int <= 0xffff_ffff_ffff_0000,
        ensures
            match r {
                Ok(v) => spec_raw_records(
                    self.data@,
                    self.records_offset as int,
                    self.record_count as nat,
                ) == Ok::<Seq<RawRecordView>, DecodeError>(v.deep_view()),
                Err(e) => spec_raw_records(
                    self.data@,
                    self.records_offset as int,
                    self.record_count as nat,
                ) == Err::<Seq<RawRecordView>, DecodeError>(e),
            },
    {
        let mut out: Vec<RawRecord> = Vec::new();
        match read_raw_records_into(&self.data, self.records_offset as u64, self.record_count, &mut out) {
            Ok(()) => {
                proof {
                    assert(out.deep_view() =~= spec_raw_records(
                        self.data@,
                        self.records_offset as int,
                        self.record_count as nat,
                    ).unwrap());
                }
                Ok(out)
            },
            Err(e) => Err(e),
        }
    }

    /// Fully resolves a raw record: looks its id up, decompresses its
    /// payload into exactly the declared size, and decodes the tagged value
    /// stream into the record's field map.
    pub fn resolve(&self, raw: RawRecord) -> (r: Result<Record, DecodeError>)
        requires
            self.wf(),
        ensures
            match r {
                Ok(rec) => spec_resolve(self.data@, self.strings.deep_view(), raw@) matches Ok(m)
                    && rec.wf() && rec.id@ == self.strings.deep_view()[raw.string_index as int]
                    && rec.kind@ == raw@.kind && rec.data_map() == m,
                Err(e) => spec_resolve(self.data@, self.strings.deep_view(), raw@) == Err::<
                    Map<Seq<char>, ValueView>,
                    DecodeError,
                >(e),
            },
    {
        let id = match self.lookup_str(raw.string_index as usize) {
            Ok(s) => s,
            Err(e) => {
                return Err(e);
            },
        };
        let off = raw.offset as u64;
        let clen = raw.compressed_len as u64;
        if off + 24 + clen > self.data.len() as u64 {
            return Err(DecodeError::TruncatedInput);
        }
        let compressed = match read_bytes(&self.data, (off + 24) as usize, raw.compressed_len as usize) {
            Ok(b) => b,
            Err(e) => {
                return Err(e);
            },
        };
        let payload = match decompress_exact(&compressed, raw.uncompressed_len as usize) {
            Ok(p) => p,
            Err(e) => {
                return Err(e);
            },
        };
        let data = match decode_fields(&payload, &self.strings) {
            Ok(d) => d,
            Err(e) => {
                return Err(e);
            },
        };
        Ok(Record { id, kind: raw.kind, data })
    }

    /// Opens a database over a borrowed byte slice, copying it.
    pub fn parse(bytes: &[u8]) -> (r: Result<Database, DecodeError>)
        ensures
            r is Ok <==> spec_db_header_ok(bytes@) && spec_db_strings(bytes@) is Ok,
            r matches Ok(db) ==> db.wf() && db.data@ == bytes@,
            bytes@.len() < 4 ==> r == Err::<Database, DecodeError>(DecodeError::TruncatedInput),
            bytes@.len() >= 4 && !(le16(bytes@, 0) == DB_MAGIC && le16(bytes@, 2) == DB_VERSION)
                ==> r == Err::<Database, DecodeError>(DecodeError::Format),
            spec_db_header_ok(bytes@) && spec_db_strings(bytes@) is Err ==> r == Err::<
                Database,
                DecodeError,
            >(spec_db_strings(bytes@)->Err_0),
    {
        Database::from(vstd::slice::slice_to_vec(bytes))
    }

    /// Resolves a raw record's name against the string table.
    pub fn record_id(&self, raw: &RawRecord) -> (r: Result<String, DecodeError>)
        ensures
            (raw.string_index as int) < self.strings.deep_view().len() ==> r is Ok
                && r.unwrap()@ == self.strings.deep_view()[raw.string_index as int],
            (raw.string_index as int) >= self.strings.deep_view().len() ==> r == Err::<
                String,
                DecodeError,
            >(DecodeError::Lookup),
    {
        self.lookup_str(raw.string_index as usize)
    }

    /// Resolves a global string-table index.
    pub fn lookup_str(&self, index: usize) -> (r: Result<String, DecodeError>)
        ensures
            index < self.strings.len() ==> r is Ok && r.unwrap()@ == self.strings.deep_view()[
                index as int],
            index >= self.strings.len() ==> r == Err::<String, DecodeError>(DecodeError::Lookup),
    {
        if index < self.strings.len() {
            Ok(self.strings[index].clone())
        } else {
            Err(DecodeError::Lookup)
        }
    }
}

} // verus!
