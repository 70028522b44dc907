//! The on-disk encoding of a stored entry.
//!
//! A record is three length-prefixed fields laid end to end: the key's UTF-8
//! bytes, the value, and the digest. Each prefix is the field's length as a
//! little-endian `u64`. Records follow one another with no index, header or
//! footer, so a file is parsed from its first byte onwards.
use vstd::prelude::*;
use vstd::utf8::{decode_utf8, encode_utf8, valid_utf8};

verus! {

broadcast use {vstd::utf8::encode_utf8_valid_utf8, vstd::utf8::encode_utf8_decode_utf8};

/// The eight little-endian bytes of `n`.
pub open spec fn le_bytes(n: u64) -> Seq<u8> {
    seq![
        (n & 0xff) as u8,
        ((n >> 8u64) & 0xff) as u8,
        ((n >> 16u64) & 0xff) as u8,
        ((n >> 24u64) & 0xff) as u8,
        ((n >> 32u64) & 0xff) as u8,
        ((n >> 40u64) & 0xff) as u8,
        ((n >> 48u64) & 0xff) as u8,
        ((n >> 56u64) & 0xff) as u8,
    ]
}

/// The `u64` whose little-endian bytes are the first eight of `b`.
pub open spec fn le_value(b: Seq<u8>) -> u64
    recommends
        b.len() >= 8,
{
    (b[0] as u64) | ((b[1] as u64) << 8u64) | ((b[2] as u64) << 16u64) | ((b[3] as u64) << 24u64)
        | ((b[4] as u64) << 32u64) | ((b[5] as u64) << 40u64) | ((b[6] as u64) << 48u64) | ((
    b[7] as u64) << 56u64)
}

pub proof fn lemma_le_round_trip(n: u64)
    ensures
        le_value(le_bytes(n)) == n,
{
    let b = le_bytes(n);
    assert(((n & 0xff) as u8 as u64) | ((((n >> 8u64) & 0xff) as u8 as u64) << 8u64) | ((((n
        >> 16u64) & 0xff) as u8 as u64) << 16u64) | ((((n >> 24u64) & 0xff) as u8 as u64)
        << 24u64) | ((((n >> 32u64) & 0xff) as u8 as u64) << 32u64) | ((((n >> 40u64) & 0xff)
        as u8 as u64) << 40u64) | ((((n >> 48u64) & 0xff) as u8 as u64) << 48u64) | ((((n
        >> 56u64) & 0xff) as u8 as u64) << 56u64) == n) by (bit_vector);
}

/// A field: its length as eight little-endian bytes, then its bytes.
pub open spec fn field(b: Seq<u8>) -> Seq<u8> {
    le_bytes(b.len() as u64) + b
}

/// Reads one field from the front of `data`: the field and what follows it,
/// or `None` when `data` is too short to hold it.
pub open spec fn parse_field(data: Seq<u8>) -> Option<(Seq<u8>, Seq<u8>)> {
    if data.len() < 8 {
        None
    } else {
        let n = le_value(data) as int;
        if 8 + n <= data.len() {
            Some((data.subrange(8, 8 + n), data.subrange(8 + n, data.len() as int)))
        } else {
            None
        }
    }
}

/// What a record says: its key, its value and its stored digest.
pub struct RecordView {
    pub key: Seq<char>,
    pub value: Seq<u8>,
    pub checksum: Seq<u8>,
}

/// The bytes that encode `r`.
pub open spec fn encode_record(r: RecordView) -> Seq<u8> {
    field(encode_utf8(r.key)) + field(r.value) + field(r.checksum)
}

/// Whether each field of `r` has a length that its prefix can hold.
pub open spec fn encodable(r: RecordView) -> bool {
    &&& encode_utf8(r.key).len() <= u64::MAX
    &&& r.value.len() <= u64::MAX
    &&& r.checksum.len() <= u64::MAX
}

/// Reads one record from the front of `data`: the record and what follows
/// it, or `None` when no complete record stands there (a field is cut short,
/// or the key is not UTF-8).
#[verifier::opaque]
pub open spec fn parse_record(data: Seq<u8>) -> Option<(RecordView, Seq<u8>)> {
    match parse_field(data) {
        None => None,
        Some((k, rest1)) => if !valid_utf8(k) {
            None
        } else {
            match parse_field(rest1) {
                None => None,
                Some((v, rest2)) => match parse_field(rest2) {
                    None => None,
                    Some((c, rest3)) => Some(
                        (RecordView { key: decode_utf8(k), value: v, checksum: c }, rest3),
                    ),
                },
            }
        },
    }
}

pub proof fn lemma_parse_record_shrinks(data: Seq<u8>)
    ensures
        parse_record(data) matches Some((_, rest)) ==> rest.len() < data.len(),
{
    reveal(parse_record);
}

/// The records that can be read back to back from the front of `data`,
/// stopping at the first place where no complete record stands.
pub open spec fn records(data: Seq<u8>) -> Seq<RecordView>
    decreases data.len(),
    via records_decreases
{
    match parse_record(data) {
        None => Seq::empty(),
        Some((r, rest)) => seq![r] + records(rest),
    }
}

#[via_fn]
proof fn records_decreases(data: Seq<u8>) {
    lemma_parse_record_shrinks(data);
}

/// A file written by appending the encodings of `recs`, in order.
pub open spec fn file_of(recs: Seq<RecordView>) -> Seq<u8>
    decreases recs.len(),
{
    if recs.len() == 0 {
        Seq::empty()
    } else {
        file_of(recs.drop_last()) + encode_record(recs.last())
    }
}

pub proof fn lemma_parse_field(b: Seq<u8>, rest: Seq<u8>)
    requires
        b.len() <= u64::MAX,
    ensures
        parse_field(field(b) + rest) == Some((b, rest)),
{
    let d = field(b) + rest;
    lemma_le_round_trip(b.len() as u64);
    assert(d.subrange(0, 8) =~= le_bytes(b.len() as u64));
    assert(le_value(d) == le_value(le_bytes(b.len() as u64)));
    assert(d.subrange(8, 8 + b.len() as int) =~= b);
    assert(d.subrange(8 + b.len() as int, d.len() as int) =~= rest);
}

/// Decoding the encoding of a record, whatever follows it, gives the record
/// back and leaves what follows.
pub proof fn lemma_parse_encoded(r: RecordView, rest: Seq<u8>)
    requires
        encodable(r),
    ensures
        parse_record(encode_record(r) + rest) == Some((r, rest)),
{
    reveal(parse_record);
    let kb = encode_utf8(r.key);
    let d = encode_record(r) + rest;
    assert(d =~= field(kb) + (field(r.value) + (field(r.checksum) + rest)));
    lemma_parse_field(kb, field(r.value) + (field(r.checksum) + rest));
    lemma_parse_field(r.value, field(r.checksum) + rest);
    lemma_parse_field(r.checksum, rest);
}

/// Reading a well-formed file followed by any bytes gives the file's records,
/// then those of what follows.
pub proof fn lemma_records_of_file(recs: Seq<RecordView>, tail: Seq<u8>)
    requires
        forall|i: int| 0 <= i < recs.len() ==> encodable(#[trigger] recs[i]),
    ensures
        records(file_of(recs) + tail) == recs + records(tail),
    decreases recs.len(),
{
    if recs.len() == 0 {
        assert(file_of(recs) + tail =~= tail);
        assert(recs + records(tail) =~= records(tail));
    } else {
        let r = recs[0];
        let others = recs.drop_first();
        lemma_file_of_front(recs);
        assert(forall|i: int| 0 <= i < others.len() ==> others[i] == recs[i + 1]);
        lemma_records_of_file(others, tail);
        let after = file_of(others) + tail;
        assert(file_of(recs) + tail =~= encode_record(r) + after);
        lemma_records_front(r, after);
        assert(recs =~= seq![r] + others);
        assert(recs + records(tail) =~= seq![r] + (others + records(tail)));
    }
}

/// Reading an encoded record followed by any bytes gives that record, then
/// the records of what follows.
pub proof fn lemma_records_front(r: RecordView, after: Seq<u8>)
    requires
        encodable(r),
    ensures
        records(encode_record(r) + after) == seq![r] + records(after),
{
    lemma_parse_encoded(r, after);
}

/// The file of a non-empty sequence starts with its first record.
pub proof fn lemma_file_of_front(recs: Seq<RecordView>)
    requires
        recs.len() > 0,
    ensures
        file_of(recs) == encode_record(recs[0]) + file_of(recs.drop_first()),
    decreases recs.len(),
{
    if recs.len() == 1 {
        assert(recs.drop_first() =~= Seq::<RecordView>::empty());
        assert(recs.drop_last() =~= Seq::<RecordView>::empty());
        assert(file_of(recs) =~= encode_record(recs[0]) + file_of(recs.drop_first()));
    } else {
        let init = recs.drop_last();
        lemma_file_of_front(init);
        assert(init.drop_first() =~= recs.drop_first().drop_last());
        assert(recs.drop_first().last() == recs.last());
        assert(file_of(recs) =~= encode_record(recs[0]) + file_of(recs.drop_first()));
    }
}


/// A stored entry: a key, a value, and the digest that was computed over
/// the value when it was written.
pub struct Record {
    pub key: String,
    pub value: Vec<u8>,
    pub checksum: Vec<u8>,
}

impl View for Record {
    type V = RecordView;

    open spec fn view(&self) -> RecordView {
        RecordView { key: self.key@, value: self.value@, checksum: self.checksum@ }
    }
}

/// Relies on `String::from_utf8`: it succeeds exactly when the bytes are valid
/// UTF-8, and then holds the characters they encode.
#[verifier::external_body]
fn string_from_utf8(bytes: Vec<u8>) -> (r: Option<String>)
    ensures
        r is Some <==> valid_utf8(bytes@),
        r matches Some(s) ==> s@ == decode_utf8(bytes@),
{
    String::from_utf8(bytes).ok()
}

fn push_u64_le(out: &mut Vec<u8>, n: u64)
    ensures
        final(out)@ == old(out)@ + le_bytes(n),
{
    out.push((n & 0xff) as u8);
    out.push(((n >> 8u64) & 0xff) as u8);
    out.push(((n >> 16u64) & 0xff) as u8);
    out.push(((n >> 24u64) & 0xff) as u8);
    out.push(((n >> 32u64) & 0xff) as u8);
    out.push(((n >> 40u64) & 0xff) as u8);
    out.push(((n >> 48u64) & 0xff) as u8);
    out.push(((n >> 56u64) & 0xff) as u8);
    assert(final(out)@ =~= old(out)@ + le_bytes(n));
}

/// Appends the bytes of `b` to `out`.
pub(crate) fn append_bytes(out: &mut Vec<u8>, b: &[u8])
    ensures
        final(out)@ == old(out)@ + b@,
{
    let mut i: usize = 0;
    while i < b.len()
        invariant
            i <= b.len(),
            out@ == old(out)@ + b@.subrange(0, i as int),
        decreases b.len() - i,
    {
        out.push(b[i]);
        i = i + 1;
        assert(b@.subrange(0, i as int) =~= b@.subrange(0, i - 1) + seq![b@[i - 1]]);
        assert(out@ =~= old(out)@ + b@.subrange(0, i as int));
    }
    assert(b@.subrange(0, i as int) =~= b@);
}

fn push_field(out: &mut Vec<u8>, b: &[u8])
    ensures
        final(out)@ == old(out)@ + field(b@),
{
    push_u64_le(out, b.len() as u64);
    append_bytes(out, b);
    assert(out@ =~= old(out)@ + field(b@));
}

fn read_u64_le(data: &[u8], pos: usize) -> (r: u64)
    requires
        pos + 8 <= data.len(),
    ensures
        r == le_value(data@.subrange(pos as int, data.len() as int)),
{
    let ghost s = data@.subrange(pos as int, data.len() as int);
    assert(s[0] == data@[pos as int] && s[1] == data@[pos + 1] && s[2] == data@[pos + 2]
        && s[3] == data@[pos + 3] && s[4] == data@[pos + 4] && s[5] == data@[pos + 5]
        && s[6] == data@[pos + 6] && s[7] == data@[pos + 7]);
    (data[pos] as u64) | ((data[pos + 1] as u64) << 8u64) | ((data[pos + 2] as u64) << 16u64)
        | ((data[pos + 3] as u64) << 24u64) | ((data[pos + 4] as u64) << 32u64) | ((data[pos
        + 5] as u64) << 40u64) | ((data[pos + 6] as u64) << 48u64) | ((data[pos + 7] as u64)
        << 56u64)
}

fn copy_range(data: &[u8], start: usize, end: usize) -> (r: Vec<u8>)
    requires
        start <= end <= data.len(),
    ensures
        r@ == data@.subrange(start as int, end as int),
{
    let mut out: Vec<u8> = Vec::new();
    let mut i: usize = start;
    while i < end
        invariant
            start <= i <= end <= data.len(),
            out@ == data@.subrange(start as int, i as int),
        decreases end - i,
    {
        out.push(data[i]);
        i = i + 1;
        assert(out@ =~= data@.subrange(start as int, i as int));
    }
    out
}

/// Reads the field that starts at `pos`: its bytes and the position after
/// it, exactly as `parse_field` reads the bytes from `pos` on.
fn read_field(data: &[u8], pos: usize) -> (r: Option<(Vec<u8>, usize)>)
    requires
        pos <= data.len(),
    ensures
        match parse_field(data@.subrange(pos as int, data.len() as int)) {
            None => r is None,
            Some((f, rest)) => r matches Some((b, next)) && b@ == f && next <= data.len()
                && rest == data@.subrange(next as int, data.len() as int),
        },
{
    let ghost s = data@.subrange(pos as int, data.len() as int);
    if data.len() - pos < 8 {
        return None;
    }
    let n = read_u64_le(data, pos);
    if n > (data.len() - pos - 8) as u64 {
        return None;
    }
    let start = pos + 8;
    let end = start + n as usize;
    let b = copy_range(data, start, end);
    assert(s.subrange(8, 8 + n) =~= data@.subrange(start as int, end as int));
    assert(s.subrange(8 + n, s.len() as int) =~= data@.subrange(end as int, data.len() as int));
    Some((b, end))
}

impl Record {
    /// The bytes that store this record.
    pub fn encode(&self) -> (r: Vec<u8>)
        ensures
            r@ == encode_record(self@),
    {
        let mut out: Vec<u8> = Vec::new();
        push_field(&mut out, self.key.as_str().as_bytes());
        push_field(&mut out, self.value.as_slice());
        push_field(&mut out, self.checksum.as_slice());
        assert(out@ =~= encode_record(self@));
        out
    }

    /// Reads the record that starts at `pos` in `data`, with the position
    /// just after it; `None` where no complete record stands there.
    pub fn decode_at(data: &[u8], pos: usize) -> (r: Option<(Record, usize)>)
        requires
            pos <= data.len(),
        ensures
            match parse_record(data@.subrange(pos as int, data.len() as int)) {
                None => r is None,
                Some((rec, rest)) => r matches Some((got, next)) && got@ == rec && pos < next
                    <= data.len() && rest == data@.subrange(next as int, data.len() as int),
            },
    {
        let ghost s = data@.subrange(pos as int, data.len() as int);
        proof {
            reveal(parse_record);
        }
        let (k, p1) = match read_field(data, pos) {
            None => return None,
            Some(x) => x,
        };
        let key = match string_from_utf8(k) {
            None => return None,
            Some(key) => key,
        };
        let (value, p2) = match read_field(data, p1) {
            None => return None,
            Some(x) => x,
        };
        let (checksum, p3) = match read_field(data, p2) {
            None => return None,
            Some(x) => x,
        };
        proof {
            lemma_parse_record_shrinks(s);
        }
        Some((Record { key, value, checksum }, p3))
    }
}

} // verus!
