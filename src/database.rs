//! The storage engine: an append-only file of records, read back by a scan
//! from the start in which the earliest intact record for a key wins.
//!
//! Opening, reading and appending to the file are left to the caller. This
//! module says which bytes an insert appends and what a lookup over the
//! file's bytes returns.
use vstd::prelude::*;
use crate::record::{append_bytes, encode_record, encodable, file_of, lemma_records_of_file, records, Record, RecordView};

verus! {

/// The SHA-256 digest of `data`.
pub uninterp spec fn sha256_of(data: Seq<u8>) -> Seq<u8>;

/// Relies on sha2's `Sha256::digest`: the SHA-256 digest of the bytes, which
/// depends on them alone and is 32 bytes long.
#[verifier::external_body]
fn sha256(data: &[u8]) -> (r: Vec<u8>)
    ensures
        r@ == sha256_of(data@),
        r@.len() == 32,
{
    <sha2::Sha256 as sha2::Digest>::digest(data).to_vec()
}

/// Whether `checksum` is the digest of `value`.
pub open spec fn checksum_matches(value: Seq<u8>, checksum: Seq<u8>) -> bool {
    sha256_of(value) == checksum
}

/// The record that an insert of `value` under `key` stores.
pub open spec fn stored(key: Seq<char>, value: Seq<u8>) -> RecordView {
    RecordView { key, value, checksum: sha256_of(value) }
}

/// The bytes that an insert of `value` under `key` appends to the file.
pub open spec fn insert_bytes(key: Seq<char>, value: Seq<u8>) -> Seq<u8> {
    encode_record(stored(key, value))
}

/// The value of the first record in `recs` that has `key` and an intact
/// digest.
pub open spec fn first_valid(recs: Seq<RecordView>, key: Seq<char>) -> Option<Seq<u8>>
    decreases recs.len(),
{
    if recs.len() == 0 {
        None
    } else if recs[0].key == key && checksum_matches(recs[0].value, recs[0].checksum) {
        Some(recs[0].value)
    } else {
        first_valid(recs.drop_first(), key)
    }
}

/// What a lookup of `key` returns on a file holding `data`.
pub open spec fn lookup(data: Seq<u8>, key: Seq<char>) -> Option<Seq<u8>> {
    first_valid(records(data), key)
}

fn bytes_equal(a: &[u8], b: &[u8]) -> (r: bool)
    ensures
        r == (a@ == b@),
{
    if a.len() != b.len() {
        return false;
    }
    let mut i: usize = 0;
    while i < a.len()
        invariant
            a.len() == b.len(),
            i <= a.len(),
            a@.subrange(0, i as int) == b@.subrange(0, i as int),
        decreases a.len() - i,
    {
        if a[i] != b[i] {
            assert(a@[i as int] != b@[i as int]);
            return false;
        }
        i = i + 1;
        assert(a@.subrange(0, i as int) =~= a@.subrange(0, i - 1) + seq![a@[i - 1]]);
        assert(b@.subrange(0, i as int) =~= b@.subrange(0, i - 1) + seq![b@[i - 1]]);
    }
    assert(a@ =~= a@.subrange(0, i as int));
    assert(b@ =~= b@.subrange(0, i as int));
    true
}

/// A handle on one data file, named by its path.
pub struct Database {
    file_path: String,
}

impl Database {
    /// The path of the data file.
    pub closed spec fn path(&self) -> Seq<char> {
        self.file_path@
    }

    pub fn new(file_path: String) -> (r: Database)
        ensures
            r.path() == file_path@,
    {
        Database { file_path }
    }

    pub fn file_path(&self) -> (r: &str)
        ensures
            r@ == self.path(),
    {
        self.file_path.as_str()
    }

    /// The digest stored beside `data`.
    pub fn generate_checksum(&self, data: &[u8]) -> (r: Vec<u8>)
        ensures
            r@ == sha256_of(data@),
            r@.len() == 32,
    {
        sha256(data)
    }

    /// Whether `checksum` is the digest of `data`.
    pub fn validate_checksum(&self, data: &[u8], checksum: &[u8]) -> (r: bool)
        ensures
            r == checksum_matches(data@, checksum@),
    {
        let digest = self.generate_checksum(data);
        bytes_equal(digest.as_slice(), checksum)
    }

    /// The bytes that an insert of `value` under `key` appends to the file,
    /// in one write.
    pub fn encode_insert(&self, key: &str, value: &[u8]) -> (r: Vec<u8>)
        ensures
            r@ == insert_bytes(key@, value@),
    {
        let checksum = self.generate_checksum(value);
        let mut v: Vec<u8> = Vec::new();
        append_bytes(&mut v, value);
        let record = Record { key: key.to_owned(), value: v, checksum };
        record.encode()
    }

    /// The value stored under `key` in a file holding `data`: the value of
    /// the first record, in file order, with that key and an intact digest.
    /// Records whose digest does not match are passed over; the scan stops
    /// at the first place where no complete record stands.
    pub fn lookup(&self, data: &[u8], key: &str) -> (r: Option<Vec<u8>>)
        ensures
            r matches Some(v) ==> lookup(data@, key@) == Some(v@),
            r is None ==> lookup(data@, key@) is None,
    {
        let mut pos: usize = 0;
        assert(data@.subrange(0, data.len() as int) =~= data@);
        loop
            invariant
                pos <= data.len(),
                lookup(data@, key@) == first_valid(
                    records(data@.subrange(pos as int, data.len() as int)),
                    key@,
                ),
            decreases data.len() - pos,
        {
            let ghost s = data@.subrange(pos as int, data.len() as int);
            match Record::decode_at(data, pos) {
                None => {
                    return None;
                },
                Some((rec, next)) => {
                    let ghost rest = data@.subrange(next as int, data.len() as int);
                    assert(records(s) == seq![rec@] + records(rest));
                    assert((seq![rec@] + records(rest)).drop_first() =~= records(rest));
                    let same_key = bytes_equal(rec.key.as_str().as_bytes(), key.as_bytes());
                    proof {
                        if rec.key@ == key@ {
                            assert(same_key);
                        }
                        if same_key {
                            vstd::utf8::encode_utf8_decode_utf8(rec.key@);
                            vstd::utf8::encode_utf8_decode_utf8(key@);
                        }
                    }
                    if same_key && self.validate_checksum(rec.value.as_slice(), rec.checksum.as_slice()) {
                        return Some(rec.value);
                    }
                    pos = next;
                },
            }
        }
    }
}


/// Skipping records that do not have `key` leaves the answer to the ones after.
proof fn lemma_first_valid_skip(recs: Seq<RecordView>, more: Seq<RecordView>, key: Seq<char>)
    requires
        forall|i: int| 0 <= i < recs.len() ==> (#[trigger] recs[i]).key != key,
    ensures
        first_valid(recs + more, key) == first_valid(more, key),
    decreases recs.len(),
{
    if recs.len() > 0 {
        let tail = recs.drop_first();
        assert((recs + more)[0] == recs[0]);
        assert((recs + more).drop_first() =~= tail + more);
        assert(forall|i: int| 0 <= i < tail.len() ==> tail[i] == recs[i + 1]);
        lemma_first_valid_skip(tail, more, key);
    } else {
        assert(recs + more =~= more);
    }
}

/// A record that does not have `key`, added at the end, leaves the answer
/// for `key` as it was.
proof fn lemma_first_valid_push_other(recs: Seq<RecordView>, r: RecordView, key: Seq<char>)
    requires
        r.key != key,
    ensures
        first_valid(recs.push(r), key) == first_valid(recs, key),
    decreases recs.len(),
{
    assert(recs.push(r)[recs.len() as int] == r);
    if recs.len() > 0 {
        assert(recs.push(r)[0] == recs[0]);
        assert(recs.push(r).drop_first() =~= recs.drop_first().push(r));
        lemma_first_valid_push_other(recs.drop_first(), r, key);
    } else {
        assert(recs.push(r).drop_first() =~= Seq::<RecordView>::empty());
    }
}

/// Reading back a file written record by record gives those records.
proof fn lemma_records_of_whole_file(recs: Seq<RecordView>)
    requires
        forall|i: int| 0 <= i < recs.len() ==> encodable(#[trigger] recs[i]),
    ensures
        records(file_of(recs)) == recs,
{
    lemma_records_of_file(recs, Seq::empty());
    assert(file_of(recs) + Seq::<u8>::empty() =~= file_of(recs));
    assert(records(Seq::<u8>::empty()) =~= Seq::<RecordView>::empty()) by {
        reveal(crate::record::parse_record);
    }
    assert(recs + Seq::<RecordView>::empty() =~= recs);
}

/// A value is accepted against its own digest.
pub proof fn lemma_digest_verifies(v: Seq<u8>)
    ensures
        checksum_matches(v, sha256_of(v)),
{
}

/// A lookup of a key that no record in the file has finds nothing.
pub proof fn lemma_absent_key(data: Seq<u8>, key: Seq<char>)
    requires
        forall|i: int| 0 <= i < records(data).len() ==> (#[trigger] records(data)[i]).key != key,
    ensures
        lookup(data, key) is None,
{
    lemma_first_valid_skip(records(data), Seq::empty(), key);
    assert(records(data) + Seq::<RecordView>::empty() =~= records(data));
}

/// On a file of whole records none of which has `key`, inserting `value`
/// under `key` and then looking `key` up gives `value`.
pub proof fn lemma_insert_then_lookup(recs: Seq<RecordView>, key: Seq<char>, value: Seq<u8>)
    requires
        forall|i: int| 0 <= i < recs.len() ==> encodable(#[trigger] recs[i]),
        forall|i: int| 0 <= i < recs.len() ==> (#[trigger] recs[i]).key != key,
        encodable(stored(key, value)),
    ensures
        lookup(file_of(recs) + insert_bytes(key, value), key) == Some(value),
{
    let all = recs.push(stored(key, value));
    assert(all.drop_last() =~= recs);
    assert(forall|i: int| 0 <= i < all.len() ==> encodable(#[trigger] all[i]));
    lemma_records_of_whole_file(all);
    assert(recs + seq![stored(key, value)] =~= all);
    lemma_first_valid_skip(recs, seq![stored(key, value)], key);
    assert(seq![stored(key, value)].drop_first() =~= Seq::<RecordView>::empty());
}

/// Two inserts under one key, on a file with no record for it: a lookup
/// gives the value of the first insert.
pub proof fn lemma_earliest_insert_wins(
    recs: Seq<RecordView>,
    key: Seq<char>,
    first: Seq<u8>,
    second: Seq<u8>,
)
    requires
        forall|i: int| 0 <= i < recs.len() ==> encodable(#[trigger] recs[i]),
        forall|i: int| 0 <= i < recs.len() ==> (#[trigger] recs[i]).key != key,
        encodable(stored(key, first)),
        encodable(stored(key, second)),
    ensures
        lookup(file_of(recs) + insert_bytes(key, first) + insert_bytes(key, second), key)
            == Some(first),
{
    let a = stored(key, first);
    let b = stored(key, second);
    let all = recs.push(a).push(b);
    assert(all.drop_last() =~= recs.push(a));
    assert(all.drop_last().drop_last() =~= recs);
    assert(forall|i: int| 0 <= i < all.len() ==> encodable(#[trigger] all[i]));
    assert(file_of(all) == file_of(recs.push(a)) + encode_record(b));
    assert(file_of(recs.push(a)) == file_of(recs) + encode_record(a));
    lemma_records_of_whole_file(all);
    assert(recs + seq![a, b] =~= all);
    lemma_first_valid_skip(recs, seq![a, b], key);
    assert(seq![a, b][0] == a);
}

/// A file whose only record for `key` has a digest that does not match its
/// value: a lookup of `key` finds nothing, and fails no other way.
pub proof fn lemma_corrupt_digest_hidden(recs: Seq<RecordView>, j: int, key: Seq<char>)
    requires
        forall|i: int| 0 <= i < recs.len() ==> encodable(#[trigger] recs[i]),
        0 <= j < recs.len(),
        recs[j].key == key,
        !checksum_matches(recs[j].value, recs[j].checksum),
        forall|i: int| 0 <= i < recs.len() && i != j ==> (#[trigger] recs[i]).key != key,
    ensures
        lookup(file_of(recs), key) is None,
{
    lemma_records_of_whole_file(recs);
    let before = recs.subrange(0, j);
    let after = recs.subrange(j + 1, recs.len() as int);
    assert(recs =~= before + (seq![recs[j]] + after));
    assert(forall|i: int| 0 <= i < before.len() ==> before[i] == recs[i]);
    assert(forall|i: int| 0 <= i < after.len() ==> after[i] == recs[j + 1 + i]);
    lemma_first_valid_skip(before, seq![recs[j]] + after, key);
    assert((seq![recs[j]] + after).drop_first() =~= after);
    lemma_first_valid_skip(after, Seq::empty(), key);
    assert(after + Seq::<RecordView>::empty() =~= after);
}

/// Inserting under another key leaves what a lookup of `key` gives on a
/// file of whole records.
pub proof fn lemma_unrelated_insert(
    recs: Seq<RecordView>,
    key: Seq<char>,
    other: Seq<char>,
    value: Seq<u8>,
)
    requires
        forall|i: int| 0 <= i < recs.len() ==> encodable(#[trigger] recs[i]),
        encodable(stored(other, value)),
        other != key,
    ensures
        lookup(file_of(recs) + insert_bytes(other, value), key) == lookup(file_of(recs), key),
{
    let all = recs.push(stored(other, value));
    assert(all.drop_last() =~= recs);
    assert(forall|i: int| 0 <= i < all.len() ==> encodable(#[trigger] all[i]));
    lemma_records_of_whole_file(all);
    lemma_records_of_whole_file(recs);
    lemma_first_valid_push_other(recs, stored(other, value), key);
}

} // verus!
