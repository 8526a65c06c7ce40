//! The tag table of a read record, as plain values, and the extraction of
//! one tag's text from it.

use vstd::prelude::*;
use vstd::utf8::{decode_utf8, valid_utf8};

verus! {

/// The payload of one tag entry, as far as routing is concerned.
pub enum TagPayload {
    /// A textual payload (SAM types `Z` and `H`), as its raw bytes.
    Text(Vec<u8>),
    /// Any other payload type (character, number, array).
    Other,
}

/// One entry of a record's tag table.
pub struct TagEntry {
    pub key: [u8; 2],
    pub payload: TagPayload,
}

/// The tag table of one read record, in table order.
pub struct TagRecord {
    pub tags: Vec<TagEntry>,
}

/// A tag whose payload is declared textual holds bytes that are not UTF-8.
#[derive(Debug, Clone, Copy, PartialEq, Eq, Structural)]
pub enum TagError {
    InvalidText,
}

/// The two keys are the same two bytes.
pub open spec fn same_key(a: [u8; 2], b: [u8; 2]) -> bool {
    a@[0] == b@[0] && a@[1] == b@[1]
}

/// Position of the first entry at or after `from` whose key is `key`.
pub open spec fn first_key_index(tags: Seq<TagEntry>, key: [u8; 2], from: int) -> Option<int>
    decreases tags.len() - from,
{
    if from < 0 || from >= tags.len() {
        None
    } else if same_key(tags[from].key, key) {
        Some(from)
    } else {
        first_key_index(tags, key, from + 1)
    }
}

/// The text a tag table holds under `key`: decided by the first entry with
/// that key alone. A non-textual payload gives no value; a textual payload
/// that is not UTF-8 is an error.
pub open spec fn tag_value_of(tags: Seq<TagEntry>, key: [u8; 2]) -> Result<Option<Seq<char>>, TagError> {
    match first_key_index(tags, key, 0) {
        None => Ok(None),
        Some(i) => match tags[i].payload {
            TagPayload::Text(bytes) => if valid_utf8(bytes@) {
                Ok(Some(decode_utf8(bytes@)))
            } else {
                Err(TagError::InvalidText)
            },
            TagPayload::Other => Ok(None),
        },
    }
}

/// An extraction result with the text as its characters.
pub open spec fn text_result_view(r: Result<Option<String>, TagError>) -> Result<Option<Seq<char>>, TagError> {
    match r {
        Ok(Some(s)) => Ok(Some(s@)),
        Ok(None) => Ok(None),
        Err(e) => Err(e),
    }
}

/// Relies on `String::from_utf8`: it succeeds exactly on valid UTF-8, and
/// then holds the characters that the bytes encode.
#[verifier::external_body]
fn decode_text(bytes: &[u8]) -> (r: Option<String>)
    ensures
        r.is_some() == valid_utf8(bytes@),
        r matches Some(s) ==> s@ == decode_utf8(bytes@),
{
    String::from_utf8(bytes.to_vec()).ok()
}

/// The value of tag `tag` in `record`, read from the first entry with that key.
pub fn get_tag_value(record: &TagRecord, tag: &[u8; 2]) -> (r: Result<Option<String>, TagError>)
    ensures
        text_result_view(r) == tag_value_of(record.tags@, *tag),
{
    let mut i: usize = 0;
    while i < record.tags.len()
        invariant
            i <= record.tags@.len(),
            first_key_index(record.tags@, *tag, 0) == first_key_index(record.tags@, *tag, i as int),
        decreases record.tags@.len() - i,
    {
        let entry = &record.tags[i];
        if entry.key[0] == tag[0] && entry.key[1] == tag[1] {
            return match &entry.payload {
                TagPayload::Text(bytes) => match decode_text(bytes.as_slice()) {
                    Some(s) => Ok(Some(s)),
                    None => Err(TagError::InvalidText),
                },
                TagPayload::Other => Ok(None),
            };
        }
        i += 1;
    }
    Ok(None)
}

/// Where entry `i` of a raw tag table starts: the sum of the lengths before it.
pub open spec fn tag_start(lengths: Seq<u32>, i: int) -> int
    decreases i,
{
    if i <= 0 {
        0
    } else {
        tag_start(lengths, i - 1) + lengths[i - 1]
    }
}

/// Entry `i` of a raw tag table is complete: it holds at least a key and a
/// type byte, and it lies within the bytes.
pub open spec fn entry_fits(raw: Seq<u8>, lengths: Seq<u32>, i: int) -> bool {
    &&& 0 <= i < lengths.len()
    &&& lengths[i] >= 3
    &&& tag_start(lengths, i) + lengths[i] <= raw.len()
}

/// The type letters of textual payloads: `Z` (string) and `H` (hex string).
pub open spec fn is_text_type(ty: u8) -> bool {
    ty == 90u8 || ty == 72u8
}

/// `e` is the entry that `len` raw bytes at `start` encode: two key bytes,
/// a type byte, then the value, which for text ends with a NUL that is not
/// part of the text.
pub open spec fn entry_encodes(raw: Seq<u8>, start: int, len: int, e: TagEntry) -> bool {
    &&& e.key@[0] == raw[start]
    &&& e.key@[1] == raw[start + 1]
    &&& if is_text_type(raw[start + 2]) {
        e.payload matches TagPayload::Text(bytes) && bytes@ == if len >= 4 {
            raw.subrange(start + 3, start + len - 1)
        } else {
            Seq::<u8>::empty()
        }
    } else {
        e.payload is Other
    }
}

/// Entry `k` of a raw tag table is complete and encodes `e`.
pub open spec fn entry_parsed(raw: Seq<u8>, lengths: Seq<u32>, k: int, e: TagEntry) -> bool {
    entry_fits(raw, lengths, k) && entry_encodes(raw, tag_start(lengths, k), lengths[k] as int, e)
}

/// `tags` is the tag table of the raw bytes `raw`, cut into entries by
/// `lengths`: one entry for each complete entry, up to the first one that is not.
pub open spec fn tag_table_parses(raw: Seq<u8>, lengths: Seq<u32>, tags: Seq<TagEntry>) -> bool {
    &&& tags.len() <= lengths.len()
    &&& forall|i: int| 0 <= i < tags.len() ==> entry_parsed(raw, lengths, i, #[trigger] tags[i])
    &&& tags.len() < lengths.len() ==> !entry_fits(raw, lengths, tags.len() as int)
}

/// The bytes of `raw` from `from` up to `to`.
fn copy_range(raw: &[u8], from: usize, to: usize) -> (r: Vec<u8>)
    requires
        from <= to <= raw@.len(),
    ensures
        r@ == raw@.subrange(from as int, to as int),
{
    let mut r: Vec<u8> = Vec::with_capacity(to - from);
    let mut k: usize = from;
    while k < to
        invariant
            from <= k <= to <= raw@.len(),
            r@ == raw@.subrange(from as int, k as int),
        decreases to - k,
    {
        r.push(raw[k]);
        assert(raw@.subrange(from as int, k + 1) =~= raw@.subrange(from as int, k as int).push(raw@[k as int]));
        k += 1;
    }
    r
}

/// The tag table held in the raw bytes `raw` of a record, cut into entries
/// by `lengths` (each the full length of an entry, key and type included).
/// Cutting stops at the first entry that is incomplete.
pub fn tag_table_of(raw: &[u8], lengths: &[u32]) -> (r: TagRecord)
    ensures
        tag_table_parses(raw@, lengths@, r.tags@),
{
    let mut tags: Vec<TagEntry> = Vec::new();
    let mut start: usize = 0;
    let mut i: usize = 0;
    let mut fits = true;
    while fits && i < lengths.len()
        invariant
            i == tags@.len(),
            i <= lengths@.len(),
            start == tag_start(lengths@, i as int),
            start <= raw@.len(),
            forall|k: int| 0 <= k < tags@.len() ==> entry_parsed(raw@, lengths@, k, #[trigger] tags@[k]),
            !fits ==> i < lengths@.len() && !entry_fits(raw@, lengths@, i as int),
        decreases lengths@.len() - i + if fits { 1int } else { 0int },
    {
        let len = lengths[i] as usize;
        if len < 3 || len > raw.len() - start {
            fits = false;
        } else {
            let end = start + len;
            let ty = raw[start + 2];
            let payload = if ty == 90u8 || ty == 72u8 {
                if len >= 4 {
                    TagPayload::Text(copy_range(raw, start + 3, end - 1))
                } else {
                    TagPayload::Text(Vec::new())
                }
            } else {
                TagPayload::Other
            };
            let entry = TagEntry { key: [raw[start], raw[start + 1]], payload };
            let ghost prev = tags@;
            proof {
                assert(entry_fits(raw@, lengths@, i as int));
                assert(entry_encodes(raw@, start as int, len as int, entry));
            }
            tags.push(entry);
            proof {
                assert forall|k: int| 0 <= k < tags@.len() implies entry_parsed(raw@, lengths@, k, #[trigger] tags@[k]) by {
                    if k < i {
                        assert(tags@[k] == prev[k]);
                    } else {
                        assert(k == i);
                        assert(tags@[k] == entry);
                        assert(tag_start(lengths@, k) == start);
                        assert(lengths@[k] as int == len as int);
                    }
                }
            }
            start = end;
            i += 1;
        }
    }
    TagRecord { tags }
}

#[verifier::external_type_specification]
#[verifier::external_body]
pub struct ExBamRecord(bam::Record);

/// Relies on `bam::record::tags::TagViewer::raw`, a plain getter: the raw
/// bytes of the record's tags. The record is opaque here, so nothing is stated.
#[verifier::external_body]
fn bam_raw_tags(record: &bam::Record) -> (r: Vec<u8>) {
    record.tags().raw().to_vec()
}

/// Relies on `bam::record::tags::TagViewer::raw_lengths`, a plain getter: the
/// full length of each tag entry in the raw bytes. Nothing is stated.
#[verifier::external_body]
fn bam_tag_lengths(record: &bam::Record) -> (r: Vec<u32>) {
    record.tags().raw_lengths().to_vec()
}

impl TagRecord {
    /// The tag table of a record of the `bam` crate, cut from its raw tag
    /// bytes and entry lengths as `tag_table_of` does.
    pub fn from_bam(record: &bam::Record) -> (r: TagRecord)
        ensures
            exists|raw: Seq<u8>, lengths: Seq<u32>| tag_table_parses(raw, lengths, r.tags@),
    {
        let raw = bam_raw_tags(record);
        let lengths = bam_tag_lengths(record);
        let r = tag_table_of(raw.as_slice(), lengths.as_slice());
        assert(tag_table_parses(raw@, lengths@, r.tags@));
        r
    }
}

} // verus!
