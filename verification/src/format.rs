//! The byte-level model of the two container formats.
//!
//! A container is, in order: a four-byte little-endian entry count, the
//! offset table (eight bytes per entry), and the payload region. A `Pak`
//! container additionally holds, between the offset table and the payloads,
//! a filename offset table (four bytes per entry), the filename blob, and
//! zero padding up to the next four-byte boundary.
//!
//! `pack_spec` says exactly which bytes the encoder produces; `entry_spec`
//! and `entries_spec` say exactly which entries the decoder reads out of a
//! given byte stream. The round-trip lemmas relate the two.

use vstd::prelude::*;

verus! {

use crate::bytes::{le16_at, le32_at, u32_bytes};
use crate::{ArchiveError, ArchiveType};

/// One entry as the encoder holds it: an optional filename and the payload
/// bytes as they will be stored (already compressed).
pub ghost struct EntryModel {
    pub name: Option<Seq<u8>>,
    pub payload: Seq<u8>,
}

/// One entry as the decoder reports it.
pub ghost struct FileEntryV {
    pub name: Option<Seq<u8>>,
    pub offset: u32,
    pub size: u32,
    pub payload: Seq<u8>,
    pub ty: ArchiveType,
}

// ---------------------------------------------------------------------------
// Encoding
// ---------------------------------------------------------------------------
/// Length of the fixed-size tables at the head of the stream: count plus
/// offset table, plus the filename offset table for `Pak`.
pub open spec fn table_region_len(ty: ArchiveType, n: int) -> int {
    if ty == ArchiveType::Pak {
        4 + 12 * n
    } else {
        4 + 8 * n
    }
}

/// A stored filename cell: the name followed by a newline and a NUL.
pub open spec fn name_cell(name: Seq<u8>) -> Seq<u8> {
    name + seq![10u8, 0u8]
}

/// The filename blob: the name cells of all entries, in order.
pub open spec fn blob(es: Seq<EntryModel>) -> Seq<u8>
    decreases es.len(),
{
    if es.len() == 0 {
        Seq::empty()
    } else {
        blob(es.drop_last()) + name_cell(es.last().name.unwrap())
    }
}

/// What the filename region holds: a single shared empty cell (one zero
/// `u32`) when filenames are suppressed, else the blob of all names.
pub open spec fn name_region(es: Seq<EntryModel>, no_filenames: bool) -> Seq<u8> {
    if no_filenames {
        u32_bytes(0)
    } else {
        blob(es)
    }
}

/// Zero bytes needed after position `pos` to reach a four-byte boundary.
pub open spec fn pad_len(pos: int) -> int {
    (4 - (pos % 4)) % 4
}

/// Total length of the payloads of `es`.
pub open spec fn psum(es: Seq<EntryModel>) -> int
    decreases es.len(),
{
    if es.len() == 0 {
        0
    } else {
        psum(es.drop_last()) + es.last().payload.len()
    }
}

/// The payload region: every payload, in order.
pub open spec fn payload_region(es: Seq<EntryModel>) -> Seq<u8>
    decreases es.len(),
{
    if es.len() == 0 {
        Seq::empty()
    } else {
        payload_region(es.drop_last()) + es.last().payload
    }
}

/// Absolute position where the payload region starts. For `Pak` this is the
/// end of the filename region rounded up to a four-byte boundary; for `Kub`
/// the tables end there directly (their length is already a multiple of 4).
pub open spec fn payload_base(ty: ArchiveType, es: Seq<EntryModel>, no_filenames: bool) -> int {
    let t: int = table_region_len(ty, es.len() as int);
    if ty == ArchiveType::Pak {
        let e: int = t + name_region(es, no_filenames).len();
        e + pad_len(e)
    } else {
        t
    }
}

/// Absolute position of entry `i`'s payload.
pub open spec fn entry_offset(
    ty: ArchiveType,
    es: Seq<EntryModel>,
    no_filenames: bool,
    i: int,
) -> int {
    payload_base(ty, es, no_filenames) + psum(es.take(i))
}

/// Total length of the packed stream.
pub open spec fn stream_len(ty: ArchiveType, es: Seq<EntryModel>, no_filenames: bool) -> int {
    payload_base(ty, es, no_filenames) + psum(es)
}

/// Every position in the stream must be addressable by a `u32`.
pub open spec fn pack_fits(ty: ArchiveType, es: Seq<EntryModel>, no_filenames: bool) -> bool {
    stream_len(ty, es, no_filenames) <= 0xFFFFFFFF
}

/// The offset table: for each entry, its absolute payload position and its
/// payload length, both as little-endian `u32`s. `base` is where the payload
/// region starts.
pub open spec fn otable(es: Seq<EntryModel>, base: int) -> Seq<u8>
    decreases es.len(),
{
    if es.len() == 0 {
        Seq::empty()
    } else {
        otable(es.drop_last(), base) + u32_bytes((base + psum(es.drop_last())) as u32) + u32_bytes(
            es.last().payload.len() as u32,
        )
    }
}

/// The filename offset table: for each entry, the absolute position of its
/// name cell inside the blob that starts at `base`.
pub open spec fn ntable(es: Seq<EntryModel>, base: int) -> Seq<u8>
    decreases es.len(),
{
    if es.len() == 0 {
        Seq::empty()
    } else {
        ntable(es.drop_last(), base) + u32_bytes((base + blob(es.drop_last()).len()) as u32)
    }
}

/// A filename offset table whose every record holds the same position: used
/// when filenames are suppressed.
pub open spec fn const_table(n: int, off: u32) -> Seq<u8>
    decreases n,
{
    if n <= 0 {
        Seq::empty()
    } else {
        const_table(n - 1, off) + u32_bytes(off)
    }
}

/// `k` zero bytes.
pub open spec fn zeros(k: int) -> Seq<u8> {
    Seq::new(k as nat, |i: int| 0u8)
}

/// The complete packed stream for entries `es` of container type `ty`.
pub open spec fn pack_spec(ty: ArchiveType, es: Seq<EntryModel>, no_filenames: bool) -> Seq<u8> {
    let n: int = es.len() as int;
    let pb: int = payload_base(ty, es, no_filenames);
    let head: Seq<u8> = u32_bytes(n as u32) + otable(es, pb);
    if ty == ArchiveType::Pak {
        let blob_base: int = 4 + 12 * n;
        let names: Seq<u8> = if no_filenames {
            const_table(n, blob_base as u32)
        } else {
            ntable(es, blob_base)
        };
        let region: Seq<u8> = name_region(es, no_filenames);
        head + names + region + zeros(pad_len(blob_base + region.len())) + payload_region(es)
    } else {
        head + payload_region(es)
    }
}

// ---------------------------------------------------------------------------
// Decoding
// ---------------------------------------------------------------------------
/// How the container type is determined: read the entry count, reject an
/// empty archive, then read the first entry's offset and inspect the two
/// bytes there. The canonical zlib header `0x78 0x9C` (little-endian
/// `0x9C78`) means `Pak`; a zero word means `Kub`; anything else is refused.
/// This sniff is a heuristic of the format, not a tag: the stored bytes are
/// simply the first payload's first two bytes.
pub open spec fn sniff_spec(data: Seq<u8>) -> Result<ArchiveType, ArchiveError> {
    if data.len() < 4 {
        Err(ArchiveError::Bounds)
    } else if le32_at(data, 0) == 0 {
        Err(ArchiveError::Format)
    } else if data.len() < 8 {
        Err(ArchiveError::Bounds)
    } else {
        let off: int = le32_at(data, 4);
        if off + 2 > data.len() {
            Err(ArchiveError::Bounds)
        } else if le16_at(data, off) == 0x9C78 {
            Ok(ArchiveType::Pak)
        } else if le16_at(data, off) == 0 {
            Ok(ArchiveType::Kub)
        } else {
            Err(ArchiveError::Format)
        }
    }
}

/// A byte that ends a stored filename: NUL or newline.
pub open spec fn is_term(b: u8) -> bool {
    b == 0 || b == 10
}

/// An ASCII whitespace byte, as trimmed from the end of a decoded name.
pub open spec fn is_ws(b: u8) -> bool {
    b == 0x09 || b == 0x0a || b == 0x0b || b == 0x0c || b == 0x0d || b == 0x20
}

/// Position of the first name terminator at or after `from`; the end of the
/// stream if there is none.
pub open spec fn term_idx(data: Seq<u8>, from: int) -> int
    decreases data.len() - from,
{
    if from < 0 || from >= data.len() {
        data.len() as int
    } else if is_term(data[from]) {
        from
    } else {
        term_idx(data, from + 1)
    }
}

/// `s` with every trailing whitespace byte removed.
pub open spec fn trim_ws_end(s: Seq<u8>) -> Seq<u8>
    decreases s.len(),
{
    if s.len() == 0 {
        s
    } else if is_ws(s.last()) {
        trim_ws_end(s.drop_last())
    } else {
        s
    }
}

/// The filename stored at position `at`: the bytes up to the first NUL or
/// newline, with trailing whitespace removed.
pub open spec fn parse_name(data: Seq<u8>, at: int) -> Seq<u8> {
    trim_ws_end(data.subrange(at, term_idx(data, at)))
}

/// The decoder's reading of entry `i` of `n`: `None` when any field or the
/// payload would lie beyond the end of the stream.
pub open spec fn entry_spec(data: Seq<u8>, ty: ArchiveType, n: int, i: int) -> Option<FileEntryV> {
    if 4 + 8 * i + 8 > data.len() {
        None
    } else {
        let off: int = le32_at(data, 4 + 8 * i);
        let size: int = le32_at(data, 4 + 8 * i + 4);
        if ty == ArchiveType::Pak {
            if 4 + 8 * n + 4 * i + 4 > data.len() {
                None
            } else {
                let noff: int = le32_at(data, 4 + 8 * n + 4 * i);
                if noff > data.len() {
                    None
                } else if off + size > data.len() {
                    None
                } else {
                    Some(
                        FileEntryV {
                            name: Some(parse_name(data, noff)),
                            offset: off as u32,
                            size: size as u32,
                            payload: data.subrange(off, off + size),
                            ty,
                        },
                    )
                }
            }
        } else {
            if off + size > data.len() {
                None
            } else {
                Some(
                    FileEntryV {
                        name: None,
                        offset: off as u32,
                        size: size as u32,
                        payload: data.subrange(off, off + size),
                        ty,
                    },
                )
            }
        }
    }
}

/// The first `k` entries of `n`, or `None` if any of them fails to parse.
pub open spec fn entries_spec(data: Seq<u8>, ty: ArchiveType, n: int, k: int) -> Option<
    Seq<FileEntryV>,
>
    decreases k,
{
    if k <= 0 {
        Some(Seq::empty())
    } else {
        match entries_spec(data, ty, n, k - 1) {
            None => None,
            Some(s) => match entry_spec(data, ty, n, k - 1) {
                None => None,
                Some(e) => Some(s.push(e)),
            },
        }
    }
}

// ---------------------------------------------------------------------------
// Helper lemmas on the model
// ---------------------------------------------------------------------------
/// Splitting one element off the end of a prefix.
pub proof fn lemma_take_succ<T>(es: Seq<T>, i: int)
    requires
        0 <= i < es.len(),
    ensures
        es.take(i + 1).drop_last() == es.take(i),
        es.take(i + 1).last() == es[i],
{
    assert(es.take(i + 1).drop_last() =~= es.take(i));
}

/// Taking the whole sequence changes nothing.
pub proof fn lemma_take_all<T>(es: Seq<T>)
    ensures
        es.take(es.len() as int) == es,
{
    assert(es.take(es.len() as int) =~= es);
}

pub proof fn lemma_otable_len(es: Seq<EntryModel>, base: int)
    ensures
        otable(es, base).len() == 8 * es.len(),
    decreases es.len(),
{
    if es.len() > 0 {
        lemma_otable_len(es.drop_last(), base);
    }
}

pub proof fn lemma_ntable_len(es: Seq<EntryModel>, base: int)
    ensures
        ntable(es, base).len() == 4 * es.len(),
    decreases es.len(),
{
    if es.len() > 0 {
        lemma_ntable_len(es.drop_last(), base);
    }
}

pub proof fn lemma_const_table_len(n: int, off: u32)
    ensures
        const_table(n, off).len() == if n <= 0 {
            0int
        } else {
            4 * n
        },
    decreases n,
{
    if n > 0 {
        lemma_const_table_len(n - 1, off);
    }
}

pub proof fn lemma_payload_region_len(es: Seq<EntryModel>)
    ensures
        payload_region(es).len() == psum(es),
        psum(es) >= 0,
    decreases es.len(),
{
    if es.len() > 0 {
        lemma_payload_region_len(es.drop_last());
    }
}

/// Payload totals only grow along a prefix.
pub proof fn lemma_psum_take_le(es: Seq<EntryModel>, i: int)
    requires
        0 <= i <= es.len(),
    ensures
        psum(es.take(i)) <= psum(es),
        psum(es.take(i)) >= 0,
    decreases es.len() - i,
{
    lemma_payload_region_len(es.take(i));
    if i < es.len() {
        lemma_take_succ(es, i);
        lemma_psum_take_le(es, i + 1);
    } else {
        lemma_take_all(es);
    }
}

/// A filename that survives storage unchanged: no terminator byte inside it
/// and no trailing whitespace.
pub open spec fn name_ok(s: Seq<u8>) -> bool {
    (forall|j: int| 0 <= j < s.len() ==> !is_term(s[j])) && trim_ws_end(s) == s
}

/// What characterizes the position of the first name terminator.
pub proof fn lemma_term_idx_char(data: Seq<u8>, from: int, j: int)
    requires
        0 <= from <= j <= data.len(),
        forall|k: int| from <= k < j ==> !is_term(data[k]),
        j == data.len() || is_term(data[j]),
    ensures
        term_idx(data, from) == j,
    decreases j - from,
{
    if from < j {
        assert(!is_term(data[from]));
        lemma_term_idx_char(data, from + 1, j);
    }
}

/// Trimming does nothing to a sequence with no trailing whitespace.
pub proof fn lemma_trim_fixed(s: Seq<u8>)
    requires
        s.len() == 0 || !is_ws(s.last()),
    ensures
        trim_ws_end(s) == s,
{
}

/// Once one entry fails to parse, the whole enumeration fails.
pub proof fn lemma_entries_spec_none(data: Seq<u8>, ty: ArchiveType, n: int, i: int, k: int)
    requires
        0 <= i < k,
        entry_spec(data, ty, n, i) is None,
    ensures
        entries_spec(data, ty, n, k) is None,
    decreases k,
{
    if k - 1 > i {
        lemma_entries_spec_none(data, ty, n, i, k - 1);
    }
}

/// A parsed prefix grows one entry at a time.
pub proof fn lemma_entries_spec_step(data: Seq<u8>, ty: ArchiveType, n: int, k: int)
    requires
        0 <= k,
        entries_spec(data, ty, n, k) is Some,
        entry_spec(data, ty, n, k) is Some,
    ensures
        entries_spec(data, ty, n, k + 1) == Some(
            entries_spec(data, ty, n, k).unwrap().push(entry_spec(data, ty, n, k).unwrap()),
        ),
{
}

/// When every entry parses, the enumeration collects exactly those entries.
pub proof fn lemma_entries_spec_all(
    data: Seq<u8>,
    ty: ArchiveType,
    n: int,
    k: int,
    exp: Seq<FileEntryV>,
)
    requires
        0 <= k <= exp.len(),
        forall|i: int| 0 <= i < k ==> entry_spec(data, ty, n, i) == Some(exp[i]),
    ensures
        entries_spec(data, ty, n, k) == Some(exp.take(k)),
    decreases k,
{
    if k > 0 {
        lemma_entries_spec_all(data, ty, n, k - 1, exp);
        assert(exp.take(k - 1).push(exp[k - 1]) =~= exp.take(k));
    }
}

/// A successful enumeration reports one entry per index, each the reading
/// of `entry_spec` at its index.
pub proof fn lemma_entries_spec_len(data: Seq<u8>, ty: ArchiveType, n: int, k: int)
    requires
        0 <= k,
        entries_spec(data, ty, n, k) is Some,
    ensures
        entries_spec(data, ty, n, k).unwrap().len() == k,
        forall|i: int|
            #![trigger entry_spec(data, ty, n, i)]
            0 <= i < k ==> entry_spec(data, ty, n, i) is Some,
        forall|i: int|
            #![trigger entries_spec(data, ty, n, k).unwrap()[i]]
            0 <= i < k ==> entries_spec(data, ty, n, k).unwrap()[i] == entry_spec(
                data,
                ty,
                n,
                i,
            ).unwrap(),
    decreases k,
{
    if k > 0 {
        assert(entries_spec(data, ty, n, k - 1) is Some);
        assert(entry_spec(data, ty, n, k - 1) is Some);
        lemma_entries_spec_len(data, ty, n, k - 1);
        let prev = entries_spec(data, ty, n, k - 1).unwrap();
        let e = entry_spec(data, ty, n, k - 1).unwrap();
        assert(entries_spec(data, ty, n, k).unwrap() == prev.push(e));
        assert forall|i: int|
            #![trigger entry_spec(data, ty, n, i)]
            0 <= i < k implies entry_spec(data, ty, n, i) is Some by {
            if i < k - 1 {
                assert(prev[i] == entry_spec(data, ty, n, i).unwrap());
            }
        }
        assert forall|i: int|
            #![trigger entries_spec(data, ty, n, k).unwrap()[i]]
            0 <= i < k implies entries_spec(data, ty, n, k).unwrap()[i] == entry_spec(
            data,
            ty,
            n,
            i,
        ).unwrap() by {
            if i < k - 1 {
                assert(prev.push(e)[i] == prev[i]);
            } else {
                assert(prev.push(e)[k - 1] == e);
            }
        }
    }
}

/// Offset-table correctness for every decoded stream, packed here or not:
/// each decoded entry's `offset` and `size` delimit exactly the payload
/// bytes it carries, and never run past the end of the stream.
pub proof fn lemma_decoded_entries_in_bounds(data: Seq<u8>, ty: ArchiveType, n: int, k: int)
    requires
        0 <= k,
        entries_spec(data, ty, n, k) is Some,
    ensures
        entries_spec(data, ty, n, k).unwrap().len() == k,
        forall|i: int|
            #![trigger entries_spec(data, ty, n, k).unwrap()[i]]
            0 <= i < k ==> {
                let e = entries_spec(data, ty, n, k).unwrap()[i];
                &&& e.offset + e.size <= data.len()
                &&& e.payload == data.subrange(e.offset as int, e.offset + e.size)
                &&& e.size == e.payload.len()
            },
{
    lemma_entries_spec_len(data, ty, n, k);
    assert forall|i: int| #![trigger entries_spec(data, ty, n, k).unwrap()[i]] 0 <= i < k implies {
        let e = entries_spec(data, ty, n, k).unwrap()[i];
        &&& e.offset + e.size <= data.len()
        &&& e.payload == data.subrange(e.offset as int, e.offset + e.size)
        &&& e.size == e.payload.len()
    } by {
        crate::bytes::lemma_le32_bounds(data, 4 + 8 * i);
        crate::bytes::lemma_le32_bounds(data, 4 + 8 * i + 4);
    }
}

/// Padding is at most three bytes and completes a four-byte boundary.
pub proof fn lemma_pad_len_bounds(pos: int)
    requires
        pos >= 0,
    ensures
        0 <= pad_len(pos) < 4,
        (pos + pad_len(pos)) % 4 == 0,
{
    vstd::arithmetic::div_mod::lemma_mod_bound(pos, 4);
    let r: int = pos % 4;
    vstd::arithmetic::div_mod::lemma_mod_self_0(4);
    if r != 0 {
        vstd::arithmetic::div_mod::lemma_small_mod((4 - r) as nat, 4nat);
    }
    let p: int = pad_len(pos);
    vstd::arithmetic::div_mod::lemma_small_mod(p as nat, 4nat);
    vstd::arithmetic::div_mod::lemma_add_mod_noop(pos, p, 4);
}

/// The regions of the stream sit one after the other, so the whole is at
/// least as long as any prefix of regions.
pub proof fn lemma_stream_parts(ty: ArchiveType, es: Seq<EntryModel>, no_filenames: bool)
    ensures
        0 <= psum(es),
        table_region_len(ty, es.len() as int) <= payload_base(ty, es, no_filenames),
        ty == ArchiveType::Pak ==> table_region_len(ty, es.len() as int) + name_region(
            es,
            no_filenames,
        ).len() <= payload_base(ty, es, no_filenames),
        stream_len(ty, es, no_filenames) == payload_base(ty, es, no_filenames) + psum(es),
{
    lemma_payload_region_len(es);
    if ty == ArchiveType::Pak {
        lemma_pad_len_bounds(
            table_region_len(ty, es.len() as int) + name_region(es, no_filenames).len() as int,
        );
    }
}

/// Blob lengths only grow along a prefix.
pub proof fn lemma_blob_take_le(es: Seq<EntryModel>, i: int)
    requires
        0 <= i <= es.len(),
    ensures
        blob(es.take(i)).len() <= blob(es).len(),
    decreases es.len() - i,
{
    if i < es.len() {
        lemma_take_succ(es, i);
        lemma_blob_take_le(es, i + 1);
    } else {
        lemma_take_all(es);
    }
}

} // verus!
