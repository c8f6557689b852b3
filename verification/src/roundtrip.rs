//! Round-trip laws: a container built by `pack_spec` decodes, through
//! `sniff_spec` and `entries_spec`, to exactly the entries it was built
//! from.

use vstd::prelude::*;

verus! {

use crate::bytes::{le16_at, le32_at, lemma_le32_of_u32, u32_bytes};
use crate::format::{
    blob, const_table, entries_spec, entry_offset, entry_spec, is_term, lemma_blob_take_le,
    lemma_const_table_len, lemma_entries_spec_all, lemma_ntable_len, lemma_otable_len,
    lemma_pad_len_bounds, lemma_payload_region_len, lemma_psum_take_le, lemma_stream_parts,
    lemma_take_all, lemma_take_succ, lemma_term_idx_char, name_cell, name_ok, name_region, ntable,
    otable, pack_fits, pack_spec, pad_len, parse_name, payload_base, payload_region, psum,
    sniff_spec, stream_len, table_region_len, trim_ws_end, zeros, EntryModel, FileEntryV,
};
use crate::{ArchiveError, ArchiveType};

/// The entry that decoding a packed container reports at index `i`.
pub open spec fn decoded_entry(
    ty: ArchiveType,
    es: Seq<EntryModel>,
    no_filenames: bool,
    i: int,
) -> FileEntryV {
    FileEntryV {
        name: if ty == ArchiveType::Pak {
            if no_filenames {
                Some(Seq::<u8>::empty())
            } else {
                Some(es[i].name.unwrap())
            }
        } else {
            None
        },
        offset: entry_offset(ty, es, no_filenames, i) as u32,
        size: es[i].payload.len() as u32,
        payload: es[i].payload,
        ty,
    }
}

proof fn lemma_otable_index(es: Seq<EntryModel>, base: int, i: int)
    requires
        0 <= i < es.len(),
    ensures
        otable(es, base).subrange(8 * i, 8 * i + 4) == u32_bytes(
            (base + psum(es.take(i))) as u32,
        ),
        otable(es, base).subrange(8 * i + 4, 8 * i + 8) == u32_bytes(es[i].payload.len() as u32),
    decreases es.len(),
{
    lemma_otable_len(es, base);
    lemma_otable_len(es.drop_last(), base);
    if i == es.len() - 1 {
        assert(es.take(i) =~= es.drop_last());
        assert(otable(es, base).subrange(8 * i, 8 * i + 4) =~= u32_bytes(
            (base + psum(es.drop_last())) as u32,
        ));
        assert(otable(es, base).subrange(8 * i + 4, 8 * i + 8) =~= u32_bytes(
            es.last().payload.len() as u32,
        ));
    } else {
        lemma_otable_index(es.drop_last(), base, i);
        assert(es.drop_last().take(i) =~= es.take(i));
        assert(otable(es, base).subrange(8 * i, 8 * i + 4) =~= otable(
            es.drop_last(),
            base,
        ).subrange(8 * i, 8 * i + 4));
        assert(otable(es, base).subrange(8 * i + 4, 8 * i + 8) =~= otable(
            es.drop_last(),
            base,
        ).subrange(8 * i + 4, 8 * i + 8));
    }
}

proof fn lemma_ntable_index(es: Seq<EntryModel>, base: int, i: int)
    requires
        0 <= i < es.len(),
    ensures
        ntable(es, base).subrange(4 * i, 4 * i + 4) == u32_bytes(
            (base + blob(es.take(i)).len()) as u32,
        ),
    decreases es.len(),
{
    lemma_ntable_len(es, base);
    lemma_ntable_len(es.drop_last(), base);
    if i == es.len() - 1 {
        assert(es.take(i) =~= es.drop_last());
        assert(ntable(es, base).subrange(4 * i, 4 * i + 4) =~= u32_bytes(
            (base + blob(es.drop_last()).len()) as u32,
        ));
    } else {
        lemma_ntable_index(es.drop_last(), base, i);
        assert(es.drop_last().take(i) =~= es.take(i));
        assert(ntable(es, base).subrange(4 * i, 4 * i + 4) =~= ntable(
            es.drop_last(),
            base,
        ).subrange(4 * i, 4 * i + 4));
    }
}

proof fn lemma_const_table_index(n: int, off: u32, i: int)
    requires
        0 <= i < n,
    ensures
        const_table(n, off).subrange(4 * i, 4 * i + 4) == u32_bytes(off),
    decreases n,
{
    lemma_const_table_len(n, off);
    lemma_const_table_len(n - 1, off);
    if i == n - 1 {
        assert(const_table(n, off).subrange(4 * i, 4 * i + 4) =~= u32_bytes(off));
    } else {
        lemma_const_table_index(n - 1, off, i);
        assert(const_table(n, off).subrange(4 * i, 4 * i + 4) =~= const_table(
            n - 1,
            off,
        ).subrange(4 * i, 4 * i + 4));
    }
}

proof fn lemma_blob_index(es: Seq<EntryModel>, i: int)
    requires
        0 <= i < es.len(),
    ensures
        blob(es.take(i)).len() + es[i].name.unwrap().len() + 2 == blob(es.take(i + 1)).len(),
        blob(es).subrange(
            blob(es.take(i)).len() as int,
            (blob(es.take(i)).len() + es[i].name.unwrap().len() + 2) as int,
        ) == name_cell(es[i].name.unwrap()),
    decreases es.len(),
{
    lemma_take_succ(es, i);
    if i == es.len() - 1 {
        assert(es.take(i) =~= es.drop_last());
        assert(es.take(i + 1) =~= es);
        assert(blob(es).subrange(
            blob(es.take(i)).len() as int,
            (blob(es.take(i)).len() + es[i].name.unwrap().len() + 2) as int,
        ) =~= name_cell(es[i].name.unwrap()));
    } else {
        lemma_blob_index(es.drop_last(), i);
        assert(es.drop_last().take(i) =~= es.take(i));
        assert(es.drop_last().take(i + 1) =~= es.take(i + 1));
        lemma_blob_take_le(es.drop_last(), i + 1);
        assert(blob(es).subrange(
            blob(es.take(i)).len() as int,
            (blob(es.take(i)).len() + es[i].name.unwrap().len() + 2) as int,
        ) =~= blob(es.drop_last()).subrange(
            blob(es.take(i)).len() as int,
            (blob(es.take(i)).len() + es[i].name.unwrap().len() + 2) as int,
        ));
    }
}

proof fn lemma_payload_index(es: Seq<EntryModel>, i: int)
    requires
        0 <= i < es.len(),
    ensures
        payload_region(es).subrange(
            psum(es.take(i)),
            psum(es.take(i)) + es[i].payload.len(),
        ) == es[i].payload,
        psum(es.take(i)) + es[i].payload.len() == psum(es.take(i + 1)),
    decreases es.len(),
{
    lemma_take_succ(es, i);
    lemma_psum_take_le(es, i);
    lemma_payload_region_len(es);
    lemma_payload_region_len(es.drop_last());
    if i == es.len() - 1 {
        assert(es.take(i) =~= es.drop_last());
        assert(payload_region(es).subrange(
            psum(es.take(i)),
            psum(es.take(i)) + es[i].payload.len(),
        ) =~= es.last().payload);
    } else {
        lemma_payload_index(es.drop_last(), i);
        assert(es.drop_last().take(i) =~= es.take(i));
        assert(es.drop_last().take(i + 1) =~= es.take(i + 1));
        lemma_psum_take_le(es.drop_last(), i + 1);
        assert(payload_region(es).subrange(
            psum(es.take(i)),
            psum(es.take(i)) + es[i].payload.len(),
        ) =~= payload_region(es.drop_last()).subrange(
            psum(es.take(i)),
            psum(es.take(i)) + es[i].payload.len(),
        ));
    }
}

/// Where each region of the packed stream sits.
proof fn lemma_pack_regions(ty: ArchiveType, es: Seq<EntryModel>, no_filenames: bool)
    ensures
        pack_spec(ty, es, no_filenames).len() == stream_len(ty, es, no_filenames),
        pack_spec(ty, es, no_filenames).subrange(0, 4) == u32_bytes((es.len() as int) as u32),
        pack_spec(ty, es, no_filenames).subrange(4, 4 + 8 * (es.len() as int)) == otable(
            es,
            payload_base(ty, es, no_filenames),
        ),
        ty == ArchiveType::Pak ==> pack_spec(ty, es, no_filenames).subrange(
            4 + 8 * (es.len() as int),
            4 + 12 * (es.len() as int),
        ) == (if no_filenames {
            const_table(es.len() as int, (4 + 12 * (es.len() as int)) as u32)
        } else {
            ntable(es, 4 + 12 * (es.len() as int))
        }),
        ty == ArchiveType::Pak ==> pack_spec(ty, es, no_filenames).subrange(
            4 + 12 * (es.len() as int),
            4 + 12 * (es.len() as int) + name_region(es, no_filenames).len(),
        ) == name_region(es, no_filenames),
        ty == ArchiveType::Pak ==> pack_spec(ty, es, no_filenames).subrange(
            4 + 12 * (es.len() as int) + name_region(es, no_filenames).len(),
            payload_base(ty, es, no_filenames),
        ) == zeros(pad_len(4 + 12 * (es.len() as int) + name_region(es, no_filenames).len())),
        pack_spec(ty, es, no_filenames).subrange(
            payload_base(ty, es, no_filenames),
            stream_len(ty, es, no_filenames),
        ) == payload_region(es),
{
    let n: int = es.len() as int;
    let pb: int = payload_base(ty, es, no_filenames);
    let data = pack_spec(ty, es, no_filenames);
    lemma_otable_len(es, pb);
    lemma_payload_region_len(es);
    lemma_stream_parts(ty, es, no_filenames);
    if ty == ArchiveType::Pak {
        lemma_ntable_len(es, 4 + 12 * n);
        lemma_const_table_len(n, (4 + 12 * n) as u32);
        let rl: int = name_region(es, no_filenames).len() as int;
        lemma_pad_len_bounds(4 + 12 * n + rl);
        assert(data.len() == stream_len(ty, es, no_filenames));
        assert(data.subrange(0, 4) =~= u32_bytes(n as u32));
        assert(data.subrange(4, 4 + 8 * n) =~= otable(es, pb));
        if no_filenames {
            assert(data.subrange(4 + 8 * n, 4 + 12 * n) =~= const_table(n, (4 + 12 * n) as u32));
        } else {
            assert(data.subrange(4 + 8 * n, 4 + 12 * n) =~= ntable(es, 4 + 12 * n));
        }
        assert(data.subrange(4 + 12 * n, 4 + 12 * n + rl) =~= name_region(es, no_filenames));
        assert(data.subrange(4 + 12 * n + rl, pb) =~= zeros(pad_len(4 + 12 * n + rl)));
        assert(data.subrange(pb, stream_len(ty, es, no_filenames)) =~= payload_region(es));
    } else {
        assert(data.len() == stream_len(ty, es, no_filenames));
        assert(data.subrange(0, 4) =~= u32_bytes(n as u32));
        assert(data.subrange(4, 4 + 8 * n) =~= otable(es, pb));
        assert(data.subrange(pb, stream_len(ty, es, no_filenames)) =~= payload_region(es));
    }
}

/// A window of a window of `s` is a window of `s`.
proof fn lemma_nested_subrange<T>(s: Seq<T>, a: int, b: int, x: int, y: int)
    requires
        0 <= a <= b <= s.len(),
        0 <= x <= y <= b - a,
    ensures
        s.subrange(a, b).subrange(x, y) == s.subrange(a + x, a + y),
{
    assert(s.subrange(a, b).subrange(x, y) =~= s.subrange(a + x, a + y));
}

/// The offset-table record and payload bytes of entry `i` of a packed
/// container.
#[verifier::rlimit(100)]
proof fn lemma_pack_entry_table(ty: ArchiveType, es: Seq<EntryModel>, no_filenames: bool, i: int)
    requires
        0 <= i < es.len(),
        pack_fits(ty, es, no_filenames),
    ensures
        pack_spec(ty, es, no_filenames).len() == stream_len(ty, es, no_filenames),
        le32_at(pack_spec(ty, es, no_filenames), 4 + 8 * i) == entry_offset(
            ty,
            es,
            no_filenames,
            i,
        ),
        le32_at(pack_spec(ty, es, no_filenames), 4 + 8 * i + 4) == es[i].payload.len(),
        0 <= entry_offset(ty, es, no_filenames, i),
        entry_offset(ty, es, no_filenames, i) + es[i].payload.len() <= stream_len(
            ty,
            es,
            no_filenames,
        ),
        pack_spec(ty, es, no_filenames).subrange(
            entry_offset(ty, es, no_filenames, i),
            entry_offset(ty, es, no_filenames, i) + es[i].payload.len(),
        ) == es[i].payload,
{
    let n: int = es.len() as int;
    let data = pack_spec(ty, es, no_filenames);
    let pb: int = payload_base(ty, es, no_filenames);
    let sl: int = stream_len(ty, es, no_filenames);
    lemma_pack_regions(ty, es, no_filenames);
    lemma_stream_parts(ty, es, no_filenames);
    lemma_psum_take_le(es, i);
    lemma_psum_take_le(es, i + 1);
    lemma_payload_index(es, i);
    let off_i: int = pb + psum(es.take(i));
    let sz_i: int = es[i].payload.len() as int;
    assert(off_i + sz_i == pb + psum(es.take(i + 1)));
    assert(off_i + sz_i <= sl);

    lemma_otable_index(es, pb, i);
    assert(data.subrange(4 + 8 * i, 4 + 8 * i + 4) =~= otable(es, pb).subrange(
        8 * i,
        8 * i + 4,
    ));
    assert(data.subrange(4 + 8 * i + 4, 4 + 8 * i + 8) =~= otable(es, pb).subrange(
        8 * i + 4,
        8 * i + 8,
    ));
    lemma_le32_of_u32(data, 4 + 8 * i, off_i as u32);
    lemma_le32_of_u32(data, 4 + 8 * i + 4, sz_i as u32);

    assert(data.subrange(off_i, off_i + sz_i) =~= payload_region(es).subrange(
        psum(es.take(i)),
        psum(es.take(i)) + es[i].payload.len(),
    ));
}

/// A stored name cell whose name is clean parses back to that name.
proof fn lemma_cell_parses(data: Seq<u8>, at: int, nm: Seq<u8>)
    requires
        0 <= at,
        at + nm.len() + 2 <= data.len(),
        data.subrange(at, at + nm.len() + 2) == name_cell(nm),
        name_ok(nm),
    ensures
        parse_name(data, at) == nm,
{
    let ln: int = nm.len() as int;
    assert forall|k: int| at <= k < at + ln implies !is_term(data[k]) by {
        assert(data[k] == data.subrange(at, at + ln + 2)[k - at]);
        assert(name_cell(nm)[k - at] == nm[k - at]);
    }
    assert(data[at + ln] == data.subrange(at, at + ln + 2)[ln]);
    assert(name_cell(nm)[ln] == 10u8);
    assert(is_term(data[at + ln]));
    lemma_term_idx_char(data, at, at + ln);
    lemma_nested_subrange(data, at, at + ln + 2, 0, ln);
    assert(data.subrange(at, at + ln) == name_cell(nm).subrange(0, ln));
    assert(name_cell(nm).subrange(0, ln) =~= nm);
    assert(parse_name(data, at) == trim_ws_end(nm));
}

/// In any stream whose filename table is the shared-cell table and whose
/// shared cell starts with NUL, every filename record points at that cell
/// and decodes to the empty name.
proof fn lemma_name_record_shared(data: Seq<u8>, n: int, i: int)
    requires
        0 <= i < n,
        4 + 12 * n < data.len(),
        4 + 12 * n <= 0xFFFFFFFF,
        data.subrange(4 + 8 * n, 4 + 12 * n) == const_table(n, (4 + 12 * n) as u32),
        data[4 + 12 * n] == 0u8,
    ensures
        le32_at(data, 4 + 8 * n + 4 * i) == 4 + 12 * n,
        parse_name(data, 4 + 12 * n) == Seq::<u8>::empty(),
{
    let bb: int = 4 + 12 * n;
    lemma_const_table_index(n, bb as u32, i);
    lemma_const_table_len(n, bb as u32);
    lemma_nested_subrange(data, 4 + 8 * n, bb, 4 * i, 4 * i + 4);
    assert(data.subrange(4 + 8 * n + 4 * i, 4 + 8 * n + 4 * i + 4) == const_table(
        n,
        bb as u32,
    ).subrange(4 * i, 4 * i + 4));
    lemma_le32_of_u32(data, 4 + 8 * n + 4 * i, bb as u32);
    assert(is_term(data[bb]));
    lemma_term_idx_char(data, bb, bb);
    assert(data.subrange(bb, bb) =~= Seq::<u8>::empty());
    assert(parse_name(data, bb) == Seq::<u8>::empty());
}

/// In any stream whose filename table and blob are those of `es`, the
/// filename record of entry `i` points at its stored cell, which decodes
/// back to the stored name.
proof fn lemma_name_record_stored(data: Seq<u8>, es: Seq<EntryModel>, i: int)
    requires
        0 <= i < es.len(),
        4 + 12 * (es.len() as int) + blob(es).len() <= data.len(),
        4 + 12 * (es.len() as int) + blob(es).len() <= 0xFFFFFFFF,
        data.subrange(4 + 8 * (es.len() as int), 4 + 12 * (es.len() as int)) == ntable(
            es,
            4 + 12 * (es.len() as int),
        ),
        data.subrange(
            4 + 12 * (es.len() as int),
            4 + 12 * (es.len() as int) + blob(es).len(),
        ) == blob(es),
        es[i].name is Some,
        name_ok(es[i].name.unwrap()),
    ensures
        le32_at(data, 4 + 8 * (es.len() as int) + 4 * i) == 4 + 12 * (es.len() as int) + blob(
            es.take(i),
        ).len(),
        0 <= 4 + 12 * (es.len() as int) + blob(es.take(i)).len() <= data.len(),
        parse_name(data, 4 + 12 * (es.len() as int) + blob(es.take(i)).len()) == es[i].name.unwrap(),
{
    let n: int = es.len() as int;
    let bb: int = 4 + 12 * n;
    let rl: int = blob(es).len() as int;
    let nm = es[i].name.unwrap();
    let ln: int = nm.len() as int;
    lemma_ntable_index(es, bb, i);
    lemma_ntable_len(es, bb);
    lemma_blob_index(es, i);
    lemma_blob_take_le(es, i + 1);
    lemma_blob_take_le(es, i);
    let ci: int = blob(es.take(i)).len() as int;
    let noff: int = bb + ci;
    assert(noff + ln + 2 <= bb + rl);
    lemma_nested_subrange(data, 4 + 8 * n, bb, 4 * i, 4 * i + 4);
    assert(data.subrange(4 + 8 * n + 4 * i, 4 + 8 * n + 4 * i + 4) == ntable(es, bb).subrange(
        4 * i,
        4 * i + 4,
    ));
    lemma_le32_of_u32(data, 4 + 8 * n + 4 * i, noff as u32);
    lemma_nested_subrange(data, bb, bb + rl, ci, ci + ln + 2);
    assert(data.subrange(noff, noff + ln + 2) == name_cell(nm));
    lemma_cell_parses(data, noff, nm);
}

/// Entry `i` of a packed container parses back to exactly what was packed.
#[verifier::rlimit(100)]
#[verifier::spinoff_prover]
proof fn lemma_pack_entry(ty: ArchiveType, es: Seq<EntryModel>, no_filenames: bool, i: int)
    requires
        0 <= i < es.len(),
        pack_fits(ty, es, no_filenames),
        ty == ArchiveType::Kub ==> !no_filenames,
        ty == ArchiveType::Pak && !no_filenames ==> es[i].name is Some && name_ok(
            es[i].name.unwrap(),
        ),
    ensures
        entry_spec(pack_spec(ty, es, no_filenames), ty, es.len() as int, i) == Some(
            decoded_entry(ty, es, no_filenames, i),
        ),
{
    let n: int = es.len() as int;
    let data = pack_spec(ty, es, no_filenames);
    let pb: int = payload_base(ty, es, no_filenames);
    lemma_pack_entry_table(ty, es, no_filenames, i);
    lemma_stream_parts(ty, es, no_filenames);
    lemma_psum_take_le(es, i);
    if ty == ArchiveType::Pak {
        lemma_pack_regions(ty, es, no_filenames);
        let bb: int = 4 + 12 * n;
        let rl: int = name_region(es, no_filenames).len() as int;
        if no_filenames {
            assert(data[bb] == data.subrange(bb, bb + rl)[0]);
            assert((0u32 & 0xff) == 0u32) by (bit_vector);
            assert(name_region(es, no_filenames)[0] == 0u8);
            lemma_name_record_shared(data, n, i);
        } else {
            lemma_name_record_stored(data, es, i);
        }
    }
    assert(entry_spec(data, ty, n, i) == Some(decoded_entry(ty, es, no_filenames, i)));
}

/// The decode of a freshly packed container: the sniff recovers the
/// container type, and the enumeration recovers every entry.
#[verifier::rlimit(60)]
proof fn lemma_pack_decode(ty: ArchiveType, es: Seq<EntryModel>, no_filenames: bool)
    requires
        1 <= es.len(),
        pack_fits(ty, es, no_filenames),
        ty == ArchiveType::Kub ==> !no_filenames,
        ty == ArchiveType::Pak && !no_filenames ==> forall|i: int|
            #![auto]
            0 <= i < es.len() ==> es[i].name is Some && name_ok(es[i].name.unwrap()),
        es[0].payload.len() >= 2,
        ty == ArchiveType::Pak ==> es[0].payload[0] == 0x78 && es[0].payload[1] == 0x9c,
        ty == ArchiveType::Kub ==> es[0].payload[0] == 0 && es[0].payload[1] == 0,
    ensures
        sniff_spec(pack_spec(ty, es, no_filenames)) == Ok::<ArchiveType, ArchiveError>(ty),
        entries_spec(
            pack_spec(ty, es, no_filenames),
            ty,
            es.len() as int,
            es.len() as int,
        ) == Some(Seq::new(es.len(), |i: int| decoded_entry(ty, es, no_filenames, i))),
{
    let n: int = es.len() as int;
    let data = pack_spec(ty, es, no_filenames);
    let pb: int = payload_base(ty, es, no_filenames);
    let sl: int = stream_len(ty, es, no_filenames);
    lemma_pack_regions(ty, es, no_filenames);
    lemma_stream_parts(ty, es, no_filenames);

    // the entry count reads back
    lemma_le32_of_u32(data, 0, n as u32);
    assert(le32_at(data, 0) == n);

    // the first entry's offset is the payload base
    lemma_otable_index(es, pb, 0);
    assert(es.take(0) =~= Seq::<EntryModel>::empty());
    assert(psum(es.take(0)) == 0);
    assert(data.subrange(4, 8) =~= otable(es, pb).subrange(0, 4));
    lemma_le32_of_u32(data, 4, pb as u32);
    assert(le32_at(data, 4) == pb);

    // the two signature bytes are the first payload's first two bytes
    lemma_payload_index(es, 0);
    assert(psum(es.take(1)) == es[0].payload.len());
    lemma_psum_take_le(es, 1);
    assert(pb + 2 <= sl);
    assert(data[pb] == payload_region(es)[0]);
    assert(data[pb + 1] == payload_region(es)[1]);
    assert(payload_region(es)[0] == es[0].payload[0]);
    assert(payload_region(es)[1] == es[0].payload[1]);
    assert(le16_at(data, pb) == (data[pb] as int) + 256 * (data[pb + 1] as int));
    assert(sniff_spec(data) == Ok::<ArchiveType, ArchiveError>(ty));

    // every entry parses back
    let exp = Seq::new(es.len(), |i: int| decoded_entry(ty, es, no_filenames, i));
    assert forall|i: int| 0 <= i < n implies entry_spec(data, ty, n, i) == Some(exp[i]) by {
        lemma_pack_entry(ty, es, no_filenames, i);
    }
    lemma_entries_spec_all(data, ty, n, n, exp);
    assert(exp.take(n) =~= exp);
}

/// Round-trip for `Pak` containers with filenames: packing entries whose
/// names are storable (no NUL or newline inside, no trailing whitespace)
/// and whose first payload carries the zlib header, then decoding the
/// stream, classifies it as `Pak` and recovers every name and payload, in
/// order; each decoded record's offset and size delimit exactly the bytes
/// of its payload inside the stream.
pub proof fn lemma_roundtrip_pak(es: Seq<EntryModel>)
    requires
        1 <= es.len(),
        pack_fits(ArchiveType::Pak, es, false),
        forall|i: int| #![auto] 0 <= i < es.len() ==> es[i].name is Some,
        forall|i: int| #![auto] 0 <= i < es.len() ==> name_ok(es[i].name.unwrap()),
        es[0].payload.len() >= 2,
        es[0].payload[0] == 0x78,
        es[0].payload[1] == 0x9c,
    ensures
        sniff_spec(pack_spec(ArchiveType::Pak, es, false)) == Ok::<ArchiveType, ArchiveError>(
            ArchiveType::Pak,
        ),
        ({
            let data = pack_spec(ArchiveType::Pak, es, false);
            let n = es.len() as int;
            &&& entries_spec(data, ArchiveType::Pak, n, n) matches Some(ds)
            &&& entries_spec(data, ArchiveType::Pak, n, n).unwrap().len() == es.len()
            &&& forall|i: int|
                #![trigger es[i]]
                0 <= i < n ==> {
                    let e = entries_spec(data, ArchiveType::Pak, n, n).unwrap()[i];
                    &&& e.name == Some(es[i].name.unwrap())
                    &&& e.payload == es[i].payload
                    &&& e.offset as int == entry_offset(ArchiveType::Pak, es, false, i)
                    &&& e.size as int == es[i].payload.len()
                    &&& e.offset + e.size <= data.len()
                    &&& data.subrange(e.offset as int, e.offset + e.size) == es[i].payload
                }
        }),
{
    lemma_pack_decode(ArchiveType::Pak, es, false);
    let data = pack_spec(ArchiveType::Pak, es, false);
    let n = es.len() as int;
    lemma_pack_regions(ArchiveType::Pak, es, false);
    lemma_stream_parts(ArchiveType::Pak, es, false);
    assert forall|i: int| #![trigger es[i]] 0 <= i < n implies {
        let e = entries_spec(data, ArchiveType::Pak, n, n).unwrap()[i];
        &&& e.name == Some(es[i].name.unwrap())
        &&& e.payload == es[i].payload
        &&& e.offset as int == entry_offset(ArchiveType::Pak, es, false, i)
        &&& e.size as int == es[i].payload.len()
        &&& e.offset + e.size <= data.len()
        &&& data.subrange(e.offset as int, e.offset + e.size) == es[i].payload
    } by {
        lemma_pack_entry_table(ArchiveType::Pak, es, false, i);
        lemma_psum_take_le(es, i);
        lemma_stream_parts(ArchiveType::Pak, es, false);
    }
}

/// Round-trip for `Kub` containers: names are always absent on decode, and
/// every payload comes back in order, delimited exactly by its offset and
/// size. The first payload must begin with a zero word, which is how a
/// `Kub` stream is recognized.
pub proof fn lemma_roundtrip_kub(es: Seq<EntryModel>)
    requires
        1 <= es.len(),
        pack_fits(ArchiveType::Kub, es, false),
        es[0].payload.len() >= 2,
        es[0].payload[0] == 0,
        es[0].payload[1] == 0,
    ensures
        sniff_spec(pack_spec(ArchiveType::Kub, es, false)) == Ok::<ArchiveType, ArchiveError>(
            ArchiveType::Kub,
        ),
        ({
            let data = pack_spec(ArchiveType::Kub, es, false);
            let n = es.len() as int;
            &&& entries_spec(data, ArchiveType::Kub, n, n) matches Some(ds)
            &&& entries_spec(data, ArchiveType::Kub, n, n).unwrap().len() == es.len()
            &&& forall|i: int|
                #![trigger es[i]]
                0 <= i < n ==> {
                    let e = entries_spec(data, ArchiveType::Kub, n, n).unwrap()[i];
                    &&& e.name is None
                    &&& e.payload == es[i].payload
                    &&& e.offset as int == entry_offset(ArchiveType::Kub, es, false, i)
                    &&& e.size as int == es[i].payload.len()
                    &&& e.offset + e.size <= data.len()
                    &&& data.subrange(e.offset as int, e.offset + e.size) == es[i].payload
                }
        }),
{
    lemma_pack_decode(ArchiveType::Kub, es, false);
    let data = pack_spec(ArchiveType::Kub, es, false);
    let n = es.len() as int;
    lemma_pack_regions(ArchiveType::Kub, es, false);
    assert forall|i: int| #![trigger es[i]] 0 <= i < n implies {
        let e = entries_spec(data, ArchiveType::Kub, n, n).unwrap()[i];
        &&& e.name is None
        &&& e.payload == es[i].payload
        &&& e.offset as int == entry_offset(ArchiveType::Kub, es, false, i)
        &&& e.size as int == es[i].payload.len()
        &&& e.offset + e.size <= data.len()
        &&& data.subrange(e.offset as int, e.offset + e.size) == es[i].payload
    } by {
        lemma_pack_entry_table(ArchiveType::Kub, es, false, i);
        lemma_psum_take_le(es, i);
        lemma_stream_parts(ArchiveType::Kub, es, false);
    }
}

/// Packing a `Pak` container with `no_filenames` yields entries whose
/// names all decode, every one to the same empty placeholder; payloads
/// round-trip as usual.
pub proof fn lemma_roundtrip_no_filenames(es: Seq<EntryModel>)
    requires
        1 <= es.len(),
        pack_fits(ArchiveType::Pak, es, true),
        es[0].payload.len() >= 2,
        es[0].payload[0] == 0x78,
        es[0].payload[1] == 0x9c,
    ensures
        sniff_spec(pack_spec(ArchiveType::Pak, es, true)) == Ok::<ArchiveType, ArchiveError>(
            ArchiveType::Pak,
        ),
        ({
            let data = pack_spec(ArchiveType::Pak, es, true);
            let n = es.len() as int;
            &&& entries_spec(data, ArchiveType::Pak, n, n) matches Some(ds)
            &&& entries_spec(data, ArchiveType::Pak, n, n).unwrap().len() == es.len()
            &&& forall|i: int|
                #![trigger es[i]]
                0 <= i < n ==> {
                    let e = entries_spec(data, ArchiveType::Pak, n, n).unwrap()[i];
                    &&& e.name == Some(Seq::<u8>::empty())
                    &&& e.payload == es[i].payload
                }
        }),
{
    lemma_pack_decode(ArchiveType::Pak, es, true);
}

/// The payload region of a `Pak` container always starts at a stream
/// offset divisible by four: the padding after the filename blob completes
/// the boundary. For `Kub` the tables end on a four-byte boundary by
/// themselves.
pub proof fn lemma_payload_alignment(ty: ArchiveType, es: Seq<EntryModel>, no_filenames: bool)
    ensures
        payload_base(ty, es, no_filenames) % 4 == 0,
{
    let n: int = es.len() as int;
    if ty == ArchiveType::Pak {
        let e: int = table_region_len(ty, n) + name_region(es, no_filenames).len();
        lemma_pad_len_bounds(e);
    } else {
        assert((4 + 8 * n) % 4 == 0) by {
            vstd::arithmetic::div_mod::lemma_mod_multiples_basic(1 + 2 * n, 4);
            assert((1 + 2 * n) * 4 == 4 + 8 * n) by (nonlinear_arith);
        }
    }
}

/// A stream whose first entry's two leading payload bytes are `0x78 0x9C`
/// is always classified `Pak`.
pub proof fn lemma_sniff_pak(data: Seq<u8>)
    requires
        data.len() >= 8,
        le32_at(data, 0) != 0,
        le32_at(data, 4) + 2 <= data.len(),
        le16_at(data, le32_at(data, 4)) == 0x9C78,
    ensures
        sniff_spec(data) == Ok::<ArchiveType, ArchiveError>(ArchiveType::Pak),
{
}

/// A stream whose entry count reads zero is refused as malformed: this
/// library's policy for empty archives is the explicit error, not an empty
/// enumeration.
pub proof fn lemma_empty_archive_refused(data: Seq<u8>)
    requires
        data.len() >= 4,
        le32_at(data, 0) == 0,
    ensures
        sniff_spec(data) == Err::<ArchiveType, ArchiveError>(ArchiveError::Format),
{
}

/// Packing zero inputs still produces the four-byte count header and
/// nothing else (eight bytes with the shared name cell of `no_filenames`).
pub proof fn lemma_pack_empty(ty: ArchiveType, no_filenames: bool)
    ensures
        !no_filenames ==> pack_spec(ty, Seq::<EntryModel>::empty(), false) == u32_bytes(0),
        ty == ArchiveType::Pak && no_filenames ==> pack_spec(
            ty,
            Seq::<EntryModel>::empty(),
            true,
        ) == u32_bytes(0) + u32_bytes(0),
{
    let es = Seq::<EntryModel>::empty();
    lemma_pad_len_bounds(4);
    lemma_pad_len_bounds(8);
    if !no_filenames {
        assert(pack_spec(ty, es, false) =~= u32_bytes(0));
    }
    if ty == ArchiveType::Pak && no_filenames {
        assert(pack_spec(ty, es, true) =~= u32_bytes(0) + u32_bytes(0));
    }
}

} // verus!
