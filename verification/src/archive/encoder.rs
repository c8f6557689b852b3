//! The container encoder: buffering compressed inputs and serializing the
//! complete stream — count, offset table, filename tables, padding and
//! payload region — in one forward pass.

use vstd::prelude::*;

verus! {

use crate::bytes::{push_bytes, push_u32_le, push_zeros, u32_bytes};
use crate::format::{
    blob, const_table, lemma_blob_take_le, lemma_pad_len_bounds, lemma_psum_take_le,
    lemma_stream_parts, lemma_take_all, lemma_take_succ, name_region, ntable, otable, pack_fits,
    pack_spec, pad_len, payload_base, payload_region, psum, stream_len, table_region_len, zeros,
    EntryModel,
};
use crate::zlib::{zlib_compress, zlib_of};
use crate::{ArchiveError, ArchiveType};

/// One buffered input: its filename (for `Pak`) and the bytes that will be
/// stored for it, already compressed.
pub struct EncEntry {
    pub name: Option<Vec<u8>>,
    pub buffer: Vec<u8>,
}

/// Builds an archive in memory: inputs are added in order, then `pack`
/// serializes the whole container.
pub struct ArchiveEncoder {
    pub ty: ArchiveType,
    pub entries: Vec<EncEntry>,
}

/// The model of an optional byte string.
pub open spec fn opt_bytes(o: Option<Vec<u8>>) -> Option<Seq<u8>> {
    match o {
        Some(v) => Some(v@),
        None => None,
    }
}

impl View for EncEntry {
    type V = EntryModel;

    open spec fn view(&self) -> EntryModel {
        EntryModel { name: opt_bytes(self.name), payload: self.buffer@ }
    }
}

impl View for ArchiveEncoder {
    type V = Seq<EntryModel>;

    open spec fn view(&self) -> Seq<EntryModel> {
        self.entries@.map_values(|e: EncEntry| e@)
    }
}

impl ArchiveEncoder {
    /// A fresh encoder for the given container type, with no entries.
    pub fn new(ty: ArchiveType) -> (r: ArchiveEncoder)
        ensures
            r.ty == ty,
            r@ == Seq::<EntryModel>::empty(),
    {
        let r = ArchiveEncoder { ty, entries: Vec::new() };
        proof {
            assert(r@ =~= Seq::<EntryModel>::empty());
        }
        r
    }

    /// Buffer one input.
    ///
    /// For a `Pak` encoder, `data` is the raw input: it is compressed here,
    /// and `name` is the filename to store for it. For a `Kub` encoder the
    /// compression codec is an external collaborator, so `data` must already
    /// be the transformed bytes; it is stored as handed in, and no name is
    /// kept.
    pub fn add(&mut self, name: Option<Vec<u8>>, data: Vec<u8>) -> (r: Result<(), ArchiveError>)
        ensures
            final(self).ty == old(self).ty,
            old(self).ty == ArchiveType::Kub ==> r is Ok && final(self)@ == old(self)@.push(
                (EntryModel { name: None, payload: data@ }),
            ),
            old(self).ty == ArchiveType::Pak && r is Ok ==> final(self)@ == old(self)@.push(
                (EntryModel { name: opt_bytes(name), payload: zlib_of(data@) }),
            ),
            old(self).ty == ArchiveType::Pak && r is Err ==> r == Err::<(), ArchiveError>(
                ArchiveError::Codec,
            ) && final(self)@ == old(self)@,
    {
        match self.ty {
            ArchiveType::Pak => {
                match zlib_compress(data.as_slice()) {
                    Some(buffer) => {
                        let e = EncEntry { name, buffer };
                        proof {
                            assert(self.entries@.push(e).map_values(|x: EncEntry| x@)
                                =~= self.entries@.map_values(|x: EncEntry| x@).push(e@));
                        }
                        self.entries.push(e);
                        Ok(())
                    },
                    None => Err(ArchiveError::Codec),
                }
            },
            ArchiveType::Kub => {
                let e = EncEntry { name: None, buffer: data };
                proof {
                    assert(self.entries@.push(e).map_values(|x: EncEntry| x@) =~= self.entries@
                        .map_values(|x: EncEntry| x@).push(e@));
                }
                self.entries.push(e);
                Ok(())
            },
        }
    }
    /// Serialize the complete container.
    ///
    /// `no_filenames` is only meaningful for `Pak`: every filename offset
    /// then points at one shared empty name cell. Requesting it for `Kub`
    /// is refused before anything is built. The stream is produced in one
    /// forward pass — count, offset table, then for `Pak` the filename
    /// offset table, the name blob and padding to a four-byte boundary,
    /// then every payload — and equals `pack_spec` exactly. A container
    /// whose total size cannot be addressed by the `u32` offset fields is
    /// refused.
    pub fn pack(&self, no_filenames: bool) -> (r: Result<Vec<u8>, ArchiveError>)
        requires
            self.ty == ArchiveType::Pak && !no_filenames ==> forall|i: int|
                0 <= i < self@.len() ==> self@[i].name is Some,
        ensures
            self.ty == ArchiveType::Kub && no_filenames ==> r == Err::<Vec<u8>, ArchiveError>(
                ArchiveError::Contract,
            ),
            !(self.ty == ArchiveType::Kub && no_filenames) && pack_fits(
                self.ty,
                self@,
                no_filenames,
            ) ==> (r matches Ok(v) && v@ == pack_spec(self.ty, self@, no_filenames)),
            !(self.ty == ArchiveType::Kub && no_filenames) && !pack_fits(
                self.ty,
                self@,
                no_filenames,
            ) ==> r == Err::<Vec<u8>, ArchiveError>(ArchiveError::Bounds),
    {
        let ghost es: Seq<EntryModel> = self@;
        let is_pak: bool = self.ty == ArchiveType::Pak;
        if !is_pak && no_filenames {
            return Err(ArchiveError::Contract);
        }
        let n: usize = self.entries.len();
        proof {
            assert(es.len() == n);
            lemma_stream_parts(self.ty, es, no_filenames);
        }

        // The fixed tables must themselves be addressable.
        if is_pak && n as u64 > 357913940u64 {
            return Err(ArchiveError::Bounds);
        }
        if !is_pak && n as u64 > 536870911u64 {
            return Err(ArchiveError::Bounds);
        }
        let trl: u64 = if is_pak {
            4 + 12 * (n as u64)
        } else {
            4 + 8 * (n as u64)
        };
        proof {
            assert(trl == table_region_len(self.ty, es.len() as int));
        }

        // Measure the filename region.
        let mut region_len: u64 = 0;
        if is_pak {
            if no_filenames {
                region_len = 4;
            } else {
                let mut i: usize = 0;
                while i < n
                    invariant
                        i <= n,
                        n == es.len(),
                        es == self@,
                        self.ty == ArchiveType::Pak,
                        !no_filenames,
                        forall|j: int| 0 <= j < es.len() ==> es[j].name is Some,
                        region_len == blob(es.take(i as int)).len(),
                        region_len <= 0xFFFF_FFFFu64,
                    decreases n - i,
                {
                    let nm_len: u64 = match &self.entries[i].name {
                        Some(v) => v.len() as u64,
                        None => 0u64,
                    };
                    proof {
                        assert(es[i as int].name is Some);
                        assert(nm_len == es[i as int].name.unwrap().len());
                        lemma_take_succ(es, i as int);
                        assert(blob(es.take(i as int + 1)).len() == region_len + nm_len + 2);
                    }
                    if nm_len >= 0xFFFF_FFFFu64 || region_len + nm_len + 2 > 0xFFFF_FFFFu64 {
                        proof {
                            lemma_blob_take_le(es, i as int + 1);
                            lemma_stream_parts(self.ty, es, no_filenames);
                        }
                        return Err(ArchiveError::Bounds);
                    }
                    region_len = region_len + nm_len + 2;
                    i = i + 1;
                }
                proof {
                    lemma_take_all(es);
                }
            }
        }
        proof {
            assert(is_pak ==> region_len == name_region(es, no_filenames).len());
        }

        // Where the payload region starts.
        if is_pak && trl + region_len > 0xFFFF_FFFFu64 {
            return Err(ArchiveError::Bounds);
        }
        let pad: u64 = if is_pak {
            (4 - ((trl + region_len) % 4)) % 4
        } else {
            0
        };
        let pbase: u64 = trl + region_len + pad;
        proof {
            if is_pak {
                lemma_pad_len_bounds((trl + region_len) as int);
            }
            assert(pbase == payload_base(self.ty, es, no_filenames));
        }
        if pbase > 0xFFFF_FFFFu64 {
            return Err(ArchiveError::Bounds);
        }

        // Measure the payload region.
        let mut pos: u64 = pbase;
        let mut i: usize = 0;
        while i < n
            invariant
                i <= n,
                n == es.len(),
                es == self@,
                !(self.ty == ArchiveType::Kub && no_filenames),
                pbase == payload_base(self.ty, es, no_filenames),
                pos == pbase + psum(es.take(i as int)),
                pos <= 0xFFFF_FFFFu64,
            decreases n - i,
        {
            let a: u64 = self.entries[i].buffer.len() as u64;
            proof {
                lemma_take_succ(es, i as int);
                assert(psum(es.take(i as int + 1)) == psum(es.take(i as int)) + a);
            }
            if a > 0xFFFF_FFFFu64 - pos {
                proof {
                    lemma_psum_take_le(es, i as int + 1);
                    lemma_stream_parts(self.ty, es, no_filenames);
                }
                return Err(ArchiveError::Bounds);
            }
            pos = pos + a;
            i = i + 1;
        }
        proof {
            lemma_take_all(es);
            assert(pos == stream_len(self.ty, es, no_filenames));
            assert(pack_fits(self.ty, es, no_filenames));
        }

        // Emit: entry count.
        let mut out: Vec<u8> = Vec::new();
        let ghost cnt: u32 = (es.len() as int) as u32;
        push_u32_le(&mut out, n as u32);
        proof {
            assert(out@ =~= u32_bytes(cnt));
        }

        // Emit: offset table.
        let ghost head_ot: Seq<u8> = out@;
        let mut off: u64 = pbase;
        let mut i: usize = 0;
        while i < n
            invariant
                i <= n,
                n == es.len(),
                es == self@,
                pbase == payload_base(self.ty, es, no_filenames),
                pack_fits(self.ty, es, no_filenames),
                off == pbase + psum(es.take(i as int)),
                off <= 0xFFFF_FFFFu64,
                out@ == head_ot + otable(es.take(i as int), pbase as int),
                head_ot == u32_bytes(cnt),
            decreases n - i,
        {
            let sz: usize = self.entries[i].buffer.len();
            proof {
                lemma_take_succ(es, i as int);
                lemma_psum_take_le(es, i as int + 1);
                lemma_stream_parts(self.ty, es, no_filenames);
                assert(psum(es.take(i as int + 1)) == psum(es.take(i as int)) + sz);
            }
            push_u32_le(&mut out, off as u32);
            push_u32_le(&mut out, sz as u32);
            proof {
                assert(out@ =~= head_ot + otable(es.take(i as int + 1), pbase as int));
            }
            off = off + sz as u64;
            i = i + 1;
        }
        proof {
            lemma_take_all(es);
        }

        // Emit: filename offset table, name blob and padding.
        if is_pak {
            let ghost head_nt: Seq<u8> = out@;
            if no_filenames {
                let mut i: usize = 0;
                while i < n
                    invariant
                        i <= n,
                        out@ == head_nt + const_table(i as int, trl as u32),
                    decreases n - i,
                {
                    push_u32_le(&mut out, trl as u32);
                    i = i + 1;
                }
                push_u32_le(&mut out, 0u32);
                proof {
                    assert(out@ =~= head_nt + const_table(n as int, trl as u32) + u32_bytes(0));
                }
            } else {
                let mut noff: u64 = trl;
                let mut i: usize = 0;
                while i < n
                    invariant
                        i <= n,
                        n == es.len(),
                        es == self@,
                        self.ty == ArchiveType::Pak,
                        !no_filenames,
                        forall|j: int| 0 <= j < es.len() ==> es[j].name is Some,
                        trl == table_region_len(self.ty, es.len() as int),
                        region_len == blob(es).len(),
                        trl + region_len <= 0xFFFF_FFFFu64,
                        noff == trl + blob(es.take(i as int)).len(),
                        out@ == head_nt + ntable(es.take(i as int), trl as int),
                    decreases n - i,
                {
                    proof {
                        lemma_blob_take_le(es, i as int);
                    }
                    push_u32_le(&mut out, noff as u32);
                    let nm_len: u64 = match &self.entries[i].name {
                        Some(v) => v.len() as u64,
                        None => 0u64,
                    };
                    proof {
                        assert(es[i as int].name is Some);
                        assert(nm_len == es[i as int].name.unwrap().len());
                        lemma_take_succ(es, i as int);
                        lemma_blob_take_le(es, i as int + 1);
                        assert(out@ =~= head_nt + ntable(es.take(i as int + 1), trl as int));
                    }
                    noff = noff + nm_len + 2;
                    i = i + 1;
                }
                proof {
                    lemma_take_all(es);
                }

                // name blob
                let ghost head_nb: Seq<u8> = out@;
                let mut i: usize = 0;
                while i < n
                    invariant
                        i <= n,
                        n == es.len(),
                        es == self@,
                        self.ty == ArchiveType::Pak,
                        !no_filenames,
                        forall|j: int| 0 <= j < es.len() ==> es[j].name is Some,
                        out@ == head_nb + blob(es.take(i as int)),
                    decreases n - i,
                {
                    let e = &self.entries[i];
                    match &e.name {
                        Some(v) => {
                            push_bytes(&mut out, v.as_slice());
                        },
                        None => {
                            proof {
                                assert(es[i as int].name is Some);
                                assert(false);
                            }
                        },
                    }
                    out.push(10u8);
                    out.push(0u8);
                    proof {
                        lemma_take_succ(es, i as int);
                        assert(out@ =~= head_nb + blob(es.take(i as int + 1)));
                    }
                    i = i + 1;
                }
                proof {
                    lemma_take_all(es);
                }
            }
            push_zeros(&mut out, pad as usize);
        }

        // Emit: payload region.
        let ghost head_pl: Seq<u8> = out@;
        let mut i: usize = 0;
        while i < n
            invariant
                i <= n,
                n == es.len(),
                es == self@,
                out@ == head_pl + payload_region(es.take(i as int)),
            decreases n - i,
        {
            push_bytes(&mut out, self.entries[i].buffer.as_slice());
            proof {
                lemma_take_succ(es, i as int);
                assert(out@ =~= head_pl + payload_region(es.take(i as int + 1)));
            }
            i = i + 1;
        }
        proof {
            lemma_take_all(es);
            assert(out@ =~= pack_spec(self.ty, es, no_filenames));
        }
        Ok(out)
    }
}

} // verus!
