//! The container decoder: determining the archive type of a byte stream and
//! reading its entries.

pub mod encoder;

pub use crate::ArchiveError;
pub use crate::ArchiveType;

use vstd::prelude::*;

verus! {

use crate::bytes::{le32_at, read_u16_at, read_u32_at};
use crate::format::{
    entries_spec, entry_spec, is_term, is_ws, lemma_entries_spec_none, lemma_entries_spec_step,
    lemma_term_idx_char, lemma_trim_fixed, parse_name, sniff_spec, term_idx, trim_ws_end,
    FileEntryV,
};
use vstd::slice::{slice_subrange, slice_to_vec};

/// An open archive: the raw stream plus the type the sniff determined.
pub struct Archive {
    pub ty: ArchiveType,
    pub data: Vec<u8>,
    pub entries: Vec<FileEntry>,
}

/// One decoded entry: where its payload sat in the stream, its stored
/// (compressed) bytes, and its filename for `Pak` archives.
pub struct FileEntry {
    pub name: Option<Vec<u8>>,
    pub offset: u32,
    pub size: u32,
    pub buffer: Vec<u8>,
    pub ty: ArchiveType,
}

impl View for FileEntry {
    type V = FileEntryV;

    open spec fn view(&self) -> FileEntryV {
        FileEntryV {
            name: match self.name {
                Some(v) => Some(v@),
                None => None,
            },
            offset: self.offset,
            size: self.size,
            payload: self.buffer@,
            ty: self.ty,
        }
    }
}

/// The view of a decoded entry sequence.
pub open spec fn entry_views(s: Seq<FileEntry>) -> Seq<FileEntryV> {
    s.map_values(|e: FileEntry| e@)
}

impl Archive {
    /// An archive handle only exists for a stream the sniff accepted.
    pub open spec fn wf(&self) -> bool {
        sniff_spec(self.data@) == Ok::<ArchiveType, ArchiveError>(self.ty)
    }

    /// Determine the container type of `data` and open it.
    ///
    /// The entry count must be non-zero and the two bytes at the first
    /// entry's offset must identify a known compression format, else the
    /// stream is refused; see `sniff_spec` for the exact policy.
    pub fn open(data: Vec<u8>) -> (r: Result<Archive, ArchiveError>)
        ensures
            sniff_spec(data@) matches Ok(t) ==> r matches Ok(a) && a.ty == t && a.data@
                == data@ && a.wf(),
            sniff_spec(data@) matches Err(e) ==> r == Err::<Archive, ArchiveError>(e),
    {
        let ty = get_type(&data)?;
        Ok(Archive { ty, data, entries: Vec::new() })
    }
}

/// A forward iterator over the decoded entries, in archive order.
pub struct ArchiveIterator<'a> {
    pub index: u32,
    pub len: u32,
    pub entries: &'a Vec<FileEntry>,
}

impl<'a> ArchiveIterator<'a> {
    /// The iterator's length field matches the entry list it walks.
    pub open spec fn wf(&self) -> bool {
        self.len as int == self.entries@.len()
    }

    /// The next entry, or `None` once every entry has been handed out.
    pub fn next(&mut self) -> (r: Option<&'a FileEntry>)
        requires
            old(self).wf(),
        ensures
            final(self).wf(),
            final(self).entries == old(self).entries,
            final(self).len == old(self).len,
            old(self).index < old(self).len ==> (r matches Some(e) && e@ == old(
                self,
            ).entries@[old(self).index as int]@ && final(self).index == old(self).index + 1),
            old(self).index >= old(self).len ==> r is None && final(self).index == old(self).index,
    {
        if self.index < self.len {
            let entries: &'a Vec<FileEntry> = self.entries;
            let result = Some(&entries[self.index as usize]);
            self.index = self.index + 1;
            result
        } else {
            None
        }
    }
}

impl Archive {
    /// Decode every entry of the archive and hand back an iterator over
    /// them, in archive order.
    pub fn entries<'a>(&'a mut self) -> (r: Result<ArchiveIterator<'a>, ArchiveError>)
        requires
            old(self).wf(),
        ensures
            final(self).ty == old(self).ty,
            final(self).data == old(self).data,
            final(self).wf(),
            ({
                let d = old(self).data@;
                let n = le32_at(d, 0);
                match entries_spec(d, old(self).ty, n, n) {
                    Some(es) => r matches Ok(it) && it.wf() && it.index == 0 && it.len as int == n
                        && it.entries@ == final(self).entries@ && entry_views(it.entries@) == es,
                    None => r matches Err(e) && e == ArchiveError::Bounds,
                }
            }),
    {
        let iterator = self.get_entries()?;
        Ok(iterator)
    }

    /// One pass over the stream: for each index, read the offset-table
    /// record, then for `Pak` the filename-offset record and the name it
    /// points at, then the payload bytes the record points at.
    fn get_entries<'a>(&'a mut self) -> (r: Result<ArchiveIterator<'a>, ArchiveError>)
        requires
            old(self).wf(),
        ensures
            final(self).ty == old(self).ty,
            final(self).data == old(self).data,
            final(self).wf(),
            ({
                let d = old(self).data@;
                let n = le32_at(d, 0);
                match entries_spec(d, old(self).ty, n, n) {
                    Some(es) => r matches Ok(it) && it.wf() && it.index == 0 && it.len as int == n
                        && it.entries@ == final(self).entries@ && entry_views(it.entries@) == es,
                    None => r matches Err(e) && e == ArchiveError::Bounds,
                }
            }),
    {
        let ghost d: Seq<u8> = self.data@;
        let ghost ty = self.ty;
        let file_count: u32 = read_u32_at(&self.data, 0);
        let ghost n: int = le32_at(d, 0);

        let mut parsed: Vec<FileEntry> = Vec::new();
        let mut i: u32 = 0;
        while i < file_count
            invariant
                i <= file_count,
                self.ty == ty,
                self.data@ == d,
                self.wf(),
                self.data == old(self).data,
                ty == old(self).ty,
                file_count as int == n,
                n == le32_at(d, 0),
                parsed@.len() == i as int,
                entries_spec(d, ty, n, i as int) == Some(entry_views(parsed@)),
            decreases file_count - i,
        {
            match read_entry(&self.data, self.ty, file_count, i) {
                Ok(e) => {
                    proof {
                        lemma_entries_spec_step(d, ty, n, i as int);
                        assert(entry_views(parsed@.push(e)) =~= entry_views(parsed@).push(e@));
                    }
                    parsed.push(e);
                },
                Err(er) => {
                    proof {
                        lemma_entries_spec_none(d, ty, n, i as int, n);
                    }
                    return Err(er);
                },
            }
            i = i + 1;
        }

        self.entries = parsed;
        let iterator = ArchiveIterator { index: 0, len: file_count, entries: &self.entries };
        Ok(iterator)
    }
}

/// The outcome of unpacking one entry.
///
/// `Data` carries the decompressed bytes. `External` carries the stored
/// payload of a `Kub` entry unchanged: its codec is an external collaborator
/// of the library, and the caller hands these bytes to it.
pub enum Unpacked {
    Data(Vec<u8>),
    External(Vec<u8>),
}

impl FileEntry {
    /// Decompress this entry's payload.
    ///
    /// A `Pak` payload is a zlib stream and is inflated here: whenever the
    /// payload is exactly what compressing some input produced, that input
    /// comes back. A `Kub` payload is returned unchanged as `External` for
    /// the external codec.
    pub fn unpack(&self) -> (r: Result<Unpacked, ArchiveError>)
        ensures
            self.ty == ArchiveType::Kub ==> (r matches Ok(u) && u matches Unpacked::External(p)
                && p@ == self.buffer@),
            self.ty == ArchiveType::Pak ==> (forall|s: Seq<u8>|
                self.buffer@ == crate::zlib::zlib_of(s) ==> (r matches Ok(u) && u matches
                    Unpacked::Data(v) && v@ == s)),
            self.ty == ArchiveType::Pak ==> (r matches Ok(u) ==> u matches Unpacked::Data(_)),
            r matches Err(e) ==> self.ty == ArchiveType::Pak && e == ArchiveError::Codec,
    {
        if self.ty == ArchiveType::Kub {
            let copy = slice_to_vec(self.buffer.as_slice());
            Ok(Unpacked::External(copy))
        } else {
            match crate::zlib::zlib_decompress(self.buffer.as_slice()) {
                Some(v) => Ok(Unpacked::Data(v)),
                None => Err(ArchiveError::Codec),
            }
        }
    }
}

/// Decode entry `i` of `file_count`: its offset-table record, its filename
/// for `Pak`, and its payload bytes; refused when any of them lies beyond
/// the end of the stream.
fn read_entry(data: &Vec<u8>, ty: ArchiveType, file_count: u32, i: u32) -> (r: Result<
    FileEntry,
    ArchiveError,
>)
    ensures
        r matches Ok(e) ==> entry_spec(data@, ty, file_count as int, i as int) == Some(e@),
        r matches Err(er) ==> er == ArchiveError::Bounds && entry_spec(
            data@,
            ty,
            file_count as int,
            i as int,
        ) is None,
{
    let ghost d: Seq<u8> = data@;
    let ghost n: int = file_count as int;
    let len_d: usize = data.len();

    // offset table record
    let table_pos: u64 = 4 + 8 * (i as u64);
    if table_pos + 8 > len_d as u64 {
        return Err(ArchiveError::Bounds);
    }
    let offset: u32 = read_u32_at(data, table_pos as usize);
    let size: u32 = read_u32_at(data, table_pos as usize + 4);

    // filename
    let mut name: Option<Vec<u8>> = None;
    if ty == ArchiveType::Pak {
        let nt_pos: u64 = 4 + 8 * (file_count as u64) + 4 * (i as u64);
        if nt_pos + 4 > len_d as u64 {
            return Err(ArchiveError::Bounds);
        }
        let name_offset: u32 = read_u32_at(data, nt_pos as usize);
        if name_offset as u64 > len_d as u64 {
            return Err(ArchiveError::Bounds);
        }

        // scan to the first NUL or newline
        let mut j: usize = name_offset as usize;
        while j < len_d && data[j] != 0 && data[j] != 10
            invariant
                name_offset as int <= j as int <= len_d,
                data@ == d,
                len_d == d.len(),
                forall|k: int| name_offset as int <= k < j as int ==> !is_term(d[k]),
            decreases len_d - j,
        {
            j = j + 1;
        }
        proof {
            lemma_term_idx_char(d, name_offset as int, j as int);
        }
        let mut raw: Vec<u8> = slice_to_vec(slice_subrange(data.as_slice(), name_offset as usize, j));
        let ghost raw0: Seq<u8> = raw@;

        // strip trailing whitespace
        while raw.len() > 0 && is_ws_byte(raw[raw.len() - 1])
            invariant
                trim_ws_end(raw@) == trim_ws_end(raw0),
            decreases raw@.len(),
        {
            raw.pop();
        }
        proof {
            lemma_trim_fixed(raw@);
            assert(raw@ == parse_name(d, name_offset as int));
        }
        name = Some(raw);
    }

    // payload
    if offset as u64 + size as u64 > len_d as u64 {
        return Err(ArchiveError::Bounds);
    }
    let buffer: Vec<u8> = slice_to_vec(
        slice_subrange(data.as_slice(), offset as usize, offset as usize + size as usize),
    );

    let e = FileEntry { name, offset, size, buffer, ty };
    proof {
        assert(entry_spec(d, ty, n, i as int) matches Some(v) && v == e@);
    }
    Ok(e)
}

/// Whether `b` is an ASCII whitespace byte.
fn is_ws_byte(b: u8) -> (r: bool)
    ensures
        r == is_ws(b),
{
    b == 0x09 || b == 0x0a || b == 0x0b || b == 0x0c || b == 0x0d || b == 0x20
}

/// Read the entry count and the first payload's two leading bytes, and
/// decide the container type from them.
fn get_type(data: &Vec<u8>) -> (r: Result<ArchiveType, ArchiveError>)
    ensures
        r == sniff_spec(data@),
{
    // entry count: an empty archive is refused
    if data.len() < 4 {
        return Err(ArchiveError::Bounds);
    }
    let count = read_u32_at(data, 0);
    if count == 0 {
        return Err(ArchiveError::Format);
    }

    // first entry's offset
    if data.len() < 8 {
        return Err(ArchiveError::Bounds);
    }
    let offset = read_u32_at(data, 4);

    // compression signature at that offset
    proof {
        crate::bytes::lemma_le32_bounds(data@, 4);
    }
    if offset as u64 + 2 > data.len() as u64 {
        return Err(ArchiveError::Bounds);
    }
    let check = read_u16_at(data, offset as usize);
    if check == 0x9C78 {
        Ok(ArchiveType::Pak)
    } else if check == 0x0000 {
        Ok(ArchiveType::Kub)
    } else {
        Err(ArchiveError::Format)
    }
}

} // verus!
