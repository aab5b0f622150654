use memmap2::Mmap;
use vstd::prelude::*;

use crate::reader::{
    content_end, entries_are, header_ok, parse_header, read_entries_from, size_at, valid_entries, RiffError,
};
use crate::tree::{refs_within, refs_within_all, DataRef, Entry, FourCC};

verus! {

/// memmap2's read-only memory map, held opaque.
#[verifier::external_type_specification]
#[verifier::external_body]
pub struct ExMmap(Mmap);

/// The bytes that a memory map shows.
pub uninterp spec fn mmap_contents(m: Mmap) -> Seq<u8>;

/// Relies on memmap2's `AsRef<[u8]>` for `Mmap`: the mapped bytes, the same
/// for every call on one map.
#[verifier::external_body]
fn mapped(m: &Mmap) -> (r: &[u8])
    ensures
        r@ == mmap_contents(*m),
{
    m.as_ref()
}

/// An opened RIFF file over a read-only memory map.
pub struct RiffFile {
    /// The mapped file.
    mmap: Mmap,
    /// File type, such as `AVI `.
    file_type: FourCC,
    /// Declared size of what follows the `RIFF` tag and the size field.
    data_size: usize,
}

impl RiffFile {
    #[verifier::type_invariant]
    spec fn well_formed(self) -> bool {
        &&& header_ok(mmap_contents(self.mmap))
        &&& self.file_type@ == mmap_contents(self.mmap).subrange(8, 12)
        &&& self.data_size == size_at(mmap_contents(self.mmap), 0)
    }

    /// The bytes of the file.
    pub closed spec fn contents(self) -> Seq<u8> {
        mmap_contents(self.mmap)
    }

    /// Opens a RIFF file over a map of its bytes. Fails where the header is
    /// not well formed; a declared size that runs past the end of the map is
    /// refused, bytes after the declared end are ignored.
    pub fn from_mmap(mmap: Mmap) -> (r: Result<RiffFile, RiffError>)
        ensures
            r is Ok <==> header_ok(mmap_contents(mmap)),
            r matches Ok(f) ==> f.contents() == mmap_contents(mmap),
            r matches Err(err) ==> err == RiffError::Format,
    {
        let (file_type, data_size) = match parse_header(mapped(&mmap)) {
            Ok(h) => h,
            Err(err) => return Err(err),
        };
        Ok(RiffFile { mmap, file_type, data_size })
    }

    /// The file type code, bytes 8 to 12.
    pub fn file_type(&self) -> (r: &FourCC)
        ensures
            r@ == self.contents().subrange(8, 12),
    {
        proof {
            use_type_invariant(self);
        }
        &self.file_type
    }

    /// The declared size of what follows the size field.
    pub fn file_size(&self) -> (r: usize)
        ensures
            r == size_at(self.contents(), 0),
            4 <= r,
            8 + r <= self.contents().len(),
    {
        proof {
            use_type_invariant(self);
        }
        self.data_size
    }

    /// Reads the top-level entries, which refer to the bytes of the file.
    pub fn read_entries(&self) -> (r: Result<Vec<Entry<DataRef>>, RiffError>)
        ensures
            r is Ok <==> valid_entries(self.contents(), 12, content_end(self.contents())),
            r matches Ok(v) ==> {
                &&& entries_are(self.contents(), 12, content_end(self.contents()), v@)
                &&& refs_within_all(v@, self.contents().len())
                &&& forall|i: int| 0 <= i < v@.len() ==> refs_within(#[trigger] v@[i], self.contents().len())
            },
            r matches Err(err) ==> err == RiffError::Format,
    {
        proof {
            use_type_invariant(self);
        }
        read_entries_from(mapped(&self.mmap), self.data_size)
    }

    /// The bytes of `range`.
    pub fn read_bytes(&self, range: std::ops::Range<usize>) -> (r: &[u8])
        requires
            range.start <= range.end <= self.contents().len(),
        ensures
            r@ == self.contents().subrange(range.start as int, range.end as int),
    {
        vstd::slice::slice_subrange(mapped(&self.mmap), range.start, range.end)
    }

    /// All bytes of the file.
    pub fn bytes(&self) -> (r: &[u8])
        ensures
            r@ == self.contents(),
    {
        mapped(&self.mmap)
    }
}

} // verus!
