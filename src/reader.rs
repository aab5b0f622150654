use vstd::bytes::{spec_u32_from_le_bytes, u32_from_le_bytes};
use vstd::prelude::*;

use crate::tree::{refs_within, refs_within_all, Chunk, DataRef, Entry, FourCC, List};

verus! {

broadcast use vstd::std_specs::vec::group_vec_axioms, vstd::seq::group_seq_axioms;

/// Errors of reading and writing.
#[derive(Debug, Clone, Copy, PartialEq, Eq)]
pub enum RiffError {
    /// The bytes are not a well-formed RIFF structure.
    Format,
    /// A size does not fit the four-byte size field.
    DataTooLarge,
}

/// The tag `RIFF`.
pub open spec fn riff_tag() -> Seq<u8> {
    seq![0x52u8, 0x49u8, 0x46u8, 0x46u8]
}

/// The tag `LIST`.
pub open spec fn list_tag() -> Seq<u8> {
    seq![0x4cu8, 0x49u8, 0x53u8, 0x54u8]
}

/// The four-byte tag at `pos`.
pub open spec fn tag_at(buf: Seq<u8>, pos: int) -> Seq<u8> {
    buf.subrange(pos, pos + 4)
}

/// The little-endian size field that follows the tag at `pos`.
pub open spec fn size_at(buf: Seq<u8>, pos: int) -> nat {
    spec_u32_from_le_bytes(buf.subrange(pos + 4, pos + 8)) as nat
}

/// A payload length rounded up to an even count.
pub open spec fn padded(n: nat) -> nat {
    n + n % 2
}

/// Bytes occupied by the entry whose header stands at `pos`, header included.
pub open spec fn entry_span(buf: Seq<u8>, pos: int) -> nat {
    if tag_at(buf, pos) == list_tag() {
        8 + size_at(buf, pos)
    } else {
        8 + padded(size_at(buf, pos))
    }
}

/// The entry at `pos` is well formed and ends no later than `end`.
pub open spec fn valid_entry(buf: Seq<u8>, pos: int, end: int) -> bool
    decreases end - pos, 0int,
{
    &&& 0 <= pos
    &&& pos + 8 <= end
    &&& pos + entry_span(buf, pos) <= end
    &&& tag_at(buf, pos) == list_tag() ==> {
        &&& size_at(buf, pos) >= 4
        &&& valid_entries(buf, pos + 12, pos + entry_span(buf, pos))
    }
}

/// Entries laid end to end from `pos` are well formed and fill `[pos, end)`.
pub open spec fn valid_entries(buf: Seq<u8>, pos: int, end: int) -> bool
    decreases end - pos, 1int,
{
    pos < end ==> {
        &&& pos + entry_span(buf, pos) <= end
        &&& valid_entry(buf, pos, end)
        &&& valid_entries(buf, pos + entry_span(buf, pos), end)
    }
}

/// `e` is the entry that the bytes at `pos` describe.
pub open spec fn entry_is(buf: Seq<u8>, pos: int, e: Entry<DataRef>) -> bool
    decreases e,
{
    match e {
        Entry::List(l) => {
            &&& tag_at(buf, pos) == list_tag()
            &&& l.fourcc@ == tag_at(buf, pos)
            &&& l.list_type@ == buf.subrange(pos + 8, pos + 12)
            &&& entries_are(buf, pos + 12, pos + entry_span(buf, pos), l.children@)
        },
        Entry::Chunk(c) => {
            &&& tag_at(buf, pos) != list_tag()
            &&& c.id@ == tag_at(buf, pos)
            &&& c.chunk_size == size_at(buf, pos)
            &&& c.data.offset == pos + 8
            &&& c.data.size == padded(size_at(buf, pos))
        },
    }
}

/// `s` are the entries that the bytes describe, laid end to end from `pos`
/// and ending exactly at `end`.
pub open spec fn entries_are(buf: Seq<u8>, pos: int, end: int, s: Seq<Entry<DataRef>>) -> bool
    decreases s,
{
    if s.len() == 0 {
        pos == end
    } else {
        &&& pos < end
        &&& entry_is(buf, pos, s[0])
        &&& entries_are(buf, pos + entry_span(buf, pos), end, s.drop_first())
    }
}

/// Copies four bytes into a four-character code.
pub fn parse_fourcc(header: &[u8]) -> (r: FourCC)
    requires
        header@.len() == 4,
    ensures
        r@ == header@,
{
    let r: FourCC = [header[0], header[1], header[2], header[3]];
    assert(r@ =~= header@);
    r
}

/// Reads a little-endian 32-bit size.
pub fn parse_size(array: &[u8]) -> (r: u32)
    requires
        array@.len() == 4,
    ensures
        r == spec_u32_from_le_bytes(array@),
{
    u32_from_le_bytes(array)
}

fn tag_is(buf: &[u8], pos: usize, t0: u8, t1: u8, t2: u8, t3: u8) -> (r: bool)
    requires
        pos + 4 <= buf@.len(),
    ensures
        r == (tag_at(buf@, pos as int) == seq![t0, t1, t2, t3]),
{
    let r = buf[pos] == t0 && buf[pos + 1] == t1 && buf[pos + 2] == t2 && buf[pos + 3] == t3;
    if r {
        assert(tag_at(buf@, pos as int) =~= seq![t0, t1, t2, t3]);
    } else {
        assert(tag_at(buf@, pos as int)[0] == buf@[pos as int]);
        assert(tag_at(buf@, pos as int)[1] == buf@[pos + 1]);
        assert(tag_at(buf@, pos as int)[2] == buf@[pos + 2]);
        assert(tag_at(buf@, pos as int)[3] == buf@[pos + 3]);
    }
    r
}

fn size_field(buf: &[u8], pos: usize) -> (r: usize)
    requires
        pos + 8 <= buf@.len(),
    ensures
        r == size_at(buf@, pos as int),
{
    let n = buf.len();
    let part = vstd::slice::slice_subrange(buf, pos + 4, pos + 8);
    parse_size(part) as usize
}

/// Entries read over `[p, q)` start no later than they end.
pub(crate) proof fn lemma_entries_le(buf: Seq<u8>, p: int, q: int, s: Seq<Entry<DataRef>>)
    requires
        entries_are(buf, p, q, s),
    ensures
        p <= q,
    decreases s.len(),
{
    if s.len() > 0 {
        lemma_entries_le(buf, p + entry_span(buf, p), q, s.drop_first());
    }
}

proof fn lemma_entries_append(buf: Seq<u8>, p: int, q: int, s: Seq<Entry<DataRef>>, e: Entry<DataRef>)
    requires
        entries_are(buf, p, q, s),
        entry_is(buf, q, e),
    ensures
        entries_are(buf, p, q + entry_span(buf, q), s.push(e)),
    decreases s.len(),
{
    if s.len() == 0 {
        assert(s.push(e).drop_first() =~= Seq::<Entry<DataRef>>::empty());
        assert(entries_are(buf, q + entry_span(buf, q), q + entry_span(buf, q), Seq::empty()));
        assert(s.push(e)[0] == e);
    } else {
        lemma_entries_append(buf, p + entry_span(buf, p), q, s.drop_first(), e);
        lemma_entries_le(buf, p + entry_span(buf, p), q, s.drop_first());
        assert(s.push(e).drop_first() =~= s.drop_first().push(e));
        assert(s.push(e)[0] == s[0]);
    }
}

/// Reads the entry whose header stands at `pos`, which must end by `end`.
/// Returns it with the position just past it.
fn read_entry(buf: &[u8], pos: usize, end: usize) -> (r: Result<(Entry<DataRef>, usize), RiffError>)
    requires
        pos < end <= buf@.len(),
    ensures
        r is Ok <==> valid_entry(buf@, pos as int, end as int),
        r matches Ok((e, next)) ==> {
            &&& entry_is(buf@, pos as int, e)
            &&& next == pos + entry_span(buf@, pos as int)
        },
        r matches Err(err) ==> err == RiffError::Format,
    decreases end - pos, 0int,
{
    if end - pos < 8 {
        return Err(RiffError::Format);
    }
    let id = parse_fourcc(vstd::slice::slice_subrange(buf, pos, pos + 4));
    let size = size_field(buf, pos);
    if tag_is(buf, pos, 0x4c, 0x49, 0x53, 0x54) {
        if size < 4 || size > end - pos - 8 {
            return Err(RiffError::Format);
        }
        let next = pos + 8 + size;
        let list_type = parse_fourcc(vstd::slice::slice_subrange(buf, pos + 8, pos + 12));
        match read_entries_in(buf, pos + 12, next) {
            Ok(children) => Ok((Entry::List(List { fourcc: id, list_type, children }), next)),
            Err(err) => Err(err),
        }
    } else {
        if size > end - pos - 8 {
            return Err(RiffError::Format);
        }
        let occupied = size + size % 2;
        if occupied > end - pos - 8 {
            return Err(RiffError::Format);
        }
        let data = DataRef { offset: pos + 8, size: occupied };
        Ok((Entry::Chunk(Chunk { id, data, chunk_size: size }), pos + 8 + occupied))
    }
}

/// Reads the entries laid end to end over `[start, end)`. Fails where one of
/// them is malformed or runs past `end`.
pub fn read_entries_in(buf: &[u8], start: usize, end: usize) -> (r: Result<Vec<Entry<DataRef>>, RiffError>)
    requires
        start <= end <= buf@.len(),
    ensures
        r is Ok <==> valid_entries(buf@, start as int, end as int),
        r matches Ok(v) ==> entries_are(buf@, start as int, end as int, v@),
        r matches Err(err) ==> err == RiffError::Format,
    decreases end - start, 1int,
{
    let mut entries: Vec<Entry<DataRef>> = Vec::new();
    let mut pos: usize = start;
    while pos < end
        invariant
            start <= pos <= end <= buf@.len(),
            valid_entries(buf@, start as int, end as int) == valid_entries(buf@, pos as int, end as int),
            entries_are(buf@, start as int, pos as int, entries@),
        decreases end - pos,
    {
        match read_entry(buf, pos, end) {
            Ok((e, next)) => {
                proof {
                    lemma_entries_append(buf@, start as int, pos as int, entries@, e);
                }
                entries.push(e);
                pos = next;
            },
            Err(err) => {
                return Err(err);
            },
        }
    }
    Ok(entries)
}

/// The file header: the tag `RIFF`, a declared size of at least four bytes
/// that does not run past the buffer, and the file type.
pub open spec fn header_ok(b: Seq<u8>) -> bool {
    &&& b.len() >= 12
    &&& tag_at(b, 0) == riff_tag()
    &&& size_at(b, 0) >= 4
    &&& 8 + size_at(b, 0) <= b.len()
}

/// End of the region that the file header declares: the tag and size field
/// take 8 bytes, and the declared size covers the rest.
pub open spec fn content_end(b: Seq<u8>) -> int {
    8 + size_at(b, 0) as int
}

/// Checks the file header. Returns the file type and the declared size of
/// what follows the size field. A declared size that runs past the end of
/// `bytes` is refused; bytes after the declared end are left unread.
pub fn parse_header(bytes: &[u8]) -> (r: Result<(FourCC, usize), RiffError>)
    ensures
        r is Ok <==> header_ok(bytes@),
        r matches Ok((t, n)) ==> t@ == bytes@.subrange(8, 12) && n == size_at(bytes@, 0),
        r matches Err(err) ==> err == RiffError::Format,
{
    if bytes.len() < 12 {
        return Err(RiffError::Format);
    }
    if !tag_is(bytes, 0, 0x52, 0x49, 0x46, 0x46) {
        return Err(RiffError::Format);
    }
    let size = size_field(bytes, 0);
    if size < 4 || size > bytes.len() - 8 {
        return Err(RiffError::Format);
    }
    let file_type = parse_fourcc(vstd::slice::slice_subrange(bytes, 8, 12));
    Ok((file_type, size))
}

/// Reads the top-level entries of a file whose header declares `data_size`:
/// those that fill `[12, 8 + data_size)`.
pub fn read_entries_from(bytes: &[u8], data_size: usize) -> (r: Result<Vec<Entry<DataRef>>, RiffError>)
    requires
        4 <= data_size,
        8 + data_size <= bytes@.len(),
    ensures
        r is Ok <==> valid_entries(bytes@, 12, 8 + data_size),
        r matches Ok(v) ==> {
            &&& entries_are(bytes@, 12, 8 + data_size, v@)
            &&& refs_within_all(v@, bytes@.len())
            &&& forall|i: int| 0 <= i < v@.len() ==> refs_within(#[trigger] v@[i], bytes@.len())
        },
        r matches Err(err) ==> err == RiffError::Format,
{
    let n = bytes.len();
    let r = read_entries_in(bytes, 12, 8 + data_size);
    if let Ok(v) = &r {
        proof {
            lemma_entries_within(bytes@, 12, 8 + data_size, v@);
        }
    }
    r
}

proof fn lemma_all_within(s: Seq<Entry<DataRef>>, n: nat)
    requires
        forall|i: int| 0 <= i < s.len() ==> refs_within(#[trigger] s[i], n),
    ensures
        refs_within_all(s, n),
    decreases s.len(),
{
    if s.len() > 0 {
        assert forall|i: int| 0 <= i < s.drop_last().len() implies refs_within(#[trigger] s.drop_last()[i], n) by {
            assert(s.drop_last()[i] == s[i]);
        }
        lemma_all_within(s.drop_last(), n);
    }
}

/// Entries read from a buffer refer only to bytes of that buffer.
proof fn lemma_entries_within(buf: Seq<u8>, p: int, end: int, s: Seq<Entry<DataRef>>)
    requires
        entries_are(buf, p, end, s),
        0 <= p,
        end <= buf.len(),
    ensures
        refs_within_all(s, buf.len()),
        forall|i: int| 0 <= i < s.len() ==> refs_within(#[trigger] s[i], buf.len()),
    decreases s,
{
    if s.len() > 0 {
        let next = p + entry_span(buf, p);
        lemma_entries_le(buf, next, end, s.drop_first());
        lemma_entry_within(buf, p, s[0]);
        lemma_entries_within(buf, next, end, s.drop_first());
        assert forall|i: int| 0 <= i < s.len() implies refs_within(#[trigger] s[i], buf.len()) by {
            if i > 0 {
                assert(s[i] == s.drop_first()[i - 1]);
            }
        }
    }
    lemma_all_within(s, buf.len());
}

proof fn lemma_entry_within(buf: Seq<u8>, p: int, e: Entry<DataRef>)
    requires
        entry_is(buf, p, e),
        0 <= p,
        p + entry_span(buf, p) <= buf.len(),
    ensures
        refs_within(e, buf.len()),
    decreases e,
{
    if let Entry::List(l) = e {
        lemma_entries_within(buf, p + 12, p + entry_span(buf, p), l.children@);
    }
}

} // verus!
