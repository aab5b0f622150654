use vstd::bytes::{spec_u32_from_le_bytes, spec_u32_to_le_bytes};
use vstd::prelude::*;

use crate::reader::{content_end, entries_are, lemma_entries_le, entry_is, entry_span, header_ok, list_tag, padded, size_at, tag_at};
use crate::tree::{
    occupied_len, occupied_total, owned_copies, owned_copy_of, Chunk, Data, DataOwned, DataRef, Entry,
};
use crate::writer::{fits, fits_all, serialize, serialize_all};

verus! {

broadcast use vstd::std_specs::vec::group_vec_axioms, vstd::seq::group_seq_axioms;

proof fn lemma_serialize_first(s: Seq<Entry<DataOwned>>)
    requires
        s.len() > 0,
    ensures
        serialize_all(s) == serialize(s[0]) + serialize_all(s.drop_first()),
    decreases s.len(),
{
    if s.len() == 1 {
        assert(s.drop_first() =~= Seq::<Entry<DataOwned>>::empty());
        assert(s.drop_last() =~= Seq::<Entry<DataOwned>>::empty());
        assert(serialize_all(s) =~= serialize(s[0]) + serialize_all(s.drop_first()));
    } else {
        lemma_serialize_first(s.drop_last());
        assert(s.drop_first().drop_last() =~= s.drop_last().drop_first());
        assert(s.drop_last()[0] == s[0]);
        assert(s.drop_first().last() == s.last());
        assert(serialize_all(s) =~= serialize(s[0]) + serialize_all(s.drop_first()));
    }
}

proof fn lemma_fits_first(s: Seq<Entry<DataOwned>>)
    requires
        s.len() > 0,
    ensures
        fits_all(s) == (fits(s[0]) && fits_all(s.drop_first())),
    decreases s.len(),
{
    if s.len() == 1 {
        assert(s.drop_first() =~= Seq::<Entry<DataOwned>>::empty());
        assert(s.drop_last() =~= Seq::<Entry<DataOwned>>::empty());
    } else {
        lemma_fits_first(s.drop_last());
        assert(s.drop_first().drop_last() =~= s.drop_last().drop_first());
        assert(s.drop_last()[0] == s[0]);
        assert(s.drop_first().last() == s.last());
    }
}

proof fn lemma_copies_first(r: Seq<Entry<DataOwned>>, v: Seq<Entry<DataRef>>, map: Seq<u8>)
    requires
        v.len() > 0,
        owned_copies(r, v, map),
    ensures
        owned_copy_of(r[0], v[0], map),
        owned_copies(r.drop_first(), v.drop_first(), map),
    decreases v.len(),
{
    if v.len() == 1 {
        assert(r.drop_last() =~= Seq::<Entry<DataOwned>>::empty());
        assert(v.drop_first() =~= Seq::<Entry<DataRef>>::empty());
        assert(r.drop_first() =~= Seq::<Entry<DataOwned>>::empty());
    } else {
        lemma_copies_first(r.drop_last(), v.drop_last(), map);
        assert(r.drop_first().drop_last() =~= r.drop_last().drop_first());
        assert(v.drop_first().drop_last() =~= v.drop_last().drop_first());
        assert(r.drop_last()[0] == r[0]);
        assert(v.drop_last()[0] == v[0]);
        assert(r.drop_first().last() == r.last());
        assert(v.drop_first().last() == v.last());
    }
}

proof fn lemma_entry_round_trip(buf: Seq<u8>, p: int, e: Entry<DataRef>, r: Entry<DataOwned>)
    requires
        entry_is(buf, p, e),
        owned_copy_of(r, e, buf),
        0 <= p,
        p + entry_span(buf, p) <= buf.len(),
        entry_span(buf, p) <= u32::MAX + 8,
    ensures
        fits(r),
        serialize(r) == buf.subrange(p, p + entry_span(buf, p)),
    decreases e,
{
    vstd::bytes::lemma_auto_spec_u32_to_from_le_bytes();
    let end = p + entry_span(buf, p);
    let size_bytes = buf.subrange(p + 4, p + 8);
    assert(spec_u32_to_le_bytes(spec_u32_from_le_bytes(size_bytes)) == size_bytes);
    match e {
        Entry::Chunk(c) => {
            if let Entry::Chunk(d) = r {
                assert(serialize(r) =~= buf.subrange(p, end));
            }
        },
        Entry::List(l) => {
            if let Entry::List(m) = r {
                lemma_entries_round_trip(buf, p + 12, end, l.children@, m.children@);
                assert(serialize(r) =~= buf.subrange(p, end));
            }
        },
    }
}

proof fn lemma_entries_round_trip(
    buf: Seq<u8>,
    p: int,
    end: int,
    v: Seq<Entry<DataRef>>,
    r: Seq<Entry<DataOwned>>,
)
    requires
        entries_are(buf, p, end, v),
        owned_copies(r, v, buf),
        0 <= p,
        end <= buf.len(),
        end - p <= u32::MAX + 8,
    ensures
        fits_all(r),
        serialize_all(r) == buf.subrange(p, end),
    decreases v,
{
    if v.len() == 0 {
        assert(r =~= Seq::<Entry<DataOwned>>::empty());
        assert(buf.subrange(p, end) =~= Seq::<u8>::empty());
    } else {
        let next = p + entry_span(buf, p);
        lemma_entries_le(buf, next, end, v.drop_first());
        lemma_copies_first(r, v, buf);
        lemma_entry_round_trip(buf, p, v[0], r[0]);
        lemma_entries_round_trip(buf, next, end, v.drop_first(), r.drop_first());
        lemma_serialize_first(r);
        lemma_fits_first(r);
        assert(buf.subrange(p, end) =~= buf.subrange(p, next) + buf.subrange(next, end));
    }
}

/// Round trip: the top-level entries read from a well-formed file, once
/// copied into owned form, are written as exactly the bytes that they were
/// read from; and the size that writing recomputes for the root equals the
/// size that the header declares, so that the file's tag, declared size and
/// type followed by those bytes are the file's content region.
pub proof fn lemma_round_trip(buf: Seq<u8>, v: Seq<Entry<DataRef>>, r: Seq<Entry<DataOwned>>)
    requires
        header_ok(buf),
        entries_are(buf, 12, content_end(buf), v),
        owned_copies(r, v, buf),
    ensures
        fits_all(r),
        serialize_all(r) == buf.subrange(12, content_end(buf)),
        spec_u32_to_le_bytes((4 + serialize_all(r).len()) as u32) == buf.subrange(4, 8),
        buf.subrange(0, 12) + serialize_all(r) == buf.subrange(0, content_end(buf)),
{
    vstd::bytes::lemma_auto_spec_u32_to_from_le_bytes();
    let end = content_end(buf);
    lemma_entries_round_trip(buf, 12, end, v, r);
    assert(spec_u32_to_le_bytes(spec_u32_from_le_bytes(buf.subrange(4, 8))) == buf.subrange(4, 8));
    assert(buf.subrange(0, 12) + buf.subrange(12, end) =~= buf.subrange(0, end));
}

/// Size of an owned entry as written, from its parts: a chunk's header and
/// payload; a list's header and the sizes of its children.
pub open spec fn serialized_size(e: Entry<DataOwned>) -> nat
    decreases e,
{
    match e {
        Entry::Chunk(c) => 8 + c.data.0@.len(),
        Entry::List(l) => 8 + (4 + serialized_sizes(l.children@)),
    }
}

/// Sum of `serialized_size` over a sequence of entries.
pub open spec fn serialized_sizes(s: Seq<Entry<DataOwned>>) -> nat
    decreases s,
{
    if s.len() == 0 {
        0
    } else {
        serialized_sizes(s.drop_last()) + serialized_size(s.last())
    }
}

/// Size accounting: an entry is written as `serialized_size` bytes, and the
/// size field written for a list is 4 plus the written sizes of its children.
pub proof fn lemma_size_accounting(e: Entry<DataOwned>)
    ensures
        serialize(e).len() == serialized_size(e),
        e matches Entry::List(l) ==> (fits(e) ==> spec_u32_from_le_bytes(serialize(e).subrange(4, 8))
            == 4 + serialized_sizes(l.children@)),
    decreases e,
{
    vstd::bytes::lemma_auto_spec_u32_to_from_le_bytes();
    if let Entry::List(l) = e {
        lemma_sizes_all(l.children@);
        let n = (4 + serialize_all(l.children@).len()) as u32;
        assert(serialize(e).subrange(4, 8) =~= spec_u32_to_le_bytes(n));
    }
}

proof fn lemma_sizes_all(s: Seq<Entry<DataOwned>>)
    ensures
        serialize_all(s).len() == serialized_sizes(s),
    decreases s,
{
    if s.len() > 0 {
        lemma_sizes_all(s.drop_last());
        lemma_size_accounting(s.last());
    }
}

/// Padding: a chunk read from a buffer occupies an even number of payload
/// bytes, one more than its declared size where that is odd, and exactly
/// its declared size where that is even.
pub proof fn lemma_padding(buf: Seq<u8>, p: int, c: Chunk<DataRef>)
    requires
        entry_is(buf, p, Entry::Chunk(c)),
    ensures
        c.data.size % 2 == 0,
        c.chunk_size % 2 == 1 <==> c.data.size == c.chunk_size + 1,
        c.chunk_size % 2 == 0 <==> c.data.size == c.chunk_size,
{
}

proof fn lemma_occupied_first<T: Data>(s: Seq<Entry<T>>)
    requires
        s.len() > 0,
    ensures
        occupied_total(s) == occupied_len(s[0]) + occupied_total(s.drop_first()),
    decreases s.len(),
{
    if s.len() == 1 {
        assert(s.drop_first() =~= Seq::<Entry<T>>::empty());
        assert(s.drop_last() =~= Seq::<Entry<T>>::empty());
    } else {
        lemma_occupied_first(s.drop_last());
        assert(s.drop_first().drop_last() =~= s.drop_last().drop_first());
        assert(s.drop_last()[0] == s[0]);
        assert(s.drop_first().last() == s.last());
    }
}

/// An entry read at `p` occupies exactly the span that its header gives.
pub proof fn lemma_entry_occupies_span(buf: Seq<u8>, p: int, e: Entry<DataRef>)
    requires
        entry_is(buf, p, e),
    ensures
        occupied_len(e) == entry_span(buf, p),
    decreases e,
{
    if let Entry::List(l) = e {
        lemma_tiling(buf, p + 12, p + entry_span(buf, p), l.children@);
    }
}

/// Tiling: entries read over `[p, end)` stand end to end, each occupying the
/// span that its header gives and at least its 8-byte header, so that together
/// they cover the range exactly, with no gap and no overlap.
pub proof fn lemma_tiling(buf: Seq<u8>, p: int, end: int, v: Seq<Entry<DataRef>>)
    requires
        entries_are(buf, p, end, v),
    ensures
        p + occupied_total(v) == end,
        forall|i: int| 0 <= i < v.len() ==> occupied_len(#[trigger] v[i]) >= 8,
    decreases v,
{
    if v.len() > 0 {
        let next = p + entry_span(buf, p);
        lemma_entry_occupies_span(buf, p, v[0]);
        lemma_tiling(buf, next, end, v.drop_first());
        lemma_occupied_first(v);
        assert forall|i: int| 0 <= i < v.len() implies occupied_len(#[trigger] v[i]) >= 8 by {
            if i > 0 {
                assert(v[i] == v.drop_first()[i - 1]);
            }
        }
    }
}

} // verus!
