use vstd::array::array_as_slice;
use vstd::bytes::{spec_u32_to_le_bytes, u32_to_le_bytes};
use vstd::prelude::*;

use crate::reader::RiffError;
use crate::tree::{DataOwned, Entry, List};

verus! {

broadcast use vstd::std_specs::vec::group_vec_axioms, vstd::seq::group_seq_axioms, vstd::array::group_array_axioms;

/// The bytes that an owned entry is written as: a chunk as its id, its
/// declared size and its payload as held; a list as its tag, its recomputed
/// size, its type and its children in order.
pub open spec fn serialize(e: Entry<DataOwned>) -> Seq<u8>
    decreases e,
{
    match e {
        Entry::Chunk(c) => c.id@ + spec_u32_to_le_bytes(c.chunk_size as u32) + c.data.0@,
        Entry::List(l) => l.fourcc@ + spec_u32_to_le_bytes((4 + serialize_all(l.children@).len()) as u32)
            + l.list_type@ + serialize_all(l.children@),
    }
}

/// The entries of `s` written one after another.
pub open spec fn serialize_all(s: Seq<Entry<DataOwned>>) -> Seq<u8>
    decreases s,
{
    if s.len() == 0 {
        Seq::empty()
    } else {
        serialize_all(s.drop_last()) + serialize(s.last())
    }
}

/// Every size field that writing `e` fills fits in four bytes.
pub open spec fn fits(e: Entry<DataOwned>) -> bool
    decreases e,
{
    match e {
        Entry::Chunk(c) => c.chunk_size <= u32::MAX && c.data.0@.len() <= u32::MAX,
        Entry::List(l) => fits_all(l.children@) && 4 + serialize_all(l.children@).len() <= u32::MAX,
    }
}

/// `fits` of each entry of `s`.
pub open spec fn fits_all(s: Seq<Entry<DataOwned>>) -> bool
    decreases s,
{
    if s.len() == 0 {
        true
    } else {
        fits_all(s.drop_last()) && fits(s.last())
    }
}

fn push_all(out: &mut Vec<u8>, bytes: &[u8])
    ensures
        final(out)@ == old(out)@ + bytes@,
{
    let mut i: usize = 0;
    while i < bytes.len()
        invariant
            i <= bytes@.len(),
            out@ == old(out)@ + bytes@.subrange(0, i as int),
        decreases bytes@.len() - i,
    {
        out.push(bytes[i]);
        i = i + 1;
        assert(out@ =~= old(out)@ + bytes@.subrange(0, i as int));
    }
    assert(bytes@.subrange(0, i as int) =~= bytes@);
}

proof fn lemma_serialize_len(e: Entry<DataOwned>)
    ensures
        e matches Entry::Chunk(c) ==> serialize(e).len() == 8 + c.data.0@.len(),
        e matches Entry::List(l) ==> serialize(e).len() == 12 + serialize_all(l.children@).len(),
{
    vstd::bytes::lemma_auto_spec_u32_to_from_le_bytes();
}

/// Number of bytes that writing `e` gives, or `None` where a size does not fit.
fn checked_len(e: &Entry<DataOwned>) -> (r: Option<u64>)
    ensures
        r is Some <==> fits(*e),
        r matches Some(n) ==> n == serialize(*e).len() && n <= 8 + u32::MAX,
    decreases *e,
{
    proof {
        lemma_serialize_len(*e);
    }
    match e {
        Entry::Chunk(c) => {
            if c.chunk_size > 0xffff_ffff || c.data.0.len() > 0xffff_ffff {
                None
            } else {
                Some(8 + c.data.0.len() as u64)
            }
        },
        Entry::List(l) => checked_list_len(l),
    }
}

fn checked_list_len(l: &List<DataOwned>) -> (r: Option<u64>)
    ensures
        r is Some <==> fits(Entry::List(*l)),
        r matches Some(n) ==> n == serialize(Entry::List(*l)).len() && n <= 8 + u32::MAX,
    decreases *l,
{
    proof {
        lemma_serialize_len(Entry::List(*l));
    }
    let mut total: u64 = 0;
    let mut i: usize = 0;
    while i < l.children.len()
        invariant
            i <= l.children@.len(),
            total <= 0xffff_fffb,
            fits_all(l.children@.subrange(0, i as int)),
            total == serialize_all(l.children@.subrange(0, i as int)).len(),
        decreases l.children@.len() - i,
    {
        let n = match checked_len(&l.children[i]) {
            Some(n) => n,
            None => {
                proof {
                    if fits_all(l.children@) {
                        lemma_fits_index(l.children@, i as int);
                    }
                }
                return None;
            },
        };
        proof {
            assert(l.children@.subrange(0, i + 1).drop_last() =~= l.children@.subrange(0, i as int));
        }
        if n > 0xffff_fffb - total {
            proof {
                lemma_serialize_prefix(l.children@, i as int + 1);
            }
            return None;
        }
        total = total + n;
        i = i + 1;
    }
    assert(l.children@.subrange(0, i as int) =~= l.children@);
    Some(12 + total)
}

/// Writing a prefix of entries gives no more bytes than writing them all.
proof fn lemma_serialize_prefix(s: Seq<Entry<DataOwned>>, k: int)
    requires
        0 <= k <= s.len(),
    ensures
        serialize_all(s.subrange(0, k)).len() <= serialize_all(s).len(),
    decreases s.len() - k,
{
    if k < s.len() {
        lemma_serialize_prefix(s, k + 1);
        assert(s.subrange(0, k + 1).drop_last() =~= s.subrange(0, k));
    } else {
        assert(s.subrange(0, k) =~= s);
    }
}

fn write_unchecked(e: &Entry<DataOwned>, out: &mut Vec<u8>)
    requires
        fits(*e),
    ensures
        final(out)@ == old(out)@ + serialize(*e),
    decreases *e,
{
    match e {
        Entry::Chunk(c) => {
            push_all(out, array_as_slice(&c.id));
            let size = u32_to_le_bytes(c.chunk_size as u32);
            push_all(out, size.as_slice());
            push_all(out, c.data.0.as_slice());
            assert(out@ =~= old(out)@ + serialize(*e));
        },
        Entry::List(l) => write_list(l, out),
    }
}

fn write_list(l: &List<DataOwned>, out: &mut Vec<u8>)
    requires
        fits(Entry::List(*l)),
    ensures
        final(out)@ == old(out)@ + serialize(Entry::List(*l)),
    decreases *l,
{
    let len = match checked_list_len(l) {
        Some(n) => n,
        None => 0,
    };
    proof {
        lemma_serialize_len(Entry::List(*l));
    }
    push_all(out, array_as_slice(&l.fourcc));
    let size = u32_to_le_bytes((len - 8) as u32);
    push_all(out, size.as_slice());
    push_all(out, array_as_slice(&l.list_type));
    let ghost header = out@;
    let mut i: usize = 0;
    while i < l.children.len()
        invariant
            i <= l.children@.len(),
            fits_all(l.children@),
            out@ == header + serialize_all(l.children@.subrange(0, i as int)),
        decreases l.children@.len() - i,
    {
        proof {
            lemma_fits_index(l.children@, i as int);
            assert(l.children@.subrange(0, i + 1).drop_last() =~= l.children@.subrange(0, i as int));
        }
        write_unchecked(&l.children[i], out);
        i = i + 1;
        assert(out@ =~= header + serialize_all(l.children@.subrange(0, i as int)));
    }
    assert(l.children@.subrange(0, i as int) =~= l.children@);
    assert(out@ =~= old(out)@ + serialize(Entry::List(*l)));
}

proof fn lemma_fits_index(s: Seq<Entry<DataOwned>>, i: int)
    requires
        fits_all(s),
        0 <= i < s.len(),
    ensures
        fits(s[i]),
    decreases s.len(),
{
    if i < s.len() - 1 {
        lemma_fits_index(s.drop_last(), i);
    }
}

impl Entry<DataOwned> {
    /// Appends the bytes of the entry to `out` and returns their number. Fails,
    /// leaving `out` as it was, where a size does not fit in four bytes.
    pub fn write(&self, out: &mut Vec<u8>) -> (r: Result<u64, RiffError>)
        ensures
            r is Ok <==> fits(*self),
            r matches Ok(n) ==> {
                &&& final(out)@ == old(out)@ + serialize(*self)
                &&& n == serialize(*self).len()
            },
            r matches Err(err) ==> err == RiffError::DataTooLarge && final(out)@ == old(out)@,
    {
        match checked_len(self) {
            Some(n) => {
                write_unchecked(self, out);
                Ok(n)
            },
            None => Err(RiffError::DataTooLarge),
        }
    }
}

} // verus!
