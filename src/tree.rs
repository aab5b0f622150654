use vstd::prelude::*;

verus! {

broadcast use vstd::std_specs::vec::group_vec_axioms, vstd::seq::group_seq_axioms;

/// Four-character code.
pub type FourCC = [u8; 4];

/// Entry in a RIFF file: a list or a chunk. Lists nest.
#[derive(Debug)]
pub enum Entry<T> {
    /// A list holds lists and chunks.
    List(List<T>),
    /// Chunks are leaves.
    Chunk(Chunk<T>),
}

/// A list node.
#[derive(Debug)]
pub struct List<T> {
    /// Container tag, `LIST` or `RIFF`.
    pub fourcc: FourCC,
    /// Sub-type code of the list.
    pub list_type: FourCC,
    /// Child entries, in file order.
    pub children: Vec<Entry<T>>,
}

/// A byte range of known size.
pub trait Data {
    /// Number of bytes held, as a mathematical value.
    spec fn spec_size(&self) -> nat;

    /// Number of bytes held.
    fn size(&self) -> (r: usize)
        ensures
            r == self.spec_size(),
    ;
}

/// Payload held as a range of a shared buffer.
#[derive(Debug, Clone)]
pub struct DataRef {
    /// Offset of the data, in bytes.
    pub offset: usize,
    /// Length of the data, in bytes.
    pub size: usize,
}

impl Data for DataRef {
    open spec fn spec_size(&self) -> nat {
        self.size as nat
    }

    fn size(&self) -> (r: usize) {
        self.size
    }
}

/// Payload held in a buffer of its own.
#[derive(Debug, Clone)]
pub struct DataOwned(pub Vec<u8>);

impl Data for DataOwned {
    open spec fn spec_size(&self) -> nat {
        self.0@.len()
    }

    fn size(&self) -> (r: usize) {
        self.0.len()
    }
}

/// A chunk of data.
#[derive(Debug, Clone)]
pub struct Chunk<T> {
    /// Chunk id.
    pub id: FourCC,
    /// The payload, padding included.
    pub data: T,
    /// Declared number of meaningful payload bytes, padding excluded.
    pub chunk_size: usize,
}

/// Bytes that a chunk with `n` payload bytes occupies, header included,
/// rounded up to an even count.
pub open spec fn chunk_occupied(n: nat) -> nat {
    (n + 8) + (n + 8) % 2
}

/// Bytes that an entry occupies, its header included.
pub open spec fn occupied_len<T: Data>(e: Entry<T>) -> nat
    decreases e,
{
    match e {
        Entry::Chunk(c) => chunk_occupied(c.data.spec_size()),
        Entry::List(l) => 12 + occupied_total(l.children@),
    }
}

/// Sum of `occupied_len` over a sequence of entries.
pub open spec fn occupied_total<T: Data>(s: Seq<Entry<T>>) -> nat
    decreases s,
{
    if s.len() == 0 {
        0
    } else {
        occupied_total(s.drop_last()) + occupied_len(s.last())
    }
}

impl<T: Data> Entry<T> {
    /// Bytes that the entry occupies, header included.
    pub fn bytes_len(&self) -> (r: usize)
        requires
            occupied_len(*self) <= usize::MAX,
        ensures
            r == occupied_len(*self),
        decreases *self,
    {
        match self {
            Entry::List(l) => l.bytes_len(),
            Entry::Chunk(c) => c.bytes_len(),
        }
    }
}

impl<T: Data> List<T> {
    /// Bytes that the list occupies, its 12-byte header included.
    pub fn bytes_len(&self) -> (r: usize)
        requires
            12 + occupied_total(self.children@) <= usize::MAX,
        ensures
            r == 12 + occupied_total(self.children@),
        decreases *self,
    {
        let mut total: usize = 12;
        let mut i: usize = 0;
        while i < self.children.len()
            invariant
                i <= self.children@.len(),
                12 + occupied_total(self.children@) <= usize::MAX,
                total == 12 + occupied_total(self.children@.subrange(0, i as int)),
            decreases self.children@.len() - i,
        {
            proof {
                lemma_total_prefix(self.children@, i as int + 1);
                lemma_total_le(self.children@, i as int + 1);
                assert(self.children@.subrange(0, i as int + 1).drop_last() =~= self.children@.subrange(0, i as int));
            }
            let n = self.children[i].bytes_len();
            total = total + n;
            i = i + 1;
        }
        assert(self.children@.subrange(0, i as int) =~= self.children@);
        total
    }
}

proof fn lemma_total_prefix<T: Data>(s: Seq<Entry<T>>, k: int)
    requires
        0 < k <= s.len(),
    ensures
        occupied_total(s.subrange(0, k)) == occupied_total(s.subrange(0, k - 1)) + occupied_len(s[k - 1]),
{
    assert(s.subrange(0, k).drop_last() =~= s.subrange(0, k - 1));
}

proof fn lemma_total_le<T: Data>(s: Seq<Entry<T>>, k: int)
    requires
        0 <= k <= s.len(),
    ensures
        occupied_total(s.subrange(0, k)) <= occupied_total(s),
    decreases s.len() - k,
{
    if k < s.len() {
        lemma_total_le(s, k + 1);
        lemma_total_prefix(s, k + 1);
    } else {
        assert(s.subrange(0, k) =~= s);
    }
}

impl<T: Data> Chunk<T> {
    /// Bytes that the chunk occupies, header and padding included.
    pub fn bytes_len(&self) -> (r: usize)
        requires
            chunk_occupied(self.data.spec_size()) <= usize::MAX,
        ensures
            r == chunk_occupied(self.data.spec_size()),
    {
        let s = self.data.size() + 8;
        s + s % 2
    }
}

/// Every payload range of `e` lies within a buffer of `len` bytes.
pub open spec fn refs_within(e: Entry<DataRef>, len: nat) -> bool
    decreases e,
{
    match e {
        Entry::Chunk(c) => c.data.offset + c.data.size <= len,
        Entry::List(l) => refs_within_all(l.children@, len),
    }
}

/// `refs_within` of each entry of `s`.
pub open spec fn refs_within_all(s: Seq<Entry<DataRef>>, len: nat) -> bool
    decreases s,
{
    if s.len() == 0 {
        true
    } else {
        refs_within_all(s.drop_last(), len) && refs_within(s.last(), len)
    }
}

/// `r` is the owned copy of `e` read against `map`: the same tags, sizes and
/// child order, each payload holding the bytes of `map` that `e` refers to.
pub open spec fn owned_copy_of(r: Entry<DataOwned>, e: Entry<DataRef>, map: Seq<u8>) -> bool
    decreases e,
{
    match e {
        Entry::Chunk(c) => match r {
            Entry::Chunk(d) => {
                &&& d.id == c.id
                &&& d.chunk_size == c.chunk_size
                &&& d.data.0@ == map.subrange(c.data.offset as int, c.data.offset + c.data.size)
            },
            Entry::List(_) => false,
        },
        Entry::List(l) => match r {
            Entry::List(m) => {
                &&& m.fourcc == l.fourcc
                &&& m.list_type == l.list_type
                &&& owned_copies(m.children@, l.children@, map)
            },
            Entry::Chunk(_) => false,
        },
    }
}

/// `r` and `s` have one length and each entry of `r` is the owned copy of the
/// entry of `s` at its index.
pub open spec fn owned_copies(r: Seq<Entry<DataOwned>>, s: Seq<Entry<DataRef>>, map: Seq<u8>) -> bool
    decreases s,
{
    &&& r.len() == s.len()
    &&& s.len() > 0 ==> {
        &&& owned_copies(r.drop_last(), s.drop_last(), map)
        &&& owned_copy_of(r.last(), s.last(), map)
    }
}

proof fn lemma_refs_within_index(s: Seq<Entry<DataRef>>, len: nat, i: int)
    requires
        refs_within_all(s, len),
        0 <= i < s.len(),
    ensures
        refs_within(s[i], len),
    decreases s.len(),
{
    if i < s.len() - 1 {
        lemma_refs_within_index(s.drop_last(), len, i);
    }
}

impl DataRef {
    /// Copies the referenced bytes of `map` into a buffer of their own.
    pub fn to_owned(self, map: &[u8]) -> (r: DataOwned)
        requires
            self.offset + self.size <= map@.len(),
        ensures
            r.0@ == map@.subrange(self.offset as int, self.offset + self.size),
    {
        let n = map.len();
        let part = vstd::slice::slice_subrange(map, self.offset, self.offset + self.size);
        DataOwned(vstd::slice::slice_to_vec(part))
    }
}

fn copy_entry(e: &Entry<DataRef>, map: &[u8]) -> (r: Entry<DataOwned>)
    requires
        refs_within(*e, map@.len()),
    ensures
        owned_copy_of(r, *e, map@),
    decreases *e,
{
    match e {
        Entry::List(l) => Entry::List(copy_list(l, map)),
        Entry::Chunk(c) => Entry::Chunk(copy_chunk(c, map)),
    }
}

fn copy_list(l: &List<DataRef>, map: &[u8]) -> (r: List<DataOwned>)
    requires
        refs_within(Entry::List(*l), map@.len()),
    ensures
        owned_copy_of(Entry::List(r), Entry::List(*l), map@),
    decreases *l,
{
    let mut children: Vec<Entry<DataOwned>> = Vec::new();
    let mut i: usize = 0;
    while i < l.children.len()
        invariant
            i <= l.children@.len(),
            children@.len() == i,
            refs_within_all(l.children@, map@.len()),
            owned_copies(children@, l.children@.subrange(0, i as int), map@),
        decreases l.children@.len() - i,
    {
        proof {
            lemma_refs_within_index(l.children@, map@.len(), i as int);
        }
        let c = copy_entry(&l.children[i], map);
        let ghost prev = children@;
        children.push(c);
        proof {
            assert(children@.drop_last() =~= prev);
            assert(l.children@.subrange(0, i + 1).drop_last() =~= l.children@.subrange(0, i as int));
        }
        i = i + 1;
    }
    assert(l.children@.subrange(0, i as int) =~= l.children@);
    List { fourcc: l.fourcc, list_type: l.list_type, children }
}

fn copy_chunk(c: &Chunk<DataRef>, map: &[u8]) -> (r: Chunk<DataOwned>)
    requires
        c.data.offset + c.data.size <= map@.len(),
    ensures
        owned_copy_of(Entry::Chunk(r), Entry::Chunk(*c), map@),
{
    let d = DataRef { offset: c.data.offset, size: c.data.size };
    Chunk { id: c.id, chunk_size: c.chunk_size, data: d.to_owned(map) }
}

impl Entry<DataRef> {
    /// Copies the entry and all it holds into an owned tree, independent of `map`.
    pub fn to_owned(self, map: &[u8]) -> (r: Entry<DataOwned>)
        requires
            refs_within(self, map@.len()),
        ensures
            owned_copy_of(r, self, map@),
    {
        copy_entry(&self, map)
    }
}

impl List<DataRef> {
    /// Copies the list and all it holds into an owned list, independent of `map`.
    pub fn to_owned(self, map: &[u8]) -> (r: List<DataOwned>)
        requires
            refs_within(Entry::List(self), map@.len()),
        ensures
            owned_copy_of(Entry::List(r), Entry::List(self), map@),
    {
        copy_list(&self, map)
    }
}

impl Chunk<DataRef> {
    /// Copies the chunk's payload into a buffer of its own.
    pub fn to_owned(self, map: &[u8]) -> (r: Chunk<DataOwned>)
        requires
            self.data.offset + self.data.size <= map@.len(),
        ensures
            owned_copy_of(Entry::Chunk(r), Entry::Chunk(self), map@),
    {
        copy_chunk(&self, map)
    }
}

} // verus!
