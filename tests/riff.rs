use memmap2::{Mmap, MmapMut};
use riff::{
    parse_fourcc, parse_header, parse_size, read_entries_from, read_entries_in, Chunk, Data, DataOwned,
    DataRef, Entry, List, RiffError, RiffFile,
};

fn le(n: u32) -> [u8; 4] {
    n.to_le_bytes()
}

fn file_bytes(file_type: &[u8; 4], body: &[u8]) -> Vec<u8> {
    let mut v = Vec::new();
    v.extend_from_slice(b"RIFF");
    v.extend_from_slice(&le(4 + body.len() as u32));
    v.extend_from_slice(file_type);
    v.extend_from_slice(body);
    v
}

fn chunk_bytes(id: &[u8; 4], size: u32, payload: &[u8]) -> Vec<u8> {
    let mut v = Vec::new();
    v.extend_from_slice(id);
    v.extend_from_slice(&le(size));
    v.extend_from_slice(payload);
    v
}

fn list_bytes(list_type: &[u8; 4], children: &[u8]) -> Vec<u8> {
    let mut v = Vec::new();
    v.extend_from_slice(b"LIST");
    v.extend_from_slice(&le(4 + children.len() as u32));
    v.extend_from_slice(list_type);
    v.extend_from_slice(children);
    v
}

fn read_all(bytes: &[u8]) -> Result<Vec<Entry<DataRef>>, RiffError> {
    let (_, size) = parse_header(bytes)?;
    read_entries_from(bytes, size)
}

fn write_all(entries: &[Entry<DataOwned>]) -> Vec<u8> {
    let mut out = Vec::new();
    for e in entries {
        e.write(&mut out).unwrap();
    }
    out
}

fn mapped(bytes: &[u8]) -> Mmap {
    let mut m = MmapMut::map_anon(bytes.len()).unwrap();
    m.copy_from_slice(bytes);
    m.make_read_only().unwrap()
}

fn nested_file() -> Vec<u8> {
    let mut info = chunk_bytes(b"ISFT", 3, &[b'a', b'b', b'c', 0]);
    info.extend(chunk_bytes(b"ICMT", 2, b"hi"));
    let mut body = list_bytes(b"INFO", &info);
    body.extend(chunk_bytes(b"data", 0, &[]));
    body.extend(chunk_bytes(b"junk", 1, &[7, 0]));
    file_bytes(b"AVI ", &body)
}

#[test]
fn fmt_chunk_as_declared_runs_past_the_buffer() {
    // "RIFF", size 36, "WAVE", then a 24-byte "fmt " chunk and nothing more:
    // the declared region ends 8 bytes past the end of these 36 bytes.
    let mut bytes = Vec::new();
    bytes.extend_from_slice(b"RIFF");
    bytes.extend_from_slice(&le(36));
    bytes.extend_from_slice(b"WAVE");
    bytes.extend(chunk_bytes(b"fmt ", 16, &[1u8; 16]));
    assert_eq!(bytes.len(), 36);
    assert!(matches!(parse_header(&bytes), Err(RiffError::Format)));
}

#[test]
fn fmt_chunk_single_entry_round_trip() {
    let payload: Vec<u8> = (0u8..16).collect();
    let bytes = file_bytes(b"WAVE", &chunk_bytes(b"fmt ", 16, &payload));
    let (file_type, size) = parse_header(&bytes).unwrap();
    assert_eq!(&file_type, b"WAVE");
    assert_eq!(size, 28);
    let entries = read_entries_from(&bytes, size).unwrap();
    assert_eq!(entries.len(), 1);
    match &entries[0] {
        Entry::Chunk(c) => {
            assert_eq!(&c.id, b"fmt ");
            assert_eq!(c.chunk_size, 16);
            assert_eq!(c.data.offset, 20);
            assert_eq!(c.data.size, 16);
        }
        Entry::List(_) => panic!("expected a chunk"),
    }
    assert_eq!(entries[0].bytes_len(), 24);
    let owned: Vec<Entry<DataOwned>> = entries.into_iter().map(|e| e.to_owned(&bytes)).collect();
    assert_eq!(write_all(&owned), bytes[12..].to_vec());
}

#[test]
fn odd_chunk_keeps_its_pad_byte() {
    let stored = [0xAB, 0xCD, 0xEF, 0x01, 0x02, 0x00];
    let bytes = file_bytes(b"TEST", &chunk_bytes(b"odd ", 5, &stored));
    let entries = read_all(&bytes).unwrap();
    assert_eq!(entries.len(), 1);
    let e = entries.into_iter().next().unwrap();
    match &e {
        Entry::Chunk(c) => {
            assert_eq!(c.chunk_size, 5);
            assert_eq!(c.data.size, 6);
            assert_eq!(c.data.size(), 6);
        }
        Entry::List(_) => panic!("expected a chunk"),
    }
    let owned = e.to_owned(&bytes);
    match &owned {
        Entry::Chunk(c) => {
            assert_eq!(c.data.0, stored.to_vec());
            assert_eq!(c.data.size(), 6);
        }
        Entry::List(_) => panic!("expected a chunk"),
    }
    let mut out = Vec::new();
    assert_eq!(owned.write(&mut out), Ok(14));
    assert_eq!(out, bytes[12..].to_vec());
}

#[test]
fn wrong_magic_is_refused() {
    let mut bytes = file_bytes(b"WAVE", &chunk_bytes(b"fmt ", 2, &[1, 2]));
    bytes[3] = b'X';
    assert!(matches!(parse_header(&bytes), Err(RiffError::Format)));
    assert!(matches!(RiffFile::from_mmap(mapped(&bytes)), Err(RiffError::Format)));
}

#[test]
fn list_too_small_for_its_last_child_is_refused() {
    let child = chunk_bytes(b"abcd", 4, &[1, 2, 3, 4]);
    let mut list = Vec::new();
    list.extend_from_slice(b"LIST");
    list.extend_from_slice(&le(4 + 10));
    list.extend_from_slice(b"INFO");
    list.extend(child);
    let bytes = file_bytes(b"TEST", &list);
    assert!(matches!(read_all(&bytes), Err(RiffError::Format)));
}

#[test]
fn nested_tree_round_trip() {
    let bytes = nested_file();
    let entries = read_all(&bytes).unwrap();
    assert_eq!(entries.len(), 3);
    match &entries[0] {
        Entry::List(l) => {
            assert_eq!(&l.fourcc, b"LIST");
            assert_eq!(&l.list_type, b"INFO");
            assert_eq!(l.children.len(), 2);
            assert_eq!(l.bytes_len(), 12 + 12 + 10);
        }
        Entry::Chunk(_) => panic!("expected a list"),
    }
    let owned: Vec<Entry<DataOwned>> = entries.into_iter().map(|e| e.to_owned(&bytes)).collect();
    assert_eq!(write_all(&owned), bytes[12..].to_vec());
}

#[test]
fn owned_tree_outlives_its_buffer() {
    let bytes = nested_file();
    let expected = bytes[12..].to_vec();
    let owned: Vec<Entry<DataOwned>> = {
        let buffer = bytes.clone();
        let entries = read_all(&buffer).unwrap();
        entries.into_iter().map(|e| e.to_owned(&buffer)).collect()
    };
    drop(bytes);
    assert_eq!(write_all(&owned), expected);
}

#[test]
fn list_size_field_counts_children() {
    let a = Entry::Chunk(Chunk { id: *b"ISFT", data: DataOwned(vec![b'x', b'y', b'z', 0]), chunk_size: 3 });
    let b = Entry::Chunk(Chunk { id: *b"ICMT", data: DataOwned(vec![]), chunk_size: 0 });
    let inner = Entry::List(List { fourcc: *b"LIST", list_type: *b"SUB ", children: vec![b] });
    let root = Entry::List(List { fourcc: *b"LIST", list_type: *b"INFO", children: vec![a, inner] });
    let mut out = vec![9u8];
    let n = root.write(&mut out).unwrap();
    // chunk: 8 + 4; inner list: 8 + 4 + 8; root: 8 + 4 + 12 + 20
    assert_eq!(n, 44);
    assert_eq!(out.len(), 45);
    assert_eq!(out[0], 9);
    assert_eq!(&out[1..5], b"LIST");
    assert_eq!(parse_size(&out[5..9]), 36);
    assert_eq!(&out[9..13], b"INFO");
    assert_eq!(&out[25..29], b"LIST");
    assert_eq!(parse_size(&out[29..33]), 12);
}

#[test]
fn padding_of_even_and_odd_chunks() {
    let mut body = chunk_bytes(b"even", 4, &[1, 2, 3, 4]);
    body.extend(chunk_bytes(b"odd ", 3, &[1, 2, 3, 0]));
    body.extend(chunk_bytes(b"none", 0, &[]));
    let bytes = file_bytes(b"TEST", &body);
    let entries = read_all(&bytes).unwrap();
    let sizes: Vec<(usize, usize)> = entries
        .iter()
        .map(|e| match e {
            Entry::Chunk(c) => (c.chunk_size, c.data.size),
            Entry::List(_) => panic!("expected a chunk"),
        })
        .collect();
    assert_eq!(sizes, vec![(4, 4), (3, 4), (0, 0)]);
}

#[test]
fn entries_cover_the_declared_region() {
    let bytes = nested_file();
    let (_, size) = parse_header(&bytes).unwrap();
    let entries = read_entries_from(&bytes, size).unwrap();
    let total: usize = entries.iter().map(|e| e.bytes_len()).sum();
    assert_eq!(12 + total, 8 + size);
    assert_eq!(total, bytes.len() - 12);
}

#[test]
fn chunk_running_past_the_region_is_refused() {
    let mut bytes = file_bytes(b"TEST", &chunk_bytes(b"abcd", 2, &[1, 2]));
    bytes[16] = 9;
    assert!(matches!(read_all(&bytes), Err(RiffError::Format)));
}

#[test]
fn odd_chunk_without_pad_byte_is_refused() {
    let bytes = file_bytes(b"TEST", &chunk_bytes(b"abcd", 3, &[1, 2, 3]));
    assert!(matches!(read_all(&bytes), Err(RiffError::Format)));
}

#[test]
fn list_with_size_below_four_is_refused() {
    let mut body = Vec::new();
    body.extend_from_slice(b"LIST");
    body.extend_from_slice(&le(2));
    body.extend_from_slice(b"ab");
    body.extend_from_slice(&[0, 0]);
    let bytes = file_bytes(b"TEST", &body);
    assert!(matches!(read_all(&bytes), Err(RiffError::Format)));
}

#[test]
fn truncated_entry_header_is_refused() {
    let bytes = file_bytes(b"TEST", &[b'a', b'b', b'c', b'd', 0, 0]);
    assert!(matches!(read_all(&bytes), Err(RiffError::Format)));
}

#[test]
fn header_errors() {
    assert!(matches!(parse_header(b"RIFF"), Err(RiffError::Format)));
    let mut small = file_bytes(b"TEST", &[]);
    small[4..8].copy_from_slice(&le(3));
    assert!(matches!(parse_header(&small), Err(RiffError::Format)));
    let mut long = file_bytes(b"TEST", &[]);
    long[4..8].copy_from_slice(&le(5));
    assert!(matches!(parse_header(&long), Err(RiffError::Format)));
}

#[test]
fn trailing_bytes_after_declared_region_are_ignored() {
    let mut bytes = file_bytes(b"TEST", &chunk_bytes(b"abcd", 2, &[1, 2]));
    bytes.extend_from_slice(&[0xff; 5]);
    let entries = read_all(&bytes).unwrap();
    assert_eq!(entries.len(), 1);
}

#[test]
fn empty_file_has_no_entries() {
    let bytes = file_bytes(b"TEST", &[]);
    assert_eq!(read_all(&bytes).unwrap().len(), 0);
}

#[test]
fn oversized_chunk_size_is_refused_on_write() {
    let e = Entry::Chunk(Chunk { id: *b"big ", data: DataOwned(vec![1, 2]), chunk_size: 1usize << 33 });
    let mut out = vec![1u8, 2];
    assert_eq!(e.write(&mut out), Err(RiffError::DataTooLarge));
    assert_eq!(out, vec![1u8, 2]);
}

#[test]
fn read_entries_in_subrange() {
    let bytes = nested_file();
    let entries = read_entries_in(&bytes, 12 + 34, bytes.len()).unwrap();
    assert_eq!(entries.len(), 2);
    match &entries[1] {
        Entry::Chunk(c) => assert_eq!(&c.id, b"junk"),
        Entry::List(_) => panic!("expected a chunk"),
    }
}

#[test]
fn fourcc_and_size_fields() {
    assert_eq!(parse_fourcc(b"WAVE"), *b"WAVE");
    assert_eq!(parse_size(&[0x24, 0x00, 0x00, 0x00]), 36);
    assert_eq!(parse_size(&[0x01, 0x02, 0x03, 0x04]), 0x0403_0201);
}

#[test]
fn chunk_and_list_occupied_lengths() {
    let c = Chunk { id: *b"abcd", data: DataOwned(vec![1, 2, 3]), chunk_size: 3 };
    assert_eq!(c.bytes_len(), 12);
    let l: List<DataOwned> = List { fourcc: *b"LIST", list_type: *b"INFO", children: vec![Entry::Chunk(c)] };
    assert_eq!(l.bytes_len(), 24);
    let e = Entry::List(l);
    assert_eq!(e.bytes_len(), 24);
}

#[test]
fn list_to_owned_copies_payloads() {
    let bytes = nested_file();
    let entries = read_all(&bytes).unwrap();
    let first = entries.into_iter().next().unwrap();
    let l = match first {
        Entry::List(l) => l,
        Entry::Chunk(_) => panic!("expected a list"),
    };
    let owned = l.to_owned(&bytes);
    assert_eq!(&owned.list_type, b"INFO");
    match &owned.children[1] {
        Entry::Chunk(c) => assert_eq!(c.data.0, b"hi".to_vec()),
        Entry::List(_) => panic!("expected a chunk"),
    }
    let c = Chunk { id: *b"abcd", data: DataRef { offset: 0, size: 4 }, chunk_size: 4 };
    assert_eq!(c.to_owned(&bytes).data.0, b"RIFF".to_vec());
    assert_eq!(DataRef { offset: 8, size: 4 }.to_owned(&bytes).0, b"AVI ".to_vec());
}

#[test]
fn riff_file_over_a_map() {
    let bytes = nested_file();
    let f = RiffFile::from_mmap(mapped(&bytes)).unwrap();
    assert_eq!(f.file_type(), b"AVI ");
    assert_eq!(f.file_size(), bytes.len() - 8);
    assert_eq!(f.bytes(), &bytes[..]);
    assert_eq!(f.read_bytes(8..12), b"AVI ");
    let entries = f.read_entries().unwrap();
    assert_eq!(entries.len(), 3);
    let owned: Vec<Entry<DataOwned>> = entries.into_iter().map(|e| e.to_owned(f.bytes())).collect();
    drop(f);
    assert_eq!(write_all(&owned), bytes[12..].to_vec());
}
