use chunkbuf::lines::LoadedLine;
use chunkbuf::memstore::{BufferError, Chunk, MemLoadStore, Memstore};
use chunkbuf::virtual_file::VirtualFile;

fn mem(chunk_size: u64, content: &[u8]) -> MemLoadStore {
    MemLoadStore::new(chunk_size, content.to_vec())
}

#[test]
fn round_trip_line_across_chunks() {
    // chunk 0 = "01234567", chunk 1 = "89\n": the traversal must yield the
    // single line "0123456789", not two truncated pieces
    let mut vf = VirtualFile::new(8, mem(8, b"0123456789\n"));
    let first = vf.next_line().unwrap().unwrap();
    assert_eq!(first.bytes, b"0123456789".to_vec());
    assert!(first.complete);
    assert!(vf.next_line().unwrap().is_none());
}

#[test]
fn round_trip_many_lines() {
    let content = b"alpha\nbeta\ngamma\ndelta";
    for cs in [1u64, 2, 3, 5, 8, 64] {
        let mut vf = VirtualFile::new(cs, mem(cs, content));
        let mut got: Vec<Vec<u8>> = Vec::new();
        while let Some(l) = vf.next_line().unwrap() {
            assert!(l.complete);
            got.push(l.bytes);
        }
        assert_eq!(
            got,
            vec![
                b"alpha".to_vec(),
                b"beta".to_vec(),
                b"gamma".to_vec(),
                b"delta".to_vec()
            ]
        );
    }
}

#[test]
fn adjacent_seek_equivalence() {
    // seek to O, then the next chunk, then back to O: the visible complete
    // lines agree with a window sought directly to O
    let content = b"aaaa\nbbbb\ncccc\ndddd\n";
    let mut vf = VirtualFile::new(6, mem(6, content));
    vf.seek(0).unwrap();
    vf.seek(6).unwrap();
    vf.seek(0).unwrap();

    let mut direct = VirtualFile::new(6, mem(6, content));
    direct.seek(0).unwrap();

    let m = direct.lines_len();
    assert!(m >= 1);
    for j in 0..m {
        let d = direct.get(j).unwrap();
        if d.complete {
            let v = vf.get(j).unwrap();
            assert_eq!(v.bytes, d.bytes);
        }
    }
}

#[test]
fn no_spurious_writes() {
    let store = mem(8, b"0123456789abcdef");
    let mut ms = Memstore::new(8, store);
    ms.get(0).unwrap();
    ms.get(1).unwrap();
    ms.store_all().unwrap();
    assert_eq!(ms.load_store.store_calls(), 0);
}

#[test]
fn write_once_per_dirty_chunk() {
    let store = mem(8, b"0123456789abcdef");
    let mut ms = Memstore::new(8, store);
    ms.get(0).unwrap();
    ms.set_chunk(0, b"XXXXXXXX".to_vec());
    ms.store_all().unwrap();
    assert_eq!(ms.load_store.store_calls(), 1);
    match ms.peek(0).unwrap() {
        Chunk::Loaded { need_store, .. } => assert!(!*need_store),
        Chunk::Empty => panic!("chunk should be loaded"),
    }
    // a second flush with no further mutation issues no further store
    ms.store_all().unwrap();
    assert_eq!(ms.load_store.store_calls(), 1);
    assert_eq!(&ms.load_store.bytes()[0..8], b"XXXXXXXX");
}

#[test]
fn beyond_eof_get_is_empty() {
    let store = mem(8, b"");
    let mut ms = Memstore::new(8, store);
    match ms.get(2).unwrap() {
        Chunk::Empty => {}
        Chunk::Loaded { .. } => panic!("beyond the end of an empty store must be Empty"),
    }
    assert_eq!(ms.load_store.store_calls(), 0);
}

#[test]
fn persistence_round_trip() {
    let mut vf = VirtualFile::new(8, mem(8, b""));
    vf.seek(0).unwrap();
    vf.insert(0, LoadedLine::new(b"a".to_vec())).unwrap();
    vf.insert(1, LoadedLine::new(b"b".to_vec())).unwrap();
    vf.insert(2, LoadedLine::new(b"c".to_vec())).unwrap();
    vf.flush_all().unwrap();
    let store = vf.into_load_store();
    assert_eq!(store.bytes(), &b"a\nb\nc".to_vec());

    let mut vf2 = VirtualFile::new(8, store);
    let mut got: Vec<Vec<u8>> = Vec::new();
    while let Some(l) = vf2.next_line().unwrap() {
        got.push(l.bytes);
    }
    assert_eq!(got, vec![b"a".to_vec(), b"b".to_vec(), b"c".to_vec()]);
}

#[test]
fn failure_retains_dirty_state() {
    let store = mem(4, b"abcd");
    let mut ms = Memstore::new(4, store);
    ms.get(0).unwrap();
    ms.set_chunk(0, b"WXYZ".to_vec());
    ms.load_store.set_fail_stores(1);
    match ms.flush(0) {
        Err(BufferError::Store { chunk_index }) => assert_eq!(chunk_index, 0),
        _ => panic!("the injected store failure must surface"),
    }
    match ms.peek(0).unwrap() {
        Chunk::Loaded { need_store, .. } => assert!(*need_store),
        Chunk::Empty => panic!("chunk should be loaded"),
    }
    // the bytes are unchanged until a successful retry
    assert_eq!(ms.load_store.bytes(), &b"abcd".to_vec());
    ms.flush(0).unwrap();
    match ms.peek(0).unwrap() {
        Chunk::Loaded { need_store, .. } => assert!(!*need_store),
        Chunk::Empty => panic!("chunk should be loaded"),
    }
    assert_eq!(ms.load_store.bytes(), &b"WXYZ".to_vec());
    assert_eq!(ms.load_store.store_calls(), 2);
}

#[test]
fn flush_failure_then_retry_through_cursor() {
    let mut vf = VirtualFile::new(8, mem(8, b"one\ntwo\n"));
    vf.seek(0).unwrap();
    // edit: replace the first line
    let removed = vf.remove(0).unwrap();
    assert_eq!(removed.bytes, b"one".to_vec());
    vf.insert(0, LoadedLine::new(b"ONE".to_vec())).unwrap();
    vf.memstore.load_store.set_fail_stores(1);
    assert!(vf.flush_all().is_err());
    // the edit is retained; a later flush persists it
    vf.flush_all().unwrap();
    let store = vf.into_load_store();
    assert_eq!(store.bytes(), &b"ONE\ntwo\n".to_vec());
}

#[test]
fn get_out_of_range() {
    let mut vf = VirtualFile::new(8, mem(8, b"x\n"));
    vf.seek(0).unwrap();
    match vf.get(7) {
        Err(BufferError::OutOfRange { index }) => assert_eq!(index, 7),
        _ => panic!("an index outside the window must be out of range"),
    }
}

#[test]
fn load_error_surfaces_chunk_index() {
    let store = mem(8, b"abc");
    let mut ms = Memstore::new(8, store);
    // an offset that cannot be addressed surfaces as a load error
    match ms.get(u64::MAX) {
        Err(BufferError::Load { chunk_index }) => assert_eq!(chunk_index, u64::MAX),
        _ => panic!("unaddressable chunk must fail as a load error"),
    }
}

#[test]
fn cached_get_issues_no_new_load() {
    let store = mem(8, b"0123456789abcdef");
    let mut ms = Memstore::new(8, store);
    ms.get(1).unwrap();
    let loads = ms.load_store.load_calls();
    ms.get(1).unwrap();
    assert_eq!(ms.load_store.load_calls(), loads);
}

#[test]
fn final_line_without_terminator() {
    let mut vf = VirtualFile::new(4, mem(4, b"ab\ncd"));
    let first = vf.next_line().unwrap().unwrap();
    assert_eq!(first.bytes, b"ab".to_vec());
    let second = vf.next_line().unwrap().unwrap();
    assert_eq!(second.bytes, b"cd".to_vec());
    assert!(second.complete);
    assert!(vf.next_line().unwrap().is_none());
}

#[test]
fn shrinking_flush_keeps_stale_tail() {
    // the backing store interface has no truncate: flushing an edit that
    // shortened the content leaves the old bytes past the new end in
    // place, and the contract promises exactly the prefix
    let mut vf = VirtualFile::new(16, mem(16, b"aaaa\nbb\n"));
    vf.seek(0).unwrap();
    let removed = vf.remove(1).unwrap();
    assert_eq!(removed.bytes, b"bb".to_vec());
    vf.flush_all().unwrap();
    let store = vf.into_load_store();
    // the flushed file is the prefix of what is persisted...
    assert_eq!(&store.bytes()[0..5], b"aaaa\n");
    // ...and the stale tail of the final chunk remains
    assert_eq!(store.bytes(), &b"aaaa\nbb\n".to_vec());
}

#[test]
fn evict_clean_reloads_dirty_flushes_first() {
    let store = mem(4, b"abcdWXYZ");
    let mut ms = Memstore::new(4, store);
    ms.get(0).unwrap();
    // evicting a clean chunk drops it without touching the store
    ms.evict(0).unwrap();
    assert!(ms.peek(0).is_none());
    assert_eq!(ms.load_store.store_calls(), 0);
    let loads = ms.load_store.load_calls();
    ms.get(0).unwrap();
    assert_eq!(ms.load_store.load_calls(), loads + 1);
    // evicting a dirty chunk persists it first: no silent data loss
    ms.set_chunk(1, b"1234".to_vec());
    ms.evict(1).unwrap();
    assert!(ms.peek(1).is_none());
    assert_eq!(ms.load_store.store_calls(), 1);
    assert_eq!(ms.load_store.bytes(), &b"abcd1234".to_vec());
}

#[test]
fn evict_dirty_fails_when_store_fails() {
    let store = mem(4, b"abcd");
    let mut ms = Memstore::new(4, store);
    ms.set_chunk(0, b"WXYZ".to_vec());
    ms.load_store.set_fail_stores(1);
    assert!(ms.evict(0).is_err());
    // the chunk stays cached and dirty
    match ms.peek(0).unwrap() {
        Chunk::Loaded { need_store, .. } => assert!(*need_store),
        Chunk::Empty => panic!("chunk should be loaded"),
    }
}

#[test]
fn backward_adjacent_seek_splices_at_head() {
    // chunks of 6: "aaaa\nb" "bbb\ncc" "cc\ndd" "dd\n"
    let content = b"aaaa\nbbbb\ncccc\ndddd\n";
    let mut vf = VirtualFile::new(6, mem(6, content));
    vf.seek(12).unwrap(); // chunk 2: ["cc", "dd"], both boundary fragments
    assert_eq!(vf.lines_len(), 2);
    assert!(!vf.get(0).unwrap().complete);

    // retreat by one chunk: the preceding chunk's trailing fragment "cc"
    // is stitched to the window's head fragment "cc" into one line, and
    // the cursor's line index advances by the one whole line contributed
    vf.seek(6).unwrap();
    assert_eq!(vf.lines_len(), 3);
    assert_eq!(vf.line_index_in_window, 1);
    let stitched = vf.get(1).unwrap();
    assert_eq!(stitched.bytes, b"cccc".to_vec());
    assert!(stitched.complete);

    // retreat again to the file start: "b" + "bbb" becomes "bbbb" and the
    // first line is now known complete
    vf.seek(0).unwrap();
    assert_eq!(vf.lines_len(), 4);
    assert_eq!(vf.line_index_in_window, 2);
    assert_eq!(vf.get(0).unwrap().bytes, b"aaaa".to_vec());
    assert!(vf.get(0).unwrap().complete);
    assert_eq!(vf.get(1).unwrap().bytes, b"bbbb".to_vec());
}
