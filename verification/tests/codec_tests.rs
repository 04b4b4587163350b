use vstore::commit::{Commit, CommitStateInner};
use vstore::error::Error;
use vstore::fsnode::{Dir, Inode, Stat, INODE_TYPE_DIR, INODE_TYPE_FILE};
use vstore::index::Index;
use vstore::kv::{make_key, KeyValue, MemKV};
use vstore::pack::Pack;

#[test]
fn commit_exact_bytes() {
    let c = Commit { ver: 1, prev_ver: 0 };
    assert_eq!(c.to_vec().unwrap(), vec![0, 1, 0, 0]);
    let c2 = Commit { ver: 0x0203, prev_ver: 0x0102 };
    assert_eq!(c2.to_vec().unwrap(), vec![2, 3, 1, 2]);
}

#[test]
fn commit_round_trip() {
    let c = Commit { ver: 513, prev_ver: 512 };
    let buf = c.to_vec().unwrap();
    let c2 = Commit::from_buf(&buf).unwrap();
    assert_eq!(c, c2);
}

#[test]
fn commit_rejects_wrong_length() {
    assert!(matches!(Commit::from_buf(&[1, 2, 3]), Err(Error::DecodeError)));
    assert!(matches!(Commit::from_buf(&[1, 2, 3, 4, 5]), Err(Error::DecodeError)));
}

#[test]
fn commit_increment_advances_chain() {
    let mut c = Commit { ver: 4, prev_ver: 3 };
    c.increment();
    assert_eq!(c, Commit { ver: 5, prev_ver: 4 });
}

#[test]
fn commit_state_round_trip() {
    let mut cs = CommitStateInner::new();
    cs.open().unwrap();
    cs.commit();
    cs.open().unwrap();
    let buf = cs.to_vec().unwrap();
    let cs2 = CommitStateInner::from_buf(&buf).unwrap();
    assert_eq!(cs2.head_version(), cs.head_version());
    assert_eq!(cs2.open_version(), cs.open_version());
    assert_eq!(cs2.get_commit(1), cs.get_commit(1));
    assert_eq!(cs2.get_commit(2), cs.get_commit(2));
    // the re-serialization is byte-identical
    assert_eq!(cs2.to_vec().unwrap(), buf);
}

#[test]
fn commit_state_exact_bytes() {
    let mut cs = CommitStateInner::new();
    assert_eq!(cs.to_vec().unwrap(), vec![0, 0, 0, 0]);
    cs.open().unwrap();
    assert_eq!(cs.to_vec().unwrap(), vec![0, 1, 0, 1, 0, 1, 0, 0]);
}

#[test]
fn commit_state_rejects_duplicate_versions() {
    // head 1, open 0, two commits both claiming version 1
    let bytes: Vec<u8> = vec![0, 1, 0, 0, 0, 1, 0, 0, 0, 1, 0, 0];
    assert!(matches!(CommitStateInner::from_buf(&bytes), Err(Error::DecodeError)));
}

#[test]
fn pack_exact_bytes() {
    let mut p = Pack::new();
    p.put(3, &[7], vec![9]);
    let buf = p.to_vec().unwrap();
    assert_eq!(buf, vec![0, 0, 0, 1, 0, 0, 0, 1, 7, 0, 3, 0, 0, 0, 1, 9]);
}

#[test]
fn pack_round_trip() {
    let mut p = Pack::new();
    p.put(1, b"one", vec![1, 1]);
    p.put(2, b"two", vec![2]);
    p.put(3, b"one", vec![3]);
    let buf = p.to_vec().unwrap();
    let p2 = Pack::from_buf(&buf).unwrap();
    assert_eq!(p2.entry_count(), 2);
    assert_eq!(p2.get(b"one"), Some((3, vec![3])));
    assert_eq!(p2.get(b"two"), Some((2, vec![2])));
    assert_eq!(p2.get(b"three"), None);
    assert_eq!(p2.to_vec().unwrap(), buf);
}

#[test]
fn pack_get_put_remove() {
    let mut p = Pack::new();
    assert_eq!(p.get(b"x"), None);
    p.put(1, b"x", vec![1]);
    assert_eq!(p.get(b"x"), Some((1, vec![1])));
    p.remove(b"x");
    assert_eq!(p.get(b"x"), None);
    p.remove(b"x");
    assert_eq!(p.get(b"x"), None);
}

#[test]
fn pack_rejects_garbage() {
    assert!(matches!(Pack::from_buf(&[1, 2, 3]), Err(Error::DecodeError)));
    // tag ok, then a truncated entry header
    assert!(matches!(Pack::from_buf(&[0, 0, 0, 1, 5, 5]), Err(Error::DecodeError)));
}

#[test]
fn index_round_trip() {
    let mut idx = Index::new(4, 9);
    idx.set_part(3, 9);
    idx.set_part(15, 7);
    let buf = idx.to_vec().unwrap();
    // version, prefix bits, then 2^4 two-byte versions
    assert_eq!(buf.len(), 2 + 1 + 2 * 16);
    assert_eq!(&buf[0..3], &[0, 9, 4]);
    let idx2 = Index::new_with_buf(&buf).unwrap();
    assert_eq!(idx2.prefix_bits(), 4);
    assert_eq!(idx2.len(), 16);
    assert_eq!(idx2.get_prefix_version(3), 9);
    assert_eq!(idx2.get_prefix_version(15), 7);
    assert_eq!(idx2.get_prefix_version(0), 0);
    assert_eq!(idx2.to_vec().unwrap(), buf);
}

#[test]
fn index_rejects_bad_shapes() {
    // too short
    assert!(matches!(Index::new_with_buf(&[0, 1]), Err(Error::DecodeError)));
    // prefix bits out of range
    assert!(matches!(Index::new_with_buf(&[0, 1, 0]), Err(Error::DecodeError)));
    assert!(matches!(Index::new_with_buf(&[0, 1, 31]), Err(Error::DecodeError)));
    // list length does not match the prefix bits
    assert!(matches!(Index::new_with_buf(&[0, 1, 1, 0, 0]), Err(Error::DecodeError)));
}

#[test]
fn partition_is_deterministic() {
    let idx = Index::new(20, 1);
    let (_, p1, h1) = idx.get_part(b"stable-key");
    let (_, p2, h2) = idx.get_part(b"stable-key");
    assert_eq!(p1, p2);
    assert_eq!(h1, h2);
    // the same partition comes out of an index rebuilt from bytes
    let idx2 = Index::new_with_buf(&idx.to_vec().unwrap()).unwrap();
    let (_, p3, h3) = idx2.get_part(b"stable-key");
    assert_eq!(p1, p3);
    assert_eq!(h1, h3);
    // and it is the top 20 bits of the key's 64-bit content hash
    let h = xxhash_rust::xxh3::xxh3_64(b"stable-key");
    assert_eq!(p1 as u64, h >> 44);
    assert_eq!(h1, h.to_be_bytes());
}

#[test]
fn make_key_layout() {
    assert_eq!(make_key(1, b"ab"), vec![0, 1, 58, 97, 98]);
    assert_eq!(make_key(0x1234, b""), vec![0x12, 0x34, 58]);
}

#[test]
fn mem_kv_behaves_like_a_map() {
    let mut kv = MemKV::new();
    assert_eq!(kv.get(1, b"k").unwrap(), None);
    kv.put(1, b"k", vec![1]).unwrap();
    kv.put(2, b"k", vec![2]).unwrap();
    assert_eq!(kv.get(1, b"k").unwrap(), Some(vec![1]));
    assert_eq!(kv.get(2, b"k").unwrap(), Some(vec![2]));
    kv.put(1, b"k", vec![3]).unwrap();
    assert_eq!(kv.get(1, b"k").unwrap(), Some(vec![3]));
    kv.delete(1, b"k").unwrap();
    assert_eq!(kv.get(1, b"k").unwrap(), None);
    assert_eq!(kv.get(2, b"k").unwrap(), Some(vec![2]));
    kv.sync().unwrap();
    kv.create_version(3).unwrap();
}

#[test]
fn fsnode_constructors() {
    let d = Dir::new();
    assert!(d.entries.is_empty());
    let s = Stat::new_file(7, 1000);
    assert_eq!((s.i, s.m, s.s, s.t), (7, 1000, 0, INODE_TYPE_FILE));
    let s = Stat::new_dir(8, 2000);
    assert_eq!((s.i, s.m, s.s, s.t), (8, 2000, 0, INODE_TYPE_DIR));
    let f = Inode::new_file(7, "/r/a.txt", 1000);
    assert_eq!(f.ino, 7);
    assert_eq!(f.path, "/r/a.txt");
    assert_eq!(f.stat.t, INODE_TYPE_FILE);
    let g = Inode::new_dir(8, "/r/", 2000);
    assert_eq!(g.ino, 8);
    assert_eq!(g.path, "/r/");
    assert_eq!(g.stat.t, INODE_TYPE_DIR);
}
