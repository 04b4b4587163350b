use vstore::commit::Commit;
use vstore::diff::DiffType;
use vstore::error::Error;
use vstore::kv::KeyValue;
use vstore::{MemKV, VStore};

#[test]
fn put_is_visible_before_sync() {
    let mut kv = MemKV::new();
    let mut v = VStore::new(&mut kv).unwrap();
    let mut t = v.writable(&mut kv).unwrap();
    t.put(&mut kv, b"alpha", &[1, 2, 3]).unwrap();
    let got = t.get(&kv, b"alpha").unwrap();
    assert_eq!(got, Some(vec![1, 2, 3]));
}

#[test]
fn put_str_and_get_str_round() {
    let mut kv = MemKV::new();
    let mut v = VStore::new(&mut kv).unwrap();
    let mut t = v.writable(&mut kv).unwrap();
    t.put_str(&mut kv, "hello", &[42]).unwrap();
    assert_eq!(t.get_str(&kv, "hello").unwrap(), Some(vec![42]));
    assert_eq!(t.get_str(&kv, "other").unwrap(), None);
}

#[test]
fn overwrite_in_same_version_keeps_last_value() {
    let mut kv = MemKV::new();
    let mut v = VStore::new(&mut kv).unwrap();
    let mut t = v.writable(&mut kv).unwrap();
    t.put(&mut kv, b"k", &[1]).unwrap();
    t.put(&mut kv, b"k", &[2]).unwrap();
    assert_eq!(t.get(&kv, b"k").unwrap(), Some(vec![2]));
}

#[test]
fn writable_twice_is_idempotent() {
    let mut kv = MemKV::new();
    let mut v = VStore::new(&mut kv).unwrap();
    let t1 = v.writable(&mut kv).unwrap();
    let t2 = v.writable(&mut kv).unwrap();
    assert_eq!(t1.commit.ver, 1);
    assert_eq!(t2.commit.ver, 1);
    assert_eq!(t1.commit.prev_ver, 0);
    assert_eq!(t2.commit.prev_ver, 0);
}

#[test]
fn commit_then_writable_increments_by_one() {
    let mut kv = MemKV::new();
    let mut v = VStore::new(&mut kv).unwrap();
    let mut prev: u16 = 0;
    for expect in 1u16..=4 {
        let t = v.writable(&mut kv).unwrap();
        assert_eq!(t.commit.ver, expect);
        assert_eq!(t.commit.prev_ver, prev);
        prev = t.commit.ver;
        v.commit(&mut kv, t).unwrap();
    }
}

#[test]
fn commit_seals_and_head_stays() {
    let mut kv = MemKV::new();
    let mut v = VStore::new(&mut kv).unwrap();
    let t = v.writable(&mut kv).unwrap();
    assert_eq!(v.commit_state().open_version(), 1);
    assert_eq!(v.commit_state().head_version(), 1);
    v.commit(&mut kv, t).unwrap();
    assert_eq!(v.commit_state().open_version(), 0);
    assert_eq!(v.commit_state().head_version(), 1);
}

#[test]
fn reopen_store_restores_commit_state() {
    let mut kv = MemKV::new();
    {
        let mut v = VStore::new(&mut kv).unwrap();
        let t = v.writable(&mut kv).unwrap();
        v.commit(&mut kv, t).unwrap();
    }
    let v2 = VStore::new(&mut kv).unwrap();
    assert_eq!(v2.commit_state().head_version(), 1);
    assert_eq!(v2.commit_state().open_version(), 0);
    let c = v2.commit_state().get_commit(1).unwrap();
    assert_eq!(c.ver, 1);
    assert_eq!(c.prev_ver, 0);
}

#[test]
fn values_survive_commit_and_reopen() {
    let mut kv = MemKV::new();
    {
        let mut v = VStore::new(&mut kv).unwrap();
        let mut t = v.writable(&mut kv).unwrap();
        t.put(&mut kv, b"persist", &[7, 7]).unwrap();
        v.commit(&mut kv, t).unwrap();
    }
    let v2 = VStore::new(&mut kv).unwrap();
    let it = v2.immutable(&kv, 1).unwrap();
    assert_eq!(it.get(&kv, b"persist").unwrap(), Some(vec![7, 7]));
    assert_eq!(it.get_str(&kv, "absent").unwrap(), None);
}

#[test]
fn next_version_inherits_previous_values() {
    let mut kv = MemKV::new();
    let mut v = VStore::new(&mut kv).unwrap();
    let mut t = v.writable(&mut kv).unwrap();
    t.put(&mut kv, b"a", &[1]).unwrap();
    v.commit(&mut kv, t).unwrap();
    let mut t2 = v.writable(&mut kv).unwrap();
    assert_eq!(t2.commit.ver, 2);
    assert_eq!(t2.get(&kv, b"a").unwrap(), Some(vec![1]));
    t2.put(&mut kv, b"b", &[2]).unwrap();
    assert_eq!(t2.get(&kv, b"a").unwrap(), Some(vec![1]));
    assert_eq!(t2.get(&kv, b"b").unwrap(), Some(vec![2]));
}

#[test]
fn immutable_without_index_fails_index_not_found() {
    let mut kv = MemKV::new();
    let mut v = VStore::new(&mut kv).unwrap();
    // writable makes the open version durable but persists no Index
    let _t = v.writable(&mut kv).unwrap();
    let r = v.immutable(&kv, 1);
    assert!(matches!(r, Err(Error::IndexNotFound)));
}

#[test]
fn immutable_unknown_version_fails_commit_not_found() {
    let mut kv = MemKV::new();
    let v = VStore::new(&mut kv).unwrap();
    let r = v.immutable(&kv, 5);
    assert!(matches!(r, Err(Error::CommitNotFound(5))));
}

#[test]
fn delete_on_untouched_partition_is_noop() {
    let mut kv = MemKV::new();
    let mut v = VStore::new(&mut kv).unwrap();
    let mut t = v.writable(&mut kv).unwrap();
    t.delete(&mut kv, b"never-written").unwrap();
    assert_eq!(t.get(&kv, b"never-written").unwrap(), None);
    t.delete_str(&mut kv, "also-never").unwrap();
    v.commit(&mut kv, t).unwrap();
    // the Index is unchanged: no partition was ever written, so a
    // diff of the version against itself is immediately empty
    let mut d = v.diff(&kv, 1, 1).unwrap();
    assert!(d.next(&kv).unwrap().is_none());
}

#[test]
fn delete_removes_key_in_current_version() {
    let mut kv = MemKV::new();
    let mut v = VStore::new(&mut kv).unwrap();
    let mut t = v.writable(&mut kv).unwrap();
    t.put(&mut kv, b"gone", &[9]).unwrap();
    assert_eq!(t.get(&kv, b"gone").unwrap(), Some(vec![9]));
    t.delete(&mut kv, b"gone").unwrap();
    assert_eq!(t.get(&kv, b"gone").unwrap(), None);
}

#[test]
fn missing_pack_is_reported_with_version_and_partition() {
    let mut kv = MemKV::new();
    let mut v = VStore::new(&mut kv).unwrap();
    let mut t = v.writable(&mut kv).unwrap();
    t.put(&mut kv, b"a", &[1]).unwrap();
    // remove the Pack record behind the Index's back: the partition id
    // is the top 20 bits of the key's xxh3 hash, stored as 4 BE bytes
    let part = (xxhash_rust::xxh3::xxh3_64(b"a") >> 44) as u32;
    kv.delete(1, &part.to_be_bytes()).unwrap();
    let r = t.get(&kv, b"a");
    assert!(matches!(r, Err(Error::PackNotFound(1, p)) if p == part));
}

#[test]
fn init_marker_garbage_fails_init_error() {
    let mut kv = MemKV::new();
    kv.put(0, b"init", vec![9]).unwrap();
    let r = VStore::new(&mut kv);
    assert!(matches!(r, Err(Error::InitError(_))));
}

#[test]
fn init_marker_without_commits_fails_init_error() {
    let mut kv = MemKV::new();
    kv.put(0, b"init", vec![100]).unwrap();
    let r = VStore::new(&mut kv);
    assert!(matches!(r, Err(Error::InitError(_))));
}

#[test]
fn corrupt_commit_state_fails_decode_error() {
    let mut kv = MemKV::new();
    kv.put(0, b"init", vec![100]).unwrap();
    kv.put(0, b"commits", vec![1, 2, 3]).unwrap();
    let r = VStore::new(&mut kv);
    assert!(matches!(r, Err(Error::DecodeError)));
}

#[test]
fn version_overflow_is_rejected() {
    // a persisted state whose head sits at the top of the range
    let bytes: Vec<u8> = vec![0xff, 0xff, 0x00, 0x00, 0xff, 0xff, 0xff, 0xfe];
    let mut cs = vstore::commit::CommitStateInner::from_buf(&bytes).unwrap();
    assert_eq!(cs.head_version(), 0xffff);
    let r = cs.open();
    assert!(matches!(r, Err(Error::VersionOverflow)));
}

#[test]
fn diff_of_two_versions_yields_one_value_entry() {
    let mut kv = MemKV::new();
    let mut v = VStore::new(&mut kv).unwrap();
    let mut t = v.writable(&mut kv).unwrap();
    assert_eq!(t.commit.ver, 1);
    t.put(&mut kv, b"a", &[1]).unwrap();
    v.commit(&mut kv, t).unwrap();
    let mut t2 = v.writable(&mut kv).unwrap();
    assert_eq!(t2.commit.ver, 2);
    t2.put(&mut kv, b"a", &[2]).unwrap();
    v.commit(&mut kv, t2).unwrap();

    let mut d = v.diff(&kv, 1, 2).unwrap();
    let mut value_entries = 0;
    loop {
        match d.next(&kv).unwrap() {
            None => break,
            Some(items) => {
                for item in items {
                    assert_eq!(item.key, b"a".to_vec());
                    match item.diff_type {
                        DiffType::Value(dv) => {
                            assert_eq!(dv.a_ver, 1);
                            assert_eq!(dv.b_ver, 2);
                            assert_eq!(dv.a_val, vec![1]);
                            assert_eq!(dv.b_val, vec![2]);
                            value_entries += 1;
                        }
                        _ => panic!("expected a Value entry"),
                    }
                }
            }
        }
    }
    assert_eq!(value_entries, 1);
}

#[test]
fn diff_reports_new_and_delete() {
    let mut kv = MemKV::new();
    let mut v = VStore::new(&mut kv).unwrap();
    let mut t = v.writable(&mut kv).unwrap();
    t.put(&mut kv, b"only-in-a", &[1]).unwrap();
    v.commit(&mut kv, t).unwrap();
    let mut t2 = v.writable(&mut kv).unwrap();
    t2.delete(&mut kv, b"only-in-a").unwrap();
    t2.put(&mut kv, b"only-in-b", &[2]).unwrap();
    v.commit(&mut kv, t2).unwrap();

    let mut d = v.diff(&kv, 1, 2).unwrap();
    let mut saw_new = 0;
    let mut saw_delete = 0;
    loop {
        match d.next(&kv).unwrap() {
            None => break,
            Some(items) => {
                for item in items {
                    match item.diff_type {
                        DiffType::New(val) => {
                            assert_eq!(item.key, b"only-in-b".to_vec());
                            assert_eq!(val, vec![2]);
                            saw_new += 1;
                        }
                        DiffType::Delete(ver, val) => {
                            assert_eq!(item.key, b"only-in-a".to_vec());
                            assert_eq!(ver, 1);
                            assert_eq!(val, vec![1]);
                            saw_delete += 1;
                        }
                        DiffType::Value(_) => panic!("no key changed on both sides"),
                    }
                }
            }
        }
    }
    assert_eq!(saw_new, 1);
    assert_eq!(saw_delete, 1);
}

#[test]
fn diff_skips_keys_written_at_same_version() {
    let mut kv = MemKV::new();
    let mut v = VStore::new(&mut kv).unwrap();
    let mut t = v.writable(&mut kv).unwrap();
    t.put(&mut kv, b"same", &[5]).unwrap();
    v.commit(&mut kv, t).unwrap();
    let t2 = v.writable(&mut kv).unwrap();
    v.commit(&mut kv, t2).unwrap();

    let mut d = v.diff(&kv, 1, 2).unwrap();
    loop {
        match d.next(&kv).unwrap() {
            None => break,
            Some(items) => {
                assert!(items.is_empty(), "unchanged key must not appear in the diff");
            }
        }
    }
}

#[test]
fn diff_missing_index_fails_index_not_found() {
    let mut kv = MemKV::new();
    let mut v = VStore::new(&mut kv).unwrap();
    let t = v.writable(&mut kv).unwrap();
    v.commit(&mut kv, t).unwrap();
    let r = v.diff(&kv, 1, 2);
    assert!(matches!(r, Err(Error::IndexNotFound)));
}

#[test]
fn diff_with_both_packs_missing_is_invalid_state() {
    let mut kv = MemKV::new();
    let mut v = VStore::new(&mut kv).unwrap();
    let mut t = v.writable(&mut kv).unwrap();
    t.put(&mut kv, b"a", &[1]).unwrap();
    v.commit(&mut kv, t).unwrap();
    let part = (xxhash_rust::xxh3::xxh3_64(b"a") >> 44) as u32;
    kv.delete(1, &part.to_be_bytes()).unwrap();
    let mut d = v.diff(&kv, 1, 1).unwrap();
    let r = d.next(&kv);
    assert!(matches!(r, Err(Error::InvalidDiffState)));
}

#[test]
fn commit_chain_is_recorded() {
    let mut kv = MemKV::new();
    let mut v = VStore::new(&mut kv).unwrap();
    for _ in 0..3 {
        let t = v.writable(&mut kv).unwrap();
        v.commit(&mut kv, t).unwrap();
    }
    let cs = v.commit_state();
    let c3 = cs.get_commit(3).unwrap();
    assert_eq!(c3, Commit { ver: 3, prev_ver: 2 });
    let c2 = cs.get_commit(2).unwrap();
    assert_eq!(c2, Commit { ver: 2, prev_ver: 1 });
    assert!(cs.get_commit(9).is_none());
}

#[test]
fn missing_head_commit_fails_head_version_not_found() {
    // persisted state: head 2, closed, but only version 1 recorded
    let bytes: Vec<u8> = vec![0, 2, 0, 0, 0, 1, 0, 0];
    let mut cs = vstore::commit::CommitStateInner::from_buf(&bytes).unwrap();
    let r = cs.open();
    assert!(matches!(r, Err(Error::HeadVersionNotFound(2))));
}

#[test]
fn missing_open_commit_fails_version_not_found() {
    // persisted state: version 1 open but not recorded
    let bytes: Vec<u8> = vec![0, 1, 0, 1];
    let mut cs = vstore::commit::CommitStateInner::from_buf(&bytes).unwrap();
    let r = cs.open();
    assert!(matches!(r, Err(Error::VersionNotFound(1))));
}

#[test]
fn diff_collects_every_new_key_once() {
    let mut kv = MemKV::new();
    let mut v = VStore::new(&mut kv).unwrap();
    let t = v.writable(&mut kv).unwrap();
    v.commit(&mut kv, t).unwrap();
    let keys: [&[u8]; 5] = [b"k1", b"k2", b"k3", b"k4", b"k5"];
    let mut t2 = v.writable(&mut kv).unwrap();
    for (i, k) in keys.iter().enumerate() {
        t2.put(&mut kv, k, &[i as u8]).unwrap();
    }
    v.commit(&mut kv, t2).unwrap();

    let mut d = v.diff(&kv, 1, 2).unwrap();
    let mut seen: Vec<Vec<u8>> = Vec::new();
    loop {
        match d.next(&kv).unwrap() {
            None => break,
            Some(items) => {
                for item in items {
                    match item.diff_type {
                        DiffType::New(val) => {
                            let pos = keys.iter().position(|k| *k == item.key.as_slice());
                            let pos = pos.expect("an unexpected key appeared");
                            assert_eq!(val, vec![pos as u8]);
                            assert!(!seen.contains(&item.key), "a key appeared twice");
                            seen.push(item.key);
                        }
                        _ => panic!("every key is new in the second version"),
                    }
                }
            }
        }
    }
    assert_eq!(seen.len(), keys.len());
}

#[test]
fn writable_with_corrupt_ledger_reports_missing_head() {
    let mut kv = MemKV::new();
    kv.put(0, b"init", vec![100]).unwrap();
    // persisted ledger: head 2, closed, but only version 1 recorded
    kv.put(0, b"commits", vec![0, 2, 0, 0, 0, 1, 0, 0]).unwrap();
    let mut v = VStore::new(&mut kv).unwrap();
    let r = v.writable(&mut kv);
    assert!(matches!(r, Err(Error::HeadVersionNotFound(2))));
}
