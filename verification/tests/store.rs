use miniminio::sharded_db::{key_hash, shard_index_for, Shard, ShardedDB};

fn bytes(s: &str) -> Vec<u8> {
    s.as_bytes().to_vec()
}

#[test]
fn example_a_insert_then_get() {
    let mut db: ShardedDB<Vec<u8>> = ShardedDB::new(10);
    db.insert("foo", bytes("bar"));
    assert_eq!(db.get("foo"), Some(bytes("bar")));
    assert_eq!(db.get("missing"), None);
}

#[test]
fn insert_then_get_for_every_shard_count() {
    for n in 1..9usize {
        let mut db: ShardedDB<Vec<u8>> = ShardedDB::new(n);
        db.insert("alpha", bytes("1"));
        db.insert("beta", bytes("2"));
        db.insert("gamma", bytes("3"));
        assert_eq!(db.get("alpha"), Some(bytes("1")));
        assert_eq!(db.get("beta"), Some(bytes("2")));
        assert_eq!(db.get("gamma"), Some(bytes("3")));
        assert_eq!(db.get("delta"), None);
    }
}

#[test]
fn insert_overwrites_the_previous_value() {
    let mut db: ShardedDB<Vec<u8>> = ShardedDB::new(4);
    db.insert("k", bytes("old"));
    db.insert("k", bytes("new"));
    assert_eq!(db.get("k"), Some(bytes("new")));
}

#[test]
fn a_key_always_routes_to_the_same_shard() {
    let db: ShardedDB<u64> = ShardedDB::new(7);
    let first = db.get_key_shard("stable-key");
    for _ in 0..10 {
        assert_eq!(db.get_key_shard("stable-key"), first);
    }
    assert!(first < 7);
    assert_eq!(key_hash("stable-key"), key_hash("stable-key"));
}

#[test]
fn routing_agrees_between_store_and_free_function() {
    let db: ShardedDB<u64> = ShardedDB::new(5);
    for key in ["a", "b", "object/1", "object/2", ""] {
        assert_eq!(db.get_key_shard(key), shard_index_for(key, 5));
    }
}

#[test]
fn keys_on_different_shards_do_not_disturb_each_other() {
    // Find two keys that route to different shards, write to one and check
    // the other's reads are unaffected, in either order.
    let n = 4usize;
    let keys = ["a", "b", "c", "d", "e", "f", "g", "h"];
    let first = keys[0];
    let other = keys
        .iter()
        .find(|k| shard_index_for(k, n) != shard_index_for(first, n))
        .expect("some key routes elsewhere");
    let mut db: ShardedDB<Vec<u8>> = ShardedDB::new(n);
    db.insert(other, bytes("kept"));
    db.insert(first, bytes("noise-1"));
    db.insert(first, bytes("noise-2"));
    assert_eq!(db.get(other), Some(bytes("kept")));
    db.insert(other, bytes("kept-2"));
    db.insert(first, bytes("noise-3"));
    assert_eq!(db.get(other), Some(bytes("kept-2")));
    assert_eq!(db.get(first), Some(bytes("noise-3")));
}

#[test]
fn single_shard_store_works() {
    let mut db: ShardedDB<String> = ShardedDB::new(1);
    assert_eq!(db.get_key_shard("anything"), 0);
    db.insert("anything", "v".to_string());
    assert_eq!(db.get("anything"), Some("v".to_string()));
}

#[test]
fn a_bare_shard_is_a_map() {
    let mut shard: Shard<Vec<u8>> = Shard::new();
    assert_eq!(shard.get("x"), None);
    shard.insert("x", bytes("1"));
    shard.insert("y", bytes("2"));
    shard.insert("x", bytes("3"));
    assert_eq!(shard.get("x"), Some(bytes("3")));
    assert_eq!(shard.get("y"), Some(bytes("2")));
    assert_eq!(shard.get("z"), None);
}
