use mirror_cache::storage::MemoryStore;

#[test]
fn mem_store_write_read() {
    let mut storage = MemoryStore::new();
    let name = "write_read_test";
    let data = "Metaphysics includes cosmosology and ontology.";
    storage.persist(name, String::from(data).into_bytes());
    let data_read: Vec<u8> = storage.read(name).unwrap();
    assert_eq!(data.as_bytes().to_vec(), data_read);
}

#[test]
fn mem_store_remove() {
    let mut storage = MemoryStore::new();
    let name = "remove_test";
    storage.persist(name, String::from("wow").into_bytes());
    storage.remove(name);
    assert!(storage.read(name).is_none());
}

#[test]
fn mem_store_overwrite_and_others() {
    let mut storage = MemoryStore::new();
    storage.persist("a", vec![1]);
    storage.persist("b", vec![2]);
    storage.persist("a", vec![3, 4]);
    assert_eq!(storage.read("a"), Some(vec![3, 4]));
    storage.remove("a");
    storage.remove("missing");
    assert_eq!(storage.read("a"), None);
    assert_eq!(storage.read("b"), Some(vec![2]));
}
