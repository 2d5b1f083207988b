use kvs::client::{
    get_request, get_result, remove_request, remove_result, set_request, set_result,
};
use kvs::common::{GetResponse, RemoveResponse, Request, SetResponse};
use kvs::error::Error;
use kvs::kvstore::KvStore;
use kvs::lsm_tree::LSMTree;
use kvs::order::{rank, Rank};
use kvs::server::{get_reply, remove_reply, set_reply, KvServer, Response};
use kvs::sorted_map::SortedMap;
use kvs::storage::{
    removal_result, value_from_bytes, HashMapStorage, KvStorage, OrderedMapStorage,
};

fn exercise<S: KvStorage>(storage: &mut S) {
    assert_eq!(storage.get("a").unwrap(), None);
    storage.insert("a".to_string(), "1".to_string()).unwrap();
    storage.insert("b".to_string(), "2".to_string()).unwrap();
    storage.insert("a".to_string(), "3".to_string()).unwrap();
    assert_eq!(storage.get("a").unwrap(), Some("3".to_string()));
    assert_eq!(storage.get("b").unwrap(), Some("2".to_string()));
    storage.remove("a").unwrap();
    assert_eq!(storage.get("a").unwrap(), None);
    assert!(matches!(storage.remove("a"), Err(Error::KeyNotFound)));
    assert!(matches!(storage.remove("zzz"), Err(Error::KeyNotFound)));
    assert_eq!(storage.get("b").unwrap(), Some("2".to_string()));
}

#[test]
fn storages_are_interchangeable() {
    exercise(&mut HashMapStorage::new());
    exercise(&mut OrderedMapStorage::new());
    exercise(&mut LSMTree::new(Vec::new(), Vec::new(), Vec::new()));
    exercise(&mut LSMTree::with_limit(Vec::new(), Vec::new(), Vec::new(), 0));
}

#[test]
fn store_over_a_tree_sets_gets_and_removes() {
    let mut store = KvStore::open(Vec::new(), Vec::new(), Vec::new()).unwrap();
    store.set("key".to_owned(), "value".to_owned()).unwrap();
    assert_eq!(store.get("key".to_owned()).unwrap(), Some("value".to_owned()));
    store.set("key".to_owned(), "other".to_owned()).unwrap();
    assert_eq!(store.get("key".to_owned()).unwrap(), Some("other".to_owned()));
    store.remove("key".to_owned()).unwrap();
    assert_eq!(store.get("key".to_owned()).unwrap(), None);
    assert!(matches!(store.remove("key".to_owned()), Err(Error::KeyNotFound)));
}

#[test]
fn store_opens_existing_segments() {
    let mut tree = LSMTree::new(Vec::new(), Vec::new(), Vec::new());
    tree.insert("a".to_string(), "1".to_string()).unwrap();
    tree.compact().unwrap();
    tree.insert("b".to_string(), "2".to_string()).unwrap();
    let store = KvStore::open(
        tree.small_tree().clone(),
        tree.large_tree().clone(),
        tree.large_tree_meta().clone(),
    )
    .unwrap();
    assert_eq!(store.get("a".to_owned()).unwrap(), Some("1".to_owned()));
    assert_eq!(store.get("b".to_owned()).unwrap(), Some("2".to_owned()));
}

#[test]
fn default_store_is_empty() {
    let mut store = KvStore::default();
    assert_eq!(store.get("a".to_owned()).unwrap(), None);
    store.set("a".to_owned(), "1".to_owned()).unwrap();
    assert_eq!(store.get("a".to_owned()).unwrap(), Some("1".to_owned()));
}

#[test]
fn server_answers_each_request_with_its_kind() {
    let mut server = KvServer::new(LSMTree::new(Vec::new(), Vec::new(), Vec::new())).unwrap();
    let r = server.serve(Request::Get { key: "a".to_string() });
    assert!(matches!(r, Response::Get(GetResponse::Success(None))));
    let r = server.serve(Request::Put { key: "a".to_string(), value: "1".to_string() });
    assert!(matches!(r, Response::Put(SetResponse::Success(()))));
    let r = server.serve(Request::Get { key: "a".to_string() });
    assert!(matches!(r, Response::Get(GetResponse::Success(Some(v))) if v == "1"));
    let r = server.serve(Request::Remove { key: "a".to_string() });
    assert!(matches!(r, Response::Remove(RemoveResponse::Success(()))));
    let r = server.serve(Request::Remove { key: "a".to_string() });
    assert!(matches!(r, Response::Remove(RemoveResponse::Failure(m)) if m == "Key not found"));
    let mut server = KvServer::default();
    let r = server.serve(Request::Remove { key: "a".to_string() });
    assert!(matches!(r, Response::Remove(RemoveResponse::Failure(m)) if m == "Key not found"));
}

#[test]
fn errors_have_messages() {
    assert_eq!(Error::KeyNotFound.message(), "Key not found");
    assert_eq!(Error::StringError("boom".to_string()).message(), "boom");
    let tree = LSMTree::new(Vec::new(), Vec::new(), vec![0; 8]);
    let message = tree.get("a").unwrap_err().message();
    assert!(message.starts_with("bincode error: "));
}

#[test]
fn rank_orders_keys_by_their_bytes() {
    assert_eq!(rank("a", "b"), Rank::Before);
    assert_eq!(rank("b", "a"), Rank::After);
    assert_eq!(rank("a", "a"), Rank::Same);
    assert_eq!(rank("", ""), Rank::Same);
    assert_eq!(rank("", "a"), Rank::Before);
    assert_eq!(rank("a", "ab"), Rank::Before);
    assert_eq!(rank("ab", "a"), Rank::After);
    assert_eq!(rank("Z", "a"), Rank::Before);
    assert_eq!(rank("z", "é"), Rank::Before);
    assert_eq!(rank("key:10", "key:9"), Rank::Before);
}

#[test]
fn sorted_map_keeps_keys_in_order() {
    let mut map: SortedMap<String> = SortedMap::new();
    assert_eq!(map.len(), 0);
    for key in ["m", "c", "x", "a", "c"] {
        map.insert(key.to_string(), key.to_uppercase());
    }
    assert_eq!(map.len(), 4);
    let keys: Vec<&str> = (0..map.len()).map(|i| map.key_at(i).as_str()).collect();
    assert_eq!(keys, vec!["a", "c", "m", "x"]);
    assert_eq!(map.value_at(1), "C");
    assert_eq!(map.get("m"), Some(&"M".to_string()));
    assert_eq!(map.get("b"), None);
    assert_eq!(map.remove("c"), Some("C".to_string()));
    assert_eq!(map.remove("c"), None);
    assert_eq!(map.len(), 3);
    map.insert("a".to_string(), "again".to_string());
    assert_eq!(map.get("a"), Some(&"again".to_string()));
    assert_eq!(map.len(), 3);
}

#[test]
fn client_builds_requests_and_reads_answers() {
    assert!(matches!(get_request("k".to_string()), Request::Get { key } if key == "k"));
    assert!(matches!(
        set_request("k".to_string(), "v".to_string()),
        Request::Put { key, value } if key == "k" && value == "v"
    ));
    assert!(matches!(remove_request("k".to_string()), Request::Remove { key } if key == "k"));
    assert_eq!(get_result(GetResponse::Success(Some("v".to_string()))).unwrap(), Some("v".to_string()));
    assert_eq!(get_result(GetResponse::Success(None)).unwrap(), None);
    assert!(matches!(
        get_result(GetResponse::Failure("no".to_string())),
        Err(Error::StringError(m)) if m == "no"
    ));
    assert!(set_result(SetResponse::Success(())).is_ok());
    assert!(matches!(
        set_result(SetResponse::Failure("no".to_string())),
        Err(Error::StringError(m)) if m == "no"
    ));
    assert!(remove_result(RemoveResponse::Success(())).is_ok());
    assert!(matches!(
        remove_result(RemoveResponse::Failure("Key not found".to_string())),
        Err(Error::StringError(m)) if m == "Key not found"
    ));
}

#[test]
fn values_kept_as_bytes_must_be_utf8() {
    assert_eq!(value_from_bytes(None).unwrap(), None);
    assert_eq!(value_from_bytes(Some(b"caf\xc3\xa9".to_vec())).unwrap(), Some("café".to_string()));
    assert_eq!(value_from_bytes(Some(Vec::new())).unwrap(), Some(String::new()));
    let error = value_from_bytes(Some(vec![0xff, 0x41])).unwrap_err();
    assert!(matches!(error, Error::Utf8(_)));
    assert!(error.message().starts_with("UTF-8 error: "));
    assert!(removal_result(Some(1)).is_ok());
    assert!(matches!(removal_result(None::<u8>), Err(Error::KeyNotFound)));
}

#[test]
fn errors_convert_from_their_sources() {
    let io = std::io::Error::new(std::io::ErrorKind::Other, "disk on fire");
    let error = Error::from(io);
    assert!(matches!(error, Error::IoError(_)));
    assert_eq!(error.message(), "IO error: disk on fire");
    let bad = String::from_utf8(vec![0xff]).unwrap_err();
    assert!(matches!(Error::from(bad), Error::Utf8(_)));
    let short = bincode::deserialize::<u64>(&[1, 2]).unwrap_err();
    assert!(matches!(Error::from(short), Error::BincodeError(_)));
    let sled = sled::Error::Unsupported("nope".to_string());
    let error = Error::from(sled);
    assert!(matches!(error, Error::Sled(_)));
    assert!(error.message().starts_with("sled error: "));
}

#[test]
fn replies_carry_the_result_or_the_message_of_the_error() {
    assert!(matches!(get_reply(Ok(Some("v".to_string()))), GetResponse::Success(Some(v)) if v == "v"));
    assert!(matches!(get_reply(Ok(None)), GetResponse::Success(None)));
    assert!(matches!(
        get_reply(Err(Error::StringError("boom".to_string()))),
        GetResponse::Failure(m) if m == "boom"
    ));
    let short = bincode::deserialize::<u64>(&[1, 2]).unwrap_err();
    assert!(matches!(
        get_reply(Err(Error::from(short))),
        GetResponse::Failure(m) if m.starts_with("bincode error: ") && m.len() > 15
    ));
    assert!(matches!(set_reply(Ok(())), SetResponse::Success(())));
    let io = std::io::Error::new(std::io::ErrorKind::Other, "disk on fire");
    assert!(matches!(
        set_reply(Err(Error::from(io))),
        SetResponse::Failure(m) if m == "IO error: disk on fire"
    ));
    assert!(matches!(remove_reply(Ok(())), RemoveResponse::Success(())));
    assert!(matches!(
        remove_reply(Err(Error::KeyNotFound)),
        RemoveResponse::Failure(m) if m == "Key not found"
    ));
}

#[test]
fn server_passes_a_failed_read_on_as_a_failure() {
    let tree = LSMTree::new(Vec::new(), Vec::new(), vec![0; 8]);
    let mut server = KvServer::new(tree).unwrap();
    let r = server.serve(Request::Get { key: "a".to_string() });
    assert!(matches!(r, Response::Get(GetResponse::Failure(m)) if m.starts_with("bincode error: ")));
    let r = server.serve(Request::Remove { key: "a".to_string() });
    assert!(matches!(
        r,
        Response::Remove(RemoveResponse::Failure(m)) if m.starts_with("bincode error: ")
    ));
}
