use kvs::bytes::{bytes_equal, copy_bytes, copy_bytes_with_fill, get_bytes_with_fill};
use kvs::kv_server::KVServer;
use kvs::mem_store::{to_key, to_number, HashMemStore, MemStore};
use kvs::minikv::{DeleteRequest, GetRequest, PutRequest, ScanRequest};
use kvs::minikv_grpc::{
    create_mini_kv_server, method_name, CallOption, Message, Method, MiniKvServer,
    MiniKvServerClient, Reply,
};
use kvs::ordered_mem_store::BTreeMemStore;
use kvs::redo_log::{redo_bytes, ByteLog, RedoLog};
use kvs::store::Store;

fn do_test<T: MemStore>(store: &mut T) {
    let key = *b"00000001";
    let mut value = [0u8; 256];
    copy_bytes(b"a", &mut value);
    store.put(key, value);
    let key = *b"00000002";
    let mut value = [0u8; 256];
    copy_bytes(b"b", &mut value);
    store.put(key, value);
    let key = *b"00000001";
    let mut value = [0u8; 256];
    copy_bytes(b"c", &mut value);
    store.put(key, value);

    let key = *b"00000002";
    let mut value = [0u8; 256];
    copy_bytes(b"b", &mut value);
    assert!(bytes_equal(store.get(&key).unwrap(), &value));
    let key = *b"00000001";
    let mut value = [0u8; 256];
    copy_bytes(b"c", &mut value);
    assert!(bytes_equal(store.get(&key).unwrap(), &value));
    let scan_result = store.scan(0, 16);
    assert_eq!(scan_result.0, 0);
    assert_eq!(scan_result.1.len(), 2);

    store.delete(key);
    assert!(store.get(&key).is_none());
    let scan_result = store.scan(0, 16);
    assert_eq!(scan_result.0, 0);
    assert_eq!(scan_result.1.len(), 1);
}

#[test]
fn test_hashmap_store() {
    let mut store = HashMemStore::new();
    do_test(&mut store);
}

#[test]
fn test_btreemap_store() {
    let mut store = HashMemStore::new();
    do_test(&mut store);
}

#[test]
fn test_file() {
    let mut file = ByteLog::new(Vec::new());

    let key = *b"00000001";
    let mut value = [0u8; 256];
    copy_bytes(b"a", &mut value);
    file.log_put(&key, &value);
    let key = *b"00000002";
    let mut value = [0u8; 256];
    copy_bytes(b"b", &mut value);
    file.log_put(&key, &value);
    let key = *b"00000001";
    let mut value = [0u8; 256];
    copy_bytes(b"c", &mut value);
    file.log_put(&key, &value);
    let key = *b"00000002";
    file.log_delete(&key);

    let mut store = HashMemStore::new();
    let mut file = ByteLog::new(file.data().clone());
    file.redo(&mut store);
    let scan_result = store.scan(0, 16);
    assert_eq!(scan_result.0, 0);
    assert_eq!(scan_result.1.len(), 1);
    let key = *b"00000001";
    let mut value = [0u8; 256];
    copy_bytes(b"c", &mut value);
    assert!(bytes_equal(store.get(&key).unwrap(), &value));
}

#[test]
fn copy_bytes_copies_the_shorter_length() {
    let mut to = [9u8; 4];
    copy_bytes(&[1, 2], &mut to);
    assert_eq!(to, [1, 2, 9, 9]);
    let mut to = [9u8; 2];
    copy_bytes(&[1, 2, 3], &mut to);
    assert_eq!(to, [1, 2]);
    let mut to: [u8; 0] = [];
    copy_bytes(&[1], &mut to);
    copy_bytes(&[], &mut [5u8; 1]);
}

#[test]
fn copy_bytes_with_fill_fills_the_rest() {
    let mut to = [9u8; 4];
    copy_bytes_with_fill(&[1, 2], &mut to, 7);
    assert_eq!(to, [1, 2, 7, 7]);
    let mut to = [9u8; 2];
    copy_bytes_with_fill(&[1, 2, 3], &mut to, 7);
    assert_eq!(to, [1, 2]);
}

#[test]
fn get_bytes_with_fill_pads_and_cuts() {
    assert_eq!(get_bytes_with_fill(&[1, 2], 4, 0), vec![1, 2, 0, 0]);
    assert_eq!(get_bytes_with_fill(&[1, 2, 3], 2, 0), vec![1, 2]);
    assert_eq!(get_bytes_with_fill(&[], 0, 5), Vec::<u8>::new());
    assert_eq!(get_bytes_with_fill(&[], 3, 5), vec![5, 5, 5]);
}

#[test]
fn bytes_equal_compares_length_and_content() {
    assert!(bytes_equal(&[], &[]));
    assert!(bytes_equal(&[1, 2], &[1, 2]));
    assert!(!bytes_equal(&[1, 2], &[1, 3]));
    assert!(!bytes_equal(&[1, 2], &[1, 2, 3]));
}

#[test]
fn key_numbers_are_big_endian_and_turn_back() {
    assert_eq!(to_number(&[0, 0, 0, 0, 0, 0, 1, 2]), 258);
    assert_eq!(to_number(b"00000001"), u64::from_be_bytes(*b"00000001"));
    assert_eq!(to_key(258), [0, 0, 0, 0, 0, 0, 1, 2]);
    assert_eq!(to_key(to_number(b"abcdefgh")), *b"abcdefgh");
    assert!(to_number(b"00000001") < to_number(b"00000002"));
}

#[test]
fn scan_pages_through_the_keys() {
    let mut store = HashMemStore::new();
    for i in 0..5u8 {
        store.put([i; 8], [i; 256]);
    }
    let (cursor, first) = store.scan(0, 2);
    assert_eq!(cursor, 2);
    assert_eq!(first.len(), 2);
    let (cursor, second) = store.scan(cursor, 2);
    assert_eq!(cursor, 4);
    let (cursor, third) = store.scan(cursor, 2);
    assert_eq!(cursor, 0);
    assert_eq!(third.len(), 1);
    let mut all: Vec<[u8; 8]> = first.into_iter().chain(second).chain(third).collect();
    all.sort();
    assert_eq!(all, vec![[0; 8], [1; 8], [2; 8], [3; 8], [4; 8]]);
    assert_eq!(store.scan(7, 2), (0, vec![]));
    assert_eq!(store.scan(0, 0).1.len(), 0);
}

#[test]
fn ordered_store_scans_in_key_order_without_wrapping() {
    let mut store = BTreeMemStore::new();
    for key in [b"00000003", b"00000001", b"00000002", b"0000000a", b"00000001"] {
        store.put(*key, [key[7]; 256]);
    }
    assert_eq!(store.get(b"00000001"), Some(&[b'1'; 256]));
    assert_eq!(store.get(b"00000009"), None);
    assert_eq!(store.scan(0, 16), (4, vec![*b"00000001", *b"00000002", *b"00000003", *b"0000000a"]));
    assert_eq!(store.scan(1, 2), (3, vec![*b"00000002", *b"00000003"]));
    assert_eq!(store.scan(4, 2), (4, vec![]));
    assert_eq!(store.scan(9, 2), (9, vec![]));
    assert_eq!(store.delete(*b"00000002"), Some([b'2'; 256]));
    assert_eq!(store.delete(*b"00000002"), None);
    assert_eq!(store.scan(0, 1), (1, vec![*b"00000001"]));
}

#[test]
fn redo_stops_at_an_unknown_operation() {
    let mut log = ByteLog::new(Vec::new());
    log.log_put(b"00000001", &[1; 256]);
    let mut bytes = log.data().clone();
    bytes.extend_from_slice(b"foobar");
    bytes.extend_from_slice(b"delete00000001");
    let mut store = HashMemStore::new();
    redo_bytes(&bytes, &mut store);
    assert_eq!(store.get(b"00000001"), Some(&[1u8; 256]));
}

#[test]
fn redo_pads_a_record_cut_short() {
    let mut bytes = Vec::new();
    bytes.extend_from_slice(b"   put");
    bytes.extend_from_slice(b"abc");
    let mut store = HashMemStore::new();
    redo_bytes(&bytes, &mut store);
    assert_eq!(store.get(b"abc\0\0\0\0\0"), Some(&[0u8; 256]));
    assert_eq!(store.scan(0, 16).1.len(), 1);
    let mut store = HashMemStore::new();
    redo_bytes(b"   pu", &mut store);
    assert_eq!(store.scan(0, 16).1.len(), 0);
}

#[test]
fn redo_log_records_have_the_documented_layout() {
    let mut log = ByteLog::new(Vec::new());
    log.log_put(b"00000001", &[7; 256]);
    log.log_delete(b"00000002");
    let data = log.data();
    assert_eq!(data.len(), 6 + 8 + 256 + 6 + 8);
    assert_eq!(&data[..6], b"   put");
    assert_eq!(&data[6..14], b"00000001");
    assert_eq!(&data[14..270], &[7u8; 256][..]);
    assert_eq!(&data[270..276], b"delete");
    assert_eq!(&data[276..], b"00000002");
}

#[test]
fn store_made_over_a_log_holds_what_the_log_puts() {
    let mut log = ByteLog::new(Vec::new());
    log.log_put(b"00000001", &[9; 256]);
    let written = log.data().clone();
    let store = Store::new(HashMemStore::new(), log);
    assert_eq!(store.get(b"00000001"), Some(&[9u8; 256]));
    assert_eq!(store.scan(0, 16), (0, vec![*b"00000001"]));
    let mut seeded = HashMemStore::new();
    seeded.put(*b"00000002", [2; 256]);
    let store = Store::new(seeded, ByteLog::new(written));
    assert_eq!(store.get(b"00000001"), Some(&[9u8; 256]));
    assert_eq!(store.get(b"00000002"), Some(&[2u8; 256]));
}

#[test]
fn store_logs_changes_and_is_rebuilt_from_the_log() {
    let mut store = Store::new(HashMemStore::new(), ByteLog::new(Vec::new()));
    store.put(*b"00000001", [1; 256]);
    store.put(*b"00000002", [2; 256]);
    store.put(*b"00000001", [3; 256]);
    assert_eq!(store.delete(*b"00000002"), Some([2; 256]));
    assert_eq!(store.delete(*b"00000009"), None);
    assert_eq!(store.get(b"00000001"), Some(&[3u8; 256]));
    assert_eq!(store.get(b"00000002"), None);
    assert_eq!(store.scan(0, 16), (0, vec![*b"00000001"]));

    let mut log = ByteLog::new(Vec::new());
    log.log_put(b"00000001", &[1; 256]);
    log.log_put(b"00000002", &[2; 256]);
    log.log_put(b"00000001", &[3; 256]);
    log.log_delete(b"00000002");
    let rebuilt = Store::new(HashMemStore::new(), log);
    assert_eq!(rebuilt.get(b"00000001"), Some(&[3u8; 256]));
    assert_eq!(rebuilt.get(b"00000002"), None);
}

fn server() -> KVServer<HashMemStore, ByteLog> {
    KVServer::new(Store::new(HashMemStore::new(), ByteLog::new(Vec::new())))
}

#[test]
fn put_handler_checks_lengths() {
    let mut s = server();
    let r = s.put(PutRequest { key: vec![1; 8], value: vec![2; 256] });
    assert!(r.success);
    assert_eq!(r.error_message, "");
    let r = s.put(PutRequest { key: vec![1; 7], value: vec![2; 256] });
    assert!(!r.success);
    assert_eq!(r.error_message, "the key must be 8 bytes, padding if necessary");
    let r = s.put(PutRequest { key: vec![1; 8], value: vec![2; 2] });
    assert!(!r.success);
    assert_eq!(r.error_message, "the key must be 256 bytes, padding if necessary");
    let r = s.put(PutRequest { key: vec![], value: vec![] });
    assert!(!r.success);
    assert_eq!(
        r.error_message,
        "the key must be 8 bytes, padding if necessary\nthe key must be 256 bytes, padding if necessary"
    );
    let r = s.get(GetRequest { key: vec![1; 7] });
    assert!(!r.success);
}

#[test]
fn get_and_delete_handlers_pad_the_key() {
    let mut s = server();
    assert!(s.put(PutRequest { key: b"abc\0\0\0\0\0".to_vec(), value: vec![5; 256] }).success);
    let r = s.get(GetRequest { key: b"abc".to_vec() });
    assert!(r.success);
    assert_eq!(r.value, vec![5; 256]);
    assert_eq!(r.error_message, "");
    let r = s.get(GetRequest { key: b"abd".to_vec() });
    assert!(!r.success);
    assert_eq!(r.value, Vec::<u8>::new());
    assert_eq!(r.error_message, "key not found");
    let r = s.delete(DeleteRequest { key: b"abc\0\0\0\0\0extra".to_vec() });
    assert!(r.success);
    assert_eq!(r.error_message, "");
    let r = s.delete(DeleteRequest { key: b"abc".to_vec() });
    assert!(!r.success);
    assert_eq!(r.error_message, "key not found");
}

#[test]
fn scan_handler_hands_out_sixteen_keys_at_most() {
    let mut s = server();
    for i in 0..20u8 {
        assert!(s.put(PutRequest { key: vec![i; 8], value: vec![0; 256] }).success);
    }
    let r = s.scan(ScanRequest { cursor: 0 });
    assert_eq!(r.cursor, 16);
    assert_eq!(r.result.len(), 16);
    let r = s.scan(ScanRequest { cursor: 16 });
    assert_eq!(r.cursor, 0);
    assert_eq!(r.result.len(), 4);
    assert!(r.result.iter().all(|k| k.len() == 8));
    let r = s.scan(ScanRequest { cursor: 100 });
    assert_eq!(r.cursor, 0);
    assert_eq!(r.result.len(), 0);
}

#[test]
fn service_routes_a_call_to_the_handler_of_its_method() {
    let mut service = create_mini_kv_server(server());
    let reply = service.call(
        Method::Put,
        Message::Put(PutRequest { key: vec![1; 8], value: vec![2; 256] }),
    );
    assert!(matches!(reply, Some(Reply::Put(r)) if r.success));
    let reply = service.call(Method::Get, Message::Get(GetRequest { key: vec![1; 8] }));
    assert!(matches!(reply, Some(Reply::Get(r)) if r.success && r.value == vec![2; 256]));
    let reply = service.call(Method::Scan, Message::Scan(ScanRequest { cursor: 0 }));
    assert!(matches!(reply, Some(Reply::Scan(r)) if r.result == vec![vec![1u8; 8]]));
    let reply = service.call(Method::Delete, Message::Delete(DeleteRequest { key: vec![1; 8] }));
    assert!(matches!(reply, Some(Reply::Delete(r)) if r.success));
    let reply = service.call(Method::Get, Message::Scan(ScanRequest { cursor: 0 }));
    assert!(reply.is_none());
}

#[test]
fn client_describes_its_calls() {
    let client = MiniKvServerClient::new("localhost:5884".to_string());
    assert_eq!(client.channel(), "localhost:5884");
    let get = GetRequest { key: vec![1, 2] };
    let call = client.get(&get);
    assert_eq!(call.method, Method::Get);
    assert!(matches!(&call.message, Message::Get(m) if m.key == vec![1, 2]));
    assert_eq!(call.option, CallOption::default());
    assert!(call.wait);
    let opt = CallOption { timeout_millis: Some(5) };
    let call = client.get_opt(&get, opt);
    assert_eq!(call.option, opt);
    assert!(call.wait);
    assert!(!client.get_async(&get).wait);
    assert!(!client.get_async_opt(&get, opt).wait);
    assert_eq!(client.get_async_opt(&get, opt).option, opt);

    let put = PutRequest { key: vec![1], value: vec![2] };
    let call = client.put(&put);
    assert_eq!(call.method, Method::Put);
    assert!(matches!(&call.message, Message::Put(m) if m.key == vec![1] && m.value == vec![2]));
    assert!(client.put_opt(&put, opt).wait);
    assert!(!client.put_async(&put).wait);
    assert_eq!(client.put_async_opt(&put, opt).method, Method::Put);

    let delete = DeleteRequest { key: vec![3] };
    let call = client.delete(&delete);
    assert_eq!(call.method, Method::Delete);
    assert!(matches!(&call.message, Message::Delete(m) if m.key == vec![3]));
    assert!(client.delete_opt(&delete, opt).wait);
    assert!(!client.delete_async(&delete).wait);
    assert_eq!(client.delete_async_opt(&delete, opt).option, opt);

    let scan = ScanRequest { cursor: 9 };
    let call = client.scan(&scan);
    assert_eq!(call.method, Method::Scan);
    assert!(matches!(&call.message, Message::Scan(m) if m.cursor == 9));
    assert!(client.scan_opt(&scan, opt).wait);
    assert!(!client.scan_async(&scan).wait);
    assert_eq!(client.scan_async_opt(&scan, opt).method, Method::Scan);
}

#[test]
fn methods_have_their_paths() {
    assert_eq!(method_name(Method::Get), "/MiniKVServer/Get");
    assert_eq!(method_name(Method::Put), "/MiniKVServer/Put");
    assert_eq!(method_name(Method::Delete), "/MiniKVServer/Delete");
    assert_eq!(method_name(Method::Scan), "/MiniKVServer/Scan");
}
