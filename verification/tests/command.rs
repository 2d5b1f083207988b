use kvs::kv_server::KVServer;
use kvs::mem_store::HashMemStore;
use kvs::minikv_grpc::{create_mini_kv_server, MiniKvServerClient, Reply};
use kvs::redo_log::ByteLog;
use kvs::store::Store;
use kvs::command::{
    key_warning, lower, parse_command, read_number, refusal_message, trim, value_warning, Command,
    Refusal,
};

fn padded(s: &[u8], n: usize) -> Vec<u8> {
    let mut v = s.to_vec();
    v.resize(n, 0);
    v
}

#[test]
fn empty_lines_ask_for_nothing() {
    assert!(matches!(parse_command(b""), Command::Nothing));
    assert!(matches!(parse_command(b"\n"), Command::Nothing));
    assert!(matches!(parse_command(b" put a b\n"), Command::Nothing));
    assert!(matches!(parse_command(b"\t\r\n"), Command::Nothing));
}

#[test]
fn put_pads_key_and_value() {
    match parse_command(b"put abc hello\n") {
        Command::Put { request, key_fitted, value_fitted } => {
            assert_eq!(request.key, padded(b"abc", 8));
            assert_eq!(request.value, padded(b"hello", 256));
            assert!(key_fitted);
            assert!(value_fitted);
        }
        other => panic!("unexpected {:?}", other),
    }
    let value = "v".repeat(256);
    match parse_command(format!("PUT 12345678 {}", value).as_bytes()) {
        Command::Put { request, key_fitted, value_fitted } => {
            assert_eq!(request.key, b"12345678".to_vec());
            assert_eq!(request.value, value.as_bytes().to_vec());
            assert!(!key_fitted);
            assert!(!value_fitted);
        }
        other => panic!("unexpected {:?}", other),
    }
    match parse_command(b"put 123456789 x") {
        Command::Put { request, key_fitted, .. } => {
            assert_eq!(request.key, b"12345678".to_vec());
            assert!(key_fitted);
        }
        other => panic!("unexpected {:?}", other),
    }
}

#[test]
fn put_takes_an_empty_word_between_two_blanks_as_its_key() {
    match parse_command(b"put  k v") {
        Command::Put { request, .. } => {
            assert_eq!(request.key, vec![0u8; 8]);
            assert_eq!(request.value, padded(b"k", 256));
        }
        other => panic!("unexpected {:?}", other),
    }
}

#[test]
fn put_without_arguments_is_refused() {
    assert!(matches!(parse_command(b"put\n"), Command::Refused(Refusal::PutNeedsKeyAndValue)));
    assert!(matches!(parse_command(b"put key\n"), Command::Refused(Refusal::PutNeedsValue(true))));
    assert!(matches!(
        parse_command(b"put 12345678\n"),
        Command::Refused(Refusal::PutNeedsValue(false))
    ));
}

#[test]
fn get_and_delete_pad_the_key() {
    assert!(matches!(parse_command(b"get abc\n"), Command::Get(r) if r.key == padded(b"abc", 8)));
    assert!(matches!(parse_command(b"Get abc def"), Command::Get(r) if r.key == padded(b"abc", 8)));
    assert!(matches!(parse_command(b"get"), Command::Refused(Refusal::GetNeedsKey)));
    assert!(matches!(
        parse_command(b"delete 1234567890\n"),
        Command::Delete(r) if r.key == b"12345678".to_vec()
    ));
    assert!(matches!(parse_command(b"delete\n"), Command::Refused(Refusal::DeleteNeedsKey)));
}

#[test]
fn scan_reads_its_cursor() {
    assert!(matches!(parse_command(b"scan 0\n"), Command::Scan(r) if r.cursor == 0));
    assert!(matches!(parse_command(b"scan +17"), Command::Scan(r) if r.cursor == 17));
    assert!(matches!(
        parse_command(b"scan 18446744073709551615"),
        Command::Scan(r) if r.cursor == u64::MAX
    ));
    for bad in ["scan x", "scan -1", "scan 18446744073709551616", "scan 1x", "scan +", "scan  1"] {
        assert!(
            matches!(parse_command(bad.as_bytes()), Command::Refused(Refusal::ScanCursorNotANumber)),
            "{}",
            bad
        );
    }
    assert!(matches!(parse_command(b"scan\n"), Command::Refused(Refusal::ScanNeedsCursor)));
}

#[test]
fn other_words_are_invalid_commands() {
    assert!(matches!(parse_command(b"puts a b"), Command::Invalid));
    assert!(matches!(parse_command(b"list"), Command::Invalid));
    assert!(matches!(parse_command(b"pu"), Command::Invalid));
}

#[test]
fn numbers_read_as_the_standard_library_reads_them() {
    for text in ["", "0", "007", "+0", "+", "-0", "12a", "99999999999999999999", "١٢", " 1", "1 "] {
        assert_eq!(read_number(text.as_bytes()), text.parse::<u64>().ok(), "{:?}", text);
    }
}

#[test]
fn trim_agrees_with_the_standard_library() {
    for text in [
        "",
        " ",
        "a",
        "  a b \n",
        "\t\u{b}\u{c}\r x \u{85}\u{a0}",
        "\u{1680}\u{2000}\u{200a}x\u{2028}\u{2029}\u{202f}\u{205f}\u{3000}",
        "\u{200b}x\u{200b}",
        "é ",
        "\u{2003}",
        "x\u{e2}",
    ] {
        assert_eq!(trim(text.as_bytes()), text.trim().as_bytes(), "{:?}", text);
    }
}

#[test]
fn lower_agrees_with_the_standard_library() {
    for text in ["", "PuT", "AZaz[@`{", "ÉCOLE", "scan"] {
        assert_eq!(lower(text.as_bytes()), text.to_ascii_lowercase().as_bytes(), "{:?}", text);
    }
}

#[test]
fn refusals_and_warnings_have_their_texts() {
    assert_eq!(refusal_message(Refusal::PutNeedsKeyAndValue), "error: Must provide a key and a value");
    assert_eq!(refusal_message(Refusal::PutNeedsValue(true)), "error: Must provide a key and a value");
    assert_eq!(refusal_message(Refusal::GetNeedsKey), "Get command needs a key argument!");
    assert_eq!(refusal_message(Refusal::DeleteNeedsKey), "Delete command needs a key argument!");
    assert_eq!(
        refusal_message(Refusal::ScanCursorNotANumber),
        "Scan's cursor must be a number! Use 0 if you want to scan from the start."
    );
    assert_eq!(
        refusal_message(Refusal::ScanNeedsCursor),
        "Scan needs a cursor! Use 0 if you want to scan from the start."
    );
    assert!(key_warning().starts_with("waring: key must be 8 bytes long"));
    assert!(value_warning().starts_with("waring: value must be 256 bytes long"));
}

#[test]
fn command_lines_drive_a_store_through_client_and_service() {
    let store = Store::new(HashMemStore::new(), ByteLog::new(Vec::new()));
    let mut service = create_mini_kv_server(KVServer::new(store));
    let client = MiniKvServerClient::new("localhost:5884".to_string());
    let mut run = |line: &str| {
        let call = match parse_command(line.as_bytes()) {
            Command::Put { request, .. } => client.put(&request),
            Command::Get(request) => client.get(&request),
            Command::Delete(request) => client.delete(&request),
            Command::Scan(request) => client.scan(&request),
            other => panic!("unexpected {:?}", other),
        };
        service.call(call.method, call.message).unwrap()
    };
    let value = |c: char| c.to_string().repeat(256);
    assert!(matches!(run(&format!("put 00000001 {}\n", value('a'))), Reply::Put(r) if r.success));
    assert!(matches!(run(&format!("put 00000002 {}\n", value('b'))), Reply::Put(r) if r.success));
    assert!(matches!(run(&format!("put 00000003 {}\n", value('c'))), Reply::Put(r) if r.success));
    assert!(matches!(run("put 00000004 short\n"), Reply::Put(r) if r.success));
    match run("scan 0\n") {
        Reply::Scan(r) => {
            assert_eq!(r.cursor, 0);
            let mut keys = r.result;
            keys.sort();
            assert_eq!(keys.len(), 4);
            assert_eq!(keys[0], b"00000001".to_vec());
        }
        other => panic!("unexpected {:?}", other),
    }
    assert!(matches!(run("delete 00000001\n"), Reply::Delete(r) if r.success));
    assert!(matches!(run("delete 00000001\n"), Reply::Delete(r) if !r.success));
    assert!(matches!(
        run("get 00000002\n"),
        Reply::Get(r) if r.success && r.value == value('b').into_bytes()
    ));
    assert!(matches!(
        run("get 00000001\n"),
        Reply::Get(r) if !r.success && r.error_message == "key not found"
    ));
    assert!(matches!(
        run("get 00000004\n"),
        Reply::Get(r) if r.success && r.value[..5] == *b"short" && r.value[5..] == [0u8; 251]
    ));
    assert!(matches!(run("scan 0\n"), Reply::Scan(r) if r.result.len() == 3));
}
