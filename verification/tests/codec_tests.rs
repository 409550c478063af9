use collab::csv::{parse_csv, unparse_csv};
use collab::json::{decode_buffer_diff_json, encode_buffer_diff_json};
use collab::messages::{BufferDiff, IpcClientResponse, SessionData};
use collab::perms::{mode_is_executable, FilePerm};
use collab::session::{client_get_info, client_send_stop, decode_session_data,
    encode_session_data, find_key, has_active_session, session_key_name, session_root_name,
    KeyProbe};

fn bd(pos: u32, old_len: u32, s: &str) -> BufferDiff {
    BufferDiff { pos, old_len, new_str: s.to_string() }
}

fn roundtrip(d: &BufferDiff) {
    let line = unparse_csv(d);
    let back = parse_csv(&line).unwrap();
    assert_eq!(&back, d);
}

#[test]
fn csv_exact_encoding() {
    let line = unparse_csv(&bd(3, 12, "abc"));
    assert_eq!(String::from_utf8(line).unwrap(), "3,12,\"abc\"");
}

#[test]
fn csv_roundtrip_plain() {
    roundtrip(&bd(0, 0, "x"));
    roundtrip(&bd(4294967295, 4294967295, ""));
}

#[test]
fn csv_roundtrip_special_characters() {
    roundtrip(&bd(1, 2, "a,b"));
    roundtrip(&bd(1, 2, "say \"hi\""));
    roundtrip(&bd(1, 2, "back\\slash"));
    roundtrip(&bd(1, 2, "line\nbreak\rreturn"));
    roundtrip(&bd(1, 2, "mixed ,\"\\ all\n"));
    roundtrip(&bd(1, 2, "unicode: c\u{327}a \u{1F600}"));
}

#[test]
fn csv_rejects_malformed_lines() {
    for bad in ["", "x", "1", "1,", "1,2", "1,2,", "1,2,unquoted", "1,2,\"open",
        "1,2,\"done\"trailing", "99999999999,0,\"x\"", "1,2,\"bad\\escape q\""] {
        assert!(parse_csv(&bad.as_bytes().to_vec()).is_err(), "accepted: {:?}", bad);
    }
}

#[test]
fn json_exact_encoding() {
    let line = encode_buffer_diff_json(&bd(3, 12, "abc"));
    assert_eq!(
        String::from_utf8(line).unwrap(),
        "{\"pos\":3,\"old_len\":12,\"new_str\":\"abc\"}"
    );
    let line = encode_buffer_diff_json(&bd(0, 0, "a\"b\\c\nd"));
    assert_eq!(
        String::from_utf8(line).unwrap(),
        "{\"pos\":0,\"old_len\":0,\"new_str\":\"a\\\"b\\\\c\\u000ad\"}"
    );
}

fn json_roundtrip(d: &BufferDiff) {
    let line = encode_buffer_diff_json(d);
    let back = decode_buffer_diff_json(&line).unwrap();
    assert_eq!(&back, d);
}

#[test]
fn json_roundtrip_values() {
    json_roundtrip(&bd(0, 0, "x"));
    json_roundtrip(&bd(4294967295, 4294967295, ""));
    json_roundtrip(&bd(1, 2, "say \"hi\", back\\slash"));
    json_roundtrip(&bd(1, 2, "line\nbreak\ttab\u{0}nul"));
    json_roundtrip(&bd(1, 2, "unicode: c\u{327}a \u{1F600}"));
}

#[test]
fn json_rejects_malformed_objects() {
    for bad in ["", "{}", "{\"pos\":1}", "{\"pos\":1,\"old_len\":2,\"new_str\":\"open}",
        "{\"pos\":1,\"old_len\":2,\"new_str\":\"x\"} ", "{\"pos\":1,\"old_len\":2,\"new_str\":\"\\q\"}"] {
        assert!(decode_buffer_diff_json(&bad.as_bytes().to_vec()).is_err(), "accepted: {:?}", bad);
    }
}

#[test]
fn session_key_name_transform() {
    assert_eq!(session_key_name("/tmp/work/project"), "!tmp!work!project");
    assert_eq!(session_root_name("!tmp!work!project"), "/tmp/work/project");
    let root = "/home/someone/code";
    assert_eq!(session_root_name(&session_key_name(root)), root);
}

#[test]
fn find_key_walks_ancestors() {
    let none_found: Vec<KeyProbe> = vec![
        KeyProbe { exists: false, alive: false },
        KeyProbe { exists: false, alive: false },
    ];
    assert_eq!(find_key(&none_found), None);
    assert!(!has_active_session(&none_found));

    let live_outer = vec![
        KeyProbe { exists: false, alive: false },
        KeyProbe { exists: true, alive: true },
    ];
    assert_eq!(find_key(&live_outer), Some(1));
    assert!(has_active_session(&live_outer));

    // a stale inner key is passed over: the walk continues outward to the
    // live one
    let stale_inner = vec![
        KeyProbe { exists: true, alive: false },
        KeyProbe { exists: true, alive: true },
    ];
    assert_eq!(find_key(&stale_inner), Some(1));
    assert!(has_active_session(&stale_inner));

    // with no live key anywhere, a stale key alone designates nothing
    let stale_only = vec![KeyProbe { exists: true, alive: false }];
    assert_eq!(find_key(&stale_only), None);
    assert!(!has_active_session(&stale_only));
}

#[test]
fn stop_protocol_accepts_only_disconnect() {
    assert!(client_send_stop(&IpcClientResponse::RemoteDisconnect).is_ok());
    assert!(client_send_stop(&IpcClientResponse::LocalDisconnect).is_err());
    assert!(client_send_stop(&IpcClientResponse::BufferDiff(bd(0, 0, ""))).is_err());
}

#[test]
fn info_protocol_accepts_only_info() {
    assert!(client_get_info(IpcClientResponse::RemoteDisconnect).is_err());
}

#[test]
fn session_record_exact_encoding() {
    let d = SessionData { port: 4321, pid: 77 };
    let bytes = encode_session_data(&d);
    assert_eq!(String::from_utf8(bytes).unwrap(), "{\"port\":4321,\"pid\":77}");
}

#[test]
fn session_record_roundtrip() {
    for d in [
        SessionData { port: 0, pid: 0 },
        SessionData { port: 65535, pid: 2147483647 },
        SessionData { port: 8, pid: -2147483648 },
        SessionData { port: 4321, pid: 77 },
    ] {
        let back = decode_session_data(&encode_session_data(&d)).unwrap();
        assert_eq!(back, d);
    }
}

#[test]
fn session_record_rejects_garbage() {
    for bad in ["", "{}", "{\"port\":1}", "{\"port\":70000,\"pid\":1}",
        "{\"port\":1,\"pid\":1} ", "{\"port\":1,\"pid\":}"] {
        assert!(decode_session_data(&bad.as_bytes().to_vec()).is_err(), "accepted: {:?}", bad);
    }
}

#[test]
fn permission_bits() {
    // mode 0o755: user-execute set; 0o655: cleared
    assert!(mode_is_executable(0o755));
    assert!(!mode_is_executable(0o655));
    let p = FilePerm::from_mode(false, 0o755);
    assert!(p.executable);
    // applying an executable record to a non-executable mode sets the bit
    let exec = FilePerm { readonly: false, executable: true };
    assert_eq!(exec.mode_after_set(0o655), 0o755);
    assert!(mode_is_executable(exec.mode_after_set(0o644)));
    // and the reverse clears it
    let plain = FilePerm { readonly: false, executable: false };
    assert_eq!(plain.mode_after_set(0o755), 0o655);
    assert!(!mode_is_executable(plain.mode_after_set(0o755)));
    // a matching mode is untouched
    assert_eq!(exec.mode_after_set(0o755), 0o755);
}
