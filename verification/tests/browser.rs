use ccdm::browser::{
    after_save, answer_request, bad_message, chrome_manifest, firefox_manifest, frame,
    handle_request, message_length, payload_of, queue_download, read_message, write_message,
    Allowed, HostRequest, HostResponse, HOST_NAME, MAX_MESSAGE_BYTES,
};
use ccdm::error::CcdmError;
use ccdm::json::MAX_DEPTH;
use ccdm::model::DownloadStatus;
use ccdm::store::Store;
use ccdm::urls::UrlParts;
use serde_json::Value;

fn object(members: &[(&str, Value)]) -> Value {
    let mut map = serde_json::Map::new();
    for (key, value) in members {
        map.insert(key.to_string(), value.clone());
    }
    Value::Object(map)
}

#[test]
fn framing_roundtrip() {
    let value = object(&[("type", Value::from("ping"))]);
    let buf = write_message(&value).unwrap();
    assert_eq!(buf.len(), 4 + value.to_string().len());
    let back = read_message(&buf).unwrap();
    assert_eq!(back, value);
}

#[test]
fn rejects_empty_and_huge_lengths() {
    assert!(read_message(&[0u8, 0, 0, 0]).is_err());
    assert!(read_message(&[0xFFu8, 0xFF, 0xFF, 0xFF]).is_err());
}

#[test]
fn frames_are_little_endian() {
    assert_eq!(frame(b"abc"), vec![3, 0, 0, 0, b'a', b'b', b'c']);
    let long = vec![7u8; 0x01_0203];
    let framed = frame(&long);
    assert_eq!(&framed[..4], &[3, 2, 1, 0]);
    assert_eq!(payload_of(&framed).unwrap(), &long[..]);
    assert_eq!(payload_of(b"\x01\x00\x00\x00xyz").unwrap(), b"x");
    assert_eq!(message_length(1, 1, 0, 0).unwrap(), 257);
    assert_eq!(message_length(0, 0, 0, 4).unwrap(), MAX_MESSAGE_BYTES);
    assert_eq!(
        message_length(1, 0, 0, 4).unwrap_err().message(),
        "bad message length: 67108865"
    );
    assert_eq!(message_length(0, 0, 0, 0).unwrap_err().message(), "bad message length: 0");
}

#[test]
fn short_messages_are_io_errors() {
    assert!(matches!(payload_of(&[1, 0]), Err(CcdmError::Io(_))));
    assert!(matches!(payload_of(&[2, 0, 0, 0, 9]), Err(CcdmError::Io(_))));
    assert!(matches!(read_message(&[1, 0, 0, 0, b'{']), Err(CcdmError::Other(_))));
}

#[test]
fn ping_pongs_version() {
    let mut store = Store::load_from("q.json".into(), None);
    let resp = handle_request(HostRequest::Ping, &mut store, 8, "0.7.0", 7);
    assert!(matches!(resp, HostResponse::Pong { .. }));
}

#[test]
fn download_queues_and_persists() {
    let mut store = Store::load_from("q.json".into(), None);
    let resp = handle_request(
        HostRequest::Download {
            url: "https://h.com/file.zip".to_string(),
            filename: None,
            referrer: None,
        },
        &mut store,
        8,
        "0.7.0",
        7,
    );
    let HostResponse::Accepted { id } = after_save(resp, Ok(())) else {
        panic!("expected accept");
    };
    assert!(id.starts_with("host-") && id.ends_with("-7"));
    let back = Store::load_from("q.json".into(), Some(store.save()));
    let entry = back.queue().get(&id).unwrap();
    assert_eq!(entry.file_name, "file.zip");
}

#[test]
fn bad_url_rejected() {
    let mut store = Store::load_from("q.json".into(), None);
    let resp = handle_request(
        HostRequest::Download {
            url: "not a url".to_string(),
            filename: None,
            referrer: None,
        },
        &mut store,
        8,
        "0.7.0",
        7,
    );
    assert!(matches!(resp, HostResponse::Rejected { .. }));
}

#[test]
fn parsed_downloads_are_queued() {
    let mut store = Store::new("q.json".into());
    let parsed = Ok(UrlParts {
        text: "https://h.com/a.zip".into(),
        host: Some("h.com".into()),
        segments: Some(vec!["a.zip".into()]),
    });
    let resp = queue_download("https://h.com/a.zip".into(), None, parsed, &mut store, 4, "i".into());
    assert!(matches!(resp, HostResponse::Accepted { id } if id == "i"));
    assert_eq!(store.queue().get("i").unwrap().file_name, "a.zip");
    let resp = queue_download("x".into(), None, Err("none".into()), &mut store, 4, "j".into());
    assert!(matches!(resp, HostResponse::Rejected { reason } if reason == "bad url: x"));
    assert!(store.queue().get("j").is_none());
}

#[test]
fn messages_keep_their_members() {
    let value = object(&[
        ("text", Value::from("a\n\"b\" \u{1F600}")),
        ("list", Value::Array(vec![object(&[("k", Value::from("v"))])])),
    ]);
    let back = read_message(&write_message(&value).unwrap()).unwrap();
    assert_eq!(back, value);
}

#[test]
fn deep_messages_are_read_up_to_a_limit() {
    let nested = |depth: usize| {
        let mut value = Value::from(7u64);
        for _ in 0..depth {
            value = Value::Array(vec![value]);
        }
        value
    };
    let mut bytes = write_message(&nested(MAX_DEPTH)).unwrap();
    bytes.extend_from_slice(b"rest");
    assert_eq!(read_message(&bytes).unwrap(), nested(MAX_DEPTH));
    assert!(read_message(&write_message(&nested(MAX_DEPTH + 1)).unwrap()).is_err());
}

#[test]
fn fractions_stay_fractions() {
    for n in [1.0f64, 1e15, 1e16, 1e17, 1e21, 1e300, -0.0, 0.1, 5e-324] {
        let back = read_message(&write_message(&Value::from(n)).unwrap()).unwrap();
        assert!(back.is_f64());
    }
    for n in [0u64, 1, u64::MAX] {
        assert_eq!(read_message(&write_message(&Value::from(n)).unwrap()).unwrap(), n);
    }
    for n in [-1i64, i64::MIN] {
        assert_eq!(read_message(&write_message(&Value::from(n)).unwrap()).unwrap(), n);
    }
}

#[test]
fn given_name_is_made_safe() {
    let mut store = Store::new("q.json".into());
    let resp = answer_request(
        HostRequest::Download {
            url: "https://h.com/file.zip".to_string(),
            filename: Some("a/b.zip".into()),
            referrer: Some("https://h.com".into()),
        },
        &mut store,
        0,
        "0.7.0",
        "host-2-1".into(),
    );
    assert!(matches!(resp, HostResponse::Accepted { .. }));
    let entry = store.queue().get("host-2-1").unwrap();
    assert_eq!(entry.file_name, "a_b.zip");
    assert_eq!(entry.url, "https://h.com/file.zip");
    assert_eq!(entry.status, DownloadStatus::Queued);
    assert!(entry.chunks.is_empty());
}

#[test]
fn unsaved_download_is_rejected() {
    let accepted = HostResponse::Accepted { id: "x".into() };
    match after_save(accepted, Err(CcdmError::Io("disk full".into()))) {
        HostResponse::Rejected { reason } => assert_eq!(reason, "io error: disk full"),
        other => panic!("{other:?}"),
    }
    let pong = HostResponse::Pong { version: "1".into() };
    assert!(matches!(
        after_save(pong, Err(CcdmError::Cancelled)),
        HostResponse::Pong { .. }
    ));
    match bad_message("no type") {
        HostResponse::Rejected { reason } => assert_eq!(reason, "bad message: no type"),
        other => panic!("{other:?}"),
    }
}

#[test]
fn manifests_name_the_host() {
    let chrome = chrome_manifest("/opt/host", "abc");
    assert_eq!(chrome.name, HOST_NAME);
    assert_eq!(chrome.path, "/opt/host");
    assert_eq!(chrome.kind, "stdio");
    match chrome.allowed {
        Allowed::Origins(list) => assert_eq!(list, vec!["chrome-extension://abc/"]),
        other => panic!("{other:?}"),
    }
    let firefox = firefox_manifest("/opt/host", "abc@x");
    assert_eq!(firefox.description, "ccdwonloadmanager native messaging host");
    match firefox.allowed {
        Allowed::Extensions(list) => assert_eq!(list, vec!["abc@x"]),
        other => panic!("{other:?}"),
    }
}
