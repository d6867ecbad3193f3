use awair_record::config::Config;
use awair_record::reading::{Data, Response};
use awair_record::session::{
    command_with, handle_frame, parse_command, push_response, push_tick, responses_for,
    since_argument, Command,
};
use awair_record::store::{Store, StoreError};

fn temp_store() -> Store {
    let db = sled::Config::new().temporary(true).open().unwrap();
    Store::new(db.open_tree("data").unwrap())
}

fn reading(ts: i64) -> Data {
    Data { timestamp: ts, sensors: vec![ts as u8, 1, 2] }
}

fn store_with(stamps: &[i64]) -> Store {
    let s = temp_store();
    for &ts in stamps {
        s.append(&reading(ts)).unwrap();
    }
    s
}

fn new_data_stamps(r: &[Response]) -> Vec<i64> {
    r.iter()
        .map(|m| match m {
            Response::NewData(d) => d.timestamp,
            Response::Sync(_) => panic!("unexpected sync"),
        })
        .collect()
}

#[test]
fn parses_sync() {
    assert_eq!(parse_command(b"sync"), Command::Sync);
    assert_eq!(parse_command(b"sync "), Command::Ignore);
    assert_eq!(parse_command(b"SYNC"), Command::Ignore);
}

#[test]
fn parses_since() {
    assert_eq!(parse_command(b"since 2020-01-01T00:00:00Z"), Command::Since(1_577_836_800));
    assert_eq!(parse_command(b"since 1970-01-01T00:02:30+00:00"), Command::Since(150));
    assert_eq!(parse_command(b"since 2020-01-01T01:00:00+01:00"), Command::Since(1_577_836_800));
    assert_eq!(parse_command(b"since 1969-12-31T23:59:55Z"), Command::Since(-5));
}

#[test]
fn malformed_commands_are_ignored() {
    assert_eq!(parse_command(b"since banana"), Command::Ignore);
    assert_eq!(parse_command(b"frobnicate"), Command::Ignore);
    assert_eq!(parse_command(b"since"), Command::Ignore);
    assert_eq!(parse_command(b"since "), Command::Ignore);
    assert_eq!(parse_command(b""), Command::Ignore);
    assert_eq!(parse_command(&[0xff, 0xfe]), Command::Ignore);
    assert_eq!(parse_command(b"sincefoo 2020-01-01T00:00:00Z"), Command::Ignore);
    assert_eq!(parse_command(b"since 2020-01-01T00:00:00Z trailing"), Command::Ignore);
    assert_eq!(parse_command(b"since  2020-01-01T00:00:00Z"), Command::Ignore);
    assert_eq!(parse_command(b"since\t2020-01-01T00:00:00Z"), Command::Ignore);
}

#[test]
fn since_argument_is_second_word() {
    assert_eq!(since_argument(b"since abc"), Some(b"abc".to_vec()));
    assert_eq!(since_argument(b"since abc def"), None);
    assert_eq!(since_argument(b"sincex abc"), None);
    assert_eq!(since_argument(b"since "), Some(vec![]));
    assert_eq!(since_argument(b"since"), None);
    assert_eq!(since_argument(b"sync x"), None);
}

#[test]
fn command_with_given_stamp() {
    assert_eq!(command_with(b"since x", Some(5)), Command::Since(5));
    assert_eq!(command_with(b"since x", None), Command::Ignore);
    assert_eq!(command_with(b"sync", None), Command::Sync);
    assert_eq!(command_with(b"hello", Some(5)), Command::Ignore);
}

#[test]
fn responses_for_each_command() {
    let rs = vec![reading(1), reading(2)];
    let sync = responses_for(Command::Sync, rs.clone());
    assert_eq!(sync.len(), 1);
    match &sync[0] {
        Response::Sync(v) => assert_eq!(v.iter().map(|d| d.timestamp).collect::<Vec<_>>(), vec![1, 2]),
        Response::NewData(_) => panic!("expected sync"),
    }
    assert_eq!(new_data_stamps(&responses_for(Command::Since(0), rs.clone())), vec![1, 2]);
    assert!(responses_for(Command::Ignore, rs).is_empty());
}

#[test]
fn sync_yields_every_reading_in_order() {
    let s = store_with(&[30, 10, 20]);
    let out = handle_frame(&s, b"sync");
    assert_eq!(out.len(), 1);
    match &out[0] {
        Response::Sync(v) => {
            assert_eq!(v.iter().map(|d| d.timestamp).collect::<Vec<_>>(), vec![10, 20, 30]);
            assert_eq!(v[0].sensors, reading(10).sensors);
        }
        Response::NewData(_) => panic!("expected sync"),
    }
}

#[test]
fn sync_on_empty_store() {
    let out = handle_frame(&temp_store(), b"sync");
    assert_eq!(out.len(), 1);
    assert!(matches!(&out[0], Response::Sync(v) if v.is_empty()));
}

#[test]
fn since_streams_one_message_per_reading() {
    let s = store_with(&[100, 200, 300]);
    let out = handle_frame(&s, b"since 1970-01-01T00:02:30Z");
    assert_eq!(new_data_stamps(&out), vec![200, 300]);
    let none = handle_frame(&s, b"since 1970-01-01T00:06:40Z");
    assert!(none.is_empty());
}

#[test]
fn malformed_frames_send_nothing() {
    let s = store_with(&[100]);
    assert!(handle_frame(&s, b"since banana").is_empty());
    assert!(handle_frame(&s, b"frobnicate").is_empty());
    assert_eq!(handle_frame(&s, b"sync").len(), 1);
}

#[test]
fn push_sends_last_reading() {
    let s = temp_store();
    assert!(push_tick(&s).is_none());
    s.append(&reading(100)).unwrap();
    assert_eq!(new_data_stamps(&[push_tick(&s).unwrap()]), vec![100]);
    assert_eq!(new_data_stamps(&[push_tick(&s).unwrap()]), vec![100]);
    s.append(&reading(200)).unwrap();
    assert_eq!(new_data_stamps(&[push_tick(&s).unwrap()]), vec![200]);
}

#[test]
fn push_after_failed_read() {
    assert!(push_response(Err(StoreError::Io)).is_none());
    assert!(push_response(Err(StoreError::MalformedKey)).is_none());
    assert!(push_response(Ok(None)).is_none());
    let r = push_response(Ok(Some(reading(7)))).unwrap();
    assert_eq!(new_data_stamps(&[r]), vec![7]);
}

#[test]
fn default_config_is_empty() {
    let c = Config::default();
    assert_eq!(c.awair_local_uri, "");
    assert_eq!(c.bind_addr, "");
}

#[test]
fn since_before_1970() {
    let s = store_with(&[-5, 100]);
    assert_eq!(new_data_stamps(&handle_frame(&s, b"since 1970-01-01T00:00:00Z")), vec![100]);
    assert_eq!(new_data_stamps(&handle_frame(&s, b"since 1969-12-31T23:59:55Z")), vec![-5, 100]);
    let out = handle_frame(&s, b"sync");
    match &out[0] {
        Response::Sync(v) => assert_eq!(v.iter().map(|d| d.timestamp).collect::<Vec<_>>(), vec![-5, 100]),
        Response::NewData(_) => panic!("expected sync"),
    }
}
