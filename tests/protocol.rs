use kvs::codec::{bytes_eq, quote, read_string};
use kvs::protocol::{encode_request, parse_get_response, parse_request, parse_rm_response, parse_set_response};
use kvs::server::{check_engine, get_response, get_result, handle_request, rm_response, rm_result, set_response, set_result};
use kvs::{EngineKind, GetResponse, KvStoreError, KvsEngine, KvsServer, Request, RmResponse, SetResponse};
use std::collections::BTreeMap;
use std::sync::{Arc, Mutex};

#[derive(Clone)]
struct MapEngine(Arc<Mutex<BTreeMap<String, String>>>);

impl KvsEngine for MapEngine {
    fn set(&self, key: String, value: String) -> kvs::Result<()> {
        self.0.lock().unwrap().insert(key, value);
        Ok(())
    }

    fn get(&self, key: String) -> kvs::Result<Option<String>> {
        Ok(self.0.lock().unwrap().get(&key).cloned())
    }

    fn remove(&self, key: String) -> kvs::Result<()> {
        match self.0.lock().unwrap().remove(&key) {
            Some(_) => Ok(()),
            None => Err(KvStoreError::KeyNotFound),
        }
    }
}

fn engine() -> MapEngine {
    MapEngine(Arc::new(Mutex::new(BTreeMap::new())))
}

#[test]
fn quote_escapes_as_json() {
    assert_eq!(quote("plain"), b"\"plain\"".to_vec());
    assert_eq!(quote("a\"b\\c\nd\u{1}\u{7f}é"), "\"a\\\"b\\\\c\\nd\\u0001\u{7f}é\"".as_bytes().to_vec());
    assert_eq!(quote("\u{8}\u{c}\r\t"), b"\"\\b\\f\\r\\t\"".to_vec());
}

#[test]
fn read_string_round_trips() {
    let s = "tab\there \"q\" \\ \u{1f}";
    let mut buf = quote(s);
    let n = buf.len();
    buf.extend_from_slice(b"rest");
    let (t, q) = read_string(&buf, 0).unwrap().unwrap();
    assert_eq!(t, s);
    assert_eq!(q, n);
    assert_eq!(read_string(&buf[..n - 1], 0), Ok(None));
}

#[test]
fn read_string_refuses_other_spellings() {
    assert!(matches!(read_string(b"\"\\u0041\"", 0), Err(KvStoreError::SerdeIo(_))));
    assert!(matches!(read_string(b"\"\\q\"", 0), Err(KvStoreError::SerdeIo(_))));
    assert!(matches!(read_string(b"x", 0), Err(KvStoreError::SerdeIo(_))));
    assert!(bytes_eq(b"ab", b"ab"));
    assert!(!bytes_eq(b"ab", b"ac"));
}

#[test]
fn requests_are_exact_records() {
    let set = encode_request(&Request::SetKey { key: "foo".to_string(), value: "bar".to_string() });
    assert_eq!(set, b"{\"Set\":{\"key\":\"foo\",\"value\":\"bar\"}}".to_vec());
    let rm = encode_request(&Request::Rm("foo".to_string()));
    assert_eq!(rm, b"{\"Rm\":\"foo\"}".to_vec());
    let get = encode_request(&Request::Get("foo".to_string()));
    assert_eq!(get, b"{\"Get\":\"foo\"}".to_vec());
    let mut stream = set.clone();
    stream.extend_from_slice(&get);
    stream.extend_from_slice(&rm);
    let (a, p1) = parse_request(&stream, 0).unwrap().unwrap();
    assert!(matches!(a, Request::SetKey { ref key, ref value } if key == "foo" && value == "bar"));
    let (b, p2) = parse_request(&stream, p1).unwrap().unwrap();
    assert!(matches!(b, Request::Get(ref k) if k == "foo"));
    let (c, p3) = parse_request(&stream, p2).unwrap().unwrap();
    assert!(matches!(c, Request::Rm(ref k) if k == "foo"));
    assert_eq!(p3, stream.len());
    assert!(matches!(parse_request(&stream, p3), Ok(None)));
    assert!(matches!(parse_request(&stream[..5], 0), Ok(None)));
    assert!(matches!(parse_request(b"{\"Del\":\"x\"}", 0), Err(KvStoreError::SerdeIo(_))));
}

#[test]
fn responses_are_exact_records() {
    assert_eq!(SetResponse::Success(()).encode(), b"{\"Ok\":null}".to_vec());
    assert_eq!(RmResponse::Failure("Key not found".to_string()).encode(), b"{\"Err\":\"Key not found\"}".to_vec());
    assert_eq!(GetResponse::Success(Some("bar".to_string())).encode(), b"{\"Ok\":\"bar\"}".to_vec());
    assert_eq!(GetResponse::Success(None).encode(), b"{\"Ok\":null}".to_vec());
    let (g, q) = parse_get_response(b"{\"Ok\":\"bar\"}", 0).unwrap().unwrap();
    assert!(matches!(g, GetResponse::Success(Some(ref v)) if v == "bar"));
    assert_eq!(q, 12);
    let (g2, _) = parse_get_response(b"{\"Ok\":null}", 0).unwrap().unwrap();
    assert!(matches!(g2, GetResponse::Success(None)));
    let (s, _) = parse_set_response(b"{\"Err\":\"disk full\"}", 0).unwrap().unwrap();
    assert!(matches!(s, SetResponse::Failure(ref m) if m == "disk full"));
    assert!(matches!(parse_set_response(b"{\"Ok\":\"x\"}", 0), Err(KvStoreError::SerdeIo(_))));
    let (r, _) = parse_rm_response(b"{\"Ok\":null}", 0).unwrap().unwrap();
    assert!(matches!(r, RmResponse::Success(())));
    assert!(matches!(parse_rm_response(b"{\"Ok\":nu", 0), Ok(None)));
}

#[test]
fn server_and_client_scenario() {
    let e = engine();
    let server = KvsServer::new(e.clone()).unwrap();
    let out = handle_request(server.engine(), Request::SetKey { key: "foo".to_string(), value: "bar".to_string() });
    let (resp, _) = parse_set_response(&out, 0).unwrap().unwrap();
    assert_eq!(set_result(resp), Ok(()));
    let out = handle_request(server.engine(), Request::Get("foo".to_string()));
    let (resp, _) = parse_get_response(&out, 0).unwrap().unwrap();
    assert_eq!(get_result(resp), Ok(Some("bar".to_string())));
    let out = handle_request(server.engine(), Request::Rm("foo".to_string()));
    let (resp, _) = parse_rm_response(&out, 0).unwrap().unwrap();
    assert_eq!(rm_result(resp), Ok(()));
    let out = handle_request(server.engine(), Request::Rm("foo".to_string()));
    assert_eq!(out, b"{\"Err\":\"Key not found\"}".to_vec());
    let (resp, _) = parse_rm_response(&out, 0).unwrap().unwrap();
    assert_eq!(rm_result(resp), Err(KvStoreError::KeyNotFound));
    let out = handle_request(server.engine(), Request::Get("foo".to_string()));
    assert_eq!(out, b"{\"Ok\":null}".to_vec());
}

#[test]
fn engine_errors_become_messages() {
    let r = set_response(Err(KvStoreError::Io("disk full".to_string())));
    assert!(matches!(r, SetResponse::Failure(ref m) if m == "disk full"));
    let r = rm_response(Err(KvStoreError::KeyNotFound));
    assert!(matches!(r, RmResponse::Failure(ref m) if m == "Key not found"));
    let r = get_response(Ok(None));
    assert!(matches!(r, GetResponse::Success(None)));
    assert_eq!(get_result(GetResponse::Failure("boom".to_string())), Err(KvStoreError::ServerResponseErr("boom".to_string())));
    assert_eq!(rm_result(RmResponse::Failure("boom".to_string())), Err(KvStoreError::ServerResponseErr("boom".to_string())));
    assert_eq!(KvStoreError::KeyNotFound.message(), "Key not found");
    assert_eq!(KvStoreError::EngineError.message(), "Already created an engine conf");
}

#[test]
fn engine_choice_must_match_record() {
    assert_eq!(check_engine(&"".to_string(), &"kvs".to_string()), Ok(EngineKind::Kvs));
    assert_eq!(check_engine(&"".to_string(), &"sled".to_string()), Ok(EngineKind::Sled));
    assert_eq!(check_engine(&"kvs".to_string(), &"kvs".to_string()), Ok(EngineKind::Kvs));
    assert_eq!(check_engine(&"kvs".to_string(), &"sled".to_string()), Err(KvStoreError::EngineError));
    assert_eq!(check_engine(&"".to_string(), &"redis".to_string()), Err(KvStoreError::EngineError));
}

#[test]
fn every_error_has_a_message() {
    assert_eq!(KvStoreError::SerdeIo("bad record".to_string()).message(), "bad record");
    assert_eq!(KvStoreError::Io("no space".to_string()).message(), "no space");
    assert_eq!(KvStoreError::ServerResponseErr("remote".to_string()).message(), "remote");
    assert_eq!(KvStoreError::SledError("tree".to_string()).message(), "tree");
    assert_eq!(KvStoreError::StringUtf8Error("utf8".to_string()).message(), "utf8");
    assert_eq!(KvStoreError::AddrParseError("addr".to_string()).message(), "addr");
}

#[test]
fn partial_responses_wait_for_more() {
    let full = GetResponse::Success(Some("value".to_string())).encode();
    for cut in 0..full.len() {
        assert!(matches!(parse_get_response(&full[..cut], 0), Ok(None)));
    }
    let req = encode_request(&Request::SetKey { key: "k".to_string(), value: "v\n".to_string() });
    for cut in 0..req.len() {
        assert!(matches!(parse_request(&req[..cut], 0), Ok(None)));
    }
}
