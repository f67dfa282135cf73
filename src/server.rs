//! What the server decides: which engine to run, and the response to each
//! request. Sockets and threads are the caller's.
use vstd::prelude::*;
use crate::engine::KvsEngine;
use crate::error::{KvStoreError, Result, key_not_found_text};
use crate::protocol::{GetResponse, Reply, Req, Request, RmResponse, SetResponse, reply_bytes};

verus! {

/// A server over engine `E`.
pub struct KvsServer<E: KvsEngine> {
    engine: E,
}

impl<E: KvsEngine> KvsServer<E> {
    pub closed spec fn spec_engine(&self) -> E {
        self.engine
    }

    /// A server that serves from `engine`.
    pub fn new(engine: E) -> (r: Result<Self>)
        ensures
            r matches Ok(s) && s.spec_engine() == engine,
    {
        Ok(KvsServer { engine })
    }

    /// The engine served from.
    pub fn engine(&self) -> (r: &E)
        ensures
            *r == self.spec_engine(),
    {
        &self.engine
    }
}

/// The response to a `Set` whose engine call returned `r`.
pub fn set_response(r: Result<()>) -> (resp: SetResponse)
    ensures
        resp.reply() == match r {
            Ok(_) => Reply::Null,
            Err(e) => Reply::Error(e.spec_message()),
        },
{
    match r {
        Ok(()) => SetResponse::Success(()),
        Err(e) => SetResponse::Failure(e.message()),
    }
}

/// The response to an `Rm` whose engine call returned `r`.
pub fn rm_response(r: Result<()>) -> (resp: RmResponse)
    ensures
        resp.reply() == match r {
            Ok(_) => Reply::Null,
            Err(e) => Reply::Error(e.spec_message()),
        },
{
    match r {
        Ok(()) => RmResponse::Success(()),
        Err(e) => RmResponse::Failure(e.message()),
    }
}

/// The response to a `Get` whose engine call returned `r`.
pub fn get_response(r: Result<Option<String>>) -> (resp: GetResponse)
    ensures
        resp.reply() == match r {
            Ok(Some(v)) => Reply::Value(v@),
            Ok(None) => Reply::Null,
            Err(e) => Reply::Error(e.spec_message()),
        },
{
    match r {
        Ok(v) => GetResponse::Success(v),
        Err(e) => GetResponse::Failure(e.message()),
    }
}

/// The response body that reports a `Set` or `Rm` result.
pub open spec fn unit_reply(r: Result<()>) -> Reply {
    match r {
        Ok(_) => Reply::Null,
        Err(e) => Reply::Error(e.spec_message()),
    }
}

/// The response body that reports a `Get` result.
pub open spec fn get_reply(r: Result<Option<String>>) -> Reply {
    match r {
        Ok(Some(v)) => Reply::Value(v@),
        Ok(None) => Reply::Null,
        Err(e) => Reply::Error(e.spec_message()),
    }
}

/// `out` reports the result of the engine operation `req` asks for, on
/// its key and value.
pub open spec fn answers<E: KvsEngine>(engine: E, req: Req, out: Seq<u8>) -> bool {
    match req {
        Req::SetKey(k, v) => exists|r: Result<()>| #[trigger]
            engine.set_returns(k, v, r) && out == reply_bytes(unit_reply(r)),
        Req::Rm(k) => exists|r: Result<()>| #[trigger]
            engine.remove_returns(k, r) && out == reply_bytes(unit_reply(r)),
        Req::Get(k) => exists|r: Result<Option<String>>| #[trigger]
            engine.get_returns(k, r) && out == reply_bytes(get_reply(r)),
    }
}

/// Runs `req` against `engine` (`set`, `remove` or `get`, on the request's
/// key and value) and returns the record of the response to it.
pub fn handle_request<E: KvsEngine>(engine: &E, req: Request) -> (out: Vec<u8>)
    ensures
        answers(*engine, req@, out@),
{
    let ghost rv = req@;
    match req {
        Request::SetKey { key, value } => {
            let r = engine.set(key, value);
            let resp = set_response(r);
            let out = resp.encode();
            assert(engine.set_returns(rv->SetKey_0, rv->SetKey_1, r));
            out
        },
        Request::Rm(key) => {
            let r = engine.remove(key);
            let resp = rm_response(r);
            let out = resp.encode();
            assert(engine.remove_returns(rv->Rm_0, r));
            out
        },
        Request::Get(key) => {
            let r = engine.get(key);
            let resp = get_response(r);
            let out = resp.encode();
            assert(engine.get_returns(rv->Get_0, r));
            out
        },
    }
}

/// What a client makes of the response to its `Get`.
pub fn get_result(resp: GetResponse) -> (r: Result<Option<String>>)
    ensures
        match resp.reply() {
            Reply::Value(v) => r matches Ok(Some(s)) && s@ == v,
            Reply::Null => r matches Ok(None),
            Reply::Error(m) => r matches Err(KvStoreError::ServerResponseErr(s)) && s@ == m,
        },
{
    match resp {
        GetResponse::Success(v) => Ok(v),
        GetResponse::Failure(m) => Err(KvStoreError::ServerResponseErr(m)),
    }
}

/// What a client makes of the response to its `Set`.
pub fn set_result(resp: SetResponse) -> (r: Result<()>)
    ensures
        match resp.reply() {
            Reply::Error(m) => r matches Err(KvStoreError::ServerResponseErr(s)) && s@ == m,
            _ => r is Ok,
        },
{
    match resp {
        SetResponse::Success(()) => Ok(()),
        SetResponse::Failure(m) => Err(KvStoreError::ServerResponseErr(m)),
    }
}

/// What a client makes of the response to its `Rm`: the server's
/// "Key not found" is the `KeyNotFound` error again.
pub fn rm_result(resp: RmResponse) -> (r: Result<()>)
    ensures
        match resp.reply() {
            Reply::Error(m) => if m == key_not_found_text() {
                r matches Err(KvStoreError::KeyNotFound)
            } else {
                r matches Err(KvStoreError::ServerResponseErr(s)) && s@ == m
            },
            _ => r is Ok,
        },
{
    match resp {
        RmResponse::Success(()) => Ok(()),
        RmResponse::Failure(m) => {
            let nf = KvStoreError::KeyNotFound.message();
            if m.eq(&nf) {
                Err(KvStoreError::KeyNotFound)
            } else {
                Err(KvStoreError::ServerResponseErr(m))
            }
        },
    }
}

/// The storage engines a server can run.
#[derive(Debug, Clone, Copy, PartialEq, Eq)]
pub enum EngineKind {
    /// The log-structured store of this library.
    Kvs,
    /// The embedded-database backend.
    Sled,
}

pub open spec fn kvs_text() -> Seq<char> {
    seq!['k', 'v', 's']
}

pub open spec fn sled_text() -> Seq<char> {
    seq!['s', 'l', 'e', 'd']
}

/// The engine named `engine`, checked against the name `recorded` from an
/// earlier start (empty on the first start). Unknown names and a name that
/// differs from the recorded one are refused with `EngineError`.
pub fn check_engine(recorded: &String, engine: &String) -> (r: Result<EngineKind>)
    ensures
        r is Ok <==> (recorded@.len() == 0 || recorded@ == engine@) && (engine@ == kvs_text()
            || engine@ == sled_text()),
        r matches Ok(k) ==> (k == EngineKind::Kvs <==> engine@ == kvs_text()),
        r matches Err(e) ==> e is EngineError,
{
    let kvs = String::from_str("kvs");
    let sled = String::from_str("sled");
    proof {
        reveal_strlit("kvs");
        reveal_strlit("sled");
        assert(kvs@ =~= kvs_text());
        assert(sled@ =~= sled_text());
    }
    if recorded.as_str().unicode_len() != 0 && !recorded.eq(engine) {
        return Err(KvStoreError::EngineError);
    }
    if engine.eq(&kvs) {
        Ok(EngineKind::Kvs)
    } else if engine.eq(&sled) {
        Ok(EngineKind::Sled)
    } else {
        Err(KvStoreError::EngineError)
    }
}

} // verus!
