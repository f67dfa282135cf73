//! The wire protocol: requests and the typed responses to them, each one
//! JSON record, and what the server and the client make of them.
use vstd::prelude::*;
use crate::codec::{
    LitMatch, match_lit, occurs_at, pair_body, quote, read_pair_body, read_single_body, rm_head,
    rm_head_bytes, set_head, set_head_bytes, set_mid_bytes, set_tail_bytes, close_bytes,
    single_body, malformed, lemma_occurs_split, lemma_occurs_join, quoted, get_head, get_head_bytes,
    ok_head, ok_head_bytes, err_head, err_head_bytes, null_close, null_close_bytes, cut_short,
    lemma_cut_split, lemma_cut_vs_head, pair_open, single_open,
};
use crate::error::{KvStoreError, Result, key_not_found_text};

verus! {

/// A client's request.
#[derive(Debug)]
pub enum Request {
    SetKey { key: String, value: String },
    Rm(String),
    Get(String),
}

/// The mathematical form of a request.
pub ghost enum Req {
    SetKey(Seq<char>, Seq<char>),
    Rm(Seq<char>),
    Get(Seq<char>),
}

impl View for Request {
    type V = Req;

    open spec fn view(&self) -> Req {
        match self {
            Request::SetKey { key, value } => Req::SetKey(key@, value@),
            Request::Rm(k) => Req::Rm(k@),
            Request::Get(k) => Req::Get(k@),
        }
    }
}

/// The record of a request.
pub open spec fn request_bytes(r: Req) -> Seq<u8> {
    match r {
        Req::SetKey(k, v) => set_head() + pair_body(k, v),
        Req::Rm(k) => rm_head() + single_body(k),
        Req::Get(k) => get_head() + single_body(k),
    }
}

/// The body of a response, as the three response types share it:
/// `Ok` with a string, `Ok` with nothing, or `Err` with a message.
pub ghost enum Reply {
    Value(Seq<char>),
    Null,
    Error(Seq<char>),
}

/// The record of a response body.
pub open spec fn reply_bytes(r: Reply) -> Seq<u8> {
    match r {
        Reply::Value(v) => ok_head() + single_body(v),
        Reply::Null => ok_head() + null_close(),
        Reply::Error(m) => err_head() + single_body(m),
    }
}

/// The bytes from `p` on are an unfinished request: they end before its
/// fixed text does, inside one of its string literals, or before a
/// closing brace. Any other bytes that are no whole request are an error
/// to the parser.
pub open spec fn torn_request(buf: Seq<u8>, p: int) -> bool {
    ||| p == buf.len()
    ||| cut_short(buf, p, set_head())
    ||| cut_short(buf, p, rm_head())
    ||| cut_short(buf, p, get_head())
    ||| occurs_at(buf, p, set_head()) && pair_open(buf, p + set_head().len())
    ||| occurs_at(buf, p, rm_head()) && single_open(buf, p + rm_head().len())
    ||| occurs_at(buf, p, get_head()) && single_open(buf, p + get_head().len())
}

/// The bytes from `p` on are an unfinished response, in the same sense.
pub open spec fn torn_reply(buf: Seq<u8>, p: int) -> bool {
    ||| p == buf.len()
    ||| cut_short(buf, p, ok_head())
    ||| cut_short(buf, p, err_head())
    ||| occurs_at(buf, p, ok_head()) && (cut_short(buf, p + ok_head().len(), null_close()) || single_open(
        buf,
        p + ok_head().len(),
    ))
    ||| occurs_at(buf, p, err_head()) && single_open(buf, p + err_head().len())
}

/// The response to a `Set` request.
#[derive(Debug)]
pub enum SetResponse {
    Success(()),
    Failure(String),
}

/// The response to an `Rm` request.
#[derive(Debug)]
pub enum RmResponse {
    Success(()),
    Failure(String),
}

/// The response to a `Get` request.
#[derive(Debug)]
pub enum GetResponse {
    Success(Option<String>),
    Failure(String),
}

impl SetResponse {
    pub open spec fn reply(&self) -> Reply {
        match self {
            SetResponse::Success(_) => Reply::Null,
            SetResponse::Failure(m) => Reply::Error(m@),
        }
    }
}

impl RmResponse {
    pub open spec fn reply(&self) -> Reply {
        match self {
            RmResponse::Success(_) => Reply::Null,
            RmResponse::Failure(m) => Reply::Error(m@),
        }
    }
}

impl GetResponse {
    pub open spec fn reply(&self) -> Reply {
        match self {
            GetResponse::Success(Some(v)) => Reply::Value(v@),
            GetResponse::Success(None) => Reply::Null,
            GetResponse::Failure(m) => Reply::Error(m@),
        }
    }
}

/// Appends `s`'s literal and a closing brace to `out`.
fn push_single_body(out: &mut Vec<u8>, s: &String)
    ensures
        final(out)@ == old(out)@ + single_body(s@),
{
    let mut q = quote(s.as_str());
    out.append(&mut q);
    let mut c = close_bytes();
    out.append(&mut c);
    assert(final(out)@ =~= old(out)@ + single_body(s@));
}

/// The record of a request.
pub fn encode_request(r: &Request) -> (out: Vec<u8>)
    ensures
        out@ == request_bytes(r@),
{
    match r {
        Request::SetKey { key, value } => {
            let mut out = set_head_bytes();
            let mut q = quote(key.as_str());
            out.append(&mut q);
            let mut mid = set_mid_bytes();
            out.append(&mut mid);
            let mut q2 = quote(value.as_str());
            out.append(&mut q2);
            let mut tail = set_tail_bytes();
            out.append(&mut tail);
            assert(out@ =~= request_bytes(r@));
            out
        },
        Request::Rm(k) => {
            let mut out = rm_head_bytes();
            push_single_body(&mut out, k);
            assert(out@ =~= request_bytes(r@));
            out
        },
        Request::Get(k) => {
            let mut out = get_head_bytes();
            push_single_body(&mut out, k);
            assert(out@ =~= request_bytes(r@));
            out
        },
    }
}

/// The record of a response body.
fn encode_reply(value: Option<&String>, error: Option<&String>) -> (out: Vec<u8>)
    requires
        value is None || error is None,
    ensures
        out@ == reply_bytes(
            match (value, error) {
                (Some(v), _) => Reply::Value(v@),
                (None, Some(m)) => Reply::Error(m@),
                (None, None) => Reply::Null,
            },
        ),
{
    match (value, error) {
        (Some(v), _) => {
            let mut out = ok_head_bytes();
            push_single_body(&mut out, v);
            out
        },
        (None, Some(m)) => {
            let mut out = err_head_bytes();
            push_single_body(&mut out, m);
            out
        },
        (None, None) => {
            let mut out = ok_head_bytes();
            let mut n = null_close_bytes();
            out.append(&mut n);
            out
        },
    }
}

impl SetResponse {
    /// The record of this response.
    pub fn encode(&self) -> (out: Vec<u8>)
        ensures
            out@ == reply_bytes(self.reply()),
    {
        match self {
            SetResponse::Success(_) => encode_reply(None, None),
            SetResponse::Failure(m) => encode_reply(None, Some(m)),
        }
    }
}

impl RmResponse {
    /// The record of this response.
    pub fn encode(&self) -> (out: Vec<u8>)
        ensures
            out@ == reply_bytes(self.reply()),
    {
        match self {
            RmResponse::Success(_) => encode_reply(None, None),
            RmResponse::Failure(m) => encode_reply(None, Some(m)),
        }
    }
}

impl GetResponse {
    /// The record of this response.
    pub fn encode(&self) -> (out: Vec<u8>)
        ensures
            out@ == reply_bytes(self.reply()),
    {
        match self {
            GetResponse::Success(Some(v)) => encode_reply(Some(v), None),
            GetResponse::Success(None) => encode_reply(None, None),
            GetResponse::Failure(m) => encode_reply(None, Some(m)),
        }
    }
}

/// A record standing at `p` that differs from `h` at byte `i` rules out
/// `h` there, whole or cut short.
proof fn lemma_differs_at(buf: Seq<u8>, p: int, x: Seq<u8>, h: Seq<u8>, i: int)
    requires
        occurs_at(buf, p, x),
        0 <= i < x.len(),
        i < h.len(),
        x[i] != h[i],
    ensures
        !occurs_at(buf, p, h),
        !cut_short(buf, p, h),
{
    assert(buf[p + i] == x[i]) by {
        assert(buf.subrange(p, p + x.len())[i] == buf[p + i]);
    }
    if occurs_at(buf, p, h) {
        assert(buf.subrange(p, p + h.len())[i] == buf[p + i]);
    }
    if cut_short(buf, p, h) {
        assert(buf.subrange(p, buf.len() as int)[i] == buf[p + i]);
    }
}

proof fn lemma_at_end(buf: Seq<u8>, h: Seq<u8>)
    requires
        h.len() > 0,
    ensures
        cut_short(buf, buf.len() as int, h),
{
    assert(buf.subrange(buf.len() as int, buf.len() as int) =~= h.subrange(0, 0));
}

/// Reads the request record at `p`. `Ok(None)`: `buf` ends before it does.
/// Only records as `encode_request` writes them are taken.
pub fn parse_request(buf: &[u8], p: usize) -> (r: Result<Option<(Request, usize)>>)
    requires
        p <= buf@.len(),
    ensures
        r matches Ok(Some((x, q))) ==> p < q <= buf@.len() && buf@.subrange(p as int, q as int)
            == request_bytes(x@),
        forall|x: Req| #[trigger]
            occurs_at(buf@, p as int, request_bytes(x)) ==> (r matches Ok(Some((y, q))) && y@ == x
                && q == p + request_bytes(x).len()),
        p == buf@.len() ==> r matches Ok(None),
        forall|x: Req| #[trigger] cut_short(buf@, p as int, request_bytes(x)) ==> r matches Ok(None),
        r matches Ok(None) ==> torn_request(buf@, p as int),
{
    let blen = buf.len();
    let sh = set_head_bytes();
    let rh = rm_head_bytes();
    let gh = get_head_bytes();
    proof {
        assert forall|x: Req| #[trigger] cut_short(buf@, p as int, request_bytes(x)) implies (match x {
            Req::SetKey(k, v) => cut_short(buf@, p as int, set_head()) || (occurs_at(
                buf@,
                p as int,
                set_head(),
            ) && cut_short(buf@, p + set_head().len(), pair_body(k, v))),
            Req::Rm(k) => cut_short(buf@, p as int, set_head()) || (!occurs_at(buf@, p as int, set_head())
                && !cut_short(buf@, p as int, set_head()) && (cut_short(buf@, p as int, rm_head()) || (
            occurs_at(buf@, p as int, rm_head()) && cut_short(buf@, p + rm_head().len(), single_body(k))))),
            Req::Get(k) => cut_short(buf@, p as int, set_head()) || (!occurs_at(buf@, p as int, set_head())
                && !cut_short(buf@, p as int, set_head()) && !occurs_at(buf@, p as int, rm_head())
                && !cut_short(buf@, p as int, rm_head()) && (cut_short(buf@, p as int, get_head()) || (
            occurs_at(buf@, p as int, get_head()) && cut_short(buf@, p + get_head().len(), single_body(k))))),
        }) by {
            match x {
                Req::SetKey(k, v) => {
                    lemma_cut_split(buf@, p as int, set_head(), pair_body(k, v));
                },
                Req::Rm(k) => {
                    lemma_cut_split(buf@, p as int, rm_head(), single_body(k));
                    assert(request_bytes(x)[0] == set_head()[0] && request_bytes(x)[1] == set_head()[1]);
                    lemma_cut_vs_head(buf@, p as int, request_bytes(x), set_head(), 2);
                },
                Req::Get(k) => {
                    lemma_cut_split(buf@, p as int, get_head(), single_body(k));
                    assert(request_bytes(x)[0] == set_head()[0] && request_bytes(x)[1] == set_head()[1]);
                    lemma_cut_vs_head(buf@, p as int, request_bytes(x), set_head(), 2);
                    lemma_cut_vs_head(buf@, p as int, request_bytes(x), rm_head(), 2);
                },
            }
        }
        if p == blen {
            lemma_at_end(buf@, set_head());
        }
        assert forall|x: Req| #[trigger] occurs_at(buf@, p as int, request_bytes(x)) implies (match x {
            Req::SetKey(k, v) => occurs_at(buf@, p as int, set_head()) && occurs_at(
                buf@,
                p + set_head().len(),
                pair_body(k, v),
            ),
            Req::Rm(k) => occurs_at(buf@, p as int, rm_head()) && occurs_at(
                buf@,
                p + rm_head().len(),
                single_body(k),
            ) && !occurs_at(buf@, p as int, set_head()) && !cut_short(buf@, p as int, set_head()),
            Req::Get(k) => occurs_at(buf@, p as int, get_head()) && occurs_at(
                buf@,
                p + get_head().len(),
                single_body(k),
            ) && !occurs_at(buf@, p as int, set_head()) && !cut_short(buf@, p as int, set_head())
                && !occurs_at(buf@, p as int, rm_head()) && !cut_short(buf@, p as int, rm_head()),
        }) by {
            match x {
                Req::SetKey(k, v) => {
                    lemma_occurs_split(buf@, p as int, set_head(), pair_body(k, v));
                },
                Req::Rm(k) => {
                    lemma_occurs_split(buf@, p as int, rm_head(), single_body(k));
                    lemma_differs_at(buf@, p as int, request_bytes(x), set_head(), 2);
                },
                Req::Get(k) => {
                    lemma_occurs_split(buf@, p as int, get_head(), single_body(k));
                    lemma_differs_at(buf@, p as int, request_bytes(x), set_head(), 2);
                    lemma_differs_at(buf@, p as int, request_bytes(x), rm_head(), 2);
                },
            }
        }
    }
    match match_lit(buf, p, sh.as_slice()) {
        LitMatch::Full => {
            assert(sh@.len() == 14);
            match read_pair_body(buf, p + 14) {
                Ok(Some((key, value, q))) => {
                    let x = Request::SetKey { key, value };
                    proof {
                        lemma_occurs_join(buf@, p as int, set_head(), pair_body(x@->SetKey_0, x@->SetKey_1));
                    }
                    Ok(Some((x, q)))
                },
                Ok(None) => Ok(None),
                Err(e) => Err(e),
            }
        },
        LitMatch::Short => Ok(None),
        LitMatch::Mismatch => {
            match match_lit(buf, p, rh.as_slice()) {
                LitMatch::Full => {
                    assert(rh@.len() == 6);
                    match read_single_body(buf, p + 6) {
                        Ok(Some((key, q))) => {
                            let x = Request::Rm(key);
                            proof {
                                lemma_occurs_join(buf@, p as int, rm_head(), single_body(x@->Rm_0));
                            }
                            Ok(Some((x, q)))
                        },
                        Ok(None) => Ok(None),
                        Err(e) => Err(e),
                    }
                },
                LitMatch::Short => Ok(None),
                LitMatch::Mismatch => {
                    match match_lit(buf, p, gh.as_slice()) {
                        LitMatch::Full => {
                            assert(gh@.len() == 7);
                            match read_single_body(buf, p + 7) {
                                Ok(Some((key, q))) => {
                                    let x = Request::Get(key);
                                    proof {
                                        lemma_occurs_join(buf@, p as int, get_head(), single_body(x@->Get_0));
                                    }
                                    Ok(Some((x, q)))
                                },
                                Ok(None) => Ok(None),
                                Err(e) => Err(e),
                            }
                        },
                        LitMatch::Short => Ok(None),
                        LitMatch::Mismatch => Err(malformed()),
                    }
                },
            }
        },
    }
}

/// Reads the response record at `p`, in its most general form.
/// `Ok(None)`: `buf` ends before it does.
pub fn parse_get_response(buf: &[u8], p: usize) -> (r: Result<Option<(GetResponse, usize)>>)
    requires
        p <= buf@.len(),
    ensures
        r matches Ok(Some((x, q))) ==> p < q <= buf@.len() && buf@.subrange(p as int, q as int)
            == reply_bytes(x.reply()),
        forall|x: Reply| #[trigger]
            occurs_at(buf@, p as int, reply_bytes(x)) ==> (r matches Ok(Some((y, q))) && y.reply()
                == x && q == p + reply_bytes(x).len()),
        p == buf@.len() ==> r matches Ok(None),
        forall|x: Reply| #[trigger] cut_short(buf@, p as int, reply_bytes(x)) ==> r matches Ok(None),
        r matches Ok(None) ==> torn_reply(buf@, p as int),
{
    let blen = buf.len();
    let oh = ok_head_bytes();
    let eh = err_head_bytes();
    let nc = null_close_bytes();
    proof {
        assert forall|x: Reply| #[trigger] cut_short(buf@, p as int, reply_bytes(x)) implies (match x {
            Reply::Value(v) => cut_short(buf@, p as int, ok_head()) || (occurs_at(buf@, p as int, ok_head())
                && cut_short(buf@, p + 6, single_body(v)) && (cut_short(buf@, p + 6, null_close()) || (
            !occurs_at(buf@, p + 6, null_close()) && !cut_short(buf@, p + 6, null_close())))),
            Reply::Null => cut_short(buf@, p as int, ok_head()) || (occurs_at(buf@, p as int, ok_head())
                && cut_short(buf@, p + 6, null_close())),
            Reply::Error(m) => cut_short(buf@, p as int, ok_head()) || (!occurs_at(buf@, p as int, ok_head())
                && !cut_short(buf@, p as int, ok_head()) && (cut_short(buf@, p as int, err_head()) || (
            occurs_at(buf@, p as int, err_head()) && cut_short(buf@, p + 7, single_body(m))))),
        }) by {
            match x {
                Reply::Value(v) => {
                    lemma_cut_split(buf@, p as int, ok_head(), single_body(v));
                    if occurs_at(buf@, p as int, ok_head()) && cut_short(buf@, p + 6, single_body(v)) {
                        assert(single_body(v)[0] == crate::codec::QUOTE);
                        lemma_cut_vs_head(buf@, p + 6, single_body(v), null_close(), 0);
                    }
                },
                Reply::Null => {
                    lemma_cut_split(buf@, p as int, ok_head(), null_close());
                },
                Reply::Error(m) => {
                    lemma_cut_split(buf@, p as int, err_head(), single_body(m));
                    assert(reply_bytes(x)[0] == ok_head()[0] && reply_bytes(x)[1] == ok_head()[1]);
                    lemma_cut_vs_head(buf@, p as int, reply_bytes(x), ok_head(), 2);
                },
            }
        }
        if p == blen {
            lemma_at_end(buf@, ok_head());
        }
        assert forall|x: Reply| #[trigger] occurs_at(buf@, p as int, reply_bytes(x)) implies (match x {
            Reply::Value(v) => occurs_at(buf@, p as int, ok_head()) && occurs_at(
                buf@,
                p + ok_head().len(),
                single_body(v),
            ) && !occurs_at(buf@, p + ok_head().len(), null_close()) && !cut_short(
                buf@,
                p + ok_head().len(),
                null_close(),
            ),
            Reply::Null => occurs_at(buf@, p as int, ok_head()) && occurs_at(
                buf@,
                p + ok_head().len(),
                null_close(),
            ),
            Reply::Error(m) => occurs_at(buf@, p as int, err_head()) && occurs_at(
                buf@,
                p + err_head().len(),
                single_body(m),
            ) && !occurs_at(buf@, p as int, ok_head()) && !cut_short(buf@, p as int, ok_head()),
        }) by {
            match x {
                Reply::Value(v) => {
                    lemma_occurs_split(buf@, p as int, ok_head(), single_body(v));
                    assert(single_body(v)[0] == crate::codec::QUOTE);
                    lemma_differs_at(buf@, p + 6, single_body(v), null_close(), 0);
                },
                Reply::Null => {
                    lemma_occurs_split(buf@, p as int, ok_head(), null_close());
                },
                Reply::Error(m) => {
                    lemma_occurs_split(buf@, p as int, err_head(), single_body(m));
                    lemma_differs_at(buf@, p as int, reply_bytes(x), ok_head(), 2);
                },
            }
        }
    }
    match match_lit(buf, p, oh.as_slice()) {
        LitMatch::Full => {
            assert(oh@.len() == 6);
            let q0 = p + 6;
            match match_lit(buf, q0, nc.as_slice()) {
                LitMatch::Full => {
                    assert(nc@.len() == 5);
                    proof {
                        lemma_occurs_join(buf@, p as int, ok_head(), null_close());
                    }
                    Ok(Some((GetResponse::Success(None), q0 + 5)))
                },
                LitMatch::Short => Ok(None),
                LitMatch::Mismatch => {
                    match read_single_body(buf, q0) {
                        Ok(Some((v, q))) => {
                            proof {
                                lemma_occurs_join(buf@, p as int, ok_head(), single_body(v@));
                            }
                            Ok(Some((GetResponse::Success(Some(v)), q)))
                        },
                        Ok(None) => Ok(None),
                        Err(e) => Err(e),
                    }
                },
            }
        },
        LitMatch::Short => Ok(None),
        LitMatch::Mismatch => {
            match match_lit(buf, p, eh.as_slice()) {
                LitMatch::Full => {
                    assert(eh@.len() == 7);
                    match read_single_body(buf, p + 7) {
                        Ok(Some((m, q))) => {
                            proof {
                                lemma_occurs_join(buf@, p as int, err_head(), single_body(m@));
                            }
                            Ok(Some((GetResponse::Failure(m), q)))
                        },
                        Ok(None) => Ok(None),
                        Err(e) => Err(e),
                    }
                },
                LitMatch::Short => Ok(None),
                LitMatch::Mismatch => Err(malformed()),
            }
        },
    }
}

/// Reads a response to `Set` at `p`. `Ok(None)`: `buf` ends before it does.
pub fn parse_set_response(buf: &[u8], p: usize) -> (r: Result<Option<(SetResponse, usize)>>)
    requires
        p <= buf@.len(),
    ensures
        r matches Ok(Some((x, q))) ==> p < q <= buf@.len() && buf@.subrange(p as int, q as int)
            == reply_bytes(x.reply()),
        forall|x: Reply| #[trigger]
            occurs_at(buf@, p as int, reply_bytes(x)) && !(x is Value) ==> (r matches Ok(
                Some((y, q)),
            ) && y.reply() == x && q == p + reply_bytes(x).len()),
        p == buf@.len() ==> r matches Ok(None),
        forall|x: Reply| #[trigger] cut_short(buf@, p as int, reply_bytes(x)) ==> r matches Ok(None),
        r matches Ok(None) ==> torn_reply(buf@, p as int),
{
    match parse_get_response(buf, p) {
        Ok(Some((GetResponse::Success(None), q))) => Ok(Some((SetResponse::Success(()), q))),
        Ok(Some((GetResponse::Failure(m), q))) => Ok(Some((SetResponse::Failure(m), q))),
        Ok(Some((GetResponse::Success(Some(_)), _))) => Err(malformed()),
        Ok(None) => Ok(None),
        Err(e) => Err(e),
    }
}

/// Reads a response to `Rm` at `p`. `Ok(None)`: `buf` ends before it does.
pub fn parse_rm_response(buf: &[u8], p: usize) -> (r: Result<Option<(RmResponse, usize)>>)
    requires
        p <= buf@.len(),
    ensures
        r matches Ok(Some((x, q))) ==> p < q <= buf@.len() && buf@.subrange(p as int, q as int)
            == reply_bytes(x.reply()),
        forall|x: Reply| #[trigger]
            occurs_at(buf@, p as int, reply_bytes(x)) && !(x is Value) ==> (r matches Ok(
                Some((y, q)),
            ) && y.reply() == x && q == p + reply_bytes(x).len()),
        p == buf@.len() ==> r matches Ok(None),
        forall|x: Reply| #[trigger] cut_short(buf@, p as int, reply_bytes(x)) ==> r matches Ok(None),
        r matches Ok(None) ==> torn_reply(buf@, p as int),
{
    match parse_get_response(buf, p) {
        Ok(Some((GetResponse::Success(None), q))) => Ok(Some((RmResponse::Success(()), q))),
        Ok(Some((GetResponse::Failure(m), q))) => Ok(Some((RmResponse::Failure(m), q))),
        Ok(Some((GetResponse::Success(Some(_)), _))) => Err(malformed()),
        Ok(None) => Ok(None),
        Err(e) => Err(e),
    }
}

} // verus!
