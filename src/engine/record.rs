//! The records of a log file: `Set` and `Rm` commands, written one after
//! another in their JSON form.
use vstd::prelude::*;
use crate::codec::{
    LitMatch, match_lit, occurs_at, pair_body, quote, read_pair_body, read_single_body, rm_head,
    rm_head_bytes, set_head, set_head_bytes, set_mid_bytes, set_tail_bytes, close_bytes,
    single_body, malformed, lemma_occurs_split, lemma_occurs_join, quoted, set_mid, set_tail, close,
    cut_short, lemma_cut_split, lemma_cut_vs_head, pair_open, single_open,
};
use crate::error::Result;

verus! {

/// A command as the log holds it.
#[derive(Debug, PartialEq, Eq)]
pub enum Command {
    /// Binds `key` to `value`.
    SetKey { key: String, value: String },
    /// Unbinds a key.
    Rm(String),
}

/// The mathematical form of a command.
pub ghost enum Cmd {
    SetKey(Seq<char>, Seq<char>),
    Rm(Seq<char>),
}

impl View for Command {
    type V = Cmd;

    open spec fn view(&self) -> Cmd {
        match self {
            Command::SetKey { key, value } => Cmd::SetKey(key@, value@),
            Command::Rm(key) => Cmd::Rm(key@),
        }
    }
}

/// The bytes of one record.
pub open spec fn record(c: Cmd) -> Seq<u8> {
    match c {
        Cmd::SetKey(k, v) => set_head() + pair_body(k, v),
        Cmd::Rm(k) => rm_head() + single_body(k),
    }
}

/// The bytes of records written one after another.
pub open spec fn records(cs: Seq<Cmd>) -> Seq<u8>
    decreases cs.len(),
{
    if cs.len() == 0 {
        Seq::empty()
    } else {
        records(cs.drop_last()) + record(cs.last())
    }
}

pub proof fn lemma_records_push(cs: Seq<Cmd>, c: Cmd)
    ensures
        records(cs.push(c)) == records(cs) + record(c),
{
    assert(cs.push(c).drop_last() =~= cs);
}

pub proof fn lemma_records_concat(a: Seq<Cmd>, b: Seq<Cmd>)
    ensures
        records(a + b) == records(a) + records(b),
    decreases b.len(),
{
    if b.len() == 0 {
        assert(a + b =~= a);
        assert(records(a) + records(b) =~= records(a));
    } else {
        assert((a + b).drop_last() =~= a + b.drop_last());
        lemma_records_concat(a, b.drop_last());
        assert(records(a) + records(b) =~= records(a) + records(b.drop_last()) + record(b.last()));
    }
}

/// Record `j` of a sequence of records stands right after those before it.
pub proof fn lemma_records_at(cs: Seq<Cmd>, j: int)
    requires
        0 <= j < cs.len(),
    ensures
        occurs_at(records(cs), records(cs.take(j)).len() as int, record(cs[j])),
        records(cs.take(j + 1)) == records(cs.take(j)) + record(cs[j]),
{
    assert(cs.take(j + 1) =~= cs.take(j).push(cs[j]));
    lemma_records_push(cs.take(j), cs[j]);
    assert(cs =~= cs.take(j + 1) + cs.skip(j + 1));
    lemma_records_concat(cs.take(j + 1), cs.skip(j + 1));
    let all = records(cs);
    let pre = records(cs.take(j));
    assert(all.subrange(pre.len() as int, pre.len() as int + record(cs[j]).len() as int) =~= record(cs[j]));
}

/// The bytes from `p` on are an unfinished record: they end before a
/// record's fixed text does, or inside one of its string literals, or
/// before a closing brace. Any other bytes that are no whole record are
/// an error to the parser.
pub open spec fn torn_command(buf: Seq<u8>, p: int) -> bool {
    ||| p == buf.len()
    ||| cut_short(buf, p, set_head())
    ||| cut_short(buf, p, rm_head())
    ||| occurs_at(buf, p, set_head()) && pair_open(buf, p + set_head().len())
    ||| occurs_at(buf, p, rm_head()) && single_open(buf, p + rm_head().len())
}

/// Appends `s`'s literal to `out`.
fn push_quoted(out: &mut Vec<u8>, s: &String)
    ensures
        final(out)@ == old(out)@ + quoted(s@),
{
    let mut q = quote(s.as_str());
    out.append(&mut q);
}

/// The record of `c`.
pub fn encode_command(c: &Command) -> (r: Vec<u8>)
    ensures
        r@ == record(c@),
{
    match c {
        Command::SetKey { key, value } => {
            let mut out = set_head_bytes();
            push_quoted(&mut out, key);
            let mut mid = set_mid_bytes();
            out.append(&mut mid);
            push_quoted(&mut out, value);
            let mut tail = set_tail_bytes();
            out.append(&mut tail);
            assert(out@ =~= record(c@));
            out
        },
        Command::Rm(key) => {
            let mut out = rm_head_bytes();
            push_quoted(&mut out, key);
            let mut tail = close_bytes();
            out.append(&mut tail);
            assert(out@ =~= record(c@));
            out
        },
    }
}

/// Reads the record at `p`. `Ok(None)`: `buf` ends before the record does.
/// Only records as `encode_command` writes them are taken.
pub fn parse_command(buf: &[u8], p: usize) -> (r: Result<Option<(Command, usize)>>)
    requires
        p <= buf@.len(),
    ensures
        r matches Ok(Some((c, q))) ==> p < q <= buf@.len() && buf@.subrange(p as int, q as int)
            == record(c@),
        forall|c: Cmd| #[trigger]
            occurs_at(buf@, p as int, record(c)) ==> (r matches Ok(Some((cc, q))) && cc@ == c && q
                == p + record(c).len()),
        p == buf@.len() ==> r matches Ok(None),
        forall|c: Cmd| #[trigger] cut_short(buf@, p as int, record(c)) ==> r matches Ok(None),
        r matches Ok(None) ==> torn_command(buf@, p as int),
{
    let blen = buf.len();
    proof {
        assert forall|c: Cmd| #[trigger] cut_short(buf@, p as int, record(c)) implies (match c {
            Cmd::SetKey(k, v) => cut_short(buf@, p as int, set_head()) || (occurs_at(
                buf@,
                p as int,
                set_head(),
            ) && cut_short(buf@, p + set_head().len(), pair_body(k, v))),
            Cmd::Rm(k) => cut_short(buf@, p as int, set_head()) || (!occurs_at(buf@, p as int, set_head())
                && !cut_short(buf@, p as int, set_head()) && (cut_short(buf@, p as int, rm_head()) || (
            occurs_at(buf@, p as int, rm_head()) && cut_short(buf@, p + rm_head().len(), single_body(k))))),
        }) by {
            match c {
                Cmd::SetKey(k, v) => {
                    lemma_cut_split(buf@, p as int, set_head(), pair_body(k, v));
                },
                Cmd::Rm(k) => {
                    lemma_cut_split(buf@, p as int, rm_head(), single_body(k));
                    assert(record(c)[0] == set_head()[0] && record(c)[1] == set_head()[1]);
                    lemma_cut_vs_head(buf@, p as int, record(c), set_head(), 2);
                },
            }
        }
    }
    proof {
        if p == blen {
            assert(buf@.subrange(p as int, blen as int) =~= set_head().subrange(0, 0));
        }
    }
    let sh = set_head_bytes();
    let rh = rm_head_bytes();
    proof {
        assert forall|c: Cmd| #[trigger] occurs_at(buf@, p as int, record(c)) implies (match c {
            Cmd::SetKey(k, v) => occurs_at(buf@, p as int, set_head()) && occurs_at(
                buf@,
                p + set_head().len(),
                pair_body(k, v),
            ),
            Cmd::Rm(k) => occurs_at(buf@, p as int, rm_head()) && occurs_at(
                buf@,
                p + rm_head().len(),
                single_body(k),
            ) && !occurs_at(buf@, p as int, set_head()) && !crate::codec::cut_short(
                buf@,
                p as int,
                set_head(),
            ),
        }) by {
            match c {
                Cmd::SetKey(k, v) => {
                    lemma_occurs_split(buf@, p as int, set_head(), pair_body(k, v));
                },
                Cmd::Rm(k) => {
                    lemma_occurs_split(buf@, p as int, rm_head(), single_body(k));
                    assert(buf@[p + 2] == rm_head()[2]);
                    assert(buf@.len() - p >= 6);
                    if occurs_at(buf@, p as int, set_head()) {
                        assert(buf@.subrange(p as int, p + 14)[2] == buf@[p + 2]);
                    }
                    if crate::codec::cut_short(buf@, p as int, set_head()) {
                        assert(buf@.subrange(p as int, buf@.len() as int)[2] == buf@[p + 2]);
                    }
                },
            }
        }
    }
    match match_lit(buf, p, sh.as_slice()) {
        LitMatch::Full => {
            assert(sh@.len() == 14);
            match read_pair_body(buf, p + 14) {
                Ok(Some((key, value, q))) => {
                    let c = Command::SetKey { key, value };
                    proof {
                        lemma_occurs_join(buf@, p as int, set_head(), pair_body(c@->SetKey_0, c@->SetKey_1));
                    }
                    Ok(Some((c, q)))
                },
                Ok(None) => Ok(None),
                Err(e) => Err(e),
            }
        },
        LitMatch::Short => Ok(None),
        LitMatch::Mismatch => {
            match match_lit(buf, p, rh.as_slice()) {
                LitMatch::Full => {
                    assert(rh@.len() == 6);
                    match read_single_body(buf, p + 6) {
                        Ok(Some((key, q))) => {
                            let c = Command::Rm(key);
                            proof {
                                lemma_occurs_join(buf@, p as int, rm_head(), single_body(c@->Rm_0));
                            }
                            Ok(Some((c, q)))
                        },
                        Ok(None) => Ok(None),
                        Err(e) => Err(e),
                    }
                },
                LitMatch::Short => Ok(None),
                LitMatch::Mismatch => Err(malformed()),
            }
        },
    }
}

/// `buf` is a `Set` record of some key with value `v`.
pub open spec fn holds_value(buf: Seq<u8>, v: Seq<char>) -> bool {
    exists|k: Seq<char>| #[trigger] record(Cmd::SetKey(k, v)) == buf
}

/// The value held by a `Set` record. Any other bytes, an `Rm` record
/// among them, mean the log is corrupt: an error.
pub fn read_value(buf: &[u8]) -> (r: Result<String>)
    ensures
        forall|k: Seq<char>, v: Seq<char>| #[trigger]
            record(Cmd::SetKey(k, v)) == buf@ ==> (r matches Ok(s) && s@ == v),
        r matches Ok(s) ==> holds_value(buf@, s@),
{
    let blen = buf.len();
    proof {
        assert forall|c: Cmd| #[trigger] record(c) == buf@ implies occurs_at(buf@, 0, record(c)) by {
            assert(buf@.subrange(0, buf@.len() as int) =~= buf@);
        }
    }
    match parse_command(buf, 0) {
        Ok(Some((c, q))) => {
            if q != blen {
                return Err(malformed());
            }
            proof {
                assert(buf@.subrange(0, q as int) =~= buf@);
            }
            match c {
                Command::SetKey { key, value } => {
                    let ghost k = key@;
                    proof {
                        assert(record(Cmd::SetKey(k, value@)) == buf@);
                        assert(holds_value(buf@, value@));
                    }
                    Ok(value)
                },
                Command::Rm(_) => Err(malformed()),
            }
        },
        Ok(None) => Err(malformed()),
        Err(e) => Err(e),
    }
}

} // verus!
