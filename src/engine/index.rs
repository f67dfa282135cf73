//! The in-memory side of the log-structured engine: the index from keys to
//! record positions, the numbered log files and the count of bytes that a
//! compaction would reclaim. The files themselves are read and written by
//! the caller, which performs what each operation returns.
use vstd::prelude::*;
use crate::codec::{cut_short, occurs_at};
use crate::engine::record::{
    Cmd, Command, encode_command, parse_command, record, records, lemma_records_push, torn_command,
    lemma_records_at,
};
use crate::error::{KvStoreError, Result};

verus! {

/// Uncompacted bytes above this many trigger a compaction.
pub const COMPACTION_THRESHOLD: u64 = 1048576;

/// Where a record lies: in which log file, at which offset, how long.
#[derive(Debug, Clone, Copy, PartialEq, Eq)]
pub struct CommandPos {
    pub log_id: u64,
    pub pos: u64,
    pub len: u64,
}

/// The effect of one command on the bindings.
pub open spec fn apply(m: Map<Seq<char>, Seq<char>>, c: Cmd) -> Map<Seq<char>, Seq<char>> {
    match c {
        Cmd::SetKey(k, v) => m.insert(k, v),
        Cmd::Rm(k) => m.remove(k),
    }
}

/// The effect of commands applied in order.
pub open spec fn apply_all(m: Map<Seq<char>, Seq<char>>, cs: Seq<Cmd>) -> Map<Seq<char>, Seq<char>>
    decreases cs.len(),
{
    if cs.len() == 0 {
        m
    } else {
        apply(apply_all(m, cs.drop_last()), cs.last())
    }
}

/// The commands of the logs `ids`, in that order.
pub open spec fn history(logs: Map<u64, Seq<Cmd>>, ids: Seq<u64>) -> Seq<Cmd>
    decreases ids.len(),
{
    if ids.len() == 0 {
        Seq::empty()
    } else {
        history(logs, ids.drop_last()) + logs[ids.last()]
    }
}

/// The bytes in the logs `ids`.
pub open spec fn size(logs: Map<u64, Seq<Cmd>>, ids: Seq<u64>) -> int
    decreases ids.len(),
{
    if ids.len() == 0 {
        0
    } else {
        size(logs, ids.drop_last()) + records(logs[ids.last()]).len()
    }
}

/// The bytes of the records that positions point at.
pub open spec fn live(ps: Seq<CommandPos>) -> int
    decreases ps.len(),
{
    if ps.len() == 0 {
        0
    } else {
        live(ps.drop_last()) + ps.last().len
    }
}

pub proof fn lemma_apply_all_push(m: Map<Seq<char>, Seq<char>>, cs: Seq<Cmd>, c: Cmd)
    ensures
        apply_all(m, cs.push(c)) == apply(apply_all(m, cs), c),
{
    assert(cs.push(c).drop_last() =~= cs);
}

pub proof fn lemma_apply_all_concat(m: Map<Seq<char>, Seq<char>>, a: Seq<Cmd>, b: Seq<Cmd>)
    ensures
        apply_all(m, a + b) == apply_all(apply_all(m, a), b),
    decreases b.len(),
{
    if b.len() == 0 {
        assert(a + b =~= a);
    } else {
        assert((a + b).drop_last() =~= a + b.drop_last());
        lemma_apply_all_concat(m, a, b.drop_last());
    }
}

proof fn lemma_history_frame(logs1: Map<u64, Seq<Cmd>>, logs2: Map<u64, Seq<Cmd>>, ids: Seq<u64>)
    requires
        forall|i: int| 0 <= i < ids.len() ==> logs1[#[trigger] ids[i]] == logs2[ids[i]],
    ensures
        history(logs1, ids) == history(logs2, ids),
        size(logs1, ids) == size(logs2, ids),
    decreases ids.len(),
{
    if ids.len() > 0 {
        assert(logs1[ids[ids.len() - 1]] == logs2[ids[ids.len() - 1]]);
        lemma_history_frame(logs1, logs2, ids.drop_last());
    }
}

proof fn lemma_size_bounds(logs: Map<u64, Seq<Cmd>>, ids: Seq<u64>)
    ensures
        size(logs, ids) >= 0,
        ids.len() > 0 ==> size(logs, ids) >= records(logs[ids.last()]).len(),
    decreases ids.len(),
{
    if ids.len() > 0 {
        lemma_size_bounds(logs, ids.drop_last());
    }
}

proof fn lemma_live_push(ps: Seq<CommandPos>, x: CommandPos)
    ensures
        live(ps.push(x)) == live(ps) + x.len,
{
    assert(ps.push(x).drop_last() =~= ps);
}

proof fn lemma_live_update(ps: Seq<CommandPos>, i: int, x: CommandPos)
    requires
        0 <= i < ps.len(),
    ensures
        live(ps.update(i, x)) == live(ps) - ps[i].len + x.len,
    decreases ps.len(),
{
    if i == ps.len() - 1 {
        assert(ps.update(i, x).drop_last() =~= ps.drop_last());
    } else {
        assert(ps.update(i, x).drop_last() =~= ps.drop_last().update(i, x));
        lemma_live_update(ps.drop_last(), i, x);
    }
}

proof fn lemma_live_remove(ps: Seq<CommandPos>, i: int)
    requires
        0 <= i < ps.len(),
    ensures
        live(ps.remove(i)) == live(ps) - ps[i].len,
    decreases ps.len(),
{
    if i == ps.len() - 1 {
        assert(ps.remove(i) =~= ps.drop_last());
    } else {
        assert(ps.remove(i).drop_last() =~= ps.drop_last().remove(i));
        lemma_live_remove(ps.drop_last(), i);
    }
}

proof fn lemma_live_bounds(ps: Seq<CommandPos>)
    ensures
        live(ps) >= 0,
        forall|i: int| 0 <= i < ps.len() ==> live(ps) >= #[trigger] ps[i].len,
    decreases ps.len(),
{
    if ps.len() > 0 {
        lemma_live_bounds(ps.drop_last());
        assert forall|i: int| 0 <= i < ps.len() implies live(ps) >= #[trigger] ps[i].len by {
            if i < ps.len() - 1 {
                assert(ps.drop_last()[i] == ps[i]);
            }
        }
    }
}

proof fn lemma_occurs_prefix(a: Seq<u8>, b: Seq<u8>, p: int, x: Seq<u8>)
    requires
        occurs_at(a, p, x),
    ensures
        occurs_at(a + b, p, x),
{
    assert((a + b).subrange(p, p + x.len()) =~= a.subrange(p, p + x.len()));
}

/// The key a command is about.
pub open spec fn cmd_key(c: Cmd) -> Seq<char> {
    match c {
        Cmd::SetKey(k, _) => k,
        Cmd::Rm(k) => k,
    }
}

/// Log ids in strictly increasing order.
pub open spec fn ascending(ids: Seq<u64>) -> bool {
    forall|i: int, j: int| 0 <= i < j < ids.len() ==> ids[i] < ids[j]
}

/// After replaying file `i` while opening: the replayed logs and the
/// earlier files' logs are where the loop of `open` needs them.
proof fn lemma_open_step(before: LogIndex, s: LogIndex, files: Seq<LogFile>, i: int, fits: bool)
    requires
        0 <= i < files.len(),
        ascending(file_ids(files).take(i + 1)),
        before.spec_log_ids() == file_ids(files).take(i),
        s.spec_log_ids() == before.spec_log_ids().push(files[i].id),
        s.spec_logs() == before.spec_logs().insert(files[i].id, s.spec_logs()[files[i].id]),
        before@ == replayed(before.spec_logs(), before.spec_log_ids()),
        s@ == apply_all(before@, s.spec_logs()[files[i].id]),
        forall|j: int, cs: Seq<Cmd>, t: Seq<u8>| #![trigger files[j], records(cs) + t]
            0 <= j < i && records(cs) + t == files[j].bytes@ && torn(t) && fits ==> before.spec_logs()[files[j].id] == cs,
        forall|cs: Seq<Cmd>, t: Seq<u8>| #![trigger records(cs) + t]
            records(cs) + t == files[i].bytes@ && torn(t) && before.spec_total() + files[i].bytes@.len()
                <= u64::MAX ==> s.spec_logs()[files[i].id] == cs,
        fits ==> before.spec_total() + files[i].bytes@.len() <= u64::MAX,
    ensures
        s.spec_log_ids() == file_ids(files).take(i + 1),
        s@ == replayed(s.spec_logs(), s.spec_log_ids()),
        forall|j: int| 0 <= j < i ==> #[trigger] s.spec_logs()[files[j].id] == before.spec_logs()[files[j].id],
        forall|j: int, cs: Seq<Cmd>, t: Seq<u8>| #![trigger files[j], records(cs) + t]
            0 <= j <= i && records(cs) + t == files[j].bytes@ && torn(t) && fits ==> s.spec_logs()[files[j].id] == cs,
{
    let ids = file_ids(files).take(i);
    let all = file_ids(files).take(i + 1);
    assert(all =~= ids.push(files[i].id));
    assert forall|j: int| 0 <= j < i implies #[trigger] s.spec_logs()[files[j].id]
        == before.spec_logs()[files[j].id] by {
        assert(all[j] == files[j].id && all[i] == files[i].id);
    }
    assert forall|j: int| 0 <= j < ids.len() implies before.spec_logs()[#[trigger] ids[j]]
        == s.spec_logs()[ids[j]] by {
        assert(ids[j] == files[j].id);
    }
    lemma_history_frame(before.spec_logs(), s.spec_logs(), ids);
    lemma_replayed_history(before.spec_logs(), ids);
    lemma_replayed_history(s.spec_logs(), ids);
    assert(all.drop_last() =~= ids);
    assert forall|j: int, cs: Seq<Cmd>, t: Seq<u8>| #![trigger files[j], records(cs) + t]
        0 <= j <= i && records(cs) + t == files[j].bytes@ && torn(t) && fits implies s.spec_logs()[files[j].id] == cs by {
        if j < i {
            assert(s.spec_logs()[files[j].id] == before.spec_logs()[files[j].id]);
        }
    }
}

/// A log file as read from disk.
pub struct LogFile {
    pub id: u64,
    pub bytes: Vec<u8>,
}

/// The ids of `files`, in order.
pub open spec fn file_ids(files: Seq<LogFile>) -> Seq<u64> {
    files.map_values(|f: LogFile| f.id)
}

/// The bytes of `files` together.
pub open spec fn files_size(files: Seq<LogFile>) -> int
    decreases files.len(),
{
    if files.len() == 0 {
        0
    } else {
        files_size(files.drop_last()) + files.last().bytes@.len()
    }
}

/// Every file holds whole records followed by a torn tail, maybe empty.
pub open spec fn well_logged(files: Seq<LogFile>) -> bool {
    forall|i: int| #![trigger files[i]] 0 <= i < files.len() ==> exists|cs: Seq<Cmd>, t: Seq<u8>| #[trigger]
        (records(cs) + t) == files[i].bytes@ && torn(t)
}

proof fn lemma_files_size_take(files: Seq<LogFile>, i: int)
    requires
        0 <= i < files.len(),
    ensures
        files_size(files.take(i + 1)) == files_size(files.take(i)) + files[i].bytes@.len(),
        files_size(files.take(i + 1)) <= files_size(files),
    decreases files.len() - i,
{
    assert(files.take(i + 1).drop_last() =~= files.take(i));
    if i + 1 < files.len() {
        lemma_files_size_take(files, i + 1);
    } else {
        assert(files.take(i + 1) =~= files);
    }
}

/// What the caller does on disk for a compaction: create the logs `target`
/// and `active`, copy the byte range of each of `copies`, in order, into
/// `target`, flush it, then delete the logs in `stale`.
pub struct CompactionPlan {
    pub target: u64,
    pub active: u64,
    pub copies: Vec<CommandPos>,
    pub stale: Vec<u64>,
}

/// The live prefix sums of record lengths.
proof fn lemma_live_take(ps: Seq<CommandPos>, i: int)
    requires
        0 <= i < ps.len(),
    ensures
        live(ps.take(i + 1)) == live(ps.take(i)) + ps[i].len,
        live(ps.take(i + 1)) <= live(ps),
    decreases ps.len() - i,
{
    assert(ps.take(i + 1).drop_last() =~= ps.take(i));
    if i + 1 < ps.len() {
        lemma_live_take(ps, i + 1);
    } else {
        assert(ps.take(i + 1) =~= ps);
    }
}

/// The index after replaying commands `cs`, written one after another from
/// the start of log `id`, onto index `m`: each `Set` installs its record's
/// log, start offset and length; each `Rm` drops its key.
pub open spec fn replayed_index(
    m: Map<Seq<char>, CommandPos>,
    id: u64,
    cs: Seq<Cmd>,
) -> Map<Seq<char>, CommandPos>
    decreases cs.len(),
{
    if cs.len() == 0 {
        m
    } else {
        let prev = replayed_index(m, id, cs.drop_last());
        match cs.last() {
            Cmd::SetKey(k, _) => prev.insert(
                k,
                CommandPos {
                    log_id: id,
                    pos: records(cs.drop_last()).len() as u64,
                    len: record(cs.last()).len() as u64,
                },
            ),
            Cmd::Rm(k) => prev.remove(k),
        }
    }
}

/// `t` is what a writer cut off leaves: a proper prefix, maybe empty, of
/// some record.
pub open spec fn torn(t: Seq<u8>) -> bool {
    exists|c: Cmd| #[trigger] cut_short(t, 0, record(c))
}

proof fn lemma_empty_is_torn()
    ensures
        torn(Seq::empty()),
{
    let c = Cmd::Rm(Seq::empty());
    assert(Seq::<u8>::empty().subrange(0, 0) =~= record(c).subrange(0, 0));
    assert(cut_short(Seq::empty(), 0, record(c)));
}

/// Where replay stands after the first records of a log that holds `cs`
/// followed by a torn tail `t`.
proof fn lemma_log_split_step(bytes: Seq<u8>, cs: Seq<Cmd>, t: Seq<u8>, done: Seq<Cmd>, p: int)
    requires
        records(cs) + t == bytes,
        torn(t),
        done.len() <= cs.len(),
        done == cs.take(done.len() as int),
        0 <= p <= bytes.len(),
        records(done) == bytes.subrange(0, p),
    ensures
        done.len() < cs.len() ==> occurs_at(bytes, p, record(cs[done.len() as int])),
        done.len() == cs.len() ==> p == records(cs).len() && exists|c: Cmd| #[trigger]
            cut_short(bytes, p, record(c)),
{
    if done.len() < cs.len() {
        lemma_records_at(cs, done.len() as int);
        lemma_occurs_prefix(records(cs), t, p, record(cs[done.len() as int]));
    } else {
        assert(cs.take(cs.len() as int) =~= cs);
        let c = choose|c: Cmd| #[trigger] cut_short(t, 0, record(c));
        assert(bytes.subrange(p, bytes.len() as int) =~= t.subrange(0, t.len() as int));
        assert(t.subrange(0, t.len() as int) =~= t);
        assert(cut_short(bytes, p, record(c)));
    }
}

/// The index and log bookkeeping of the engine.
pub struct LogIndex {
    keys: Vec<String>,
    positions: Vec<CommandPos>,
    log_ids: Vec<u64>,
    current_log: u64,
    writer_pos: u64,
    uncompacted: u64,
    total: u64,
    logs: Ghost<Map<u64, Seq<Cmd>>>,
    bindings: Ghost<Map<Seq<char>, Seq<char>>>,
}

impl View for LogIndex {
    type V = Map<Seq<char>, Seq<char>>;

    /// The bindings the store holds.
    closed spec fn view(&self) -> Map<Seq<char>, Seq<char>> {
        self.bindings@
    }
}

impl LogIndex {
    pub closed spec fn spec_keys(&self) -> Seq<String> {
        self.keys@
    }

    pub closed spec fn spec_positions(&self) -> Seq<CommandPos> {
        self.positions@
    }

    /// The live log files, oldest first; the last one is the active log.
    pub closed spec fn spec_log_ids(&self) -> Seq<u64> {
        self.log_ids@
    }

    /// The commands each live log file holds.
    pub closed spec fn spec_logs(&self) -> Map<u64, Seq<Cmd>> {
        self.logs@
    }

    pub closed spec fn spec_current_log(&self) -> u64 {
        self.current_log
    }

    pub closed spec fn spec_uncompacted(&self) -> u64 {
        self.uncompacted
    }

    /// The bytes in all live log files.
    pub closed spec fn spec_total(&self) -> u64 {
        self.total
    }

    /// The bytes of log file `id`.
    pub open spec fn file(&self, id: u64) -> Seq<u8> {
        records(self.spec_logs()[id])
    }

    /// The commands of all live logs in replay order.
    pub open spec fn history(&self) -> Seq<Cmd> {
        history(self.spec_logs(), self.spec_log_ids())
    }

    /// The record that index entry `i` points at.
    pub open spec fn entry_ok(&self, i: int) -> bool {
        let k = self.spec_keys()[i]@;
        let p = self.spec_positions()[i];
        &&& self@.contains_key(k)
        &&& self.spec_log_ids().contains(p.log_id)
        &&& p.len == record(Cmd::SetKey(k, self@[k])).len()
        &&& occurs_at(self.file(p.log_id), p.pos as int, record(Cmd::SetKey(k, self@[k])))
    }

    pub open spec fn wf(&self) -> bool {
        let keys = self.spec_keys();
        let ids = self.spec_log_ids();
        &&& keys.len() == self.spec_positions().len()
        &&& forall|i: int, j: int| 0 <= i < j < keys.len() ==> keys[i]@ != keys[j]@
        &&& forall|i: int| 0 <= i < keys.len() ==> #[trigger] self.entry_ok(i)
        &&& forall|k: Seq<char>| #[trigger]
            self@.contains_key(k) ==> exists|i: int| 0 <= i < keys.len() && keys[i]@ == k
        &&& ascending(ids)
        &&& forall|i: int| 0 <= i < ids.len() ==> self.spec_logs().contains_key(#[trigger] ids[i])
        &&& ids.len() == 0 ==> self.spec_current_log() == 0
        &&& ids.len() > 0 ==> self.spec_current_log() == ids.last()
        &&& ids.len() == 0 ==> self.spec_writer_pos() == 0
        &&& ids.len() > 0 ==> self.spec_writer_pos() == self.file(self.spec_current_log()).len()
        &&& self@ == apply_all(Map::empty(), self.history())
        &&& self.spec_total() == size(self.spec_logs(), ids)
        &&& self.spec_total() == live(self.spec_positions()) + self.spec_uncompacted()
    }

    /// The offset at which the next record of the active log goes.
    pub closed spec fn spec_writer_pos(&self) -> u64 {
        self.writer_pos
    }

    /// A log is open for writing.
    pub open spec fn has_active(&self) -> bool {
        self.spec_log_ids().len() > 0
    }

    /// The length of the record that holds the binding of `k`, if bound.
    pub open spec fn bound_len(&self, k: Seq<char>) -> int {
        if self@.contains_key(k) {
            record(Cmd::SetKey(k, self@[k])).len() as int
        } else {
            0
        }
    }

    /// An empty index with no log files.
    pub fn new() -> (r: LogIndex)
        ensures
            r.wf(),
            r@ == Map::<Seq<char>, Seq<char>>::empty(),
            r.spec_log_ids().len() == 0,
            r.spec_total() == 0,
            r.spec_uncompacted() == 0,
    {
        LogIndex {
            keys: Vec::new(),
            positions: Vec::new(),
            log_ids: Vec::new(),
            current_log: 0,
            writer_pos: 0,
            uncompacted: 0,
            total: 0,
            logs: Ghost(Map::empty()),
            bindings: Ghost(Map::empty()),
        }
    }

    /// The slot of `key` in the index.
    fn find(&self, key: &String) -> (r: Option<usize>)
        requires
            self.wf(),
        ensures
            r matches Some(i) ==> i < self.keys@.len() && self.keys@[i as int]@ == key@,
            r is None ==> forall|i: int| 0 <= i < self.keys@.len() ==> self.keys@[i]@ != key@,
            r is None <==> !self@.contains_key(key@),
    {
        let r = self.find_in(key);
        proof {
            if let Some(i) = r {
                assert(self.entry_ok(i as int));
            }
        }
        r
    }

    /// Where the record of `key`'s binding lies, if `key` is bound: a `Set`
    /// record of `key` and its current value.
    pub fn lookup(&self, key: &String) -> (r: Option<CommandPos>)
        requires
            self.wf(),
        ensures
            r is Some <==> self@.contains_key(key@),
            r matches Some(p) ==> p == self.index_map()[key@],
            r matches Some(p) ==> self.spec_log_ids().contains(p.log_id) && p.len == record(
                Cmd::SetKey(key@, self@[key@]),
            ).len() && occurs_at(
                self.file(p.log_id),
                p.pos as int,
                record(Cmd::SetKey(key@, self@[key@])),
            ),
    {
        match self.find(key) {
            Some(i) => {
                assert(self.entry_ok(i as int));
                proof {
                    self.lemma_entry_at(i as int);
                }
                Some(self.positions[i])
            },
            None => None,
        }
    }

    /// Records `c`, whose record is `rec_len` bytes long, as appended to the
    /// active log.
    fn append_command(&mut self, c: Command, rec_len: u64)
        requires
            old(self).wf(),
            old(self).has_active(),
            rec_len == record(c@).len(),
            old(self).spec_total() + rec_len <= u64::MAX,
        ensures
            final(self).wf(),
            final(self)@ == apply(old(self)@, c@),
            final(self).spec_log_ids() == old(self).spec_log_ids(),
            final(self).spec_logs() == old(self).spec_logs().insert(
                old(self).spec_current_log(),
                old(self).spec_logs()[old(self).spec_current_log()].push(c@),
            ),
            final(self).spec_total() == old(self).spec_total() + rec_len,
            final(self).index_map() == match c@ {
                Cmd::SetKey(k, _) => old(self).index_map().insert(
                    k,
                    CommandPos {
                        log_id: old(self).spec_current_log(),
                        pos: old(self).spec_writer_pos(),
                        len: rec_len,
                    },
                ),
                Cmd::Rm(k) => old(self).index_map().remove(k),
            },
            final(self).spec_uncompacted() == old(self).spec_uncompacted() + old(self).bound_len(cmd_key(c@)) + (if c@ is Rm {
                rec_len as int
            } else {
                0
            }),
    {
        let ghost o = *old(self);
        let cur = self.current_log;
        let pos = self.writer_pos;
        proof {
            lemma_size_bounds(self.logs@, self.log_ids@);
            lemma_live_bounds(self.positions@);
        }
        let ghost cv = c@;
        self.logs = Ghost(self.logs@.insert(cur, self.logs@[cur].push(cv)));
        self.bindings = Ghost(apply(o.bindings@, cv));
        self.writer_pos = pos + rec_len;
        self.total = self.total + rec_len;
        proof {
            self.lemma_append_common(o, cv);
        }
        match c {
            Command::SetKey { key, value } => {
                let np = CommandPos { log_id: cur, pos, len: rec_len };
                match self.find_in(&key) {
                    Some(i) => {
                        let old_len = self.positions[i].len;
                        assert(o.entry_ok(i as int));
                        assert(old_len <= live(o.positions@));
                        self.uncompacted = self.uncompacted + old_len;
                        self.positions.set(i, np);
                        proof {
                            lemma_live_update(o.positions@, i as int, np);
                            assert forall|j: int| 0 <= j < self.keys@.len() implies #[trigger] self.entry_ok(j) by {
                                if j == i {
                                    self.lemma_entry_new(o, cv, j);
                                } else {
                                    assert(o.keys@[j]@ != o.keys@[i as int]@);
                                    self.lemma_entry_carried(o, cv, j, j);
                                }
                            }
                            assert forall|k2: Seq<char>| #[trigger] self@.contains_key(k2) implies self.entry(k2)
                                == (if k2 == cv->SetKey_0 { np } else { o.entry(k2) }) by {
                                if k2 == cv->SetKey_0 {
                                    self.lemma_entry_at(i as int);
                                } else {
                                    assert(o@.contains_key(k2));
                                    let w = choose|w: int| 0 <= w < o.keys@.len() && o.keys@[w]@ == k2;
                                    o.lemma_entry_at(w);
                                    self.lemma_entry_at(w);
                                }
                            }
                        }
                    },
                    None => {
                        let ghost n = self.keys@.len() as int;
                        self.keys.push(key);
                        self.positions.push(np);
                        proof {
                            lemma_live_push(o.positions@, np);
                            assert forall|j: int| 0 <= j < self.keys@.len() implies #[trigger] self.entry_ok(j) by {
                                if j == n {
                                    self.lemma_entry_new(o, cv, j);
                                } else {
                                    self.lemma_entry_carried(o, cv, j, j);
                                }
                            }
                            assert forall|k: Seq<char>| #[trigger] self@.contains_key(k) implies exists|i: int|
                                0 <= i < self.keys@.len() && self.keys@[i]@ == k by {
                                if k == cv->SetKey_0 {
                                    assert(self.keys@[n]@ == k);
                                } else {
                                    assert(o@.contains_key(k));
                                    let w = choose|i: int| 0 <= i < o.keys@.len() && o.keys@[i]@ == k;
                                    assert(self.keys@[w]@ == k);
                                }
                            }
                            assert forall|a: int, b: int| 0 <= a < b < self.keys@.len() implies self.keys@[a]@
                                != self.keys@[b]@ by {
                                if b == n {
                                    assert(o.keys@[a]@ != cv->SetKey_0);
                                }
                            }
                            assert forall|k2: Seq<char>| #[trigger] self@.contains_key(k2) implies self.entry(k2)
                                == (if k2 == cv->SetKey_0 { np } else { o.entry(k2) }) by {
                                if k2 == cv->SetKey_0 {
                                    self.lemma_entry_at(n);
                                } else {
                                    assert(o@.contains_key(k2));
                                    let w = choose|w: int| 0 <= w < o.keys@.len() && o.keys@[w]@ == k2;
                                    o.lemma_entry_at(w);
                                    self.lemma_entry_at(w);
                                }
                            }
                        }
                    },
                }
            },
            Command::Rm(key) => {
                self.uncompacted = self.uncompacted + rec_len;
                match self.find_in(&key) {
                    Some(i) => {
                        let old_len = self.positions[i].len;
                        assert(o.entry_ok(i as int));
                        assert(old_len <= live(o.positions@));
                        self.uncompacted = self.uncompacted + old_len;
                        self.keys.remove(i);
                        self.positions.remove(i);
                        proof {
                            lemma_live_remove(o.positions@, i as int);
                            assert forall|j: int| 0 <= j < self.keys@.len() implies #[trigger] self.entry_ok(j) by {
                                if j < i {
                                    assert(o.keys@[j]@ != o.keys@[i as int]@);
                                    self.lemma_entry_carried(o, cv, j, j);
                                } else {
                                    assert(o.keys@[j + 1]@ != o.keys@[i as int]@);
                                    self.lemma_entry_carried(o, cv, j + 1, j);
                                }
                            }
                            assert forall|k: Seq<char>| #[trigger] self@.contains_key(k) implies exists|w: int|
                                0 <= w < self.keys@.len() && self.keys@[w]@ == k by {
                                assert(o@.contains_key(k));
                                let w = choose|w: int| 0 <= w < o.keys@.len() && o.keys@[w]@ == k;
                                if w < i {
                                    assert(self.keys@[w]@ == k);
                                } else {
                                    assert(w != i);
                                    assert(self.keys@[w - 1]@ == k);
                                }
                            }
                            assert forall|a: int, b: int| 0 <= a < b < self.keys@.len() implies self.keys@[a]@
                                != self.keys@[b]@ by {
                                let a2 = if a < i { a } else { a + 1 };
                                let b2 = if b < i { b } else { b + 1 };
                                assert(self.keys@[a] == o.keys@[a2]);
                                assert(self.keys@[b] == o.keys@[b2]);
                            }
                            assert forall|k2: Seq<char>| #[trigger] self@.contains_key(k2) implies self.entry(k2)
                                == o.entry(k2) by {
                                assert(o@.contains_key(k2));
                                let w = choose|w: int| 0 <= w < o.keys@.len() && o.keys@[w]@ == k2;
                                o.lemma_entry_at(w);
                                if w < i {
                                    self.lemma_entry_at(w);
                                } else {
                                    assert(w != i);
                                    self.lemma_entry_at(w - 1);
                                }
                            }
                        }
                    },
                    None => {
                        proof {
                            assert(self@ =~= o@);
                            assert forall|j: int| 0 <= j < self.keys@.len() implies #[trigger] self.entry_ok(j) by {
                                self.lemma_entry_carried(o, cv, j, j);
                            }
                            assert forall|k2: Seq<char>| #[trigger] self@.contains_key(k2) implies self.entry(k2)
                                == o.entry(k2) by {}
                        }
                    },
                }
            },
        }
        // The index clauses of well-formedness, whichever way the index changed.
        proof {
            let keys = self.keys@;
            assert(forall|i: int| 0 <= i < keys.len() ==> #[trigger] self.entry_ok(i));
            assert(forall|k: Seq<char>| #[trigger]
                self@.contains_key(k) ==> exists|i: int| 0 <= i < keys.len() && keys[i]@ == k);
            assert(self.total == live(self.positions@) + self.uncompacted);
            let expected = match cv {
                Cmd::SetKey(k, _) => o.index_map().insert(
                    k,
                    CommandPos { log_id: cur, pos, len: rec_len },
                ),
                Cmd::Rm(k) => o.index_map().remove(k),
            };
            assert(self.index_map() =~= expected);
        }
    }

    /// The error for logs that would outgrow the offsets a `u64` can hold.
    fn exhausted() -> (r: KvStoreError)
        ensures
            r is Io,
    {
        KvStoreError::Io(String::from_str("log space exhausted"))
    }

    /// Binds `key` to `value`. Returns the record to append to the active
    /// log, and whether the uncompacted bytes now exceed the compaction
    /// threshold.
    pub fn set(&mut self, key: String, value: String) -> (r: Result<(Vec<u8>, bool)>)
        requires
            old(self).wf(),
            old(self).has_active(),
        ensures
            final(self).wf(),
            old(self).spec_total() + record(Cmd::SetKey(key@, value@)).len() <= u64::MAX <==> r is Ok,
            r matches Ok((rec, compact)) ==> {
                &&& rec@ == record(Cmd::SetKey(key@, value@))
                &&& final(self)@ == old(self)@.insert(key@, value@)
                &&& final(self).spec_log_ids() == old(self).spec_log_ids()
                &&& final(self).spec_logs() == old(self).spec_logs().insert(
                    old(self).spec_current_log(),
                    old(self).spec_logs()[old(self).spec_current_log()].push(
                        Cmd::SetKey(key@, value@),
                    ),
                )
                &&& final(self).spec_uncompacted() == old(self).spec_uncompacted()
                    + old(self).bound_len(key@)
                &&& final(self).spec_total() == old(self).spec_total() + rec@.len()
                &&& final(self).index_map() == old(self).index_map().insert(
                    key@,
                    CommandPos {
                        log_id: old(self).spec_current_log(),
                        pos: old(self).spec_writer_pos(),
                        len: rec@.len() as u64,
                    },
                )
                &&& compact == (final(self).spec_uncompacted() > COMPACTION_THRESHOLD)
            },
            r matches Err(e) ==> e is Io && *final(self) == *old(self),
    {
        let c = Command::SetKey { key, value };
        let rec = encode_command(&c);
        let rec_len = rec.len() as u64;
        if rec_len > u64::MAX - self.total {
            return Err(Self::exhausted());
        }
        self.append_command(c, rec_len);
        let compact = self.uncompacted > COMPACTION_THRESHOLD;
        Ok((rec, compact))
    }

    /// Unbinds `key`. Returns the `Rm` record to append to the active log;
    /// fails with `KeyNotFound`, changing nothing, when `key` is not bound.
    pub fn remove(&mut self, key: String) -> (r: Result<Vec<u8>>)
        requires
            old(self).wf(),
            old(self).has_active(),
        ensures
            final(self).wf(),
            !old(self)@.contains_key(key@) <==> r == Err::<Vec<u8>, KvStoreError>(
                KvStoreError::KeyNotFound,
            ),
            old(self)@.contains_key(key@) && old(self).spec_total() + record(Cmd::Rm(key@)).len()
                <= u64::MAX <==> r is Ok,
            r matches Ok(rec) ==> {
                &&& rec@ == record(Cmd::Rm(key@))
                &&& final(self)@ == old(self)@.remove(key@)
                &&& final(self).spec_log_ids() == old(self).spec_log_ids()
                &&& final(self).spec_logs() == old(self).spec_logs().insert(
                    old(self).spec_current_log(),
                    old(self).spec_logs()[old(self).spec_current_log()].push(Cmd::Rm(key@)),
                )
                &&& final(self).spec_uncompacted() == old(self).spec_uncompacted()
                    + old(self).bound_len(key@) + rec@.len()
                &&& final(self).index_map() == old(self).index_map().remove(key@)
                &&& final(self).spec_total() == old(self).spec_total() + rec@.len()
            },
            r is Err ==> *final(self) == *old(self),
            r matches Err(e) ==> e is KeyNotFound || e is Io,
    {
        if self.find(&key).is_none() {
            return Err(KvStoreError::KeyNotFound);
        }
        let c = Command::Rm(key);
        let rec = encode_command(&c);
        let rec_len = rec.len() as u64;
        if rec_len > u64::MAX - self.total {
            return Err(Self::exhausted());
        }
        self.append_command(c, rec_len);
        Ok(rec)
    }

    /// Adds log `id`, empty, as the active log.
    fn start_log(&mut self, id: u64)
        requires
            old(self).wf(),
            old(self).spec_log_ids().len() == 0 || id > old(self).spec_current_log(),
        ensures
            final(self).wf(),
            final(self)@ == old(self)@,
            final(self).spec_log_ids() == old(self).spec_log_ids().push(id),
            final(self).spec_logs() == old(self).spec_logs().insert(id, Seq::empty()),
            final(self).spec_current_log() == id,
            final(self).spec_total() == old(self).spec_total(),
            final(self).spec_uncompacted() == old(self).spec_uncompacted(),
            final(self).index_map() == old(self).index_map(),
    {
        let ghost o = *old(self);
        self.log_ids.push(id);
        self.logs = Ghost(self.logs@.insert(id, Seq::empty()));
        self.current_log = id;
        self.writer_pos = 0;
        proof {
            let ids = o.log_ids@;
            assert forall|i: int| 0 <= i < ids.len() implies o.logs@[#[trigger] ids[i]] == self.logs@[ids[i]] by {
                if ids.len() > 0 {
                    assert(ids[i] <= ids[ids.len() - 1]);
                }
            }
            lemma_history_frame(o.logs@, self.logs@, ids);
            assert(self.log_ids@.drop_last() =~= ids);
            assert(history(self.logs@, self.log_ids@) =~= history(o.logs@, ids));
            assert forall|i: int, j: int| 0 <= i < j < self.log_ids@.len() implies self.log_ids@[i]
                < self.log_ids@[j] by {
                if j == self.log_ids@.len() - 1 && ids.len() > 0 {
                    assert(ids[i] <= ids[ids.len() - 1]);
                }
            }
            assert forall|i: int| 0 <= i < self.keys@.len() implies #[trigger] self.entry_ok(i) by {
                assert(o.entry_ok(i));
                let lid = o.positions@[i].log_id;
                let w = choose|w: int| 0 <= w < ids.len() && ids[w] == lid;
                assert(self.log_ids@[w] == lid);
                assert(o.logs@[lid] == self.logs@[lid]);
            }
            assert(self.index_map() =~= o.index_map());
            assert(forall|k: Seq<char>| #[trigger] self@.contains_key(k) ==> exists|i: int| 0 <= i
                < self.keys@.len() && self.keys@[i]@ == k);
            self.lemma_wf_intro();
        }
    }

    /// Opens a new, empty active log numbered one above the newest log
    /// (so `1` when there is none). Fails, changing nothing, when the ids
    /// are used up.
    pub fn open_active(&mut self) -> (r: Result<u64>)
        requires
            old(self).wf(),
        ensures
            final(self).wf(),
            old(self).spec_current_log() < u64::MAX <==> r is Ok,
            r matches Ok(id) ==> {
                &&& id == old(self).spec_current_log() + 1
                &&& final(self)@ == old(self)@
                &&& final(self).spec_log_ids() == old(self).spec_log_ids().push(id)
                &&& final(self).spec_logs() == old(self).spec_logs().insert(id, Seq::empty())
                &&& final(self).spec_current_log() == id
                &&& final(self).spec_total() == old(self).spec_total()
                &&& final(self).spec_uncompacted() == old(self).spec_uncompacted()
            },
            r matches Err(e) ==> e is Io && *final(self) == *old(self),
    {
        if self.current_log == u64::MAX {
            return Err(Self::exhausted());
        }
        let id = self.current_log + 1;
        self.start_log(id);
        Ok(id)
    }

    /// Replays log file `id`, whose contents are `bytes`, into the index:
    /// its records are applied in order, and a tail that holds no whole
    /// record is left out. Returns the length of the records taken; the
    /// file is to be cut to that length. Log files are replayed oldest first.
    pub fn replay(&mut self, id: u64, bytes: &[u8]) -> (r: Result<usize>)
        requires
            old(self).wf(),
            old(self).spec_log_ids().len() == 0 || id > old(self).spec_current_log(),
        ensures
            final(self).wf(),
            r matches Ok(n) ==> {
                &&& n <= bytes@.len()
                &&& final(self).spec_log_ids() == old(self).spec_log_ids().push(id)
                &&& final(self).spec_current_log() == id
                &&& final(self).spec_logs() == old(self).spec_logs().insert(
                    id,
                    final(self).spec_logs()[id],
                )
                &&& records(final(self).spec_logs()[id]) == bytes@.subrange(0, n as int)
                &&& torn_command(bytes@, n as int)
                &&& final(self)@ == apply_all(old(self)@, final(self).spec_logs()[id])
                &&& final(self).index_map() == replayed_index(
                    old(self).index_map(),
                    id,
                    final(self).spec_logs()[id],
                )
                &&& final(self).spec_total() == old(self).spec_total() + n
            },
            forall|cs: Seq<Cmd>| #[trigger]
                records(cs) == bytes@ && old(self).spec_total() + bytes@.len() <= u64::MAX ==> (r
                    matches Ok(n) && n == bytes@.len() && final(self).spec_logs()[id] == cs),
            forall|cs: Seq<Cmd>, t: Seq<u8>| #![trigger records(cs) + t]
                records(cs) + t == bytes@ && torn(t) && old(self).spec_total() + bytes@.len()
                    <= u64::MAX ==> (r matches Ok(n) && n == records(cs).len() && final(self).spec_logs()[id]
                    == cs),
    {
        let ghost o = *old(self);
        let blen = bytes.len();
        self.start_log(id);
        let mut p: usize = 0;
        loop
            invariant
                *old(self) == o,
                self.wf(),
                p <= blen == bytes@.len(),
                self.spec_log_ids() == o.spec_log_ids().push(id),
                self.spec_current_log() == id,
                self.spec_logs() == o.spec_logs().insert(id, self.spec_logs()[id]),
                records(self.spec_logs()[id]) == bytes@.subrange(0, p as int),
                self@ == apply_all(o@, self.spec_logs()[id]),
                self.index_map() == replayed_index(o.index_map(), id, self.spec_logs()[id]),
                self.spec_total() == o.spec_total() + p,
                forall|cs: Seq<Cmd>, t: Seq<u8>| #![trigger records(cs) + t]
                    records(cs) + t == bytes@ && torn(t) ==> self.spec_logs()[id].len() <= cs.len()
                        && self.spec_logs()[id] == cs.take(self.spec_logs()[id].len() as int),
            decreases blen - p,
        {
            let ghost done = self.logs@[id];
            proof {
                assert forall|cs: Seq<Cmd>, t: Seq<u8>| #![trigger records(cs) + t]
                    records(cs) + t == bytes@ && torn(t) implies (done.len() < cs.len() ==> occurs_at(
                    bytes@,
                    p as int,
                    record(cs[done.len() as int]),
                )) && (done.len() == cs.len() ==> p == records(cs).len() && exists|c: Cmd| #[trigger]
                    cut_short(bytes@, p as int, record(c))) by {
                    lemma_log_split_step(bytes@, cs, t, done, p as int);
                }
            }
            match parse_command(bytes, p) {
                Ok(Some((c, q))) => {
                    let len = (q - p) as u64;
                    if len > u64::MAX - self.total {
                        proof {
                            assert(o.spec_total() + q > u64::MAX);
                            assert(q <= bytes@.len());
                            assert forall|cs: Seq<Cmd>| #[trigger] records(cs) == bytes@ implies o.spec_total()
                                + bytes@.len() > u64::MAX by {}
                            assert forall|cs: Seq<Cmd>, t: Seq<u8>| #![trigger records(cs) + t]
                                records(cs) + t == bytes@ implies o.spec_total() + bytes@.len() > u64::MAX by {}
                        }
                        return Err(Self::exhausted());
                    }
                    let ghost cv = c@;
                    proof {
                        lemma_records_push(done, cv);
                        assert(bytes@.subrange(0, q as int) =~= bytes@.subrange(0, p as int)
                            + bytes@.subrange(p as int, q as int));
                        lemma_apply_all_push(o@, done, cv);
                    }
                    self.append_command(c, len);
                    proof {
                        assert(self.logs@[id] == done.push(cv));
                        assert(done.push(cv).drop_last() =~= done);
                        assert(self.logs@ =~= o.logs@.insert(id, self.logs@[id]));
                        assert forall|cs: Seq<Cmd>, t: Seq<u8>| #![trigger records(cs) + t]
                            records(cs) + t == bytes@ && torn(t) implies self.logs@[id].len() <= cs.len()
                            && self.logs@[id] == cs.take(self.logs@[id].len() as int) by {
                            if done.len() < cs.len() {
                                assert(cs[done.len() as int] == cv);
                                assert(cs.take(done.len() as int + 1) =~= cs.take(done.len() as int).push(cv));
                            } else {
                                let c0 = choose|c0: Cmd| #[trigger] cut_short(bytes@, p as int, record(c0));
                                assert(false);
                            }
                        }
                    }
                    p = q;
                },
                Ok(None) => {
                    proof {
                        assert forall|cs: Seq<Cmd>, t: Seq<u8>| #![trigger records(cs) + t]
                            records(cs) + t == bytes@ && torn(t) implies p == records(cs).len()
                            && self.logs@[id] == cs by {
                            if done.len() < cs.len() {
                                assert(occurs_at(bytes@, p as int, record(cs[done.len() as int])));
                            }
                            assert(cs.take(cs.len() as int) =~= cs);
                        }
                        assert forall|cs: Seq<Cmd>| #[trigger] records(cs) == bytes@ implies p == blen
                            && self.logs@[id] == cs by {
                            lemma_empty_is_torn();
                            assert(records(cs) + Seq::<u8>::empty() =~= bytes@);
                        }
                    }
                    return Ok(p);
                },
                Err(e) => {
                    proof {
                        assert forall|cs: Seq<Cmd>, t: Seq<u8>| #![trigger records(cs) + t]
                            records(cs) + t == bytes@ && torn(t) implies false by {
                            if done.len() < cs.len() {
                                assert(occurs_at(bytes@, p as int, record(cs[done.len() as int])));
                            } else {
                                let c0 = choose|c0: Cmd| #[trigger] cut_short(bytes@, p as int, record(c0));
                            }
                        }
                        assert forall|cs: Seq<Cmd>| #[trigger] records(cs) == bytes@ implies false by {
                            lemma_empty_is_torn();
                            assert(records(cs) + Seq::<u8>::empty() =~= bytes@);
                        }
                    }
                    return Err(e);
                },
            }
        }
    }

    /// The bytes of record range `p` in this state's log files.
    pub open spec fn range(&self, p: CommandPos) -> Seq<u8> {
        self.file(p.log_id).subrange(p.pos as int, p.pos + p.len)
    }

    /// The ranges `ps`, one after another.
    pub open spec fn ranges(&self, ps: Seq<CommandPos>) -> Seq<u8>
        decreases ps.len(),
    {
        if ps.len() == 0 {
            Seq::empty()
        } else {
            self.ranges(ps.drop_last()) + self.range(ps.last())
        }
    }

    /// Rewrites the live records into a fresh log `target` and moves
    /// writing to a fresh log `active` after it; every older log becomes
    /// stale. Fails, changing nothing, when the ids are used up.
    pub fn compaction(&mut self) -> (r: Result<CompactionPlan>)
        requires
            old(self).wf(),
        ensures
            final(self).wf(),
            old(self).spec_current_log() < u64::MAX - 1 <==> r is Ok,
            r matches Ok(plan) ==> {
                &&& plan.target == old(self).spec_current_log() + 1
                &&& plan.active == old(self).spec_current_log() + 2
                &&& plan.copies@ == old(self).spec_positions()
                &&& plan.stale@ == old(self).spec_log_ids()
                &&& final(self)@ == old(self)@
                &&& final(self).spec_log_ids() == seq![plan.target, plan.active]
                &&& final(self).spec_current_log() == plan.active
                &&& final(self).file(plan.target) == old(self).ranges(plan.copies@)
                &&& final(self).file(plan.active).len() == 0
                &&& final(self).spec_uncompacted() == 0
                &&& final(self).spec_total() == old(self).spec_total() - old(self).spec_uncompacted()
                &&& final(self).spec_keys() == old(self).spec_keys()
                &&& final(self).spec_positions().len() == old(self).spec_positions().len()
                &&& forall|j: int| 0 <= j < old(self).spec_positions().len() ==> #[trigger]
                    final(self).spec_positions()[j] == (CommandPos {
                        log_id: plan.target,
                        pos: live(old(self).spec_positions().take(j)) as u64,
                        len: old(self).spec_positions()[j].len,
                    })
            },
            r matches Err(e) ==> e is Io && *final(self) == *old(self),
    {
        if self.current_log >= u64::MAX - 1 {
            return Err(Self::exhausted());
        }
        let ghost o = *old(self);
        let target = self.current_log + 1;
        let active = self.current_log + 2;
        let n = self.positions.len();
        let mut copies: Vec<CommandPos> = Vec::new();
        let mut moved: Vec<CommandPos> = Vec::new();
        let mut offset: u64 = 0;
        let ghost mut cmds: Seq<Cmd> = Seq::empty();
        let ghost mut acc: Map<Seq<char>, Seq<char>> = Map::empty();
        proof {
            lemma_live_bounds(o.positions@);
            lemma_size_bounds(o.logs@, o.log_ids@);
        }
        let mut i: usize = 0;
        while i < n
            invariant
                *old(self) == o,
                *self == o,
                o.wf(),
                n == o.positions@.len(),
                i <= n,
                copies@ == o.positions@.take(i as int),
                moved@.len() == i,
                cmds.len() == i,
                offset == records(cmds).len(),
                offset == live(o.positions@.take(i as int)),
                live(moved@) == offset,
                records(cmds) == o.ranges(copies@),
                forall|j: int| 0 <= j < i ==> #[trigger] cmds[j] == Cmd::SetKey(
                    o.keys@[j]@,
                    o@[o.keys@[j]@],
                ),
                forall|j: int| 0 <= j < i ==> (#[trigger] moved@[j]).log_id == target && moved@[j].len
                    == o.positions@[j].len && occurs_at(records(cmds), moved@[j].pos as int, record(cmds[j])),
                forall|j: int| 0 <= j < i ==> (#[trigger] moved@[j]).pos == live(o.positions@.take(j)),
                apply_all(Map::empty(), cmds) == acc,
                forall|k: Seq<char>| #[trigger] acc.contains_key(k) <==> exists|j: int| 0 <= j < i && o.keys@[j]@ == k,
                forall|k: Seq<char>| #[trigger] acc.contains_key(k) ==> acc[k] == o@[k],
            decreases n - i,
        {
            let p = self.positions[i];
            let ghost k = o.keys@[i as int]@;
            let ghost c = Cmd::SetKey(k, o@[k]);
            proof {
                assert(o.entry_ok(i as int));
                lemma_live_take(o.positions@, i as int);
                assert(o.range(p) == record(c));
            }
            let np = CommandPos { log_id: target, pos: offset, len: p.len };
            let ghost moved_before = moved@;
            copies.push(p);
            moved.push(np);
            proof {
                let old_cmds = cmds;
                lemma_records_push(old_cmds, c);
                lemma_live_push(moved_before, np);
                assert(moved_before.push(np) =~= moved@);
                assert(copies@.drop_last() =~= o.positions@.take(i as int));
                assert(copies@ =~= o.positions@.take(i + 1));
                assert(o.ranges(copies@) == o.ranges(copies@.drop_last()) + o.range(p));
                lemma_apply_all_push(Map::empty(), old_cmds, c);
                cmds = old_cmds.push(c);
                acc = acc.insert(k, o@[k]);
                let f = records(cmds);
                assert forall|j: int| 0 <= j < i + 1 implies (#[trigger] moved@[j]).log_id == target
                    && moved@[j].len == o.positions@[j].len && occurs_at(f, moved@[j].pos as int, record(cmds[j])) by {
                    if j < i {
                        lemma_occurs_prefix(records(old_cmds), record(c), moved@[j].pos as int, record(cmds[j]));
                    } else {
                        assert(f.subrange(offset as int, f.len() as int) =~= record(c));
                    }
                }
                assert forall|j: int| 0 <= j < i + 1 implies (#[trigger] moved@[j]).pos == live(
                    o.positions@.take(j),
                ) by {
                    if j < i {
                        assert(moved@[j] == moved_before[j]);
                    }
                }
                assert forall|k2: Seq<char>| #[trigger] acc.contains_key(k2) <==> exists|j: int| 0 <= j < i + 1 && o.keys@[j]@ == k2 by {
                    if k2 == k {
                        assert(o.keys@[i as int]@ == k2);
                    }
                }
            }
            offset = offset + p.len;
            i = i + 1;
        }
        proof {
            assert(copies@ =~= o.positions@);
            assert(o.positions@.take(n as int) =~= o.positions@);
            assert(acc =~= o@) by {
                assert forall|k: Seq<char>| acc.contains_key(k) <==> o@.contains_key(k) by {
                    if o@.contains_key(k) {
                        let w = choose|w: int| 0 <= w < o.keys@.len() && o.keys@[w]@ == k;
                        assert(exists|j: int| 0 <= j < n && o.keys@[j]@ == k);
                    }
                    if acc.contains_key(k) {
                        let w = choose|w: int| 0 <= w < n && o.keys@[w]@ == k;
                        assert(o.entry_ok(w));
                    }
                }
            }
        }
        let stale = self.log_ids();
        self.log_ids = vec![target, active];
        self.positions = moved;
        self.current_log = active;
        self.writer_pos = 0;
        self.uncompacted = 0;
        self.total = offset;
        self.logs = Ghost(Map::empty().insert(target, cmds).insert(active, Seq::empty()));
        proof {
            let ids = self.log_ids@;
            assert(ids.drop_last() =~= seq![target]);
            assert(ids.drop_last().drop_last() =~= Seq::<u64>::empty());
            let one = ids.drop_last();
            assert(history(self.logs@, one.drop_last()) == Seq::<Cmd>::empty());
            assert(history(self.logs@, one) == history(self.logs@, one.drop_last()) + cmds);
            assert(history(self.logs@, ids) == history(self.logs@, one) + Seq::<Cmd>::empty());
            assert(history(self.logs@, ids) =~= cmds);
            assert(size(self.logs@, one.drop_last()) == 0);
            assert(size(self.logs@, one) == records(cmds).len());
            assert(records(Seq::<Cmd>::empty()).len() == 0);
            assert(size(self.logs@, ids) == records(cmds).len());
            assert(self.log_ids@.contains(target)) by {
                assert(self.log_ids@[0] == target);
            }
            assert forall|j: int| 0 <= j < self.keys@.len() implies #[trigger] self.entry_ok(j) by {
                assert(o.entry_ok(j));
            }
            assert(self.ranges(seq![]) == Seq::<u8>::empty());
            let keys = self.keys@;
            assert(keys.len() == self.positions@.len());
            assert(forall|i: int, j: int| 0 <= i < j < keys.len() ==> keys[i]@ != keys[j]@);
            assert(forall|k: Seq<char>| #[trigger]
                self@.contains_key(k) ==> exists|i: int| 0 <= i < keys.len() && keys[i]@ == k);
            assert(ascending(ids));
            assert(forall|i: int| 0 <= i < ids.len() ==> self.logs@.contains_key(#[trigger] ids[i]));
            assert(self.current_log == ids.last());
            assert(self.writer_pos == self.file(self.current_log).len());
            assert(self@ == apply_all(Map::empty(), self.history()));
            assert(self.total == size(self.logs@, ids));
            assert(self.total == live(self.positions@) + self.uncompacted);
            self.lemma_wf_intro();
        }
        Ok(CompactionPlan { target, active, copies, stale })
    }

    /// Opens a store from its log files, oldest first: replays each, then
    /// opens a new active log one above the newest. Returns the index and,
    /// per file, the length of its whole records: the file is to be cut to
    /// that length. Fails when the ids do not rise strictly, a file holds a
    /// malformed record, or the ids or offsets run out.
    #[verifier::rlimit(100)]
    pub fn open(files: &Vec<LogFile>) -> (r: Result<(LogIndex, Vec<usize>)>)
        ensures
            r matches Ok((s, lens)) ==> {
                &&& s.wf()
                &&& s.has_active()
                &&& s.spec_current_log() == (if files@.len() == 0 {
                    1
                } else {
                    files@.last().id + 1
                })
                &&& s.spec_log_ids() == file_ids(files@).push(s.spec_current_log())
                &&& s.spec_logs()[s.spec_current_log()] == Seq::<Cmd>::empty()
                &&& s@ == replayed(s.spec_logs(), file_ids(files@))
                &&& lens@.len() == files@.len()
                &&& forall|i: int| 0 <= i < files@.len() ==> lens@[i] <= files@[i].bytes@.len()
                    && records(s.spec_logs()[files@[i].id]) == files@[i].bytes@.subrange(0, lens@[i] as int)
                    && torn_command(files@[i].bytes@, lens@[i] as int)
                &&& forall|i: int, cs: Seq<Cmd>, t: Seq<u8>| #![trigger files@[i], records(cs) + t]
                    0 <= i < files@.len() && records(cs) + t == files@[i].bytes@ && torn(t) && files_size(files@)
                        <= u64::MAX ==> s.spec_logs()[files@[i].id] == cs
            },
            ascending(file_ids(files@)) && well_logged(files@) && files_size(files@) <= u64::MAX && (
            files@.len() == 0 || files@.last().id < u64::MAX) ==> r is Ok,
    {
        let mut s = LogIndex::new();
        let mut lens: Vec<usize> = Vec::new();
        let n = files.len();
        let mut i: usize = 0;
        while i < n
            invariant
                n == files@.len(),
                i <= n,
                s.wf(),
                s.spec_log_ids() == file_ids(files@).take(i as int),
                s@ == replayed(s.spec_logs(), s.spec_log_ids()),
                i > 0 ==> s.spec_current_log() == files@[i - 1].id,
                s.spec_total() <= files_size(files@.take(i as int)),
                lens@.len() == i,
                forall|j: int| 0 <= j < i ==> lens@[j] <= files@[j].bytes@.len() && records(
                    s.spec_logs()[files@[j].id],
                ) == files@[j].bytes@.subrange(0, lens@[j] as int) && torn_command(files@[j].bytes@, lens@[j] as int),
                forall|j: int, cs: Seq<Cmd>, t: Seq<u8>| #![trigger files@[j], records(cs) + t]
                    0 <= j < i && records(cs) + t == files@[j].bytes@ && torn(t) && files_size(files@)
                        <= u64::MAX ==> s.spec_logs()[files@[j].id] == cs,
            decreases n - i,
        {
            let f = &files[i];
            if i > 0 && f.id <= files[i - 1].id {
                proof {
                    assert(file_ids(files@)[i - 1] == files@[i - 1].id);
                    assert(file_ids(files@)[i as int] == files@[i as int].id);
                }
                return Err(Self::exhausted_order());
            }
            let ghost before = s;
            proof {
                if i > 0 {
                    assert(file_ids(files@).take(i as int).last() == files@[i - 1].id);
                }
                lemma_files_size_take(files@, i as int);
            }
            proof {
                if ascending(file_ids(files@)) && well_logged(files@) && files_size(files@) <= u64::MAX {
                    assert(files@[i as int] == *f);
                    let (cs, t) = choose|cs: Seq<Cmd>, t: Seq<u8>| #[trigger] (records(cs) + t)
                        == files@[i as int].bytes@ && torn(t);
                    assert(records(cs) + t == f.bytes@);
                }
                assert(ascending(file_ids(files@).take(i + 1))) by {
                    if i > 0 {
                        let ids = file_ids(files@).take(i + 1);
                        assert forall|a: int, b: int| 0 <= a < b < ids.len() implies ids[a] < ids[b] by {
                            assert(ids[a] == before.spec_log_ids()[a] || a == i);
                            if b == i && a < i {
                                assert(before.spec_log_ids()[a] <= before.spec_log_ids().last());
                            }
                        }
                    }
                }
            }
            let len = s.replay(f.id, f.bytes.as_slice())?;
            proof {
                lemma_open_step(before, s, files@, i as int, files_size(files@) <= u64::MAX);
                assert forall|j: int| 0 <= j < i implies #[trigger] s.spec_logs()[files@[j].id]
                    == before.spec_logs()[files@[j].id] by {}
                assert(files@[i as int] == *f);
            }
            lens.push(len);
            i = i + 1;
        }
        let ghost replayed_all = s;
        proof {
            assert(file_ids(files@).take(n as int) =~= file_ids(files@));
            if n > 0 {
                assert(file_ids(files@)[n - 1] == files@[n - 1].id);
            }
        }
        let active = match s.open_active() {
            Ok(a) => a,
            Err(e) => return Err(e),
        };
        proof {
            let ids = file_ids(files@);
            assert forall|j: int| 0 <= j < ids.len() implies replayed_all.spec_logs()[#[trigger] ids[j]]
                == s.spec_logs()[ids[j]] by {
                assert(ids[j] <= ids[ids.len() - 1]);
            }
            lemma_history_frame(replayed_all.spec_logs(), s.spec_logs(), ids);
            lemma_replayed_history(replayed_all.spec_logs(), ids);
            lemma_replayed_history(s.spec_logs(), ids);
            assert forall|j: int| 0 <= j < n implies #[trigger] s.spec_logs()[files@[j].id]
                == replayed_all.spec_logs()[files@[j].id] by {
                assert(ids[j] == files@[j].id);
                assert(ids[j] <= ids[ids.len() - 1]);
            }
        }
        Ok((s, lens))
    }

    /// The error for log files listed out of order.
    fn exhausted_order() -> (r: KvStoreError)
        ensures
            r is Io,
    {
        KvStoreError::Io(String::from_str("log files out of order"))
    }

    /// The newest log, if any.
    pub fn current_log(&self) -> (r: Option<u64>)
        requires
            self.wf(),
        ensures
            r is None <==> self.spec_log_ids().len() == 0,
            r matches Some(id) ==> id == self.spec_current_log() && id == self.spec_log_ids().last(),
    {
        if self.log_ids.len() == 0 {
            None
        } else {
            Some(self.current_log)
        }
    }

    /// The live log ids, oldest first.
    pub fn log_ids(&self) -> (r: Vec<u64>)
        ensures
            r@ == self.spec_log_ids(),
    {
        let mut out: Vec<u64> = Vec::new();
        let mut i: usize = 0;
        while i < self.log_ids.len()
            invariant
                i <= self.log_ids@.len(),
                out@ == self.log_ids@.take(i as int),
            decreases self.log_ids@.len() - i,
        {
            out.push(self.log_ids[i]);
            i = i + 1;
            assert(out@ =~= self.log_ids@.take(i as int));
        }
        assert(out@ =~= self.log_ids@);
        out
    }

    /// How many more bytes the logs can take: `set` and `remove` succeed
    /// on a record no longer than this.
    pub fn room(&self) -> (r: u64)
        ensures
            r == u64::MAX - self.spec_total(),
    {
        u64::MAX - self.total
    }

    /// The target and active log ids the next compaction takes, or `None`
    /// when the ids are used up and it would fail.
    pub fn compaction_ids(&self) -> (r: Option<(u64, u64)>)
        ensures
            r is Some <==> self.spec_current_log() < u64::MAX - 1,
            r matches Some((t, a)) ==> t == self.spec_current_log() + 1 && a == self.spec_current_log()
                + 2,
    {
        if self.current_log >= u64::MAX - 1 {
            None
        } else {
            Some((self.current_log + 1, self.current_log + 2))
        }
    }

    /// The bytes a compaction would reclaim.
    pub fn uncompacted(&self) -> (r: u64)
        ensures
            r == self.spec_uncompacted(),
    {
        self.uncompacted
    }

    /// The position the index holds for key `k`, when `k` is bound.
    pub closed spec fn entry(&self, k: Seq<char>) -> CommandPos {
        self.positions@[choose|i: int| 0 <= i < self.keys@.len() && self.keys@[i]@ == k]
    }

    /// The index: each bound key with the position of its record.
    pub open spec fn index_map(&self) -> Map<Seq<char>, CommandPos> {
        Map::new(|k: Seq<char>| self@.contains_key(k), |k: Seq<char>| self.entry(k))
    }

    proof fn lemma_entry_at(&self, i: int)
        requires
            self.keys@.len() == self.positions@.len(),
            forall|a: int, b: int| 0 <= a < b < self.keys@.len() ==> self.keys@[a]@ != self.keys@[b]@,
            0 <= i < self.keys@.len(),
        ensures
            self.entry(self.keys@[i]@) == self.positions@[i],
    {
        let k = self.keys@[i]@;
        let j = choose|j: int| 0 <= j < self.keys@.len() && self.keys@[j]@ == k;
        assert(0 <= j < self.keys@.len() && self.keys@[j]@ == k);
        if j < i {
            assert(self.keys@[j]@ != self.keys@[i]@);
        } else if i < j {
            assert(self.keys@[i]@ != self.keys@[j]@);
        }
    }

    /// `find` on a state whose index part is well formed.
    fn find_in(&self, key: &String) -> (r: Option<usize>)
        requires
            self.keys@.len() == self.positions@.len(),
            forall|i: int, j: int| 0 <= i < j < self.keys@.len() ==> self.keys@[i]@ != self.keys@[j]@,
        ensures
            r matches Some(i) ==> i < self.keys@.len() && self.keys@[i as int]@ == key@,
            r is None ==> forall|i: int| 0 <= i < self.keys@.len() ==> self.keys@[i]@ != key@,
    {
        let mut i: usize = 0;
        while i < self.keys.len()
            invariant
                i <= self.keys@.len(),
                forall|j: int| 0 <= j < i ==> self.keys@[j]@ != key@,
            decreases self.keys@.len() - i,
        {
            if self.keys[i].eq(key) {
                return Some(i);
            }
            i = i + 1;
        }
        None
    }

    proof fn lemma_wf_intro(&self)
        requires
            self.keys@.len() == self.positions@.len(),
            forall|i: int, j: int| 0 <= i < j < self.keys@.len() ==> self.keys@[i]@ != self.keys@[j]@,
            forall|i: int| 0 <= i < self.keys@.len() ==> #[trigger] self.entry_ok(i),
            forall|k: Seq<char>| #[trigger]
                self@.contains_key(k) ==> exists|i: int| 0 <= i < self.keys@.len() && self.keys@[i]@ == k,
            ascending(self.log_ids@),
            forall|i: int| 0 <= i < self.log_ids@.len() ==> self.logs@.contains_key(#[trigger] self.log_ids@[i]),
            self.log_ids@.len() == 0 ==> self.current_log == 0 && self.writer_pos == 0,
            self.log_ids@.len() > 0 ==> self.current_log == self.log_ids@.last()
                && self.writer_pos == self.file(self.current_log).len(),
            self@ == apply_all(Map::empty(), self.history()),
            self.total == size(self.logs@, self.log_ids@),
            self.total == live(self.positions@) + self.uncompacted,
        ensures
            self.wf(),
    {
    }

    /// The parts of well-formedness that an append to the active log keeps
    /// whatever it does to the index.
    proof fn lemma_append_common(&self, o: LogIndex, c: Cmd)
        requires
            o.wf(),
            o.has_active(),
            self.log_ids@ == o.log_ids@,
            self.current_log == o.current_log,
            self.logs@ == o.logs@.insert(o.current_log, o.logs@[o.current_log].push(c)),
            self.bindings@ == apply(o.bindings@, c),
            self.writer_pos == o.writer_pos + record(c).len(),
            self.total == o.total + record(c).len(),
        ensures
            ascending(self.log_ids@),
            forall|i: int| 0 <= i < self.log_ids@.len() ==> self.logs@.contains_key(#[trigger] self.log_ids@[i]),
            self.current_log == self.log_ids@.last(),
            self.writer_pos == self.file(self.current_log).len(),
            self@ == apply_all(Map::empty(), self.history()),
            self.total == size(self.logs@, self.log_ids@),
            forall|id: u64| #[trigger] self.file(id) == if id == o.current_log {
                o.file(id) + record(c)
            } else {
                o.file(id)
            },
    {
        let ids = o.log_ids@;
        let cur = o.current_log;
        let pre = ids.drop_last();
        assert forall|i: int| 0 <= i < pre.len() implies o.logs@[#[trigger] pre[i]] == self.logs@[pre[i]] by {
            assert(pre[i] == ids[i]);
            assert(ids[i] < ids[ids.len() - 1]);
        }
        lemma_history_frame(o.logs@, self.logs@, pre);
        assert(history(self.logs@, ids) == history(o.logs@, ids).push(c));
        lemma_apply_all_push(Map::empty(), history(o.logs@, ids), c);
        lemma_records_push(o.logs@[cur], c);
        assert forall|id: u64| #[trigger] self.file(id) == if id == o.current_log {
            o.file(id) + record(c)
        } else {
            o.file(id)
        } by {
            if id == cur {
                lemma_records_push(o.logs@[cur], c);
            }
        }
    }

    /// An index entry kept through an append stays correct.
    proof fn lemma_entry_carried(&self, o: LogIndex, c: Cmd, i: int, j: int)
        requires
            o.wf(),
            o.has_active(),
            0 <= i < o.keys@.len(),
            0 <= j < self.keys@.len(),
            self.keys@.len() == self.positions@.len(),
            self.keys@[j]@ == o.keys@[i]@,
            self.positions@[j] == o.positions@[i],
            self.bindings@ == apply(o.bindings@, c),
            o.keys@[i]@ != cmd_key(c),
            self.log_ids@ == o.log_ids@,
            forall|id: u64| #[trigger] self.file(id) == if id == o.current_log {
                o.file(id) + record(c)
            } else {
                o.file(id)
            },
        ensures
            self.entry_ok(j),
    {
        assert(o.entry_ok(i));
        let p = o.positions@[i];
        let k = o.keys@[i]@;
        assert(self@.contains_key(k) && self@[k] == o@[k]);
        if p.log_id == o.current_log {
            lemma_occurs_prefix(o.file(p.log_id), record(c), p.pos as int, record(Cmd::SetKey(k, o@[k])));
        }
    }

    /// The entry of the `Set` record just appended is correct.
    proof fn lemma_entry_new(&self, o: LogIndex, c: Cmd, j: int)
        requires
            o.wf(),
            o.has_active(),
            c is SetKey,
            0 <= j < self.keys@.len(),
            self.keys@.len() == self.positions@.len(),
            self.keys@[j]@ == c->SetKey_0,
            self.positions@[j].log_id == o.current_log,
            self.positions@[j].pos == o.writer_pos,
            self.positions@[j].len == record(c).len(),
            self.bindings@ == apply(o.bindings@, c),
            self.log_ids@ == o.log_ids@,
            forall|id: u64| #[trigger] self.file(id) == if id == o.current_log {
                o.file(id) + record(c)
            } else {
                o.file(id)
            },
        ensures
            self.entry_ok(j),
    {
        let cur = o.current_log;
        let f = self.file(cur);
        assert(f.subrange(o.writer_pos as int, f.len() as int) =~= record(c));
        assert(self.log_ids@[self.log_ids@.len() - 1] == cur);
        assert(self.log_ids@.contains(cur));
        assert(self@.contains_key(c->SetKey_0) && self@[c->SetKey_0] == c->SetKey_1);
        assert(c == Cmd::SetKey(c->SetKey_0, c->SetKey_1));
    }
}

/// One step of a store on its bindings: a command, which is what `set`
/// and `remove` do, or a compaction (`None`), which keeps them.
pub open spec fn step(m: Map<Seq<char>, Seq<char>>, s: Option<Cmd>) -> Map<Seq<char>, Seq<char>> {
    match s {
        Some(c) => apply(m, c),
        None => m,
    }
}

/// The bindings after steps taken in order.
pub open spec fn run(m: Map<Seq<char>, Seq<char>>, steps: Seq<Option<Cmd>>) -> Map<Seq<char>, Seq<char>>
    decreases steps.len(),
{
    if steps.len() == 0 {
        m
    } else {
        step(run(m, steps.drop_last()), steps.last())
    }
}

/// No command among `steps` is about key `k`.
pub open spec fn untouched(steps: Seq<Option<Cmd>>, k: Seq<char>) -> bool {
    forall|i: int| 0 <= i < steps.len() ==> (#[trigger] steps[i] matches Some(c) ==> cmd_key(c) != k)
}

/// After `set(k, v)`, the key reads `v` through any later commands on
/// other keys and any compactions.
pub proof fn lemma_get_after_set(
    m: Map<Seq<char>, Seq<char>>,
    k: Seq<char>,
    v: Seq<char>,
    later: Seq<Option<Cmd>>,
)
    requires
        untouched(later, k),
    ensures
        run(apply(m, Cmd::SetKey(k, v)), later).contains_key(k),
        run(apply(m, Cmd::SetKey(k, v)), later)[k] == v,
    decreases later.len(),
{
    if later.len() > 0 {
        lemma_get_after_set(m, k, v, later.drop_last());
        assert(later[later.len() - 1] == later.last());
    }
}

/// After `remove(k)`, the key is absent through any later commands on
/// other keys and any compactions; a second `remove(k)` then finds it
/// unbound, which `remove` reports as `KeyNotFound`.
pub proof fn lemma_absent_after_remove(m: Map<Seq<char>, Seq<char>>, k: Seq<char>, later: Seq<Option<Cmd>>)
    requires
        untouched(later, k),
    ensures
        !run(apply(m, Cmd::Rm(k)), later).contains_key(k),
    decreases later.len(),
{
    if later.len() > 0 {
        lemma_absent_after_remove(m, k, later.drop_last());
        assert(later[later.len() - 1] == later.last());
    }
}

/// Steps run one after another: the first, then the rest.
proof fn lemma_run_first(m: Map<Seq<char>, Seq<char>>, steps: Seq<Option<Cmd>>)
    requires
        steps.len() > 0,
    ensures
        run(m, steps) == run(step(m, steps[0]), steps.drop_first()),
    decreases steps.len(),
{
    if steps.len() > 1 {
        lemma_run_first(m, steps.drop_last());
        assert(steps.drop_last().drop_first() =~= steps.drop_first().drop_last());
        assert(steps.drop_last()[0] == steps[0]);
        assert(steps.drop_first().last() == steps.last());
        assert(run(step(m, steps[0]), steps.drop_first()) == step(
            run(step(m, steps[0]), steps.drop_first().drop_last()),
            steps.drop_first().last(),
        ));
    } else {
        assert(steps.drop_first().len() == 0);
        assert(steps.drop_last().len() == 0);
        assert(run(m, steps.drop_last()) == m);
        assert(steps.last() == steps[0]);
    }
}

/// The states a store passes through, each call taking one step: `set`
/// and `remove` apply their command, `compaction` keeps the bindings.
pub open spec fn calls_follow(states: Seq<LogIndex>, steps: Seq<Option<Cmd>>) -> bool {
    &&& states.len() == steps.len() + 1
    &&& forall|i: int| 0 <= i < steps.len() ==> #[trigger] states[i + 1]@ == step(states[i]@, steps[i])
}

proof fn lemma_calls_run(states: Seq<LogIndex>, steps: Seq<Option<Cmd>>)
    requires
        calls_follow(states, steps),
    ensures
        states.last()@ == run(states[0]@, steps),
    decreases steps.len(),
{
    if steps.len() > 0 {
        let n = steps.len() - 1;
        assert(calls_follow(states.drop_last(), steps.drop_last())) by {
            assert forall|i: int| 0 <= i < steps.drop_last().len() implies #[trigger] states.drop_last()[i + 1]@
                == step(states.drop_last()[i]@, steps.drop_last()[i]) by {
                assert(states[i + 1]@ == step(states[i]@, steps[i]));
            }
        }
        lemma_calls_run(states.drop_last(), steps.drop_last());
        assert(states[n + 1]@ == step(states[n]@, steps[n]));
    }
}

/// Over a store's calls: after `set(k, v)`, through any calls of `set` and
/// `remove` on other keys and any compactions, the store binds `k` to `v`
/// (so `lookup` finds its record and `read_value` gives `v`).
pub proof fn lemma_set_then_get_calls(states: Seq<LogIndex>, steps: Seq<Option<Cmd>>, k: Seq<char>, v: Seq<char>)
    requires
        calls_follow(states, steps),
        steps.len() > 0,
        steps[0] == Some(Cmd::SetKey(k, v)),
        untouched(steps.drop_first(), k),
    ensures
        states.last()@.contains_key(k),
        states.last()@[k] == v,
{
    lemma_calls_run(states, steps);
    lemma_run_first(states[0]@, steps);
    lemma_get_after_set(states[0]@, k, v, steps.drop_first());
}

/// Over a store's calls: after `remove(k)`, through any calls on other keys
/// and any compactions, `k` is unbound, so `lookup` finds nothing and a
/// further `remove(k)` reports `KeyNotFound`.
pub proof fn lemma_remove_then_absent_calls(states: Seq<LogIndex>, steps: Seq<Option<Cmd>>, k: Seq<char>)
    requires
        calls_follow(states, steps),
        steps.len() > 0,
        steps[0] == Some(Cmd::Rm(k)),
        untouched(steps.drop_first(), k),
    ensures
        !states.last()@.contains_key(k),
{
    lemma_calls_run(states, steps);
    lemma_run_first(states[0]@, steps);
    lemma_absent_after_remove(states[0]@, k, steps.drop_first());
}

/// The compaction that follows the `set` crossing the threshold leaves
/// fewer bytes in the log files than there were before that `set`, when
/// the set's record is no longer than the threshold.
pub proof fn lemma_set_then_compaction_shrinks(before: LogIndex, mid: LogIndex, after: LogIndex, rec_len: int)
    requires
        mid.spec_total() == before.spec_total() + rec_len,
        mid.spec_uncompacted() > COMPACTION_THRESHOLD,
        rec_len <= COMPACTION_THRESHOLD,
        after.spec_total() == mid.spec_total() - mid.spec_uncompacted(),
    ensures
        after.spec_total() < before.spec_total(),
{
}

/// The bindings after replaying the logs `ids`, oldest first, into an
/// empty index, each replay applying that log's commands.
pub open spec fn replayed(logs: Map<u64, Seq<Cmd>>, ids: Seq<u64>) -> Map<Seq<char>, Seq<char>>
    decreases ids.len(),
{
    if ids.len() == 0 {
        Map::empty()
    } else {
        apply_all(replayed(logs, ids.drop_last()), logs[ids.last()])
    }
}

proof fn lemma_replayed_history(logs: Map<u64, Seq<Cmd>>, ids: Seq<u64>)
    ensures
        replayed(logs, ids) == apply_all(Map::empty(), history(logs, ids)),
    decreases ids.len(),
{
    if ids.len() > 0 {
        lemma_replayed_history(logs, ids.drop_last());
        lemma_apply_all_concat(Map::empty(), history(logs, ids.drop_last()), logs[ids.last()]);
    }
}

/// Opening replays the same logs as the store had: when every live log of
/// `s` is read back whole, `open` gives back `s`'s bindings.
pub proof fn lemma_open_restores(s: LogIndex, s2: LogIndex)
    requires
        s.wf(),
        s2@ == replayed(s2.spec_logs(), s.spec_log_ids()),
        forall|i: int| 0 <= i < s.spec_log_ids().len() ==> s2.spec_logs()[#[trigger] s.spec_log_ids()[i]]
            == s.spec_logs()[s.spec_log_ids()[i]],
    ensures
        s2@ == s@,
{
    lemma_history_frame(s.spec_logs(), s2.spec_logs(), s.spec_log_ids());
    lemma_replayed_history(s.spec_logs(), s.spec_log_ids());
    lemma_replayed_history(s2.spec_logs(), s.spec_log_ids());
}

/// Closing and reopening keeps the bindings: replaying a store's log
/// files, oldest first, into an empty index gives back its bindings.
pub proof fn lemma_reopen_restores(s: LogIndex)
    requires
        s.wf(),
    ensures
        replayed(s.spec_logs(), s.spec_log_ids()) == s@,
        forall|i: int| 0 <= i < s.spec_log_ids().len() ==> s.spec_logs().contains_key(#[trigger] s.spec_log_ids()[i]),
        ascending(s.spec_log_ids()),
{
    lemma_replayed_history(s.spec_logs(), s.spec_log_ids());
}

/// The active log is the newest: its id exceeds that of every other live
/// log.
pub proof fn lemma_active_is_newest(s: LogIndex)
    requires
        s.wf(),
        s.has_active(),
    ensures
        s.spec_current_log() == s.spec_log_ids().last(),
        forall|i: int| 0 <= i < s.spec_log_ids().len() - 1 ==> #[trigger] s.spec_log_ids()[i]
            < s.spec_current_log(),
{
}

} // verus!
