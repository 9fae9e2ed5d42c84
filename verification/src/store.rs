//! The engine: in-memory index, read path, write path, replay and
//! compaction.

use vstd::prelude::*;
use crate::chars::chars_eq;
use crate::chars::chars_of;
use crate::codec::encode;
use crate::codec::lemma_parse_all_append;
use crate::codec::lemma_parse_cmd_encode;
use crate::codec::lemma_parse_cmd_extend;
use crate::codec::parse_all_from;
use crate::codec::parse_cmd;
use crate::codec::ws_len;
use crate::command::Command;
use crate::command::CommandModel;
use crate::errors::Error;
use crate::log::Log;
use crate::log::LogPointer;
use crate::log::LogReplay;

verus! {

// ---------------------------------------------------------------------------
// The in-memory index
// ---------------------------------------------------------------------------

/// A mapping from key to log offset: each key with the offset of the
/// latest `Set` record written for it. Kept as an association list with
/// distinct keys, together with the map it stands for.
pub struct Index {
    entries: Vec<(Vec<char>, u64)>,
    m: Ghost<Map<Seq<char>, int>>,
}

impl View for Index {
    type V = Map<Seq<char>, int>;

    closed spec fn view(&self) -> Map<Seq<char>, int> {
        self.m@
    }
}

impl Index {
    pub closed spec fn wf(self) -> bool {
        &&& forall|i: int, j: int|
            0 <= i < j < self.entries@.len() ==> self.entries@[i].0@ != self.entries@[j].0@
        &&& forall|i: int|
            #![trigger self.entries@[i]]
            0 <= i < self.entries@.len() ==> self.m@.contains_key(self.entries@[i].0@)
                && self.m@[self.entries@[i].0@] == self.entries@[i].1 as int
        &&& forall|k: Seq<char>|
            #[trigger] self.m@.contains_key(k) ==> exists|i: int|
                0 <= i < self.entries@.len() && #[trigger] self.entries@[i].0@ == k
    }

    /// An empty index.
    pub fn new() -> (r: Index)
        ensures
            r.wf(),
            r@ == Map::<Seq<char>, int>::empty(),
    {
        Index { entries: Vec::new(), m: Ghost(Map::empty()) }
    }

    /// The position of the entry for `k`, if one exists.
    fn find(&self, k: &Vec<char>) -> (r: Option<usize>)
        requires
            self.wf(),
        ensures
            match r {
                Some(i) => i < self.entries@.len() && self.entries@[i as int].0@ == k@,
                None => {
                    &&& !self@.contains_key(k@)
                    &&& forall|j: int|
                        0 <= j < self.entries@.len() ==> self.entries@[j].0@ != k@
                },
            },
    {
        let mut i: usize = 0;
        while i < self.entries.len()
            invariant
                self.wf(),
                i <= self.entries@.len(),
                forall|j: int| 0 <= j < i ==> self.entries@[j].0@ != k@,
            decreases self.entries@.len() - i,
        {
            let e = &self.entries[i];
            if chars_eq(&e.0, k) {
                return Some(i);
            }
            i = i + 1;
        }
        proof {
            if self@.contains_key(k@) {
                let i0 = choose|i0: int|
                    0 <= i0 < self.entries@.len() && self.entries@[i0].0@ == k@;
                assert(false);
            }
        }
        None
    }

    /// The offset stored for `k`, if any.
    pub fn get_ptr(&self, k: &Vec<char>) -> (r: Option<u64>)
        requires
            self.wf(),
        ensures
            match r {
                Some(p) => self@.contains_key(k@) && self@[k@] == p as int,
                None => !self@.contains_key(k@),
            },
    {
        match self.find(k) {
            Some(i) => {
                let e = &self.entries[i];
                Some(e.1)
            },
            None => None,
        }
    }

    /// Map `k` to offset `p`; reports whether `k` was already present.
    pub fn insert(&mut self, k: Vec<char>, p: u64) -> (had: bool)
        requires
            old(self).wf(),
        ensures
            final(self).wf(),
            final(self)@ == old(self)@.insert(k@, p as int),
            had == old(self)@.contains_key(k@),
    {
        let ghost gk = k@;
        match self.find(&k) {
            Some(i) => {
                let ghost olde = self.entries@;
                self.entries.push((k, p));
                let _replaced = self.entries.swap_remove(i);
                proof {
                    self.m@ = self.m@.insert(gk, p as int);
                    assert(self.entries@ =~= olde.update(i as int, (olde[i as int].0, p)).update(
                        i as int,
                        self.entries@[i as int],
                    ));
                    assert(self.entries@.len() == olde.len());
                    assert(forall|j: int|
                        0 <= j < olde.len() && j != i ==> self.entries@[j] == olde[j]);
                    assert(self.entries@[i as int].0@ == gk);
                    assert forall|k2: Seq<char>| #[trigger] self.m@.contains_key(k2) implies exists|
                        i2: int,
                    | 0 <= i2 < self.entries@.len() && #[trigger] self.entries@[i2].0@ == k2 by {
                        if k2 == gk {
                            assert(self.entries@[i as int].0@ == k2);
                        } else {
                            let i0 = choose|i0: int|
                                0 <= i0 < olde.len() && #[trigger] olde[i0].0@ == k2;
                            assert(i0 != i);
                            assert(self.entries@[i0].0@ == k2);
                        }
                    }
                }
                true
            },
            None => {
                let ghost olde = self.entries@;
                self.entries.push((k, p));
                proof {
                    self.m@ = self.m@.insert(gk, p as int);
                    assert(self.entries@.len() == olde.len() + 1);
                    assert(forall|j: int| 0 <= j < olde.len() ==> self.entries@[j] == olde[j]);
                    assert(self.entries@[olde.len() as int].0@ == gk);
                    assert forall|k2: Seq<char>| #[trigger] self.m@.contains_key(k2) implies exists|
                        i2: int,
                    | 0 <= i2 < self.entries@.len() && #[trigger] self.entries@[i2].0@ == k2 by {
                        if k2 == gk {
                            assert(self.entries@[olde.len() as int].0@ == k2);
                        } else {
                            let i0 = choose|i0: int|
                                0 <= i0 < olde.len() && #[trigger] olde[i0].0@ == k2;
                            assert(self.entries@[i0].0@ == k2);
                        }
                    }
                }
                false
            },
        }
    }

    /// Map a key that is not yet present: no scan is needed.
    pub fn insert_new(&mut self, k: Vec<char>, p: u64)
        requires
            old(self).wf(),
            !old(self)@.contains_key(k@),
        ensures
            final(self).wf(),
            final(self)@ == old(self)@.insert(k@, p as int),
    {
        let ghost gk = k@;
        let ghost olde = self.entries@;
        proof {
            assert forall|j: int| 0 <= j < olde.len() implies olde[j].0@ != gk by {
                if olde[j].0@ == gk {
                    assert(self.m@.contains_key(gk));
                }
            }
        }
        self.entries.push((k, p));
        proof {
            self.m@ = self.m@.insert(gk, p as int);
            assert(self.entries@.len() == olde.len() + 1);
            assert(forall|j: int| 0 <= j < olde.len() ==> self.entries@[j] == olde[j]);
            assert(self.entries@[olde.len() as int].0@ == gk);
            assert forall|k2: Seq<char>| #[trigger] self.m@.contains_key(k2) implies exists|
                i2: int,
            | 0 <= i2 < self.entries@.len() && #[trigger] self.entries@[i2].0@ == k2 by {
                if k2 == gk {
                    assert(self.entries@[olde.len() as int].0@ == k2);
                } else {
                    let i0 = choose|i0: int| 0 <= i0 < olde.len() && #[trigger] olde[i0].0@ == k2;
                    assert(self.entries@[i0].0@ == k2);
                }
            }
        }
    }

    /// Drop the entry for `k`, returning the offset it held.
    pub fn remove(&mut self, k: &Vec<char>) -> (r: Option<u64>)
        requires
            old(self).wf(),
        ensures
            final(self).wf(),
            final(self)@ == old(self)@.remove(k@),
            match r {
                Some(p) => old(self)@.contains_key(k@) && old(self)@[k@] == p as int,
                None => !old(self)@.contains_key(k@),
            },
    {
        match self.find(k) {
            Some(i) => {
                let ghost olde = self.entries@;
                let e = self.entries.swap_remove(i);
                proof {
                    self.m@ = self.m@.remove(k@);
                    assert(self.entries@.len() == olde.len() - 1);
                    assert(forall|j: int|
                        0 <= j < self.entries@.len() && j != i ==> self.entries@[j] == olde[j]);
                    assert(i < self.entries@.len() ==> self.entries@[i as int] == olde[
                        olde.len() - 1
                    ]);
                    assert forall|k2: Seq<char>| #[trigger] self.m@.contains_key(k2) implies exists|
                        i2: int,
                    | 0 <= i2 < self.entries@.len() && #[trigger] self.entries@[i2].0@ == k2 by {
                        let i0 = choose|i0: int|
                            0 <= i0 < olde.len() && #[trigger] olde[i0].0@ == k2;
                        assert(i0 != i);
                        if i0 == olde.len() - 1 {
                            assert(self.entries@[i as int].0@ == k2);
                        } else {
                            assert(self.entries@[i0].0@ == k2);
                        }
                    }
                }
                Some(e.1)
            },
            None => {
                proof {
                    assert(self.m@.remove(k@) =~= self.m@);
                }
                None
            },
        }
    }

    /// How many keys the index holds.
    fn len(&self) -> (n: usize)
        ensures
            n == self.entries@.len(),
    {
        self.entries.len()
    }
}

// ---------------------------------------------------------------------------
// The replay model
// ---------------------------------------------------------------------------

/// The record list of a log that parses cleanly.
pub open spec fn log_records(s: Seq<char>) -> Seq<(CommandModel, int)> {
    parse_all_from(s, 0).unwrap()
}

/// Replay the records front to back: a `Set` maps its key to the record's
/// offset, a `Remove` drops its key. `None` when a `Remove` hits an absent
/// key, which open treats as `KeyNotFound`.
pub open spec fn replay_fold(recs: Seq<(CommandModel, int)>) -> Option<Map<Seq<char>, int>>
    decreases recs.len(),
{
    if recs.len() == 0 {
        Some(Map::empty())
    } else {
        match replay_fold(recs.drop_last()) {
            None => None,
            Some(m) => match recs.last().0 {
                CommandModel::Put { key, value } => Some(m.insert(key, recs.last().1)),
                CommandModel::Remove { key } => if m.contains_key(key) {
                    Some(m.remove(key))
                } else {
                    None
                },
            },
        }
    }
}

/// Once replay has failed, no further records can make it succeed.
pub proof fn lemma_replay_fold_none(a: Seq<(CommandModel, int)>, b: Seq<(CommandModel, int)>)
    requires
        replay_fold(a) is None,
    ensures
        replay_fold(a + b) is None,
    decreases b.len(),
{
    if b.len() == 0 {
        assert(a + b =~= a);
    } else {
        assert((a + b).drop_last() =~= a + b.drop_last());
        lemma_replay_fold_none(a, b.drop_last());
        assert((a + b).len() > 0);
    }
}

/// The log replays cleanly: it parses to the end and no `Remove` hits an
/// absent key.
pub open spec fn replay_ok(s: Seq<char>) -> bool {
    &&& parse_all_from(s, 0) is Some
    &&& replay_fold(log_records(s)) is Some
}

/// How many records replay leaves obsolete, counted as open does: one for
/// each `Set` whose key was already present, one for each `Remove` of a
/// present key.
pub open spec fn replay_obsolete(recs: Seq<(CommandModel, int)>) -> int
    decreases recs.len(),
{
    if recs.len() == 0 {
        0
    } else {
        match replay_fold(recs.drop_last()) {
            None => 0,
            Some(m) => replay_obsolete(recs.drop_last()) + (match recs.last().0 {
                CommandModel::Put { key, value } => if m.contains_key(key) {
                    1int
                } else {
                    0int
                },
                CommandModel::Remove { key } => if m.contains_key(key) {
                    1int
                } else {
                    0int
                },
            }),
        }
    }
}

/// What a front-to-back replay of the log returns, in scan order: the
/// rebuilt index, or the error at the first failure point — a record that
/// does not decode is `LogFileCorrupted`, a `Remove` of an absent key is
/// `KeyNotFound`, whichever the scan meets first.
pub open spec fn replay_outcome_from(s: Seq<char>, pos: int, m: Map<Seq<char>, int>) -> Result<
    Map<Seq<char>, int>,
    Error,
>
    decreases s.len() - pos,
{
    if pos < 0 || pos > s.len() {
        Err(Error::LogFileCorrupted)
    } else {
        let p = pos + ws_len(s.skip(pos));
        if p >= s.len() {
            Ok(m)
        } else {
            match parse_cmd(s.skip(p)) {
                None => Err(Error::LogFileCorrupted),
                Some((c, n)) => if n < 1 || p + n > s.len() {
                    Err(Error::LogFileCorrupted)
                } else {
                    match c {
                        CommandModel::Put { key, value } => replay_outcome_from(
                            s,
                            p + n,
                            m.insert(key, p),
                        ),
                        CommandModel::Remove { key } => if m.contains_key(key) {
                            replay_outcome_from(s, p + n, m.remove(key))
                        } else {
                            Err(Error::KeyNotFound)
                        },
                    }
                },
            }
        }
    }
}

/// The outcome of replaying the whole log from the front.
pub open spec fn replay_outcome(s: Seq<char>) -> Result<Map<Seq<char>, int>, Error> {
    replay_outcome_from(s, 0, Map::empty())
}

/// Every record of the log is live: a `Set` record whose key the index
/// maps to exactly that record's offset. No `Remove` records, no record
/// shadowed by a later write.
pub open spec fn all_records_live(s: Seq<char>, m: Map<Seq<char>, int>) -> bool {
    forall|j: int|
        #![trigger log_records(s)[j]]
        0 <= j < log_records(s).len() ==> (log_records(s)[j].0 matches CommandModel::Put {
            key,
            value,
        } && m.contains_key(key) && m[key] == log_records(s)[j].1)
}

/// The key→offset index that replaying the log yields.
pub open spec fn replay_index(s: Seq<char>) -> Map<Seq<char>, int> {
    replay_fold(log_records(s)).unwrap()
}

/// The value of the `Set` record at the given offset.
pub open spec fn value_at(s: Seq<char>, off: int) -> Seq<char> {
    match parse_cmd(s.skip(off)) {
        Some(p) => match p.0 {
            CommandModel::Put { key, value } => value,
            CommandModel::Remove { key } => Seq::empty(),
        },
        None => Seq::empty(),
    }
}

/// The offset points at a `Set` record for key `k`.
pub open spec fn points_to_put(s: Seq<char>, off: int, k: Seq<char>) -> bool {
    &&& 0 <= off <= s.len()
    &&& parse_cmd(s.skip(off)) matches Some(p)
    &&& parse_cmd(s.skip(off)).unwrap().0 matches CommandModel::Put { key, value } && key == k
}

/// The key→value mapping a clean log stands for.
pub open spec fn replay_view(s: Seq<char>) -> Map<Seq<char>, Seq<char>> {
    Map::new(
        |k: Seq<char>| replay_index(s).contains_key(k),
        |k: Seq<char>| value_at(s, replay_index(s)[k]),
    )
}

/// One step of compaction: appending a fresh `Set` record for a live key
/// to the compaction log, and pointing the replacement index at it, keeps
/// the compaction log clean and value-faithful to the old log.
proof fn lemma_compact_step(
    oldlog: Seq<char>,
    m: Map<Seq<char>, int>,
    clog0: Seq<char>,
    cm0: Map<Seq<char>, int>,
    ek: Seq<char>,
    vv: Seq<char>,
)
    requires
        parse_all_from(clog0, 0) is Some,
        replay_fold(log_records(clog0)) == Some(cm0),
        forall|k: Seq<char>| #[trigger] cm0.contains_key(k) ==> points_to_put(clog0, cm0[k], k),
        forall|k: Seq<char>| #[trigger] cm0.contains_key(k) ==> m.contains_key(k) && value_at(
            clog0,
            cm0[k],
        ) == value_at(oldlog, m[k]),
        all_records_live(clog0, cm0),
        !cm0.contains_key(ek),
        m.contains_key(ek),
        vv == value_at(oldlog, m[ek]),
    ensures
        ({
            let cmdv = CommandModel::Put { key: ek, value: vv };
            let clog1 = clog0 + encode(cmdv);
            let cm1 = cm0.insert(ek, clog0.len() as int);
            &&& parse_all_from(clog1, 0) is Some
            &&& replay_fold(log_records(clog1)) == Some(cm1)
            &&& forall|k: Seq<char>| #[trigger] cm1.contains_key(k) ==> points_to_put(
                clog1,
                cm1[k],
                k,
            )
            &&& forall|k: Seq<char>| #[trigger] cm1.contains_key(k) ==> m.contains_key(k)
                && value_at(clog1, cm1[k]) == value_at(oldlog, m[k])
            &&& all_records_live(clog1, cm1)
        }),
{
    let cmdv = CommandModel::Put { key: ek, value: vv };
    let clog1 = clog0 + encode(cmdv);
    let cm1 = cm0.insert(ek, clog0.len() as int);
    lemma_parse_all_append(clog0, 0, cmdv);
    lemma_log_extend_points(clog0, encode(cmdv), cm0);
    assert(clog1.skip(clog0.len() as int) =~= encode(cmdv));
    lemma_parse_cmd_encode(cmdv, Seq::empty());
    assert(encode(cmdv) + Seq::<char>::empty() =~= encode(cmdv));
    assert(points_to_put(clog1, clog0.len() as int, ek));
    assert(value_at(clog1, clog0.len() as int) == vv);
    let recs = log_records(clog1);
    assert(recs.drop_last() =~= log_records(clog0));
    assert(recs.last() == (cmdv, clog0.len() as int));
    assert(replay_fold(recs) == Some(cm1));
    assert forall|j: int| 0 <= j < recs.len() implies (#[trigger] recs[j].0 matches
        CommandModel::Put { key, value } && cm1.contains_key(key) && cm1[key] == recs[j].1) by {
        if j < recs.len() - 1 {
            assert(recs[j] == log_records(clog0)[j]);
        } else {
            assert(recs[j] == (cmdv, clog0.len() as int));
        }
    }
}

/// Appending text to the log moves no record: every offset that pointed at
/// a `Set` record still does, with the same value.
proof fn lemma_log_extend_points(s: Seq<char>, t: Seq<char>, m: Map<Seq<char>, int>)
    requires
        forall|k: Seq<char>| #[trigger] m.contains_key(k) ==> points_to_put(s, m[k], k),
    ensures
        forall|k: Seq<char>| #[trigger] m.contains_key(k) ==> points_to_put(s + t, m[k], k),
        forall|k: Seq<char>| #[trigger] m.contains_key(k) ==> value_at(s + t, m[k]) == value_at(
            s,
            m[k],
        ),
{
    assert forall|k: Seq<char>| #[trigger] m.contains_key(k) implies points_to_put(s + t, m[k], k)
        && value_at(s + t, m[k]) == value_at(s, m[k]) by {
        let off = m[k];
        assert((s + t).skip(off) =~= s.skip(off) + t);
        lemma_parse_cmd_extend(s.skip(off), t);
    }
}

// ---------------------------------------------------------------------------
// The engine
// ---------------------------------------------------------------------------

/// An in-memory key/value store over an append-only log.
///
/// When a read request is issued, the in-memory index is searched for the
/// appropriate log pointer, and when it is found the value is retrieved
/// from the log. As in bitcask, the index for the entire database is kept
/// in memory.
pub struct KvStore {
    in_memory_index: Index,
    log: Log,
    /// How many log records are obsolete, made so by subsequent set and
    /// remove commands. Used as the heuristic that triggers compaction.
    obsolete_entries: u64,
}

impl View for KvStore {
    type V = Map<Seq<char>, Seq<char>>;

    closed spec fn view(&self) -> Map<Seq<char>, Seq<char>> {
        Map::new(
            |k: Seq<char>| self.in_memory_index@.contains_key(k),
            |k: Seq<char>| value_at(self.log@, self.in_memory_index@[k]),
        )
    }
}

impl KvStore {
    /// The content of the active log.
    pub closed spec fn log_view(self) -> Seq<char> {
        self.log@
    }

    /// The key→offset index the engine holds.
    pub closed spec fn index_map(self) -> Map<Seq<char>, int> {
        self.in_memory_index@
    }

    /// The obsolete-record counter.
    pub closed spec fn obsolete(self) -> int {
        self.obsolete_entries as int
    }

    /// The index/log coherence invariant: the log parses cleanly, replaying
    /// it yields exactly the in-memory index, and every index entry points
    /// at a `Set` record of its own key.
    pub closed spec fn core_wf(self) -> bool {
        &&& self.in_memory_index.wf()
        &&& parse_all_from(self.log@, 0) is Some
        &&& replay_fold(log_records(self.log@)) == Some(self.in_memory_index@)
        &&& forall|k: Seq<char>|
            #[trigger] self.in_memory_index@.contains_key(k) ==> points_to_put(
                self.log@,
                self.in_memory_index@[k],
                k,
            )
    }

    /// The full invariant every operation preserves.
    pub closed spec fn wf(self) -> bool {
        &&& self.core_wf()
        &&& self.obsolete_entries < u64::MAX
    }

    /// Open an engine over the given log content: replay it front to back
    /// to rebuild the index and the obsolete-record counter.
    ///
    /// Succeeds exactly on logs that decode cleanly and never remove an
    /// absent key. A log that does not decode is `LogFileCorrupted`; a
    /// `Remove` of an absent key is `KeyNotFound`, reported as soon as
    /// replay meets it.
    pub fn open(contents: &str) -> (r: Result<KvStore, Error>)
        ensures
            match r {
                Ok(st) => {
                    &&& st.wf()
                    &&& replay_ok(contents@)
                    &&& st.log_view() == contents@
                    &&& st@ == replay_view(contents@)
                    &&& st.obsolete() == replay_obsolete(log_records(contents@))
                    &&& replay_outcome(contents@) == Ok::<Map<Seq<char>, int>, Error>(
                        st.index_map(),
                    )
                },
                Err(e) => {
                    &&& !replay_ok(contents@)
                    &&& replay_outcome(contents@) == Err::<Map<Seq<char>, int>, Error>(e)
                },
            },
    {
        let data = chars_of(contents);
        let dlen = data.len();
        let mut in_memory_index = Index::new();
        let mut obsolete_entries: u64 = 0;
        let mut replay = LogReplay::new(&data);
        let ghost mut acc: Seq<(CommandModel, int)> = Seq::empty();
        loop
            invariant
                replay.wf(),
                replay.log_view() == data@,
                data@ == contents@,
                data@.len() == dlen as int,
                in_memory_index.wf(),
                0 <= replay.position() <= data@.len(),
                acc.len() <= replay.position(),
                parse_all_from(data@, 0) == (match parse_all_from(data@, replay.position()) {
                    Some(rest) => Some(acc + rest),
                    None => None::<Seq<(CommandModel, int)>>,
                }),
                replay_fold(acc) == Some(in_memory_index@),
                forall|k: Seq<char>|
                    #[trigger] in_memory_index@.contains_key(k) ==> points_to_put(
                        data@,
                        in_memory_index@[k],
                        k,
                    ),
                acc.len() == 0 ==> obsolete_entries == 0,
                acc.len() > 0 ==> (obsolete_entries as int) < acc.len(),
                obsolete_entries as int == replay_obsolete(acc),
                replay_outcome(data@) == replay_outcome_from(
                    data@,
                    replay.position(),
                    in_memory_index@,
                ),
            ensures
                data@ == contents@,
                in_memory_index.wf(),
                parse_all_from(data@, 0) == Some(acc),
                replay_fold(acc) == Some(in_memory_index@),
                forall|k: Seq<char>|
                    #[trigger] in_memory_index@.contains_key(k) ==> points_to_put(
                        data@,
                        in_memory_index@[k],
                        k,
                    ),
                obsolete_entries < u64::MAX,
                obsolete_entries as int == replay_obsolete(acc),
                replay_outcome(data@) == Ok::<Map<Seq<char>, int>, Error>(in_memory_index@),
            decreases data@.len() - replay.position(),
        {
            let ghost old_pos = replay.position();
            let ghost old_acc = acc;
            let ghost old_m = in_memory_index@;
            match replay.next() {
                None => {
                    proof {
                        assert(acc + Seq::<(CommandModel, int)>::empty() =~= acc);
                        assert(acc.len() <= dlen as int);
                        assert(dlen as int <= usize::MAX as int);
                        assert(obsolete_entries < u64::MAX);
                        assert(replay_outcome_from(data@, old_pos, old_m) == Ok::<
                            Map<Seq<char>, int>,
                            Error,
                        >(old_m));
                    }
                    break;
                },
                Some(item) => match item {
                    Err(_e) => {
                        proof {
                            assert(replay_outcome_from(data@, old_pos, old_m) == Err::<
                                Map<Seq<char>, int>,
                                Error,
                            >(Error::LogFileCorrupted));
                        }
                        return Err(Error::LogFileCorrupted);
                    },
                    Ok((cmd, lp)) => {
                        proof {
                            acc = acc + seq![(cmd@, lp.offset())];
                            assert(acc.drop_last() =~= old_acc);
                            assert(acc.last() == (cmd@, lp.offset()));
                        }
                        match cmd {
                            Command::Put { key, value } => {
                                let kc = chars_of(key.as_str());
                                let had = in_memory_index.insert(kc, lp.0);
                                if had {
                                    proof {
                                        if old_acc.len() == 0 {
                                            assert(replay_fold(old_acc) == Some(
                                                Map::<Seq<char>, int>::empty(),
                                            ));
                                            assert(false);
                                        }
                                    }
                                    obsolete_entries = obsolete_entries + 1;
                                }
                                proof {
                                    assert(replay_fold(acc) == Some(in_memory_index@));
                                    assert(replay_obsolete(acc) == replay_obsolete(old_acc) + (
                                    if old_m.contains_key(key@) {
                                        1int
                                    } else {
                                        0int
                                    }));
                                    assert(replay_outcome_from(data@, old_pos, old_m)
                                        == replay_outcome_from(
                                        data@,
                                        replay.position(),
                                        in_memory_index@,
                                    ));
                                }
                            },
                            Command::Remove { key } => {
                                let kc = chars_of(key.as_str());
                                match in_memory_index.remove(&kc) {
                                    Some(_p) => {
                                        proof {
                                            if old_acc.len() == 0 {
                                                assert(replay_fold(old_acc) == Some(
                                                    Map::<Seq<char>, int>::empty(),
                                                ));
                                                assert(false);
                                            }
                                        }
                                        obsolete_entries = obsolete_entries + 1;
                                        proof {
                                            assert(replay_fold(acc) == Some(in_memory_index@));
                                            assert(replay_obsolete(acc) == replay_obsolete(old_acc)
                                                + 1);
                                            assert(replay_outcome_from(data@, old_pos, old_m)
                                                == replay_outcome_from(
                                                data@,
                                                replay.position(),
                                                in_memory_index@,
                                            ));
                                        }
                                    },
                                    None => {
                                        proof {
                                            assert(replay_fold(acc) is None);
                                            if parse_all_from(data@, 0) is Some {
                                                let rest2 = parse_all_from(
                                                    data@,
                                                    replay.position(),
                                                ).unwrap();
                                                lemma_replay_fold_none(acc, rest2);
                                                assert(old_acc + (seq![(cmd@, lp.offset())]
                                                    + rest2) =~= acc + rest2);
                                                assert(log_records(data@) == acc + rest2);
                                            }
                                            assert(replay_outcome_from(data@, old_pos, old_m)
                                                == Err::<Map<Seq<char>, int>, Error>(
                                                Error::KeyNotFound,
                                            ));
                                        }
                                        return Err(Error::KeyNotFound);
                                    },
                                }
                            },
                        }
                    },
                },
            }
        }
        let st = KvStore { in_memory_index, log: Log::open(data), obsolete_entries };
        proof {
            assert(log_records(st.log@) == acc);
            assert(st@ =~= replay_view(contents@));
        }
        Ok(st)
    }

    /// The value last set for `key`, read back from the log, or nothing
    /// when the key is absent. Never fails on a well-formed engine.
    pub fn get(&self, key: String) -> (r: Result<Option<String>, Error>)
        requires
            self.wf(),
        ensures
            match r {
                Ok(v) => match v {
                    Some(s) => self@.contains_key(key@) && s@ == self@[key@],
                    None => !self@.contains_key(key@),
                },
                Err(_) => false,
            },
    {
        let kc = chars_of(key.as_str());
        match self.in_memory_index.get_ptr(&kc) {
            None => Ok(None),
            Some(p) => {
                let ptr = LogPointer(p);
                match self.log.read(&ptr) {
                    Ok(cmd) => match cmd {
                        Command::Put { key: _rk, value } => Ok(Some(value)),
                        Command::Remove { .. } => {
                            proof {
                                assert(false);
                            }
                            Err(Error::LogFileCorrupted)
                        },
                    },
                    Err(_) => {
                        proof {
                            assert(false);
                        }
                        Err(Error::LogFileCorrupted)
                    },
                }
            },
        }
    }

    /// Append a `Set` record and point the index at it. If the key already
    /// had a value, its old record becomes obsolete; when enough records
    /// are obsolete, compact.
    pub fn set(&mut self, key: String, value: String) -> (r: Result<(), Error>)
        requires
            old(self).wf(),
        ensures
            final(self).wf(),
            r is Ok,
            final(self)@ == old(self)@.insert(key@, value@),
            final(self).obsolete() < 1000,
            ({
                let grew = if old(self)@.contains_key(key@) {
                    old(self).obsolete() + 1
                } else {
                    old(self).obsolete()
                };
                &&& (grew < 1000 ==> {
                    &&& final(self).log_view() == old(self).log_view() + encode(
                        CommandModel::Put { key: key@, value: value@ },
                    )
                    &&& final(self).index_map() == old(self).index_map().insert(
                        key@,
                        old(self).log_view().len() as int,
                    )
                    &&& final(self).obsolete() == grew
                })
                &&& (grew >= 1000 ==> final(self).obsolete() == 0)
            }),
    {
        let kc = chars_of(key.as_str());
        let ghost gkey = key@;
        let ghost gval = value@;
        let ghost old_log = self.log@;
        let ghost old_m = self.in_memory_index@;
        let cmd = Command::Put { key, value };
        let ghost cmdv = cmd@;
        let ptr = match self.log.append_command(cmd) {
            Ok(p) => p,
            Err(e) => {
                proof {
                    assert(false);
                }
                return Err(e);
            },
        };
        proof {
            lemma_parse_all_append(old_log, 0, cmdv);
            lemma_log_extend_points(old_log, encode(cmdv), old_m);
            assert(self.log@.skip(old_log.len() as int) =~= encode(cmdv));
            lemma_parse_cmd_encode(cmdv, Seq::empty());
            assert(encode(cmdv) + Seq::<char>::empty() =~= encode(cmdv));
            assert(points_to_put(self.log@, old_log.len() as int, gkey));
            assert(value_at(self.log@, old_log.len() as int) == gval);
        }
        let had = self.in_memory_index.insert(kc, ptr.0);
        if had {
            self.obsolete_entries = self.obsolete_entries + 1;
        }
        proof {
            let recs = log_records(self.log@);
            assert(recs.drop_last() =~= log_records(old_log));
            assert(recs.last() == (cmdv, old_log.len() as int));
            assert(replay_fold(recs) == Some(self.in_memory_index@));
            assert(self.core_wf());
            assert(self@ =~= old(self)@.insert(gkey, gval));
        }
        if self.should_compact() {
            match self.compact() {
                Ok(()) => {
                    proof {
                        assert(self@ =~= old(self)@.insert(gkey, gval));
                    }
                },
                Err(e) => {
                    proof {
                        assert(false);
                    }
                    return Err(e);
                },
            }
        }
        Ok(())
    }

    /// Drop `key` from the index and append a `Remove` record. A key the
    /// index does not hold is `KeyNotFound`, and nothing is written.
    pub fn remove(&mut self, key: String) -> (r: Result<(), Error>)
        requires
            old(self).wf(),
        ensures
            final(self).wf(),
            old(self)@.contains_key(key@) ==> {
                &&& r is Ok
                &&& final(self)@ == old(self)@.remove(key@)
                &&& final(self).obsolete() < 1000
                &&& (old(self).obsolete() + 1 < 1000 ==> {
                    &&& final(self).log_view() == old(self).log_view() + encode(
                        CommandModel::Remove { key: key@ },
                    )
                    &&& final(self).index_map() == old(self).index_map().remove(key@)
                    &&& final(self).obsolete() == old(self).obsolete() + 1
                })
                &&& (old(self).obsolete() + 1 >= 1000 ==> final(self).obsolete() == 0)
            },
            !old(self)@.contains_key(key@) ==> {
                &&& r == Err::<(), Error>(Error::KeyNotFound)
                &&& final(self)@ == old(self)@
                &&& final(self).log_view() == old(self).log_view()
                &&& final(self).obsolete() == old(self).obsolete()
            },
    {
        let kc = chars_of(key.as_str());
        let ghost gkey = key@;
        let ghost old_log = self.log@;
        let ghost old_m = self.in_memory_index@;
        match self.in_memory_index.remove(&kc) {
            None => {
                proof {
                    assert(old_m.remove(gkey) =~= old_m);
                    assert(self@ =~= old(self)@);
                }
                Err(Error::KeyNotFound)
            },
            Some(_p) => {
                let cmd = Command::Remove { key };
                let ghost cmdv = cmd@;
                let _ptr = match self.log.append_command(cmd) {
                    Ok(p) => p,
                    Err(e) => {
                        proof {
                            assert(false);
                        }
                        return Err(e);
                    },
                };
                proof {
                    lemma_parse_all_append(old_log, 0, cmdv);
                    lemma_log_extend_points(old_log, encode(cmdv), self.in_memory_index@);
                    let recs = log_records(self.log@);
                    assert(recs.drop_last() =~= log_records(old_log));
                    assert(recs.last() == (cmdv, old_log.len() as int));
                    assert(replay_fold(recs) == Some(self.in_memory_index@));
                    assert(self.core_wf());
                    assert(self@ =~= old(self)@.remove(gkey));
                }
                self.obsolete_entries = self.obsolete_entries + 1;
                if self.should_compact() {
                    match self.compact() {
                        Ok(()) => {
                            proof {
                                assert(self@ =~= old(self)@.remove(gkey));
                            }
                        },
                        Err(e) => {
                            proof {
                                assert(false);
                            }
                            return Err(e);
                        },
                    }
                }
                Ok(())
            },
        }
    }

    /// The compaction policy: rewrite once enough records are obsolete.
    fn should_compact(&self) -> (r: bool)
        ensures
            r == (self.obsolete() >= 1000),
    {
        self.obsolete_entries >= 1000
    }

    /// Rewrite the log to hold exactly one `Set` record per live index
    /// entry, point the index at the fresh records, and reset the
    /// obsolete-record counter. The observable key→value state does not
    /// change.
    #[verifier::rlimit(100)]
    #[verifier::spinoff_prover]
    fn compact(&mut self) -> (r: Result<(), Error>)
        requires
            old(self).core_wf(),
        ensures
            final(self).wf(),
            r is Ok,
            final(self)@ == old(self)@,
            final(self).obsolete() == 0,
            all_records_live(final(self).log_view(), final(self).index_map()),
    {
        let mut compact_log = Log::open(Vec::new());
        let mut compact_index = Index::new();
        let n = self.in_memory_index.len();
        let mut i: usize = 0;
        while i < n
            invariant
                self.core_wf(),
                n == self.in_memory_index.entries@.len(),
                i <= n,
                compact_index.wf(),
                parse_all_from(compact_log@, 0) is Some,
                replay_fold(log_records(compact_log@)) == Some(compact_index@),
                forall|k: Seq<char>|
                    #[trigger] compact_index@.contains_key(k) ==> points_to_put(
                        compact_log@,
                        compact_index@[k],
                        k,
                    ),
                forall|k: Seq<char>|
                    #[trigger] compact_index@.contains_key(k)
                        ==> self.in_memory_index@.contains_key(k) && value_at(
                        compact_log@,
                        compact_index@[k],
                    ) == value_at(self.log@, self.in_memory_index@[k]),
                forall|j: int|
                    0 <= j < i ==> compact_index@.contains_key(
                        #[trigger] self.in_memory_index.entries@[j].0@,
                    ),
                forall|k: Seq<char>|
                    #[trigger] compact_index@.contains_key(k) ==> exists|j: int|
                        0 <= j < i && #[trigger] self.in_memory_index.entries@[j].0@ == k,
                all_records_live(compact_log@, compact_index@),
            decreases n - i,
        {
            let e = &self.in_memory_index.entries[i];
            let ptr = LogPointer(e.1);
            let ghost ek = self.in_memory_index.entries@[i as int].0@;
            proof {
                assert(self.in_memory_index@.contains_key(ek));
                assert(points_to_put(self.log@, self.in_memory_index@[ek], ek));
            }
            match self.log.read(&ptr) {
                Err(_) => {
                    proof {
                        assert(false);
                    }
                    return Err(Error::LogFileCorrupted);
                },
                Ok(cmd) => match cmd {
                    Command::Remove { .. } => {
                        proof {
                            assert(false);
                        }
                        return Err(Error::LogFileCorrupted);
                    },
                    Command::Put { key: rk, value } => {
                        proof {
                            assert(rk@ == ek);
                            assert(value@ == value_at(self.log@, self.in_memory_index@[ek]));
                        }
                        let kc = chars_of(rk.as_str());
                        let cmd2 = Command::Put { key: rk, value };
                        let ghost cmdv = cmd2@;
                        let ghost old_clog = compact_log@;
                        let ghost old_cm = compact_index@;
                        proof {
                            if compact_index@.contains_key(ek) {
                                let j0 = choose|j0: int|
                                    0 <= j0 < i && #[trigger] self.in_memory_index.entries@[j0].0@
                                        == ek;
                                assert(false);
                            }
                            lemma_compact_step(
                                self.log@,
                                self.in_memory_index@,
                                old_clog,
                                old_cm,
                                ek,
                                value_at(self.log@, self.in_memory_index@[ek]),
                            );
                        }
                        let newptr = match compact_log.append_command(cmd2) {
                            Ok(q) => q,
                            Err(e2) => {
                                proof {
                                    assert(false);
                                }
                                return Err(e2);
                            },
                        };
                        compact_index.insert_new(kc, newptr.0);
                    },
                },
            }
            i = i + 1;
        }
        self.log = compact_log;
        self.in_memory_index = compact_index;
        self.obsolete_entries = 0;
        proof {
            assert forall|k: Seq<char>| #[trigger] old(self).in_memory_index@.contains_key(k)
                implies self.in_memory_index@.contains_key(k) by {
                let i0 = choose|i0: int|
                    0 <= i0 < old(self).in_memory_index.entries@.len()
                        && #[trigger] old(self).in_memory_index.entries@[i0].0@ == k;
            }
            assert(self@ =~= old(self)@);
        }
        Ok(())
    }

    /// The log content, as it stands in the log file.
    pub fn log_contents(&self) -> (s: String)
        ensures
            s@ == self.log_view(),
    {
        self.log.contents()
    }

    /// The current value of the obsolete-record counter.
    pub fn obsolete_count(&self) -> (n: u64)
        ensures
            n as int == self.obsolete(),
    {
        self.obsolete_entries
    }
}

// ---------------------------------------------------------------------------
// Laws
// ---------------------------------------------------------------------------

/// After `set(k, v)` the store maps `k` to `v`, and every other key is
/// unchanged: `KvStore::set` ensures the new view is `old.insert(k@, v@)`,
/// and this is what that map is.
pub proof fn lemma_set_then_get(m: Map<Seq<char>, Seq<char>>, k: Seq<char>, v: Seq<char>)
    ensures
        m.insert(k, v).contains_key(k),
        m.insert(k, v)[k] == v,
        forall|k2: Seq<char>|
            k2 != k ==> m.insert(k, v).contains_key(k2) == #[trigger] m.contains_key(k2),
        forall|k2: Seq<char>| k2 != k && #[trigger] m.contains_key(k2) ==> m.insert(k, v)[k2]
            == m[k2],
{
}

/// After a successful `remove(k)` the key is absent — a `get(k)` yields
/// nothing, and a second `remove(k)` meets the absent key and fails with
/// `KeyNotFound` by `KvStore::remove`'s contract — while every other key
/// is unchanged.
pub proof fn lemma_remove_then_absent(m: Map<Seq<char>, Seq<char>>, k: Seq<char>)
    ensures
        !m.remove(k).contains_key(k),
        forall|k2: Seq<char>|
            k2 != k ==> m.remove(k).contains_key(k2) == #[trigger] m.contains_key(k2),
        forall|k2: Seq<char>| k2 != k && #[trigger] m.contains_key(k2) ==> m.remove(k)[k2] == m[
            k2
        ],
{
}

/// Set overwrites set: after `set(k, v1); set(k, v2)` the store maps `k`
/// to `v2`.
pub proof fn lemma_set_overwrites_set(
    m: Map<Seq<char>, Seq<char>>,
    k: Seq<char>,
    v1: Seq<char>,
    v2: Seq<char>,
)
    ensures
        m.insert(k, v1).insert(k, v2).contains_key(k),
        m.insert(k, v1).insert(k, v2)[k] == v2,
{
}

/// Reopening an engine on its own log reproduces its observable state:
/// replay of the current log succeeds and yields exactly the current
/// key→value view. Together with the contracts of `set` and `remove` this
/// says that any operation sequence observed through `get` is unchanged by
/// a close and reopen.
pub proof fn lemma_reopen(st: KvStore)
    requires
        st.wf(),
    ensures
        replay_ok(st.log_view()),
        replay_view(st.log_view()) == st@,
{
    assert(replay_view(st.log_view()) =~= st@);
}

/// Log-order replay: rebuilding the index by replaying the engine's own
/// log yields exactly the key→offset mapping the writer holds in memory.
pub proof fn lemma_replay_rebuilds_index(st: KvStore)
    requires
        st.wf(),
    ensures
        parse_all_from(st.log_view(), 0) is Some,
        replay_fold(log_records(st.log_view())) == Some(st.index_map()),
{
}

} // verus!
