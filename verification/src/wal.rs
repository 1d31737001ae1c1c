//! The write-ahead log's records: which records a change of the node's
//! durable state calls for, and how replaying a record rebuilds that state.
use vstd::prelude::*;

use crate::raft::{Command, LogEntry, RaftNode};
use crate::raft_model::{log_view, sentinel, LogEntryView, RaftNodeView};
use crate::store::{map_of_pairs, KvStore};

verus! {

/// A single durable record.
pub enum DiskRecord {
    /// The current term and the vote changed.
    State { current_term: u64, voted_for: Option<u64> },
    /// A log entry was appended.
    Append { entry: LogEntry },
    /// The log was cut at a physical index (conflict resolution).
    Truncate { physical_index: usize },
    /// A snapshot of the state machine replaced a prefix of the log.
    Snapshot {
        last_included_index: u64,
        last_included_term: u64,
        store_data: Vec<(String, String)>,
    },
}

pub enum DiskRecordView {
    State { current_term: u64, voted_for: Option<u64> },
    Append { entry: LogEntryView },
    Truncate { physical_index: usize },
    Snapshot {
        last_included_index: u64,
        last_included_term: u64,
        store: Map<Seq<char>, Seq<char>>,
    },
}

impl View for DiskRecord {
    type V = DiskRecordView;

    open spec fn view(&self) -> DiskRecordView {
        match self {
            DiskRecord::State { current_term, voted_for } => DiskRecordView::State {
                current_term: *current_term,
                voted_for: *voted_for,
            },
            DiskRecord::Append { entry } => DiskRecordView::Append { entry: entry@ },
            DiskRecord::Truncate { physical_index } => DiskRecordView::Truncate {
                physical_index: *physical_index,
            },
            DiskRecord::Snapshot { last_included_index, last_included_term, store_data } => {
                DiskRecordView::Snapshot {
                    last_included_index: *last_included_index,
                    last_included_term: *last_included_term,
                    store: map_of_pairs(store_data@),
                }
            },
        }
    }
}

pub open spec fn records_view(s: Seq<DiskRecord>) -> Seq<DiskRecordView> {
    s.map_values(|r: DiskRecord| r@)
}

/// The part of a node's state that must survive a crash.
pub struct PersistentState {
    pub current_term: u64,
    pub voted_for: Option<u64>,
    pub last_included_index: u64,
    pub log: Vec<LogEntry>,
}

pub struct PersistentView {
    pub current_term: u64,
    pub voted_for: Option<u64>,
    pub last_included_index: u64,
    pub log: Seq<LogEntryView>,
}

impl View for PersistentState {
    type V = PersistentView;

    open spec fn view(&self) -> PersistentView {
        PersistentView {
            current_term: self.current_term,
            voted_for: self.voted_for,
            last_included_index: self.last_included_index,
            log: log_view(self.log@),
        }
    }
}

pub open spec fn persistent_view(v: RaftNodeView) -> PersistentView {
    PersistentView {
        current_term: v.current_term,
        voted_for: v.voted_for,
        last_included_index: v.last_included_index,
        log: v.log,
    }
}

/// `m` is the length of the longest common prefix of `a` and `b`.
pub open spec fn is_common_prefix(a: Seq<LogEntryView>, b: Seq<LogEntryView>, m: int) -> bool {
    &&& 0 <= m <= a.len()
    &&& m <= b.len()
    &&& forall|j: int| 0 <= j < m ==> #[trigger] a[j] == b[j]
    &&& (m == a.len() || m == b.len() || a[m] != b[m])
}

pub open spec fn common_prefix_len(a: Seq<LogEntryView>, b: Seq<LogEntryView>) -> int {
    choose|m: int| is_common_prefix(a, b, m)
}

/// The entries of a log after its sentinel.
pub open spec fn kept_entries(log: Seq<LogEntryView>) -> Seq<LogEntryView> {
    if log.len() > 0 {
        log.skip(1)
    } else {
        Seq::empty()
    }
}

/// The records that bring a log holding `before` to the durable state of
/// `after`, whose store is `store`: the term and vote when either changed;
/// then, when the snapshot point moved, a snapshot followed by every entry the
/// log keeps after it; or else a cut at the end of the common prefix (when
/// some old entry is lost) and the new entries.
pub open spec fn wal_records_for(
    before: PersistentView,
    after: RaftNodeView,
    store: Map<Seq<char>, Seq<char>>,
) -> Seq<DiskRecordView> {
    let state = if after.current_term != before.current_term || after.voted_for != before.voted_for {
        seq![DiskRecordView::State { current_term: after.current_term, voted_for: after.voted_for }]
    } else {
        Seq::empty()
    };
    let rest = if after.last_included_index != before.last_included_index {
        seq![
            DiskRecordView::Snapshot {
                last_included_index: after.last_included_index,
                last_included_term: after.last_included_term,
                store,
            },
        ] + kept_entries(after.log).map_values(|e: LogEntryView| DiskRecordView::Append { entry: e })
    } else {
        let m = common_prefix_len(before.log, after.log);
        let cut = if m < before.log.len() {
            seq![DiskRecordView::Truncate { physical_index: m as usize }]
        } else {
            Seq::empty()
        };
        cut + after.log.skip(m).map_values(|e: LogEntryView| DiskRecordView::Append { entry: e })
    };
    state + rest
}

/// What replaying one record does to a recovering node and its store.
pub open spec fn replay(v: RaftNodeView, store: Map<Seq<char>, Seq<char>>, rec: DiskRecordView) -> (
    RaftNodeView,
    Map<Seq<char>, Seq<char>>,
) {
    match rec {
        DiskRecordView::State { current_term, voted_for } => (
            RaftNodeView { current_term, voted_for, ..v },
            store,
        ),
        DiskRecordView::Append { entry } => (RaftNodeView { log: v.log.push(entry), ..v }, store),
        DiskRecordView::Truncate { physical_index } => (
            RaftNodeView {
                log: if physical_index <= v.log.len() {
                    v.log.take(physical_index as int)
                } else {
                    v.log
                },
                ..v
            },
            store,
        ),
        DiskRecordView::Snapshot { last_included_index, last_included_term, store: data } => (
            RaftNodeView {
                last_included_index,
                last_included_term,
                log: seq![sentinel(last_included_term)],
                commit_index: last_included_index as usize,
                last_applied: last_included_index as usize,
                ..v
            },
            data,
        ),
    }
}

/// Replaying records in order.
pub open spec fn replay_all(
    v: RaftNodeView,
    store: Map<Seq<char>, Seq<char>>,
    recs: Seq<DiskRecordView>,
) -> (RaftNodeView, Map<Seq<char>, Seq<char>>)
    decreases recs.len(),
{
    if recs.len() == 0 {
        (v, store)
    } else {
        let (v1, s1) = replay_all(v, store, recs.drop_last());
        replay(v1, s1, recs.last())
    }
}

/// Whether two entries are the same: same term and same command.
pub(crate) fn same_entry(a: &LogEntry, b: &LogEntry) -> (r: bool)
    ensures
        r == (a@ == b@),
{
    if a.term != b.term {
        return false;
    }
    match (&a.command, &b.command) {
        (Command::Put { key: k1, value: v1 }, Command::Put { key: k2, value: v2 }) => *k1 == *k2 && *v1
            == *v2,
        (Command::Delete { key: k1 }, Command::Delete { key: k2 }) => *k1 == *k2,
        _ => false,
    }
}

fn same_vote(a: Option<u64>, b: Option<u64>) -> (r: bool)
    ensures
        r == (a == b),
{
    match (a, b) {
        (Some(x), Some(y)) => x == y,
        (None, None) => true,
        _ => false,
    }
}

impl RaftNode {
    /// A copy of the durable part of the node's state.
    pub fn persistent_state(&self) -> (r: PersistentState)
        ensures
            r@ == persistent_view(self@),
    {
        let mut log: Vec<LogEntry> = Vec::new();
        let mut i: usize = 0;
        while i < self.log.len()
            invariant
                i <= self.log@.len(),
                log@ == self.log@.take(i as int),
            decreases self.log.len() - i,
        {
            log.push(self.log[i].clone());
            i = i + 1;
            assert(log@ =~= self.log@.take(i as int));
        }
        assert(log@ =~= self.log@);
        PersistentState {
            current_term: self.current_term,
            voted_for: self.voted_for,
            last_included_index: self.last_included_index,
            log,
        }
    }
}

/// Length of the longest common prefix of two logs.
fn common_prefix(a: &Vec<LogEntry>, b: &Vec<LogEntry>) -> (m: usize)
    ensures
        is_common_prefix(log_view(a@), log_view(b@), m as int),
{
    let mut m: usize = 0;
    while m < a.len() && m < b.len()
        invariant
            m <= a@.len(),
            m <= b@.len(),
            forall|j: int| 0 <= j < m ==> #[trigger] log_view(a@)[j] == log_view(b@)[j],
        decreases a.len() - m,
    {
        if !same_entry(&a[m], &b[m]) {
            return m;
        }
        m = m + 1;
    }
    m
}

/// The records to append to the write-ahead log after the node moved from
/// the durable state `before` to its current one.
pub fn wal_records(before: &PersistentState, node: &RaftNode, store: &KvStore) -> (r: Vec<DiskRecord>)
    ensures
        records_view(r@) == wal_records_for(before@, node@, store@),
{
    let ghost spec_r = wal_records_for(before@, node@, store@);
    let mut r: Vec<DiskRecord> = Vec::new();
    let state_changed = node.current_term != before.current_term || !same_vote(
        node.voted_for,
        before.voted_for,
    );
    if state_changed {
        r.push(DiskRecord::State { current_term: node.current_term, voted_for: node.voted_for });
    }
    let ghost state_part = records_view(r@);
    let mut i: usize;
    if node.last_included_index != before.last_included_index {
        r.push(
            DiskRecord::Snapshot {
                last_included_index: node.last_included_index,
                last_included_term: node.last_included_term,
                store_data: store.dump(),
            },
        );
        i = if node.log.len() > 0 {
            1
        } else {
            0
        };
        proof {
            if node.log.len() > 0 {
                assert(kept_entries(node@.log) =~= node@.log.skip(1));
            } else {
                assert(kept_entries(node@.log) =~= node@.log.skip(0));
            }
        }
    } else {
        let m = common_prefix(&before.log, &node.log);
        proof {
            let a = before@.log;
            let b = node@.log;
            assert forall|m2: int| is_common_prefix(a, b, m2) implies m2 == m by {
                if m2 < m {
                    assert(a[m2] == b[m2]);
                }
                if m < m2 {
                    assert(a[m as int] == b[m as int]);
                }
            }
        }
        if m < before.log.len() {
            r.push(DiskRecord::Truncate { physical_index: m });
        }
        i = m;
    }
    let ghost from: int = i as int;
    let ghost head = records_view(r@);
    proof {
        let tail = node@.log.skip(from).map_values(|e: LogEntryView| DiskRecordView::Append { entry: e });
        assert(spec_r =~= head + tail);
        assert(node@.log.subrange(from, from) =~= Seq::<LogEntryView>::empty());
        assert(records_view(r@) =~= head + node@.log.subrange(from, i as int).map_values(
            |e: LogEntryView| DiskRecordView::Append { entry: e },
        ));
    }
    while i < node.log.len()
        invariant
            0 <= from <= i <= node.log@.len(),
            records_view(r@) == head + node@.log.subrange(from, i as int).map_values(
                |e: LogEntryView| DiskRecordView::Append { entry: e },
            ),
        decreases node.log.len() - i,
    {
        let ghost r0 = r@;
        r.push(DiskRecord::Append { entry: node.log[i].clone() });
        proof {
            assert(records_view(r@) =~= records_view(r0).push(
                DiskRecordView::Append { entry: node@.log[i as int] },
            ));
            assert(node@.log.subrange(from, i + 1) =~= node@.log.subrange(from, i as int).push(
                node@.log[i as int],
            ));
        }
        i = i + 1;
        assert(records_view(r@) =~= head + node@.log.subrange(from, i as int).map_values(
            |e: LogEntryView| DiskRecordView::Append { entry: e },
        ));
    }
    assert(node@.log.subrange(from, i as int) =~= node@.log.skip(from));
    assert(records_view(r@) =~= spec_r);
    r
}

/// Replay one record during crash recovery.
pub fn replay_record(node: &mut RaftNode, store: &mut KvStore, record: DiskRecord)
    ensures
        (final(node)@, final(store)@) == replay(old(node)@, old(store)@, record@),
{
    match record {
        DiskRecord::State { current_term, voted_for } => {
            node.current_term = current_term;
            node.voted_for = voted_for;
        },
        DiskRecord::Append { entry } => {
            node.log.push(entry);
            assert(node@.log =~= old(node)@.log.push(entry@));
        },
        DiskRecord::Truncate { physical_index } => {
            node.log.truncate(physical_index);
            assert(node@.log =~= (if physical_index <= old(node)@.log.len() {
                old(node)@.log.take(physical_index as int)
            } else {
                old(node)@.log
            }));
        },
        DiskRecord::Snapshot { last_included_index, last_included_term, store_data } => {
            node.last_included_index = last_included_index;
            node.last_included_term = last_included_term;
            node.log.clear();
            node.log.push(
                LogEntry {
                    term: last_included_term,
                    command: Command::Put { key: String::new(), value: String::new() },
                },
            );
            node.commit_index = last_included_index as usize;
            node.last_applied = last_included_index as usize;
            store.load(store_data);
            assert(node@.log =~= seq![sentinel(last_included_term)]);
        },
    }
}

proof fn lemma_replay_all_append(
    v: RaftNodeView,
    store: Map<Seq<char>, Seq<char>>,
    a: Seq<DiskRecordView>,
    b: Seq<DiskRecordView>,
)
    ensures
        replay_all(v, store, a + b) == ({
            let (v1, s1) = replay_all(v, store, a);
            replay_all(v1, s1, b)
        }),
    decreases b.len(),
{
    if b.len() == 0 {
        assert(a + b =~= a);
    } else {
        lemma_replay_all_append(v, store, a, b.drop_last());
        assert((a + b).drop_last() =~= a + b.drop_last());
        assert((a + b).last() == b.last());
    }
}

proof fn lemma_replay_appends(v: RaftNodeView, store: Map<Seq<char>, Seq<char>>, es: Seq<LogEntryView>)
    ensures
        replay_all(v, store, es.map_values(|e: LogEntryView| DiskRecordView::Append { entry: e })) == (
            RaftNodeView { log: v.log + es, ..v },
            store,
        ),
    decreases es.len(),
{
    let recs = es.map_values(|e: LogEntryView| DiskRecordView::Append { entry: e });
    if es.len() == 0 {
        assert(v.log + es =~= v.log);
    } else {
        lemma_replay_appends(v, store, es.drop_last());
        assert(recs.drop_last() =~= es.drop_last().map_values(
            |e: LogEntryView| DiskRecordView::Append { entry: e },
        ));
        assert((v.log + es.drop_last()).push(es.last()) =~= v.log + es);
    }
}

proof fn lemma_common_prefix_exists(a: Seq<LogEntryView>, b: Seq<LogEntryView>, m: int)
    requires
        0 <= m <= a.len(),
        m <= b.len(),
        forall|j: int| 0 <= j < m ==> #[trigger] a[j] == b[j],
    ensures
        exists|k: int| is_common_prefix(a, b, k),
    decreases a.len() - m,
{
    if m == a.len() || m == b.len() || a[m] != b[m] {
        assert(is_common_prefix(a, b, m));
    } else {
        lemma_common_prefix_exists(a, b, m + 1);
    }
}

/// Crash recovery: replaying, on a node that recovered the durable state
/// `before`, the records written for the move from `before` to `after` gives
/// back the durable state of `after` (term, vote, snapshot point and log), and
/// after a snapshot also its snapshot term and its store. This holds for every
/// move to a node whose log starts with the sentinel of its snapshot point.
pub proof fn law_replay_restores(
    start: RaftNodeView,
    store0: Map<Seq<char>, Seq<char>>,
    before: PersistentView,
    after: RaftNodeView,
    store: Map<Seq<char>, Seq<char>>,
)
    requires
        persistent_view(start) == before,
        before.log.len() <= usize::MAX,
        after.last_included_index != before.last_included_index ==> after.sentinel_in_place(),
    ensures
        ({
            let (v, s) = replay_all(start, store0, wal_records_for(before, after, store));
            &&& persistent_view(v) == persistent_view(after)
            &&& after.last_included_index != before.last_included_index ==> {
                &&& s == store
                &&& v.last_included_term == after.last_included_term
            }
        }),
{
    let state = if after.current_term != before.current_term || after.voted_for != before.voted_for {
        seq![DiskRecordView::State { current_term: after.current_term, voted_for: after.voted_for }]
    } else {
        Seq::empty()
    };
    let recs = wal_records_for(before, after, store);
    let rest = recs.skip(state.len() as int);
    assert(recs =~= state + rest);
    lemma_replay_all_append(start, store0, state, rest);
    assert(replay_all(start, store0, Seq::empty()) == (start, store0));
    let (v1, s1) = replay_all(start, store0, state);
    if state.len() == 1 {
        assert(state.drop_last() =~= Seq::<DiskRecordView>::empty());
    }
    assert(v1.current_term == after.current_term && v1.voted_for == after.voted_for);
    assert(v1.log == before.log && v1.last_included_index == before.last_included_index);
    if after.last_included_index != before.last_included_index {
        let snap = seq![
            DiskRecordView::Snapshot {
                last_included_index: after.last_included_index,
                last_included_term: after.last_included_term,
                store,
            },
        ];
        let kept = kept_entries(after.log);
        let apps = kept.map_values(|e: LogEntryView| DiskRecordView::Append { entry: e });
        assert(rest =~= snap + apps);
        lemma_replay_all_append(v1, s1, snap, apps);
        assert(snap.drop_last() =~= Seq::<DiskRecordView>::empty());
        assert(replay_all(v1, s1, Seq::empty()) == (v1, s1));
        let (v2, s2) = replay_all(v1, s1, snap);
        assert(v2.log == seq![sentinel(after.last_included_term)]);
        lemma_replay_appends(v2, s2, kept);
        assert(seq![sentinel(after.last_included_term)] + kept =~= after.log);
    } else {
        lemma_common_prefix_exists(before.log, after.log, 0);
        let m = common_prefix_len(before.log, after.log);
        let cut = if m < before.log.len() {
            seq![DiskRecordView::Truncate { physical_index: m as usize }]
        } else {
            Seq::empty()
        };
        let apps = after.log.skip(m).map_values(|e: LogEntryView| DiskRecordView::Append { entry: e });
        assert(rest =~= cut + apps);
        lemma_replay_all_append(v1, s1, cut, apps);
        assert(replay_all(v1, s1, Seq::empty()) == (v1, s1));
        let (v2, s2) = replay_all(v1, s1, cut);
        if cut.len() == 1 {
            assert(cut.drop_last() =~= Seq::<DiskRecordView>::empty());
        }
        assert(v2.log =~= before.log.take(m));
        lemma_replay_appends(v2, s2, after.log.skip(m));
        assert(before.log.take(m) + after.log.skip(m) =~= after.log);
    }
}

} // verus!
