use vstd::prelude::*;

verus! {

/// How the state machine interprets an entry.
#[derive(Clone, Copy, Debug, PartialEq, Eq, Structural)]
pub enum LogEntryType {
    /// A command for the state machine.
    Command,
    /// A change of the cluster's membership (reserved: the state machine ignores it).
    Configuration,
    /// An empty entry that a new leader appends to assert its leadership.
    Noop,
}

/// One entry of the replicated log.
#[derive(Clone, Debug)]
pub struct LogEntry {
    /// Term in which the leader received the entry.
    pub term: u64,
    /// Logical position of the entry, counted from 1.
    pub index: u64,
    pub entry_type: LogEntryType,
    /// Opaque payload (an encoded command for `Command` entries).
    pub data: Vec<u8>,
}

/// Mathematical model of a log entry.
pub struct EntryView {
    pub term: u64,
    pub index: u64,
    pub entry_type: LogEntryType,
    pub data: Seq<u8>,
}

impl View for LogEntry {
    type V = EntryView;

    open spec fn view(&self) -> EntryView {
        EntryView { term: self.term, index: self.index, entry_type: self.entry_type, data: self.data@ }
    }
}

impl LogEntry {
    /// A copy of the entry with the same fields.
    pub fn duplicate(&self) -> (r: LogEntry)
        ensures
            r@ == self@,
    {
        let data = self.data.clone();
        assert(data@ =~= self.data@);
        LogEntry { term: self.term, index: self.index, entry_type: self.entry_type, data }
    }
}

/// Whether the entries are numbered `base + 1, base + 2, ...` without gaps.
pub open spec fn indexes_follow(entries: Seq<EntryView>, base: int) -> bool {
    forall|k: int| 0 <= k < entries.len() ==> #[trigger] entries[k].index == base + k + 1
}

/// Whether the terms never decrease along the entries, starting from `floor`.
pub open spec fn terms_monotone(entries: Seq<EntryView>, floor: u64) -> bool {
    &&& forall|k: int| 0 <= k < entries.len() ==> floor <= #[trigger] entries[k].term
    &&& forall|i: int, j: int|
        0 <= i < j < entries.len() ==> #[trigger] entries[i].term <= #[trigger] entries[j].term
}

/// The replicated log of one node, with its commit and apply positions.
///
/// Entries at or below `snapshot_index` have been compacted into a snapshot whose last
/// entry had term `snapshot_term`; the vector holds the entries that follow it.
#[derive(Debug)]
pub struct RaftLog {
    pub entries: Vec<LogEntry>,
    /// Highest index known to be committed.
    pub commit_index: u64,
    /// Highest index handed to the state machine.
    pub last_applied: u64,
    /// Index of the last entry covered by the snapshot (0 when there is none).
    pub snapshot_index: u64,
    /// Term of the last entry covered by the snapshot (0 when there is none).
    pub snapshot_term: u64,
}

impl RaftLog {
    /// The entries' models.
    pub open spec fn spec_entries(&self) -> Seq<EntryView> {
        self.entries@.map_values(|e: LogEntry| e@)
    }

    /// Index of the last entry, or of the snapshot when no entry follows it.
    pub open spec fn spec_last_index(&self) -> int {
        self.snapshot_index + self.entries@.len()
    }

    /// Term of the last entry, or of the snapshot when no entry follows it.
    pub open spec fn spec_last_term(&self) -> u64 {
        if self.entries@.len() == 0 {
            self.snapshot_term
        } else {
            self.entries@.last().term
        }
    }

    /// Whether `index` names an entry that the log still holds.
    pub open spec fn holds(&self, index: int) -> bool {
        self.snapshot_index < index <= self.spec_last_index()
    }

    /// The entry at logical index `index` (meaningful where `holds(index)`).
    pub open spec fn entry_at(&self, index: int) -> EntryView {
        self.spec_entries()[index - self.snapshot_index - 1]
    }

    /// Term of the entry at `index`: the snapshot's term at its last index, 0 at index 0.
    pub open spec fn term_at(&self, index: int) -> u64 {
        if self.holds(index) {
            self.entry_at(index).term
        } else if index == self.snapshot_index {
            self.snapshot_term
        } else {
            0
        }
    }

    /// The log's invariant: gap-free indexes after the snapshot, terms that never decrease,
    /// and `snapshot_index <= last_applied <= commit_index <= last_index`.
    pub open spec fn wf(&self) -> bool {
        &&& indexes_follow(self.spec_entries(), self.snapshot_index as int)
        &&& terms_monotone(self.spec_entries(), self.snapshot_term)
        &&& self.snapshot_index <= self.last_applied
        &&& self.last_applied <= self.commit_index
        &&& self.commit_index <= self.spec_last_index()
        &&& self.spec_last_index() <= u64::MAX
        &&& (self.snapshot_index == 0 ==> self.snapshot_term == 0)
    }

    /// In a well-formed log every entry that the log holds sits at its own index: indexes
    /// count from 1 (from the snapshot's last index on), without gaps, strictly increasing.
    pub proof fn lemma_indexes_gap_free(&self)
        requires
            self.wf(),
        ensures
            forall|i: int| #[trigger] self.holds(i) ==> self.entry_at(i).index == i,
            forall|i: int, j: int| self.holds(i) && self.holds(j) && i < j ==> #[trigger] self.entry_at(i).index
                < #[trigger] self.entry_at(j).index,
            self.snapshot_index == 0 && self.spec_entries().len() > 0 ==> self.spec_entries()[0].index == 1,
    {
    }

    /// In a well-formed log an entry's term is never below the term of an earlier entry.
    pub proof fn lemma_terms_monotone(&self)
        requires
            self.wf(),
        ensures
            forall|i: int, j: int| self.holds(i) && self.holds(j) && i < j ==> #[trigger] self.term_at(i)
                <= #[trigger] self.term_at(j),
    {
        assert forall|i: int, j: int| self.holds(i) && self.holds(j) && i < j implies #[trigger] self.term_at(i)
            <= #[trigger] self.term_at(j) by {
            let es = self.spec_entries();
            assert(es[i - self.snapshot_index - 1].term <= es[j - self.snapshot_index - 1].term);
        }
    }

    /// Nothing is applied beyond what is committed, nor committed beyond the log's end.
    pub proof fn lemma_applied_within_committed(&self)
        requires
            self.wf(),
        ensures
            self.last_applied <= self.commit_index <= self.spec_last_index(),
    {
    }

    /// An empty log.
    pub fn new() -> (r: Self)
        ensures
            r.wf(),
            r.entries@.len() == 0,
            r.commit_index == 0,
            r.last_applied == 0,
            r.snapshot_index == 0,
            r.snapshot_term == 0,
    {
        RaftLog {
            entries: Vec::new(),
            commit_index: 0,
            last_applied: 0,
            snapshot_index: 0,
            snapshot_term: 0,
        }
    }

    /// An empty log that starts after a snapshot covering `index` (whose last term is `term`);
    /// everything up to `index` counts as committed and applied.
    pub fn from_snapshot(index: u64, term: u64) -> (r: Self)
        requires
            index == 0 ==> term == 0,
        ensures
            r.wf(),
            r.entries@.len() == 0,
            r.commit_index == index,
            r.last_applied == index,
            r.snapshot_index == index,
            r.snapshot_term == term,
    {
        RaftLog {
            entries: Vec::new(),
            commit_index: index,
            last_applied: index,
            snapshot_index: index,
            snapshot_term: term,
        }
    }

    /// Appends `entry` at the tail.
    pub fn append(&mut self, entry: LogEntry)
        requires
            old(self).wf(),
            entry.index == old(self).spec_last_index() + 1,
            entry.term >= old(self).spec_last_term(),
        ensures
            final(self).wf(),
            final(self).entries@ == old(self).entries@.push(entry),
            final(self).spec_last_index() == entry.index,
            final(self).spec_last_term() == entry.term,
            final(self).commit_index == old(self).commit_index,
            final(self).last_applied == old(self).last_applied,
            final(self).snapshot_index == old(self).snapshot_index,
            final(self).snapshot_term == old(self).snapshot_term,
    {
        self.entries.push(entry);
        assert(self.spec_entries() =~= old(self).spec_entries().push(entry@));
        let ghost es = old(self).spec_entries();
        assert forall|k: int| 0 <= k < es.len() implies es[k].term <= entry.term by {
            assert(es[k].term <= es[es.len() - 1].term);
        }
    }

    /// The entry at logical index `index`, or `None` when the log does not hold it
    /// (0, compacted, or past the tail).
    pub fn get(&self, index: u64) -> (r: Option<&LogEntry>)
        requires
            self.wf(),
        ensures
            r is Some <==> self.holds(index as int),
            r matches Some(e) ==> e@ == self.entry_at(index as int),
    {
        if index > self.snapshot_index && index - self.snapshot_index <= self.entries.len() as u64 {
            Some(&self.entries[(index - self.snapshot_index - 1) as usize])
        } else {
            None
        }
    }

    /// Index of the last entry (of the snapshot when the log is empty; 0 for a fresh log).
    pub fn last_index(&self) -> (r: u64)
        requires
            self.wf(),
        ensures
            r == self.spec_last_index(),
    {
        self.snapshot_index + self.entries.len() as u64
    }

    /// Term of the last entry (of the snapshot when the log is empty; 0 for a fresh log).
    pub fn last_term(&self) -> (r: u64)
        requires
            self.wf(),
        ensures
            r == self.spec_last_term(),
    {
        if self.entries.len() == 0 {
            self.snapshot_term
        } else {
            self.entries[self.entries.len() - 1].term
        }
    }

    /// Term of the entry at `index`: the snapshot's term at its last index, 0 at index 0
    /// and wherever the log holds nothing.
    pub fn term_of(&self, index: u64) -> (r: u64)
        requires
            self.wf(),
        ensures
            r == self.term_at(index as int),
    {
        match self.get(index) {
            Some(e) => e.term,
            None => if index == self.snapshot_index {
                self.snapshot_term
            } else {
                0
            },
        }
    }

    /// Removes every entry whose index is `index` or more. Committed entries are never removed.
    pub fn truncate_from(&mut self, index: u64)
        requires
            old(self).wf(),
            old(self).commit_index < index,
        ensures
            final(self).wf(),
            index <= old(self).spec_last_index() ==> final(self).entries@ == old(self).entries@.subrange(
                0,
                index - old(self).snapshot_index - 1,
            ),
            index > old(self).spec_last_index() ==> final(self).entries@ == old(self).entries@,
            final(self).commit_index == old(self).commit_index,
            final(self).last_applied == old(self).last_applied,
            final(self).snapshot_index == old(self).snapshot_index,
            final(self).snapshot_term == old(self).snapshot_term,
    {
        if index <= self.last_index() {
            let keep = (index - self.snapshot_index - 1) as usize;
            self.entries.truncate(keep);
            assert(self.spec_entries() =~= old(self).spec_entries().subrange(0, keep as int));
        }
    }

    /// Drops the entries up to `index`, which must be applied already; the snapshot then
    /// covers `index`.
    pub fn compact_to(&mut self, index: u64)
        requires
            old(self).wf(),
            old(self).snapshot_index < index <= old(self).last_applied,
        ensures
            final(self).wf(),
            final(self).snapshot_index == index,
            final(self).snapshot_term == old(self).term_at(index as int),
            final(self).entries@ == old(self).entries@.subrange(
                index - old(self).snapshot_index,
                old(self).entries@.len() as int,
            ),
            final(self).commit_index == old(self).commit_index,
            final(self).last_applied == old(self).last_applied,
            forall|i: int| final(self).holds(i) ==> old(self).holds(i) && final(self).entry_at(i) == old(self).entry_at(i),
    {
        assert(index - self.snapshot_index <= self.entries.len());
        let cut = (index - self.snapshot_index) as usize;
        let term = self.entries[cut - 1].term;
        let ghost es = old(self).spec_entries();
        assert(es[cut - 1].term == term);
        assert forall|k: int| cut <= k < es.len() implies term <= #[trigger] es[k].term by {
            assert(es[cut - 1].term <= es[k].term);
        }
        let rest = self.entries.split_off(cut);
        self.entries = rest;
        self.snapshot_index = index;
        self.snapshot_term = term;
        assert(self.spec_entries() =~= old(self).spec_entries().subrange(cut as int, old(self).entries@.len() as int));
        assert(old(self).spec_entries()[cut - 1].term == term);
    }
}

/// Role of a node.
#[derive(Debug, PartialEq, Eq, Clone, Copy, Structural)]
pub enum RaftRole {
    Follower,
    Candidate,
    Leader,
}

/// The persistent core of a node: identity, term, vote, role and log.
pub struct RaftNode {
    /// This node's id.
    pub id: String,
    /// Latest term the node has seen.
    pub current_term: u64,
    /// Candidate that received this node's vote in the current term.
    pub voted_for: Option<String>,
    pub role: RaftRole,
    pub log: RaftLog,
}

impl RaftNode {
    /// A follower at term 0 with an empty log.
    pub fn new(id: String) -> (r: Self)
        ensures
            r.id@ == id@,
            r.current_term == 0,
            r.voted_for is None,
            r.role == RaftRole::Follower,
            r.log.wf(),
            r.log.entries@.len() == 0,
            r.log.commit_index == 0,
            r.log.snapshot_index == 0,
    {
        RaftNode { id, current_term: 0, voted_for: None, role: RaftRole::Follower, log: RaftLog::new() }
    }

    /// Starts a candidacy: the term goes up by one and the node votes for itself.
    pub fn become_candidate(&mut self)
        requires
            old(self).current_term < u64::MAX,
        ensures
            final(self).current_term == old(self).current_term + 1,
            final(self).voted_for matches Some(v) && v@ == old(self).id@,
            final(self).role == RaftRole::Candidate,
            final(self).id == old(self).id,
            final(self).log == old(self).log,
    {
        self.current_term = self.current_term + 1;
        self.voted_for = Some(self.id.clone());
        self.role = RaftRole::Candidate;
    }

    /// Takes leadership: the node appends a Noop entry of its current term.
    pub fn become_leader(&mut self)
        requires
            old(self).log.wf(),
            old(self).log.spec_last_term() <= old(self).current_term,
            old(self).log.spec_last_index() < u64::MAX,
        ensures
            final(self).role == RaftRole::Leader,
            final(self).log.wf(),
            final(self).log.entries@.len() == old(self).log.entries@.len() + 1,
            final(self).log.entries@.drop_last() == old(self).log.entries@,
            final(self).log.entries@.last()@ == (EntryView {
                term: old(self).current_term,
                index: (old(self).log.spec_last_index() + 1) as u64,
                entry_type: LogEntryType::Noop,
                data: Seq::empty(),
            }),
            final(self).log.commit_index == old(self).log.commit_index,
            final(self).log.last_applied == old(self).log.last_applied,
            final(self).log.snapshot_index == old(self).log.snapshot_index,
            final(self).current_term == old(self).current_term,
            final(self).voted_for == old(self).voted_for,
            final(self).id == old(self).id,
    {
        self.role = RaftRole::Leader;
        let entry = LogEntry {
            term: self.current_term,
            index: self.log.last_index() + 1,
            entry_type: LogEntryType::Noop,
            data: Vec::new(),
        };
        self.log.append(entry);
        assert(self.log.entries@.drop_last() =~= old(self).log.entries@);
        assert(entry.data@ =~= Seq::<u8>::empty());
    }

    /// Steps down to follower at `term`, forgetting the vote.
    pub fn become_follower(&mut self, term: u64)
        requires
            old(self).current_term <= term,
        ensures
            final(self).current_term == term,
            final(self).voted_for is None,
            final(self).role == RaftRole::Follower,
            final(self).id == old(self).id,
            final(self).log == old(self).log,
    {
        self.current_term = term;
        self.voted_for = None;
        self.role = RaftRole::Follower;
    }
}

} // verus!
