use vstd::prelude::*;
use crate::log::{indexes_follow, terms_monotone, EntryView, LogEntry, LogEntryType, RaftLog};
use crate::codec::DecodeError;
use crate::state_machine::{command_of, decode_command, enc_command, next_state, KeyValueStore, KvCommandView, KvMap};
use crate::snapshot::RaftSnapshot;
use crate::rpc::{AppendEntriesRequestView, AppendEntriesRequest, AppendEntriesResponse, RequestVoteRequest, RequestVoteResponse};

verus! {

/// A client command was submitted to a node that does not lead.
#[derive(Debug, Clone, Copy, PartialEq, Eq, Structural)]
pub struct NotLeader;

/// Role of the node in the cluster.
#[derive(Debug, Clone, Copy, PartialEq, Eq, Structural)]
pub enum NodeRole {
    Follower,
    Candidate,
    Leader,
}

/// A node of the cluster: its persistent state (term, vote, log), its timers and, while it
/// leads, what it knows of each peer's log.
///
/// Time is kept in milliseconds on a clock that the caller supplies through `tick`.
pub struct RaftNode {
    pub id: String,
    pub current_term: u64,
    pub voted_for: Option<String>,
    pub role: NodeRole,
    pub log: RaftLog,
    /// The other nodes of the cluster.
    pub peers: Vec<String>,
    pub election_timeout_ms: u64,
    /// The latest time that `tick` reported.
    pub clock_ms: u64,
    /// When the election timer was last reset.
    pub last_heartbeat_ms: u64,
    /// Distinct ids of the nodes that granted a vote in the current candidacy.
    pub votes_received: Vec<String>,
    /// For each peer (same position as in `peers`): next log index to send to it.
    pub next_index: Vec<u64>,
    /// For each peer (same position as in `peers`): highest index known to be replicated on it.
    pub match_index: Vec<u64>,
    /// The replicated state machine; only `apply_committed_entries` and `restore_snapshot` change it.
    pub state_machine: KeyValueStore,
}

impl RaftNode {
    /// Number of nodes in the cluster, this one included.
    pub open spec fn cluster_size(&self) -> int {
        self.peers@.len() + 1int
    }

    /// Whether `id` is this node or one of its peers.
    pub open spec fn is_member(&self, id: Seq<char>) -> bool {
        id == self.id@ || ids_view(self.peers@).contains(id)
    }

    /// The ids that granted a vote in the current candidacy.
    pub open spec fn votes(&self) -> Seq<Seq<char>> {
        ids_view(self.votes_received@)
    }

    /// How many nodes hold the log up to `n`: the peers by `match_index`, this node by its log.
    pub open spec fn replicas_at_least(&self, n: int) -> nat {
        count_at_least(self.match_index@, n) + if self.log.spec_last_index() >= n {
            1nat
        } else {
            0nat
        }
    }

    /// Whether a leader may commit up to `n`: a majority holds it and its term is the current one.
    pub open spec fn committable(&self, n: int) -> bool {
        &&& self.log.commit_index < n <= self.log.spec_last_index()
        &&& self.log.term_at(n) == self.current_term
        &&& self.replicas_at_least(n) >= majority(self.cluster_size())
    }

    /// The node's invariant.
    pub open spec fn wf(&self) -> bool {
        &&& self.log.wf()
        &&& self.log.spec_last_term() <= self.current_term
        &&& self.next_index@.len() == self.peers@.len()
        &&& self.match_index@.len() == self.peers@.len()
        &&& self.last_heartbeat_ms <= self.clock_ms
        &&& self.votes().no_duplicates()
        &&& ids_view(self.peers@).no_duplicates()
        &&& self.state_machine.wf()
    }

    /// What holds between any two observations of a node, `a` before `b`: the term and the
    /// commit index never go down, a vote cast in a term is never changed within that term,
    /// committed entries never change, and identity and membership stay.
    pub open spec fn evolves(a: RaftNode, b: RaftNode) -> bool {
        &&& a.current_term <= b.current_term
        &&& a.log.commit_index <= b.log.commit_index
        &&& (a.current_term == b.current_term && a.voted_for is Some ==> id_view(b.voted_for)
            == id_view(a.voted_for))
        &&& a.log.snapshot_index <= b.log.snapshot_index
        &&& forall|i: int|
            b.log.snapshot_index < i <= a.log.commit_index ==> #[trigger] b.log.holds(i)
                && b.log.entry_at(i) == a.log.entry_at(i)
        &&& b.id@ == a.id@
        &&& b.peers@ == a.peers@
        &&& b.election_timeout_ms == a.election_timeout_ms
    }

    /// The relation between observations is transitive, so the term and the commit index
    /// never go down over a node's whole lifetime, and a vote once cast stays for the term.
    pub proof fn lemma_evolves_transitive(a: RaftNode, b: RaftNode, c: RaftNode)
        requires
            a.wf(),
            b.wf(),
            RaftNode::evolves(a, b),
            RaftNode::evolves(b, c),
        ensures
            RaftNode::evolves(a, c),
    {
        assert forall|i: int| c.log.snapshot_index < i <= a.log.commit_index implies #[trigger] c.log.holds(i)
            && c.log.entry_at(i) == a.log.entry_at(i) by {
            assert(b.log.holds(i));
            assert(b.log.entry_at(i) == a.log.entry_at(i));
            assert(c.log.holds(i));
            assert(c.log.entry_at(i) == b.log.entry_at(i));
        }
    }

    /// A node votes for at most one candidate per term: once it is seen to have voted for `c`,
    /// any later observation in the same term shows the same vote.
    pub proof fn lemma_one_vote_per_term(a: RaftNode, b: RaftNode, c: Seq<char>)
        requires
            RaftNode::evolves(a, b),
            id_view(a.voted_for) == Some(c),
            a.current_term == b.current_term,
        ensures
            id_view(b.voted_for) == Some(c),
    {
    }

    /// A follower at term 0 with an empty log, whose election timer starts at time 0.
    pub fn new(id: String, peers: Vec<String>, election_timeout_ms: u64) -> (r: Self)
        requires
            ids_view(peers@).no_duplicates(),
        ensures
            r.wf(),
            r.id@ == id@,
            r.peers@ == peers@,
            r.election_timeout_ms == election_timeout_ms,
            r.current_term == 0,
            r.voted_for is None,
            r.role == NodeRole::Follower,
            r.log.spec_entries().len() == 0,
            r.log.commit_index == 0,
            r.log.last_applied == 0,
            r.log.snapshot_index == 0,
            r.clock_ms == 0,
            r.last_heartbeat_ms == 0,
            r.votes_received@.len() == 0,
            r.state_machine@ == Map::<Seq<char>, Seq<char>>::empty(),
            r.next_index@ == Seq::new(peers@.len(), |i: int| 1u64),
            r.match_index@ == Seq::new(peers@.len(), |i: int| 0u64),
    {
        let n = peers.len();
        let next_index = filled(n, 1);
        let match_index = filled(n, 0);
        RaftNode {
            id,
            current_term: 0,
            voted_for: None,
            role: NodeRole::Follower,
            log: RaftLog::new(),
            peers,
            election_timeout_ms,
            clock_ms: 0,
            last_heartbeat_ms: 0,
            votes_received: Vec::new(),
            next_index,
            match_index,
            state_machine: KeyValueStore::new(),
        }
    }
}

impl RaftNode {
    /// Position of the peer `id` in `peers`.
    fn find_peer(&self, id: &String) -> (r: Option<usize>)
        ensures
            r matches Some(k) ==> k < self.peers@.len() && self.peers@[k as int]@ == id@,
            r is None ==> !ids_view(self.peers@).contains(id@),
            r is None ==> forall|i: int| 0 <= i < self.peers@.len() ==> self.peers@[i]@ != id@,
    {
        let mut k: usize = 0;
        while k < self.peers.len()
            invariant
                k <= self.peers@.len(),
                forall|i: int| 0 <= i < k ==> self.peers@[i]@ != id@,
            decreases self.peers@.len() - k,
        {
            if self.peers[k] == *id {
                return Some(k);
            }
            k = k + 1;
        }
        proof {
            if ids_view(self.peers@).contains(id@) {
                let i = choose|i: int| 0 <= i < self.peers@.len() && ids_view(self.peers@)[i] == id@;
                assert(self.peers@[i]@ == id@);
            }
        }
        None
    }

    /// Whether `id` already granted a vote in the current candidacy.
    fn has_vote_from(&self, id: &String) -> (r: bool)
        ensures
            r == self.votes().contains(id@),
    {
        let mut k: usize = 0;
        while k < self.votes_received.len()
            invariant
                k <= self.votes_received@.len(),
                forall|i: int| 0 <= i < k ==> self.votes_received@[i]@ != id@,
            decreases self.votes_received@.len() - k,
        {
            if self.votes_received[k] == *id {
                assert(self.votes()[k as int] == id@);
                return true;
            }
            k = k + 1;
        }
        proof {
            if self.votes().contains(id@) {
                let i = choose|i: int| 0 <= i < self.votes().len() && self.votes()[i] == id@;
                assert(self.votes_received@[i]@ == id@);
            }
        }
        false
    }

    /// Steps down to follower at `term` and resets the election timer. The vote is forgotten
    /// when the term advances.
    pub fn become_follower(&mut self, term: u64)
        requires
            old(self).wf(),
            old(self).current_term <= term,
        ensures
            final(self).wf(),
            RaftNode::evolves(*old(self), *final(self)),
            final(self).role == NodeRole::Follower,
            final(self).current_term == term,
            term > old(self).current_term ==> final(self).voted_for is None,
            term == old(self).current_term ==> final(self).voted_for == old(self).voted_for,
            final(self).votes_received@.len() == 0,
            final(self).last_heartbeat_ms == final(self).clock_ms,
            final(self).clock_ms == old(self).clock_ms,
            final(self).log == old(self).log,
            final(self).next_index == old(self).next_index,
            final(self).match_index == old(self).match_index,
    {
        if term > self.current_term {
            self.voted_for = None;
        }
        self.role = NodeRole::Follower;
        self.current_term = term;
        self.last_heartbeat_ms = self.clock_ms;
        self.votes_received = Vec::new();
        assert(self.votes() =~= Seq::<Seq<char>>::empty());
    }

    /// Takes leadership: every peer's `next_index` becomes the index after the log's last
    /// entry and its `match_index` 0; then a Noop entry of the current term is appended, and
    /// the election timer is reset. Returns the heartbeat for each peer, in the order of `peers`.
    pub fn become_leader(&mut self) -> (r: Vec<AppendEntriesRequest>)
        requires
            old(self).wf(),
            old(self).log.spec_last_index() < u64::MAX,
        ensures
            final(self).wf(),
            r@.len() == old(self).peers@.len(),
            forall|k: int| 0 <= k < r@.len() ==> #[trigger] r@[k]@ == final(self).request_for(k),
            RaftNode::evolves(*old(self), *final(self)),
            final(self).role == NodeRole::Leader,
            final(self).current_term == old(self).current_term,
            final(self).voted_for == old(self).voted_for,
            final(self).next_index@ == Seq::new(
                old(self).peers@.len(),
                |i: int| (old(self).log.spec_last_index() + 1) as u64,
            ),
            final(self).match_index@ == Seq::new(old(self).peers@.len(), |i: int| 0u64),
            final(self).log.spec_entries() == old(self).log.spec_entries().push(
                EntryView {
                    term: old(self).current_term,
                    index: (old(self).log.spec_last_index() + 1) as u64,
                    entry_type: LogEntryType::Noop,
                    data: Seq::empty(),
                },
            ),
            final(self).log.commit_index == old(self).log.commit_index,
            final(self).log.last_applied == old(self).log.last_applied,
            final(self).log.snapshot_index == old(self).log.snapshot_index,
            final(self).log.snapshot_term == old(self).log.snapshot_term,
            final(self).last_heartbeat_ms == final(self).clock_ms,
            final(self).clock_ms == old(self).clock_ms,
            final(self).votes_received@ == old(self).votes_received@,
            *final(self) == (RaftNode {
                role: NodeRole::Leader,
                log: final(self).log,
                next_index: final(self).next_index,
                match_index: final(self).match_index,
                last_heartbeat_ms: final(self).last_heartbeat_ms,
                ..*old(self)
            }),
    {
        self.role = NodeRole::Leader;
        let last = self.log.last_index();
        self.next_index = filled(self.peers.len(), last + 1);
        self.match_index = filled(self.peers.len(), 0);
        let entry = LogEntry { term: self.current_term, index: last + 1, entry_type: LogEntryType::Noop, data: Vec::new() };
        assert(entry@.data =~= Seq::<u8>::empty());
        self.log.append(entry);
        self.last_heartbeat_ms = self.clock_ms;
        assert(self.log.spec_entries() =~= old(self).log.spec_entries().push(entry@));
        assert forall|i: int| self.log.snapshot_index < i <= old(self).log.commit_index implies #[trigger] self.log.holds(i)
            && self.log.entry_at(i) == old(self).log.entry_at(i) by {}
        self.send_heartbeats()
    }

    /// Starts an election: the term goes up by one, the node votes for itself and resets its
    /// election timer. A node without peers is then a majority on its own and leads at once.
    /// Returns the RequestVote request to hand to every peer.
    pub fn start_election(&mut self) -> (r: RequestVoteRequest)
        requires
            old(self).wf(),
            old(self).current_term < u64::MAX,
            old(self).log.spec_last_index() < u64::MAX,
        ensures
            r.term == final(self).current_term,
            r.candidate_id@ == old(self).id@,
            r.last_log_index == old(self).log.spec_last_index(),
            r.last_log_term == old(self).log.spec_last_term(),
            final(self).wf(),
            RaftNode::evolves(*old(self), *final(self)),
            final(self).current_term == old(self).current_term + 1,
            id_view(final(self).voted_for) == Some(old(self).id@),
            final(self).votes() == seq![old(self).id@],
            final(self).role == if old(self).peers@.len() == 0 {
                NodeRole::Leader
            } else {
                NodeRole::Candidate
            },
            final(self).last_heartbeat_ms == final(self).clock_ms,
            final(self).clock_ms == old(self).clock_ms,
            old(self).peers@.len() > 0 ==> final(self).log == old(self).log,
    {
        self.role = NodeRole::Candidate;
        self.current_term = self.current_term + 1;
        self.voted_for = Some(self.id.clone());
        let mut votes: Vec<String> = Vec::new();
        votes.push(self.id.clone());
        self.votes_received = votes;
        self.last_heartbeat_ms = self.clock_ms;
        assert(self.votes() =~= seq![old(self).id@]);
        let req = self.vote_request();
        if self.votes_received.len() >= quorum(self.peers.len()) {
            self.become_leader();
        }
        req
    }

    /// Whether the election timer has run out: the node does not lead and at least
    /// `election_timeout_ms` have passed since the timer was last reset.
    pub open spec fn election_due(&self) -> bool {
        self.role != NodeRole::Leader && self.clock_ms - self.last_heartbeat_ms >= self.election_timeout_ms
    }

    /// Advances the clock to `now_ms` (a clock never goes back) and starts an election when
    /// the election timer has run out (and the term and the log can still grow); it then
    /// returns the RequestVote request for the peers.
    pub fn tick(&mut self, now_ms: u64) -> (r: Option<RequestVoteRequest>)
        requires
            old(self).wf(),
        ensures
            final(self).wf(),
            RaftNode::evolves(*old(self), *final(self)),
            final(self).clock_ms == if now_ms > old(self).clock_ms {
                now_ms
            } else {
                old(self).clock_ms
            },
            ({
                let due = (RaftNode { clock_ms: final(self).clock_ms, ..*old(self) }).election_due()
                    && old(self).current_term < u64::MAX && old(self).log.spec_last_index() < u64::MAX;
                &&& due ==> final(self).current_term == old(self).current_term + 1
                    && final(self).role == (if old(self).peers@.len() == 0 {
                        NodeRole::Leader
                    } else {
                        NodeRole::Candidate
                    })
                    && id_view(final(self).voted_for) == Some(old(self).id@)
                    && final(self).votes() == seq![old(self).id@]
                    && final(self).last_heartbeat_ms == final(self).clock_ms
                    && (r matches Some(q) && q.term == final(self).current_term && q.candidate_id@
                    == old(self).id@ && q.last_log_index == old(self).log.spec_last_index()
                    && q.last_log_term == old(self).log.spec_last_term())
                &&& !due ==> *final(self) == (RaftNode { clock_ms: final(self).clock_ms, ..*old(self) })
                    && r is None
            }),
    {
        if now_ms > self.clock_ms {
            self.clock_ms = now_ms;
        }
        let ghost ticked = *self;
        if self.role != NodeRole::Leader && self.clock_ms - self.last_heartbeat_ms >= self.election_timeout_ms
            && self.current_term < u64::MAX && self.log.last_index() < u64::MAX {
            let req = self.start_election();
            proof {
                RaftNode::lemma_evolves_transitive(*old(self), ticked, *self);
            }
            return Some(req);
        }
        None
    }

    /// Handles a vote from `voter_id` for `term`. A higher term makes the node a follower of
    /// that term. A grant counts only while the node is a candidate of the same term and only
    /// once per member of the cluster; when the grants reach a majority the node leads and
    /// returns the heartbeat for each peer (otherwise nothing).
    pub fn receive_vote(&mut self, voter_id: String, term: u64, vote_granted: bool) -> (r: Vec<AppendEntriesRequest>)
        requires
            old(self).wf(),
        ensures
            final(self).wf(),
            final(self).role == NodeRole::Leader && old(self).role != NodeRole::Leader ==> r@.len()
                == old(self).peers@.len() && forall|k: int| 0 <= k < r@.len() ==> #[trigger] r@[k]@
                == final(self).request_for(k),
            !(final(self).role == NodeRole::Leader && old(self).role != NodeRole::Leader) ==> r@.len() == 0,
            RaftNode::evolves(*old(self), *final(self)),
            term > old(self).current_term ==> final(self).role == NodeRole::Follower
                && final(self).current_term == term && final(self).voted_for is None,
            term <= old(self).current_term ==> final(self).current_term == old(self).current_term
                && final(self).voted_for == old(self).voted_for,
            term < old(self).current_term || (term == old(self).current_term && old(self).role
                != NodeRole::Candidate) ==> *final(self) == *old(self),
            ({
                let counts = term == old(self).current_term && old(self).role == NodeRole::Candidate;
                let fresh = vote_granted && old(self).is_member(voter_id@) && !old(self).votes().contains(voter_id@);
                let votes = if fresh { old(self).votes().push(voter_id@) } else { old(self).votes() };
                counts ==> {
                    &&& final(self).votes() == votes
                    &&& (votes.len() >= majority(old(self).cluster_size()) && old(self).log.spec_last_index()
                        < u64::MAX) ==> final(self).role == NodeRole::Leader
                    &&& !(votes.len() >= majority(old(self).cluster_size()) && old(self).log.spec_last_index()
                        < u64::MAX) ==> final(self).role == NodeRole::Candidate && final(self).log == old(self).log
                }
            }),
    {
        if term > self.current_term {
            self.become_follower(term);
            return Vec::new();
        }
        if self.role != NodeRole::Candidate || term < self.current_term {
            return Vec::new();
        }
        if vote_granted && !self.has_vote_from(&voter_id) {
            let member = if voter_id == self.id {
                true
            } else {
                match self.find_peer(&voter_id) {
                    Some(k) => {
                        assert(ids_view(self.peers@)[k as int] == voter_id@);
                        true
                    },
                    None => false,
                }
            };
            if member {
                self.votes_received.push(voter_id);
                assert(self.votes() =~= old(self).votes().push(voter_id@));
            }
        }
        if self.votes_received.len() >= quorum(self.peers.len()) && self.log.last_index() < u64::MAX {
            return self.become_leader();
        }
        Vec::new()
    }
}

impl RaftNode {
    /// Whether the node takes an AppendEntries request: its term is not stale, the node does not
    /// lead in that very term, its log holds the entry before the batch with the same term, and
    /// the batch is well formed.
    pub open spec fn accepts(&self, req: AppendEntriesRequestView) -> bool {
        &&& req.term >= self.current_term
        &&& !(req.term == self.current_term && self.role == NodeRole::Leader)
        &&& consistent(self.log, req.prev_log_index as int, req.prev_log_term)
        &&& batch_ok(req.entries, req.prev_log_index as int, req.prev_log_term, req.term)
    }

    /// Whether the node grants its vote for `req`: the term is not stale, the node has not voted
    /// for another candidate in that term, and the candidate's log is at least as up to date.
    pub open spec fn grants(&self, req: crate::rpc::RequestVoteRequestView) -> bool {
        &&& req.term >= self.current_term
        &&& (req.term > self.current_term || self.voted_for is None || id_view(self.voted_for) == Some(
            req.candidate_id,
        ))
        &&& up_to_date(req.last_log_index, req.last_log_term, self.log)
    }

    /// Whether this node takes `req` (see `accepts`).
    pub fn takes_request(&self, req: &AppendEntriesRequest) -> (r: bool)
        requires
            self.wf(),
        ensures
            r == self.accepts(req@),
    {
        if req.term < self.current_term {
            return false;
        }
        if req.term == self.current_term && self.role == NodeRole::Leader {
            return false;
        }
        let prev = req.prev_log_index;
        if prev < self.log.snapshot_index || prev > self.log.last_index() || (prev > 0 && self.log.term_of(prev)
            != req.prev_log_term) {
            return false;
        }
        batch_fits(&req.entries, prev, req.prev_log_term, req.term)
    }

    /// Whether this node would take `req` and merging its batch would cut an entry that this
    /// node has committed: a broken protocol. A stale or mismatching request is refused in the
    /// ordinary way instead, so this answers false for it.
    pub fn would_overwrite_committed(&self, req: &AppendEntriesRequest) -> (r: bool)
        requires
            self.wf(),
        ensures
            r == (self.accepts(req@) && overwrites_committed(self.log, req.prev_log_index as int, req@.entries)),
    {
        if !self.takes_request(req) {
            return false;
        }
        let ghost es = req@.entries;
        let prev = req.prev_log_index;
        let last = self.log.last_index();
        let n = req.entries.len();
        let mut j: usize = 0;
        while j < n && held_at_offset(&self.log, prev, j, req.entries[j].term)
            invariant
                j <= n == es.len(),
                es == req@.entries,
                self.log.wf(),
                last == self.log.spec_last_index(),
                forall|i: int| 0 <= i < j ==> holds_same(self.log, prev as int, es, i),
            decreases n - j,
        {
            j = j + 1;
        }
        proof {
            lemma_first_mismatch(self.log, prev as int, es, j as int, 0);
        }
        if j < n && prev < last && (j as u64) < last - prev {
            let idx = prev + 1 + j as u64;
            idx > self.log.snapshot_index && idx <= self.log.commit_index
        } else {
            false
        }
    }

    /// Handles a RequestVote request from a candidate.
    pub fn handle_request_vote(&mut self, req: RequestVoteRequest) -> (r: RequestVoteResponse)
        requires
            old(self).wf(),
        ensures
            final(self).wf(),
            RaftNode::evolves(*old(self), *final(self)),
            r.term == final(self).current_term,
            r.vote_granted == old(self).grants(req@),
            req.term < old(self).current_term ==> *final(self) == *old(self),
            req.term >= old(self).current_term ==> final(self).current_term == req.term,
            req.term > old(self).current_term ==> final(self).role == NodeRole::Follower,
            req.term == old(self).current_term ==> final(self).role == old(self).role,
            r.vote_granted ==> id_view(final(self).voted_for) == Some(req.candidate_id@)
                && final(self).last_heartbeat_ms == final(self).clock_ms,
            !r.vote_granted && req.term > old(self).current_term ==> final(self).voted_for is None,
            !r.vote_granted && req.term == old(self).current_term ==> *final(self) == *old(self),
            final(self).log == old(self).log,
    {
        if req.term < self.current_term {
            return RequestVoteResponse { term: self.current_term, vote_granted: false };
        }
        if req.term > self.current_term {
            self.become_follower(req.term);
        }
        let free = match &self.voted_for {
            None => true,
            Some(v) => *v == req.candidate_id,
        };
        let last_term = self.log.last_term();
        let fresh = req.last_log_term > last_term || (req.last_log_term == last_term
            && req.last_log_index >= self.log.last_index());
        if free && fresh {
            self.voted_for = Some(req.candidate_id);
            self.last_heartbeat_ms = self.clock_ms;
            RequestVoteResponse { term: self.current_term, vote_granted: true }
        } else {
            RequestVoteResponse { term: self.current_term, vote_granted: false }
        }
    }

    /// Handles an AppendEntries request from a leader.
    ///
    /// A request of an older term is refused and changes nothing, and so is one of this
    /// node's own term while it leads (two leaders of one term cannot both be genuine). A newer
    /// term makes this node a follower of it; a candidate of the same term steps down; either
    /// way the election timer is reset. The request then succeeds only if this node's log holds
    /// the entry before the batch with the same term, and the batch is well formed (consecutive
    /// indexes, terms that never decrease and never exceed the request's). The batch is merged
    /// in: entries already held with the same term stay; from the first that differs or is
    /// missing the log is cut and the rest of the batch appended. Last, the commit index moves
    /// up to the leader's, but not past the batch's last entry.
    ///
    /// A request that this node would take and whose batch would cut a committed entry breaks
    /// the protocol; callers check `would_overwrite_committed` first and treat a true answer as
    /// fatal.
    #[verifier::rlimit(60)]
    pub fn handle_append_entries(&mut self, req: AppendEntriesRequest) -> (r: AppendEntriesResponse)
        requires
            old(self).wf(),
            old(self).accepts(req@) ==> !overwrites_committed(old(self).log, req.prev_log_index as int, req@.entries),
        ensures
            final(self).wf(),
            RaftNode::evolves(*old(self), *final(self)),
            r.term == final(self).current_term,
            r.success == old(self).accepts(req@),
            req.term < old(self).current_term || (req.term == old(self).current_term && old(self).role
                == NodeRole::Leader) ==> *final(self) == *old(self),
            req.term >= old(self).current_term ==> final(self).current_term == req.term,
            req.term > old(self).current_term ==> final(self).voted_for is None,
            req.term >= old(self).current_term && !(req.term == old(self).current_term && old(self).role
                == NodeRole::Leader) ==> final(self).role == NodeRole::Follower
                && final(self).last_heartbeat_ms == final(self).clock_ms,
            req.term == old(self).current_term ==> final(self).voted_for == old(self).voted_for,
            r.success ==> final(self).log.spec_entries() == merged_entries(
                old(self).log,
                req.prev_log_index as int,
                req@.entries,
            ) && final(self).log.commit_index == commit_after(
                old(self).log.commit_index,
                req.leader_commit,
                req.prev_log_index + req.entries@.len(),
            ),
            !r.success ==> final(self).log == old(self).log,
            final(self).log.last_applied == old(self).log.last_applied,
            final(self).log.snapshot_index == old(self).log.snapshot_index,
            final(self).log.snapshot_term == old(self).log.snapshot_term,
    {
        if req.term < self.current_term {
            return AppendEntriesResponse { term: self.current_term, success: false };
        }
        if req.term > self.current_term {
            self.become_follower(req.term);
        } else if self.role == NodeRole::Leader {
            return AppendEntriesResponse { term: self.current_term, success: false };
        } else {
            self.role = NodeRole::Follower;
            self.last_heartbeat_ms = self.clock_ms;
        }
        let ghost es = req@.entries;
        let ghost base = self.log.snapshot_index as int;
        let prev = req.prev_log_index;
        if prev < self.log.snapshot_index || prev > self.log.last_index() || (prev > 0 && self.log.term_of(prev)
            != req.prev_log_term) {
            return AppendEntriesResponse { term: self.current_term, success: false };
        }
        if !batch_fits(&req.entries, prev, req.prev_log_term, req.term) {
            return AppendEntriesResponse { term: self.current_term, success: false };
        }
        let n = req.entries.len();
        let mut j: usize = 0;
        while j < n && holds_with_term(&self.log, req.entries[j].index, req.entries[j].term)
            invariant
                j <= n == es.len(),
                es == req@.entries,
                batch_ok(es, prev as int, req.prev_log_term, req.term),
                self.log == old(self).log,
                self.log.wf(),
                forall|i: int| 0 <= i < j ==> holds_same(self.log, prev as int, es, i),
            decreases n - j,
        {
            assert(es[j as int].index == prev + 1 + j);
            j = j + 1;
        }
        proof {
            if j < n {
                assert(es[j as int].index == prev + 1 + j);
            }
            lemma_first_mismatch(self.log, prev as int, es, j as int, 0);
            if j > 0 {
                assert(holds_same(self.log, prev as int, es, j - 1));
            }
        }
        if j < n {
            let idx = req.entries[j].index;
            if idx <= self.log.last_index() {
                self.log.truncate_from(idx);
            }
            assert(old(self).log.commit_index <= prev + j);
            proof {
                assert(self.log.spec_entries() =~= old(self).log.spec_entries().subrange(0, prev + j - base));
                if j > 0 {
                    assert(self.log.spec_entries()[prev + j - base - 1] == old(self).log.spec_entries()[prev + j - base - 1]);
                }
            }
            append_batch(&mut self.log, &req.entries, j, prev, req.prev_log_term, req.term);
            assert(es[n - 1].term <= req.term);
        }
        proof {
            if n > 0 {
                assert(es[n - 1].index == prev + n);
            }
            assert forall|i: int| self.log.snapshot_index < i <= old(self).log.commit_index implies #[trigger] self.log.holds(i)
                && self.log.entry_at(i) == old(self).log.entry_at(i) by {
                if j < n {
                    assert(self.log.spec_entries()[i - base - 1] == old(self).log.spec_entries()[i - base - 1]);
                }
            }
        }
        let last_new = prev + n as u64;
        if req.leader_commit > self.log.commit_index {
            if req.leader_commit <= last_new {
                self.log.commit_index = req.leader_commit;
            } else if last_new > self.log.commit_index {
                self.log.commit_index = last_new;
            }
        }
        AppendEntriesResponse { term: self.current_term, success: true }
    }
}

impl RaftNode {
    /// How many nodes hold the log up to `n`.
    fn count_replicas(&self, n: u64) -> (r: usize)
        requires
            self.wf(),
        ensures
            r == count_at_least(self.match_index@, n as int),
            r <= self.peers@.len(),
    {
        let mut c: usize = 0;
        let mut i: usize = 0;
        while i < self.match_index.len()
            invariant
                i <= self.match_index@.len(),
                c == count_at_least(self.match_index@.take(i as int), n as int),
                c <= i,
            decreases self.match_index@.len() - i,
        {
            assert(self.match_index@.take(i as int + 1).drop_last() =~= self.match_index@.take(i as int));
            if self.match_index[i] >= n {
                c = c + 1;
            }
            i = i + 1;
        }
        assert(self.match_index@.take(i as int) =~= self.match_index@);
        c
    }

    /// The highest index that a leader may commit: the largest `n` above the commit index
    /// that is committable, or the commit index itself when there is none.
    fn commit_candidate(&self) -> (r: u64)
        requires
            self.wf(),
        ensures
            r == self.log.commit_index || self.committable(r as int),
            r >= self.log.commit_index,
            forall|n: int| #[trigger] self.committable(n) ==> n <= r,
    {
        let q = quorum(self.peers.len());
        let mut n = self.log.last_index();
        while n > self.log.commit_index
            invariant
                self.wf(),
                q == majority(self.cluster_size()),
                self.log.commit_index <= n <= self.log.spec_last_index(),
                forall|m: int| n < m && #[trigger] self.committable(m) ==> false,
            decreases n,
        {
            if self.log.term_of(n) == self.current_term {
                let c = self.count_replicas(n);
                assert(self.replicas_at_least(n as int) == c + 1);
                if c >= q - 1 {
                    return n;
                }
            }
            n = n - 1;
        }
        n
    }

    /// Moves the commit index up to the highest committable index, if any.
    fn update_commit_index(&mut self)
        requires
            old(self).wf(),
        ensures
            final(self).wf(),
            RaftNode::evolves(*old(self), *final(self)),
            final(self).log.commit_index == old(self).log.commit_index || old(self).committable(
                final(self).log.commit_index as int,
            ),
            forall|n: int| !#[trigger] final(self).committable(n),
            *final(self) == (RaftNode {
                log: RaftLog { commit_index: final(self).log.commit_index, ..old(self).log },
                ..*old(self)
            }),
    {
        let c = self.commit_candidate();
        self.log.commit_index = c;
        assert forall|n: int| !#[trigger] self.committable(n) by {
            if self.committable(n) {
                assert(old(self).committable(n));
            }
        }
    }

    /// Handles a peer's answer to an AppendEntries request that carried `sent_entries` entries
    /// after `sent_prev_log_index`.
    ///
    /// A higher term makes the node a follower of it. Otherwise only a leader of the same term
    /// acts, and only on an answer from a peer. On success the peer's `match_index` rises to the
    /// last index sent (it never goes down), its `next_index` follows it, and the commit index
    /// is recomputed; an answer that claims more than the log holds is ignored. On failure the
    /// peer's `next_index` goes down by one, not below 1.
    pub fn handle_append_entries_response(
        &mut self,
        from: String,
        response: AppendEntriesResponse,
        sent_prev_log_index: u64,
        sent_entries: u64,
    )
        requires
            old(self).wf(),
        ensures
            final(self).wf(),
            RaftNode::evolves(*old(self), *final(self)),
            response.term > old(self).current_term ==> final(self).role == NodeRole::Follower
                && final(self).current_term == response.term && final(self).voted_for is None
                && final(self).next_index == old(self).next_index && final(self).match_index
                == old(self).match_index && final(self).log == old(self).log,
            response.term <= old(self).current_term ==> final(self).current_term == old(self).current_term
                && final(self).role == old(self).role && final(self).voted_for == old(self).voted_for
                && final(self).log.spec_entries() == old(self).log.spec_entries(),
            response.term < old(self).current_term || old(self).role != NodeRole::Leader
                || !ids_view(old(self).peers@).contains(from@) ==> (response.term <= old(self).current_term
                ==> *final(self) == *old(self)),
            forall|k: int|
                0 <= k < old(self).peers@.len() && old(self).peers@[k]@ == from@ && response.term
                    == old(self).current_term && old(self).role == NodeRole::Leader ==> {
                    let reported = sent_prev_log_index + sent_entries;
                    let m = old(self).match_index@[k];
                    let nx = old(self).next_index@[k];
                    if !response.success {
                        &&& final(self).next_index@ == old(self).next_index@.update(k, if nx > 1 { (nx - 1) as u64 } else { 1u64 })
                        &&& final(self).match_index@ == old(self).match_index@
                        &&& *final(self) == (RaftNode { next_index: final(self).next_index, ..*old(self) })
                    } else if reported > old(self).log.spec_last_index() {
                        *final(self) == *old(self)
                    } else {
                        let nm = if reported > m { reported as u64 } else { m };
                        &&& final(self).match_index@ == old(self).match_index@.update(k, nm)
                        &&& final(self).next_index@ == old(self).next_index@.update(
                            k,
                            if nm < u64::MAX { (nm + 1) as u64 } else { nm },
                        )
                        &&& *final(self) == (RaftNode {
                            next_index: final(self).next_index,
                            match_index: final(self).match_index,
                            log: RaftLog { commit_index: final(self).log.commit_index, ..old(self).log },
                            ..*old(self)
                        })
                        &&& forall|n: int| !#[trigger] final(self).committable(n)
                        &&& (final(self).log.commit_index == old(self).log.commit_index
                            || (RaftNode { match_index: final(self).match_index, ..*old(self) }).committable(
                            final(self).log.commit_index as int))
                    }
                },
    {
        if response.term > self.current_term {
            self.become_follower(response.term);
            return;
        }
        if self.role != NodeRole::Leader || response.term < self.current_term {
            return;
        }
        let k = match self.find_peer(&from) {
            Some(k) => {
                assert(ids_view(self.peers@)[k as int] == from@);
                k
            },
            None => {
                return;
            },
        };
        proof {
            assert forall|i: int| 0 <= i < self.peers@.len() && self.peers@[i]@ == from@ implies i == k by {
                assert(ids_view(self.peers@)[i] == ids_view(self.peers@)[k as int]);
            }
        }
        if response.success {
            let last = self.log.last_index();
            if sent_prev_log_index > last || sent_entries > last - sent_prev_log_index {
                return;
            }
            let reported = sent_prev_log_index + sent_entries;
            if reported > self.match_index[k] {
                self.match_index[k] = reported;
            }
            let nm = self.match_index[k];
            self.next_index[k] = if nm < u64::MAX { nm + 1 } else { nm };
            self.update_commit_index();
        } else {
            let nx = self.next_index[k];
            self.next_index[k] = if nx > 1 { nx - 1 } else { 1 };
        }
    }

    /// Appends a client command at the tail of a leader's log, in the current term, and
    /// returns its index. The commit index is recomputed (a leader without peers commits at once).
    pub fn append_entry(&mut self, data: Vec<u8>) -> (r: Result<u64, NotLeader>)
        requires
            old(self).wf(),
            old(self).log.spec_last_index() < u64::MAX,
        ensures
            final(self).wf(),
            RaftNode::evolves(*old(self), *final(self)),
            r is Err <==> old(self).role != NodeRole::Leader,
            r is Err ==> *final(self) == *old(self),
            r matches Ok(index) ==> {
                &&& index == old(self).log.spec_last_index() + 1
                &&& final(self).log.spec_entries() == old(self).log.spec_entries().push(
                    EntryView { term: old(self).current_term, index, entry_type: LogEntryType::Command, data: data@ },
                )
                &&& *final(self) == (RaftNode { log: final(self).log, ..*old(self) })
                &&& final(self).log.last_applied == old(self).log.last_applied
                &&& final(self).log.snapshot_index == old(self).log.snapshot_index
                &&& final(self).log.snapshot_term == old(self).log.snapshot_term
                &&& forall|n: int| !#[trigger] final(self).committable(n)
                &&& (final(self).log.commit_index == old(self).log.commit_index || (RaftNode {
                    log: RaftLog { commit_index: old(self).log.commit_index, ..final(self).log },
                    ..*final(self)
                }).committable(final(self).log.commit_index as int))
            },
    {
        if self.role != NodeRole::Leader {
            return Err(NotLeader);
        }
        let index = self.log.last_index() + 1;
        let entry = LogEntry { term: self.current_term, index, entry_type: LogEntryType::Command, data };
        self.log.append(entry);
        assert(self.log.spec_entries() =~= old(self).log.spec_entries().push(entry@));
        let ghost appended = *self;
        assert(RaftNode::evolves(*old(self), appended));
        self.update_commit_index();
        proof {
            RaftNode::lemma_evolves_transitive(*old(self), appended, *self);
        }
        Ok(index)
    }

    /// Index of the entry before what a leader sends to the peer at position `k`: the one
    /// before its `next_index`, kept within what the log holds.
    pub open spec fn sent_prev(&self, k: int) -> int {
        let p = self.next_index@[k] - 1;
        if p < self.log.snapshot_index {
            self.log.snapshot_index as int
        } else if p > self.log.spec_last_index() {
            self.log.spec_last_index()
        } else {
            p
        }
    }

    /// The AppendEntries request that a leader sends to the peer at position `k`: everything
    /// after `sent_prev(k)`, with the leader's term, id and commit index.
    pub open spec fn request_for(&self, k: int) -> AppendEntriesRequestView {
        let prev = self.sent_prev(k);
        AppendEntriesRequestView {
            term: self.current_term,
            leader_id: self.id@,
            prev_log_index: prev as u64,
            prev_log_term: self.log.term_at(prev),
            entries: self.log.spec_entries().subrange(prev - self.log.snapshot_index, self.log.spec_entries().len() as int),
            leader_commit: self.log.commit_index,
        }
    }

    /// Whether, once `f` has merged the request that `leader` built for its peer at position
    /// `k`, `f`'s log holds an entry at index `i` with the leader's term for that index.
    pub open spec fn agrees_after_replication(leader: RaftNode, k: int, f: RaftNode, i: int) -> bool {
        let req = leader.request_for(k);
        let m = merged_entries(f.log, req.prev_log_index as int, req.entries);
        &&& 0 <= i - f.log.snapshot_index - 1 < m.len()
        &&& m[i - f.log.snapshot_index - 1].index == i
        &&& m[i - f.log.snapshot_index - 1].term == leader.log.term_at(i)
    }

    /// When a follower takes the request that a leader built for it, the follower's log then
    /// agrees with the leader's, by index and term, on every index after the request's
    /// `prev_log_index` up to the leader's last entry, and at `prev_log_index` itself.
    pub proof fn lemma_replication_agrees(leader: RaftNode, k: int, f: RaftNode)
        requires
            leader.wf(),
            f.wf(),
            0 <= k < leader.peers@.len(),
            f.accepts(leader.request_for(k)),
        ensures
            forall|i: int|
                leader.request_for(k).prev_log_index < i <= leader.log.spec_last_index()
                    ==> #[trigger] RaftNode::agrees_after_replication(leader, k, f, i),
            leader.request_for(k).prev_log_index > 0 ==> f.log.term_at(leader.request_for(k).prev_log_index as int)
                == leader.log.term_at(leader.request_for(k).prev_log_index as int),
    {
        let req = leader.request_for(k);
        let lb = leader.log.snapshot_index as int;
        assert forall|i: int| req.prev_log_index < i <= leader.log.spec_last_index() implies #[trigger]
            RaftNode::agrees_after_replication(leader, k, f, i) by {
            let kk = i - req.prev_log_index - 1;
            assert(req.entries[kk] == leader.log.spec_entries()[i - lb - 1]);
            assert(leader.log.spec_entries()[i - lb - 1].index == i);
            assert(leader.log.holds(i));
            assert(leader.log.term_at(i) == leader.log.spec_entries()[i - lb - 1].term);
            lemma_accepted_batch_held(f, req, kk);
            assert(i - f.log.snapshot_index - 1 == req.prev_log_index + kk - f.log.snapshot_index);
        }
    }

    /// Builds the AppendEntries request for the peer at position `k`.
    pub fn append_entries_for(&self, k: usize) -> (r: AppendEntriesRequest)
        requires
            self.wf(),
            k < self.peers@.len(),
        ensures
            r@ == self.request_for(k as int),
    {
        let last = self.log.last_index();
        let nx = self.next_index[k];
        let prev = if nx == 0 || nx - 1 < self.log.snapshot_index {
            self.log.snapshot_index
        } else if nx - 1 > last {
            last
        } else {
            nx - 1
        };
        let ghost base = self.log.snapshot_index as int;
        let mut entries: Vec<LogEntry> = Vec::new();
        let mut i = prev;
        while i < last
            invariant
                self.wf(),
                last == self.log.spec_last_index(),
                base == self.log.snapshot_index,
                base <= prev <= i <= last,
                entries@.map_values(|e: LogEntry| e@) == self.log.spec_entries().subrange(prev - base, i - base),
            decreases last - i,
        {
            let e = self.log.get(i + 1).unwrap();
            let d = e.duplicate();
            assert(d@ == self.log.spec_entries()[i - base]);
            let ghost before = entries@;
            entries.push(d);
            assert(entries@ == before.push(d));
            assert(entries@.map_values(|e: LogEntry| e@) =~= before.map_values(|e: LogEntry| e@).push(d@));
            i = i + 1;
            assert(entries@.map_values(|e: LogEntry| e@) =~= self.log.spec_entries().subrange(prev - base, i - base));
        }
        AppendEntriesRequest {
            term: self.current_term,
            leader_id: self.id.clone(),
            prev_log_index: prev,
            prev_log_term: self.log.term_of(prev),
            entries,
            leader_commit: self.log.commit_index,
        }
    }

    /// The requests that a leader sends on each heartbeat, one per peer in the order of `peers`;
    /// each carries the entries that the peer may lack, none when it is up to date.
    pub fn send_heartbeats(&self) -> (r: Vec<AppendEntriesRequest>)
        requires
            self.wf(),
        ensures
            r@.len() == self.peers@.len(),
            forall|k: int| 0 <= k < r@.len() ==> #[trigger] r@[k]@ == self.request_for(k),
    {
        let mut out: Vec<AppendEntriesRequest> = Vec::new();
        let mut k: usize = 0;
        while k < self.peers.len()
            invariant
                self.wf(),
                k <= self.peers@.len(),
                out@.len() == k,
                forall|i: int| 0 <= i < k ==> #[trigger] out@[i]@ == self.request_for(i),
            decreases self.peers@.len() - k,
        {
            out.push(self.append_entries_for(k));
            k = k + 1;
        }
        out
    }

    /// The RequestVote request that a candidate sends to every peer.
    pub fn vote_request(&self) -> (r: RequestVoteRequest)
        requires
            self.wf(),
        ensures
            r.term == self.current_term,
            r.candidate_id@ == self.id@,
            r.last_log_index == self.log.spec_last_index(),
            r.last_log_term == self.log.spec_last_term(),
    {
        RequestVoteRequest {
            term: self.current_term,
            candidate_id: self.id.clone(),
            last_log_index: self.log.last_index(),
            last_log_term: self.log.last_term(),
        }
    }
}

impl RaftNode {
    /// Applies the committed entries after `last_applied`, in order, to the state machine and
    /// moves `last_applied` up to the commit index. A Command entry whose payload does not
    /// decode is skipped; since decoding depends on the bytes alone, every node skips it alike.
    pub fn apply_committed_entries(&mut self)
        requires
            old(self).wf(),
        ensures
            final(self).wf(),
            RaftNode::evolves(*old(self), *final(self)),
            final(self).state_machine@ == apply_entries(
                old(self).state_machine@,
                old(self).log,
                old(self).log.last_applied as int,
                old(self).log.commit_index as int,
            ),
            *final(self) == (RaftNode {
                log: RaftLog { last_applied: old(self).log.commit_index, ..old(self).log },
                state_machine: final(self).state_machine,
                ..*old(self)
            }),
    {
        while self.log.last_applied < self.log.commit_index
            invariant
                self.wf(),
                old(self).wf(),
                old(self).log.last_applied <= self.log.last_applied <= old(self).log.commit_index,
                *self == (RaftNode {
                    log: RaftLog { last_applied: self.log.last_applied, ..old(self).log },
                    state_machine: self.state_machine,
                    ..*old(self)
                }),
                self.state_machine@ == apply_entries(
                    old(self).state_machine@,
                    old(self).log,
                    old(self).log.last_applied as int,
                    self.log.last_applied as int,
                ),
            decreases self.log.commit_index - self.log.last_applied,
        {
            let next = self.log.last_applied + 1;
            let ghost e = old(self).log.entry_at(next as int);
            assert(self.log.entry_at(next as int) == e);
            let decoded = match self.log.get(next) {
                Some(entry) => if entry.entry_type == LogEntryType::Command {
                    let d = decode_command(entry.data.as_slice());
                    proof {
                        match d {
                            Ok(ref c) => {
                                lemma_command_of(e.data, c@);
                            },
                            Err(_) => {
                                assert(!exists|v: KvCommandView| enc_command(v) == e.data);
                            },
                        }
                    }
                    Some(d)
                } else {
                    None
                },
                None => None,
            };
            match decoded {
                Some(Ok(cmd)) => {
                    self.state_machine.apply(cmd);
                },
                _ => {},
            }
            self.log.last_applied = next;
        }
    }

    /// The snapshot record of what has been applied: the last applied index and its term, and
    /// the state machine's encoding.
    pub fn snapshot_record(&self) -> (r: RaftSnapshot)
        requires
            self.wf(),
        ensures
            r.last_included_index == self.log.last_applied,
            r.last_included_term == self.log.term_at(self.log.last_applied as int),
            r.state@ == self.state_machine.snapshot_bytes(),
    {
        RaftSnapshot {
            last_included_index: self.log.last_applied,
            last_included_term: self.log.term_of(self.log.last_applied),
            state: self.state_machine.snapshot(),
        }
    }

    /// Whether more than `threshold` applied entries are still held in the log.
    pub fn snapshot_due(&self, threshold: u64) -> (r: bool)
        requires
            self.wf(),
        ensures
            r == (self.log.last_applied - self.log.snapshot_index > threshold),
    {
        self.log.last_applied - self.log.snapshot_index > threshold
    }

    /// Drops the log's entries up to `index`, once a snapshot that covers them is saved.
    pub fn compact_log(&mut self, index: u64)
        requires
            old(self).wf(),
            old(self).log.snapshot_index < index <= old(self).log.last_applied,
        ensures
            final(self).wf(),
            RaftNode::evolves(*old(self), *final(self)),
            final(self).log.snapshot_index == index,
            final(self).log.snapshot_term == old(self).log.term_at(index as int),
            final(self).log.entries@ == old(self).log.entries@.subrange(
                index - old(self).log.snapshot_index,
                old(self).log.entries@.len() as int,
            ),
            *final(self) == (RaftNode { log: final(self).log, ..*old(self) }),
    {
        self.log.compact_to(index);
    }

    /// Starts from a saved snapshot: the state machine takes the snapshot's state, the log
    /// becomes empty after the snapshot's last index, and everything up to that index counts
    /// as committed and applied. The term rises to the snapshot's term if it is higher (the
    /// vote is then forgotten). A state that does not decode is refused and changes nothing.
    pub fn restore_snapshot(&mut self, snap: RaftSnapshot) -> (r: Result<(), DecodeError>)
        requires
            old(self).wf(),
            old(self).log.spec_entries().len() == 0,
            old(self).log.commit_index <= snap.last_included_index,
            old(self).log.snapshot_index <= snap.last_included_index,
            snap.last_included_index == 0 ==> snap.last_included_term == 0,
        ensures
            final(self).wf(),
            r is Err ==> *final(self) == *old(self),
            r is Ok ==> final(self).state_machine.snapshot_bytes() == snap.state@
                && final(self).log.snapshot_index == snap.last_included_index
                && final(self).log.snapshot_term == snap.last_included_term
                && final(self).log.commit_index == snap.last_included_index
                && final(self).log.last_applied == snap.last_included_index
                && final(self).log.spec_entries().len() == 0
                && final(self).current_term == if snap.last_included_term > old(self).current_term {
                    snap.last_included_term
                } else {
                    old(self).current_term
                },
            forall|s: KeyValueStore| s.wf() && #[trigger] s.snapshot_bytes() == snap.state@ ==> (r is Ok
                && final(self).state_machine@ == s@),
    {
        let mut sm = KeyValueStore::new();
        match sm.restore(snap.state) {
            Ok(()) => {},
            Err(e) => {
                return Err(e);
            },
        }
        self.state_machine = sm;
        self.log = RaftLog::from_snapshot(snap.last_included_index, snap.last_included_term);
        if snap.last_included_term > self.current_term {
            self.current_term = snap.last_included_term;
            self.voted_for = None;
        }
        Ok(())
    }
}

/// Number of nodes that form a majority of a cluster of `cluster_size` nodes.
pub open spec fn majority(cluster_size: int) -> int {
    cluster_size / 2 + 1
}

/// How many of the values are at least `n`.
pub open spec fn count_at_least(s: Seq<u64>, n: int) -> nat
    decreases s.len(),
{
    if s.len() == 0 {
        0
    } else {
        count_at_least(s.drop_last(), n) + if s.last() >= n {
            1nat
        } else {
            0nat
        }
    }
}

/// The model of an optional node id.
pub open spec fn id_view(v: Option<String>) -> Option<Seq<char>> {
    match v {
        Some(s) => Some(s@),
        None => None,
    }
}

/// The models of a list of node ids.
pub open spec fn ids_view(v: Seq<String>) -> Seq<Seq<char>> {
    v.map_values(|s: String| s@)
}

/// The state machine's contents after applying, from `m` on, the entries of `log` with
/// index in `(from, to]`: a Command entry whose payload encodes a command is applied; one whose
/// payload encodes none, and every Noop or Configuration entry, leaves the contents as they are.
pub open spec fn apply_entries(m: KvMap, log: RaftLog, from: int, to: int) -> KvMap
    decreases to - from,
{
    if to <= from {
        m
    } else {
        let prior = apply_entries(m, log, from, to - 1);
        let e = log.entry_at(to);
        if e.entry_type == LogEntryType::Command {
            match command_of(e.data) {
                Some(c) => next_state(prior, c),
                None => prior,
            }
        } else {
            prior
        }
    }
}

/// Whether a candidate's log (last index and term) is at least as up to date as `log`.
pub open spec fn up_to_date(last_log_index: u64, last_log_term: u64, log: RaftLog) -> bool {
    last_log_term > log.spec_last_term() || (last_log_term == log.spec_last_term()
        && last_log_index >= log.spec_last_index())
}

/// Whether the log holds the entry that precedes a batch at `prev`, with term `prev_term`.
pub open spec fn consistent(log: RaftLog, prev: int, prev_term: u64) -> bool {
    &&& log.snapshot_index <= prev <= log.spec_last_index()
    &&& (prev > 0 ==> log.term_at(prev) == prev_term)
}

/// Whether a batch of entries can follow `prev` (whose term is `prev_term`) in a log of a
/// leader at `term`: consecutive indexes, terms that never decrease and never exceed `term`.
pub open spec fn batch_ok(es: Seq<EntryView>, prev: int, prev_term: u64, term: u64) -> bool {
    &&& indexes_follow(es, prev)
    &&& terms_monotone(es, prev_term)
    &&& forall|k: int| 0 <= k < es.len() ==> #[trigger] es[k].term <= term
}

/// Whether the log already holds the `k`-th entry of a batch after `prev`, with its term.
pub open spec fn holds_same(log: RaftLog, prev: int, es: Seq<EntryView>, k: int) -> bool {
    log.holds(prev + 1 + k) && log.entry_at(prev + 1 + k).term == es[k].term
}

/// The position, from `k` on, of the first entry of the batch that the log does not hold
/// with the same term (the batch's length if there is none).
pub open spec fn first_mismatch_from(log: RaftLog, prev: int, es: Seq<EntryView>, k: int) -> int
    decreases es.len() - k,
{
    if k >= es.len() || k < 0 {
        es.len() as int
    } else if holds_same(log, prev, es, k) {
        first_mismatch_from(log, prev, es, k + 1)
    } else {
        k
    }
}

/// The position of the first entry of the batch that the log does not already hold.
pub open spec fn first_mismatch(log: RaftLog, prev: int, es: Seq<EntryView>) -> int {
    first_mismatch_from(log, prev, es, 0)
}

/// The log's entries once a batch after `prev` is merged in: the entries that the log already
/// holds stay; from the first one that differs or is missing, the log is cut and the rest of
/// the batch follows.
pub open spec fn merged_entries(log: RaftLog, prev: int, es: Seq<EntryView>) -> Seq<EntryView> {
    let j = first_mismatch(log, prev, es);
    if j == es.len() {
        log.spec_entries()
    } else {
        log.spec_entries().subrange(0, prev + j - log.snapshot_index) + es.subrange(j, es.len() as int)
    }
}

/// Whether merging the batch would remove a committed entry.
pub open spec fn overwrites_committed(log: RaftLog, prev: int, es: Seq<EntryView>) -> bool {
    let j = first_mismatch(log, prev, es);
    j < es.len() && log.holds(prev + 1 + j) && prev + 1 + j <= log.commit_index
}

/// The commit index after a request that was accepted.
pub open spec fn commit_after(commit: u64, leader_commit: u64, last_new: int) -> u64 {
    if leader_commit > commit && leader_commit <= last_new {
        leader_commit
    } else if leader_commit > commit && last_new > commit {
        last_new as u64
    } else {
        commit
    }
}

/// Whether `data` is the encoding of `c`, so that `command_of(data)` is `c`.
proof fn lemma_command_of(data: Seq<u8>, c: KvCommandView)
    requires
        enc_command(c) == data,
        forall|v: KvCommandView| enc_command(v) == data ==> v == c,
    ensures
        command_of(data) == Some(c),
{
}

proof fn lemma_first_mismatch(log: RaftLog, prev: int, es: Seq<EntryView>, j: int, k: int)
    requires
        0 <= k <= j <= es.len(),
        forall|i: int| 0 <= i < j ==> holds_same(log, prev, es, i),
        j < es.len() ==> !holds_same(log, prev, es, j),
    ensures
        first_mismatch_from(log, prev, es, k) == j,
    decreases j - k,
{
    if k < j {
        lemma_first_mismatch(log, prev, es, j, k + 1);
    }
}

proof fn lemma_before_first_mismatch(log: RaftLog, prev: int, es: Seq<EntryView>, k: int, i: int)
    requires
        0 <= k <= i < first_mismatch_from(log, prev, es, k),
    ensures
        holds_same(log, prev, es, i),
    decreases es.len() - k,
{
    if k < es.len() && holds_same(log, prev, es, k) && k < i {
        lemma_before_first_mismatch(log, prev, es, k + 1, i);
    }
}

proof fn lemma_first_mismatch_bound(log: RaftLog, prev: int, es: Seq<EntryView>, k: int)
    requires
        0 <= k,
    ensures
        first_mismatch_from(log, prev, es, k) <= es.len(),
        k <= es.len() ==> k <= first_mismatch_from(log, prev, es, k),
    decreases es.len() - k,
{
    if k < es.len() && holds_same(log, prev, es, k) {
        lemma_first_mismatch_bound(log, prev, es, k + 1);
    }
}

/// Once a node takes an AppendEntries request, its log holds every entry of the batch at the
/// entry's own index with the entry's term; from the first index where it differed or had
/// nothing, it holds the batch's entries themselves.
pub proof fn lemma_accepted_batch_held(f: RaftNode, req: AppendEntriesRequestView, k: int)
    requires
        f.wf(),
        f.accepts(req),
        0 <= k < req.entries.len(),
    ensures
        ({
            let m = merged_entries(f.log, req.prev_log_index as int, req.entries);
            let at = req.prev_log_index + k - f.log.snapshot_index;
            &&& 0 <= at < m.len()
            &&& m[at].index == req.entries[k].index
            &&& m[at].term == req.entries[k].term
            &&& k >= first_mismatch(f.log, req.prev_log_index as int, req.entries) ==> m[at] == req.entries[k]
        }),
{
    let prev = req.prev_log_index as int;
    let es = req.entries;
    let base = f.log.snapshot_index as int;
    let j = first_mismatch(f.log, prev, es);
    lemma_first_mismatch_bound(f.log, prev, es, 0);
    assert(es[k].index == prev + k + 1);
    let old_es = f.log.spec_entries();
    let m = merged_entries(f.log, prev, es);
    let at = prev + k - base;
    if j > 0 {
        lemma_before_first_mismatch(f.log, prev, es, 0, j - 1);
        assert(f.log.holds(prev + j));
    }
    assert(prev + j <= f.log.spec_last_index());
    if k < j {
        lemma_before_first_mismatch(f.log, prev, es, 0, k);
        assert(f.log.holds(prev + 1 + k));
        assert(old_es[at].index == prev + k + 1);
        assert(old_es[at].term == es[k].term);
        if j < es.len() {
            assert(m[at] == old_es.subrange(0, prev + j - base)[at]);
        }
    } else {
        assert(j < es.len());
        assert(m[at] == es.subrange(j, es.len() as int)[k - j]);
    }
}

/// Appends the entries of a batch after `prev` from position `j` on, where the log ends right
/// after the batch's `j`-th predecessor.
fn append_batch(log: &mut RaftLog, batch: &Vec<LogEntry>, j: usize, prev: u64, prev_term: u64, term: u64)
    requires
        old(log).wf(),
        j < batch@.len(),
        batch_ok(batch@.map_values(|e: LogEntry| e@), prev as int, prev_term, term),
        old(log).spec_last_index() == prev + j,
        old(log).spec_last_term() <= if j == 0 {
            prev_term
        } else {
            batch@[j - 1].term
        },
    ensures
        final(log).wf(),
        final(log).spec_entries() == old(log).spec_entries() + batch@.map_values(|e: LogEntry| e@).subrange(
            j as int,
            batch@.len() as int,
        ),
        final(log).spec_last_index() == prev + batch@.len(),
        final(log).spec_last_term() == batch@[batch@.len() - 1].term,
        final(log).snapshot_index == old(log).snapshot_index,
        final(log).snapshot_term == old(log).snapshot_term,
        final(log).commit_index == old(log).commit_index,
        final(log).last_applied == old(log).last_applied,
{
    let ghost es = batch@.map_values(|e: LogEntry| e@);
    let n = batch.len();
    let mut k: usize = j;
    while k < n
        invariant
            j <= k <= n == es.len(),
            es == batch@.map_values(|e: LogEntry| e@),
            batch_ok(es, prev as int, prev_term, term),
            log.wf(),
            log.snapshot_index == old(log).snapshot_index,
            log.snapshot_term == old(log).snapshot_term,
            log.commit_index == old(log).commit_index,
            log.last_applied == old(log).last_applied,
            log.spec_entries() == old(log).spec_entries() + es.subrange(j as int, k as int),
            log.spec_last_index() == prev + k,
            k == j ==> log.spec_last_term() <= if k == 0 {
                prev_term
            } else {
                es[k - 1].term
            },
            k > j ==> log.spec_last_term() == es[k - 1].term,
        decreases n - k,
    {
        let e = batch[k].duplicate();
        assert(e@ == es[k as int]);
        assert(es[k as int].index == prev + k + 1);
        if k > 0 {
            assert(es[k - 1].term <= es[k as int].term);
        }
        let ghost before = log.spec_entries();
        log.append(e);
        assert(log.spec_entries() =~= before.push(es[k as int]));
        k = k + 1;
        assert(log.spec_entries() =~= old(log).spec_entries() + es.subrange(j as int, k as int));
    }
}

/// Whether the log holds an entry at `prev + 1 + k` with term `term`.
fn held_at_offset(log: &RaftLog, prev: u64, k: usize, term: u64) -> (r: bool)
    requires
        log.wf(),
    ensures
        r == (log.holds(prev + 1 + k) && log.entry_at(prev + 1 + k).term == term),
{
    let last = log.last_index();
    if prev >= last || (k as u64) >= last - prev {
        false
    } else {
        holds_with_term(log, prev + 1 + k as u64, term)
    }
}

/// Whether the log holds an entry at `index` with term `term`.
fn holds_with_term(log: &RaftLog, index: u64, term: u64) -> (r: bool)
    requires
        log.wf(),
    ensures
        r == (log.holds(index as int) && log.entry_at(index as int).term == term),
{
    match log.get(index) {
        Some(e) => e.term == term,
        None => false,
    }
}

/// Whether a batch of entries can follow `prev` (term `prev_term`) for a leader at `term`.
fn batch_fits(es: &Vec<LogEntry>, prev: u64, prev_term: u64, term: u64) -> (r: bool)
    ensures
        r == batch_ok(es@.map_values(|e: LogEntry| e@), prev as int, prev_term, term),
{
    let ghost v = es@.map_values(|e: LogEntry| e@);
    let mut k: usize = 0;
    let mut floor = prev_term;
    while k < es.len()
        invariant
            k <= es@.len() == v.len(),
            v == es@.map_values(|e: LogEntry| e@),
            batch_ok(v.take(k as int), prev as int, prev_term, term),
            floor == if k == 0 {
                prev_term
            } else {
                v[k - 1].term
            },
        decreases es@.len() - k,
    {
        let e = &es[k];
        if e.index <= prev || e.index - prev - 1 != k as u64 || e.term < floor || e.term > term {
            proof {
                assert(v[k as int] == e@);
                if batch_ok(v, prev as int, prev_term, term) {
                    assert(v[k as int].index == prev + k + 1);
                    assert(prev_term <= v[k as int].term && v[k as int].term <= term);
                    if k > 0 {
                        assert(v.take(k as int)[k - 1] == v[k - 1]);
                        assert(v[k - 1].term <= v[k as int].term);
                    }
                    assert(false);
                }
            }
            return false;
        }
        proof {
            let t = v.take(k as int + 1);
            assert(t[k as int] == e@);
            assert forall|a: int| 0 <= a < t.len() implies #[trigger] t[a].index == prev + a + 1 by {
                if a < k {
                    assert(t[a] == v.take(k as int)[a]);
                }
            }
            assert forall|a: int| 0 <= a < t.len() implies prev_term <= #[trigger] t[a].term && t[a].term <= term by {
                if a < k {
                    assert(t[a] == v.take(k as int)[a]);
                }
            }
            assert forall|a: int, b: int| 0 <= a < b < t.len() implies #[trigger] t[a].term <= #[trigger] t[b].term by {
                assert(t[a] == v.take(k as int)[a]);
                if b < k {
                    assert(t[b] == v.take(k as int)[b]);
                } else if a < k - 1 {
                    assert(v.take(k as int)[a].term <= v.take(k as int)[k - 1].term);
                }
            }
        }
        floor = e.term;
        k = k + 1;
    }
    assert(v.take(k as int) =~= v);
    true
}

/// Number of nodes that form a majority of a cluster of `peers` peers and this node.
fn quorum(peers: usize) -> (r: usize)
    ensures
        r == majority(peers + 1),
{
    if peers % 2 == 0 {
        peers / 2 + 1
    } else {
        peers / 2 + 2
    }
}

/// A vector of `n` copies of `v`.
fn filled(n: usize, v: u64) -> (r: Vec<u64>)
    ensures
        r@ == Seq::new(n as nat, |i: int| v),
{
    let mut r: Vec<u64> = Vec::new();
    let mut i: usize = 0;
    while i < n
        invariant
            i <= n,
            r@ == Seq::new(i as nat, |k: int| v),
        decreases n - i,
    {
        r.push(v);
        i = i + 1;
        assert(r@ =~= Seq::new(i as nat, |k: int| v));
    }
    r
}

} // verus!
