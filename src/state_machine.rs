use vstd::prelude::*;
use crate::codec::{
    enc_str, enc_u64, lemma_enc_u64, lemma_prefix_cat, lemma_prefix_trans, lemma_whole, prefix_at,
    read_str, read_u64, write_str, write_u64, DecodeError,
};

verus! {

/// A command of the key-value store.
#[derive(Debug, Clone, PartialEq)]
pub enum KvCommand {
    Put(String, String),
    Get(String),
    Delete(String),
}

/// Mathematical model of a `KvCommand`.
pub enum KvCommandView {
    Put(Seq<char>, Seq<char>),
    Get(Seq<char>),
    Delete(Seq<char>),
}

impl View for KvCommand {
    type V = KvCommandView;

    open spec fn view(&self) -> KvCommandView {
        match self {
            KvCommand::Put(k, v) => KvCommandView::Put(k@, v@),
            KvCommand::Get(k) => KvCommandView::Get(k@),
            KvCommand::Delete(k) => KvCommandView::Delete(k@),
        }
    }
}

/// The answer of the key-value store to a command.
#[derive(Debug, Clone, PartialEq)]
pub enum KvResponse {
    /// The value under the key of a `Get`, if any.
    Value(Option<String>),
    /// A `Put` or `Delete` was done.
    Ack,
}

/// The store's contents.
pub type KvMap = Map<Seq<char>, Seq<char>>;

/// The contents after `c`.
pub open spec fn next_state(m: KvMap, c: KvCommandView) -> KvMap {
    match c {
        KvCommandView::Put(k, v) => m.insert(k, v),
        KvCommandView::Get(_) => m,
        KvCommandView::Delete(k) => m.remove(k),
    }
}

/// Whether `r` is the answer to `c` on contents `m`.
pub open spec fn answers(m: KvMap, c: KvCommandView, r: KvResponse) -> bool {
    match c {
        KvCommandView::Get(k) => match r {
            KvResponse::Value(Some(v)) => m.contains_key(k) && m[k] == v@,
            KvResponse::Value(None) => !m.contains_key(k),
            KvResponse::Ack => false,
        },
        _ => r is Ack,
    }
}

/// The contents after the commands, in order, starting from `m`.
pub open spec fn apply_all(m: KvMap, cs: Seq<KvCommandView>) -> KvMap
    decreases cs.len(),
{
    if cs.len() == 0 {
        m
    } else {
        next_state(apply_all(m, cs.drop_last()), cs.last())
    }
}

/// The map that a list of pairs describes (a later pair wins).
pub open spec fn to_map(s: Seq<(Seq<char>, Seq<char>)>) -> KvMap
    decreases s.len(),
{
    if s.len() == 0 {
        Map::empty()
    } else {
        to_map(s.drop_last()).insert(s.last().0, s.last().1)
    }
}

/// Whether no key occurs twice.
pub open spec fn keys_unique(s: Seq<(Seq<char>, Seq<char>)>) -> bool {
    forall|i: int, j: int| 0 <= i < j < s.len() ==> #[trigger] s[i].0 != #[trigger] s[j].0
}

/// The models of a list of pairs of strings.
pub open spec fn pairs_view(s: Seq<(String, String)>) -> Seq<(Seq<char>, Seq<char>)> {
    s.map_values(|p: (String, String)| (p.0@, p.1@))
}

proof fn lemma_to_map_contains(s: Seq<(Seq<char>, Seq<char>)>, k: Seq<char>)
    ensures
        to_map(s).contains_key(k) <==> exists|i: int| 0 <= i < s.len() && s[i].0 == k,
    decreases s.len(),
{
    if s.len() > 0 {
        lemma_to_map_contains(s.drop_last(), k);
        if to_map(s.drop_last()).contains_key(k) {
            let i = choose|i: int| 0 <= i < s.drop_last().len() && s.drop_last()[i].0 == k;
            assert(s[i].0 == k);
        }
        if exists|i: int| 0 <= i < s.len() && s[i].0 == k {
            let i = choose|i: int| 0 <= i < s.len() && s[i].0 == k;
            if i < s.len() - 1 {
                assert(s.drop_last()[i].0 == k);
            }
        }
    }
}

proof fn lemma_to_map_index(s: Seq<(Seq<char>, Seq<char>)>, i: int)
    requires
        keys_unique(s),
        0 <= i < s.len(),
    ensures
        to_map(s).contains_key(s[i].0),
        to_map(s)[s[i].0] == s[i].1,
    decreases s.len(),
{
    if i < s.len() - 1 {
        let d = s.drop_last();
        assert(d[i] == s[i]);
        assert(keys_unique(d)) by {
            assert forall|a: int, b: int| 0 <= a < b < d.len() implies #[trigger] d[a].0 != #[trigger] d[b].0 by {
                assert(d[a] == s[a] && d[b] == s[b]);
            }
        }
        lemma_to_map_index(d, i);
        assert(s[i].0 != s[s.len() - 1].0);
    }
}

proof fn lemma_to_map_remove(s: Seq<(Seq<char>, Seq<char>)>, i: int)
    requires
        keys_unique(s),
        0 <= i < s.len(),
    ensures
        to_map(s.remove(i)) == to_map(s).remove(s[i].0),
        keys_unique(s.remove(i)),
    decreases s.len(),
{
    let k = s[i].0;
    let d = s.drop_last();
    assert(keys_unique(d)) by {
        assert forall|a: int, b: int| 0 <= a < b < d.len() implies #[trigger] d[a].0 != #[trigger] d[b].0 by {
            assert(d[a] == s[a] && d[b] == s[b]);
        }
    }
    if i == s.len() - 1 {
        assert(s.remove(i) =~= d);
        lemma_to_map_contains(d, k);
        if to_map(d).contains_key(k) {
            let j = choose|j: int| 0 <= j < d.len() && d[j].0 == k;
            assert(s[j].0 == k);
        }
        assert(to_map(s).remove(k) =~= to_map(d));
    } else {
        lemma_to_map_remove(d, i);
        assert(s.remove(i).drop_last() =~= d.remove(i));
        assert(s.remove(i).last() == s.last());
        assert(s.last().0 != k);
        assert(to_map(s.remove(i)) =~= to_map(s).remove(k));
    }
    assert forall|a: int, b: int| 0 <= a < b < s.remove(i).len() implies #[trigger] s.remove(i)[a].0
        != #[trigger] s.remove(i)[b].0 by {
        let a2 = if a < i { a } else { a + 1 };
        let b2 = if b < i { b } else { b + 1 };
        assert(s.remove(i)[a] == s[a2] && s.remove(i)[b] == s[b2]);
    }
}

/// A command: tag 0 with key and value for `Put`, tag 1 with the key for `Get`, tag 2 with the
/// key for `Delete`.
pub open spec fn enc_command(c: KvCommandView) -> Seq<u8> {
    match c {
        KvCommandView::Put(k, v) => seq![0u8] + (enc_str(k) + enc_str(v)),
        KvCommandView::Get(k) => seq![1u8] + enc_str(k),
        KvCommandView::Delete(k) => seq![2u8] + enc_str(k),
    }
}

/// The command that `data` encodes, if any.
pub open spec fn command_of(data: Seq<u8>) -> Option<KvCommandView> {
    if exists|c: KvCommandView| enc_command(c) == data {
        Some(choose|c: KvCommandView| enc_command(c) == data)
    } else {
        None
    }
}

/// A key and its value.
pub open spec fn enc_pair(p: (Seq<char>, Seq<char>)) -> Seq<u8> {
    enc_str(p.0) + enc_str(p.1)
}

/// The pairs one after the other.
pub open spec fn enc_pair_list(ps: Seq<(Seq<char>, Seq<char>)>) -> Seq<u8>
    decreases ps.len(),
{
    if ps.len() == 0 {
        Seq::empty()
    } else {
        enc_pair_list(ps.drop_last()) + enc_pair(ps.last())
    }
}

/// A snapshot of the store: the number of pairs as `u64`, then the pairs.
pub open spec fn enc_pairs(ps: Seq<(Seq<char>, Seq<char>)>) -> Seq<u8> {
    enc_u64(ps.len() as u64) + enc_pair_list(ps)
}

proof fn lemma_pair_list_prefix(ps: Seq<(Seq<char>, Seq<char>)>, i: int)
    requires
        0 <= i <= ps.len(),
    ensures
        prefix_at(enc_pair_list(ps), 0, enc_pair_list(ps.take(i))),
    decreases ps.len(),
{
    assert(enc_pair_list(ps).subrange(0, enc_pair_list(ps).len() as int) =~= enc_pair_list(ps));
    if i == ps.len() {
        assert(ps.take(i) =~= ps);
    } else {
        let dl = ps.drop_last();
        lemma_pair_list_prefix(dl, i);
        assert(dl.take(i) =~= ps.take(i));
        lemma_prefix_cat(enc_pair_list(ps), 0, enc_pair_list(dl), enc_pair(ps.last()));
        lemma_prefix_trans(enc_pair_list(ps), 0, enc_pair_list(dl), enc_pair_list(ps.take(i)));
    }
}

proof fn lemma_pair_list_len(ps: Seq<(Seq<char>, Seq<char>)>)
    ensures
        enc_pair_list(ps).len() >= ps.len(),
    decreases ps.len(),
{
    if ps.len() > 0 {
        lemma_pair_list_len(ps.drop_last());
        lemma_enc_u64(ps.last().0.len() as u64);
    }
}

/// Encodes a command.
pub fn encode_command(c: &KvCommand) -> (r: Vec<u8>)
    ensures
        r@ == enc_command(c@),
{
    let mut out: Vec<u8> = Vec::new();
    match c {
        KvCommand::Put(k, v) => {
            out.push(0u8);
            write_str(&mut out, k);
            write_str(&mut out, v);
        },
        KvCommand::Get(k) => {
            out.push(1u8);
            write_str(&mut out, k);
        },
        KvCommand::Delete(k) => {
            out.push(2u8);
            write_str(&mut out, k);
        },
    }
    assert(out@ =~= enc_command(c@));
    out
}

/// Decodes a command. It fails exactly on bytes that encode none, and decoding what the
/// encoder wrote gives back the command.
pub fn decode_command(bytes: &[u8]) -> (r: Result<KvCommand, DecodeError>)
    ensures
        r matches Ok(c) ==> enc_command(c@) == bytes@,
        forall|v: KvCommandView| enc_command(v) == bytes@ ==> (r matches Ok(c) && c@ == v),
{
    let ghost b = bytes@;
    proof {
        assert forall|v: KvCommandView| enc_command(v) == b implies {
            &&& b.len() > 0
            &&& b[0] == enc_command(v)[0]
            &&& match v {
                KvCommandView::Put(k, x) => prefix_at(b, 1, enc_str(k)) && prefix_at(
                    b,
                    1int + enc_str(k).len(),
                    enc_str(x),
                ) && 1 + enc_str(k).len() + enc_str(x).len() == b.len(),
                KvCommandView::Get(k) => prefix_at(b, 1, enc_str(k)) && 1 + enc_str(k).len() == b.len(),
                KvCommandView::Delete(k) => prefix_at(b, 1, enc_str(k)) && 1 + enc_str(k).len() == b.len(),
            }
        } by {
            lemma_whole(b, enc_command(v));
            match v {
                KvCommandView::Put(k, x) => {
                    lemma_prefix_cat(b, 0, seq![0u8], enc_str(k) + enc_str(x));
                    lemma_prefix_cat(b, 1, enc_str(k), enc_str(x));
                },
                KvCommandView::Get(k) => {
                    lemma_prefix_cat(b, 0, seq![1u8], enc_str(k));
                },
                KvCommandView::Delete(k) => {
                    lemma_prefix_cat(b, 0, seq![2u8], enc_str(k));
                },
            }
        }
    }
    if bytes.len() == 0 {
        return Err(DecodeError);
    }
    let tag = bytes[0];
    let (k, p) = match read_str(bytes, 1) {
        Some(t) => t,
        None => {
            return Err(DecodeError);
        },
    };
    if tag == 0 {
        let (v, q) = match read_str(bytes, p) {
            Some(t) => t,
            None => {
                return Err(DecodeError);
            },
        };
        if q != bytes.len() {
            return Err(DecodeError);
        }
        let c = KvCommand::Put(k, v);
        proof {
            lemma_prefix_cat(b, 1, enc_str(k@), enc_str(v@));
            lemma_prefix_cat(b, 0, seq![0u8], enc_str(k@) + enc_str(v@));
            assert(b.subrange(0, 1) =~= seq![0u8]);
            lemma_whole(b, enc_command(c@));
        }
        Ok(c)
    } else if tag == 1 || tag == 2 {
        if p != bytes.len() {
            return Err(DecodeError);
        }
        let c = if tag == 1 { KvCommand::Get(k) } else { KvCommand::Delete(k) };
        proof {
            lemma_prefix_cat(b, 0, seq![tag], enc_str(k@));
            assert(b.subrange(0, 1) =~= seq![tag]);
            assert(enc_command(c@) == seq![tag] + enc_str(k@));
            lemma_whole(b, enc_command(c@));
        }
        Ok(c)
    } else {
        Err(DecodeError)
    }
}

/// Reads the pairs of a snapshot at `pos`.
fn read_pairs(buf: &[u8], pos: usize) -> (r: Option<(Vec<(String, String)>, usize)>)
    ensures
        r matches Some((x, n)) ==> n == pos + enc_pairs(pairs_view(x@)).len() && prefix_at(
            buf@,
            pos as int,
            enc_pairs(pairs_view(x@)),
        ),
        forall|v: Seq<(Seq<char>, Seq<char>)>| #[trigger] prefix_at(buf@, pos as int, enc_pairs(v)) ==> (r matches Some(
            (x, n),
        ) && pairs_view(x@) == v && n == pos + enc_pairs(v).len()),
{
    let blen = buf.len();
    assert(blen <= u64::MAX);
    proof {
        assert forall|v: Seq<(Seq<char>, Seq<char>)>| #[trigger] prefix_at(buf@, pos as int, enc_pairs(v)) implies {
            &&& prefix_at(buf@, pos as int, enc_u64(v.len() as u64))
            &&& prefix_at(buf@, pos + 8, enc_pair_list(v))
            &&& v.len() <= u64::MAX
        } by {
            lemma_enc_u64(v.len() as u64);
            lemma_prefix_cat(buf@, pos as int, enc_u64(v.len() as u64), enc_pair_list(v));
            lemma_pair_list_len(v);
        }
    }
    let (count, p) = match read_u64(buf, pos) {
        Some(t) => t,
        None => {
            return None;
        },
    };
    proof {
        lemma_enc_u64(count);
        assert(enc_pair_list(pairs_view(Seq::<(String, String)>::empty())) =~= Seq::<u8>::empty());
        assert(buf@.subrange(p as int, p as int) =~= Seq::<u8>::empty());
    }
    let mut out: Vec<(String, String)> = Vec::new();
    let mut cur = p;
    let mut i: u64 = 0;
    while i < count
        invariant
            i <= count,
            p == pos + 8,
            p <= cur <= buf@.len(),
            out@.len() == i,
            prefix_at(buf@, p as int, enc_pair_list(pairs_view(out@))),
            cur == p + enc_pair_list(pairs_view(out@)).len(),
            forall|v: Seq<(Seq<char>, Seq<char>)>| #[trigger] prefix_at(buf@, pos as int, enc_pairs(v)) ==> v.len()
                == count && prefix_at(buf@, p as int, enc_pair_list(v)) && v.len() <= u64::MAX,
            forall|v: Seq<(Seq<char>, Seq<char>)>| #[trigger] prefix_at(buf@, pos as int, enc_pairs(v))
                ==> pairs_view(out@) == v.take(i as int),
        decreases count - i,
    {
        proof {
            assert forall|v: Seq<(Seq<char>, Seq<char>)>| #[trigger] prefix_at(buf@, pos as int, enc_pairs(v)) implies {
                &&& prefix_at(buf@, cur as int, enc_str(v[i as int].0))
                &&& prefix_at(buf@, cur + enc_str(v[i as int].0).len(), enc_str(v[i as int].1))
            } by {
                lemma_pair_list_prefix(v, i + 1);
                lemma_prefix_trans(buf@, p as int, enc_pair_list(v), enc_pair_list(v.take(i + 1)));
                assert(v.take(i + 1).drop_last() =~= v.take(i as int));
                lemma_prefix_cat(buf@, p as int, enc_pair_list(v.take(i as int)), enc_pair(v[i as int]));
                lemma_prefix_cat(buf@, cur as int, enc_str(v[i as int].0), enc_str(v[i as int].1));
            }
        }
        let (k, n1) = match read_str(buf, cur) {
            Some(t) => t,
            None => {
                return None;
            },
        };
        let (val, n2) = match read_str(buf, n1) {
            Some(t) => t,
            None => {
                return None;
            },
        };
        let ghost before = pairs_view(out@);
        let ghost kv = (k@, val@);
        out.push((k, val));
        proof {
            let now = pairs_view(out@);
            assert(now =~= before.push(kv));
            assert(now.drop_last() =~= before);
            lemma_prefix_cat(buf@, cur as int, enc_str(kv.0), enc_str(kv.1));
            lemma_prefix_cat(buf@, p as int, enc_pair_list(before), enc_pair(kv));
            assert forall|v: Seq<(Seq<char>, Seq<char>)>| #[trigger] prefix_at(buf@, pos as int, enc_pairs(v)) implies now
                == v.take(i + 1) by {
                assert(v.take(i + 1) =~= v.take(i as int).push(v[i as int]));
            }
        }
        cur = n2;
        i = i + 1;
    }
    proof {
        let x = pairs_view(out@);
        lemma_prefix_cat(buf@, pos as int, enc_u64(count), enc_pair_list(x));
        assert forall|v: Seq<(Seq<char>, Seq<char>)>| #[trigger] prefix_at(buf@, pos as int, enc_pairs(v)) implies x
            == v by {
            assert(v.take(i as int) =~= v);
        }
    }
    Some((out, cur))
}

/// The reference state machine: an in-memory map from keys to values.
#[derive(Debug)]
pub struct KeyValueStore {
    data: Vec<(String, String)>,
}

impl View for KeyValueStore {
    type V = KvMap;

    closed spec fn view(&self) -> KvMap {
        to_map(pairs_view(self.data@))
    }
}

impl KeyValueStore {
    /// The store's invariant: no key is stored twice.
    pub closed spec fn wf(&self) -> bool {
        keys_unique(pairs_view(self.data@))
    }

    /// An empty store.
    pub fn new() -> (r: Self)
        ensures
            r.wf(),
            r@ == Map::<Seq<char>, Seq<char>>::empty(),
    {
        let r = KeyValueStore { data: Vec::new() };
        assert(pairs_view(r.data@) =~= Seq::empty());
        r
    }

    /// Position of `key` in the pairs.
    fn index_of(&self, key: &String) -> (r: Option<usize>)
        requires
            self.wf(),
        ensures
            r matches Some(i) ==> i < self.data@.len() && self.data@[i as int].0@ == key@,
            r is None ==> !self@.contains_key(key@),
    {
        let mut i: usize = 0;
        while i < self.data.len()
            invariant
                i <= self.data@.len(),
                forall|j: int| 0 <= j < i ==> self.data@[j].0@ != key@,
            decreases self.data@.len() - i,
        {
            if self.data[i].0 == *key {
                return Some(i);
            }
            i = i + 1;
        }
        proof {
            let ps = pairs_view(self.data@);
            lemma_to_map_contains(ps, key@);
            if self@.contains_key(key@) {
                let j = choose|j: int| 0 <= j < ps.len() && ps[j].0 == key@;
                assert(self.data@[j].0@ == key@);
            }
        }
        None
    }

    /// The value stored under `key`, if any.
    pub fn get(&self, key: String) -> (r: Option<String>)
        requires
            self.wf(),
        ensures
            r matches Some(v) ==> self@.contains_key(key@) && self@[key@] == v@,
            r is None ==> !self@.contains_key(key@),
    {
        match self.index_of(&key) {
            Some(i) => {
                proof {
                    lemma_to_map_index(pairs_view(self.data@), i as int);
                }
                Some(self.data[i].1.clone())
            },
            None => None,
        }
    }

    /// Removes `key`, if present.
    fn remove_key(&mut self, key: &String)
        requires
            old(self).wf(),
        ensures
            final(self).wf(),
            final(self)@ == old(self)@.remove(key@),
    {
        match self.index_of(key) {
            Some(i) => {
                let ghost ps = pairs_view(self.data@);
                self.data.remove(i);
                proof {
                    assert(pairs_view(self.data@) =~= ps.remove(i as int));
                    lemma_to_map_remove(ps, i as int);
                }
            },
            None => {
                assert(self@.remove(key@) =~= self@);
            },
        }
    }

    /// Applies a command: `Put` stores the value under the key, `Delete` removes the key, and
    /// both answer `Ack`; `Get` answers the value under the key and changes nothing.
    pub fn apply(&mut self, command: KvCommand) -> (r: KvResponse)
        requires
            old(self).wf(),
        ensures
            final(self).wf(),
            final(self)@ == next_state(old(self)@, command@),
            answers(old(self)@, command@, r),
    {
        match command {
            KvCommand::Put(k, v) => {
                self.remove_key(&k);
                let ghost ps = pairs_view(self.data@);
                let ghost kv = (k@, v@);
                self.data.push((k, v));
                proof {
                    assert(pairs_view(self.data@) =~= ps.push(kv));
                    assert(pairs_view(self.data@).drop_last() =~= ps);
                    lemma_to_map_contains(ps, kv.0);
                    assert forall|a: int, b: int| 0 <= a < b < ps.push(kv).len() implies #[trigger] ps.push(kv)[a].0
                        != #[trigger] ps.push(kv)[b].0 by {
                        if b == ps.len() {
                            assert(ps[a].0 != kv.0);
                        } else {
                            assert(ps.push(kv)[a] == ps[a] && ps.push(kv)[b] == ps[b]);
                        }
                    }
                    assert(self@ =~= old(self)@.insert(kv.0, kv.1));
                }
                KvResponse::Ack
            },
            KvCommand::Get(k) => KvResponse::Value(self.get(k)),
            KvCommand::Delete(k) => {
                self.remove_key(&k);
                KvResponse::Ack
            },
        }
    }

    /// The bytes of a snapshot of this store.
    pub closed spec fn snapshot_bytes(&self) -> Seq<u8> {
        enc_pairs(pairs_view(self.data@))
    }

    /// A self-contained encoding of the store's contents.
    pub fn snapshot(&self) -> (r: Vec<u8>)
        requires
            self.wf(),
        ensures
            r@ == self.snapshot_bytes(),
    {
        let ghost pv = pairs_view(self.data@);
        let mut out: Vec<u8> = Vec::new();
        write_u64(&mut out, self.data.len() as u64);
        let ghost start = out@;
        let mut i: usize = 0;
        while i < self.data.len()
            invariant
                i <= self.data@.len() == pv.len(),
                pv == pairs_view(self.data@),
                out@ == start + enc_pair_list(pv.take(i as int)),
            decreases self.data@.len() - i,
        {
            write_str(&mut out, &self.data[i].0);
            write_str(&mut out, &self.data[i].1);
            assert(pv.take(i as int + 1).drop_last() =~= pv.take(i as int));
            i = i + 1;
            assert(out@ =~= start + enc_pair_list(pv.take(i as int)));
        }
        assert(pv.take(i as int) =~= pv);
        assert(out@ =~= enc_pairs(pv));
        out
    }

    /// Replaces the contents by those that `snapshot` encodes. Bytes that encode no store
    /// (cut short, bad UTF-8, a key twice, bytes left over) are refused and change nothing.
    pub fn restore(&mut self, snapshot: Vec<u8>) -> (r: Result<(), DecodeError>)
        requires
            old(self).wf(),
        ensures
            final(self).wf(),
            r is Ok ==> final(self).snapshot_bytes() == snapshot@,
            r is Err ==> final(self)@ == old(self)@,
            forall|s: KeyValueStore| s.wf() && #[trigger] s.snapshot_bytes() == snapshot@ ==> (r is Ok
                && final(self)@ == s@),
    {
        let (pairs, n) = match read_pairs(snapshot.as_slice(), 0) {
            Some(t) => t,
            None => {
                proof {
                    assert forall|s: KeyValueStore| s.wf() && #[trigger] s.snapshot_bytes() == snapshot@ implies false by {
                        lemma_whole(snapshot@, s.snapshot_bytes());
                    }
                }
                return Err(DecodeError);
            },
        };
        proof {
            assert forall|s: KeyValueStore| s.wf() && #[trigger] s.snapshot_bytes() == snapshot@ implies pairs_view(pairs@)
                == pairs_view(s.data@) && n == snapshot@.len() by {
                lemma_whole(snapshot@, s.snapshot_bytes());
            }
        }
        if n != snapshot.len() || !keys_distinct(&pairs) {
            return Err(DecodeError);
        }
        proof {
            lemma_whole(snapshot@, enc_pairs(pairs_view(pairs@)));
        }
        self.data = pairs;
        Ok(())
    }
}

/// Whether no key occurs twice among the pairs.
fn keys_distinct(v: &Vec<(String, String)>) -> (r: bool)
    ensures
        r == keys_unique(pairs_view(v@)),
{
    let ghost pv = pairs_view(v@);
    let mut j: usize = 0;
    while j < v.len()
        invariant
            j <= v@.len() == pv.len(),
            pv == pairs_view(v@),
            keys_unique(pv.take(j as int)),
        decreases v@.len() - j,
    {
        let mut i: usize = 0;
        while i < j
            invariant
                i <= j < v@.len() == pv.len(),
                pv == pairs_view(v@),
                forall|a: int| 0 <= a < i ==> pv[a].0 != pv[j as int].0,
            decreases j - i,
        {
            if v[i].0 == v[j].0 {
                assert(pv[i as int].0 == pv[j as int].0);
                return false;
            }
            i = i + 1;
        }
        proof {
            let t = pv.take(j as int + 1);
            assert forall|a: int, b: int| 0 <= a < b < t.len() implies #[trigger] t[a].0 != #[trigger] t[b].0 by {
                assert(t[a] == pv[a] && t[b] == pv[b]);
                if b < j {
                    assert(pv.take(j as int)[a] == pv[a] && pv.take(j as int)[b] == pv[b]);
                }
            }
        }
        j = j + 1;
    }
    assert(pv.take(j as int) =~= pv);
    true
}

impl Default for KeyValueStore {
    fn default() -> (r: Self)
        ensures
            r.wf(),
            r@ == Map::<Seq<char>, Seq<char>>::empty(),
    {
        KeyValueStore::new()
    }
}

/// A deterministic state machine that a node replicates: it applies commands, reads keys,
/// and turns its state into bytes and back. Its behaviour is stated over the spec functions
/// that each implementation defines.
pub trait StateMachine: Sized {
    type Command;
    type Response;

    /// The machine's invariant.
    spec fn inv(&self) -> bool;

    /// The value that the state holds under `key`, if any.
    spec fn lookup(&self, key: Seq<char>) -> Option<Seq<char>>;

    /// Whether applying `command` to this state gives the state `after`.
    spec fn steps_to(&self, command: Self::Command, after: Self) -> bool;

    /// Whether `response` answers `command` on this state.
    spec fn answers_with(&self, command: Self::Command, response: Self::Response) -> bool;

    /// Whether `bytes` are a snapshot of this state.
    spec fn snapshot_is(&self, bytes: Seq<u8>) -> bool;

    /// Whether two states hold the same contents.
    spec fn same_state(&self, other: Self) -> bool;

    /// Reads the value under `key`; changes nothing.
    fn get(&self, key: String) -> (r: Option<String>)
        requires
            self.inv(),
        ensures
            r matches Some(v) ==> self.lookup(key@) == Some(v@),
            r is None ==> self.lookup(key@) is None,
    ;

    /// Applies a command and returns its answer.
    fn apply(&mut self, command: Self::Command) -> (r: Self::Response)
        requires
            old(self).inv(),
        ensures
            final(self).inv(),
            old(self).steps_to(command, *final(self)),
            old(self).answers_with(command, r),
    ;

    /// A self-contained encoding of the current state.
    fn snapshot(&self) -> (r: Vec<u8>)
        requires
            self.inv(),
        ensures
            self.snapshot_is(r@),
    ;

    /// Replaces the state by the one that `snapshot` encodes; bytes that encode no state are
    /// refused and change nothing.
    fn restore(&mut self, snapshot: Vec<u8>) -> (r: Result<(), DecodeError>)
        requires
            old(self).inv(),
        ensures
            final(self).inv(),
            r is Ok ==> final(self).snapshot_is(snapshot@),
            r is Err ==> final(self).same_state(*old(self)),
            forall|s: Self| s.inv() && #[trigger] s.snapshot_is(snapshot@) ==> (r is Ok && final(self).same_state(s)),
    ;
}

impl StateMachine for KeyValueStore {
    type Command = KvCommand;
    type Response = KvResponse;

    open spec fn inv(&self) -> bool {
        self.wf()
    }

    open spec fn lookup(&self, key: Seq<char>) -> Option<Seq<char>> {
        if self@.contains_key(key) {
            Some(self@[key])
        } else {
            None
        }
    }

    open spec fn steps_to(&self, command: KvCommand, after: KeyValueStore) -> bool {
        after@ == next_state(self@, command@)
    }

    open spec fn answers_with(&self, command: KvCommand, response: KvResponse) -> bool {
        answers(self@, command@, response)
    }

    open spec fn snapshot_is(&self, bytes: Seq<u8>) -> bool {
        self.snapshot_bytes() == bytes
    }

    open spec fn same_state(&self, other: KeyValueStore) -> bool {
        self@ == other@
    }

    fn get(&self, key: String) -> (r: Option<String>) {
        KeyValueStore::get(self, key)
    }

    fn apply(&mut self, command: KvCommand) -> (r: KvResponse) {
        KeyValueStore::apply(self, command)
    }

    fn snapshot(&self) -> (r: Vec<u8>) {
        KeyValueStore::snapshot(self)
    }

    fn restore(&mut self, snapshot: Vec<u8>) -> (r: Result<(), DecodeError>) {
        KeyValueStore::restore(self, snapshot)
    }
}

} // verus!
