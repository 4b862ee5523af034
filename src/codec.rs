use vstd::prelude::*;
use vstd::bytes::{spec_u64_from_le_bytes, spec_u64_to_le_bytes, u64_from_le_bytes, u64_to_le_bytes};
use vstd::bytes::lemma_auto_spec_u64_to_from_le_bytes;
use vstd::slice::{slice_subrange, slice_to_vec};
use crate::log::{EntryView, LogEntry, LogEntryType};
use crate::rpc::{
    AppendEntriesRequest, AppendEntriesRequestView, AppendEntriesResponse, RequestVoteRequest,
    RequestVoteRequestView, RequestVoteResponse,
};
use vstd::utf8::{decode_utf8, encode_utf8, valid_utf8, encode_utf8_valid_utf8, encode_utf8_decode_utf8, decode_utf8_encode_utf8};

verus! {

/// Bytes that cannot be decoded: cut short, with an unknown tag, invalid UTF-8, or with
/// bytes left over.
#[derive(Debug, Clone, Copy, PartialEq, Eq, Structural)]
pub struct DecodeError;

/// Eight bytes, little-endian.
pub open spec fn enc_u64(x: u64) -> Seq<u8> {
    spec_u64_to_le_bytes(x)
}

/// One byte, 1 for true and 0 for false.
pub open spec fn enc_bool(b: bool) -> Seq<u8> {
    seq![if b { 1u8 } else { 0u8 }]
}

/// The length as `u64`, then the bytes.
pub open spec fn enc_bytes(b: Seq<u8>) -> Seq<u8> {
    enc_u64(b.len() as u64) + b
}

/// A string as its UTF-8 bytes, length first.
pub open spec fn enc_str(s: Seq<char>) -> Seq<u8> {
    enc_bytes(encode_utf8(s))
}

/// Whether `buf` holds `e` from position `pos` on.
pub open spec fn prefix_at(buf: Seq<u8>, pos: int, e: Seq<u8>) -> bool {
    &&& 0 <= pos
    &&& pos + e.len() <= buf.len()
    &&& buf.subrange(pos, pos + e.len()) == e
}

/// `a + b` stands at `pos` exactly when `a` does and `b` follows it.
pub proof fn lemma_prefix_cat(buf: Seq<u8>, pos: int, a: Seq<u8>, b: Seq<u8>)
    ensures
        prefix_at(buf, pos, a + b) <==> (prefix_at(buf, pos, a) && prefix_at(buf, pos + a.len(), b)),
{
    if prefix_at(buf, pos, a + b) {
        let s = buf.subrange(pos, pos + (a + b).len());
        assert(buf.subrange(pos, pos + a.len()) =~= s.subrange(0, a.len() as int));
        assert(s.subrange(0, a.len() as int) =~= a);
        assert(buf.subrange(pos + a.len(), pos + a.len() + b.len()) =~= s.subrange(
            a.len() as int,
            (a.len() + b.len()) as int,
        ));
        assert(s.subrange(a.len() as int, (a.len() + b.len()) as int) =~= b);
    }
    if prefix_at(buf, pos, a) && prefix_at(buf, pos + a.len(), b) {
        assert(buf.subrange(pos, pos + (a + b).len()) =~= a + b);
    }
}

pub proof fn lemma_enc_u64(x: u64)
    ensures
        enc_u64(x).len() == 8,
        spec_u64_from_le_bytes(enc_u64(x)) == x,
{
    lemma_auto_spec_u64_to_from_le_bytes();
    assert(spec_u64_to_le_bytes(x).len() == 8);
}

/// Appends `b` to `out`.
pub fn write_bytes_raw(out: &mut Vec<u8>, b: &[u8])
    ensures
        final(out)@ == old(out)@ + b@,
{
    let mut i: usize = 0;
    while i < b.len()
        invariant
            i <= b@.len(),
            out@ == old(out)@ + b@.subrange(0, i as int),
        decreases b@.len() - i,
    {
        out.push(b[i]);
        i = i + 1;
        assert(out@ =~= old(out)@ + b@.subrange(0, i as int));
    }
    assert(b@.subrange(0, i as int) =~= b@);
}

/// Appends the encoding of `x`.
pub fn write_u64(out: &mut Vec<u8>, x: u64)
    ensures
        final(out)@ == old(out)@ + enc_u64(x),
{
    let b = u64_to_le_bytes(x);
    write_bytes_raw(out, b.as_slice());
}

/// Appends the encoding of `b`.
pub fn write_bool(out: &mut Vec<u8>, b: bool)
    ensures
        final(out)@ == old(out)@ + enc_bool(b),
{
    out.push(if b { 1u8 } else { 0u8 });
    assert(out@ =~= old(out)@ + enc_bool(b));
}

/// Appends the encoding of the byte string `b`.
pub fn write_bytes(out: &mut Vec<u8>, b: &[u8])
    ensures
        final(out)@ == old(out)@ + enc_bytes(b@),
{
    write_u64(out, b.len() as u64);
    write_bytes_raw(out, b);
    assert(out@ =~= old(out)@ + enc_bytes(b@));
}

/// Appends the encoding of the string `s`.
pub fn write_str(out: &mut Vec<u8>, s: &String)
    ensures
        final(out)@ == old(out)@ + enc_str(s@),
{
    let b = s.as_str().as_bytes();
    write_bytes(out, b);
}

/// Reads a `u64` at `pos`.
pub fn read_u64(buf: &[u8], pos: usize) -> (r: Option<(u64, usize)>)
    ensures
        r matches Some((x, n)) ==> n == pos + 8 && prefix_at(buf@, pos as int, enc_u64(x)),
        forall|v: u64| #[trigger] prefix_at(buf@, pos as int, enc_u64(v)) ==> r == Some((v, (pos + 8) as usize)),
{
    proof {
        lemma_auto_spec_u64_to_from_le_bytes();
    }
    if pos > buf.len() || buf.len() - pos < 8 {
        proof {
            assert forall|v: u64| !#[trigger] prefix_at(buf@, pos as int, enc_u64(v)) by {
                lemma_enc_u64(v);
            }
        }
        return None;
    }
    let s = slice_subrange(buf, pos, pos + 8);
    let x = u64_from_le_bytes(s);
    proof {
        assert(spec_u64_to_le_bytes(spec_u64_from_le_bytes(s@)) == s@);
        assert forall|v: u64| #[trigger] prefix_at(buf@, pos as int, enc_u64(v)) implies v == x by {
            lemma_enc_u64(v);
        }
    }
    Some((x, pos + 8))
}

/// Reads a `bool` at `pos`.
pub fn read_bool(buf: &[u8], pos: usize) -> (r: Option<(bool, usize)>)
    ensures
        r matches Some((x, n)) ==> n == pos + 1 && prefix_at(buf@, pos as int, enc_bool(x)),
        forall|v: bool| #[trigger] prefix_at(buf@, pos as int, enc_bool(v)) ==> r == Some((v, (pos + 1) as usize)),
{
    if pos >= buf.len() {
        return None;
    }
    let b = buf[pos];
    proof {
        assert forall|v: bool| #[trigger] prefix_at(buf@, pos as int, enc_bool(v)) implies buf@[pos as int]
            == enc_bool(v)[0] by {
            assert(buf@.subrange(pos as int, pos + 1)[0] == buf@[pos as int]);
        }
    }
    if b == 0 {
        assert(buf@.subrange(pos as int, pos + 1) =~= enc_bool(false));
        Some((false, pos + 1))
    } else if b == 1 {
        assert(buf@.subrange(pos as int, pos + 1) =~= enc_bool(true));
        Some((true, pos + 1))
    } else {
        None
    }
}

/// Reads a length-prefixed byte string at `pos`.
pub fn read_bytes(buf: &[u8], pos: usize) -> (r: Option<(Vec<u8>, usize)>)
    ensures
        r matches Some((x, n)) ==> n == pos + enc_bytes(x@).len() && prefix_at(buf@, pos as int, enc_bytes(x@)),
        forall|v: Seq<u8>| #[trigger] prefix_at(buf@, pos as int, enc_bytes(v)) ==> (r matches Some((x, n))
            && x@ == v && n == pos + enc_bytes(v).len()),
{
    proof {
        assert forall|v: Seq<u8>| #[trigger] prefix_at(buf@, pos as int, enc_bytes(v)) implies prefix_at(
            buf@,
            pos as int,
            enc_u64(v.len() as u64),
        ) && prefix_at(buf@, pos + 8, v) && v.len() <= buf@.len() by {
            lemma_prefix_cat(buf@, pos as int, enc_u64(v.len() as u64), v);
            lemma_enc_u64(v.len() as u64);
        }
    }
    let (len, p) = match read_u64(buf, pos) {
        Some(t) => t,
        None => {
            return None;
        },
    };
    if p > buf.len() || len > (buf.len() - p) as u64 {
        return None;
    }
    let end = p + len as usize;
    let x = slice_to_vec(slice_subrange(buf, p, end));
    proof {
        lemma_enc_u64(len);
        lemma_prefix_cat(buf@, pos as int, enc_u64(len), x@);
    }
    Some((x, end))
}

/// Relies on std::str::from_utf8: it accepts exactly the valid UTF-8 byte sequences, and the
/// string it returns holds the characters that the bytes encode.
#[verifier::external_body]
fn utf8_to_string(b: &[u8]) -> (r: Option<String>)
    ensures
        r is Some <==> valid_utf8(b@),
        r matches Some(s) ==> s@ == decode_utf8(b@),
{
    match std::str::from_utf8(b) {
        Ok(s) => Some(s.to_string()),
        Err(_) => None,
    }
}

/// Reads a length-prefixed UTF-8 string at `pos`.
pub fn read_str(buf: &[u8], pos: usize) -> (r: Option<(String, usize)>)
    ensures
        r matches Some((x, n)) ==> n == pos + enc_str(x@).len() && prefix_at(buf@, pos as int, enc_str(x@)),
        forall|v: Seq<char>| #[trigger] prefix_at(buf@, pos as int, enc_str(v)) ==> (r matches Some((x, n))
            && x@ == v && n == pos + enc_str(v).len()),
{
    proof {
        broadcast use encode_utf8_valid_utf8, encode_utf8_decode_utf8;
    }
    let (b, n) = match read_bytes(buf, pos) {
        Some(t) => t,
        None => {
            proof {
                assert forall|v: Seq<char>| !#[trigger] prefix_at(buf@, pos as int, enc_str(v)) by {
                    if prefix_at(buf@, pos as int, enc_str(v)) {
                        assert(prefix_at(buf@, pos as int, enc_bytes(encode_utf8(v))));
                    }
                }
            }
            return None;
        },
    };
    match utf8_to_string(b.as_slice()) {
        Some(s) => {
            proof {
                decode_utf8_encode_utf8(b@);
                assert forall|v: Seq<char>| #[trigger] prefix_at(buf@, pos as int, enc_str(v)) implies s@ == v by {
                    assert(prefix_at(buf@, pos as int, enc_bytes(encode_utf8(v))));
                }
            }
            Some((s, n))
        },
        None => {
            proof {
                assert forall|v: Seq<char>| !#[trigger] prefix_at(buf@, pos as int, enc_str(v)) by {
                    if prefix_at(buf@, pos as int, enc_str(v)) {
                        assert(prefix_at(buf@, pos as int, enc_bytes(encode_utf8(v))));
                    }
                }
            }
            None
        },
    }
}

/// The tag of an entry's kind: 0 for Command, 1 for Configuration, 2 for Noop.
pub open spec fn kind_tag(k: LogEntryType) -> u8 {
    match k {
        LogEntryType::Command => 0u8,
        LogEntryType::Configuration => 1u8,
        LogEntryType::Noop => 2u8,
    }
}

/// An entry: term, index, kind tag, then the payload with its length.
pub open spec fn enc_entry(e: EntryView) -> Seq<u8> {
    enc_u64(e.term) + (enc_u64(e.index) + (seq![kind_tag(e.entry_type)] + enc_bytes(e.data)))
}

/// The entries one after the other.
pub open spec fn enc_entry_list(es: Seq<EntryView>) -> Seq<u8>
    decreases es.len(),
{
    if es.len() == 0 {
        Seq::empty()
    } else {
        enc_entry_list(es.drop_last()) + enc_entry(es.last())
    }
}

/// A list of entries: their number as `u64`, then the entries.
pub open spec fn enc_entries(es: Seq<EntryView>) -> Seq<u8> {
    enc_u64(es.len() as u64) + enc_entry_list(es)
}

/// Whether `b` stands at the start of `a`.
pub proof fn lemma_prefix_trans(buf: Seq<u8>, pos: int, a: Seq<u8>, b: Seq<u8>)
    requires
        prefix_at(buf, pos, a),
        prefix_at(a, 0, b),
    ensures
        prefix_at(buf, pos, b),
{
    assert(buf.subrange(pos, pos + b.len()) =~= a.subrange(0, b.len() as int));
}

proof fn lemma_entry_list_prefix(es: Seq<EntryView>, i: int)
    requires
        0 <= i <= es.len(),
    ensures
        prefix_at(enc_entry_list(es), 0, enc_entry_list(es.take(i))),
    decreases es.len(),
{
    if i == es.len() {
        assert(es.take(i) =~= es);
        assert(enc_entry_list(es).subrange(0, enc_entry_list(es).len() as int) =~= enc_entry_list(es));
    } else {
        let dl = es.drop_last();
        lemma_entry_list_prefix(dl, i);
        assert(dl.take(i) =~= es.take(i));
        lemma_prefix_cat(enc_entry_list(es), 0, enc_entry_list(dl), enc_entry(es.last()));
        assert(enc_entry_list(es).subrange(0, enc_entry_list(es).len() as int) =~= enc_entry_list(es));
        lemma_prefix_trans(enc_entry_list(es), 0, enc_entry_list(dl), enc_entry_list(es.take(i)));
    }
}

/// Appends the encoding of an entry.
pub fn write_entry(out: &mut Vec<u8>, e: &LogEntry)
    ensures
        final(out)@ == old(out)@ + enc_entry(e@),
{
    write_u64(out, e.term);
    write_u64(out, e.index);
    let tag: u8 = match e.entry_type {
        LogEntryType::Command => 0,
        LogEntryType::Configuration => 1,
        LogEntryType::Noop => 2,
    };
    out.push(tag);
    write_bytes(out, e.data.as_slice());
    assert(out@ =~= old(out)@ + enc_entry(e@));
}

/// Appends the encoding of a list of entries.
pub fn write_entries(out: &mut Vec<u8>, es: &Vec<LogEntry>)
    ensures
        final(out)@ == old(out)@ + enc_entries(es@.map_values(|e: LogEntry| e@)),
{
    let ghost v = es@.map_values(|e: LogEntry| e@);
    write_u64(out, es.len() as u64);
    let ghost start = out@;
    let mut i: usize = 0;
    while i < es.len()
        invariant
            i <= es@.len() == v.len(),
            v == es@.map_values(|e: LogEntry| e@),
            out@ == start + enc_entry_list(v.take(i as int)),
        decreases es@.len() - i,
    {
        write_entry(out, &es[i]);
        assert(v.take(i as int + 1).drop_last() =~= v.take(i as int));
        i = i + 1;
        assert(out@ =~= start + enc_entry_list(v.take(i as int)));
    }
    assert(v.take(i as int) =~= v);
    assert(out@ =~= old(out)@ + enc_entries(v));
}

/// Reads an entry at `pos`.
pub fn read_entry(buf: &[u8], pos: usize) -> (r: Option<(LogEntry, usize)>)
    ensures
        r matches Some((x, n)) ==> n == pos + enc_entry(x@).len() && prefix_at(buf@, pos as int, enc_entry(x@)),
        forall|v: EntryView| #[trigger] prefix_at(buf@, pos as int, enc_entry(v)) ==> (r matches Some((x, n))
            && x@ == v && n == pos + enc_entry(v).len()),
{
    proof {
        assert forall|v: EntryView| #[trigger] prefix_at(buf@, pos as int, enc_entry(v)) implies {
            &&& prefix_at(buf@, pos as int, enc_u64(v.term))
            &&& prefix_at(buf@, pos + 8, enc_u64(v.index))
            &&& prefix_at(buf@, pos + 16, seq![kind_tag(v.entry_type)])
            &&& prefix_at(buf@, pos + 17, enc_bytes(v.data))
        } by {
            lemma_enc_u64(v.term);
            lemma_enc_u64(v.index);
            let c = seq![kind_tag(v.entry_type)] + enc_bytes(v.data);
            lemma_prefix_cat(buf@, pos as int, enc_u64(v.term), enc_u64(v.index) + c);
            lemma_prefix_cat(buf@, pos + 8, enc_u64(v.index), c);
            lemma_prefix_cat(buf@, pos + 16, seq![kind_tag(v.entry_type)], enc_bytes(v.data));
        }
    }
    let (term, p1) = match read_u64(buf, pos) {
        Some(t) => t,
        None => {
            return None;
        },
    };
    let (index, p2) = match read_u64(buf, p1) {
        Some(t) => t,
        None => {
            return None;
        },
    };
    if p2 >= buf.len() {
        return None;
    }
    let tag = buf[p2];
    proof {
        assert forall|v: EntryView| #[trigger] prefix_at(buf@, pos as int, enc_entry(v)) implies kind_tag(v.entry_type)
            == tag by {
            assert(buf@.subrange(p2 as int, p2 + 1)[0] == buf@[p2 as int]);
        }
    }
    let entry_type = if tag == 0 {
        LogEntryType::Command
    } else if tag == 1 {
        LogEntryType::Configuration
    } else if tag == 2 {
        LogEntryType::Noop
    } else {
        return None;
    };
    let (data, p4) = match read_bytes(buf, p2 + 1) {
        Some(t) => t,
        None => {
            return None;
        },
    };
    let e = LogEntry { term, index, entry_type, data };
    proof {
        lemma_enc_u64(term);
        lemma_enc_u64(index);
        assert(buf@.subrange(p2 as int, p2 + 1) =~= seq![kind_tag(entry_type)]);
        let c = seq![kind_tag(entry_type)] + enc_bytes(data@);
        lemma_prefix_cat(buf@, p2 as int, seq![kind_tag(entry_type)], enc_bytes(data@));
        lemma_prefix_cat(buf@, p1 as int, enc_u64(index), c);
        lemma_prefix_cat(buf@, pos as int, enc_u64(term), enc_u64(index) + c);
        assert forall|v: EntryView| #[trigger] prefix_at(buf@, pos as int, enc_entry(v)) implies v == e@ by {
            assert(v.entry_type == entry_type);
        }
    }
    Some((e, p4))
}

/// Reads a list of entries at `pos`.
pub fn read_entries(buf: &[u8], pos: usize) -> (r: Option<(Vec<LogEntry>, usize)>)
    ensures
        r matches Some((x, n)) ==> n == pos + enc_entries(x@.map_values(|e: LogEntry| e@)).len() && prefix_at(
            buf@,
            pos as int,
            enc_entries(x@.map_values(|e: LogEntry| e@)),
        ),
        forall|v: Seq<EntryView>| #[trigger] prefix_at(buf@, pos as int, enc_entries(v)) ==> (r matches Some((x, n))
            && x@.map_values(|e: LogEntry| e@) == v && n == pos + enc_entries(v).len()),
{
    let blen = buf.len();
    assert(blen <= u64::MAX);
    proof {
        assert forall|v: Seq<EntryView>| #[trigger] prefix_at(buf@, pos as int, enc_entries(v)) implies {
            &&& prefix_at(buf@, pos as int, enc_u64(v.len() as u64))
            &&& prefix_at(buf@, pos + 8, enc_entry_list(v))
            &&& v.len() <= u64::MAX
        } by {
            lemma_enc_u64(v.len() as u64);
            lemma_prefix_cat(buf@, pos as int, enc_u64(v.len() as u64), enc_entry_list(v));
            lemma_entry_list_len(v);
        }
    }
    let (count, p) = match read_u64(buf, pos) {
        Some(t) => t,
        None => {
            return None;
        },
    };
    proof {
        lemma_enc_u64(count);
        assert(enc_entry_list(Seq::<LogEntry>::empty().map_values(|e: LogEntry| e@)) =~= Seq::<u8>::empty());
        assert(buf@.subrange(p as int, p as int) =~= Seq::<u8>::empty());
    }
    let mut out: Vec<LogEntry> = Vec::new();
    let mut cur = p;
    let mut i: u64 = 0;
    while i < count
        invariant
            i <= count,
            p == pos + 8,
            p <= cur <= buf@.len(),
            out@.len() == i,
            prefix_at(buf@, p as int, enc_entry_list(out@.map_values(|e: LogEntry| e@))),
            cur == p + enc_entry_list(out@.map_values(|e: LogEntry| e@)).len(),
            forall|v: Seq<EntryView>| #[trigger] prefix_at(buf@, pos as int, enc_entries(v)) ==> v.len() == count
                && prefix_at(buf@, p as int, enc_entry_list(v)) && v.len() <= u64::MAX,
            forall|v: Seq<EntryView>| #[trigger] prefix_at(buf@, pos as int, enc_entries(v)) ==> out@.map_values(
                |e: LogEntry| e@,
            ) == v.take(i as int),
        decreases count - i,
    {
        proof {
            assert forall|v: Seq<EntryView>| #[trigger] prefix_at(buf@, pos as int, enc_entries(v)) implies prefix_at(
                buf@,
                cur as int,
                enc_entry(v[i as int]),
            ) by {
                lemma_entry_list_prefix(v, i + 1);
                lemma_prefix_trans(buf@, p as int, enc_entry_list(v), enc_entry_list(v.take(i + 1)));
                assert(v.take(i + 1).drop_last() =~= v.take(i as int));
                lemma_prefix_cat(buf@, p as int, enc_entry_list(v.take(i as int)), enc_entry(v[i as int]));
            }
        }
        let (e, n) = match read_entry(buf, cur) {
            Some(t) => t,
            None => {
                return None;
            },
        };
        let ghost before = out@.map_values(|e: LogEntry| e@);
        out.push(e);
        proof {
            let now = out@.map_values(|e: LogEntry| e@);
            assert(now =~= before.push(e@));
            assert(now.drop_last() =~= before);
            lemma_prefix_cat(buf@, p as int, enc_entry_list(before), enc_entry(e@));
            assert forall|v: Seq<EntryView>| #[trigger] prefix_at(buf@, pos as int, enc_entries(v)) implies now == v.take(
                i + 1,
            ) by {
                assert(v.take(i + 1) =~= v.take(i as int).push(v[i as int]));
            }
        }
        cur = n;
        i = i + 1;
    }
    proof {
        let x = out@.map_values(|e: LogEntry| e@);
        lemma_enc_u64(count);
        lemma_prefix_cat(buf@, pos as int, enc_u64(count), enc_entry_list(x));
        assert forall|v: Seq<EntryView>| #[trigger] prefix_at(buf@, pos as int, enc_entries(v)) implies x == v by {
            assert(v.take(i as int) =~= v);
        }
    }
    Some((out, cur))
}

proof fn lemma_entry_list_len(es: Seq<EntryView>)
    ensures
        enc_entry_list(es).len() >= es.len(),
    decreases es.len(),
{
    if es.len() > 0 {
        lemma_entry_list_len(es.drop_last());
    }
}

/// Whether `bytes` is exactly `e`.
pub proof fn lemma_whole(bytes: Seq<u8>, e: Seq<u8>)
    ensures
        prefix_at(bytes, 0, e) && e.len() == bytes.len() <==> e == bytes,
{
    assert(bytes.subrange(0, bytes.len() as int) =~= bytes);
}

/// AppendEntriesRequest: term, leader id, prev log index, prev log term, entries, leader commit.
pub open spec fn enc_append_entries_request(m: AppendEntriesRequestView) -> Seq<u8> {
    enc_u64(m.term) + (enc_str(m.leader_id) + (enc_u64(m.prev_log_index) + (enc_u64(m.prev_log_term) + (
    enc_entries(m.entries) + enc_u64(m.leader_commit)))))
}

/// AppendEntriesResponse: term, success.
pub open spec fn enc_append_entries_response(m: AppendEntriesResponse) -> Seq<u8> {
    enc_u64(m.term) + enc_bool(m.success)
}

/// RequestVoteRequest: term, candidate id, last log index, last log term.
pub open spec fn enc_request_vote_request(m: RequestVoteRequestView) -> Seq<u8> {
    enc_u64(m.term) + (enc_str(m.candidate_id) + (enc_u64(m.last_log_index) + enc_u64(m.last_log_term)))
}

/// RequestVoteResponse: term, vote granted.
pub open spec fn enc_request_vote_response(m: RequestVoteResponse) -> Seq<u8> {
    enc_u64(m.term) + enc_bool(m.vote_granted)
}

/// Encodes an AppendEntries request.
pub fn encode_append_entries_request(m: &AppendEntriesRequest) -> (r: Vec<u8>)
    ensures
        r@ == enc_append_entries_request(m@),
{
    let mut out: Vec<u8> = Vec::new();
    write_u64(&mut out, m.term);
    write_str(&mut out, &m.leader_id);
    write_u64(&mut out, m.prev_log_index);
    write_u64(&mut out, m.prev_log_term);
    write_entries(&mut out, &m.entries);
    write_u64(&mut out, m.leader_commit);
    assert(out@ =~= enc_append_entries_request(m@));
    out
}

/// Decodes an AppendEntries request. It fails exactly on bytes that encode none, and decoding what the
/// encoder wrote gives back the message.
pub fn decode_append_entries_request(bytes: &[u8]) -> (r: Result<AppendEntriesRequest, DecodeError>)
    ensures
        r matches Ok(m) ==> enc_append_entries_request(m@) == bytes@,
        forall|v: AppendEntriesRequestView| enc_append_entries_request(v) == bytes@ ==> (r matches Ok(m) && m@ == v),
{
    let ghost b = bytes@;
    proof {
        assert forall|v: AppendEntriesRequestView| enc_append_entries_request(v) == b implies {
            let o1 = 8int + enc_str(v.leader_id).len();
            let o3 = o1 + 16;
            let o4 = o3 + enc_entries(v.entries).len();
            &&& prefix_at(b, 0, enc_u64(v.term))
            &&& prefix_at(b, 8, enc_str(v.leader_id))
            &&& prefix_at(b, o1, enc_u64(v.prev_log_index))
            &&& prefix_at(b, o1 + 8, enc_u64(v.prev_log_term))
            &&& prefix_at(b, o3, enc_entries(v.entries))
            &&& prefix_at(b, o4, enc_u64(v.leader_commit))
            &&& o4 + 8 == b.len()
        } by {
            lemma_whole(b, enc_append_entries_request(v));
            lemma_enc_u64(v.term);
            lemma_enc_u64(v.prev_log_index);
            lemma_enc_u64(v.prev_log_term);
            lemma_enc_u64(v.leader_commit);
            let e5 = enc_entries(v.entries) + enc_u64(v.leader_commit);
            let e4 = enc_u64(v.prev_log_term) + e5;
            let e3 = enc_u64(v.prev_log_index) + e4;
            let e2 = enc_str(v.leader_id) + e3;
            lemma_prefix_cat(b, 0, enc_u64(v.term), e2);
            lemma_prefix_cat(b, 8, enc_str(v.leader_id), e3);
            let o1 = 8int + enc_str(v.leader_id).len();
            lemma_prefix_cat(b, o1, enc_u64(v.prev_log_index), e4);
            lemma_prefix_cat(b, o1 + 8, enc_u64(v.prev_log_term), e5);
            lemma_prefix_cat(b, o1 + 16, enc_entries(v.entries), enc_u64(v.leader_commit));
        }
    }
    let (term, p1) = match read_u64(bytes, 0) {
        Some(t) => t,
        None => {
            return Err(DecodeError);
        },
    };
    let (leader_id, p2) = match read_str(bytes, p1) {
        Some(t) => t,
        None => {
            return Err(DecodeError);
        },
    };
    let (prev_log_index, p3) = match read_u64(bytes, p2) {
        Some(t) => t,
        None => {
            return Err(DecodeError);
        },
    };
    let (prev_log_term, p4) = match read_u64(bytes, p3) {
        Some(t) => t,
        None => {
            return Err(DecodeError);
        },
    };
    let (entries, p5) = match read_entries(bytes, p4) {
        Some(t) => t,
        None => {
            return Err(DecodeError);
        },
    };
    let (leader_commit, p6) = match read_u64(bytes, p5) {
        Some(t) => t,
        None => {
            return Err(DecodeError);
        },
    };
    if p6 != bytes.len() {
        return Err(DecodeError);
    }
    let m = AppendEntriesRequest { term, leader_id, prev_log_index, prev_log_term, entries, leader_commit };
    proof {
        let v = m@;
        lemma_enc_u64(term);
        lemma_enc_u64(prev_log_index);
        lemma_enc_u64(prev_log_term);
        lemma_enc_u64(leader_commit);
        let e5 = enc_entries(v.entries) + enc_u64(v.leader_commit);
        let e4 = enc_u64(v.prev_log_term) + e5;
        let e3 = enc_u64(v.prev_log_index) + e4;
        let e2 = enc_str(v.leader_id) + e3;
        lemma_prefix_cat(b, p4 as int, enc_entries(v.entries), enc_u64(v.leader_commit));
        lemma_prefix_cat(b, p3 as int, enc_u64(v.prev_log_term), e5);
        lemma_prefix_cat(b, p2 as int, enc_u64(v.prev_log_index), e4);
        lemma_prefix_cat(b, p1 as int, enc_str(v.leader_id), e3);
        lemma_prefix_cat(b, 0, enc_u64(v.term), e2);
        lemma_whole(b, enc_append_entries_request(v));
    }
    Ok(m)
}

/// Encodes an AppendEntries response.
pub fn encode_append_entries_response(m: &AppendEntriesResponse) -> (r: Vec<u8>)
    ensures
        r@ == enc_append_entries_response(*m),
{
    let mut out: Vec<u8> = Vec::new();
    write_u64(&mut out, m.term);
    write_bool(&mut out, m.success);
    assert(out@ =~= enc_append_entries_response(*m));
    out
}

/// Decodes an AppendEntries response. It fails exactly on bytes that encode none, and decoding what the
/// encoder wrote gives back the message.
pub fn decode_append_entries_response(bytes: &[u8]) -> (r: Result<AppendEntriesResponse, DecodeError>)
    ensures
        r matches Ok(m) ==> enc_append_entries_response(m) == bytes@,
        forall|v: AppendEntriesResponse| enc_append_entries_response(v) == bytes@ ==> r == Ok::<
            AppendEntriesResponse,
            DecodeError,
        >(v),
{
    let ghost b = bytes@;
    proof {
        assert forall|v: AppendEntriesResponse| enc_append_entries_response(v) == b implies {
            &&& prefix_at(b, 0, enc_u64(v.term))
            &&& prefix_at(b, 8, enc_bool(v.success))
            &&& b.len() == 9
        } by {
            lemma_whole(b, enc_append_entries_response(v));
            lemma_enc_u64(v.term);
            lemma_prefix_cat(b, 0, enc_u64(v.term), enc_bool(v.success));
        }
    }
    let (term, p1) = match read_u64(bytes, 0) {
        Some(t) => t,
        None => {
            return Err(DecodeError);
        },
    };
    let (success, p2) = match read_bool(bytes, p1) {
        Some(t) => t,
        None => {
            return Err(DecodeError);
        },
    };
    if p2 != bytes.len() {
        return Err(DecodeError);
    }
    let m = AppendEntriesResponse { term, success };
    proof {
        lemma_enc_u64(term);
        lemma_prefix_cat(b, 0, enc_u64(term), enc_bool(success));
        lemma_whole(b, enc_append_entries_response(m));
    }
    Ok(m)
}

/// Encodes a RequestVote request.
pub fn encode_request_vote_request(m: &RequestVoteRequest) -> (r: Vec<u8>)
    ensures
        r@ == enc_request_vote_request(m@),
{
    let mut out: Vec<u8> = Vec::new();
    write_u64(&mut out, m.term);
    write_str(&mut out, &m.candidate_id);
    write_u64(&mut out, m.last_log_index);
    write_u64(&mut out, m.last_log_term);
    assert(out@ =~= enc_request_vote_request(m@));
    out
}

/// Decodes a RequestVote request. It fails exactly on bytes that encode none, and decoding what the
/// encoder wrote gives back the message.
pub fn decode_request_vote_request(bytes: &[u8]) -> (r: Result<RequestVoteRequest, DecodeError>)
    ensures
        r matches Ok(m) ==> enc_request_vote_request(m@) == bytes@,
        forall|v: RequestVoteRequestView| enc_request_vote_request(v) == bytes@ ==> (r matches Ok(m) && m@ == v),
{
    let ghost b = bytes@;
    proof {
        assert forall|v: RequestVoteRequestView| enc_request_vote_request(v) == b implies {
            let o1 = 8int + enc_str(v.candidate_id).len();
            &&& prefix_at(b, 0, enc_u64(v.term))
            &&& prefix_at(b, 8, enc_str(v.candidate_id))
            &&& prefix_at(b, o1, enc_u64(v.last_log_index))
            &&& prefix_at(b, o1 + 8, enc_u64(v.last_log_term))
            &&& o1 + 16 == b.len()
        } by {
            lemma_whole(b, enc_request_vote_request(v));
            lemma_enc_u64(v.term);
            lemma_enc_u64(v.last_log_index);
            lemma_enc_u64(v.last_log_term);
            let e3 = enc_u64(v.last_log_index) + enc_u64(v.last_log_term);
            let e2 = enc_str(v.candidate_id) + e3;
            lemma_prefix_cat(b, 0, enc_u64(v.term), e2);
            lemma_prefix_cat(b, 8, enc_str(v.candidate_id), e3);
            lemma_prefix_cat(b, 8int + enc_str(v.candidate_id).len(), enc_u64(v.last_log_index), enc_u64(v.last_log_term));
        }
    }
    let (term, p1) = match read_u64(bytes, 0) {
        Some(t) => t,
        None => {
            return Err(DecodeError);
        },
    };
    let (candidate_id, p2) = match read_str(bytes, p1) {
        Some(t) => t,
        None => {
            return Err(DecodeError);
        },
    };
    let (last_log_index, p3) = match read_u64(bytes, p2) {
        Some(t) => t,
        None => {
            return Err(DecodeError);
        },
    };
    let (last_log_term, p4) = match read_u64(bytes, p3) {
        Some(t) => t,
        None => {
            return Err(DecodeError);
        },
    };
    if p4 != bytes.len() {
        return Err(DecodeError);
    }
    let m = RequestVoteRequest { term, candidate_id, last_log_index, last_log_term };
    proof {
        let v = m@;
        lemma_enc_u64(term);
        lemma_enc_u64(last_log_index);
        lemma_enc_u64(last_log_term);
        let e3 = enc_u64(v.last_log_index) + enc_u64(v.last_log_term);
        let e2 = enc_str(v.candidate_id) + e3;
        lemma_prefix_cat(b, p2 as int, enc_u64(v.last_log_index), enc_u64(v.last_log_term));
        lemma_prefix_cat(b, p1 as int, enc_str(v.candidate_id), e3);
        lemma_prefix_cat(b, 0, enc_u64(v.term), e2);
        lemma_whole(b, enc_request_vote_request(v));
    }
    Ok(m)
}

/// Encodes a RequestVote response.
pub fn encode_request_vote_response(m: &RequestVoteResponse) -> (r: Vec<u8>)
    ensures
        r@ == enc_request_vote_response(*m),
{
    let mut out: Vec<u8> = Vec::new();
    write_u64(&mut out, m.term);
    write_bool(&mut out, m.vote_granted);
    assert(out@ =~= enc_request_vote_response(*m));
    out
}

/// Decodes a RequestVote response. It fails exactly on bytes that encode none, and decoding what the
/// encoder wrote gives back the message.
pub fn decode_request_vote_response(bytes: &[u8]) -> (r: Result<RequestVoteResponse, DecodeError>)
    ensures
        r matches Ok(m) ==> enc_request_vote_response(m) == bytes@,
        forall|v: RequestVoteResponse| enc_request_vote_response(v) == bytes@ ==> r == Ok::<
            RequestVoteResponse,
            DecodeError,
        >(v),
{
    let ghost b = bytes@;
    proof {
        assert forall|v: RequestVoteResponse| enc_request_vote_response(v) == b implies {
            &&& prefix_at(b, 0, enc_u64(v.term))
            &&& prefix_at(b, 8, enc_bool(v.vote_granted))
            &&& b.len() == 9
        } by {
            lemma_whole(b, enc_request_vote_response(v));
            lemma_enc_u64(v.term);
            lemma_prefix_cat(b, 0, enc_u64(v.term), enc_bool(v.vote_granted));
        }
    }
    let (term, p1) = match read_u64(bytes, 0) {
        Some(t) => t,
        None => {
            return Err(DecodeError);
        },
    };
    let (vote_granted, p2) = match read_bool(bytes, p1) {
        Some(t) => t,
        None => {
            return Err(DecodeError);
        },
    };
    if p2 != bytes.len() {
        return Err(DecodeError);
    }
    let m = RequestVoteResponse { term, vote_granted };
    proof {
        lemma_enc_u64(term);
        lemma_prefix_cat(b, 0, enc_u64(term), enc_bool(vote_granted));
        lemma_whole(b, enc_request_vote_response(m));
    }
    Ok(m)
}

} // verus!
