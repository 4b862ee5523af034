use vstd::prelude::*;
use crate::codec::{
    enc_bytes, enc_u64, lemma_enc_u64, lemma_prefix_cat, lemma_whole, prefix_at, read_bytes, read_u64,
    write_bytes, write_u64, DecodeError,
};

verus! {

/// A snapshot record: the state machine's encoded state after applying every entry up to
/// `last_included_index`, whose term was `last_included_term`.
#[derive(Debug, Clone)]
pub struct RaftSnapshot {
    pub last_included_index: u64,
    pub last_included_term: u64,
    /// The state machine's encoding of its state.
    pub state: Vec<u8>,
}

/// Where snapshots of a node are kept on disk.
#[derive(Debug, Clone)]
pub struct FileSnapshotStorage {
    pub path: String,
}

impl FileSnapshotStorage {
    /// Storage at `path`.
    pub fn new(path: String) -> (r: Self)
        ensures
            r.path@ == path@,
    {
        FileSnapshotStorage { path }
    }
}

/// A snapshot record: last included index, last included term, then the state with its length.
pub open spec fn enc_snapshot(index: u64, term: u64, state: Seq<u8>) -> Seq<u8> {
    enc_u64(index) + (enc_u64(term) + enc_bytes(state))
}

/// Encodes a snapshot record.
pub fn encode_snapshot(snap: &RaftSnapshot) -> (r: Vec<u8>)
    ensures
        r@ == enc_snapshot(snap.last_included_index, snap.last_included_term, snap.state@),
{
    let mut out: Vec<u8> = Vec::new();
    write_u64(&mut out, snap.last_included_index);
    write_u64(&mut out, snap.last_included_term);
    write_bytes(&mut out, snap.state.as_slice());
    assert(out@ =~= enc_snapshot(snap.last_included_index, snap.last_included_term, snap.state@));
    out
}

/// Decodes a snapshot record. It fails exactly on bytes that encode none, and decoding what
/// the encoder wrote gives back the same triple.
pub fn decode_snapshot(bytes: &[u8]) -> (r: Result<RaftSnapshot, DecodeError>)
    ensures
        r matches Ok(s) ==> enc_snapshot(s.last_included_index, s.last_included_term, s.state@) == bytes@,
        forall|i: u64, t: u64, st: Seq<u8>| #[trigger] enc_snapshot(i, t, st) == bytes@ ==> (r matches Ok(s)
            && s.last_included_index == i && s.last_included_term == t && s.state@ == st),
{
    let ghost b = bytes@;
    proof {
        assert forall|i: u64, t: u64, st: Seq<u8>| #[trigger] enc_snapshot(i, t, st) == b implies {
            &&& prefix_at(b, 0, enc_u64(i))
            &&& prefix_at(b, 8, enc_u64(t))
            &&& prefix_at(b, 16, enc_bytes(st))
            &&& 16 + enc_bytes(st).len() == b.len()
        } by {
            lemma_whole(b, enc_snapshot(i, t, st));
            lemma_enc_u64(i);
            lemma_enc_u64(t);
            lemma_prefix_cat(b, 0, enc_u64(i), enc_u64(t) + enc_bytes(st));
            lemma_prefix_cat(b, 8, enc_u64(t), enc_bytes(st));
        }
    }
    let (index, p1) = match read_u64(bytes, 0) {
        Some(x) => x,
        None => {
            return Err(DecodeError);
        },
    };
    let (term, p2) = match read_u64(bytes, p1) {
        Some(x) => x,
        None => {
            return Err(DecodeError);
        },
    };
    let (state, p3) = match read_bytes(bytes, p2) {
        Some(x) => x,
        None => {
            return Err(DecodeError);
        },
    };
    if p3 != bytes.len() {
        return Err(DecodeError);
    }
    proof {
        lemma_enc_u64(index);
        lemma_enc_u64(term);
        lemma_prefix_cat(b, 8, enc_u64(term), enc_bytes(state@));
        lemma_prefix_cat(b, 0, enc_u64(index), enc_u64(term) + enc_bytes(state@));
        lemma_whole(b, enc_snapshot(index, term, state@));
    }
    Ok(RaftSnapshot { last_included_index: index, last_included_term: term, state })
}

} // verus!
