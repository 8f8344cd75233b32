//! Model of the notarization session protocol: commit ranges while the
//! session is open, finalize it exactly once into an immutable
//! notarized artifact, then reveal committed ranges and assemble the
//! final proof.

use crate::errors::ProofError;
use crate::ranges::{range_wf, ByteRange};
use vstd::prelude::*;

verus! {

/// The direction of a transcript: bytes sent to the server, or bytes
/// received from it.
#[derive(Clone, Copy, Debug, PartialEq, Eq, Structural)]
pub enum Direction {
    Sent,
    Recv,
}

/// Opaque handle for one committed range, scoped to the session that
/// issued it; ids from different sessions are not interchangeable.
#[derive(Clone, Copy, Debug)]
pub struct CommitmentId {
    session: u64,
    index: usize,
}

impl CommitmentId {
    /// The id of the session that issued this commitment id.
    pub closed spec fn session_spec(&self) -> u64 {
        self.session
    }

    /// The position of the commitment in the session's commit order.
    pub closed spec fn index_spec(&self) -> usize {
        self.index
    }
}

/// An open notarization session: both transcripts are recorded, and
/// ranges can still be committed. Finalizing consumes the session, so
/// no commitment can be added afterwards.
pub struct Session {
    id: u64,
    sent: Vec<u8>,
    recv: Vec<u8>,
    committed: Vec<(Direction, ByteRange)>,
}

/// The committed range list is well formed: every committed range lies
/// within its transcript.
pub open spec fn committed_wf(
    committed: Seq<(Direction, ByteRange)>,
    sent: Seq<u8>,
    recv: Seq<u8>,
) -> bool {
    forall|k: int|
        0 <= k < committed.len() ==> range_wf(
            (#[trigger] committed[k]).1,
            (match committed[k].0 {
                Direction::Sent => sent,
                Direction::Recv => recv,
            }).len() as int,
        )
}

impl Session {
    /// The session id under which commitment ids are issued.
    pub closed spec fn id_spec(&self) -> u64 {
        self.id
    }

    /// The recorded sent-direction transcript.
    pub closed spec fn sent_spec(&self) -> Seq<u8> {
        self.sent@
    }

    /// The recorded received-direction transcript.
    pub closed spec fn recv_spec(&self) -> Seq<u8> {
        self.recv@
    }

    /// The committed ranges, in commit order.
    pub closed spec fn committed_spec(&self) -> Seq<(Direction, ByteRange)> {
        self.committed@
    }

    /// Every committed range lies within its transcript.
    pub open spec fn wf(&self) -> bool {
        committed_wf(self.committed_spec(), self.sent_spec(), self.recv_spec())
    }

    /// Open a session over the two recorded transcripts.
    pub fn new(id: u64, sent: Vec<u8>, recv: Vec<u8>) -> (s: Session)
        ensures
            s.id_spec() == id,
            s.sent_spec() == sent@,
            s.recv_spec() == recv@,
            s.committed_spec() == Seq::<(Direction, ByteRange)>::empty(),
            s.wf(),
    {
        let s = Session { id, sent, recv, committed: Vec::new() };
        proof {
            assert(s.committed_spec() =~= Seq::<(Direction, ByteRange)>::empty());
        }
        s
    }

    /// The sent-direction transcript bytes.
    pub fn sent_transcript(&self) -> (t: &[u8])
        ensures
            t@ == self.sent_spec(),
    {
        self.sent.as_slice()
    }

    /// The received-direction transcript bytes.
    pub fn recv_transcript(&self) -> (t: &[u8])
        ensures
            t@ == self.recv_spec(),
    {
        self.recv.as_slice()
    }

    /// Commit to one range of the sent transcript. Fails with
    /// `InvalidRange` if and only if the range does not satisfy
    /// `start < end <= transcript length`.
    pub fn commit_sent(&mut self, range: ByteRange) -> (r: Result<CommitmentId, ProofError>)
        requires
            old(self).wf(),
        ensures
            final(self).wf(),
            final(self).id_spec() == old(self).id_spec(),
            final(self).sent_spec() == old(self).sent_spec(),
            final(self).recv_spec() == old(self).recv_spec(),
            r is Ok <==> range_wf(range, old(self).sent_spec().len() as int),
            r is Ok ==> final(self).committed_spec() == old(self).committed_spec().push(
                (Direction::Sent, range),
            ),
            r is Ok ==> r->Ok_0.session_spec() == old(self).id_spec() && r->Ok_0.index_spec()
                == old(self).committed_spec().len(),
            r is Err ==> r->Err_0 == ProofError::InvalidRange && final(self).committed_spec()
                == old(self).committed_spec(),
    {
        if range.start < range.end && range.end <= self.sent.len() {
            let id = CommitmentId { session: self.id, index: self.committed.len() };
            self.committed.push((Direction::Sent, range));
            Ok(id)
        } else {
            Err(ProofError::InvalidRange)
        }
    }

    /// Commit to one range of the received transcript. Fails with
    /// `InvalidRange` if and only if the range does not satisfy
    /// `start < end <= transcript length`.
    pub fn commit_recv(&mut self, range: ByteRange) -> (r: Result<CommitmentId, ProofError>)
        requires
            old(self).wf(),
        ensures
            final(self).wf(),
            final(self).id_spec() == old(self).id_spec(),
            final(self).sent_spec() == old(self).sent_spec(),
            final(self).recv_spec() == old(self).recv_spec(),
            r is Ok <==> range_wf(range, old(self).recv_spec().len() as int),
            r is Ok ==> final(self).committed_spec() == old(self).committed_spec().push(
                (Direction::Recv, range),
            ),
            r is Ok ==> r->Ok_0.session_spec() == old(self).id_spec() && r->Ok_0.index_spec()
                == old(self).committed_spec().len(),
            r is Err ==> r->Err_0 == ProofError::InvalidRange && final(self).committed_spec()
                == old(self).committed_spec(),
    {
        if range.start < range.end && range.end <= self.recv.len() {
            let id = CommitmentId { session: self.id, index: self.committed.len() };
            self.committed.push((Direction::Recv, range));
            Ok(id)
        } else {
            Err(ProofError::InvalidRange)
        }
    }

    /// Finalize the session, consuming it. The set of committed ranges
    /// is permanently fixed from here on; only reveals remain possible.
    pub fn finalize(self) -> (n: NotarizedSession)
        requires
            self.wf(),
        ensures
            n.id_spec() == self.id_spec(),
            n.sent_spec() == self.sent_spec(),
            n.recv_spec() == self.recv_spec(),
            n.committed_spec() == self.committed_spec(),
            n.wf(),
    {
        NotarizedSession {
            id: self.id,
            sent: self.sent,
            recv: self.recv,
            committed: self.committed,
        }
    }
}

/// The immutable artifact produced by finalizing a session exactly
/// once: the recorded transcripts and the fixed set of committed
/// ranges.
pub struct NotarizedSession {
    id: u64,
    sent: Vec<u8>,
    recv: Vec<u8>,
    committed: Vec<(Direction, ByteRange)>,
}

impl NotarizedSession {
    /// The id of the session this artifact was finalized from.
    pub closed spec fn id_spec(&self) -> u64 {
        self.id
    }

    /// The recorded sent-direction transcript.
    pub closed spec fn sent_spec(&self) -> Seq<u8> {
        self.sent@
    }

    /// The recorded received-direction transcript.
    pub closed spec fn recv_spec(&self) -> Seq<u8> {
        self.recv@
    }

    /// The committed ranges, fixed at finalization.
    pub closed spec fn committed_spec(&self) -> Seq<(Direction, ByteRange)> {
        self.committed@
    }

    /// The transcript of the given direction.
    pub open spec fn transcript_spec(&self, d: Direction) -> Seq<u8> {
        match d {
            Direction::Sent => self.sent_spec(),
            Direction::Recv => self.recv_spec(),
        }
    }

    /// Every committed range lies within its transcript.
    pub open spec fn wf(&self) -> bool {
        committed_wf(self.committed_spec(), self.sent_spec(), self.recv_spec())
    }

    /// Start a substrings proof over this artifact, with no range
    /// revealed yet.
    pub fn build_substrings_proof(&self) -> (b: SubstringsProofBuilder<'_>)
        ensures
            b.session_spec() == *self,
            b.revealed_spec() == Seq::<usize>::empty(),
    {
        let b = SubstringsProofBuilder { session: self, revealed: Vec::new() };
        proof {
            assert(b.revealed_spec() =~= Seq::<usize>::empty());
        }
        b
    }

    /// The session-level attestation component of the final proof.
    pub fn session_proof(&self) -> (p: SessionProof)
        ensures
            p.id == self.id_spec(),
            p.sent_len == self.sent_spec().len(),
            p.recv_len == self.recv_spec().len(),
    {
        SessionProof { id: self.id, sent_len: self.sent.len(), recv_len: self.recv.len() }
    }
}

/// Builder for the substrings proof of one notarized session: collects
/// which committed ranges to disclose.
pub struct SubstringsProofBuilder<'a> {
    session: &'a NotarizedSession,
    revealed: Vec<usize>,
}

impl<'a> SubstringsProofBuilder<'a> {
    /// The notarized session this builder discloses from.
    pub closed spec fn session_spec(&self) -> NotarizedSession {
        *self.session
    }

    /// The positions (in commit order) marked for disclosure, in
    /// reveal order.
    pub closed spec fn revealed_spec(&self) -> Seq<usize> {
        self.revealed@
    }

    /// Every revealed position refers to a commitment of this session.
    pub open spec fn revealed_wf(&self) -> bool {
        forall|k: int|
            0 <= k < self.revealed_spec().len() ==> (#[trigger] self.revealed_spec()[k])
                < self.session_spec().committed_spec().len()
    }

    /// Mark the range behind `id` for disclosure. Fails with
    /// `SessionProtocolViolation` if and only if `id` was not issued by
    /// the session this builder was created from.
    pub fn reveal_by_id(&mut self, id: CommitmentId) -> (r: Result<(), ProofError>)
        ensures
            final(self).session_spec() == old(self).session_spec(),
            r is Ok <==> (id.session_spec() == old(self).session_spec().id_spec()
                && id.index_spec() < old(self).session_spec().committed_spec().len()),
            r is Ok ==> final(self).revealed_spec() == old(self).revealed_spec().push(
                id.index_spec(),
            ),
            r is Err ==> r->Err_0 == ProofError::SessionProtocolViolation
                && final(self).revealed_spec() == old(self).revealed_spec(),
            old(self).revealed_wf() ==> final(self).revealed_wf(),
    {
        if id.session == self.session.id && id.index < self.session.committed.len() {
            self.revealed.push(id.index);
            Ok(())
        } else {
            Err(ProofError::SessionProtocolViolation)
        }
    }

    /// Build the substrings proof: one disclosed entry per revealed
    /// position, in reveal order, carrying the committed range and the
    /// exact transcript bytes it covers.
    pub fn build(self) -> (p: SubstringsProof)
        requires
            self.session_spec().wf(),
            self.revealed_wf(),
        ensures
            p.disclosed@.len() == self.revealed_spec().len(),
            forall|k: int|
                0 <= k < p.disclosed@.len() ==> disclosed_entry_ok(
                    #[trigger] p.disclosed@[k],
                    self.session_spec().committed_spec()[self.revealed_spec()[k] as int].0,
                    self.session_spec().committed_spec()[self.revealed_spec()[k] as int].1,
                    self.session_spec().transcript_spec(
                        self.session_spec().committed_spec()[self.revealed_spec()[k] as int].0,
                    ),
                ),
    {
        let mut disclosed: Vec<Disclosed> = Vec::new();
        let mut k: usize = 0;
        while k < self.revealed.len()
            invariant
                self.session_spec().wf(),
                self.revealed_wf(),
                0 <= k <= self.revealed_spec().len(),
                disclosed@.len() == k,
                forall|m: int|
                    0 <= m < k ==> disclosed_entry_ok(
                        #[trigger] disclosed@[m],
                        self.session_spec().committed_spec()[self.revealed_spec()[m] as int].0,
                        self.session_spec().committed_spec()[self.revealed_spec()[m] as int].1,
                        self.session_spec().transcript_spec(
                            self.session_spec().committed_spec()[self.revealed_spec()[m] as int].0,
                        ),
                    ),
            decreases self.revealed_spec().len() - k,
        {
            let idx = self.revealed[k];
            let (d, rng) = self.session.committed[idx];
            let data = match d {
                Direction::Sent => copy_range(&self.session.sent, rng),
                Direction::Recv => copy_range(&self.session.recv, rng),
            };
            disclosed.push(Disclosed { direction: d, range: rng, data });
            k += 1;
        }
        SubstringsProof { disclosed }
    }
}

/// One disclosed range: its direction, its position, and the exact
/// transcript bytes it covers.
#[derive(Debug)]
pub struct Disclosed {
    pub direction: Direction,
    pub range: ByteRange,
    pub data: Vec<u8>,
}

/// The disclosed entry carries exactly the given direction and range,
/// and the bytes of the transcript under that range.
pub open spec fn disclosed_entry_ok(e: Disclosed, d: Direction, rng: ByteRange, t: Seq<u8>) -> bool {
    &&& e.direction == d
    &&& e.range == rng
    &&& e.data@ == t.subrange(rng.start as int, rng.end as int)
}

/// The substrings component of a proof: the disclosed ranges with
/// their plaintext, and nothing else.
#[derive(Debug)]
pub struct SubstringsProof {
    pub disclosed: Vec<Disclosed>,
}

/// The session-level attestation component of a proof.
#[derive(Debug)]
pub struct SessionProof {
    pub id: u64,
    pub sent_len: usize,
    pub recv_len: usize,
}

/// The final transportable proof: the session attestation paired with
/// the substrings proof.
#[derive(Debug)]
pub struct Proof {
    pub session: SessionProof,
    pub substrings: SubstringsProof,
}

/// Copy the bytes of `t` under `rng` into a fresh vector.
fn copy_range(t: &Vec<u8>, rng: ByteRange) -> (out: Vec<u8>)
    requires
        range_wf(rng, t@.len() as int),
    ensures
        out@ == t@.subrange(rng.start as int, rng.end as int),
{
    let mut out: Vec<u8> = Vec::new();
    let mut j: usize = rng.start;
    while j < rng.end
        invariant
            rng.start <= j <= rng.end,
            range_wf(rng, t@.len() as int),
            out@.len() == j - rng.start,
            forall|m: int| 0 <= m < out@.len() ==> out@[m] == t@[rng.start + m],
        decreases rng.end - j,
    {
        out.push(t[j]);
        j += 1;
    }
    proof {
        assert(out@ =~= t@.subrange(rng.start as int, rng.end as int));
    }
    out
}

} // verus!
