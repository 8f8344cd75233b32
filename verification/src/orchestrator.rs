//! Disclosure orchestrator: commits every public range of both
//! transcripts, finalizes the session, reveals exactly the committed
//! ranges, and assembles the final proof.

use crate::errors::ProofError;
use crate::ranges::{patterns_view, range_wf, resolve, resolver_public_ok, ByteRange};
use crate::session::{
    disclosed_entry_ok, CommitmentId, Direction, Disclosed, Proof, Session,
};
use vstd::prelude::*;

verus! {

/// Every range of the list lies within a transcript of length `n`.
pub open spec fn all_ranges_wf(rs: Seq<ByteRange>, n: int) -> bool {
    forall|k: int| 0 <= k < rs.len() ==> range_wf(#[trigger] rs[k], n)
}

/// The disclosed entries are exactly the given sent ranges followed by
/// the given received ranges, in order, each carrying the bytes of its
/// transcript under its range.
pub open spec fn disclosure_ok(
    disclosed: Seq<Disclosed>,
    sent_rs: Seq<ByteRange>,
    recv_rs: Seq<ByteRange>,
    sent_t: Seq<u8>,
    recv_t: Seq<u8>,
) -> bool {
    &&& disclosed.len() == sent_rs.len() + recv_rs.len()
    &&& forall|k: int|
        0 <= k < sent_rs.len() ==> disclosed_entry_ok(
            #[trigger] disclosed[k],
            Direction::Sent,
            sent_rs[k],
            sent_t,
        )
    &&& forall|k: int|
        0 <= k < recv_rs.len() ==> disclosed_entry_ok(
            #[trigger] disclosed[sent_rs.len() + k],
            Direction::Recv,
            recv_rs[k],
            recv_t,
        )
}

/// The single full-span public range of a transcript of length `n`,
/// or no range at all for an empty transcript.
pub open spec fn full_span_ranges(n: nat) -> Seq<ByteRange> {
    if n == 0 {
        Seq::empty()
    } else {
        seq![ByteRange { start: 0, end: n as usize }]
    }
}

/// The disclosed entries are the resolver's public ranges for both
/// transcripts under the given redaction patterns, with their bytes.
/// The resolver's output is uniquely determined, so this pins the
/// disclosure exactly.
pub open spec fn redacted_disclosure_ok(
    disclosed: Seq<Disclosed>,
    sent_t: Seq<u8>,
    recv_t: Seq<u8>,
    sent_pats: Seq<Seq<u8>>,
    recv_pats: Seq<Seq<u8>>,
) -> bool {
    exists|sp: Seq<ByteRange>, rp: Seq<ByteRange>|
        #[trigger] resolver_public_ok(sent_t, sent_pats, sp) && #[trigger] resolver_public_ok(
            recv_t,
            recv_pats,
            rp,
        ) && disclosure_ok(disclosed, sp, rp, sent_t, recv_t)
}

/// Drive the whole disclosure protocol over the given public ranges:
/// commit each sent range and each received range, finalize the
/// session, reveal every collected commitment id, and assemble the
/// proof. Fails with `InvalidRange` if and only if some range is out
/// of bounds or empty; nothing is disclosed in that case.
#[verifier::loop_isolation(false)]
pub fn build_proof(
    session: Session,
    sent_public: &Vec<ByteRange>,
    recv_public: &Vec<ByteRange>,
) -> (r: Result<Proof, ProofError>)
    requires
        session.wf(),
    ensures
        r is Ok <==> (all_ranges_wf(sent_public@, session.sent_spec().len() as int)
            && all_ranges_wf(recv_public@, session.recv_spec().len() as int)),
        r is Err ==> r->Err_0 == ProofError::InvalidRange,
        r is Ok ==> (r->Ok_0).session.id == session.id_spec() && (r->Ok_0).session.sent_len
            == session.sent_spec().len() && (r->Ok_0).session.recv_len
            == session.recv_spec().len(),
        r is Ok ==> disclosure_ok(
            (r->Ok_0).substrings.disclosed@,
            sent_public@,
            recv_public@,
            session.sent_spec(),
            session.recv_spec(),
        ),
{
    let ghost sent_t = session.sent_spec();
    let ghost recv_t = session.recv_spec();
    let ghost sid = session.id_spec();
    let mut session = session;
    let ghost init = session.committed_spec();
    let ghost s_count = sent_public@.len() as int;
    let ghost r_count = recv_public@.len() as int;

    // Commit phase: every sent range, then every received range, in
    // input order.
    let mut sent_ids: Vec<CommitmentId> = Vec::new();
    let mut k: usize = 0;
    while k < sent_public.len()
        invariant
            session.wf(),
            session.id_spec() == sid,
            session.sent_spec() == sent_t,
            session.recv_spec() == recv_t,
            0 <= k <= sent_public@.len(),
            session.committed_spec().len() == init.len() + k,
            forall|m: int| 0 <= m < k ==> range_wf(#[trigger] sent_public@[m], sent_t.len() as int),
            forall|m: int|
                0 <= m < k ==> session.committed_spec()[init.len() + m] == (
                Direction::Sent,
                #[trigger] sent_public@[m],
            ),
            sent_ids@.len() == k,
            forall|m: int|
                0 <= m < k ==> (#[trigger] sent_ids@[m]).session_spec() == sid
                    && sent_ids@[m].index_spec() as int == init.len() + m,
        decreases sent_public@.len() - k,
    {
        let rng = sent_public[k];
        match session.commit_sent(rng) {
            Ok(id) => {
                sent_ids.push(id);
            },
            Err(e) => {
                proof {
                    assert(!range_wf(sent_public@[k as int], sent_t.len() as int));
                }
                return Err(e);
            },
        }
        k += 1;
    }
    let mut recv_ids: Vec<CommitmentId> = Vec::new();
    let mut k: usize = 0;
    while k < recv_public.len()
        invariant
            session.wf(),
            session.id_spec() == sid,
            session.sent_spec() == sent_t,
            session.recv_spec() == recv_t,
            0 <= k <= recv_public@.len(),
            session.committed_spec().len() == init.len() + s_count + k,
            forall|m: int|
                0 <= m < s_count ==> range_wf(#[trigger] sent_public@[m], sent_t.len() as int),
            forall|m: int|
                0 <= m < s_count ==> session.committed_spec()[init.len() + m] == (
                Direction::Sent,
                #[trigger] sent_public@[m],
            ),
            sent_ids@.len() == s_count,
            forall|m: int|
                0 <= m < s_count ==> (#[trigger] sent_ids@[m]).session_spec() == sid
                    && sent_ids@[m].index_spec() as int == init.len() + m,
            forall|m: int| 0 <= m < k ==> range_wf(#[trigger] recv_public@[m], recv_t.len() as int),
            forall|m: int|
                0 <= m < k ==> session.committed_spec()[init.len() + s_count + m] == (
                Direction::Recv,
                #[trigger] recv_public@[m],
            ),
            recv_ids@.len() == k,
            forall|m: int|
                0 <= m < k ==> (#[trigger] recv_ids@[m]).session_spec() == sid
                    && recv_ids@[m].index_spec() as int == init.len() + s_count + m,
        decreases recv_public@.len() - k,
    {
        let rng = recv_public[k];
        match session.commit_recv(rng) {
            Ok(id) => {
                recv_ids.push(id);
            },
            Err(e) => {
                proof {
                    assert(!range_wf(recv_public@[k as int], recv_t.len() as int));
                }
                return Err(e);
            },
        }
        k += 1;
    }

    // Finalize: the set of committed ranges is fixed from here on.
    let notarized = session.finalize();

    // Reveal phase: every collected commitment id, sent then received.
    let mut builder = notarized.build_substrings_proof();
    let mut k: usize = 0;
    while k < sent_ids.len()
        invariant
            builder.session_spec() == notarized,
            notarized.wf(),
            notarized.id_spec() == sid,
            notarized.sent_spec() == sent_t,
            notarized.recv_spec() == recv_t,
            notarized.committed_spec().len() == init.len() + s_count + r_count,
            0 <= k <= sent_ids@.len(),
            sent_ids@.len() == s_count,
            forall|m: int|
                0 <= m < s_count ==> (#[trigger] sent_ids@[m]).session_spec() == sid
                    && sent_ids@[m].index_spec() as int == init.len() + m,
            builder.revealed_wf(),
            builder.revealed_spec().len() == k,
            forall|m: int|
                0 <= m < k ==> (#[trigger] builder.revealed_spec()[m]) as int == init.len() + m,
        decreases sent_ids@.len() - k,
    {
        match builder.reveal_by_id(sent_ids[k]) {
            Ok(_) => {},
            Err(e) => {
                return Err(e);
            },
        }
        k += 1;
    }
    let mut k: usize = 0;
    while k < recv_ids.len()
        invariant
            builder.session_spec() == notarized,
            notarized.wf(),
            notarized.id_spec() == sid,
            notarized.sent_spec() == sent_t,
            notarized.recv_spec() == recv_t,
            notarized.committed_spec().len() == init.len() + s_count + r_count,
            0 <= k <= recv_ids@.len(),
            recv_ids@.len() == r_count,
            forall|m: int|
                0 <= m < r_count ==> (#[trigger] recv_ids@[m]).session_spec() == sid
                    && recv_ids@[m].index_spec() as int == init.len() + s_count + m,
            builder.revealed_wf(),
            builder.revealed_spec().len() == s_count + k,
            forall|m: int|
                0 <= m < s_count ==> (#[trigger] builder.revealed_spec()[m]) as int == init.len()
                    + m,
            forall|m: int|
                0 <= m < k ==> (#[trigger] builder.revealed_spec()[s_count + m]) as int
                    == init.len() + s_count + m,
        decreases recv_ids@.len() - k,
    {
        match builder.reveal_by_id(recv_ids[k]) {
            Ok(_) => {},
            Err(e) => {
                return Err(e);
            },
        }
        k += 1;
    }

    // Assemble: the substrings proof paired with the session-level
    // attestation.
    let ghost b = builder;
    let ghost committed = notarized.committed_spec();
    let substrings = builder.build();
    let attestation = notarized.session_proof();
    let p = Proof { session: attestation, substrings };
    proof {
        assert forall|m: int| 0 <= m < s_count implies disclosed_entry_ok(
            #[trigger] p.substrings.disclosed@[m],
            Direction::Sent,
            sent_public@[m],
            sent_t,
        ) by {
            assert(b.revealed_spec()[m] as int == init.len() + m);
            assert(committed[init.len() + m] == (Direction::Sent, sent_public@[m]));
        }
        assert forall|m: int| 0 <= m < r_count implies disclosed_entry_ok(
            #[trigger] p.substrings.disclosed@[s_count + m],
            Direction::Recv,
            recv_public@[m],
            recv_t,
        ) by {
            assert(b.revealed_spec()[s_count + m] as int == init.len() + s_count + m);
            assert(committed[init.len() + s_count + m] == (Direction::Recv, recv_public@[m]));
        }
    }
    Ok(p)
}

/// Disclose both transcripts whole: commit the single full-span range
/// of each non-empty transcript, finalize, reveal, and assemble. The
/// disclosed text equals each transcript verbatim.
pub fn build_proof_without_redactions(session: Session) -> (r: Result<Proof, ProofError>)
    requires
        session.wf(),
    ensures
        r is Ok,
        r is Ok ==> (r->Ok_0).session.id == session.id_spec() && (r->Ok_0).session.sent_len
            == session.sent_spec().len() && (r->Ok_0).session.recv_len
            == session.recv_spec().len(),
        r is Ok ==> disclosure_ok(
            (r->Ok_0).substrings.disclosed@,
            full_span_ranges(session.sent_spec().len()),
            full_span_ranges(session.recv_spec().len()),
            session.sent_spec(),
            session.recv_spec(),
        ),
        r is Ok && session.sent_spec().len() > 0 ==> (r->Ok_0).substrings.disclosed@[0].data@
            == session.sent_spec(),
        r is Ok && session.recv_spec().len() > 0 ==> (r->Ok_0).substrings.disclosed@[full_span_ranges(
            session.sent_spec().len(),
        ).len() as int].data@ == session.recv_spec(),
{
    let ghost sent_t = session.sent_spec();
    let ghost recv_t = session.recv_spec();
    let sent_len = session.sent_transcript().len();
    let recv_len = session.recv_transcript().len();
    let mut sent_public: Vec<ByteRange> = Vec::new();
    if sent_len > 0 {
        sent_public.push(ByteRange { start: 0, end: sent_len });
    }
    let mut recv_public: Vec<ByteRange> = Vec::new();
    if recv_len > 0 {
        recv_public.push(ByteRange { start: 0, end: recv_len });
    }
    proof {
        assert(sent_public@ =~= full_span_ranges(sent_t.len()));
        assert(recv_public@ =~= full_span_ranges(recv_t.len()));
        assert(sent_t.subrange(0, sent_len as int) =~= sent_t);
        assert(recv_t.subrange(0, recv_len as int) =~= recv_t);
        assert(all_ranges_wf(sent_public@, sent_t.len() as int));
        assert(all_ranges_wf(recv_public@, recv_t.len() as int));
    }
    match build_proof(session, &sent_public, &recv_public) {
        Ok(p) => {
            proof {
                let srs = full_span_ranges(sent_t.len());
                let rrs = full_span_ranges(recv_t.len());
                if sent_t.len() > 0 {
                    assert(disclosed_entry_ok(
                        p.substrings.disclosed@[0],
                        Direction::Sent,
                        srs[0],
                        sent_t,
                    ));
                }
                if recv_t.len() > 0 {
                    let k: int = 0;
                    assert(disclosed_entry_ok(
                        p.substrings.disclosed@[srs.len() + k],
                        Direction::Recv,
                        rrs[k],
                        recv_t,
                    ));
                    assert(srs.len() + k == srs.len() as int);
                }
            }
            Ok(p)
        },
        Err(e) => Err(e),
    }
}

/// Disclose both transcripts with every occurrence of every redaction
/// pattern withheld: resolve the public ranges of each transcript,
/// then commit, finalize, reveal, and assemble. Fails with
/// `EmptyPattern` if and only if some pattern has zero length; nothing
/// is disclosed in that case.
pub fn build_proof_with_redactions(
    session: Session,
    sent_redactions: &[&[u8]],
    recv_redactions: &[&[u8]],
) -> (r: Result<Proof, ProofError>)
    requires
        session.wf(),
    ensures
        r is Err <==> ((exists|k: int|
            0 <= k < sent_redactions@.len() && (#[trigger] sent_redactions@[k])@.len() == 0)
            || (exists|k: int|
            0 <= k < recv_redactions@.len() && (#[trigger] recv_redactions@[k])@.len() == 0)),
        r is Err ==> r->Err_0 == ProofError::EmptyPattern,
        r is Ok ==> (r->Ok_0).session.id == session.id_spec() && (r->Ok_0).session.sent_len
            == session.sent_spec().len() && (r->Ok_0).session.recv_len
            == session.recv_spec().len(),
        r is Ok ==> redacted_disclosure_ok(
            (r->Ok_0).substrings.disclosed@,
            session.sent_spec(),
            session.recv_spec(),
            patterns_view(sent_redactions@),
            patterns_view(recv_redactions@),
        ),
{
    let ghost sent_t = session.sent_spec();
    let ghost recv_t = session.recv_spec();
    let (sent_public, _) = match resolve(session.sent_transcript(), sent_redactions) {
        Ok(rs) => rs,
        Err(e) => {
            return Err(e);
        },
    };
    let (recv_public, _) = match resolve(session.recv_transcript(), recv_redactions) {
        Ok(rs) => rs,
        Err(e) => {
            return Err(e);
        },
    };
    proof {
        assert forall|k: int|
            0 <= k < sent_public@.len() implies range_wf(
            #[trigger] sent_public@[k],
            sent_t.len() as int,
        ) by {}
        assert forall|k: int|
            0 <= k < recv_public@.len() implies range_wf(
            #[trigger] recv_public@[k],
            recv_t.len() as int,
        ) by {}
    }
    match build_proof(session, &sent_public, &recv_public) {
        Ok(p) => {
            proof {
                assert(resolver_public_ok(sent_t, patterns_view(sent_redactions@), sent_public@));
                assert(resolver_public_ok(recv_t, patterns_view(recv_redactions@), recv_public@));
                assert(disclosure_ok(
                    p.substrings.disclosed@,
                    sent_public@,
                    recv_public@,
                    sent_t,
                    recv_t,
                ));
            }
            Ok(p)
        },
        Err(e) => Err(e),
    }
}

} // verus!
