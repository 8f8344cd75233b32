use opacity::errors::ProofError;
use opacity::orchestrator::{build_proof, build_proof_with_redactions, build_proof_without_redactions};
use opacity::ranges::ByteRange;
use opacity::session::{Direction, Disclosed, Session};

fn br(start: usize, end: usize) -> ByteRange {
    ByteRange { start, end }
}

fn concat_direction(disclosed: &[Disclosed], direction: Direction) -> Vec<u8> {
    let mut out: Vec<u8> = Vec::new();
    for e in disclosed {
        if e.direction == direction {
            out.extend_from_slice(&e.data);
        }
    }
    out
}

fn contains(haystack: &[u8], needle: &[u8]) -> bool {
    !needle.is_empty()
        && haystack.len() >= needle.len()
        && haystack.windows(needle.len()).any(|w| w == needle)
}

#[test]
fn commit_rejects_out_of_bounds_range() {
    let mut session = Session::new(7, b"0123456789".to_vec(), b"abc".to_vec());
    assert_eq!(
        session.commit_sent(br(4, 11)).unwrap_err(),
        ProofError::InvalidRange
    );
    assert_eq!(
        session.commit_recv(br(1, 1)).unwrap_err(),
        ProofError::InvalidRange
    );
    assert!(session.commit_sent(br(0, 10)).is_ok());
}

#[test]
fn commit_reveal_build_discloses_exact_bytes() {
    let mut session = Session::new(1, b"sent bytes".to_vec(), b"recv bytes".to_vec());
    let sent_id = session.commit_sent(br(0, 4)).unwrap();
    let recv_id = session.commit_recv(br(5, 10)).unwrap();
    let notarized = session.finalize();
    let mut builder = notarized.build_substrings_proof();
    builder.reveal_by_id(sent_id).unwrap();
    builder.reveal_by_id(recv_id).unwrap();
    let substrings = builder.build();
    assert_eq!(substrings.disclosed.len(), 2);
    assert_eq!(substrings.disclosed[0].direction, Direction::Sent);
    assert_eq!(substrings.disclosed[0].range, br(0, 4));
    assert_eq!(substrings.disclosed[0].data, b"sent".to_vec());
    assert_eq!(substrings.disclosed[1].direction, Direction::Recv);
    assert_eq!(substrings.disclosed[1].range, br(5, 10));
    assert_eq!(substrings.disclosed[1].data, b"bytes".to_vec());
    let attestation = notarized.session_proof();
    assert_eq!(attestation.id, 1);
    assert_eq!(attestation.sent_len, 10);
    assert_eq!(attestation.recv_len, 10);
}

#[test]
fn reveal_with_foreign_commitment_id_fails() {
    let mut first = Session::new(10, b"first transcript".to_vec(), b"first recv".to_vec());
    let foreign_id = first.commit_sent(br(0, 5)).unwrap();
    // Finalize and discard the first session entirely.
    let _ = first.finalize();

    let mut second = Session::new(11, b"second transcript".to_vec(), b"second recv".to_vec());
    let own_id = second.commit_sent(br(0, 6)).unwrap();
    let notarized = second.finalize();
    let mut builder = notarized.build_substrings_proof();
    assert_eq!(
        builder.reveal_by_id(foreign_id).unwrap_err(),
        ProofError::SessionProtocolViolation
    );
    // The builder still works for this session's own ids.
    builder.reveal_by_id(own_id).unwrap();
    let substrings = builder.build();
    assert_eq!(substrings.disclosed.len(), 1);
    assert_eq!(substrings.disclosed[0].data, b"second".to_vec());
}

#[test]
fn build_proof_commits_and_reveals_given_ranges() {
    let session = Session::new(3, b"aaaa bbbb".to_vec(), b"cccc dddd".to_vec());
    let sent_public = vec![br(0, 4)];
    let recv_public = vec![br(5, 9)];
    let proof = build_proof(session, &sent_public, &recv_public).unwrap();
    assert_eq!(proof.session.id, 3);
    assert_eq!(proof.substrings.disclosed.len(), 2);
    assert_eq!(proof.substrings.disclosed[0].data, b"aaaa".to_vec());
    assert_eq!(proof.substrings.disclosed[1].data, b"dddd".to_vec());
}

#[test]
fn build_proof_rejects_invalid_range() {
    let session = Session::new(4, b"short".to_vec(), b"short".to_vec());
    let sent_public = vec![br(0, 99)];
    let recv_public = vec![];
    assert_eq!(
        build_proof(session, &sent_public, &recv_public).unwrap_err(),
        ProofError::InvalidRange
    );
}

#[test]
fn redaction_scenario_removes_only_the_secret() {
    let transcript = b"GET /x HTTP/1.1\r\nUser-Agent: secret\r\n";
    let session = Session::new(8, transcript.to_vec(), b"response body".to_vec());
    let sent_redactions: [&[u8]; 1] = [b"secret"];
    let recv_redactions: [&[u8]; 0] = [];
    let proof =
        build_proof_with_redactions(session, &sent_redactions, &recv_redactions).unwrap();

    let sent_text = concat_direction(&proof.substrings.disclosed, Direction::Sent);
    assert_eq!(sent_text, b"GET /x HTTP/1.1\r\nUser-Agent: \r\n".to_vec());
    assert!(!contains(&sent_text, b"secret"));
    for e in &proof.substrings.disclosed {
        if e.direction == Direction::Sent {
            assert!(!contains(&e.data, b"secret"));
        }
    }
    let recv_text = concat_direction(&proof.substrings.disclosed, Direction::Recv);
    assert_eq!(recv_text, b"response body".to_vec());
}

#[test]
fn no_redactions_disclose_both_transcripts_verbatim() {
    let sent = b"the full request".to_vec();
    let recv = b"the full response".to_vec();
    let session = Session::new(9, sent.clone(), recv.clone());
    let proof = build_proof_without_redactions(session).unwrap();
    assert_eq!(proof.substrings.disclosed.len(), 2);
    assert_eq!(concat_direction(&proof.substrings.disclosed, Direction::Sent), sent);
    assert_eq!(concat_direction(&proof.substrings.disclosed, Direction::Recv), recv);
    assert_eq!(proof.session.sent_len, sent.len());
    assert_eq!(proof.session.recv_len, recv.len());
}

#[test]
fn empty_redaction_lists_disclose_everything() {
    let sent = b"nothing hidden here".to_vec();
    let recv = b"nor here".to_vec();
    let session = Session::new(12, sent.clone(), recv.clone());
    let none: [&[u8]; 0] = [];
    let proof = build_proof_with_redactions(session, &none, &none).unwrap();
    assert_eq!(concat_direction(&proof.substrings.disclosed, Direction::Sent), sent);
    assert_eq!(concat_direction(&proof.substrings.disclosed, Direction::Recv), recv);
}

#[test]
fn empty_redaction_pattern_is_rejected() {
    let session = Session::new(13, b"data".to_vec(), b"data".to_vec());
    let bad: [&[u8]; 1] = [b""];
    let none: [&[u8]; 0] = [];
    assert_eq!(
        build_proof_with_redactions(session, &none, &bad).unwrap_err(),
        ProofError::EmptyPattern
    );
}

#[test]
fn fully_redacted_transcript_discloses_nothing_of_it() {
    let session = Session::new(14, b"whole secret".to_vec(), b"visible".to_vec());
    let sent_redactions: [&[u8]; 1] = [b"whole secret"];
    let none: [&[u8]; 0] = [];
    let proof = build_proof_with_redactions(session, &sent_redactions, &none).unwrap();
    assert_eq!(concat_direction(&proof.substrings.disclosed, Direction::Sent), b"".to_vec());
    assert_eq!(
        concat_direction(&proof.substrings.disclosed, Direction::Recv),
        b"visible".to_vec()
    );
}

#[test]
fn empty_transcripts_build_an_empty_proof() {
    let session = Session::new(15, Vec::new(), Vec::new());
    let proof = build_proof_without_redactions(session).unwrap();
    assert_eq!(proof.substrings.disclosed.len(), 0);
    assert_eq!(proof.session.sent_len, 0);
    assert_eq!(proof.session.recv_len, 0);
}
