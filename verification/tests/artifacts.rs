use rosync::artifacts::{
    artifact_chunk, artifact_error_code, artifact_read, check_artifact_chunk,
    encode_artifact_part, log_is_full, ArtifactChunkProblem, ArtifactErrorKind, ReadRangeProblem,
    MAX_ARTIFACT_CHUNK_BYTES, MAX_ENCODED_ARTIFACT_CHUNK_BYTES, WRITES_LOG_ROTATE_BYTES,
};

#[test]
fn a_part_reads_back() {
    let bytes = b"some bytes\x00\xff";
    let text = encode_artifact_part(bytes);
    assert_eq!(text, "c29tZSBieXRlcwD/");
    assert_eq!(artifact_chunk(&text).unwrap(), bytes.to_vec());
}

#[test]
fn chunks_are_refused_for_their_form_and_size() {
    assert_eq!(artifact_chunk("???").unwrap_err(), ArtifactChunkProblem::NotBase64);
    assert_eq!(
        check_artifact_chunk(MAX_ENCODED_ARTIFACT_CHUNK_BYTES + 1, None).unwrap_err(),
        ArtifactChunkProblem::EncodedTooLarge(MAX_ENCODED_ARTIFACT_CHUNK_BYTES + 1)
    );
    let long = vec![0u8; MAX_ARTIFACT_CHUNK_BYTES + 1];
    assert_eq!(
        check_artifact_chunk(8, Some(long)).unwrap_err(),
        ArtifactChunkProblem::TooLarge(MAX_ARTIFACT_CHUNK_BYTES + 1)
    );
    assert_eq!(check_artifact_chunk(8, Some(vec![1, 2])).unwrap(), vec![1, 2]);
}

#[test]
fn reading_reaches_the_end() {
    let first = artifact_read(0, Some(10), 15).unwrap();
    assert_eq!((first.count, first.next_offset, first.eof), (10, 10, false));
    let second = artifact_read(first.next_offset, Some(10), 15).unwrap();
    assert_eq!((second.count, second.next_offset, second.eof), (5, 15, true));
    assert_eq!(artifact_read(16, None, 15).unwrap_err(), ReadRangeProblem::Offset);
    assert_eq!(artifact_read(0, Some(0), 15).unwrap_err(), ReadRangeProblem::MaxBytes);
}

#[test]
fn errors_have_codes() {
    let kinds = [
        ArtifactErrorKind::LeaseNotFound,
        ArtifactErrorKind::InvalidToken,
        ArtifactErrorKind::OffsetMismatch,
        ArtifactErrorKind::ChecksumMismatch,
        ArtifactErrorKind::Io,
    ];
    for (i, a) in kinds.iter().enumerate() {
        for b in kinds[i + 1..].iter() {
            assert_ne!(artifact_error_code(*a).0, artifact_error_code(*b).0);
        }
    }
}

#[test]
fn a_full_log_is_rotated() {
    assert!(!log_is_full(None));
    assert!(!log_is_full(Some(WRITES_LOG_ROTATE_BYTES - 1)));
    assert!(log_is_full(Some(WRITES_LOG_ROTATE_BYTES + 1)));
}
