use portal_core::codec::{MasterRequest, SlaveResponse};
use portal_core::slave::{response_after_save, RequestOutcome, Slave};

fn metadata(file_id: u8, name: &str, hash: &str) -> MasterRequest {
    MasterRequest::FileMetadata {
        file_id,
        file_name: name.as_bytes().to_vec(),
        sha256: hash.as_bytes().to_vec(),
    }
}

fn fragment(file_id: u8, index: u32, data: &[u8]) -> MasterRequest {
    MasterRequest::FileFragment {
        file_id,
        index,
        data: data.to_vec(),
    }
}

fn expect_reply(outcome: RequestOutcome) -> SlaveResponse {
    match outcome {
        RequestOutcome::Reply(r) => r,
        RequestOutcome::Save { .. } => panic!("expected a plain reply, got a save"),
    }
}

#[test]
fn ping_answers_pong() {
    let mut slave = Slave::new();
    let r = expect_reply(slave.handle_request(MasterRequest::Ping));
    assert_eq!(r, SlaveResponse::Pong);
}

#[test]
fn reassembly_is_independent_of_arrival_order() {
    let content: Vec<u8> = (0u32..4000).map(|i| (i % 251) as u8) .collect();
    let chunks: Vec<&[u8]> = vec![
        &content[0..1477],
        &content[1477..2954],
        &content[2954..4000],
    ];
    let digest = sha256::digest(&content);

    let in_order: Vec<u32> = vec![0, 1, 2];
    let shuffled: Vec<u32> = vec![2, 0, 1];

    let mut results: Vec<Vec<u8>> = Vec::new();
    for order in [in_order, shuffled] {
        let mut slave = Slave::new();
        assert_eq!(
            expect_reply(slave.handle_request(metadata(1, "f.bin", &digest))),
            SlaveResponse::Okay
        );
        for index in order {
            assert_eq!(
                expect_reply(slave.handle_request(fragment(1, index, chunks[index as usize]))),
                SlaveResponse::Okay
            );
        }
        match slave.handle_request(MasterRequest::EndOfFile { file_id: 1 }) {
            RequestOutcome::Save { content: c, .. } => results.push(c),
            RequestOutcome::Reply(r) => panic!("expected a save, got {:?}", r),
        }
    }
    assert_eq!(results[0], results[1]);
    assert_eq!(results[0], content);
}

#[test]
fn checksum_mismatch_is_never_saved() {
    let mut slave = Slave::new();
    let declared = sha256::digest(b"what the sender promised".as_slice());
    assert_eq!(
        expect_reply(slave.handle_request(metadata(9, "f.txt", &declared))),
        SlaveResponse::Okay
    );
    assert_eq!(
        expect_reply(slave.handle_request(fragment(9, 0, b"what actually arrived"))),
        SlaveResponse::Okay
    );
    let r = expect_reply(slave.handle_request(MasterRequest::EndOfFile { file_id: 9 }));
    assert_eq!(r, SlaveResponse::ChecksumNotMatched { file_id: 9 });

    // The failed transfer was consumed, not left half-open.
    let r = expect_reply(slave.handle_request(MasterRequest::EndOfFile { file_id: 9 }));
    assert_eq!(r, SlaveResponse::FileIdNotFound { file_id: 9 });
}

#[test]
fn matching_checksum_hands_out_identical_bytes() {
    let content = b"correct horse battery staple".to_vec();
    let digest = sha256::digest(&content);
    let mut slave = Slave::new();
    expect_reply(slave.handle_request(metadata(3, "pass.txt", &digest)));
    expect_reply(slave.handle_request(fragment(3, 0, &content)));
    match slave.handle_request(MasterRequest::EndOfFile { file_id: 3 }) {
        RequestOutcome::Save {
            file_id,
            file_name,
            content: saved,
        } => {
            assert_eq!(file_id, 3);
            assert_eq!(file_name, b"pass.txt".to_vec());
            assert_eq!(saved, content);
        }
        RequestOutcome::Reply(r) => panic!("expected a save, got {:?}", r),
    }
}

#[test]
fn unknown_id_is_not_fatal_and_corrupts_nothing() {
    let mut slave = Slave::new();
    let content = b"only transfer one is open".to_vec();
    let digest = sha256::digest(&content);
    expect_reply(slave.handle_request(metadata(1, "one.txt", &digest)));

    // A fragment, an end-of-file and a drop for an id with no open transfer.
    assert_eq!(
        expect_reply(slave.handle_request(fragment(2, 0, b"stray"))),
        SlaveResponse::FileIdNotFound { file_id: 2 }
    );
    assert_eq!(
        expect_reply(slave.handle_request(MasterRequest::EndOfFile { file_id: 2 })),
        SlaveResponse::FileIdNotFound { file_id: 2 }
    );
    assert_eq!(
        expect_reply(slave.handle_request(MasterRequest::DropFile { file_id: 2 })),
        SlaveResponse::Okay
    );
    // Dropping twice is idempotent.
    assert_eq!(
        expect_reply(slave.handle_request(MasterRequest::DropFile { file_id: 2 })),
        SlaveResponse::Okay
    );

    // The open transfer was not disturbed.
    expect_reply(slave.handle_request(fragment(1, 0, &content)));
    match slave.handle_request(MasterRequest::EndOfFile { file_id: 1 }) {
        RequestOutcome::Save { content: saved, .. } => assert_eq!(saved, content),
        RequestOutcome::Reply(r) => panic!("expected a save, got {:?}", r),
    }
}

#[test]
fn save_failure_is_reported_per_transfer() {
    assert_eq!(response_after_save(5, true), SlaveResponse::Okay);
    assert_eq!(
        response_after_save(5, false),
        SlaveResponse::CannotSaveFile { file_id: 5 }
    );
}
