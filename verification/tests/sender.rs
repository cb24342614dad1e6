use portal_core::codec::{MasterRequest, RequestCodec, SlaveResponse};
use portal_core::discovery::{announcement_payload, parse_announcement};
use portal_core::master::{
    build_fragments, file_id_from_hash, next_send_step, plan_transfer, ControlEvent, SendStep,
    TaskStatus,
};
use portal_core::slave::{RequestOutcome, Slave};

#[test]
fn file_id_is_the_digest_leading_byte() {
    assert_eq!(file_id_from_hash(&b"00ff".to_vec()), 0x00);
    assert_eq!(file_id_from_hash(&b"2cf24d".to_vec()), 0x2c);
    assert_eq!(file_id_from_hash(&b"FF00".to_vec()), 0xFF);
    assert_eq!(file_id_from_hash(&b"aB".to_vec()), 0xAB);
    // Not two hex characters: the fallback identifier.
    assert_eq!(file_id_from_hash(&b"zz00".to_vec()), 255);
    assert_eq!(file_id_from_hash(&b"a".to_vec()), 255);
    assert_eq!(file_id_from_hash(&b"".to_vec()), 255);
}

#[test]
fn control_steps_follow_the_channel() {
    // No pending status: keep going as before.
    assert_eq!(
        next_send_step(TaskStatus::Running, ControlEvent::Empty),
        (TaskStatus::Running, SendStep::SendFragment)
    );
    assert_eq!(
        next_send_step(TaskStatus::Paused, ControlEvent::Empty),
        (TaskStatus::Paused, SendStep::Backoff)
    );
    assert_eq!(
        next_send_step(TaskStatus::Aborted, ControlEvent::Empty),
        (TaskStatus::Aborted, SendStep::AbortTransfer)
    );

    // A received status replaces the current one.
    assert_eq!(
        next_send_step(TaskStatus::Running, ControlEvent::Received(TaskStatus::Paused)),
        (TaskStatus::Paused, SendStep::Backoff)
    );
    assert_eq!(
        next_send_step(TaskStatus::Paused, ControlEvent::Received(TaskStatus::Running)),
        (TaskStatus::Running, SendStep::SendFragment)
    );
    assert_eq!(
        next_send_step(TaskStatus::Paused, ControlEvent::Received(TaskStatus::Aborted)),
        (TaskStatus::Aborted, SendStep::AbortTransfer)
    );

    // A vanished controller aborts, whatever the status was.
    assert_eq!(
        next_send_step(TaskStatus::Running, ControlEvent::Disconnected).1,
        SendStep::AbortTransfer
    );
    assert_eq!(
        next_send_step(TaskStatus::Paused, ControlEvent::Disconnected).1,
        SendStep::AbortTransfer
    );
}

#[test]
fn fragments_cut_in_file_order() {
    let content: Vec<u8> = (0u32..3000).map(|i| (i % 256) as u8).collect();
    let frags = build_fragments(7, &content);
    assert_eq!(frags.len(), 3);
    for (i, f) in frags.iter().enumerate() {
        match f {
            MasterRequest::FileFragment {
                file_id,
                index,
                data,
            } => {
                assert_eq!(*file_id, 7);
                assert_eq!(*index, i as u32);
                let lo = i * 1477;
                let hi = (lo + 1477).min(content.len());
                assert_eq!(data, &content[lo..hi].to_vec());
            }
            other => panic!("expected a fragment, got {:?}", other),
        }
    }
    assert!(build_fragments(7, &Vec::new()).is_empty());
}

#[test]
fn paused_then_aborted_transfer_leaves_no_file() {
    // The sender pauses, then aborts; the receiver sees the drop and a
    // later metadata for the same id opens a fresh transfer.
    let content = b"a transfer that will be abandoned midway".to_vec();
    let digest = sha256::digest(&content);
    let file_id = file_id_from_hash(&digest.clone().into_bytes());

    let mut status = TaskStatus::Running;
    let mut slave = Slave::new();
    match slave.handle_request(MasterRequest::FileMetadata {
        file_id,
        file_name: b"doomed.txt".to_vec(),
        sha256: digest.clone().into_bytes(),
    }) {
        RequestOutcome::Reply(r) => assert_eq!(r, SlaveResponse::Okay),
        _ => panic!("metadata must get a plain reply"),
    }

    // First fragment goes out while running.
    let (s, step) = next_send_step(status, ControlEvent::Empty);
    status = s;
    assert_eq!(step, SendStep::SendFragment);
    match slave.handle_request(MasterRequest::FileFragment {
        file_id,
        index: 0,
        data: content[0..10].to_vec(),
    }) {
        RequestOutcome::Reply(r) => assert_eq!(r, SlaveResponse::Okay),
        _ => panic!("fragment must get a plain reply"),
    }

    // The controller pauses: nothing is sent, the cursor holds.
    let (s, step) = next_send_step(status, ControlEvent::Received(TaskStatus::Paused));
    status = s;
    assert_eq!(step, SendStep::Backoff);

    // Then it aborts: the sender owes the receiver a DropFile.
    let (_, step) = next_send_step(status, ControlEvent::Received(TaskStatus::Aborted));
    assert_eq!(step, SendStep::AbortTransfer);
    match slave.handle_request(MasterRequest::DropFile { file_id }) {
        RequestOutcome::Reply(r) => assert_eq!(r, SlaveResponse::Okay),
        _ => panic!("drop must get a plain reply"),
    }

    // No file: the transfer is gone.
    match slave.handle_request(MasterRequest::EndOfFile { file_id }) {
        RequestOutcome::Reply(r) => {
            assert_eq!(r, SlaveResponse::FileIdNotFound { file_id })
        }
        RequestOutcome::Save { .. } => panic!("an aborted transfer must not be saved"),
    }

    // The same id opens cleanly afterwards.
    match slave.handle_request(MasterRequest::FileMetadata {
        file_id,
        file_name: b"doomed.txt".to_vec(),
        sha256: digest.into_bytes(),
    }) {
        RequestOutcome::Reply(r) => assert_eq!(r, SlaveResponse::Okay),
        _ => panic!("metadata must get a plain reply"),
    }
}

#[test]
fn five_thousand_bytes_end_to_end() {
    // A 5000-byte file crosses as 1477/1477/1477/569, with one Okay per
    // request, and arrives byte-identical under its display name.
    let content: Vec<u8> = (0u32..5000).map(|i| (i * 7 % 256) as u8).collect();
    let digest = sha256::digest(&content);
    let plan = plan_transfer(
        b"big.bin".to_vec(),
        digest.clone().into_bytes(),
        &content,
    );
    assert_eq!(plan.len(), 6);
    match &plan[1] {
        MasterRequest::FileFragment { data, .. } => assert_eq!(data.len(), 1477),
        other => panic!("expected a fragment, got {:?}", other),
    }
    match &plan[4] {
        MasterRequest::FileFragment { data, .. } => assert_eq!(data.len(), 569),
        other => panic!("expected a fragment, got {:?}", other),
    }

    // Every request also fits its frame.
    let mut codec = RequestCodec;
    for m in plan.iter() {
        let mut dst: Vec<u8> = Vec::new();
        codec.encode(m.clone(), &mut dst).unwrap();
    }

    let mut slave = Slave::new();
    let mut okays = 0;
    let mut saved: Option<(Vec<u8>, Vec<u8>)> = None;
    for m in plan {
        match slave.handle_request(m) {
            RequestOutcome::Reply(r) => {
                assert_eq!(r, SlaveResponse::Okay);
                okays += 1;
            }
            RequestOutcome::Save {
                file_name, content, ..
            } => {
                saved = Some((file_name, content));
                okays += 1; // the save succeeds, so the sender hears Okay
            }
        }
    }
    assert_eq!(okays, 6);
    let (file_name, saved_content) = saved.expect("the transfer must end in a save");
    assert_eq!(file_name, b"big.bin".to_vec());
    assert_eq!(saved_content, content);
}

#[test]
fn announcement_round_trip() {
    let payload = announcement_payload(11451);
    assert_eq!(payload.len(), 9);
    assert_eq!(parse_announcement(&payload), Some(11451));

    // A datagram without the marker announces nothing.
    let mut other = payload.clone();
    other[0] ^= 0xFF;
    assert_eq!(parse_announcement(&other), None);
    assert_eq!(parse_announcement(&b"short".to_vec()), None);
}
