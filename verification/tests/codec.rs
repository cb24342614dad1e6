use portal_core::codec::{
    bytes_needed, MasterRequest, RequestCodec, ResponseCodec, SlaveResponse,
    MAX_FILE_FARGMENT_SIZE,
};
use portal_core::error::Error;
use portal_core::utils::{u16_to_u8_array, u64_to_u8_array, u8_array_to_u16, u8_array_to_u64};

fn encode_request(item: MasterRequest) -> Result<Vec<u8>, Error> {
    let mut codec = RequestCodec;
    let mut dst: Vec<u8> = Vec::new();
    codec.encode(item, &mut dst)?;
    Ok(dst)
}

#[test]
fn u16_bytes_round_trip() {
    assert_eq!(u16_to_u8_array(0x1234), [0x12, 0x34]);
    assert_eq!(u8_array_to_u16([0x12, 0x34]), 0x1234);
    for v in [0u16, 1, 255, 256, 1500, u16::MAX] {
        assert_eq!(u8_array_to_u16(u16_to_u8_array(v)), v);
    }
}

#[test]
fn u64_bytes_round_trip() {
    assert_eq!(
        u64_to_u8_array(0x0102030405060708),
        [1, 2, 3, 4, 5, 6, 7, 8]
    );
    assert_eq!(u8_array_to_u64([1, 2, 3, 4, 5, 6, 7, 8]), 0x0102030405060708);
    for v in [0u64, 1, u64::MAX, 0xdead_beef_cafe_f00d] {
        assert_eq!(u8_array_to_u64(u64_to_u8_array(v)), v);
    }
}

#[test]
fn request_frame_exact_bytes() {
    let frame = encode_request(MasterRequest::EndOfFile { file_id: 7 }).unwrap();
    assert_eq!(frame, vec![0, 4, 3, 7]);

    let frame = encode_request(MasterRequest::Ping).unwrap();
    assert_eq!(frame, vec![0, 3, 0]);

    let frame = encode_request(MasterRequest::FileFragment {
        file_id: 1,
        index: 2,
        data: vec![9, 8],
    })
    .unwrap();
    assert_eq!(frame, vec![0, 12, 1, 1, 0, 0, 0, 2, 0, 2, 9, 8]);
}

#[test]
fn response_frame_exact_bytes() {
    let mut codec = ResponseCodec;
    let mut dst: Vec<u8> = Vec::new();
    codec.encode(SlaveResponse::Pong, &mut dst).unwrap();
    codec.encode(SlaveResponse::Okay, &mut dst).unwrap();
    codec
        .encode(SlaveResponse::FileIdNotFound { file_id: 5 }, &mut dst)
        .unwrap();
    assert_eq!(dst, vec![0, 3, 0, 0, 3, 1, 0, 4, 2, 5]);
}

#[test]
fn request_round_trip_all_variants() {
    let messages = vec![
        MasterRequest::Ping,
        MasterRequest::FileFragment {
            file_id: 3,
            index: 70000,
            data: vec![1, 2, 3, 4, 5],
        },
        MasterRequest::FileMetadata {
            file_id: 9,
            file_name: b"notes.txt".to_vec(),
            sha256: b"00ff".to_vec(),
        },
        MasterRequest::EndOfFile { file_id: 200 },
        MasterRequest::DropFile { file_id: 0 },
    ];
    for m in messages {
        let expected = m.clone();
        let mut buf = encode_request(m).unwrap();
        let mut codec = RequestCodec;
        let decoded = codec.decode(&mut buf).unwrap();
        assert_eq!(decoded, Some(expected));
        assert!(buf.is_empty());
    }
}

#[test]
fn response_round_trip_all_variants() {
    let messages = vec![
        SlaveResponse::Pong,
        SlaveResponse::Okay,
        SlaveResponse::FileIdNotFound { file_id: 1 },
        SlaveResponse::CannotSaveFile { file_id: 254 },
        SlaveResponse::ChecksumNotMatched { file_id: 255 },
    ];
    for m in messages {
        let mut codec = ResponseCodec;
        let mut buf: Vec<u8> = Vec::new();
        codec.encode(m, &mut buf).unwrap();
        let decoded = codec.decode(&mut buf).unwrap();
        assert_eq!(decoded, Some(m));
        assert!(buf.is_empty());
    }
}

#[test]
fn oversize_fragment_rejected_and_boundary_accepted() {
    // 1477 bytes of data must encode.
    let ok = encode_request(MasterRequest::FileFragment {
        file_id: 1,
        index: 0,
        data: vec![0xAB; MAX_FILE_FARGMENT_SIZE],
    });
    assert!(ok.is_ok());

    // Data that pushes the serialized envelope above 1498 bytes must not.
    let too_large = encode_request(MasterRequest::FileFragment {
        file_id: 1,
        index: 0,
        data: vec![0xAB; 1491],
    });
    assert_eq!(too_large, Err(Error::DataTooLarge));

    let mut codec = RequestCodec;
    let mut dst: Vec<u8> = Vec::new();
    let r = codec.encode(
        MasterRequest::FileFragment {
            file_id: 1,
            index: 0,
            data: vec![0xAB; 40000],
        },
        &mut dst,
    );
    assert_eq!(r, Err(Error::DataTooLarge));
    assert!(dst.is_empty());
}

#[test]
fn oversize_metadata_rejected() {
    let r = encode_request(MasterRequest::FileMetadata {
        file_id: 1,
        file_name: vec![b'a'; 1600],
        sha256: vec![b'0'; 64],
    });
    assert_eq!(r, Err(Error::DataTooLarge));
}

#[test]
fn partial_frame_one_byte_at_a_time() {
    let frame = encode_request(MasterRequest::FileFragment {
        file_id: 4,
        index: 1,
        data: vec![10, 20, 30],
    })
    .unwrap();

    let mut codec = RequestCodec;
    let mut buf: Vec<u8> = Vec::new();
    for (fed, byte) in frame.iter().enumerate() {
        buf.push(*byte);
        let r = codec.decode(&mut buf).unwrap();
        if fed + 1 < frame.len() {
            assert_eq!(r, None, "no message before the frame is complete");
            assert_eq!(buf.len(), fed + 1, "incomplete bytes stay buffered");
        } else {
            assert_eq!(
                r,
                Some(MasterRequest::FileFragment {
                    file_id: 4,
                    index: 1,
                    data: vec![10, 20, 30],
                })
            );
            assert!(buf.is_empty());
        }
    }
}

#[test]
fn two_frames_in_one_read_and_leftover_preserved() {
    let mut buf = encode_request(MasterRequest::Ping).unwrap();
    buf.extend(encode_request(MasterRequest::DropFile { file_id: 9 }).unwrap());
    buf.push(0); // first byte of a third, incomplete frame

    let mut codec = RequestCodec;
    assert_eq!(codec.decode(&mut buf).unwrap(), Some(MasterRequest::Ping));
    assert_eq!(
        codec.decode(&mut buf).unwrap(),
        Some(MasterRequest::DropFile { file_id: 9 })
    );
    assert_eq!(codec.decode(&mut buf).unwrap(), None);
    assert_eq!(buf, vec![0]);
}

#[test]
fn malformed_payload_is_fatal() {
    // A complete frame whose content opens with an unknown tag.
    let mut buf = vec![0, 3, 99];
    let mut codec = RequestCodec;
    assert_eq!(codec.decode(&mut buf), Err(Error::Malformed));

    // A declared total below the length prefix's own two bytes.
    let mut buf = vec![0, 1, 42];
    assert_eq!(codec.decode(&mut buf), Err(Error::Malformed));

    // A trailing byte glued onto an otherwise valid content.
    let mut buf = vec![0, 4, 0, 0];
    assert_eq!(codec.decode(&mut buf), Err(Error::Malformed));
}

#[test]
fn bytes_needed_reports_missing_count() {
    assert_eq!(bytes_needed(&vec![]), None);
    assert_eq!(bytes_needed(&vec![0]), None);
    // A frame declaring 12 bytes in total, with 5 buffered.
    assert_eq!(bytes_needed(&vec![0, 12, 1, 1, 0]), Some(7));
    // Complete frames need nothing.
    assert_eq!(bytes_needed(&vec![0, 3, 0]), None);
}
