use vsb::stream_splitter::{SplitAction, SplitState, Splitter};

#[test]
fn payloads_are_split_into_bounded_streams() {
    let mut s = Splitter::new(4);
    assert_eq!(s.split_payload(6), vec![
        SplitAction::NewStream { offset: 0 },
        SplitAction::Chunk { from: 0, to: 4 },
        SplitAction::CloseStream,
        SplitAction::NewStream { offset: 4 },
        SplitAction::Chunk { from: 4, to: 6 },
    ]);
    assert_eq!(s.state, SplitState { open: true, stream_size: 2, offset: 6 });

    assert_eq!(s.split_payload(2), vec![SplitAction::Chunk { from: 0, to: 2 }]);
    assert_eq!(s.state, SplitState { open: true, stream_size: 4, offset: 8 });

    assert_eq!(s.split_payload(1), vec![
        SplitAction::CloseStream,
        SplitAction::NewStream { offset: 8 },
        SplitAction::Chunk { from: 0, to: 1 },
    ]);
    assert!(s.split_payload(0).is_empty());
    assert_eq!(s.finish(), 9);
    assert!(!s.state.open);
}

#[test]
fn splitting_sends_all_data_in_order() {
    let max = 7u64;
    let mut s = Splitter::new(max);
    let mut streams: Vec<(u64, Vec<u8>)> = Vec::new();
    let mut data = Vec::new();
    let mut next = 0u8;
    for len in [3u64, 10, 0, 7, 1, 20] {
        let payload: Vec<u8> = (0..len).map(|_| { next = next.wrapping_add(1); next }).collect();
        data.extend_from_slice(&payload);
        for action in s.split_payload(len) {
            match action {
                SplitAction::NewStream { offset } => streams.push((offset, Vec::new())),
                SplitAction::Chunk { from, to } => streams.last_mut().unwrap().1.extend_from_slice(&payload[from as usize..to as usize]),
                SplitAction::CloseStream => assert_eq!(streams.last().unwrap().1.len() as u64, max),
            }
        }
    }
    assert_eq!(s.finish(), data.len() as u64);
    let mut offset = 0;
    let mut joined = Vec::new();
    for (start, bytes) in &streams {
        assert_eq!(*start, offset);
        assert!(bytes.len() as u64 <= max && !bytes.is_empty());
        offset += bytes.len() as u64;
        joined.extend_from_slice(bytes);
    }
    assert_eq!(joined, data);
}
