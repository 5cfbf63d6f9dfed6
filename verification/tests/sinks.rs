use taudio::sinks::ChannelBuffers;

#[test]
fn channels_start_empty_and_collect_samples() {
    let mut bufs: ChannelBuffers<u8> = ChannelBuffers::new();
    assert_eq!(bufs.num_channels(), 0);
    bufs.create_channels(2, 16);
    assert_eq!(bufs.num_channels(), 2);
    bufs.feed_channel(0, &[1, 2]);
    bufs.feed_channel(0, &[3]);
    bufs.feed_channel(1, &[9]);
    assert_eq!(bufs.get_channel(0), &[1, 2, 3]);
    assert_eq!(bufs.try_get_channel(1), Some(&[9u8][..]));
    assert_eq!(bufs.try_get_channel(2), None);
}

#[test]
fn take_leaves_channels_empty() {
    let mut bufs: ChannelBuffers<u8> = ChannelBuffers::new();
    bufs.create_channels(2, 0);
    bufs.feed_channel(1, &[7, 8]);
    assert_eq!(bufs.take_channel(1), vec![7, 8]);
    assert_eq!(bufs.get_channel(1), &[] as &[u8]);
    bufs.feed_channel(0, &[1]);
    assert_eq!(bufs.take(), vec![vec![1], vec![]]);
    assert_eq!(bufs.num_channels(), 2);
    assert_eq!(bufs.get_channel(0), &[] as &[u8]);
}

#[test]
fn visit_hands_out_then_clears() {
    let mut bufs: ChannelBuffers<u8> = ChannelBuffers::new();
    bufs.create_channels(2, 4);
    bufs.feed_channel(0, &[1]);
    bufs.feed_channel(1, &[2, 3]);
    let mut seen: Vec<(usize, Vec<u8>)> = vec![];
    bufs.visit(|i, s| seen.push((i, s.to_vec())));
    assert_eq!(seen, vec![(0, vec![1]), (1, vec![2, 3])]);
    assert_eq!(bufs.get_channel(1), &[] as &[u8]);
    bufs.feed_channel(1, &[4]);
    let mut one = vec![];
    bufs.visit_channel(1, |s| one.extend_from_slice(s));
    assert_eq!(one, vec![4]);
    assert_eq!(bufs.get_channel(1), &[] as &[u8]);
}

#[test]
fn channels_change_in_place() {
    let mut bufs: ChannelBuffers<u8> = ChannelBuffers::new();
    bufs.create_channels(1, 4);
    bufs.feed_channel(0, &[1, 2]);
    bufs.get_channel_mut(0)[1] = 5;
    assert_eq!(bufs.get_channel(0), &[1, 5]);
    if let Some(s) = bufs.try_get_channel_mut(0) {
        s[0] = 6;
    }
    assert!(bufs.try_get_channel_mut(3).is_none());
    bufs.get_buffer_mut(0).push(9);
    assert_eq!(bufs.get_channel(0), &[6, 5, 9]);
    bufs.create_channels(1, 0);
    assert_eq!(bufs.get_channel(0), &[] as &[u8]);
}
