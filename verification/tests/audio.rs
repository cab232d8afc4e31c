use hylarana::hylarana::AudioChunker;
use hylarana::mirror::AudioQueue;
use hylarana::resample::first_channel;

#[test]
fn audio_queue_spreads_samples_over_channels() {
    let mut queue = AudioQueue::new();
    queue.push(vec![1, 2]);
    queue.push(vec![3]);
    let mut output = [9i16; 4];
    queue.read(&mut output, 2);
    assert_eq!(output, [1, 1, 2, 2]);
    let mut output = [9i16; 2];
    queue.read(&mut output, 2);
    assert_eq!(output, [3, 3]);
}

#[test]
fn audio_queue_reads_across_chunks() {
    let mut queue = AudioQueue::new();
    queue.push(vec![]);
    queue.push(vec![1]);
    queue.push(vec![2, 3, 4]);
    let mut output = [0i16; 3];
    queue.read(&mut output, 1);
    assert_eq!(output, [1, 2, 3]);
    let mut output = [0i16; 1];
    queue.read(&mut output, 1);
    assert_eq!(output, [4]);
}

#[test]
fn audio_queue_runs_short_to_silence() {
    let mut queue = AudioQueue::new();
    queue.push(vec![5, 6]);
    let mut output = [7i16; 6];
    queue.read(&mut output, 2);
    assert_eq!(output, [0; 6]);
    queue.push(vec![8]);
    let mut output = [7i16; 2];
    queue.read(&mut output, 2);
    assert_eq!(output, [8, 8]);
}

#[test]
fn audio_queue_without_channels_is_silent_and_drained() {
    let mut queue = AudioQueue::new();
    queue.push(vec![1, 2, 3]);
    let mut output = [4i16; 3];
    queue.read(&mut output, 0);
    assert_eq!(output, [0; 3]);
    let mut output = [4i16; 1];
    queue.read(&mut output, 1);
    assert_eq!(output, [0]);
}

#[test]
fn audio_queue_empty_output_takes_nothing() {
    let mut queue = AudioQueue::new();
    queue.push(vec![1]);
    let mut output: [i16; 0] = [];
    queue.read(&mut output, 2);
    let mut output = [0i16; 2];
    queue.read(&mut output, 2);
    assert_eq!(output, [1, 1]);
}

#[test]
fn first_channel_takes_every_frame_start() {
    assert_eq!(first_channel(&[1, 2, 3, 4, 5, 6], 2), vec![1, 3, 5]);
    assert_eq!(first_channel(&[1, 2, 3, 4, 5], 2), vec![1, 3, 5]);
    assert_eq!(first_channel(&[1, 2, 3, 4, 5, 6, 7], 3), vec![1, 4, 7]);
    assert_eq!(first_channel(&[1, 2, 3], 1), vec![1, 2, 3]);
    assert_eq!(first_channel(&[], 4), Vec::<i16>::new());
    assert_eq!(first_channel(&[8, 9], 5), vec![8]);
}

#[test]
fn audio_chunker_gives_tenth_second_frames() {
    let mut chunker = AudioChunker::new(1000);
    let samples: Vec<i16> = (0..60).collect();
    assert_eq!(chunker.push(&samples), None);
    let more: Vec<i16> = (60..150).collect();
    let frame = chunker.push(&more).unwrap();
    assert_eq!(frame, (0..100).collect::<Vec<i16>>());
    let frame = chunker.push(&(150..250).collect::<Vec<i16>>()).unwrap();
    assert_eq!(frame, (100..200).collect::<Vec<i16>>());
    assert_eq!(chunker.push(&[]), None);
}

#[test]
fn audio_chunker_counts_whole_milliseconds() {
    let mut chunker = AudioChunker::new(48_999);
    let samples = vec![1i16; 4_800];
    assert_eq!(chunker.push(&samples).map(|f| f.len()), Some(4_800));
    let mut slow = AudioChunker::new(999);
    assert_eq!(slow.push(&[3]), Some(vec![]));
}

#[test]
fn audio_queue_counts_samples() {
    let mut queue = AudioQueue::new();
    assert!(queue.has_samples(0));
    assert!(!queue.has_samples(1));
    queue.push(vec![1, 2, 3]);
    queue.push(vec![]);
    queue.push(vec![4, 5]);
    assert!(queue.has_samples(5));
    assert!(!queue.has_samples(6));
    let mut output = [0i16; 2];
    queue.read(&mut output, 1);
    assert!(queue.has_samples(3));
    assert!(!queue.has_samples(4));
}
