use tezedge_recorder::framer::Framer;

fn chunk(content: &[u8]) -> Vec<u8> {
    let mut bytes = vec![(content.len() >> 8) as u8, (content.len() & 0xff) as u8];
    bytes.extend_from_slice(content);
    bytes
}

#[test]
fn chunk_split_over_two_deliveries_completes_on_the_second() {
    let mut framer = Framer::new();
    let first = framer.feed(&[0, 5, 1, 2, 3]);
    assert!(first.is_empty());
    assert_eq!(framer.pending(), 5);
    let second = framer.feed(&[4, 5]);
    assert_eq!(second, vec![vec![1u8, 2, 3, 4, 5]]);
    assert_eq!(framer.pending(), 0);
}

#[test]
fn length_is_read_with_the_more_significant_byte_first() {
    let content: Vec<u8> = (0..258u32).map(|i| (i % 251) as u8).collect();
    let mut stream = vec![1u8, 2];
    stream.extend_from_slice(&content);
    let mut framer = Framer::new();
    let chunks = framer.feed(&stream);
    assert_eq!(chunks, vec![content]);
    assert_eq!(framer.pending(), 0);

    // Read the other way round, the length would be 513, and no chunk would be whole.
    let mut other = Framer::new();
    let short: Vec<u8> = vec![2u8, 1, 9, 9, 9];
    assert!(other.feed(&short).is_empty());
    assert_eq!(other.pending(), 5);
}

#[test]
fn several_chunks_in_one_delivery_come_out_in_order() {
    let mut stream = chunk(&[7, 7, 7]);
    stream.extend(chunk(&[]));
    stream.extend(chunk(&[1]));
    stream.extend_from_slice(&[0, 9, 1, 2]);
    let mut framer = Framer::new();
    let chunks = framer.feed(&stream);
    assert_eq!(chunks, vec![vec![7u8, 7, 7], vec![], vec![1u8]]);
    assert_eq!(framer.pending(), 4);
}

#[test]
fn a_lone_length_byte_waits() {
    let mut framer = Framer::new();
    assert!(framer.feed(&[0]).is_empty());
    assert_eq!(framer.pending(), 1);
    assert!(framer.feed(&[]).is_empty());
    assert_eq!(framer.pending(), 1);
    assert_eq!(framer.feed(&[2, 8, 9]), vec![vec![8u8, 9]]);
}

#[test]
fn every_split_of_a_stream_gives_the_chunks_of_the_whole() {
    let mut stream = chunk(&[1, 2, 3, 4]);
    stream.extend(chunk(&[]));
    stream.extend(chunk(&[5; 20]));
    stream.extend(chunk(&[6]));
    stream.extend_from_slice(&[0, 3, 1]);

    let mut single = Framer::new();
    let whole = single.feed(&stream);
    assert_eq!(whole.len(), 4);

    for cut in 0..=stream.len() {
        let mut framer = Framer::new();
        let mut chunks = framer.feed(&stream[..cut]);
        chunks.extend(framer.feed(&stream[cut..]));
        assert_eq!(chunks, whole, "cut at {}", cut);
        assert_eq!(framer.pending(), single.pending());
    }
    for first in 0..=stream.len() {
        for second in first..=stream.len() {
            let mut framer = Framer::new();
            let mut chunks = framer.feed(&stream[..first]);
            chunks.extend(framer.feed(&stream[first..second]));
            chunks.extend(framer.feed(&stream[second..]));
            assert_eq!(chunks, whole);
        }
    }
}

#[test]
fn byte_by_byte_delivery_gives_the_chunks_of_the_whole() {
    let mut stream = chunk(&[9, 8, 7]);
    stream.extend(chunk(&[6, 5]));
    let mut framer = Framer::new();
    let mut chunks = Vec::new();
    for byte in &stream {
        chunks.extend(framer.feed(&[*byte]));
    }
    assert_eq!(chunks, vec![vec![9u8, 8, 7], vec![6u8, 5]]);
}
