use onebrc::chunk::{plan_chunks, ChunkDecoder};

fn check_partition(data: &[u8], chunks: &[(usize, usize)]) {
    let mut at = 0;
    for (i, &(s, e)) in chunks.iter().enumerate() {
        assert_eq!(s, at);
        assert!(s < e);
        if i + 1 < chunks.len() {
            assert_eq!(data[e - 1], b'\n');
        }
        at = e;
    }
    assert_eq!(at, data.len());
}

#[test]
fn plan_covers_the_data_on_line_boundaries() {
    let data = b"a;1.0\nbb;2.0\nccc;3.0\nd;4.0\neeeee;5.0\n";
    for threads in 1..50 {
        let chunks = plan_chunks(data, threads);
        assert!(chunks.len() <= threads);
        check_partition(data, &chunks);
    }
    assert_eq!(plan_chunks(data, 1), vec![(0, data.len())]);
    assert_eq!(plan_chunks(data, 2), vec![(0, 21), (21, data.len())]);
}

#[test]
fn plan_of_nothing_is_empty() {
    assert!(plan_chunks(b"", 4).is_empty());
}

#[test]
fn plan_keeps_an_unterminated_tail() {
    let data = b"a;1.0\nb;2.0";
    let chunks = plan_chunks(data, 3);
    check_partition(data, &chunks);
    assert_eq!(chunks.last().unwrap().1, data.len());
}

#[test]
fn decoder_splits_after_last_newline() {
    let d = ChunkDecoder;
    assert_eq!(d.decode(b"a;1.0\nb;2.0\nc;3"), Some(12));
    assert_eq!(d.decode(b"a;1.0\n"), Some(6));
    assert_eq!(d.decode(b"a;1."), None);
    assert_eq!(d.decode(b""), None);
}
