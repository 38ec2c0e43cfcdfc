use rustydlna7::send::{on_send, SendEvent, SendStep};

/// Sends `length` bytes of a file from `offset` on behind a header. The client
/// takes `writes` writes, and the file gives at most `at_most` bytes at a time
/// and cannot be read once `reads` reads are done. Returns the bytes of each
/// write that was tried.
fn sent(
    file: &[u8],
    offset: usize,
    length: u64,
    at_most: usize,
    writes: usize,
    reads: usize,
) -> Vec<Vec<u8>> {
    let mut tried = vec![b"HEADER".to_vec()];
    let mut pos = offset;
    let mut left = length;
    let mut reads_done = 0usize;
    let mut event = if writes > 0 { SendEvent::Written } else { SendEvent::WriteFailed };
    loop {
        let (rest, step) = on_send(left, event);
        left = rest;
        event = match step {
            SendStep::Stop => return tried,
            SendStep::Read(want) => {
                if reads_done == reads {
                    SendEvent::ReadFailed
                } else {
                    reads_done += 1;
                    let n = want.min(at_most).min(file.len() - pos);
                    pos += n;
                    SendEvent::Read(&file[pos - n..pos])
                }
            }
            SendStep::Write(bytes) => {
                tried.push(bytes.to_vec());
                if tried.len() <= writes {
                    SendEvent::Written
                } else {
                    SendEvent::WriteFailed
                }
            }
        };
    }
}

fn file_of(n: usize) -> Vec<u8> {
    (0..n).map(|i| (i % 251) as u8).collect()
}

const ALL: usize = usize::MAX;

#[test]
fn a_whole_file_is_sent_in_chunks() {
    let file = file_of(40000);
    let tried = sent(&file, 10, 39990, ALL, ALL, ALL);
    let sizes: Vec<usize> = tried.iter().map(|w| w.len()).collect();
    assert_eq!(sizes, [6, 16384, 16384, 7222]);
    assert_eq!(tried[1..].concat(), &file[10..]);
}

#[test]
fn no_more_is_sent_than_was_announced() {
    let file = file_of(100);
    for at_most in [1usize, 7, 50, 1000] {
        assert_eq!(sent(&file, 5, 20, at_most, ALL, ALL)[1..].concat(), &file[5..25]);
    }
    assert_eq!(sent(&file, 100, 0, ALL, ALL, ALL), [b"HEADER".to_vec()]);
}

#[test]
fn what_is_sent_is_a_prefix_wherever_it_stops() {
    let file = file_of(100);
    let mut reply = b"HEADER".to_vec();
    reply.extend_from_slice(&file[5..85]);
    for writes in 0..12usize {
        for reads in 0..12usize {
            let all = sent(&file, 5, 80, 9, writes, reads).concat();
            assert_eq!(all, &reply[..all.len()], "{} writes, {} reads", writes, reads);
        }
    }
}

#[test]
fn a_failed_write_is_the_last_one() {
    let file = file_of(100);
    assert_eq!(sent(&file, 0, 100, 10, 0, ALL).len(), 1, "the header");
    for writes in 1..10usize {
        assert_eq!(sent(&file, 0, 100, 10, writes, ALL).len(), writes + 1);
    }
    assert!(matches!(on_send(7, SendEvent::WriteFailed), (7, SendStep::Stop)));
}

#[test]
fn sending_stops_where_the_file_does() {
    let file = file_of(30);
    // Shorter than when it was opened.
    assert_eq!(sent(&file, 0, 100, 20, ALL, ALL)[1..].concat(), file);
    assert_eq!(sent(&file, 0, 30, 10, ALL, 2)[1..].concat(), &file[..20]);
    assert!(matches!(on_send(7, SendEvent::Read(&[])), (7, SendStep::Stop)));
    assert!(matches!(on_send(7, SendEvent::ReadFailed), (7, SendStep::Stop)));
    assert!(matches!(on_send(7, SendEvent::Written), (7, SendStep::Read(7))));
    assert!(matches!(on_send(0, SendEvent::Written), (0, SendStep::Stop)));
}
