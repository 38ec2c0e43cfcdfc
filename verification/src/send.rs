//! Sending a file behind its header: reads of the file and writes to the
//! client take turns, and whatever fails is the last thing that is tried.

use crate::get;
use crate::get::chunk_len;
use vstd::prelude::*;

verus! {

/// What came of the last thing that was tried.
#[derive(Clone, Copy, Debug)]
pub enum SendEvent<'a> {
    /// The client took all that was written, in time.
    Written,
    /// It did not, or the connection failed.
    WriteFailed,
    /// These bytes were read from the file: none where it has ended.
    Read(&'a [u8]),
    /// The file could not be read.
    ReadFailed,
}

/// What to try next.
#[derive(Clone, Copy, Debug)]
pub enum SendStep<'a> {
    /// Nothing: close the connection.
    Stop,
    /// Read at most so many bytes of the file.
    Read(usize),
    /// Write these bytes.
    Write(&'a [u8]),
}

/// What to try next, and how many bytes of the file are then still to be read,
/// where `left` were.
pub open spec fn send_step<'a>(left: u64, event: SendEvent<'a>) -> (u64, SendStep<'a>) {
    match event {
        SendEvent::Written => if left > 0 {
            (left, SendStep::Read(get::chunk_size(left)))
        } else {
            (left, SendStep::Stop)
        },
        SendEvent::Read(bytes) => if bytes@.len() > 0 {
            ((left - bytes@.len()) as u64, SendStep::Write(bytes))
        } else {
            (left, SendStep::Stop)
        },
        SendEvent::WriteFailed => (left, SendStep::Stop),
        SendEvent::ReadFailed => (left, SendStep::Stop),
    }
}

/// Decides what to try next while a file is sent of which `left` bytes are
/// still to be read. The first event is what came of writing the header.
pub fn on_send<'a>(left: u64, event: SendEvent<'a>) -> (r: (u64, SendStep<'a>))
    requires
        event matches SendEvent::Read(bytes) ==> bytes@.len() <= get::chunk_size(left),
    ensures
        r == send_step(left, event),
{
    match event {
        SendEvent::Written => {
            if left > 0 {
                (left, SendStep::Read(chunk_len(left)))
            } else {
                (left, SendStep::Stop)
            }
        },
        SendEvent::Read(bytes) => {
            if bytes.len() > 0 {
                (left - bytes.len() as u64, SendStep::Write(bytes))
            } else {
                (left, SendStep::Stop)
            }
        },
        SendEvent::WriteFailed => (left, SendStep::Stop),
        SendEvent::ReadFailed => (left, SendStep::Stop),
    }
}

/// The bytes of the file that are handed to writes when `events` come one
/// after the other, the header being written before.
pub open spec fn handed(left: u64, events: Seq<SendEvent<'_>>) -> Seq<u8>
    decreases events.len(),
{
    if events.len() == 0 {
        Seq::empty()
    } else {
        let (rest, step) = send_step(left, events[0]);
        match step {
            SendStep::Stop => Seq::empty(),
            SendStep::Read(_) => handed(rest, events.drop_first()),
            SendStep::Write(bytes) => bytes@ + handed(rest, events.drop_first()),
        }
    }
}

/// The number of bytes that are still to be read after `events`.
pub open spec fn left_after(left: u64, events: Seq<SendEvent<'_>>) -> u64
    decreases events.len(),
{
    if events.len() == 0 {
        left
    } else {
        let (rest, step) = send_step(left, events[0]);
        match step {
            SendStep::Stop => rest,
            _ => left_after(rest, events.drop_first()),
        }
    }
}

/// The bytes that `events` read are those of `file` from position `pos` on,
/// and no more at a time than was asked for.
pub open spec fn reads_file(
    file: Seq<u8>,
    pos: int,
    left: u64,
    events: Seq<SendEvent<'_>>,
) -> bool
    decreases events.len(),
{
    events.len() > 0 ==> {
        let (rest, step) = send_step(left, events[0]);
        &&& events[0] matches SendEvent::Read(bytes) ==> {
            &&& bytes@.len() <= get::chunk_size(left)
            &&& pos + bytes@.len() <= file.len()
            &&& bytes@ == file.subrange(pos, pos + bytes@.len())
        }
        &&& !(step is Stop) ==> reads_file(
            file,
            pos + (left - rest),
            rest,
            events.drop_first(),
        )
    }
}

/// An event behind which nothing is tried any more, whatever is left.
pub open spec fn is_end(event: SendEvent<'_>) -> bool {
    match event {
        SendEvent::Written => false,
        SendEvent::Read(bytes) => bytes@.len() == 0,
        SendEvent::WriteFailed => true,
        SendEvent::ReadFailed => true,
    }
}

/// What is handed to writes is a prefix of the reply: the header, and behind
/// it the `length` bytes of the file from `offset` on. Nothing is left out,
/// sent twice or sent beyond them, however the reads turn out and wherever the
/// sending stops.
pub proof fn law_sent_is_a_prefix(
    header: Seq<u8>,
    file: Seq<u8>,
    offset: u64,
    length: u64,
    events: Seq<SendEvent<'_>>,
)
    requires
        offset + length <= file.len(),
        reads_file(file, offset as int, length, events),
    ensures
        ({
            let sent = header + handed(length, events);
            let reply = header + file.subrange(offset as int, offset + length);
            &&& sent.len() <= reply.len()
            &&& reply.take(sent.len() as int) == sent
        }),
{
    lemma_handed(file, offset as int, length, events);
    let n = handed(length, events).len() as int;
    let sent = header + handed(length, events);
    let reply = header + file.subrange(offset as int, offset + length);
    assert forall|i: int| header.len() <= i < sent.len() implies reply[i] == sent[i] by {
        assert(sent[i] == file.subrange(offset as int, offset + n)[i - header.len()]);
    }
    assert(reply.take(sent.len() as int) =~= sent);
}

/// A file that turns out shorter than announced is sent as far as it goes:
/// what is handed to writes are bytes of the file from `offset` on, and what is
/// not handed is still to be read.
pub proof fn law_send_counts_down(
    file: Seq<u8>,
    offset: u64,
    length: u64,
    events: Seq<SendEvent<'_>>,
)
    requires
        offset <= file.len(),
        reads_file(file, offset as int, length, events),
    ensures
        ({
            let n = handed(length, events).len();
            &&& n + left_after(length, events) == length
            &&& offset + n <= file.len()
            &&& handed(length, events) == file.subrange(offset as int, offset + n)
        }),
{
    lemma_handed(file, offset as int, length, events);
}

proof fn lemma_handed(file: Seq<u8>, pos: int, left: u64, events: Seq<SendEvent<'_>>)
    requires
        0 <= pos <= file.len(),
        reads_file(file, pos, left, events),
    ensures
        ({
            let n = handed(left, events).len();
            &&& n + left_after(left, events) == left
            &&& pos + n <= file.len()
            &&& handed(left, events) == file.subrange(pos, pos + n)
        }),
    decreases events.len(),
{
    if events.len() == 0 {
        assert(handed(left, events) =~= file.subrange(pos, pos));
    } else {
        let (rest, step) = send_step(left, events[0]);
        match step {
            SendStep::Stop => {
                assert(handed(left, events) =~= file.subrange(pos, pos));
            },
            SendStep::Read(_) => {
                lemma_handed(file, pos, rest, events.drop_first());
            },
            SendStep::Write(bytes) => {
                let next = pos + bytes@.len();
                lemma_handed(file, next, rest, events.drop_first());
                let m = handed(rest, events.drop_first()).len();
                assert(bytes@ + file.subrange(next, next + m) =~= file.subrange(pos, next + m));
            },
        }
    }
}

/// A write that fails or takes too long is the last one, and so it is where
/// the file ends or cannot be read: nothing that comes behind makes a
/// difference.
pub proof fn law_nothing_follows_a_failure(
    left: u64,
    before: Seq<SendEvent<'_>>,
    event: SendEvent<'_>,
    behind: Seq<SendEvent<'_>>,
)
    requires
        is_end(event),
    ensures
        handed(left, before.push(event) + behind) == handed(left, before),
    decreases before.len(),
{
    let all = before.push(event) + behind;
    if before.len() == 0 {
        assert(all[0] == event);
        assert(handed(left, all) =~= handed(left, before));
    } else {
        assert(all[0] == before[0]);
        let tail = before.drop_first();
        assert(all.drop_first() =~= tail.push(event) + behind);
        let (rest, step) = send_step(left, before[0]);
        law_nothing_follows_a_failure(rest, tail, event, behind);
    }
}

/// Where nothing fails and the file does not end, sending stops behind a write
/// that leaves nothing to be read, and nowhere else.
pub proof fn law_sending_ends_when_all_is_sent(left: u64, event: SendEvent<'_>)
    requires
        !is_end(event),
    ensures
        send_step(left, event).1 is Stop <==> event is Written && left == 0,
{
}

/// Writes that succeed and reads that find bytes, in turn.
pub open spec fn goes_well(events: Seq<SendEvent<'_>>) -> bool {
    forall|i: int|
        0 <= i < events.len() ==> if i % 2 == 0 {
            #[trigger] events[i] is Written
        } else {
            events[i] matches SendEvent::Read(bytes) && bytes@.len() > 0
        }
}

/// Where writes succeed and reads find bytes, all the bytes that were announced
/// are handed over, in the order of the file, after at most so many reads.
pub proof fn law_all_is_sent(
    file: Seq<u8>,
    offset: u64,
    length: u64,
    events: Seq<SendEvent<'_>>,
)
    requires
        offset + length <= file.len(),
        reads_file(file, offset as int, length, events),
        goes_well(events),
        events.len() > 2 * length,
    ensures
        handed(length, events) == file.subrange(offset as int, offset + length),
{
    lemma_all_is_sent(file, offset as int, length, events);
    lemma_handed(file, offset as int, length, events);
}

proof fn lemma_all_is_sent(file: Seq<u8>, pos: int, left: u64, events: Seq<SendEvent<'_>>)
    requires
        reads_file(file, pos, left, events),
        goes_well(events),
        events.len() > 2 * left,
    ensures
        handed(left, events).len() == left,
    decreases left,
{
    assert(events[0] is Written);
    if left > 0 {
        let tail = events.drop_first();
        assert(tail[0] == events[1]);
        assert(events[1] is Read);
        let (rest, step) = send_step(left, tail[0]);
        let next = tail.drop_first();
        assert(reads_file(file, pos, left, tail));
        assert(reads_file(file, pos + (left - rest), rest, next));
        assert forall|i: int| 0 <= i < next.len() implies if i % 2 == 0 {
            #[trigger] next[i] is Written
        } else {
            next[i] matches SendEvent::Read(bytes) && bytes@.len() > 0
        } by {
            assert(next[i] == events[i + 2]);
        }
        lemma_all_is_sent(file, pos + (left - rest), rest, next);
        assert(handed(left, events) == handed(left, tail));
        assert(handed(left, tail).len() == (left - rest) + handed(rest, next).len());
    }
}

/// Behind a write that succeeded, at least one byte is asked for while any are
/// left, and what has been read is written as it is.
pub proof fn law_sending_goes_on(left: u64, bytes: &[u8])
    requires
        0 < bytes@.len() <= left,
    ensures
        send_step(left, SendEvent::Written) matches (rest, SendStep::Read(want)) && rest == left
            && 0 < want <= left,
        send_step(left, SendEvent::Read(bytes)) matches (rest, SendStep::Write(out)) && out@
            == bytes@ && rest + bytes@.len() == left,
{
    get::law_chunks_make_progress(left);
}

/// As much as a chunk of 16 KiB holds is asked for at a time, less only where
/// less is left.
pub proof fn law_full_chunks_are_asked_for(left: u64)
    requires
        left > 0,
    ensures
        send_step(left, SendEvent::Written) matches (_, SendStep::Read(want)) && want == if left
            < 16384 {
            left
        } else {
            16384
        },
{
    get::law_chunks_make_progress(left);
}

} // verus!
