//! Reading a request: bytes are gathered until the header block ends, the
//! buffer is full or time is up.

use crate::bytes::bytes_at;
use crate::seqs;
use vstd::prelude::*;
use vstd::string::*;

verus! {

/// The most bytes that a request may have before its header block ends.
pub const REQUEST_LIMIT: usize = 4096;

/// How long a client has to send its header block, counted from the moment it
/// connected.
pub const HEADER_DEADLINE_NANOS: u64 = 5_000_000_000;

/// A carriage return, a line feed and the same again stand at position `i`.
pub open spec fn terminator_at(s: Seq<u8>, i: int) -> bool {
    &&& 0 <= i
    &&& i + 4 <= s.len()
    &&& s[i] == 13
    &&& s[i + 1] == 10
    &&& s[i + 2] == 13
    &&& s[i + 3] == 10
}

/// The header block ends somewhere in `s`.
pub open spec fn has_terminator(s: Seq<u8>) -> bool {
    exists|i: int| terminator_at(s, i)
}

/// Whether the header block ends in `window`, found by looking at every
/// carriage return.
pub fn rhunt_complete(window: &[u8]) -> (r: bool)
    ensures
        r == has_terminator(window@),
{
    let n = window.len();
    let mut i: usize = 0;
    while i < n
        invariant
            n == window@.len(),
            i <= n,
            forall|j: int| j < i ==> !terminator_at(window@, j),
        decreases n - i,
    {
        if window[i] == 13 && n - i >= 4 && window[i + 1] == 10 && window[i + 2] == 13 && window[i
            + 3] == 10 {
            assert(terminator_at(window@, i as int));
            return true;
        }
        i += 1;
    }
    false
}

/// Whether the header block ends in `window`: most often it ends exactly
/// where the window does.
pub fn headers_complete(window: &[u8]) -> (r: bool)
    ensures
        r == has_terminator(window@),
{
    let n = window.len();
    if n >= 4 && window[n - 4] == 13 && window[n - 3] == 10 && window[n - 2] == 13 && window[n - 1]
        == 10 {
        assert(terminator_at(window@, n - 4));
        true
    } else {
        rhunt_complete(window)
    }
}

/// Bytes that come behind bytes without a terminator complete one only where
/// it reaches into them: three bytes of overlap are enough to look at.
pub proof fn law_terminator_window(seen: Seq<u8>, fresh: Seq<u8>)
    requires
        !has_terminator(seen),
    ensures
        ({
            let from = if seen.len() >= 3 {
                seen.len() - 3
            } else {
                0
            };
            has_terminator(seen + fresh) == has_terminator((seen + fresh).skip(from))
        }),
{
    let from = if seen.len() >= 3 {
        seen.len() - 3
    } else {
        0
    };
    let all = seen + fresh;
    if has_terminator(all) {
        let i = choose|i: int| terminator_at(all, i);
        if i < from {
            assert(terminator_at(seen, i));
        }
        assert(terminator_at(all.skip(from), i - from));
    }
    if has_terminator(all.skip(from)) {
        let i = choose|i: int| terminator_at(all.skip(from), i);
        assert(terminator_at(all, i + from));
    }
}

/// What came of waiting for bytes: some arrived (none of them means that the
/// client closed), reading failed, or time was up.
pub enum ReadEvent<'a> {
    Data(&'a [u8]),
    Failed,
    Expired,
}

impl<'a> View for ReadEvent<'a> {
    type V = Option<Seq<u8>>;

    open spec fn view(&self) -> Option<Seq<u8>> {
        match self {
            ReadEvent::Data(chunk) => Some(chunk@),
            _ => None,
        }
    }
}

/// What to do next with a connection.
#[derive(Clone, Copy, Debug, PartialEq, Eq, Structural)]
pub enum ReadStep {
    /// Wait for more bytes.
    More,
    /// The header block is complete: answer the request.
    Dispatch,
    /// Close without an answer.
    Close,
}

/// What the bytes gathered so far call for.
pub open spec fn step_for(data: Seq<u8>) -> ReadStep {
    if has_terminator(data) {
        ReadStep::Dispatch
    } else if data.len() >= REQUEST_LIMIT {
        ReadStep::Close
    } else {
        ReadStep::More
    }
}

/// What to do when bytes arrive behind `data`, or when none can be had.
pub open spec fn next_step(data: Seq<u8>, arrived: Option<Seq<u8>>) -> ReadStep {
    match arrived {
        Some(chunk) => if chunk.len() == 0 {
            ReadStep::Close
        } else {
            step_for(data + chunk)
        },
        None => ReadStep::Close,
    }
}

/// The bytes of a request as they come in.
pub struct RequestBuffer {
    data: Vec<u8>,
}

impl View for RequestBuffer {
    type V = Seq<u8>;

    closed spec fn view(&self) -> Seq<u8> {
        self.data@
    }
}

impl RequestBuffer {
    /// The request is not complete yet and there is room for more of it.
    pub open spec fn is_open(&self) -> bool {
        step_for(self@) == ReadStep::More
    }

    /// An empty buffer.
    pub fn new() -> (r: RequestBuffer)
        ensures
            r@ == Seq::<u8>::empty(),
            r.is_open(),
    {
        RequestBuffer { data: Vec::new() }
    }

    /// How many more bytes fit.
    pub fn room(&self) -> (n: usize)
        requires
            self@.len() <= REQUEST_LIMIT,
        ensures
            n == REQUEST_LIMIT - self@.len(),
    {
        REQUEST_LIMIT - self.data.len()
    }

    /// The bytes gathered so far.
    pub fn request(&self) -> (r: &[u8])
        ensures
            r@ == self@,
    {
        self.data.as_slice()
    }

    /// Takes in what arrived and says what to do next. Only the fresh bytes,
    /// and the three before them, are looked at.
    pub fn on_read(&mut self, event: ReadEvent<'_>) -> (step: ReadStep)
        requires
            old(self).is_open(),
            event matches ReadEvent::Data(chunk) ==> old(self)@.len() + chunk@.len()
                <= REQUEST_LIMIT,
        ensures
            match event {
                ReadEvent::Data(chunk) => {
                    &&& final(self)@ == old(self)@ + chunk@
                    &&& step == if chunk@.len() == 0 {
                        ReadStep::Close
                    } else {
                        step_for(final(self)@)
                    }
                },
                _ => final(self)@ == old(self)@ && step == ReadStep::Close,
            },
            step == next_step(old(self)@, event@),
    {
        match event {
            ReadEvent::Data(chunk) => {
                let prev = self.data.len();
                let ghost seen = self.data@;
                self.data.extend_from_slice(chunk);
                assert(self.data@ =~= seen + chunk@);
                if chunk.len() == 0 {
                    return ReadStep::Close;
                }
                let from = prev.saturating_sub(3);
                let len = self.data.len();
                let window = &self.data.as_slice()[from..len];
                proof {
                    assert(window@ =~= (seen + chunk@).skip(from as int));
                    law_terminator_window(seen, chunk@);
                }
                if headers_complete(window) {
                    ReadStep::Dispatch
                } else if len == REQUEST_LIMIT {
                    ReadStep::Close
                } else {
                    ReadStep::More
                }
            },
            ReadEvent::Failed => ReadStep::Close,
            ReadEvent::Expired => ReadStep::Close,
        }
    }
}

/// The request that is answered when `chunks` arrive one after the other
/// behind `data`: none if the connection is closed, or the header block has
/// not ended, before.
pub open spec fn dispatched(data: Seq<u8>, chunks: Seq<Seq<u8>>) -> Option<Seq<u8>>
    decreases chunks.len(),
{
    if chunks.len() == 0 {
        None
    } else {
        let next = data + chunks[0];
        match next_step(data, Some(chunks[0])) {
            ReadStep::Dispatch => Some(next),
            ReadStep::Close => None,
            ReadStep::More => dispatched(next, chunks.drop_first()),
        }
    }
}

/// However the bytes of a request are split into reads, it is answered
/// exactly if its header block ends in them, and what is answered is a prefix
/// of them that holds the end of the header block.
pub proof fn law_framing_ignores_chunking(chunks: Seq<Seq<u8>>)
    requires
        forall|i: int| 0 <= i < chunks.len() ==> (#[trigger] chunks[i]).len() > 0,
        chunks.flatten().len() <= REQUEST_LIMIT,
    ensures
        dispatched(Seq::empty(), chunks) is Some <==> has_terminator(chunks.flatten()),
        dispatched(Seq::empty(), chunks) matches Some(req) ==> has_terminator(req)
            && req.len() <= chunks.flatten().len() && chunks.flatten().take(req.len() as int)
            == req,
{
    let e: Seq<u8> = Seq::empty();
    assert(e + chunks.flatten() =~= chunks.flatten());
    lemma_dispatched(e, chunks);
}

proof fn lemma_dispatched(data: Seq<u8>, chunks: Seq<Seq<u8>>)
    requires
        !has_terminator(data),
        forall|i: int| 0 <= i < chunks.len() ==> (#[trigger] chunks[i]).len() > 0,
        data.len() + chunks.flatten().len() <= REQUEST_LIMIT,
    ensures
        ({
            let all = data + chunks.flatten();
            &&& dispatched(data, chunks) is Some <==> has_terminator(all)
            &&& dispatched(data, chunks) matches Some(req) ==> has_terminator(req) && req.len()
                <= all.len() && all.take(req.len() as int) == req
        }),
    decreases chunks.len(),
{
    let all = data + chunks.flatten();
    if chunks.len() == 0 {
        assert(all =~= data);
    } else {
        let next = data + chunks[0];
        let rest = chunks.drop_first();
        assert(chunks[0].len() > 0);
        assert(all =~= next + rest.flatten());
        if has_terminator(next) {
            let i = choose|i: int| terminator_at(next, i);
            assert(terminator_at(all, i));
            assert(all.take(next.len() as int) =~= next);
        } else {
            assert forall|i: int| 0 <= i < rest.len() implies (#[trigger] rest[i]).len() > 0 by {
                assert(chunks[i + 1].len() > 0);
            }
            if next.len() >= REQUEST_LIMIT {
                assert(rest.flatten().len() == 0);
                assert(all =~= next);
            } else {
                lemma_dispatched(next, rest);
            }
        }
    }
}

/// The time that is left to complete the header block, `elapsed` after the
/// client connected.
pub open spec fn time_left(elapsed: u64) -> int {
    if elapsed < HEADER_DEADLINE_NANOS {
        HEADER_DEADLINE_NANOS - elapsed
    } else {
        0
    }
}

/// The time that is left to complete the header block, `elapsed` after the
/// client connected. It does not depend on how many bytes have come since.
pub fn header_time_left(elapsed: u64) -> (left: u64)
    ensures
        left == time_left(elapsed),
{
    HEADER_DEADLINE_NANOS.saturating_sub(elapsed)
}

/// The methods that are told apart.
#[derive(Clone, Copy, Debug, PartialEq, Eq, Structural)]
pub enum Method {
    Get,
    Post,
    /// Everything else: such a request gets no answer.
    Other,
}

/// The method of a request: case counts, and so does the space behind it.
pub open spec fn method_of(req: Seq<u8>) -> Method {
    if seqs::starts_with(req, "GET ".spec_bytes()) {
        Method::Get
    } else if seqs::starts_with(req, "POST ".spec_bytes()) {
        Method::Post
    } else {
        Method::Other
    }
}

/// The method of a request.
pub fn classify(req: &[u8]) -> (m: Method)
    ensures
        m == method_of(req@),
{
    if bytes_at(req, "GET ".as_bytes(), 0) {
        Method::Get
    } else if bytes_at(req, "POST ".as_bytes(), 0) {
        Method::Post
    } else {
        Method::Other
    }
}

/// The header block ends exactly where an empty line does: two line ends in a
/// row.
pub proof fn law_an_empty_line_ends_the_header(s: Seq<u8>)
    ensures
        has_terminator(s) <==> seqs::contains_seq(s, "\r\n\r\n".spec_bytes()),
{
    let pat = "\r\n\r\n".spec_bytes();
    reveal_strlit("\r\n\r\n");
    assert("\r\n\r\n".is_ascii());
    assert(pat.len() == 4);
    assert(pat =~= seq![13u8, 10u8, 13u8, 10u8]);
    if has_terminator(s) {
        let i = choose|i: int| terminator_at(s, i);
        assert(s.subrange(i, i + 4) =~= pat);
        assert(seqs::occurs_at(s, pat, i));
    }
    if seqs::contains_seq(s, pat) {
        let i = choose|i: int| seqs::occurs_at(s, pat, i);
        let found = s.subrange(i, i + 4);
        assert(found[0] == 13 && found[1] == 10 && found[2] == 13 && found[3] == 10);
        assert(terminator_at(s, i));
    }
}

/// A connection is closed where nothing arrives: reading failed, time was up,
/// or the client has closed. Where something does, the request is answered
/// exactly if its header block has ended, and the connection is closed exactly
/// if it has not ended though 4096 bytes have come.
pub proof fn law_reading_ends(data: Seq<u8>, arrived: Seq<u8>)
    ensures
        next_step(data, None) == ReadStep::Close,
        next_step(data, Some(Seq::empty())) == ReadStep::Close,
        arrived.len() > 0 ==> {
            let all = data + arrived;
            let ended = seqs::contains_seq(all, "\r\n\r\n".spec_bytes());
            &&& next_step(data, Some(arrived)) == ReadStep::Dispatch <==> ended
            &&& next_step(data, Some(arrived)) == ReadStep::Close <==> !ended && all.len() >= 4096
            &&& next_step(data, Some(arrived)) == ReadStep::More <==> !ended && all.len() < 4096
        },
{
    law_an_empty_line_ends_the_header(data + arrived);
}

/// A client has five seconds in all: what has passed and what is left add up
/// to them, until nothing is left.
pub proof fn law_a_client_has_five_seconds(elapsed: u64)
    ensures
        elapsed <= 5_000_000_000 ==> elapsed + time_left(elapsed) == 5_000_000_000,
        elapsed >= 5_000_000_000 ==> time_left(elapsed) == 0,
{
}

/// A request is told by its first bytes, up to and with the first space.
pub proof fn law_methods_are_told_by_their_names(req: Seq<u8>)
    ensures
        method_of(req) == Method::Get <==> req.len() >= 4 && req.take(4) == seq![
            'G' as u8,
            'E' as u8,
            'T' as u8,
            ' ' as u8,
        ],
        method_of(req) == Method::Post <==> req.len() >= 5 && req.take(5) == seq![
            'P' as u8,
            'O' as u8,
            'S' as u8,
            'T' as u8,
            ' ' as u8,
        ],
{
    let get = "GET ".spec_bytes();
    let post = "POST ".spec_bytes();
    reveal_strlit("GET ");
    reveal_strlit("POST ");
    assert("GET ".is_ascii());
    assert("POST ".is_ascii());
    assert(get =~= seq!['G' as u8, 'E' as u8, 'T' as u8, ' ' as u8]);
    assert(post =~= seq!['P' as u8, 'O' as u8, 'S' as u8, 'T' as u8, ' ' as u8]);
    if req.len() >= 4 {
        assert(req.subrange(0, 4) =~= req.take(4));
        if req.take(4) == get {
            assert(req[0] == req.take(4)[0]);
        }
    }
    if req.len() >= 5 {
        assert(req.subrange(0, 5) =~= req.take(5));
        if req.take(5) == post {
            assert(req[0] == req.take(5)[0]);
        }
    }
}

} // verus!
