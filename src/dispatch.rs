use vstd::prelude::*;
use crate::device::{write_outcome, write_report, LwnxError};
use crate::packet::{create_packet_bytes, encode_spec, MAX_DATA_LEN};
use crate::response::{completed_frame, parse_step, parser_wf, ParserView, Response, ResponseParseState};
use crate::framing::{
    checksum_ok, completes_at, feed, frame_header_ok, lemma_encoded_frame, lemma_feed_take_step, lemma_two_frames,
    max_parsed_data_len,
};

verus! {

/// What the driver of a command has to do next.
#[derive(Debug, Clone, Copy)]
pub enum Action {
    /// Write the request packet, then report the outcome with `on_write`
    /// and start the attempt's clock.
    Write,
    /// Read from the transport and report the outcome with `on_read`.
    Read,
    /// The command is over, with this result.
    Done(Result<(), LwnxError>),
}

/// A command in flight as a mathematical value.
pub struct DispatchView {
    pub command_id: u8,
    pub packet: Seq<u8>,
    pub retries: int,
    pub timeout: u64,
    /// Writes made so far, one for each attempt.
    pub attempts: int,
    pub parser: ParserView,
}

/// The fields hold together.
pub open spec fn dispatch_wf(s: DispatchView) -> bool {
    &&& parser_wf(s.parser)
    &&& 0 <= s.attempts
    &&& s.attempts <= s.retries || s.attempts == 0
    &&& s.retries <= i32::MAX
    &&& 6 <= s.packet.len() <= MAX_DATA_LEN + 6
}

/// Begins an attempt if one is left, else the command has run out of them.
pub open spec fn next_attempt(s: DispatchView) -> (DispatchView, Action) {
    if s.attempts < s.retries {
        (s, Action::Write)
    } else {
        (s, Action::Done(Err(LwnxError::CommandRetriesExhausted)))
    }
}

/// After the request was written: a full write starts a fresh receive, any
/// other report ends the command with a write error.
pub open spec fn write_spec(s: DispatchView, r: Result<usize, LwnxError>) -> (DispatchView, Action) {
    match write_outcome(r, s.packet.len()) {
        Ok(_) => if s.attempts < s.retries {
            (
                DispatchView {
                    attempts: s.attempts + 1,
                    parser: ParserView {
                        size: 0,
                        remaining: 0,
                        state: ResponseParseState::StartByte,
                        ..s.parser
                    },
                    ..s
                },
                Action::Read,
            )
        } else {
            (s, Action::Done(Err(LwnxError::CommandRetriesExhausted)))
        },
        Err(e) => (s, Action::Done(Err(e))),
    }
}

/// After a read, given the milliseconds since the attempt's write: a read
/// failure ends the command; a byte goes to the parser, and a valid frame
/// for this command ends it with success; frames for other commands and
/// bad frames are dropped; once the attempt's time is up, the next attempt
/// begins.
pub open spec fn read_spec(s: DispatchView, r: Result<Option<u8>, LwnxError>, elapsed_ms: u64) -> (
    DispatchView,
    Action,
) {
    match r {
        Err(_) => (s, Action::Done(Err(LwnxError::ReadError))),
        Ok(b) => {
            let (p, complete) = match b {
                Some(b) => parse_step(s.parser, b),
                None => (s.parser, false),
            };
            let s1 = DispatchView { parser: p, ..s };
            if complete && p.data[3] == s.command_id {
                (s1, Action::Done(Ok(())))
            } else if elapsed_ms >= s.timeout {
                next_attempt(s1)
            } else {
                (s1, Action::Read)
            }
        },
    }
}

/// One request/response exchange under a retry and timeout policy, driven
/// from outside one step at a time.
pub struct Dispatcher {
    command_id: u8,
    packet: Vec<u8>,
    retries: i32,
    timeout: u64,
    attempts: i32,
    response: Response,
}

impl View for Dispatcher {
    type V = DispatchView;

    closed spec fn view(&self) -> DispatchView {
        DispatchView {
            command_id: self.command_id,
            packet: self.packet@,
            retries: self.retries as int,
            timeout: self.timeout,
            attempts: self.attempts as int,
            parser: self.response@,
        }
    }
}

impl Dispatcher {
    pub open spec fn wf(&self) -> bool {
        dispatch_wf(self@)
    }

    /// A command `command_id` with the given write flag and data, to be
    /// tried at most `retries` times, each attempt waiting `timeout` ms.
    pub fn new(command_id: u8, write: bool, data: &[u8], retries: i32, timeout: u64) -> (r:
        Dispatcher)
        requires
            data@.len() <= MAX_DATA_LEN,
        ensures
            r.wf(),
            r@.command_id == command_id,
            r@.packet == encode_spec(command_id, write, data@),
            r@.retries == retries as int,
            r@.timeout == timeout,
            r@.attempts == 0,
            r@.parser.state == ResponseParseState::StartByte,
    {
        let mut packet: Vec<u8> = vec![0u8; data.len() + 6];
        create_packet_bytes(packet.as_mut_slice(), command_id, write, data);
        proof {
            assert(packet@ =~= encode_spec(command_id, write, data@));
        }
        Dispatcher { command_id, packet, retries, timeout, attempts: 0, response: Response::new() }
    }

    /// The request packet to write.
    pub fn packet(&self) -> (r: &[u8])
        ensures
            r@ == self@.packet,
    {
        self.packet.as_slice()
    }

    /// The parser that holds the response frame.
    pub fn response(&self) -> (r: &Response)
        ensures
            r@ == self@.parser,
    {
        &self.response
    }

    /// The first step of the command.
    pub fn start(&self) -> (r: Action)
        ensures
            r == next_attempt(self@).1,
    {
        if self.attempts < self.retries {
            Action::Write
        } else {
            Action::Done(Err(LwnxError::CommandRetriesExhausted))
        }
    }

    /// Takes the transport's report on writing the request packet.
    pub fn on_write(&mut self, r: Result<usize, LwnxError>) -> (a: Action)
        requires
            old(self).wf(),
        ensures
            final(self).wf(),
            (final(self)@, a) == write_spec(old(self)@, r),
    {
        if write_report(r, self.packet.len()).is_err() {
            Action::Done(Err(LwnxError::WriteError))
        } else if self.attempts < self.retries {
            self.attempts = self.attempts + 1;
            self.response.reset();
            Action::Read
        } else {
            Action::Done(Err(LwnxError::CommandRetriesExhausted))
        }
    }

    /// Takes the outcome of one read (a byte, or none within the
    /// transport's wait) and the milliseconds since the attempt's write.
    pub fn on_read(&mut self, r: Result<Option<u8>, LwnxError>, elapsed_ms: u64) -> (a: Action)
        requires
            old(self).wf(),
        ensures
            final(self).wf(),
            (final(self)@, a) == read_spec(old(self)@, r, elapsed_ms),
            a == Action::Done(Ok(())) ==> completed_frame(final(self)@.parser)
                && final(self)@.parser.data[3] == final(self)@.command_id,
    {
        match r {
            Err(_) => Action::Done(Err(LwnxError::ReadError)),
            Ok(b) => {
                let complete = match b {
                    Some(b) => self.response.parse_data(b),
                    None => false,
                };
                if complete && self.response.get_command() == self.command_id {
                    Action::Done(Ok(()))
                } else if elapsed_ms >= self.timeout {
                    self.start()
                } else {
                    Action::Read
                }
            },
        }
    }
}

/// One attempt in which the request is written whole and nothing arrives
/// before the attempt's time is up.
pub open spec fn silent_attempt(s: DispatchView) -> (DispatchView, Action) {
    let s1 = write_spec(s, Ok(s.packet.len() as usize)).0;
    read_spec(s1, Ok(None), s.timeout)
}

/// The command after `k` such attempts.
pub open spec fn silent_run(s: DispatchView, k: nat) -> DispatchView
    decreases k,
{
    if k == 0 {
        s
    } else {
        silent_attempt(silent_run(s, (k - 1) as nat)).0
    }
}

proof fn lemma_silent_run(s: DispatchView, k: nat)
    requires
        dispatch_wf(s),
        s.attempts == 0,
        k <= s.retries,
    ensures
        dispatch_wf(silent_run(s, k)),
        silent_run(s, k).attempts == k,
        silent_run(s, k).retries == s.retries,
        silent_run(s, k).packet == s.packet,
        silent_run(s, k).timeout == s.timeout,
    decreases k,
{
    if k > 0 {
        lemma_silent_run(s, (k - 1) as nat);
    }
}

/// Retry accounting: when every read comes back empty until the time is
/// up, a command with `retries` attempts writes its request exactly
/// `retries` times, asks for the next write after each attempt but the
/// last, and ends with `CommandRetriesExhausted` after the last; with no
/// attempts it ends at once without writing.
pub proof fn lemma_retries_exhausted(s: DispatchView)
    requires
        dispatch_wf(s),
        s.attempts == 0,
    ensures
        s.retries <= 0 ==> next_attempt(s).1 == Action::Done(
            Err(LwnxError::CommandRetriesExhausted),
        ),
        s.retries > 0 ==> next_attempt(s).1 == Action::Write,
        forall|k: nat| 1 <= k < s.retries ==> (#[trigger] silent_run(s, k)).attempts == k && silent_attempt(
            silent_run(s, (k - 1) as nat),
        ).1 == Action::Write,
        s.retries > 0 ==> silent_run(s, s.retries as nat).attempts == s.retries && silent_attempt(
            silent_run(s, (s.retries - 1) as nat),
        ).1 == Action::Done(Err(LwnxError::CommandRetriesExhausted)),
{
    assert forall|k: nat| 1 <= k < s.retries implies (#[trigger] silent_run(s, k)).attempts == k
        && silent_attempt(silent_run(s, (k - 1) as nat)).1 == Action::Write by {
        lemma_silent_attempt(s, k);
    }
    if s.retries > 0 {
        lemma_silent_attempt(s, s.retries as nat);
    }
}

/// The `k`-th silent attempt: `k` writes have been made, and the command
/// asks for another write unless that was the last attempt.
proof fn lemma_silent_attempt(s: DispatchView, k: nat)
    requires
        dispatch_wf(s),
        s.attempts == 0,
        1 <= k <= s.retries,
    ensures
        silent_run(s, k).attempts == k,
        silent_attempt(silent_run(s, (k - 1) as nat)).1 == if k < s.retries {
            Action::Write
        } else {
            Action::Done(Err(LwnxError::CommandRetriesExhausted))
        },
{
    lemma_silent_run(s, (k - 1) as nat);
    let p = silent_run(s, (k - 1) as nat);
    let s1 = write_spec(p, Ok(p.packet.len() as usize)).0;
    assert(write_outcome(Ok(p.packet.len() as usize), p.packet.len()) is Ok);
    assert(s1.attempts == k && s1.retries == s.retries && s1.timeout == s.timeout);
}

/// The command after the reads that delivered `bytes`, all within the
/// attempt's time, stopping at the first that ends it.
pub open spec fn read_bytes(s: DispatchView, bytes: Seq<u8>, elapsed_ms: u64) -> (
    DispatchView,
    Action,
)
    decreases bytes.len(),
{
    if bytes.len() == 0 {
        (s, Action::Read)
    } else {
        let (s1, a1) = read_bytes(s, bytes.drop_last(), elapsed_ms);
        if a1 is Read {
            read_spec(s1, Ok(Some(bytes.last())), elapsed_ms)
        } else {
            (s1, a1)
        }
    }
}

proof fn lemma_read_prefix(s: DispatchView, bytes: Seq<u8>, elapsed_ms: u64, i: int)
    requires
        0 <= i <= bytes.len(),
        elapsed_ms < s.timeout,
        forall|j: int|
            0 <= j < i ==> completes_at(s.parser, bytes, j) ==> feed(s.parser, bytes.take(j + 1)).data[3]
                != s.command_id,
    ensures
        read_bytes(s, bytes.take(i), elapsed_ms) == (DispatchView {
            parser: feed(s.parser, bytes.take(i)),
            ..s
        }, Action::Read),
    decreases i,
{
    if i == 0 {
        assert(bytes.take(0) =~= Seq::<u8>::empty());
    } else {
        lemma_read_prefix(s, bytes, elapsed_ms, i - 1);
        assert(bytes.take(i).drop_last() =~= bytes.take(i - 1));
        assert(bytes.take(i).last() == bytes[i - 1]);
        lemma_feed_take_step(s.parser, bytes, i - 1);
        let p = feed(s.parser, bytes.take(i - 1));
        let st = parse_step(p, bytes[i - 1]);
        assert(st.1 == completes_at(s.parser, bytes, i - 1));
        assert(st.1 ==> st.0.data[3] != s.command_id);
    }
}

/// Skipping: while a command waits for its response, a valid frame for
/// another command followed by a valid frame for this one, all within the
/// attempt's time, ends the command with success at the second frame's
/// last byte, holding the second frame's data.
pub proof fn lemma_skips_other_command(
    s: DispatchView,
    other_id: u8,
    other_write: bool,
    other_data: Seq<u8>,
    write: bool,
    data: Seq<u8>,
    elapsed_ms: u64,
)
    requires
        dispatch_wf(s),
        s.parser.state == ResponseParseState::StartByte,
        elapsed_ms < s.timeout,
        other_id != s.command_id,
        other_data.len() <= max_parsed_data_len(),
        data.len() <= max_parsed_data_len(),
    ensures
        ({
            let bytes = encode_spec(other_id, other_write, other_data) + encode_spec(
                s.command_id,
                write,
                data,
            );
            let end = read_bytes(s, bytes, elapsed_ms);
            &&& forall|i: int| 0 <= i < bytes.len() ==> read_bytes(s, bytes.take(i), elapsed_ms).1 is Read
            &&& end.1 == Action::Done(Ok(()))
            &&& end.0.parser.data[3] == s.command_id
            &&& end.0.parser.data.subrange(4, 4 + data.len() as int) == data
        }),
{
    let fa = encode_spec(other_id, other_write, other_data);
    let fb = encode_spec(s.command_id, write, data);
    let bytes = fa + fb;
    let n = bytes.len() as int;
    lemma_encoded_frame(other_id, other_write, other_data);
    lemma_encoded_frame(s.command_id, write, data);
    lemma_other_frame_dropped(s, fa, fb);
    assert forall|i: int| 0 <= i < n implies read_bytes(s, bytes.take(i), elapsed_ms).1 is Read by {
        lemma_read_prefix(s, bytes, elapsed_ms, i);
    }
    lemma_read_prefix(s, bytes, elapsed_ms, n - 1);
    lemma_last_step(s, bytes, elapsed_ms, fb, data);
}

proof fn lemma_other_frame_dropped(s: DispatchView, fa: Seq<u8>, fb: Seq<u8>)
    requires
        dispatch_wf(s),
        s.parser.state == ResponseParseState::StartByte,
        frame_header_ok(fa),
        checksum_ok(fa),
        frame_header_ok(fb),
        checksum_ok(fb),
        fa[3] != s.command_id,
    ensures
        forall|j: int|
            0 <= j < (fa + fb).len() - 1 ==> completes_at(s.parser, fa + fb, j) ==> feed(
                s.parser,
                (fa + fb).take(j + 1),
            ).data[3] != s.command_id,
        completes_at(s.parser, fa + fb, (fa + fb).len() - 1),
        feed(s.parser, fa + fb).data.subrange(0, fb.len() as int) == fb,
        feed(s.parser, fa + fb).data.len() >= fb.len(),
{
    let bytes = fa + fb;
    lemma_two_frames(s.parser, fa, fb);
    let ta = feed(s.parser, bytes.take(fa.len() as int));
    assert(ta.data[3] == ta.data.subrange(0, fa.len() as int)[3]);
    assert forall|j: int|
        0 <= j < bytes.len() - 1 && completes_at(s.parser, bytes, j) implies feed(
        s.parser,
        bytes.take(j + 1),
    ).data[3] != s.command_id by {
        assert(j == fa.len() - 1);
    }
}

proof fn lemma_last_step(s: DispatchView, bytes: Seq<u8>, elapsed_ms: u64, fb: Seq<u8>, data: Seq<u8>)
    requires
        bytes.len() >= fb.len(),
        fb.len() == data.len() + 6,
        feed(s.parser, bytes).data.len() >= fb.len(),
        fb[3] == s.command_id,
        fb.subrange(4, 4 + data.len() as int) == data,
        read_bytes(s, bytes.take(bytes.len() - 1), elapsed_ms) == (DispatchView {
            parser: feed(s.parser, bytes.take(bytes.len() - 1)),
            ..s
        }, Action::Read),
        completes_at(s.parser, bytes, bytes.len() - 1),
        feed(s.parser, bytes).data.subrange(0, fb.len() as int) == fb,
    ensures
        ({
            let end = read_bytes(s, bytes, elapsed_ms);
            &&& end.1 == Action::Done(Ok(()))
            &&& end.0.parser.data[3] == s.command_id
            &&& end.0.parser.data.subrange(4, 4 + data.len() as int) == data
        }),
{
    let n = bytes.len() as int;
    lemma_feed_take_step(s.parser, bytes, n - 1);
    assert(bytes.take(n) =~= bytes);
    assert(bytes.drop_last() =~= bytes.take(n - 1));
    let w = feed(s.parser, bytes);
    assert(w.data[3] == w.data.subrange(0, fb.len() as int)[3]);
    assert(w.data.subrange(4, 4 + data.len() as int) =~= fb.subrange(4, 4 + data.len() as int));
}

} // verus!
