//! One API request as a state machine: connect, send the TLS ClientHello,
//! collect the server's handshake flight, send the encrypted request once the
//! server is verified, collect the encrypted reply.
//!
//! The sockets, the clock and the TLS engine belong to the caller. `poll` says
//! which outside operation comes next; the caller performs it and reports the
//! outcome through the matching method, which decides what follows.
use vstd::prelude::*;
use crate::protocol::{Endpoint, MAX_RESPONSE};

verus! {

/// How long a whole request may take, in milliseconds.
pub const TOTAL_DEADLINE_MS: i64 = 180_000;

/// How long the reply may stay silent, in milliseconds.
pub const REPLY_IDLE_MS: i64 = 90_000;

/// How long the server's handshake may stay silent, in milliseconds.
pub const HANDSHAKE_IDLE_MS: i64 = 20_000;

/// The most bytes handed to one socket send.
pub const SEND_CHUNK: usize = 1200;

/// The most bytes one socket receive yields.
pub const RECEIVE_BUFFER: usize = 4096;

/// The most bytes of server handshake collected.
pub const MAX_FLIGHT: usize = 128 * 1024;

/// The most encrypted reply bytes collected.
pub const MAX_ENCRYPTED: usize = MAX_RESPONSE + 32768;

/// The outside operation that comes next.
pub enum Step {
    /// The request has failed; drop the job and show the message.
    Fail(&'static str),
    /// Look up the socket service, open a socket, connect to the endpoint and
    /// build the TLS ClientHello; report with `connected`.
    Connect,
    /// Send `outgoing()[start..end]`; report with `sent`.
    Send { start: usize, end: usize },
    /// Receive server handshake bytes; report with `handshake_received`.
    ReceiveHandshake,
    /// Receive encrypted reply bytes; report with `reply_received`.
    ReceiveReply,
}

/// How the connection attempt of `Step::Connect` ended.
pub enum ConnectOutcome {
    NoNetworkService,
    SocketUnavailable,
    ConnectFailed,
    TlsInitFailed,
    /// Connected; the ClientHello record to send.
    Ready(Vec<u8>),
}

/// The state of a job.
pub struct JobView {
    /// 0 connect, 1 send ClientHello, 2 receive handshake, 3 send request, 4 receive reply.
    pub stage: u8,
    /// The plaintext HTTP request; wiped once handed to TLS.
    pub request: Seq<u8>,
    /// The record being sent.
    pub outgoing: Seq<u8>,
    /// How much of `outgoing` has been sent.
    pub offset: nat,
    /// The server handshake bytes received.
    pub flight: Seq<u8>,
    /// The encrypted reply bytes received.
    pub encrypted: Seq<u8>,
    pub started: int,
    pub last_data: int,
    /// The wall-clock time used for certificate checks.
    pub wall: u64,
}

impl JobView {
    pub open spec fn inv(self) -> bool {
        &&& self.stage <= 4
        &&& self.offset <= self.outgoing.len() <= usize::MAX
        &&& self.flight.len() <= MAX_FLIGHT
        &&& self.encrypted.len() <= MAX_ENCRYPTED
        &&& 0 <= self.started
        &&& 0 <= self.last_data
    }
}

/// The next step at time `now`.
pub open spec fn poll_spec(v: JobView, now: int) -> Step {
    if now - v.started > TOTAL_DEADLINE_MS || (v.stage >= 4 && now - v.last_data > REPLY_IDLE_MS) {
        Step::Fail("Request timed out. Please try again.")
    } else if v.stage == 0 {
        Step::Connect
    } else if v.stage == 1 || v.stage == 3 {
        let end = if v.offset + SEND_CHUNK <= v.outgoing.len() {
            v.offset + SEND_CHUNK
        } else {
            v.outgoing.len() as int
        };
        Step::Send { start: v.offset as usize, end: end as usize }
    } else if v.stage == 2 {
        if now - v.last_data > HANDSHAKE_IDLE_MS {
            Step::Fail("TLS handshake timed out.")
        } else {
            Step::ReceiveHandshake
        }
    } else if v.stage == 4 {
        Step::ReceiveReply
    } else {
        Step::Fail("Invalid connection state.")
    }
}

/// The message for a failed connection attempt.
pub open spec fn connect_error(o: ConnectOutcome) -> &'static str {
    match o {
        ConnectOutcome::NoNetworkService => "NONOS network service is unavailable.",
        ConnectOutcome::SocketUnavailable => "Could not open a network socket.",
        ConnectOutcome::ConnectFailed => "DNS lookup or TCP connection failed.",
        _ => "TLS initialization failed.",
    }
}

/// What `Job::connected` answers and leaves.
pub open spec fn connected_next(v: JobView, o: ConnectOutcome) -> (Result<(), &'static str>, JobView) {
    match o {
        ConnectOutcome::Ready(record) => (
            Ok(()),
            JobView { stage: 1, outgoing: record@, offset: 0, ..v },
        ),
        _ => (Err(connect_error(o)), v),
    }
}

/// What `Job::sent` answers and leaves after `outgoing[offset..end]` was (or
/// was not) sent at time `now`.
pub open spec fn sent_next(v: JobView, end: nat, ok: bool, now: int) -> (
    Result<(), &'static str>,
    JobView,
) {
    if !ok {
        (Err("Network error while sending."), v)
    } else if end < v.outgoing.len() {
        (Ok(()), JobView { offset: end, ..v })
    } else {
        (
            Ok(()),
            JobView {
                stage: (v.stage + 1) as u8,
                outgoing: Seq::empty(),
                offset: 0,
                last_data: now,
                ..v
            },
        )
    }
}

/// What `Job::handshake_received` answers and leaves after receiving `data`.
pub open spec fn handshake_received_next(v: JobView, data: Seq<u8>, now: int) -> (
    Result<(), &'static str>,
    JobView,
) {
    if data.len() == 0 {
        (Ok(()), v)
    } else if v.flight.len() + data.len() > MAX_FLIGHT {
        (Err("TLS handshake is too large."), JobView { last_data: now, ..v })
    } else {
        (Ok(()), JobView { flight: v.flight + data, last_data: now, ..v })
    }
}

pub open spec fn opt_bytes(o: Option<Vec<u8>>) -> Option<Seq<u8>> {
    match o {
        Some(b) => Some(b@),
        None => None,
    }
}

/// What `Job::handshake_verified` answers and leaves.
pub open spec fn verified_next(v: JobView, record: Option<Seq<u8>>, verified: bool) -> (
    Result<(), &'static str>,
    JobView,
) {
    match record {
        None => (Err("TLS certificate or handshake is invalid. The request was not sent."), v),
        Some(rec) => if !verified {
            (Err("TLS server verification failed."), v)
        } else {
            (Ok(()), JobView { stage: 3, request: Seq::empty(), outgoing: rec, offset: 0, ..v })
        },
    }
}

/// What `Job::reply_received` answers and leaves after receiving `data`.
pub open spec fn reply_received_next(v: JobView, data: Seq<u8>, now: int) -> (
    Result<bool, &'static str>,
    JobView,
) {
    if data.len() == 0 {
        (Ok(false), v)
    } else if v.encrypted.len() + data.len() > MAX_ENCRYPTED {
        (Err("Response is too large."), JobView { last_data: now, ..v })
    } else {
        (Ok(true), JobView { encrypted: v.encrypted + data, last_data: now, ..v })
    }
}

/// `Zeroize::zeroize` on a `Vec<u8>`: the bytes and the spare capacity are
/// overwritten with zeros, then the vector is cleared. The contract states the
/// clearing; that the old bytes were overwritten in memory is not expressible here.
#[verifier::external_body]
pub(crate) fn wipe_bytes(v: &mut Vec<u8>)
    ensures
        final(v)@.len() == 0,
{
    zeroize::Zeroize::zeroize(v)
}

/// `Zeroize::zeroize` on a `Vec<char>`: as `wipe_bytes`, for characters.
#[verifier::external_body]
pub(crate) fn wipe_chars(v: &mut Vec<char>)
    ensures
        final(v)@.len() == 0,
{
    zeroize::Zeroize::zeroize(v)
}

fn append_bytes(dst: &mut Vec<u8>, src: &[u8])
    ensures
        final(dst)@ == old(dst)@ + src@,
{
    let ghost before = dst@;
    let mut i: usize = 0;
    while i < src.len()
        invariant
            i <= src@.len(),
            dst@ == before + src@.subrange(0, i as int),
        decreases src@.len() - i,
    {
        dst.push(src[i]);
        i = i + 1;
        assert(dst@ =~= before + src@.subrange(0, i as int));
    }
    assert(src@.subrange(0, src@.len() as int) =~= src@);
}

/// One request in flight.
pub struct Job {
    endpoint: Endpoint,
    stage: u8,
    request: Vec<u8>,
    outgoing: Vec<u8>,
    offset: usize,
    flight: Vec<u8>,
    encrypted: Vec<u8>,
    started: i64,
    last_data: i64,
    wall: u64,
}

impl View for Job {
    type V = JobView;

    closed spec fn view(&self) -> JobView {
        JobView {
            stage: self.stage,
            request: self.request@,
            outgoing: self.outgoing@,
            offset: self.offset as nat,
            flight: self.flight@,
            encrypted: self.encrypted@,
            started: self.started as int,
            last_data: self.last_data as int,
            wall: self.wall,
        }
    }
}

impl Job {
    /// The endpoint the request goes to.
    pub closed spec fn endpoint_spec(&self) -> Endpoint {
        self.endpoint
    }

    /// A job for the request bytes `request`, started at `now` (milliseconds of
    /// uptime), checking certificates against the wall-clock time `wall`.
    pub fn new(endpoint: Endpoint, request: Vec<u8>, now: i64, wall: u64) -> (r: Job)
        requires
            now >= 0,
        ensures
            r@ == (JobView {
                stage: 0,
                request: request@,
                outgoing: Seq::empty(),
                offset: 0,
                flight: Seq::empty(),
                encrypted: Seq::empty(),
                started: now as int,
                last_data: now as int,
                wall,
            }),
            r@.inv(),
            r.endpoint_spec() == endpoint,
    {
        Job {
            endpoint,
            stage: 0,
            request,
            outgoing: Vec::new(),
            offset: 0,
            flight: Vec::new(),
            encrypted: Vec::new(),
            started: now,
            last_data: now,
            wall,
        }
    }

    pub fn endpoint(&self) -> (r: &Endpoint)
        ensures
            *r == self.endpoint_spec(),
    {
        &self.endpoint
    }

    pub fn request(&self) -> (r: &[u8])
        ensures
            r@ == self@.request,
    {
        self.request.as_slice()
    }

    pub fn outgoing(&self) -> (r: &[u8])
        ensures
            r@ == self@.outgoing,
    {
        self.outgoing.as_slice()
    }

    pub fn flight(&self) -> (r: &[u8])
        ensures
            r@ == self@.flight,
    {
        self.flight.as_slice()
    }

    pub fn encrypted(&self) -> (r: &[u8])
        ensures
            r@ == self@.encrypted,
    {
        self.encrypted.as_slice()
    }

    pub fn wall(&self) -> (r: u64)
        ensures
            r == self@.wall,
    {
        self.wall
    }

    /// Which outside operation comes next at time `now`, or why the request
    /// has failed (a deadline passed).
    pub fn poll(&self, now: i64) -> (r: Step)
        requires
            self@.inv(),
            now >= 0,
        ensures
            r == poll_spec(self@, now as int),
    {
        if now - self.started > TOTAL_DEADLINE_MS || (self.stage >= 4 && now - self.last_data
            > REPLY_IDLE_MS) {
            return Step::Fail("Request timed out. Please try again.");
        }
        match self.stage {
            0 => Step::Connect,
            1 | 3 => {
                let end = if self.outgoing.len() - self.offset >= SEND_CHUNK {
                    self.offset + SEND_CHUNK
                } else {
                    self.outgoing.len()
                };
                Step::Send { start: self.offset, end }
            },
            2 => if now - self.last_data > HANDSHAKE_IDLE_MS {
                Step::Fail("TLS handshake timed out.")
            } else {
                Step::ReceiveHandshake
            },
            4 => Step::ReceiveReply,
            _ => Step::Fail("Invalid connection state."),
        }
    }

    /// Reports how `Step::Connect` ended: on success the ClientHello is sent next.
    pub fn connected(&mut self, outcome: ConnectOutcome) -> (r: Result<(), &'static str>)
        requires
            old(self)@.inv(),
            old(self)@.stage == 0,
        ensures
            final(self)@.inv(),
            final(self).endpoint_spec() == old(self).endpoint_spec(),
            (r, final(self)@) == connected_next(old(self)@, outcome),
    {
        match outcome {
            ConnectOutcome::NoNetworkService => Err("NONOS network service is unavailable."),
            ConnectOutcome::SocketUnavailable => Err("Could not open a network socket."),
            ConnectOutcome::ConnectFailed => Err("DNS lookup or TCP connection failed."),
            ConnectOutcome::TlsInitFailed => Err("TLS initialization failed."),
            ConnectOutcome::Ready(record) => {
                assert(record.len() == record@.len());
                self.outgoing = record;
                self.offset = 0;
                self.stage = 1;
                Ok(())
            },
        }
    }

    /// Reports how the send of `Step::Send { start, end }` ended. Once the whole
    /// record is sent it is wiped and the job moves on.
    pub fn sent(&mut self, end: usize, ok: bool, now: i64) -> (r: Result<(), &'static str>)
        requires
            old(self)@.inv(),
            old(self)@.stage == 1 || old(self)@.stage == 3,
            old(self)@.offset <= end <= old(self)@.outgoing.len(),
            now >= 0,
        ensures
            final(self)@.inv(),
            final(self).endpoint_spec() == old(self).endpoint_spec(),
            (r, final(self)@) == sent_next(old(self)@, end as nat, ok, now as int),
    {
        if !ok {
            return Err("Network error while sending.");
        }
        self.offset = end;
        if self.offset == self.outgoing.len() {
            wipe_bytes(&mut self.outgoing);
            assert(self.outgoing@ =~= Seq::<u8>::empty());
            self.offset = 0;
            self.stage = self.stage + 1;
            self.last_data = now;
        }
        Ok(())
    }

    /// Reports the bytes of one handshake receive (none when the socket had
    /// nothing, which is not an error). The caller then checks whether the
    /// flight is complete.
    pub fn handshake_received(&mut self, data: &[u8], now: i64) -> (r: Result<(), &'static str>)
        requires
            old(self)@.inv(),
            old(self)@.stage == 2,
            now >= 0,
            data@.len() <= RECEIVE_BUFFER,
        ensures
            final(self)@.inv(),
            final(self).endpoint_spec() == old(self).endpoint_spec(),
            (r, final(self)@) == handshake_received_next(old(self)@, data@, now as int),
    {
        if data.len() == 0 {
            return Ok(());
        }
        self.last_data = now;
        if self.flight.len() + data.len() > MAX_FLIGHT {
            return Err("TLS handshake is too large.");
        }
        append_bytes(&mut self.flight, data);
        Ok(())
    }

    /// Reports the TLS checks of a complete server flight: `record` is the
    /// encrypted request when the certificate and handshake were accepted,
    /// `verified` whether the server's Finished was verified. Only when both
    /// passed is the request released, and the plaintext copy is wiped.
    pub fn handshake_verified(&mut self, record: Option<Vec<u8>>, verified: bool) -> (r: Result<
        (),
        &'static str,
    >)
        requires
            old(self)@.inv(),
            old(self)@.stage == 2,
        ensures
            final(self)@.inv(),
            final(self).endpoint_spec() == old(self).endpoint_spec(),
            (r, final(self)@) == verified_next(old(self)@, opt_bytes(record), verified),
    {
        let rec = match record {
            None => {
                return Err("TLS certificate or handshake is invalid. The request was not sent.");
            },
            Some(rec) => rec,
        };
        if !verified {
            return Err("TLS server verification failed.");
        }
        assert(rec.len() == rec@.len());
        self.outgoing = rec;
        self.offset = 0;
        wipe_bytes(&mut self.request);
        assert(self.request@ =~= Seq::<u8>::empty());
        self.stage = 3;
        Ok(())
    }

    /// Reports the bytes of one reply receive. `Ok(true)`: new bytes arrived and
    /// the caller decrypts `encrypted()` and reads it with `protocol::response`;
    /// `Ok(false)`: nothing arrived, which is not an error.
    pub fn reply_received(&mut self, data: &[u8], now: i64) -> (r: Result<bool, &'static str>)
        requires
            old(self)@.inv(),
            old(self)@.stage == 4,
            now >= 0,
            data@.len() <= RECEIVE_BUFFER,
        ensures
            final(self)@.inv(),
            final(self).endpoint_spec() == old(self).endpoint_spec(),
            (r, final(self)@) == reply_received_next(old(self)@, data@, now as int),
    {
        if data.len() == 0 {
            return Ok(false);
        }
        self.last_data = now;
        if self.encrypted.len() + data.len() > MAX_ENCRYPTED {
            return Err("Response is too large.");
        }
        append_bytes(&mut self.encrypted, data);
        Ok(true)
    }

    /// Wipes the plaintext request and the record being sent, as when the job
    /// is dropped or abandoned.
    pub fn wipe(&mut self)
        ensures
            final(self)@ == (JobView {
                request: Seq::empty(),
                outgoing: Seq::empty(),
                offset: 0,
                ..old(self)@
            }),
            final(self).endpoint_spec() == old(self).endpoint_spec(),
    {
        wipe_bytes(&mut self.request);
        wipe_bytes(&mut self.outgoing);
        self.offset = 0;
        assert(self.request@ =~= Seq::<u8>::empty());
        assert(self.outgoing@ =~= Seq::<u8>::empty());
    }
}

/// The plaintext request is released only after the server is verified. Of all
/// the reports that move a job on, only `handshake_verified` with an accepted
/// certificate and handshake and a verified server Finished takes a job from
/// connecting or handshaking (stages 0 to 2) to sending the request, and that
/// same step wipes the plaintext copy.
pub proof fn lemma_request_released_only_after_verification(
    v: JobView,
    outcome: ConnectOutcome,
    end: nat,
    ok: bool,
    data: Seq<u8>,
    now: int,
    record: Option<Seq<u8>>,
    verified: bool,
)
    requires
        v.inv(),
        v.stage <= 2,
    ensures
        connected_next(v, outcome).1.stage <= 2,
        v.stage == 1 ==> sent_next(v, end, ok, now).1.stage <= 2,
        handshake_received_next(v, data, now).1.stage <= 2,
        verified_next(v, record, verified).1.stage >= 3 ==> record is Some && verified
            && verified_next(v, record, verified).1.request.len() == 0,
{
}

/// A report on a job, as the methods of `Job` take them.
pub enum JobEvent {
    Connected(ConnectOutcome),
    Sent { end: nat, ok: bool, now: int },
    HandshakeReceived { data: Seq<u8>, now: int },
    HandshakeVerified { record: Option<Vec<u8>>, verified: bool },
    ReplyReceived { data: Seq<u8>, now: int },
}

/// The job after the report `e`, or nothing when the report ends it (an error)
/// or is not one the job's methods accept in its stage.
pub open spec fn job_step(v: JobView, e: JobEvent) -> Option<JobView> {
    let (r, w) = match e {
        JobEvent::Connected(o) => if v.stage == 0 {
            let (r, w) = connected_next(v, o);
            (r is Ok, w)
        } else {
            (false, v)
        },
        JobEvent::Sent { end, ok, now } => if (v.stage == 1 || v.stage == 3) && v.offset <= end
            <= v.outgoing.len() && now >= 0 {
            let (r, w) = sent_next(v, end, ok, now);
            (r is Ok, w)
        } else {
            (false, v)
        },
        JobEvent::HandshakeReceived { data, now } => if v.stage == 2 && now >= 0 && data.len()
            <= RECEIVE_BUFFER {
            let (r, w) = handshake_received_next(v, data, now);
            (r is Ok, w)
        } else {
            (false, v)
        },
        JobEvent::HandshakeVerified { record, verified } => if v.stage == 2 {
            let (r, w) = verified_next(v, opt_bytes(record), verified);
            (r is Ok, w)
        } else {
            (false, v)
        },
        JobEvent::ReplyReceived { data, now } => if v.stage == 4 && now >= 0 && data.len()
            <= RECEIVE_BUFFER {
            let (r, w) = reply_received_next(v, data, now);
            (r is Ok, w)
        } else {
            (false, v)
        },
    };
    if r {
        Some(w)
    } else {
        None
    }
}

/// The job after the reports `es` in order, or nothing once one ends it.
pub open spec fn job_run(v: JobView, es: Seq<JobEvent>) -> Option<JobView>
    decreases es.len(),
{
    if es.len() == 0 {
        Some(v)
    } else {
        match job_run(v, es.drop_last()) {
            Some(w) => job_step(w, es.last()),
            None => None,
        }
    }
}

/// Whether `e` reports a handshake whose certificate and Finished were both
/// verified.
pub open spec fn verified_handshake(e: JobEvent) -> bool {
    e matches JobEvent::HandshakeVerified { record: Some(_), verified: true }
}

/// Over any run of reports, the request is released only after verification:
/// a job that starts before the request stage (0 to 2) reaches it (stage 3 or
/// 4, the only stages that send or receive application data) only if one of
/// the reports was a verified handshake, and from then on its plaintext copy
/// of the request is empty.
pub proof fn lemma_release_needs_verified_handshake(v: JobView, es: Seq<JobEvent>)
    requires
        v.stage <= 2,
    ensures
        match job_run(v, es) {
            Some(w) => w.stage >= 3 ==> (exists|i: int|
                0 <= i < es.len() && #[trigger] verified_handshake(es[i])) && w.request.len() == 0,
            None => true,
        },
    decreases es.len(),
{
    if es.len() > 0 {
        let prev = es.drop_last();
        lemma_release_needs_verified_handshake(v, prev);
        match job_run(v, prev) {
            Some(u) => {
                if let Some(w) = job_step(u, es.last()) {
                    if w.stage >= 3 {
                        if u.stage >= 3 {
                            let i = choose|i: int|
                                0 <= i < prev.len() && #[trigger] verified_handshake(prev[i]);
                            assert(es[i] == prev[i]);
                        } else {
                            assert(verified_handshake(es[es.len() - 1]));
                        }
                    }
                }
            },
            None => {},
        }
    }
}

/// Over any run of reports the job's bounds hold: the record being sent is
/// never passed, at most `MAX_FLIGHT` handshake bytes and `MAX_ENCRYPTED` reply
/// bytes are kept, and each send the job asks for is at most `SEND_CHUNK` bytes
/// of what is left to send.
pub proof fn lemma_run_keeps_bounds(v: JobView, es: Seq<JobEvent>, now: int)
    requires
        v.inv(),
    ensures
        match job_run(v, es) {
            Some(w) => w.inv() && match poll_spec(w, now) {
                Step::Send { start, end } => start == w.offset && start <= end <= w.outgoing.len()
                    && end - start <= SEND_CHUNK,
                _ => true,
            },
            None => true,
        },
    decreases es.len(),
{
    if es.len() > 0 {
        lemma_run_keeps_bounds(v, es.drop_last(), now);
        match es.last() {
            JobEvent::Connected(ConnectOutcome::Ready(r)) => {
                assert(r.len() == r@.len());
            },
            JobEvent::HandshakeVerified { record: Some(r), verified } => {
                assert(r.len() == r@.len());
            },
            _ => {},
        }
    }
    if let Some(w) = job_run(v, es) {
        lemma_send_bounded(w, now);
    }
}

proof fn lemma_send_bounded(w: JobView, now: int)
    requires
        w.inv(),
    ensures
        match poll_spec(w, now) {
            Step::Send { start, end } => start == w.offset && start <= end <= w.outgoing.len()
                && end - start <= SEND_CHUNK,
            _ => true,
        },
{
    if w.stage == 1 || w.stage == 3 {
        let end: int = if w.offset + SEND_CHUNK <= w.outgoing.len() {
            w.offset + SEND_CHUNK
        } else {
            w.outgoing.len() as int
        };
        assert(0 <= end <= usize::MAX);
        assert((end as usize) as int == end);
        assert((w.offset as usize) as int == w.offset);
    }
}

/// The bytes a run hands to the socket: for every send report in a stage that
/// sends, `outgoing[offset..end]` of the job at that point, whether or not the
/// send then succeeded.
pub open spec fn run_sent(v: JobView, es: Seq<JobEvent>) -> Seq<u8>
    decreases es.len(),
{
    if es.len() == 0 {
        Seq::empty()
    } else {
        let before = run_sent(v, es.drop_last());
        match job_run(v, es.drop_last()) {
            Some(u) => match es.last() {
                JobEvent::Sent { end, ok, now } => if (u.stage == 1 || u.stage == 3) && u.offset
                    <= end <= u.outgoing.len() && now >= 0 {
                    before + u.outgoing.subrange(u.offset as int, end as int)
                } else {
                    before
                },
                _ => before,
            },
            None => before,
        }
    }
}

/// The ClientHello record a run's accepted connection report handed in.
pub open spec fn run_hello(v: JobView, es: Seq<JobEvent>) -> Seq<u8>
    decreases es.len(),
{
    if es.len() == 0 {
        Seq::empty()
    } else {
        let before = run_hello(v, es.drop_last());
        match job_run(v, es.drop_last()) {
            Some(u) => match es.last() {
                JobEvent::Connected(ConnectOutcome::Ready(r)) => if u.stage == 0 {
                    r@
                } else {
                    before
                },
                _ => before,
            },
            None => before,
        }
    }
}

/// The encrypted request record a run's accepted verified handshake handed in.
pub open spec fn run_sealed(v: JobView, es: Seq<JobEvent>) -> Seq<u8>
    decreases es.len(),
{
    if es.len() == 0 {
        Seq::empty()
    } else {
        let before = run_sealed(v, es.drop_last());
        match job_run(v, es.drop_last()) {
            Some(u) => match es.last() {
                JobEvent::HandshakeVerified { record: Some(r), verified: true } => if u.stage
                    == 2 {
                    r@
                } else {
                    before
                },
                _ => before,
            },
            None => before,
        }
    }
}

/// `a` is a prefix of `b`.
pub open spec fn prefix_of(a: Seq<u8>, b: Seq<u8>) -> bool {
    a.len() <= b.len() && b.take(a.len() as int) == a
}

/// What has been sent at each stage of a run from a job that has not connected.
pub open spec fn sent_by_stage(w: JobView, sent: Seq<u8>, hello: Seq<u8>, sealed: Seq<u8>) -> bool {
    &&& w.stage == 0 ==> sent.len() == 0 && hello.len() == 0 && sealed.len() == 0
    &&& w.stage == 1 ==> w.outgoing == hello && sent == hello.take(w.offset as int)
        && sealed.len() == 0
    &&& w.stage == 2 ==> sent == hello && sealed.len() == 0
    &&& w.stage == 3 ==> w.outgoing == sealed && sent == hello + sealed.take(w.offset as int)
    &&& w.stage == 4 ==> sent == hello + sealed
}

proof fn lemma_stage_prefix(w: JobView, sent: Seq<u8>, hello: Seq<u8>, sealed: Seq<u8>)
    requires
        w.inv(),
        sent_by_stage(w, sent, hello, sealed),
    ensures
        prefix_of(sent, hello + sealed),
{
    if w.stage == 0 {
        assert((hello + sealed).take(0) =~= sent);
    } else {
        assert((hello + sealed).take(sent.len() as int) =~= sent);
    }
}

proof fn lemma_sent_by_stage(v: JobView, es: Seq<JobEvent>)
    requires
        v.inv(),
        v.stage == 0,
    ensures
        match job_run(v, es) {
            Some(w) => sent_by_stage(w, run_sent(v, es), run_hello(v, es), run_sealed(v, es)),
            None => prefix_of(run_sent(v, es), run_hello(v, es) + run_sealed(v, es)),
        },
    decreases es.len(),
{
    if es.len() > 0 {
        let prev = es.drop_last();
        lemma_sent_by_stage(v, prev);
        lemma_run_keeps_bounds(v, prev, 0);
        let sent0 = run_sent(v, prev);
        let hello = run_hello(v, prev);
        let sealed = run_sealed(v, prev);
        if let Some(u) = job_run(v, prev) {
            lemma_stage_prefix(u, sent0, hello, sealed);
            match es.last() {
                JobEvent::Sent { end, ok, now } => {
                    if (u.stage == 1 || u.stage == 3) && u.offset <= end <= u.outgoing.len() && now
                        >= 0 {
                        let chunk = u.outgoing.subrange(u.offset as int, end as int);
                        if u.stage == 1 {
                            assert(sent0 + chunk =~= hello.take(end as int));
                            assert((hello + sealed).take(end as int) =~= hello.take(end as int));
                            if end == u.outgoing.len() {
                                assert(hello.take(end as int) =~= hello);
                            }
                        } else {
                            assert(sent0 + chunk =~= hello + sealed.take(end as int));
                            assert((hello + sealed).take(hello.len() as int + end as int) =~= hello
                                + sealed.take(end as int));
                            if end == u.outgoing.len() {
                                assert(sealed.take(end as int) =~= sealed);
                            }
                        }
                    }
                },
                JobEvent::Connected(o) => {
                    if u.stage == 0 {
                        if let ConnectOutcome::Ready(r) = o {
                            assert(r@.take(0) =~= Seq::<u8>::empty());
                        }
                    }
                },
                JobEvent::HandshakeVerified { record, verified } => {
                    if u.stage == 2 {
                        if let Some(r) = record {
                            assert(hello + r@.take(0) =~= hello);
                        }
                    }
                },
                _ => {},
            }
        } else {
            assert(run_sent(v, es) == sent0);
        }
    } else {
        assert(run_sent(v, es).len() == 0);
    }
}

/// Over any run of reports from a job that has not connected yet, everything
/// handed to the socket is a prefix of the ClientHello followed by the
/// encrypted request: nothing else is ever sent, nothing out of order, and
/// nothing of the request before the handshake was verified.
pub proof fn lemma_sent_bytes_are_hello_then_request(v: JobView, es: Seq<JobEvent>)
    requires
        v.inv(),
        v.stage == 0,
    ensures
        prefix_of(run_sent(v, es), run_hello(v, es) + run_sealed(v, es)),
{
    lemma_sent_by_stage(v, es);
    lemma_run_keeps_bounds(v, es, 0);
    if let Some(w) = job_run(v, es) {
        lemma_stage_prefix(w, run_sent(v, es), run_hello(v, es), run_sealed(v, es));
    }
}

/// The data of a run's handshake receive reports, in order.
pub open spec fn handshake_data(es: Seq<JobEvent>) -> Seq<u8>
    decreases es.len(),
{
    if es.len() == 0 {
        Seq::empty()
    } else {
        handshake_data(es.drop_last()) + match es.last() {
            JobEvent::HandshakeReceived { data, now } => data,
            _ => Seq::empty(),
        }
    }
}

/// The data of a run's reply receive reports, in order.
pub open spec fn reply_data(es: Seq<JobEvent>) -> Seq<u8>
    decreases es.len(),
{
    if es.len() == 0 {
        Seq::empty()
    } else {
        reply_data(es.drop_last()) + match es.last() {
            JobEvent::ReplyReceived { data, now } => data,
            _ => Seq::empty(),
        }
    }
}

/// Over any run of reports, every received byte is kept, in order: a job that
/// is still going holds all the handshake and reply bytes it was handed, so
/// more than `MAX_FLIGHT` handshake bytes or `MAX_ENCRYPTED` reply bytes in
/// total always end the job with an error.
pub proof fn lemma_received_bytes_kept(v: JobView, es: Seq<JobEvent>)
    requires
        v.inv(),
    ensures
        match job_run(v, es) {
            Some(w) => w.flight == v.flight + handshake_data(es) && w.encrypted == v.encrypted
                + reply_data(es) && w.flight.len() <= MAX_FLIGHT && w.encrypted.len()
                <= MAX_ENCRYPTED,
            None => true,
        },
        v.flight.len() + handshake_data(es).len() > MAX_FLIGHT || v.encrypted.len() + reply_data(
            es,
        ).len() > MAX_ENCRYPTED ==> job_run(v, es) is None,
    decreases es.len(),
{
    lemma_run_keeps_bounds(v, es, 0);
    if es.len() > 0 {
        let prev = es.drop_last();
        lemma_received_bytes_kept(v, prev);
        if let Some(u) = job_run(v, prev) {
            match es.last() {
                JobEvent::HandshakeReceived { data, now } => {
                    assert(v.flight + handshake_data(es) =~= v.flight + handshake_data(prev) + data);
                    assert(reply_data(es) =~= reply_data(prev));
                },
                JobEvent::ReplyReceived { data, now } => {
                    assert(v.encrypted + reply_data(es) =~= v.encrypted + reply_data(prev) + data);
                    assert(handshake_data(es) =~= handshake_data(prev));
                },
                _ => {
                    assert(handshake_data(es) =~= handshake_data(prev));
                    assert(reply_data(es) =~= reply_data(prev));
                },
            }
        } else {
            if handshake_data(es).len() > handshake_data(prev).len() || reply_data(es).len()
                > reply_data(prev).len() {
            }
        }
    } else {
        assert(v.flight + handshake_data(es) =~= v.flight);
        assert(v.encrypted + reply_data(es) =~= v.encrypted);
    }
}

/// The limits as documented: a request that has run for more than 180 seconds
/// fails at its next poll, a handshake silent for more than 20 seconds fails,
/// a reply silent for more than 90 seconds fails, and every send is at most
/// 1200 bytes.
pub proof fn lemma_documented_deadlines(v: JobView, now: int)
    requires
        v.inv(),
    ensures
        now - v.started > 180_000 ==> poll_spec(v, now) is Fail,
        v.stage == 2 && now - v.last_data > 20_000 ==> poll_spec(v, now) is Fail,
        v.stage == 4 && now - v.last_data > 90_000 ==> poll_spec(v, now) is Fail,
        poll_spec(v, now) matches Step::Send { start, end } ==> end - start <= 1200,
{
    lemma_send_bounded(v, now);
}

/// Receives that yield nothing never end a job: a transient empty poll during
/// the handshake or the reply leaves the job exactly as it was.
pub proof fn lemma_empty_receives_keep_job(v: JobView, now: int)
    ensures
        handshake_received_next(v, Seq::empty(), now) == (Ok::<(), &'static str>(()), v),
        reply_received_next(v, Seq::empty(), now) == (Ok::<bool, &'static str>(false), v),
{
}

/// The deadlines hold whatever the stage: past the total deadline every poll
/// fails, and a handshake or a reply that stays silent too long fails.
pub proof fn lemma_deadlines(v: JobView, now: int)
    ensures
        now - v.started > TOTAL_DEADLINE_MS ==> poll_spec(v, now) == Step::Fail(
            "Request timed out. Please try again.",
        ),
        v.stage == 2 && now - v.last_data > HANDSHAKE_IDLE_MS ==> poll_spec(v, now) is Fail,
        v.stage == 4 && now - v.last_data > REPLY_IDLE_MS ==> poll_spec(v, now) == Step::Fail(
            "Request timed out. Please try again.",
        ),
{
}

} // verus!
