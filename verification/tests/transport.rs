// The request state machine driven through deterministic socket and TLS stand-ins:
// these tests check polling and request ordering, not cryptography.
use nonos_chat::protocol::{response, Endpoint, Response};
use nonos_chat::transport::{ConnectOutcome, Job, Step};
use std::collections::VecDeque;

#[derive(Default)]
struct Io {
    now: i64,
    incoming: VecDeque<Result<Vec<u8>, ()>>,
    sent: Vec<Vec<u8>>,
    closed: usize,
}

/// A job with its connection, closed when dropped.
struct Conn<'a> {
    job: Job,
    io: &'a std::cell::RefCell<Io>,
}

/// Dropping the connection wipes the job's secrets, then closes the socket
/// (closing is the connection's own I/O; the wipe is the library's).
impl Drop for Conn<'_> {
    fn drop(&mut self) {
        self.job.wipe();
        assert!(self.job.request().is_empty() && self.job.outgoing().is_empty());
        self.io.borrow_mut().closed += 1;
    }
}

const FLIGHT: &[u8] = b"verified server flight";

impl Conn<'_> {
    fn poll(&mut self) -> Result<Option<Response>, &'static str> {
        let now = self.io.borrow().now;
        match self.job.poll(now) {
            Step::Fail(e) => Err(e),
            Step::Connect => {
                self.job
                    .connected(ConnectOutcome::Ready(b"client hello".to_vec()))?;
                Ok(None)
            }
            Step::Send { start, end } => {
                let chunk = self.job.outgoing()[start..end].to_vec();
                self.io.borrow_mut().sent.push(chunk);
                self.job.sent(end, true, now)?;
                Ok(None)
            }
            Step::ReceiveHandshake => {
                let data = self.receive();
                self.job.handshake_received(&data, now)?;
                if self.job.flight() == FLIGHT {
                    let record = Some(self.job.request().to_vec());
                    self.job.handshake_verified(record, true)?;
                }
                Ok(None)
            }
            Step::ReceiveReply => {
                let data = self.receive();
                if self.job.reply_received(&data, now)? {
                    return response(self.job.encrypted());
                }
                Ok(None)
            }
        }
    }

    fn receive(&self) -> Vec<u8> {
        let next = self.io.borrow_mut().incoming.pop_front();
        next.unwrap_or(Err(())).unwrap_or_default()
    }
}

fn job(io: &std::cell::RefCell<Io>) -> Conn<'_> {
    *io.borrow_mut() = Io::default();
    Conn {
        job: Job::new(
            Endpoint::parse("https://example.com/v1").unwrap(),
            b"authorized request".to_vec(),
            0,
            1,
        ),
        io,
    }
}

fn queue(io: &std::cell::RefCell<Io>, data: Result<&[u8], ()>) {
    io.borrow_mut().incoming.push_back(data.map(|b| b.to_vec()));
}

#[test]
fn transient_empty_polls_do_not_abort_handshake_or_response() {
    let io = std::cell::RefCell::new(Io::default());
    let mut j = job(&io);
    assert!(j.poll().unwrap().is_none()); // connect
    assert!(j.poll().unwrap().is_none()); // client hello
    queue(&io, Err(()));
    assert!(j.poll().unwrap().is_none()); // temporary empty receive
    assert_eq!(io.borrow().sent, vec![b"client hello".to_vec()]);
    queue(&io, Ok(FLIGHT));
    assert!(j.poll().unwrap().is_none());
    assert!(j.poll().unwrap().is_none()); // application request after verification
    queue(&io, Err(()));
    assert!(j.poll().unwrap().is_none());
    queue(&io, Ok(b"HTTP/1.1 200 OK\r\nContent-Length: 2\r\n\r\n{}"));
    let reply = j.poll().unwrap().expect("complete response");
    assert_eq!(reply.status, 200);
    assert_eq!(reply.body, b"{}");
    assert_eq!(io.borrow().sent[1], b"authorized request");
    assert!(j.job.request().is_empty()); // the plaintext went to TLS and was wiped
    drop(j);
    assert_eq!(io.borrow().closed, 1);
}

#[test]
fn silent_handshake_still_times_out_without_sending_request() {
    let io = std::cell::RefCell::new(Io::default());
    let mut j = job(&io);
    j.poll().unwrap();
    j.poll().unwrap();
    io.borrow_mut().now = 20_001;
    assert_eq!(j.poll().err(), Some("TLS handshake timed out."));
    assert_eq!(io.borrow().sent.len(), 1);
}

#[test]
fn silent_response_still_times_out() {
    let io = std::cell::RefCell::new(Io::default());
    let mut j = job(&io);
    j.poll().unwrap();
    j.poll().unwrap();
    queue(&io, Ok(FLIGHT));
    j.poll().unwrap();
    j.poll().unwrap();
    io.borrow_mut().now = 90_001;
    assert_eq!(j.poll().err(), Some("Request timed out. Please try again."));
}

// ---------------------------------------------------------------------------

fn fresh() -> Job {
    Job::new(
        Endpoint::parse("https://example.com/v1").unwrap(),
        b"request".to_vec(),
        5,
        7,
    )
}

#[test]
fn new_job_connects_first() {
    let j = fresh();
    assert!(matches!(j.poll(5), Step::Connect));
    assert_eq!(j.request(), b"request");
    assert_eq!(j.wall(), 7);
    assert_eq!(j.endpoint().host, "example.com");
}

#[test]
fn connect_failures_have_their_messages() {
    for (outcome, msg) in [
        (ConnectOutcome::NoNetworkService, "NONOS network service is unavailable."),
        (ConnectOutcome::SocketUnavailable, "Could not open a network socket."),
        (ConnectOutcome::ConnectFailed, "DNS lookup or TCP connection failed."),
        (ConnectOutcome::TlsInitFailed, "TLS initialization failed."),
    ] {
        let mut j = fresh();
        assert_eq!(j.connected(outcome), Err(msg));
    }
}

#[test]
fn total_deadline_fails_every_stage() {
    let j = fresh();
    assert!(matches!(j.poll(180_005), Step::Connect));
    match j.poll(180_006) {
        Step::Fail(e) => assert_eq!(e, "Request timed out. Please try again."),
        _ => panic!("expected a timeout"),
    }
}

#[test]
fn long_records_are_sent_in_chunks() {
    let mut j = fresh();
    j.connected(ConnectOutcome::Ready(vec![1u8; 2500])).unwrap();
    let mut ends = Vec::new();
    loop {
        match j.poll(10) {
            Step::Send { start, end } => {
                assert!(end - start <= 1200);
                ends.push(end);
                j.sent(end, true, 10).unwrap();
            }
            Step::ReceiveHandshake => break,
            _ => panic!("unexpected step"),
        }
    }
    assert_eq!(ends, vec![1200, 2400, 2500]);
    assert!(j.outgoing().is_empty());
}

#[test]
fn failed_send_is_reported() {
    let mut j = fresh();
    j.connected(ConnectOutcome::Ready(b"hello".to_vec())).unwrap();
    assert_eq!(j.sent(5, false, 6), Err("Network error while sending."));
}

#[test]
fn handshake_bound_and_verification_errors() {
    let mut j = fresh();
    j.connected(ConnectOutcome::Ready(b"hello".to_vec())).unwrap();
    j.sent(5, true, 6).unwrap();
    let chunk = vec![0u8; 4096];
    for _ in 0..32 {
        j.handshake_received(&chunk, 7).unwrap();
    }
    assert_eq!(j.handshake_received(&[1], 8), Err("TLS handshake is too large."));

    let mut j = fresh();
    j.connected(ConnectOutcome::Ready(b"hello".to_vec())).unwrap();
    j.sent(5, true, 6).unwrap();
    assert_eq!(
        j.handshake_verified(None, true),
        Err("TLS certificate or handshake is invalid. The request was not sent.")
    );
    assert_eq!(j.request(), b"request");
    assert_eq!(
        j.handshake_verified(Some(b"sealed".to_vec()), false),
        Err("TLS server verification failed.")
    );
    assert_eq!(j.request(), b"request");
    j.handshake_verified(Some(b"sealed".to_vec()), true).unwrap();
    assert!(j.request().is_empty());
    assert_eq!(j.outgoing(), b"sealed");
}

#[test]
fn reply_bound_is_enforced() {
    let mut j = fresh();
    j.connected(ConnectOutcome::Ready(b"h".to_vec())).unwrap();
    j.sent(1, true, 6).unwrap();
    j.handshake_verified(Some(b"r".to_vec()), true).unwrap();
    j.sent(1, true, 7).unwrap();
    assert!(matches!(j.poll(8), Step::ReceiveReply));
    assert_eq!(j.reply_received(&[], 8), Ok(false));
    let chunk = vec![0u8; 4096];
    for _ in 0..72 {
        assert_eq!(j.reply_received(&chunk, 9), Ok(true));
    }
    assert_eq!(j.reply_received(&[1], 9), Err("Response is too large."));
}

#[test]
fn wipe_clears_request_and_record() {
    let mut j = fresh();
    j.connected(ConnectOutcome::Ready(b"hello".to_vec())).unwrap();
    j.wipe();
    assert!(j.request().is_empty());
    assert!(j.outgoing().is_empty());
    assert_eq!(j.wall(), 7);
    assert_eq!(j.endpoint().host, "example.com");
}

#[test]
fn everything_sent_is_the_hello_then_the_sealed_request() {
    let mut j = fresh();
    let hello: Vec<u8> = (0..2500u32).map(|i| (i % 251) as u8).collect();
    let sealed: Vec<u8> = (0..1300u32).map(|i| (i % 7) as u8).collect();
    let mut sent = Vec::new();
    j.connected(ConnectOutcome::Ready(hello.clone())).unwrap();
    let mut flight = Vec::new();
    loop {
        match j.poll(10) {
            Step::Send { start, end } => {
                sent.extend_from_slice(&j.outgoing()[start..end]);
                assert!(hello.starts_with(&sent) || sent.starts_with(&hello));
                j.sent(end, true, 10).unwrap();
            }
            Step::ReceiveHandshake => {
                for part in [&b"ab"[..], b"", b"cd"] {
                    j.handshake_received(part, 11).unwrap();
                    flight.extend_from_slice(part);
                }
                assert_eq!(j.flight(), &flight[..]);
                j.handshake_verified(Some(sealed.clone()), true).unwrap();
            }
            Step::ReceiveReply => break,
            _ => panic!("unexpected step"),
        }
    }
    assert_eq!(sent, [hello, sealed].concat());
}
