//! Interactive PTY sessions over a WebSocket: the session's open/closed state,
//! the control frame that resizes the terminal, and what each incoming frame
//! means for a reader.

use vstd::prelude::*;
use crate::errors::Error;
use crate::text::{concat, decimal, u64_text};

verus! {

/// An incoming WebSocket frame, as far as a PTY reader cares.
pub enum Frame {
    /// Terminal output.
    Binary(Vec<u8>),
    /// The peer closes the session.
    Close,
    /// Text, ping, pong and other frames.
    Other,
}

/// What a reader does with the next thing the stream yields.
pub enum RecvStep {
    /// Hand these output bytes to the caller.
    Data(Vec<u8>),
    /// The session has ended: report end of stream.
    Ended,
    /// Nothing for the caller: read on.
    Skip,
    /// The connection failed.
    Failed(Error),
}

/// The local state of a PTY session.
#[derive(Debug)]
pub struct PtyState {
    closed: bool,
}

impl PtyState {
    pub closed spec fn is_closed_view(self) -> bool {
        self.closed
    }

    /// An open session.
    pub fn new() -> (s: PtyState)
        ensures
            !s.is_closed_view(),
    {
        PtyState { closed: false }
    }

    /// Whether the session is closed.
    pub fn is_closed(&self) -> (b: bool)
        ensures
            b == self.is_closed_view(),
    {
        self.closed
    }

    /// Writing and resizing need an open session.
    pub fn check_open(&self) -> (r: Result<(), Error>)
        ensures
            self.is_closed_view() ==> r matches Err(Error::PtyClosed),
            !self.is_closed_view() ==> r is Ok,
    {
        if self.closed {
            Err(Error::PtyClosed)
        } else {
            Ok(())
        }
    }

    /// Closing: marks the session closed and says whether a close frame must
    /// be sent (only the first time).
    pub fn begin_close(&mut self) -> (send: bool)
        ensures
            final(self).is_closed_view(),
            send == !old(self).is_closed_view(),
    {
        if self.closed {
            false
        } else {
            self.closed = true;
            true
        }
    }

    /// Reads the next item of the stream: `None` when the stream has ended,
    /// `Some(Err(text))` when the connection failed.
    pub fn recv_step(&mut self, next: Option<Result<Frame, String>>) -> (step: RecvStep)
        ensures
            match next {
                None => step is Ended && final(self).is_closed_view() == old(self).is_closed_view(),
                Some(Ok(Frame::Binary(d))) => step == RecvStep::Data(d) && final(self).is_closed_view()
                    == old(self).is_closed_view(),
                Some(Ok(Frame::Close)) => step is Ended && final(self).is_closed_view(),
                Some(Ok(Frame::Other)) => step is Skip && final(self).is_closed_view()
                    == old(self).is_closed_view(),
                Some(Err(m)) => (step matches RecvStep::Failed(Error::Network(t)) && t@ == m@)
                    && final(self).is_closed_view() == old(self).is_closed_view(),
            },
    {
        match next {
            None => RecvStep::Ended,
            Some(Ok(Frame::Binary(d))) => RecvStep::Data(d),
            Some(Ok(Frame::Close)) => {
                self.closed = true;
                RecvStep::Ended
            },
            Some(Ok(Frame::Other)) => RecvStep::Skip,
            Some(Err(m)) => RecvStep::Failed(Error::Network(m)),
        }
    }
}

/// `{"type":"resize","rows":R,"cols":C}`.
pub open spec fn resize_text(rows: u16, cols: u16) -> Seq<char> {
    "{\"type\":\"resize\",\"rows\":"@ + decimal(rows as nat) + ",\"cols\":"@ + decimal(cols as nat)
        + "}"@
}

/// The text control frame that resizes the terminal.
pub fn resize_message(rows: u16, cols: u16) -> (s: String)
    ensures
        s@ == resize_text(rows, cols),
{
    let r = u64_text(rows as u64);
    let c = u64_text(cols as u64);
    let a = concat("{\"type\":\"resize\",\"rows\":", r.as_str());
    let b = concat(a.as_str(), ",\"cols\":");
    let d = concat(b.as_str(), c.as_str());
    concat(d.as_str(), "}")
}

/// `/v1/sandboxes/{id}/pty`.
pub fn pty_path(sandbox_id: &str) -> (p: String)
    ensures
        p@ == "/v1/sandboxes/"@ + sandbox_id@ + "/pty"@,
{
    let a = concat("/v1/sandboxes/", sandbox_id);
    concat(a.as_str(), "/pty")
}

} // verus!
