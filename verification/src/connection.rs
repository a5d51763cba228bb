//! One request on one connection: what has arrived so far, and what to do
//! next.
//!
//! The transport is not touched here. Whoever owns it performs the reads
//! and reports each outcome as a [`ReadEvent`]; [`HTTPRequest::poll`] then
//! says whether the request is complete, has failed, or needs another
//! read.

use vstd::prelude::*;
use crate::config::ParserConfig;
use crate::error::{Halt, ParseError};
use crate::request::{
    lemma_request_of_stable, parse_request, request_of, request_wf, ParsedHTTPRequest, RequestModel,
};

verus! {

/// What one read on the transport gave.
#[derive(Debug, Clone, PartialEq, Eq)]
pub enum ReadEvent {
    /// These bytes arrived.
    Data(Vec<u8>),
    /// The peer will send no more.
    Closed,
    /// Nothing arrived before the deadline of the read.
    TimedOut,
    /// The transport failed.
    Failed,
}

/// What to do about a request that is being read.
#[derive(Debug, PartialEq, Eq)]
pub enum Poll {
    /// The bytes so far are the beginning of a request: read again.
    Pending,
    /// The request is complete, with the number of bytes it takes up, or
    /// it has failed. Either way nothing more needs to be read for it.
    Ready(Result<(ParsedHTTPRequest, usize), ParseError>),
}

/// A request in the course of being received.
#[derive(Debug, Clone, PartialEq, Eq)]
pub struct HTTPRequest {
    buffer: Vec<u8>,
    ended: bool,
    fault: Option<ParseError>,
    config: ParserConfig,
}

impl HTTPRequest {
    /// The bytes received so far.
    pub closed spec fn received(&self) -> Seq<u8> {
        self.buffer@
    }

    /// Whether the peer has finished sending.
    pub closed spec fn ended(&self) -> bool {
        self.ended
    }

    /// The failure of the transport that ended the reading, if any.
    pub closed spec fn fault(&self) -> Option<ParseError> {
        self.fault
    }

    /// The limits in force.
    pub closed spec fn config(&self) -> ParserConfig {
        self.config
    }

    /// Whether reading is over: the peer has finished, or the transport
    /// has failed. Events that come after that are ignored.
    pub open spec fn sealed(&self) -> bool {
        self.ended() || self.fault() is Some
    }

    /// What the bytes received so far amount to.
    pub open spec fn outcome(&self) -> Result<(RequestModel, int), Halt> {
        request_of(self.received(), self.ended(), self.config())
    }

    /// A request of which nothing has been received yet.
    pub fn new(config: ParserConfig) -> (r: HTTPRequest)
        ensures
            r.received() == Seq::<u8>::empty(),
            !r.ended(),
            r.fault() is None,
            r.config() == config,
    {
        HTTPRequest { buffer: Vec::new(), ended: false, fault: None, config }
    }

    /// The bytes received so far. After a request has been completed, those
    /// from its end on belong to whatever comes next on the connection.
    pub fn buffered(&self) -> (r: &[u8])
        ensures
            r@ == self.received(),
    {
        self.buffer.as_slice()
    }

    /// Whether the peer has finished without sending anything: the
    /// connection was closed between two requests, and no request was cut
    /// short. What `poll` then reports is `TruncatedHeaders`.
    pub fn idle(&self) -> (r: bool)
        ensures
            r == (self.ended() && self.received().len() == 0),
            r ==> self.outcome() == Err::<(RequestModel, int), Halt>(
                Halt::Failed(ParseError::TruncatedHeaders),
            ),
    {
        self.ended && self.buffer.len() == 0
    }

    /// Takes note of what a read gave. Data is appended to what was
    /// received; the end of the input, a timeout and a failure are
    /// remembered and seal the request. Once the bytes received amount to
    /// a request, or to a refusal, no event changes that.
    pub fn receive(&mut self, event: ReadEvent)
        ensures
            final(self).config() == old(self).config(),
            old(self).outcome() != Err::<(RequestModel, int), Halt>(Halt::NeedMore)
                ==> final(self).outcome() == old(self).outcome(),
            old(self).sealed() ==> {
                &&& final(self).received() == old(self).received()
                &&& final(self).ended() == old(self).ended()
                &&& final(self).fault() == old(self).fault()
            },
            !old(self).sealed() ==> match event {
                ReadEvent::Data(bytes) => {
                    &&& final(self).received() == old(self).received() + bytes@
                    &&& !final(self).ended()
                    &&& final(self).fault() is None
                },
                ReadEvent::Closed => {
                    &&& final(self).received() == old(self).received()
                    &&& final(self).ended()
                    &&& final(self).fault() is None
                },
                ReadEvent::TimedOut => {
                    &&& final(self).received() == old(self).received()
                    &&& !final(self).ended()
                    &&& final(self).fault() == Some(ParseError::Timeout)
                },
                ReadEvent::Failed => {
                    &&& final(self).received() == old(self).received()
                    &&& !final(self).ended()
                    &&& final(self).fault() == Some(ParseError::IoError)
                },
            },
    {
        if self.ended || self.fault.is_some() {
            return ;
        }
        match event {
            ReadEvent::Data(bytes) => {
                proof {
                    if self.outcome() != Err::<(RequestModel, int), Halt>(Halt::NeedMore) {
                        lemma_request_of_stable(self.buffer@, bytes@, false, self.config);
                    }
                }
                let mut bytes = bytes;
                self.buffer.append(&mut bytes);
            },
            ReadEvent::Closed => {
                proof {
                    if self.outcome() != Err::<(RequestModel, int), Halt>(Halt::NeedMore) {
                        lemma_request_of_stable(self.buffer@, Seq::empty(), true, self.config);
                        assert(self.buffer@ + Seq::<u8>::empty() =~= self.buffer@);
                    }
                }
                self.ended = true;
            },
            ReadEvent::TimedOut => {
                self.fault = Some(ParseError::Timeout);
            },
            ReadEvent::Failed => {
                self.fault = Some(ParseError::IoError);
            },
        }
    }

    /// Says where the request stands.
    ///
    /// A request that is complete in the bytes received is returned,
    /// whatever happened on the transport afterwards, and so is the error
    /// of one that is refused. Otherwise a timeout or failure of the
    /// transport is the error; without one, another read is called for.
    pub fn poll(&self) -> (r: Poll)
        ensures
            match self.outcome() {
                Ok((m, consumed)) => r matches Poll::Ready(Ok((request, n))) && request@ == m
                    && n == consumed && request_wf(m) && 0 < n <= self.received().len(),
                Err(Halt::Failed(e)) => r == Poll::Ready(Err(e)),
                Err(Halt::NeedMore) => match self.fault() {
                    Some(e) => r == Poll::Ready(Err(e)),
                    None => r == Poll::Pending && !self.ended(),
                },
            },
    {
        match parse_request(self.buffer.as_slice(), self.ended, &self.config) {
            Ok(done) => Poll::Ready(Ok(done)),
            Err(Halt::Failed(e)) => Poll::Ready(Err(e)),
            Err(Halt::NeedMore) => match self.fault {
                Some(e) => Poll::Ready(Err(e)),
                None => Poll::Pending,
            },
        }
    }

    /// The request, once it is complete in the bytes received; `None`
    /// while it is not, and when it is refused.
    pub fn request(&self) -> (r: Option<ParsedHTTPRequest>)
        ensures
            match self.outcome() {
                Ok((m, _)) => r matches Some(request) && request@ == m && request_wf(m),
                Err(_) => r is None,
            },
    {
        match parse_request(self.buffer.as_slice(), self.ended, &self.config) {
            Ok((request, _)) => Some(request),
            Err(_) => None,
        }
    }
}

} // verus!
