//! The events that a connection reports.
use crate::head::pairs;
use crate::text::{decimal, decimal_text, flag_text, flag_word};
use vstd::prelude::*;
use vstd::string::StringExecFns;

verus! {

/// A new request. `headers` holds the pseudo-headers and then the regular ones.
#[derive(Debug)]
pub struct RequestReceived {
    pub stream_id: u32,
    pub headers: Vec<(Vec<u8>, Vec<u8>)>,
    pub stream_ended: bool,
}

/// A piece of a request body.
#[derive(Debug)]
pub struct DataReceived {
    pub stream_id: u32,
    pub data: Vec<u8>,
    pub stream_ended: bool,
}

/// The end of a request body.
#[derive(Debug)]
pub struct StreamEnded {
    pub stream_id: u32,
}

/// The end of a stream by an error.
#[derive(Debug)]
pub struct StreamReset {
    pub stream_id: u32,
    pub error_code: u32,
}

/// The end of the connection.
#[derive(Debug)]
pub struct ConnectionTerminated {}

/// What a connection reports.
#[derive(Debug)]
pub enum Event {
    Request(RequestReceived),
    Data(DataReceived),
    Ended(StreamEnded),
    Reset(StreamReset),
    Terminated(ConnectionTerminated),
}

/// An event as a value.
pub enum EventView {
    Request { stream_id: u32, headers: Seq<(Seq<u8>, Seq<u8>)>, stream_ended: bool },
    Data { stream_id: u32, data: Seq<u8>, stream_ended: bool },
    Ended { stream_id: u32 },
    Reset { stream_id: u32, error_code: u32 },
    Terminated,
}

impl View for Event {
    type V = EventView;

    open spec fn view(&self) -> EventView {
        match *self {
            Event::Request(e) => EventView::Request {
                stream_id: e.stream_id,
                headers: pairs(e.headers@),
                stream_ended: e.stream_ended,
            },
            Event::Data(e) => EventView::Data {
                stream_id: e.stream_id,
                data: e.data@,
                stream_ended: e.stream_ended,
            },
            Event::Ended(e) => EventView::Ended { stream_id: e.stream_id },
            Event::Reset(e) => EventView::Reset {
                stream_id: e.stream_id,
                error_code: e.error_code,
            },
            Event::Terminated(_) => EventView::Terminated,
        }
    }
}

/// Events as values.
pub open spec fn event_views(events: Seq<Event>) -> Seq<EventView> {
    events.map_values(|e: Event| e@)
}

impl RequestReceived {
    /// Gives the header fields of the request.
    pub fn headers(&self) -> (r: &Vec<(Vec<u8>, Vec<u8>)>)
        ensures
            *r == self.headers,
    {
        &self.headers
    }

    /// Gives a text for the event.
    pub fn repr(&self) -> (r: String)
        ensures
            r@ == "RequestReceived(stream_id="@ + decimal(self.stream_id as nat)
                + ", stream_ended="@ + flag_word(self.stream_ended) + ")"@,
    {
        let number = decimal_text(self.stream_id);
        let mut r = "RequestReceived(stream_id=".to_owned();
        r.append(number.as_str());
        r.append(", stream_ended=");
        r.append(flag_text(self.stream_ended));
        r.append(")");
        r
    }
}

impl DataReceived {
    /// Gives the piece of the body.
    pub fn data(&self) -> (r: &Vec<u8>)
        ensures
            *r == self.data,
    {
        &self.data
    }

    /// Gives a text for the event.
    pub fn repr(&self) -> (r: String)
        ensures
            r@ == "DataReceived(stream_id="@ + decimal(self.stream_id as nat) + ")"@,
    {
        let number = decimal_text(self.stream_id);
        let mut r = "DataReceived(stream_id=".to_owned();
        r.append(number.as_str());
        r.append(")");
        r
    }
}

impl StreamEnded {
    /// Gives a text for the event.
    pub fn repr(&self) -> (r: String)
        ensures
            r@ == "StreamEnded(stream_id="@ + decimal(self.stream_id as nat) + ")"@,
    {
        let number = decimal_text(self.stream_id);
        let mut r = "StreamEnded(stream_id=".to_owned();
        r.append(number.as_str());
        r.append(")");
        r
    }
}

impl StreamReset {
    /// Gives a text for the event.
    pub fn repr(&self) -> (r: String)
        ensures
            r@ == "StreamReset(stream_id="@ + decimal(self.stream_id as nat) + ", error_code="@
                + decimal(self.error_code as nat) + ")"@,
    {
        let number = decimal_text(self.stream_id);
        let code = decimal_text(self.error_code);
        let mut r = "StreamReset(stream_id=".to_owned();
        r.append(number.as_str());
        r.append(", error_code=");
        r.append(code.as_str());
        r.append(")");
        r
    }
}

impl ConnectionTerminated {
    /// Gives a text for the event.
    pub fn repr(&self) -> (r: String)
        ensures
            r@ == "ConnectionTerminated()"@,
    {
        "ConnectionTerminated()".to_owned()
    }
}

} // verus!
