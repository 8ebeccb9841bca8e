//! The status message shown beside the command line, which fades after a
//! few seconds.
use vstd::prelude::*;
use std::time::{Duration, Instant};
use crate::cell::{CellStyle, Color};

verus! {

#[verifier::external_type_specification]
#[verifier::external_body]
pub struct ExInstant(Instant);

/// `std::time::Instant::now`: the current time; nothing is known of it.
#[verifier::external_body]
fn now() -> Instant {
    Instant::now()
}

/// `std::time::Instant::elapsed`: the time since `start`; it depends on
/// the clock, so nothing is stated of it.
#[verifier::external_body]
fn elapsed(start: &Instant) -> Duration {
    start.elapsed()
}

/// `std::time::Duration::as_secs`: the whole seconds of `d`; the value of
/// a `Duration` is not modelled, so nothing is stated of it.
#[verifier::external_body]
fn whole_seconds(d: &Duration) -> u64 {
    d.as_secs()
}

/// Whether a message reports a failure or information.
#[derive(Clone, Copy, PartialEq, Eq, Debug)]
pub enum MsgType {
    Error,
    Info,
}

/// A message, its kind, and when it was made.
pub struct StatusMessage {
    start: Instant,
    msg_type: MsgType,
    msg: Option<String>,
}

/// How many seconds a message stays visible.
pub const SHOWN_SECONDS: u64 = 3;

impl StatusMessage {
    /// The kind of the message.
    pub closed spec fn kind(self) -> MsgType {
        self.msg_type
    }

    /// The text of the message, if there is one.
    pub closed spec fn text(self) -> Option<Seq<char>> {
        match self.msg {
            Some(m) => Some(m@),
            None => None,
        }
    }

    /// An information message.
    pub fn info(msg: &str) -> (r: StatusMessage)
        ensures
            r.kind() == MsgType::Info,
            r.text() == Some(msg@),
    {
        StatusMessage { msg: Some(msg.to_string()), start: now(), msg_type: MsgType::Info }
    }

    /// An error message.
    pub fn error(msg: &str) -> (r: StatusMessage)
        ensures
            r.kind() == MsgType::Error,
            r.text() == Some(msg@),
    {
        StatusMessage { msg: Some(msg.to_string()), start: now(), msg_type: MsgType::Error }
    }

    /// No message.
    pub fn none() -> (r: StatusMessage)
        ensures
            r.kind() == MsgType::Info,
            r.text() is None,
    {
        StatusMessage { start: now(), msg: None, msg_type: MsgType::Info }
    }

    /// The kind of the message.
    pub fn msg_type(&self) -> (r: MsgType)
        ensures
            r == self.kind(),
    {
        self.msg_type
    }

    /// The text shown `secs` seconds after the message was made: the
    /// message for the first `SHOWN_SECONDS` seconds, then nothing.
    pub fn text_after(&self, secs: u64) -> (r: String)
        ensures
            r@ == (if secs > SHOWN_SECONDS {
                Seq::<char>::empty()
            } else {
                match self.text() {
                    Some(t) => t,
                    None => Seq::<char>::empty(),
                }
            }),
    {
        if secs > SHOWN_SECONDS {
            String::new()
        } else {
            match &self.msg {
                Some(m) => m.clone(),
                None => String::new(),
            }
        }
    }

    /// The text shown now (see `text_after`): the message, or nothing once
    /// it has faded.
    pub fn shown_text(&self) -> (r: String)
        ensures
            r@ == Seq::<char>::empty() || (self.text() matches Some(t) && r@ == t),
    {
        let secs = whole_seconds(&elapsed(&self.start));
        self.text_after(secs)
    }

    /// The colors a message is drawn in: red for an error, light green for
    /// information.
    pub fn style(&self) -> (r: CellStyle)
        ensures
            r.bg is None,
            r.fg == Some(if self.kind() == MsgType::Error { Color::Red } else { Color::LightGreen }),
    {
        match self.msg_type {
            MsgType::Error => CellStyle { fg: Some(Color::Red), bg: None },
            MsgType::Info => CellStyle { fg: Some(Color::LightGreen), bg: None },
        }
    }
}

} // verus!
