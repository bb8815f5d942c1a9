use vstd::prelude::*;

verus! {

/// What one pull from a byte source yields: the next byte, the end of the
/// input, or an I/O failure reported by the source itself.
#[derive(Clone, Copy, PartialEq, Eq, Structural, Debug)]
pub enum PullEvent {
    Byte(u8),
    End,
    IoError,
}

/// A forward-only supplier of bytes: each call to `pull` yields the next
/// byte, reports the end of the input, or reports an I/O failure. No seek,
/// no peek. Nothing is assumed about the values a source hands back: the
/// decoder is verified for every possible outcome of every pull.
pub trait ByteSource {
    fn pull(&mut self) -> PullEvent;
}

/// An in-memory byte source: yields the bytes of a vector in order, then
/// reports a clean end of input.
pub struct SliceSource {
    bytes: Vec<u8>,
    at: usize,
}

impl SliceSource {
    /// The bytes not yet handed out.
    pub closed spec fn remaining(self) -> Seq<u8> {
        self.bytes@.skip(self.at as int)
    }

    pub fn new(bytes: Vec<u8>) -> (r: SliceSource)
        ensures
            r.remaining() == bytes@,
    {
        let r = SliceSource { bytes, at: 0 };
        proof {
            assert(r.remaining() =~= r.bytes@);
        }
        r
    }
}

impl ByteSource for SliceSource {
    fn pull(&mut self) -> PullEvent {
        if self.at < self.bytes.len() {
            let b = self.bytes[self.at];
            self.at = self.at + 1;
            PullEvent::Byte(b)
        } else {
            PullEvent::End
        }
    }
}

/// A byte source that replays a fixed script of pull outcomes, and reports
/// the end of the input once the script is spent. Useful for exercising
/// I/O-failure and end-of-input behaviour.
pub struct ScriptedSource {
    events: Vec<PullEvent>,
    at: usize,
}

impl ScriptedSource {
    /// The scripted pull outcomes not yet replayed.
    pub closed spec fn remaining(self) -> Seq<PullEvent> {
        self.events@.skip(self.at as int)
    }

    pub fn new(events: Vec<PullEvent>) -> (r: ScriptedSource)
        ensures
            r.remaining() == events@,
    {
        let r = ScriptedSource { events, at: 0 };
        proof {
            assert(r.remaining() =~= r.events@);
        }
        r
    }
}

impl ByteSource for ScriptedSource {
    fn pull(&mut self) -> PullEvent {
        if self.at < self.events.len() {
            let ev = self.events[self.at];
            self.at = self.at + 1;
            ev
        } else {
            PullEvent::End
        }
    }
}

} // verus!
