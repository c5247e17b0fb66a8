use vstd::prelude::*;
use crate::codec::{
    encode_response, frame_payload, frame_rest, has_frame, parse_payload, CommandSpec, LineCodec,
};
use crate::service::KV;

verus! {

/// What one step of a connection did.
pub enum Step {
    /// No complete frame is buffered: wait for more bytes.
    NeedMore,
    /// A command was applied and its response appended to the output.
    Responded,
    /// The connection is closed: by `quit`, by a decode error, or earlier.
    Closed,
}

/// The state of one connection: the bytes received and not yet decoded, and
/// whether it still reads.
pub struct Connection {
    buf: Vec<u8>,
    open: bool,
    codec: LineCodec,
}

impl Connection {
    /// The bytes received and not yet decoded.
    pub closed spec fn buffered(&self) -> Seq<u8> {
        self.buf@
    }

    /// Whether the connection still reads and dispatches frames.
    pub closed spec fn is_open(&self) -> bool {
        self.open
    }

    /// A newly accepted connection: open, with nothing buffered.
    pub fn new() -> (r: Connection)
        ensures
            r.is_open(),
            r.buffered() == Seq::<u8>::empty(),
    {
        Connection { buf: Vec::new(), open: true, codec: LineCodec }
    }

    /// Whether the connection still reads and dispatches frames.
    pub fn open(&self) -> (r: bool)
        ensures
            r == self.is_open(),
    {
        self.open
    }

    /// Buffers bytes received from the peer; a closed connection drops them.
    pub fn receive(&mut self, bytes: &Vec<u8>)
        ensures
            final(self).is_open() == old(self).is_open(),
            old(self).is_open() ==> final(self).buffered() == old(self).buffered() + bytes@,
            !old(self).is_open() ==> final(self).buffered() == old(self).buffered(),
    {
        if !self.open {
            return;
        }
        let ghost start = self.buf@;
        let mut i: usize = 0;
        while i < bytes.len()
            invariant
                0 <= i <= bytes.len(),
                self.open,
                self.buf@ == start + bytes@.subrange(0, i as int),
            decreases bytes.len() - i,
        {
            self.buf.push(bytes[i]);
            i = i + 1;
            assert(self.buf@ =~= start + bytes@.subrange(0, i as int));
        }
        assert(bytes@.subrange(0, bytes.len() as int) =~= bytes@);
    }

    /// Closes the connection, as on end of input or a failed write.
    pub fn close(&mut self)
        ensures
            !final(self).is_open(),
            final(self).buffered() == old(self).buffered(),
    {
        self.open = false;
    }

    /// Decodes at most one buffered frame, applies it through `kv` and appends
    /// the encoded response to `out`. A closed connection does nothing. `quit`
    /// and a decode error close the connection and write nothing.
    pub fn step(&mut self, kv: &KV, out: &mut Vec<u8>) -> (r: Step)
        ensures
            !old(self).is_open() ==> r is Closed && !final(self).is_open()
                && final(self).buffered() == old(self).buffered() && final(out)@ == old(out)@,
            old(self).is_open() && !has_frame(old(self).buffered()) ==> r is NeedMore
                && final(self).is_open() && final(self).buffered() == old(self).buffered()
                && final(out)@ == old(out)@,
            old(self).is_open() && has_frame(old(self).buffered()) ==> final(self).buffered()
                == frame_rest(old(self).buffered()) && match parse_payload(
                frame_payload(old(self).buffered()),
            ) {
                Ok(CommandSpec::Quit) => r is Closed && !final(self).is_open() && final(out)@
                    == old(out)@,
                Ok(_) => r is Responded && final(self).is_open() && exists|t: Seq<char>|
                    final(out)@ == old(out)@ + encode_response(t),
                Err(_) => r is Closed && !final(self).is_open() && final(out)@ == old(out)@,
            },
    {
        if !self.open {
            return Step::Closed;
        }
        match self.codec.decode(&mut self.buf) {
            Ok(None) => Step::NeedMore,
            Ok(Some(c)) => {
                let (response, keep_alive) = kv.call(c);
                if keep_alive {
                    self.codec.encode(response, out);
                    Step::Responded
                } else {
                    self.open = false;
                    Step::Closed
                }
            },
            Err(_) => {
                self.open = false;
                Step::Closed
            },
        }
    }
}

} // verus!
