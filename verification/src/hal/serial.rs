//! The serial line that diagnostics go to.
use crate::hal::cpu::PortWrite;
use vstd::prelude::*;

verus! {

pub const COM1_BASE: u16 = 0x3F8;

/// A serial port.
#[derive(Debug, Clone, Copy, PartialEq, Eq, Structural)]
pub struct SerialPort {
    pub base_port: u16,
}

/// Bytes with a carriage return in front of every line feed.
pub open spec fn with_returns(s: Seq<u8>) -> Seq<u8>
    decreases s.len(),
{
    if s.len() == 0 {
        s
    } else if s.last() == 10 {
        with_returns(s.drop_last()).push(13).push(10)
    } else {
        with_returns(s.drop_last()).push(s.last())
    }
}

impl SerialPort {
    pub fn new(base_port: u16) -> (r: Self)
        ensures
            r.base_port == base_port,
    {
        SerialPort { base_port }
    }

    /// The bytes that set the port up: 115200 baud, eight data bits, no parity, one stop bit.
    pub open spec fn setup(&self) -> Seq<PortWrite> {
        let b = self.base_port;
        seq![
            PortWrite { port: (b + 1) as u16, value: 0x00, pause: false },
            PortWrite { port: (b + 3) as u16, value: 0x80, pause: false },
            PortWrite { port: b, value: 0x01, pause: false },
            PortWrite { port: (b + 1) as u16, value: 0x00, pause: false },
            PortWrite { port: (b + 3) as u16, value: 0x03, pause: false },
            PortWrite { port: (b + 2) as u16, value: 0xC7, pause: false },
            PortWrite { port: (b + 4) as u16, value: 0x0B, pause: false },
        ]
    }

    /// Lists the bytes that set the port up.
    pub fn init(&self) -> (r: [PortWrite; 7])
        requires
            self.base_port <= u16::MAX - 5,
        ensures
            r@ == self.setup(),
    {
        let b: u16 = self.base_port;
        let r = [
            PortWrite { port: b + 1, value: 0x00, pause: false },
            PortWrite { port: b + 3, value: 0x80, pause: false },
            PortWrite { port: b, value: 0x01, pause: false },
            PortWrite { port: b + 1, value: 0x00, pause: false },
            PortWrite { port: b + 3, value: 0x03, pause: false },
            PortWrite { port: b + 2, value: 0xC7, pause: false },
            PortWrite { port: b + 4, value: 0x0B, pause: false },
        ];
        assert(r@ =~= self.setup());
        r
    }

    /// The port to read the status of the line from.
    pub fn status_port(&self) -> (r: u16)
        requires
            self.base_port <= u16::MAX - 5,
        ensures
            r == self.base_port + 5,
    {
        self.base_port + 5
    }

    /// Whether the line takes a byte.
    pub fn is_transmit_empty(status: u8) -> (r: bool)
        ensures
            r == (status & 0x20 != 0),
    {
        (status & 0x20) != 0
    }

    /// The write that sends a byte.
    pub fn send_byte(&self, byte: u8) -> (r: PortWrite)
        ensures
            r == (PortWrite { port: self.base_port, value: byte, pause: false }),
    {
        PortWrite { port: self.base_port, value: byte, pause: false }
    }

    /// The bytes to send for a text.
    pub fn write_str(&self, s: &[u8]) -> (r: Vec<u8>)
        ensures
            r@ == with_returns(s@),
    {
        let mut out: Vec<u8> = Vec::new();
        let mut i: usize = 0;
        assert(s@.take(0).len() == 0);
        assert(out@ =~= with_returns(s@.take(0)));
        while i < s.len()
            invariant
                i <= s@.len(),
                out@ == with_returns(s@.take(i as int)),
            decreases s@.len() - i,
        {
            assert(s@.take(i + 1).drop_last() =~= s@.take(i as int));
            if s[i] == 10 {
                out.push(13);
            }
            out.push(s[i]);
            i = i + 1;
        }
        assert(s@.take(i as int) =~= s@);
        out
    }
}

/// A text without line feeds is sent as it is.
pub proof fn law_plain_text_is_sent_as_it_is(s: Seq<u8>)
    requires
        forall|i: int| 0 <= i < s.len() ==> (#[trigger] s[i]) != 10,
    ensures
        with_returns(s) == s,
    decreases s.len(),
{
    if s.len() > 0 {
        law_plain_text_is_sent_as_it_is(s.drop_last());
        assert(with_returns(s) =~= s);
    }
}

/// Every line feed that is sent follows a carriage return.
pub proof fn law_line_feed_follows_return(s: Seq<u8>, i: int)
    requires
        0 <= i < with_returns(s).len(),
        with_returns(s)[i] == 10,
    ensures
        i > 0,
        with_returns(s)[i - 1] == 13,
    decreases s.len(),
{
    if s.len() > 0 {
        let t = with_returns(s.drop_last());
        if i < t.len() {
            law_line_feed_follows_return(s.drop_last(), i);
        }
    }
}

/// Text that is sent in two parts is sent as in one, and each byte by itself: a line feed as a
/// return and a line feed, any other byte as it is.
pub proof fn law_text_is_sent_byte_by_byte(s: Seq<u8>, t: Seq<u8>, b: u8)
    ensures
        with_returns(s + t) == with_returns(s) + with_returns(t),
        with_returns(seq![b]) == if b == 10 {
            seq![13u8, 10u8]
        } else {
            seq![b]
        },
    decreases t.len(),
{
    assert(seq![b].drop_last() =~= Seq::empty());
    assert(with_returns(Seq::<u8>::empty()) =~= Seq::empty());
    assert(with_returns(seq![b]) =~= if b == 10 {
        seq![13u8, 10u8]
    } else {
        seq![b]
    });
    if t.len() == 0 {
        assert(s + t =~= s);
        assert(with_returns(s) + with_returns(t) =~= with_returns(s));
    } else {
        law_text_is_sent_byte_by_byte(s, t.drop_last(), b);
        assert((s + t).drop_last() =~= s + t.drop_last());
        assert((s + t).last() == t.last());
        assert(with_returns(s + t) =~= with_returns(s) + with_returns(t));
    }
}

} // verus!
