//! The first serial console: bytes for COM1 with line feeds sent as CR LF.
use vstd::prelude::*;

verus! {

pub const SERIAL_COM1: u16 = 0x3F8;

/// The bytes that go out for `s`: each line feed preceded by a carriage
/// return.
pub open spec fn wire_bytes(s: Seq<u8>) -> Seq<u8>
    decreases s.len(),
{
    if s.len() == 0 {
        Seq::empty()
    } else {
        let last = s.last();
        wire_bytes(s.drop_last()) + if last == 0x0A {
            seq![0x0Du8, 0x0Au8]
        } else {
            seq![last]
        }
    }
}

/// A serial port by its base I/O port.
#[derive(Debug, Clone, Copy, PartialEq, Eq, Structural)]
pub struct SerialPort {
    pub port: u16,
}

impl SerialPort {
    pub fn new(port: u16) -> (r: Self)
        ensures
            r.port == port,
    {
        SerialPort { port }
    }

    /// The bytes written to the data port to send `s`.
    pub fn send_string(&self, s: &[u8]) -> (r: Vec<u8>)
        ensures
            r@ == wire_bytes(s@),
    {
        let mut out: Vec<u8> = Vec::new();
        let mut i: usize = 0;
        while i < s.len()
            invariant
                0 <= i <= s@.len(),
                out@ == wire_bytes(s@.subrange(0, i as int)),
            decreases s@.len() - i,
        {
            let byte = s[i];
            if byte == 0x0A {
                out.push(0x0D);
            }
            out.push(byte);
            proof {
                let t = s@.subrange(0, i + 1);
                assert(t.drop_last() =~= s@.subrange(0, i as int));
                assert(t.last() == byte);
                if byte == 0x0A {
                    assert(out@ =~= wire_bytes(s@.subrange(0, i as int)) + seq![0x0Du8, 0x0Au8]);
                } else {
                    assert(out@ =~= wire_bytes(s@.subrange(0, i as int)) + seq![byte]);
                }
            }
            i = i + 1;
        }
        proof {
            assert(s@.subrange(0, s@.len() as int) =~= s@);
        }
        out
    }
}

impl Default for SerialPort {
    fn default() -> (r: Self)
        ensures
            r.port == SERIAL_COM1,
    {
        Self::new(SERIAL_COM1)
    }
}

} // verus!
