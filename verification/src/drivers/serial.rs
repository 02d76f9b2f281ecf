//! The 16550 UART on COM1: its set-up sequence and when it takes a byte.
use vstd::prelude::*;

verus! {

pub const PORT_COM1: u16 = 0x3F8;
pub const LINE_STATUS: u16 = 5;

/// A UART by its base I/O port.
#[derive(Debug, Clone, Copy, PartialEq, Eq, Structural)]
pub struct SerialPort {
    pub port: u16,
}

impl SerialPort {
    pub fn new(port: u16) -> (r: Self)
        ensures
            r.port == port,
    {
        SerialPort { port }
    }

    /// The port writes that set the UART up as 115200 baud 8N1 with its FIFO
    /// on: interrupts off, divisor 1, line control, FIFO control, modem
    /// control.
    pub fn init_writes(&self) -> (r: Vec<(u16, u8)>)
        requires
            self.port + 4 <= u16::MAX,
        ensures
            r@ == seq![
                ((self.port + 1) as u16, 0x00u8),
                ((self.port + 3) as u16, 0x80u8),
                (self.port, 0x01u8),
                ((self.port + 1) as u16, 0x00u8),
                ((self.port + 3) as u16, 0x03u8),
                ((self.port + 2) as u16, 0xC7u8),
                ((self.port + 4) as u16, 0x0Bu8),
            ],
    {
        vec![
            (self.port + 1, 0x00u8),
            (self.port + 3, 0x80u8),
            (self.port, 0x01u8),
            (self.port + 1, 0x00u8),
            (self.port + 3, 0x03u8),
            (self.port + 2, 0xC7u8),
            (self.port + 4, 0x0Bu8),
        ]
    }

    /// The line status port polled before each byte.
    pub fn line_status_port(&self) -> (r: u16)
        requires
            self.port + LINE_STATUS <= u16::MAX,
        ensures
            r == self.port + LINE_STATUS,
    {
        self.port + LINE_STATUS
    }

    /// The transmitter holding register is empty: a byte may be written.
    pub fn ready_to_send(line_status: u8) -> (r: bool)
        ensures
            r == (line_status & 0x20 != 0),
    {
        (line_status & 0x20) != 0
    }

    /// The bytes written to the data port for `s`, in order.
    pub fn write_string(&self, s: &[u8]) -> (r: Vec<u8>)
        ensures
            r@ == s@,
    {
        let mut out: Vec<u8> = Vec::new();
        let mut i: usize = 0;
        while i < s.len()
            invariant
                0 <= i <= s@.len(),
                out@ == s@.subrange(0, i as int),
            decreases s@.len() - i,
        {
            out.push(s[i]);
            proof {
                assert(out@ =~= s@.subrange(0, i + 1));
            }
            i = i + 1;
        }
        proof {
            assert(s@.subrange(0, s@.len() as int) =~= s@);
        }
        out
    }
}

} // verus!
