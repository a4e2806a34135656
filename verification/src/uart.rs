//! Model of the byte-wide console transceiver.
//!
//! The real device is a memory-mapped register block; driving it is
//! plain I/O and stays outside this crate. Here the transceiver is a
//! value: bytes written so far, and bytes waiting to be read. The
//! kernel's console layer is verified against this model; the code
//! that moves the bytes over the wire mirrors it outside.

use vstd::prelude::*;

verus! {

/// The console transceiver as the kernel sees it: everything written
/// so far, and the receive queue, at a fixed device address.
pub struct UartWriter {
    pub uart_addr: u64,
    pub written: Vec<u8>,
    pub incoming: Vec<u8>,
}

impl UartWriter {
    /// A freshly configured transceiver: nothing written, nothing
    /// pending.
    pub fn new(uart_addr: u64) -> (r: Self)
        ensures
            r.uart_addr == uart_addr,
            r.written@.len() == 0,
            r.incoming@.len() == 0,
    {
        UartWriter { uart_addr, written: Vec::new(), incoming: Vec::new() }
    }

    /// Sends one byte: it is appended to the transmit log.
    pub fn write_byte(&mut self, byte: u8)
        ensures
            final(self).written@ == old(self).written@.push(byte),
            final(self).incoming@ == old(self).incoming@,
            final(self).uart_addr == old(self).uart_addr,
    {
        self.written.push(byte);
    }

    /// Receives one byte when one is pending: the head of the receive
    /// queue, in arrival order.
    pub fn read_byte(&mut self) -> (r: Option<u8>)
        ensures
            final(self).written@ == old(self).written@,
            final(self).uart_addr == old(self).uart_addr,
            match r {
                Some(b) => old(self).incoming@.len() > 0 && b == old(self).incoming@[0]
                    && final(self).incoming@ == old(self).incoming@.drop_first(),
                None => old(self).incoming@.len() == 0
                    && final(self).incoming@ == old(self).incoming@,
            },
    {
        if self.incoming.len() > 0 {
            let data = self.incoming.remove(0);
            proof {
                assert(final(self).incoming@ =~= old(self).incoming@.drop_first());
            }
            Some(data)
        } else {
            None
        }
    }

    /// Sends a whole message, byte by byte, in order.
    pub fn write_bytes(&mut self, bytes: &[u8])
        ensures
            final(self).written@ == old(self).written@ + bytes@,
            final(self).incoming@ == old(self).incoming@,
            final(self).uart_addr == old(self).uart_addr,
    {
        let mut i: usize = 0;
        proof {
            assert(self.written@ =~= old(self).written@ + bytes@.take(0));
        }
        while i < bytes.len()
            invariant
                i <= bytes@.len(),
                self.written@ == old(self).written@ + bytes@.take(i as int),
                self.incoming@ == old(self).incoming@,
                self.uart_addr == old(self).uart_addr,
            decreases bytes@.len() - i,
        {
            let b = bytes[i];
            self.write_byte(b);
            proof {
                assert(bytes@.take(i + 1) =~= bytes@.take(i as int).push(bytes@[i as int]));
                assert(self.written@ =~= old(self).written@ + bytes@.take(i + 1));
            }
            i = i + 1;
        }
        proof {
            assert(bytes@.take(bytes@.len() as int) =~= bytes@);
        }
    }
}

} // verus!
