//! The serial console.
//!
//! The receiver raises an interrupt for every byte. The handler puts the bytes
//! that have come into a buffer and wakes a thread that waits for one.
use std::collections::VecDeque;
use vstd::prelude::*;
use crate::sync::condvar::Condvar;

verus! {

/// The first port of the device.
pub const COM1: u16 = 0x3F8;

/// The offset of the data register.
pub const REG_RBR_THR: u16 = 0;

/// The offset of the interrupt enable register.
pub const REG_IER: u16 = 1;

/// The offset of the FIFO control register.
pub const REG_FCR: u16 = 2;

/// The offset of the line control register.
pub const REG_LCR: u16 = 3;

/// The offset of the modem control register.
pub const REG_MCR: u16 = 4;

/// The offset of the line status register.
pub const REG_LSR: u16 = 5;

/// Line status: a byte has come.
pub const LSR_DATA_READY: u8 = 0x01;

/// Line status: the next byte can be sent.
pub const LSR_THR_EMPTY: u8 = 0x20;

/// Interrupt enable: a byte has come.
pub const IER_RX_AVAILABLE: u8 = 0x01;

/// Modem control: let interrupts out.
pub const MCR_OUT2: u8 = 0x08;

/// A byte to write to a port.
#[derive(Copy, Clone, Debug, PartialEq, Eq, Structural)]
pub struct PortWrite {
    pub port: u16,
    pub value: u8,
}

/// The serial console: the bytes that were received and not read yet, and the
/// threads that wait for one.
#[derive(Debug)]
pub struct NS16550a {
    pub read_buffer: VecDeque<u8>,
    pub condvar: Condvar,
}

/// The writes that set the device up: interrupts off, 115200 baud, 8 bits without
/// parity and with one stop bit, an interrupt for every byte, interrupts let out,
/// and on again for bytes that come.
pub open spec fn init_writes() -> Seq<PortWrite> {
    seq![
        PortWrite { port: 0x3F9, value: 0x00 },
        PortWrite { port: 0x3FB, value: 0x80 },
        PortWrite { port: 0x3F8, value: 0x01 },
        PortWrite { port: 0x3F9, value: 0x00 },
        PortWrite { port: 0x3FB, value: 0x03 },
        PortWrite { port: 0x3FA, value: 0x01 },
        PortWrite { port: 0x3FC, value: 0x0B },
        PortWrite { port: 0x3F9, value: 0x01 },
    ]
}

/// Whether the status says that a byte has come.
pub fn data_ready(lsr: u8) -> (r: bool)
    ensures
        r == (lsr & LSR_DATA_READY != 0),
{
    lsr & LSR_DATA_READY != 0
}

/// Whether the status says that the next byte can be sent.
pub fn can_send(lsr: u8) -> (r: bool)
    ensures
        r == (lsr & LSR_THR_EMPTY != 0),
{
    lsr & LSR_THR_EMPTY != 0
}

/// The serial line after thread `current` has asked it for a byte.
pub open spec fn byte_taken(
    before: &NS16550a,
    after: &NS16550a,
    current: usize,
    r: Option<u8>,
) -> bool {
    match r {
        Some(ch) => {
            &&& before.read_buffer@.len() > 0
            &&& ch == before.read_buffer@[0]
            &&& after.read_buffer@ == before.read_buffer@.drop_first()
            &&& after.condvar == before.condvar
        },
        None => {
            &&& before.read_buffer@.len() == 0
            &&& after.read_buffer@ == before.read_buffer@
            &&& after.condvar.inner.wait_queue@ == before.condvar.inner.wait_queue@.push(current)
        },
    }
}

/// The serial line after it has received bytes; `r` is the thread to be woken up.
pub open spec fn bytes_received(
    before: &NS16550a,
    after: &NS16550a,
    received: Seq<u8>,
    r: Option<usize>,
) -> bool {
    let queue = before.condvar.inner.wait_queue@;
    &&& after.read_buffer@ == before.read_buffer@ + received
    &&& if received.len() > 0 && queue.len() > 0 {
        &&& r == Some(queue[0])
        &&& after.condvar.inner.wait_queue@ == queue.drop_first()
    } else {
        &&& r is None
        &&& after.condvar.inner.wait_queue@ == queue
    }
}

impl NS16550a {
    /// A device that has received nothing.
    pub fn new() -> (r: Self)
        ensures
            r.read_buffer@ == Seq::<u8>::empty(),
            r.condvar.inner.wait_queue@ == Seq::<usize>::empty(),
    {
        let r = NS16550a { read_buffer: VecDeque::new(), condvar: Condvar::new() };
        assert(r.read_buffer@ =~= Seq::empty());
        r
    }

    /// The writes that set the device up.
    pub fn init(&self) -> (r: [PortWrite; 8])
        ensures
            r@ == init_writes(),
    {
        assert(0x03u8 | 0x08u8 == 0x0B) by (bit_vector);
        let r = [
            PortWrite { port: COM1 + REG_IER, value: 0x00 },
            PortWrite { port: COM1 + REG_LCR, value: 0x80 },
            PortWrite { port: COM1 + REG_RBR_THR, value: 0x01 },
            PortWrite { port: COM1 + REG_IER, value: 0x00 },
            PortWrite { port: COM1 + REG_LCR, value: 0x03 },
            PortWrite { port: COM1 + REG_FCR, value: 0x01 },
            PortWrite { port: COM1 + REG_MCR, value: 0x03 | MCR_OUT2 },
            PortWrite { port: COM1 + REG_IER, value: IER_RX_AVAILABLE },
        ];
        assert(r@ =~= init_writes());
        r
    }

    /// Read a byte. If none has come, thread `current` has to wait: it is woken
    /// when one has, and tries again.
    pub fn read(&mut self, current: usize) -> (r: Option<u8>)
        ensures
            byte_taken(old(self), final(self), current, r),
    {
        match self.read_buffer.pop_front() {
            Some(ch) => {
                assert(self.read_buffer@ =~= old(self).read_buffer@.drop_first());
                Some(ch)
            },
            None => {
                self.condvar.wait_no_sched(current);
                None
            },
        }
    }

    /// The byte to send, once the status says that it can be.
    pub fn write(&self, ch: u8) -> (r: PortWrite)
        ensures
            r == (PortWrite { port: COM1, value: ch }),
    {
        PortWrite { port: COM1 + REG_RBR_THR, value: ch }
    }

    /// Take in the bytes that were read from the device in an interrupt. If there
    /// are any, the thread that waits longest is to be woken up.
    pub fn handle_irq(&mut self, received: &Vec<u8>) -> (r: Option<usize>)
        ensures
            bytes_received(old(self), final(self), received@, r),
    {
        let mut count: usize = 0;
        assert(self.read_buffer@ =~= old(self).read_buffer@ + received@.take(0));
        while count < received.len()
            invariant
                count <= received@.len(),
                self.read_buffer@ == old(self).read_buffer@ + received@.take(count as int),
                self.condvar == old(self).condvar,
            decreases received@.len() - count,
        {
            self.read_buffer.push_back(received[count]);
            count = count + 1;
            assert(self.read_buffer@ =~= old(self).read_buffer@ + received@.take(count as int));
        }
        assert(received@.take(received@.len() as int) =~= received@);
        if count > 0 {
            self.condvar.signal()
        } else {
            None
        }
    }
}

} // verus!
