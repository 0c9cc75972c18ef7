//! Bit-level model of the serial I/O control register and the decisions
//! the UART driver takes from it. Reading and writing the memory-mapped
//! hardware registers is left to the embedding program; everything here
//! is a pure function from register values to register values or
//! outcomes.

use vstd::prelude::*;

verus! {

/// The one error the link port reports: the hardware error bit is set.
#[derive(Clone, Copy, Debug, PartialEq, Eq, Structural)]
pub enum LinkPortError {
    GbaErrorBit,
}

/// Baud rate selection, bits 0-1 of the control register.
#[derive(Clone, Copy, Debug, PartialEq, Eq, Structural)]
pub enum BaudRate {
    B9600,
    B38400,
    B57600,
    B115200,
}

impl BaudRate {
    /// The two-bit encoding of this baud rate.
    pub open spec fn spec_bits(self) -> u16 {
        match self {
            BaudRate::B9600 => 0b00,
            BaudRate::B38400 => 0b01,
            BaudRate::B57600 => 0b10,
            BaudRate::B115200 => 0b11,
        }
    }

    /// Encode the baud rate into its two register bits.
    pub fn bits(self) -> (r: u16)
        ensures
            r == self.spec_bits(),
    {
        match self {
            BaudRate::B9600 => 0b00,
            BaudRate::B38400 => 0b01,
            BaudRate::B57600 => 0b10,
            BaudRate::B115200 => 0b11,
        }
    }

    /// Decode two register bits into a baud rate.
    pub fn from_bits(value: u16) -> (r: Self)
        requires
            value <= 0b11,
        ensures
            r.spec_bits() == value,
    {
        if value == 0b00 {
            BaudRate::B9600
        } else if value == 0b01 {
            BaudRate::B38400
        } else if value == 0b10 {
            BaudRate::B57600
        } else {
            BaudRate::B115200
        }
    }
}

/// Serial transfer mode, bits 12-13 of the control register.
#[derive(Clone, Copy, Debug, PartialEq, Eq, Structural)]
pub enum SioMode {
    Normal8bit,
    Multiplayer,
    Normal32bit,
    Uart,
}

impl SioMode {
    /// The two-bit encoding of this mode.
    pub open spec fn spec_bits(self) -> u16 {
        match self {
            SioMode::Normal8bit => 0b00,
            SioMode::Multiplayer => 0b01,
            SioMode::Normal32bit => 0b10,
            SioMode::Uart => 0b11,
        }
    }

    /// Encode the mode into its two register bits.
    pub fn bits(self) -> (r: u16)
        ensures
            r == self.spec_bits(),
    {
        match self {
            SioMode::Normal8bit => 0b00,
            SioMode::Multiplayer => 0b01,
            SioMode::Normal32bit => 0b10,
            SioMode::Uart => 0b11,
        }
    }

    /// Decode two register bits into a mode.
    pub fn from_bits(value: u16) -> (r: Self)
        requires
            value <= 0b11,
        ensures
            r.spec_bits() == value,
    {
        if value == 0b00 {
            SioMode::Normal8bit
        } else if value == 0b01 {
            SioMode::Multiplayer
        } else if value == 0b10 {
            SioMode::Normal32bit
        } else {
            SioMode::Uart
        }
    }
}

/// A single control-register flag.
#[derive(Clone, Copy, Debug, PartialEq, Eq, Structural)]
pub struct BoolField(pub bool);

impl BoolField {
    /// The flag as its register bit.
    pub open spec fn spec_bit(self) -> u16 {
        if self.0 {
            1
        } else {
            0
        }
    }

    /// The flag as its register bit.
    pub fn bit(self) -> (r: u16)
        ensures
            r == self.spec_bit(),
    {
        if self.0 {
            1
        } else {
            0
        }
    }

    /// A flag read from a masked register value: set when nonzero.
    pub fn from_masked(value: u16) -> (r: Self)
        ensures
            r.0 == (value != 0),
    {
        BoolField(value != 0)
    }
}

/// The serial I/O control register, field by field. Bits: 0-1 baud rate,
/// 2 flow control, 3 odd parity, 4 send buffer full, 5 receive buffer
/// empty, 6 error, 7 8-bit data, 8 FIFO enable, 9 parity enable, 10
/// transmitter on, 11 receiver on, 12-13 mode, 14 interrupt request
/// enable.
#[derive(Clone, Copy, Debug, PartialEq, Eq, Structural)]
pub struct SioControlReg {
    pub baud_rate: BaudRate,
    pub flow_control: BoolField,
    pub parity_odd: BoolField,
    pub send_full: BoolField,
    pub recv_empty: BoolField,
    pub error: BoolField,
    pub data_8bit: BoolField,
    pub fifo_enabled: BoolField,
    pub parity_enabled: BoolField,
    pub tx_enabled: BoolField,
    pub rx_enabled: BoolField,
    pub mode: SioMode,
    pub irq_enable: BoolField,
}

impl SioControlReg {
    /// The packed register value, each field at its bit position.
    pub open spec fn spec_bits(self) -> u16 {
        self.baud_rate.spec_bits() | (self.flow_control.spec_bit() << 2) | (
        self.parity_odd.spec_bit() << 3) | (self.send_full.spec_bit() << 4) | (
        self.recv_empty.spec_bit() << 5) | (self.error.spec_bit() << 6) | (
        self.data_8bit.spec_bit() << 7) | (self.fifo_enabled.spec_bit() << 8) | (
        self.parity_enabled.spec_bit() << 9) | (self.tx_enabled.spec_bit() << 10) | (
        self.rx_enabled.spec_bit() << 11) | (self.mode.spec_bits() << 12) | (
        self.irq_enable.spec_bit() << 14)
    }

    /// The register configured for 8-bit UART with FIFO, transmit and
    /// receive enabled, and everything else off.
    pub fn default_uart() -> (r: Self)
        ensures
            r == (SioControlReg {
                baud_rate: BaudRate::B9600,
                flow_control: BoolField(false),
                parity_odd: BoolField(false),
                send_full: BoolField(false),
                recv_empty: BoolField(false),
                error: BoolField(false),
                data_8bit: BoolField(true),
                fifo_enabled: BoolField(true),
                parity_enabled: BoolField(false),
                tx_enabled: BoolField(true),
                rx_enabled: BoolField(true),
                mode: SioMode::Uart,
                irq_enable: BoolField(false),
            }),
    {
        SioControlReg {
            baud_rate: BaudRate::B9600,
            flow_control: BoolField(false),
            parity_odd: BoolField(false),
            send_full: BoolField(false),
            recv_empty: BoolField(false),
            error: BoolField(false),
            data_8bit: BoolField(true),
            fifo_enabled: BoolField(true),
            parity_enabled: BoolField(false),
            tx_enabled: BoolField(true),
            rx_enabled: BoolField(true),
            mode: SioMode::Uart,
            irq_enable: BoolField(false),
        }
    }

    /// The same register with the baud rate replaced.
    pub fn with_baud(self, rate: BaudRate) -> (r: Self)
        ensures
            r == (SioControlReg { baud_rate: rate, ..self }),
    {
        SioControlReg { baud_rate: rate, ..self }
    }

    /// The same register with interrupt requests switched.
    pub fn with_interrupts(self, interrupts: bool) -> (r: Self)
        ensures
            r == (SioControlReg { irq_enable: BoolField(interrupts), ..self }),
    {
        SioControlReg { irq_enable: BoolField(interrupts), ..self }
    }

    /// The same register with hardware flow control switched.
    pub fn with_cts(self, clear_to_send: bool) -> (r: Self)
        ensures
            r == (SioControlReg { flow_control: BoolField(clear_to_send), ..self }),
    {
        SioControlReg { flow_control: BoolField(clear_to_send), ..self }
    }

    /// Pack the register into its hardware value.
    pub fn to_bits(self) -> (r: u16)
        ensures
            r == self.spec_bits(),
    {
        self.baud_rate.bits() | (self.flow_control.bit() << 2) | (self.parity_odd.bit() << 3) | (
        self.send_full.bit() << 4) | (self.recv_empty.bit() << 5) | (self.error.bit() << 6) | (
        self.data_8bit.bit() << 7) | (self.fifo_enabled.bit() << 8) | (self.parity_enabled.bit()
            << 9) | (self.tx_enabled.bit() << 10) | (self.rx_enabled.bit() << 11) | (
        self.mode.bits() << 12) | (self.irq_enable.bit() << 14)
    }

    /// Unpack a hardware value into its fields.
    pub fn from_bits(value: u16) -> (r: Self)
        ensures
            r.baud_rate.spec_bits() == value & 0b11,
            r.flow_control.0 == ((value & 0x0004) != 0),
            r.parity_odd.0 == ((value & 0x0008) != 0),
            r.send_full.0 == ((value & 0x0010) != 0),
            r.recv_empty.0 == ((value & 0x0020) != 0),
            r.error.0 == ((value & 0x0040) != 0),
            r.data_8bit.0 == ((value & 0x0080) != 0),
            r.fifo_enabled.0 == ((value & 0x0100) != 0),
            r.parity_enabled.0 == ((value & 0x0200) != 0),
            r.tx_enabled.0 == ((value & 0x0400) != 0),
            r.rx_enabled.0 == ((value & 0x0800) != 0),
            r.mode.spec_bits() == (value & 0x3000) >> 12,
            r.irq_enable.0 == ((value & 0x4000) != 0),
    {
        proof {
            assert(value & 0b11 <= 0b11) by (bit_vector);
            assert((value & 0x3000) >> 12 <= 0b11) by (bit_vector);
        }
        SioControlReg {
            baud_rate: BaudRate::from_bits(value & 0b11),
            flow_control: BoolField::from_masked(value & 0x0004),
            parity_odd: BoolField::from_masked(value & 0x0008),
            send_full: BoolField::from_masked(value & 0x0010),
            recv_empty: BoolField::from_masked(value & 0x0020),
            error: BoolField::from_masked(value & 0x0040),
            data_8bit: BoolField::from_masked(value & 0x0080),
            fifo_enabled: BoolField::from_masked(value & 0x0100),
            parity_enabled: BoolField::from_masked(value & 0x0200),
            tx_enabled: BoolField::from_masked(value & 0x0400),
            rx_enabled: BoolField::from_masked(value & 0x0800),
            mode: SioMode::from_bits((value & 0x3000) >> 12),
            irq_enable: BoolField::from_masked(value & 0x4000),
        }
    }
}

/// What a non-blocking read of the link port comes to.
#[derive(Clone, Copy, Debug, PartialEq, Eq, Structural)]
pub enum ReadOutcome {
    Failed(LinkPortError),
    WouldBlock,
    Received(u8),
}

/// What a non-blocking write of the link port comes to: on `Transmit`
/// the embedding program stores the carried value in the data register.
#[derive(Clone, Copy, Debug, PartialEq, Eq, Structural)]
pub enum WriteOutcome {
    Failed(LinkPortError),
    WouldBlock,
    Transmit(u16),
}

/// The control register a fresh UART link is configured with: the 8-bit
/// FIFO UART defaults carrying the chosen baud rate, interrupt enable
/// and flow control.
pub open spec fn uart_control(rate: BaudRate, with_interrupts: bool, clear_to_send: bool) -> u16 {
    (SioControlReg {
        baud_rate: rate,
        flow_control: BoolField(clear_to_send),
        parity_odd: BoolField(false),
        send_full: BoolField(false),
        recv_empty: BoolField(false),
        error: BoolField(false),
        data_8bit: BoolField(true),
        fifo_enabled: BoolField(true),
        parity_enabled: BoolField(false),
        tx_enabled: BoolField(true),
        rx_enabled: BoolField(true),
        mode: SioMode::Uart,
        irq_enable: BoolField(with_interrupts),
    }).spec_bits()
}

/// The UART driver: holds the control value it was initialised with; the
/// embedding program writes that value to the hardware control register
/// and feeds observed register values back into the decision functions.
pub struct LinkPortUart {
    pub control: u16,
}

impl LinkPortUart {
    /// Configure a UART link: the default 8-bit FIFO UART with the given
    /// baud rate, interrupt enable and flow control packed into the
    /// control value to be stored to the hardware.
    pub fn init(rate: BaudRate, with_interrupts: bool, clear_to_send: bool) -> (r: Self)
        ensures
            r.control == uart_control(rate, with_interrupts, clear_to_send),
    {
        let reg: u16 = SioControlReg::default_uart().with_baud(rate).with_interrupts(
            with_interrupts,
        ).with_cts(clear_to_send).to_bits();
        LinkPortUart { control: reg }
    }

    /// Decide a read from the observed control and data register values:
    /// the error bit fails it, an empty receive buffer blocks it, and
    /// otherwise the low byte of the data register is received.
    pub fn read(&self, siocnt: u16, siodata: u16) -> (r: ReadOutcome)
        ensures
            (siocnt & 0x0040) != 0 ==> r == ReadOutcome::Failed(LinkPortError::GbaErrorBit),
            (siocnt & 0x0040) == 0 && (siocnt & 0x0020) != 0 ==> r == ReadOutcome::WouldBlock,
            (siocnt & 0x0040) == 0 && (siocnt & 0x0020) == 0 ==> r == ReadOutcome::Received(
                (siodata & 0xFF) as u8,
            ),
    {
        let reg = SioControlReg::from_bits(siocnt);
        if reg.error.0 {
            ReadOutcome::Failed(LinkPortError::GbaErrorBit)
        } else if reg.recv_empty.0 {
            ReadOutcome::WouldBlock
        } else {
            proof {
                assert(siodata & 0xFF < 256) by (bit_vector);
            }
            ReadOutcome::Received((siodata & 0xFF) as u8)
        }
    }

    /// Decide whether the send buffer can take another word: the error
    /// bit fails it, a full send buffer blocks it.
    pub fn flush(&self, siocnt: u16) -> (r: Result<(), WriteOutcome>)
        ensures
            (siocnt & 0x0040) != 0 ==> r == Err::<(), WriteOutcome>(
                WriteOutcome::Failed(LinkPortError::GbaErrorBit),
            ),
            (siocnt & 0x0040) == 0 && (siocnt & 0x0010) != 0 ==> r == Err::<(), WriteOutcome>(
                WriteOutcome::WouldBlock,
            ),
            (siocnt & 0x0040) == 0 && (siocnt & 0x0010) == 0 ==> r == Ok::<(), WriteOutcome>(()),
    {
        let reg = SioControlReg::from_bits(siocnt);
        if reg.error.0 {
            Err(WriteOutcome::Failed(LinkPortError::GbaErrorBit))
        } else if reg.send_full.0 {
            Err(WriteOutcome::WouldBlock)
        } else {
            Ok(())
        }
    }

    /// Decide a write of `word` from the observed control register: when
    /// the port can send, the value to store in the data register is
    /// handed back.
    pub fn write(&self, siocnt: u16, word: u8) -> (r: WriteOutcome)
        ensures
            (siocnt & 0x0040) != 0 ==> r == WriteOutcome::Failed(LinkPortError::GbaErrorBit),
            (siocnt & 0x0040) == 0 && (siocnt & 0x0010) != 0 ==> r == WriteOutcome::WouldBlock,
            (siocnt & 0x0040) == 0 && (siocnt & 0x0010) == 0 ==> r == WriteOutcome::Transmit(
                word as u16,
            ),
    {
        match self.flush(siocnt) {
            Ok(_) => WriteOutcome::Transmit(word as u16),
            Err(e) => e,
        }
    }
}

} // verus!
