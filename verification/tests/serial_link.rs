use agb::serial_link::{
    BaudRate, LinkPortError, LinkPortUart, ReadOutcome, SioControlReg, SioMode, WriteOutcome,
};

#[test]
fn default_uart_packs_to_expected_bits() {
    let reg = SioControlReg::default_uart();
    // 8-bit data (bit 7), FIFO (bit 8), tx (bit 10), rx (bit 11), UART mode (bits 12-13)
    assert_eq!(reg.to_bits(), 0x3D80);
}

#[test]
fn init_packs_baud_interrupts_and_cts() {
    let uart = LinkPortUart::init(BaudRate::B115200, true, true);
    assert_eq!(uart.control, 0x3D80 | 0b11 | (1 << 2) | (1 << 14));

    let plain = LinkPortUart::init(BaudRate::B9600, false, false);
    assert_eq!(plain.control, 0x3D80);
}

#[test]
fn baud_rate_bits_round_trip() {
    for bits in 0..4u16 {
        assert_eq!(BaudRate::from_bits(bits).bits(), bits);
        assert_eq!(SioMode::from_bits(bits).bits(), bits);
    }
}

#[test]
fn control_reg_bits_round_trip() {
    let value: u16 = 0x3D87;
    assert_eq!(SioControlReg::from_bits(value).to_bits(), value);

    let reg = SioControlReg::default_uart()
        .with_baud(BaudRate::B57600)
        .with_interrupts(true)
        .with_cts(false);
    assert_eq!(SioControlReg::from_bits(reg.to_bits()), reg);
}

#[test]
fn read_reports_error_block_or_byte() {
    let uart = LinkPortUart::init(BaudRate::B9600, false, false);

    // error bit 6 set
    assert_eq!(
        uart.read(0x0040, 0x1234),
        ReadOutcome::Failed(LinkPortError::GbaErrorBit)
    );
    // receive buffer empty, bit 5
    assert_eq!(uart.read(0x0020, 0x1234), ReadOutcome::WouldBlock);
    // otherwise the low byte of the data register arrives
    assert_eq!(uart.read(0x0000, 0x1234), ReadOutcome::Received(0x34));
}

#[test]
fn write_reports_error_block_or_transmits() {
    let uart = LinkPortUart::init(BaudRate::B9600, false, false);

    assert_eq!(
        uart.write(0x0040, 0xAB),
        WriteOutcome::Failed(LinkPortError::GbaErrorBit)
    );
    // send buffer full, bit 4
    assert_eq!(uart.write(0x0010, 0xAB), WriteOutcome::WouldBlock);
    assert_eq!(uart.write(0x0000, 0xAB), WriteOutcome::Transmit(0x00AB));

    assert_eq!(uart.flush(0x0000), Ok(()));
    assert_eq!(uart.flush(0x0010), Err(WriteOutcome::WouldBlock));
}
