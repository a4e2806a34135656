use andy_mm::csr_stuff::Mstatus;
use andy_mm::csr_stuff::Privilege;
use andy_mm::print;
use andy_mm::uart::UartWriter;

#[test]
fn mstatus_decodes_privilege_levels() {
    assert_eq!(Mstatus::new(0).mpp, Privilege::User);
    assert_eq!(Mstatus::new(1 << 11).mpp, Privilege::Supervisor);
    assert_eq!(Mstatus::new((1 << 12) | (1 << 11)).mpp, Privilege::Machine);
    // other bits of the register do not disturb the field
    assert_eq!(Mstatus::new(0xff | (1 << 11)).mpp, Privilege::Supervisor);
}

#[test]
fn writer_appends_bytes_in_order() {
    let mut writer = UartWriter::new(0x1000_0000);
    writer.write_byte(b'h');
    writer.write_byte(b'i');
    assert_eq!(writer.written, vec![b'h', b'i']);
    assert_eq!(writer.uart_addr, 0x1000_0000);
}

#[test]
fn print_appends_whole_messages() {
    let mut writer = UartWriter::new(0x1000_0000);
    print(&mut writer, b"early boot\n");
    print(&mut writer, b"paging on\n");
    assert_eq!(writer.written, b"early boot\npaging on\n".to_vec());
}

#[test]
fn read_byte_drains_the_receive_queue_in_order() {
    let mut writer = UartWriter::new(0x1000_0000);
    writer.incoming = vec![3, 1, 4];
    assert_eq!(writer.read_byte(), Some(3));
    assert_eq!(writer.read_byte(), Some(1));
    assert_eq!(writer.read_byte(), Some(4));
    assert_eq!(writer.read_byte(), None);
    assert_eq!(writer.written, Vec::<u8>::new());
}
