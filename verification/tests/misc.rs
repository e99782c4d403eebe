use cuprux::drivers;
use cuprux::drivers::uart;
use cuprux::ipc::{CapId, PortId, TaskId};
use cuprux::libcuprum::ipc::{call, recv, send, Message, PortCap};
use cuprux::libcuprum::Error;
use cuprux::mm::memory::PhysMemory;
use cuprux::mm::pmm::PhysAddr;
use cuprux::syscall::syscall_handler;

#[test]
fn uart_set_up_writes() {
    assert_eq!(
        uart::init(),
        vec![
            (0x3F9, 0x00),
            (0x3FB, 0x80),
            (0x3F8, 0x01),
            (0x3F9, 0x00),
            (0x3FB, 0x03),
            (0x3FA, 0xC7),
            (0x3FC, 0x0B)
        ]
    );
}

#[test]
fn uart_waits_for_the_transmitter() {
    assert!(!uart::transmit_ready(0x00));
    assert!(!uart::transmit_ready(0xDF));
    assert!(uart::transmit_ready(0x20));
    assert!(uart::transmit_ready(0xFF));
}

#[test]
fn print_puts_carriage_return_before_line_feed() {
    assert_eq!(uart::print(""), Vec::<u8>::new());
    assert_eq!(uart::print("ok"), vec![b'o', b'k']);
    assert_eq!(uart::print("a\nb\n"), vec![b'a', b'\r', b'\n', b'b', b'\r', b'\n']);
    assert_eq!(uart::print("\n\n"), vec![b'\r', b'\n', b'\r', b'\n']);
    assert_eq!(uart::print("\r\n"), vec![b'\r', b'\r', b'\n']);
    assert_eq!(drivers::print("x\n"), vec![b'x', b'\r', b'\n']);
    assert_eq!(uart::print("\u{e9}"), vec![0xC3, 0xA9]);
}

#[test]
fn syscalls_are_not_served_yet() {
    for n in 0..=14 {
        assert_eq!(syscall_handler(n, 1, 2, 3), -1);
    }
    assert_eq!(syscall_handler(15, 0, 0, 0), -38);
    assert_eq!(syscall_handler(usize::MAX, 0, 0, 0), -38);
}

#[test]
fn ids_compare_by_number() {
    assert_eq!(PortId(3), PortId(3));
    assert_ne!(CapId(3), CapId(4));
    assert_eq!(TaskId(7).0, 7);
}

#[test]
fn user_library_calls_fail_for_now() {
    let msg = Message { payload: [0; 512], payload_len: 0 };
    assert!(matches!(call(PortCap(1), &msg), Err(Error::Unknown(-1))));
    assert_eq!(send(PortCap(1), &msg), Err(Error::Unknown(-1)));
    assert!(matches!(recv(PortCap(1)), Err(Error::Unknown(-1))));
}

#[test]
fn memory_rejects_bad_extents() {
    assert!(PhysMemory::new(0x1001, 1).is_none());
    assert!(PhysMemory::new(0x7FFF_FFFF_F000, 2).is_none());
    assert!(PhysMemory::new(0x7FFF_FFFF_F000, 1).is_some());
    assert!(PhysMemory::from_words(0x1000, vec![0; 511]).is_none());
    let m = PhysMemory::from_words(0x1000, vec![0x0807_0605_0403_0201; 512]).unwrap();
    assert!(m.has_frame(PhysAddr::new(0x1000)));
    assert!(!m.has_frame(PhysAddr::new(0x2000)));
    assert!(!m.has_frame(PhysAddr::new(0x1008)));
    assert_eq!(m.read(PhysAddr::new(0x1FF8)), 0x0807_0605_0403_0201);
    assert_eq!(m.read_byte(PhysAddr::new(0x1000)), 1);
    assert_eq!(m.read_byte(PhysAddr::new(0x1007)), 8);
}

#[test]
fn zeroing_a_frame_leaves_the_rest() {
    let mut m = PhysMemory::from_words(0x1000, vec![7; 1024]).unwrap();
    m.zero_frame(PhysAddr::new(0x2000));
    assert_eq!(m.read(PhysAddr::new(0x1FF8)), 7);
    assert_eq!(m.read(PhysAddr::new(0x2000)), 0);
    assert_eq!(m.read(PhysAddr::new(0x2FF8)), 0);
    m.write(PhysAddr::new(0x2008), 9);
    assert_eq!(m.read(PhysAddr::new(0x2008)), 9);
    assert_eq!(m.read(PhysAddr::new(0x2000)), 0);
}
