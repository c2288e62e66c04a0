use rcore_os::drivers::driver::DeviceType;
use rcore_os::fs::stdin::{Stdin, StdinRead};
use rcore_os::fs::stdout::Stdout;
use rcore_os::fs::FsError;

#[test]
fn stdin_reads_what_was_typed() {
    let mut input = Stdin::new();
    assert!(input.is_empty());
    for b in b"hello" {
        input.push(*b);
    }
    let mut buf = [0u8; 3];
    assert_eq!(input.read_at(0, &mut buf), Ok(StdinRead::Read(3)));
    assert_eq!(&buf, b"hel");
    let mut rest = [9u8; 4];
    assert_eq!(input.read_at(0, &mut rest), Ok(StdinRead::Read(2)));
    assert_eq!(&rest, &[b'l', b'o', 9, 9]);
    assert!(input.is_empty());
    // nothing pending: the reader has to wait
    assert_eq!(input.read_at(0, &mut rest), Ok(StdinRead::Wait));
    assert_eq!(&rest, &[b'l', b'o', 9, 9]);
    // something pending but no room: nothing read, no wait
    input.push(7);
    let mut none: [u8; 0] = [];
    assert_eq!(input.read_at(0, &mut none), Ok(StdinRead::Read(0)));
    assert!(!input.is_empty());
}

#[test]
fn stdin_refuses_other_offsets_and_writes() {
    let mut input = Stdin::new();
    input.push(1);
    let mut buf = [0u8; 1];
    assert_eq!(input.read_at(1, &mut buf), Err(FsError::NotSupported));
    assert!(!input.is_empty());
    assert_eq!(input.write_at(0, b"x"), Err(FsError::NotSupported));
    assert_eq!(input.poll(), Err(FsError::NotSupported));
}

#[test]
fn stdout_accepts_text() {
    let out = Stdout;
    assert_eq!(out.write_at(0, "héllo".as_bytes()), Ok((6, "héllo")));
    assert_eq!(out.write_at(0, b""), Ok((0, "")));
}

#[test]
fn stdout_refusals() {
    let out = Stdout;
    assert_eq!(out.write_at(3, b"abc"), Err(FsError::NotSupported));
    assert_eq!(out.write_at(0, &[0xff, 0xfe]), Err(FsError::InvalidParam));
    let mut buf = [0u8; 2];
    assert_eq!(out.read_at(0, &mut buf), Err(FsError::NotSupported));
    assert_eq!(out.poll(), Err(FsError::NotSupported));
}

#[test]
fn device_types_compare() {
    assert_eq!(DeviceType::Block, DeviceType::Block);
}
