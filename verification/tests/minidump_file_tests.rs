use md2core::minidump_file::{optional_raw_stream, read_process_from_bytes};
use md2core::model::Architecture;
use md2core::rust_minidump::ConvertOptions;
use md2core::Md2CoreError;

fn put32(b: &mut Vec<u8>, v: u32) {
    b.extend_from_slice(&v.to_le_bytes());
}

/// A minidump with a system info stream (x86-64 Linux) and a command line.
fn small_dump(cmdline: &[u8]) -> Vec<u8> {
    let mut b = Vec::new();
    // Header: signature, version, two streams, directory at 32.
    put32(&mut b, 0x504d_444d);
    put32(&mut b, 0xa793);
    put32(&mut b, 2);
    put32(&mut b, 32);
    put32(&mut b, 0);
    put32(&mut b, 0);
    b.extend_from_slice(&[0u8; 8]);
    // Directory: system info at 56, command line at 112.
    for (ty, size, rva) in [(7u32, 56u32, 56u32), (0x4767_0006, cmdline.len() as u32, 112)] {
        put32(&mut b, ty);
        put32(&mut b, size);
        put32(&mut b, rva);
    }
    assert_eq!(b.len(), 56);
    // MINIDUMP_SYSTEM_INFO: AMD64, one processor, Linux.
    b.extend_from_slice(&9u16.to_le_bytes());
    b.extend_from_slice(&[0u8; 4]);
    b.push(1);
    b.push(0);
    b.extend_from_slice(&[0u8; 12]);
    put32(&mut b, 0x8201);
    put32(&mut b, 0);
    b.extend_from_slice(&[0u8; 4]);
    b.extend_from_slice(&[0u8; 24]);
    assert_eq!(b.len(), 112);
    b.extend_from_slice(cmdline);
    b
}

fn options() -> ConvertOptions {
    ConvertOptions { mangle_sonames: false, so_base_dir: None, verbose: false }
}

#[test]
fn reads_process_from_minidump_bytes() {
    let dump = small_dump(b"/bin/app\0--flag\0");
    let process = read_process_from_bytes(&dump, &options()).unwrap().unwrap();
    assert_eq!(process.architecture(), Architecture::X86_64);
    assert!(process.threads().is_empty());
    assert!(process.mappings().is_empty());
    assert_eq!(&process.process_info().filename[..4], b"app\0");
    assert_eq!(&process.process_info().arguments[..15], b"/bin/app --flag");
}

#[test]
fn raw_stream_present_and_absent() {
    let dump = small_dump(b"x\0");
    assert_eq!(optional_raw_stream(&dump, 0x4767_0006), Ok(Some(b"x\0".to_vec())));
    assert_eq!(optional_raw_stream(&dump, 0x4767_0008), Ok(None));
}

#[test]
fn bytes_that_are_no_minidump_fail_to_read() {
    let r = read_process_from_bytes(b"not a minidump file, just some plain text here", &options());
    assert_eq!(
        r.unwrap().err(),
        Some(Md2CoreError::MinidumpRead(minidump::Error::HeaderMismatch))
    );
}
