use md2core::linux_maps::{looks_like_linux_maps, parse_linux_maps};
use md2core::Md2CoreError;

#[test]
fn parses_absolute_file_mappings_and_permissions() {
    let input = b"00400000-00452000 r-xp 00000000 08:02 173521 /bin/cat\n\
                  00e1b000-00e3c000 rw-p 00000000 00:00 0 [heap]\n";

    let mappings = parse_linux_maps(input).unwrap_or_else(|err| panic!("{err:?}"));

    assert_eq!(mappings.len(), 1);
    assert_eq!(mappings[0].start_address, 0x0040_0000);
    assert_eq!(mappings[0].end_address, 0x0045_2000);
    assert_eq!(mappings[0].offset, 0);
    assert!(mappings[0].permissions.is_readable());
    assert!(!mappings[0].permissions.is_writable());
    assert!(mappings[0].permissions.is_executable());
    assert_eq!(mappings[0].filename.as_deref(), Some("/bin/cat"));
}

#[test]
fn detects_linux_maps_masquerading_as_auxv() {
    assert!(looks_like_linux_maps(
        b"00400000-00452000 r-xp 00000000 08:02 173521 /bin/cat"
    ));
    assert!(!looks_like_linux_maps(&[0, 1, 2, 3, 4, 5]));
}

#[test]
fn looks_like_linux_maps_exactly_17_bytes_is_false() {
    let buf = b"00400000-00452000";
    assert_eq!(buf.len(), 17);
    assert!(!looks_like_linux_maps(buf));
}

#[test]
fn looks_like_linux_maps_exactly_18_bytes_is_true() {
    let buf = b"00400000-004520001";
    assert_eq!(buf.len(), 18);
    assert!(looks_like_linux_maps(buf));
}

#[test]
fn looks_like_linux_maps_non_hex_at_position_10() {
    let buf = b"00400000-0Z452000 r-xp 00000000 08:02 173521 /bin/cat";
    assert!(!looks_like_linux_maps(buf));
}

#[test]
fn parse_maps_excludes_heap_mapping() {
    let input = b"00e1b000-00e3c000 rw-p 00000000 00:00 0 [heap]\n";
    let mappings = parse_linux_maps(input).unwrap();
    assert!(mappings.is_empty(), "[heap] mapping should be excluded");
}

#[test]
fn parse_maps_excludes_stack_mapping() {
    let input = b"7fff0000-7fff2000 rw-p 00000000 00:00 0 [stack]\n";
    let mappings = parse_linux_maps(input).unwrap();
    assert!(mappings.is_empty(), "[stack] mapping should be excluded");
}

#[test]
fn parse_maps_excludes_empty_filename() {
    let input = b"7f001000-7f002000 rw-p 00000000 00:00 0\n";
    let mappings = parse_linux_maps(input).unwrap();
    assert!(
        mappings.is_empty(),
        "mapping without filename should be excluded"
    );
}

#[test]
fn parse_maps_includes_deleted_files() {
    let input = b"7f001000-7f002000 r-xp 00000000 08:02 1234 /lib/foo.so (deleted)\n";
    let mappings = parse_linux_maps(input).unwrap();
    assert_eq!(
        mappings.len(),
        1,
        "mapping with /path (deleted) should be included"
    );
    assert_eq!(mappings[0].filename.as_deref(), Some("/lib/foo.so"));
}

#[test]
fn parse_maps_handles_nonzero_offset() {
    let input = b"7f001000-7f002000 r--p 00020000 08:02 1234 /lib/foo.so\n";
    let mappings = parse_linux_maps(input).unwrap();
    assert_eq!(mappings.len(), 1);
    assert_eq!(mappings[0].offset, 0x0002_0000);
    assert_eq!(mappings[0].start_address, 0x7f00_1000);
    assert_eq!(mappings[0].end_address, 0x7f00_2000);
}

#[test]
fn parse_maps_rejects_malformed_line() {
    let input = b"nothex r-xp 00000000 08:02 1234 /bin/foo\n";
    let result = parse_linux_maps(input);
    assert!(
        matches!(result, Err(Md2CoreError::InvalidMapsLine(_))),
        "malformed line should return InvalidMapsLine error, got: {result:?}"
    );
}

#[test]
fn parse_maps_error_carries_the_line() {
    let input = b"00400000-00452000 r-xp 00000000 08:02 1 /bin/a\nzz-10 r-xp 0 0 0 /x\n";
    let result = parse_linux_maps(input);
    assert_eq!(
        result,
        Err(Md2CoreError::InvalidMapsLine("zz-10 r-xp 0 0 0 /x".to_owned()))
    );
}

#[test]
fn parse_maps_rejects_invalid_utf8() {
    let input = b"00400000-00452000 r-xp 0 0 0 /bin/\xff\n";
    assert_eq!(
        parse_linux_maps(input),
        Err(Md2CoreError::InvalidUtf8 { stream: "MD_LINUX_MAPS" })
    );
}

#[test]
fn parse_maps_rejects_empty_range_of_file_mapping() {
    let input = b"00452000-00400000 r-xp 00000000 08:02 1 /bin/a\n";
    assert_eq!(
        parse_linux_maps(input),
        Err(Md2CoreError::InvalidAddressRange {
            start: 0x0045_2000,
            end: 0x0040_0000
        })
    );
}

#[test]
fn parse_maps_skips_empty_range_without_file() {
    let input = b"00452000-00400000 rw-p 00000000 00:00 0\n";
    assert!(parse_linux_maps(input).unwrap().is_empty());
}

#[test]
fn parse_maps_handles_crlf_and_missing_final_newline() {
    let input = b"10000-20000 rw-p 10 0 0 /a\r\n30000-40000 --xp +ff 0 0 /b";
    let mappings = parse_linux_maps(input).unwrap();
    assert_eq!(mappings.len(), 2);
    assert_eq!(mappings[0].filename.as_deref(), Some("/a"));
    assert_eq!(mappings[0].offset, 0x10);
    assert!(mappings[0].permissions.is_writable());
    assert_eq!(mappings[1].start_address, 0x30000);
    assert_eq!(mappings[1].offset, 0xff);
    assert!(!mappings[1].permissions.is_readable());
    assert!(mappings[1].permissions.is_executable());
}

#[test]
fn parse_maps_rejects_short_line() {
    assert!(parse_linux_maps(b"\n").unwrap().is_empty());
    assert!(matches!(
        parse_linux_maps(b"10000-20000 rw-p\n"),
        Err(Md2CoreError::InvalidMapsLine(_))
    ));
}

#[test]
fn parse_maps_rejects_hex_overflow() {
    let input = b"10000000000000000-20000 rw-p 0 0 0 /a\n";
    assert!(matches!(
        parse_linux_maps(input),
        Err(Md2CoreError::InvalidMapsLine(_))
    ));
}

#[test]
fn parse_maps_empty_input_has_no_mappings() {
    assert!(parse_linux_maps(b"").unwrap().is_empty());
}

#[test]
fn parse_maps_skips_blank_line() {
    let input = b"7f001000-7f002000 r--p 00020000 08:02 1234 /lib/foo.so\n\n00400000-00452000 r-xp 00000000 08:02 1 /bin/cat\n";
    let mappings = parse_linux_maps(input).unwrap();
    assert_eq!(mappings.len(), 2);
    assert_eq!(mappings[0].filename.as_deref(), Some("/lib/foo.so"));
    assert_eq!(mappings[1].filename.as_deref(), Some("/bin/cat"));
    // A line of white space only has no fields either.
    assert_eq!(parse_linux_maps(b"   \n").unwrap().len(), 0);
}
