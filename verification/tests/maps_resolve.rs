use tracectl::errors::TraceError;
use tracectl::maps::{parse_hex, parse_region_line, resolve_module_base, snapshot, MemoryRegion, Permissions};

fn region(start: u64, end: u64, execute: bool, path: Option<&[u8]>) -> MemoryRegion {
    MemoryRegion {
        start,
        end,
        perms: Permissions { read: true, write: false, execute, private: true },
        file_offset: 0,
        path: path.map(|p| p.to_vec()),
    }
}

#[test]
fn parse_hex_field() {
    assert_eq!(parse_hex(&b"ff".to_vec()), Some(255));
    assert_eq!(parse_hex(&b"7f0000000000".to_vec()), Some(0x7f00_0000_0000));
    assert_eq!(parse_hex(&b"0".to_vec()), Some(0));
    assert_eq!(parse_hex(&b"ffffffffffffffff".to_vec()), Some(u64::MAX));
    assert_eq!(parse_hex(&Vec::new()), None);
    assert_eq!(parse_hex(&b"xyz".to_vec()), None);
    // One digit too many no longer fits a word.
    assert_eq!(parse_hex(&b"10000000000000000".to_vec()), None);
}

#[test]
fn parse_full_line() {
    let line = b"7f0000000000-7f0000020000 r-xp 00001000 08:01 12345 /usr/lib/libc.so.6".to_vec();
    let r = parse_region_line(&line).unwrap();
    assert_eq!(r.start, 0x7f00_0000_0000);
    assert_eq!(r.end, 0x7f00_0002_0000);
    assert_eq!(r.perms, Permissions { read: true, write: false, execute: true, private: true });
    assert_eq!(r.file_offset, 0x1000);
    assert_eq!(r.path.as_deref(), Some(b"/usr/lib/libc.so.6".as_ref()));
}

#[test]
fn parse_line_without_path() {
    let line = b"7fff0000000-7fff0020000 rw-p 00000000 00:00 0".to_vec();
    let r = parse_region_line(&line).unwrap();
    assert!(r.path.is_none());
    assert!(r.perms.read && r.perms.write && !r.perms.execute && r.perms.private);
}

#[test]
fn parse_shared_flag() {
    let line = b"1000-2000 rw-s 00000000 00:00 0".to_vec();
    let r = parse_region_line(&line).unwrap();
    assert!(!r.perms.private);
}

#[test]
fn malformed_lines_rejected() {
    assert!(parse_region_line(&b"".to_vec()).is_none());
    assert!(parse_region_line(&b"not a mapping line".to_vec()).is_none());
    assert!(parse_region_line(&b"10002000 r-xp 0 08:01 1 /x".to_vec()).is_none());
    assert!(parse_region_line(&b"1000-zzzz r-xp 0 08:01 1 /x".to_vec()).is_none());
    assert!(parse_region_line(&b"1000-2000 r-xpq 0 08:01 1 /x".to_vec()).is_none());
}

#[test]
fn snapshot_keeps_wellformed_lines() {
    let text = b"\
1000-2000 r--p 00000000 08:01 77 /usr/lib/libc.so.6\n\
garbage\n\
3000-4000 r-xp 00002000 08:01 77 /usr/lib/libc.so.6\n\
5000-6000 rw-p 00000000 00:00 0\n"
        .to_vec();
    let regions = snapshot(&text);
    assert_eq!(regions.len(), 3);
    assert_eq!(regions[0].start, 0x1000);
    assert_eq!(regions[1].start, 0x3000);
    assert!(regions[1].perms.execute);
    assert!(regions[2].path.is_none());
}

#[test]
fn resolve_executable_match() {
    // The executable region decides the base, not the earlier read-only one.
    let regions = vec![
        region(0x7f00_0000_0000, 0x7f00_0002_0000, false, Some(b"/usr/lib/libc.so.6")),
        region(0x7f00_0002_0000, 0x7f00_0004_0000, true, Some(b"/usr/lib/libc.so.6")),
    ];
    let base = resolve_module_base(&regions, &b"libc.so.6".to_vec()).unwrap();
    assert_eq!(base, 0x7f00_0002_0000);
}

#[test]
fn resolve_single_executable_region() {
    let regions = vec![region(0x7f00_0000_0000, 0x7f00_0002_0000, true, Some(b"/usr/lib/libc.so.6"))];
    let base = resolve_module_base(&regions, &b"libc.so.6".to_vec()).unwrap();
    assert_eq!(base, 0x7f00_0000_0000);
}

#[test]
fn resolve_not_executable() {
    let regions = vec![region(0x7f00_0000_0000, 0x7f00_0002_0000, false, Some(b"/usr/lib/libc.so.6"))];
    let e = resolve_module_base(&regions, &b"libc.so.6".to_vec()).unwrap_err();
    assert_eq!(e, TraceError::NotExecutableSegment);
}

#[test]
fn resolve_not_found() {
    let regions = vec![
        region(0x1000, 0x2000, true, Some(b"/usr/lib/libm.so.6")),
        region(0x3000, 0x4000, true, None),
    ];
    let e = resolve_module_base(&regions, &b"libc.so.6".to_vec()).unwrap_err();
    assert_eq!(e, TraceError::ModuleNotFound);
}

#[test]
fn snapshot_then_resolve() {
    let text = b"\
7f0000000000-7f0000020000 r--p 00000000 08:01 77 /usr/lib/libc.so.6\n\
7f0000020000-7f0000040000 r-xp 00020000 08:01 77 /usr/lib/libc.so.6\n"
        .to_vec();
    let regions = snapshot(&text);
    let base = resolve_module_base(&regions, &b"libc.so.6".to_vec()).unwrap();
    assert_eq!(base, 0x7f00_0002_0000);
}
