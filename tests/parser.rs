use open_wallpaper_engine::error::WPPkgFsError;
use open_wallpaper_engine::limited::LimitedBinaryStream;
use open_wallpaper_engine::pkg::{is_pkg_header, WPPkgFs};
use open_wallpaper_engine::stream::{Endian, FsBinaryStream};

fn sized(bytes: &[u8]) -> Vec<u8> {
    let mut out = (bytes.len() as u32).to_le_bytes().to_vec();
    out.extend_from_slice(bytes);
    out
}

/// A container with the given header and (path, payload) entries, payloads
/// packed back to back in table order.
fn container(header: &str, entries: &[(&str, &[u8])]) -> Vec<u8> {
    let mut out = sized(header.as_bytes());
    out.extend_from_slice(&(entries.len() as u32).to_le_bytes());
    let mut offset: u32 = 0;
    for (path, payload) in entries {
        out.extend(sized(path.as_bytes()));
        out.extend_from_slice(&offset.to_le_bytes());
        out.extend_from_slice(&(payload.len() as u32).to_le_bytes());
        offset += payload.len() as u32;
    }
    for (_, payload) in entries {
        out.extend_from_slice(payload);
    }
    out
}

fn drain(rd: &mut LimitedBinaryStream) -> Vec<u8> {
    let mut all = Vec::new();
    while rd.remaining() > 0 {
        all.extend(rd.read(3).unwrap());
    }
    all
}

#[test]
fn test_with_parser() {
    let data = container(
        "PKGV0019",
        &[("scene.json", b"{\"camera\":{}}"), ("materials/a.json", b"{}"), ("models/a.json", b"[]")],
    );
    let pkgfs = WPPkgFs::parse("./fixtures/2862745478/scene.pkg", data).unwrap();

    println!("{}", pkgfs.files.len());
    assert_eq!(pkgfs.files.len(), 3);
}

#[test]
fn scenario_single_entry_reads_hello() {
    let data = container("PKGX", &[("a.txt", b"hello")]);
    let pkgfs = WPPkgFs::parse("a.pkg", data.clone()).unwrap();
    let mut rd = pkgfs.open("/a.txt", data).unwrap();
    assert_eq!(rd.read(5).unwrap(), b"hello".to_vec());
    assert_eq!(rd.read(1).unwrap_err(), WPPkgFsError::EndOfWindow);
}

#[test]
fn scenario_empty_archive() {
    let data = container("PKGV0001", &[]);
    let pkgfs = WPPkgFs::parse("empty.pkg", data.clone()).unwrap();
    assert!(pkgfs.list().is_empty());
    assert!(!pkgfs.contains("/x"));
    assert!(pkgfs.open("/x", data).is_none());
}

#[test]
fn list_and_contains_agree() {
    let data = container("PKGV0002", &[("a", b"1"), ("b/c", b"22"), ("d", b"")]);
    let pkgfs = WPPkgFs::parse("x.pkg", data).unwrap();
    let listed = pkgfs.list();
    assert_eq!(listed, vec!["/a".to_string(), "/b/c".to_string(), "/d".to_string()]);
    for p in &listed {
        assert!(pkgfs.contains(p));
    }
    assert!(!pkgfs.contains("a"));
    assert!(!pkgfs.contains("/b"));
}

#[test]
fn round_trip_every_entry() {
    let entries: [(&str, &[u8]); 3] = [("one", b"first"), ("two", b""), ("three", b"the third payload")];
    let data = container("PKGV0003", &entries);
    let pkgfs = WPPkgFs::parse("x.pkg", data.clone()).unwrap();
    for (path, payload) in entries.iter() {
        let mut rd = pkgfs.open(&format!("/{}", path), data.clone()).unwrap();
        assert_eq!(rd.read(payload.len()).unwrap(), payload.to_vec());
        assert_eq!(rd.read(1).unwrap_err(), WPPkgFsError::EndOfWindow);
        rd.reset();
        assert_eq!(drain(&mut rd), payload.to_vec());
    }
}

#[test]
fn offsets_are_absolute() {
    let data = container("PKGX", &[("a.txt", b"hello"), ("b", b"xyz")]);
    let pkgfs = WPPkgFs::parse("x.pkg", data.clone()).unwrap();
    // header: 4 + 4, count: 4, records: (4 + 5 + 8) + (4 + 1 + 8)
    let base: u64 = 8 + 4 + 17 + 13;
    assert_eq!(pkgfs.files[0].offset, base);
    assert_eq!(pkgfs.files[0].length, 5);
    assert_eq!(pkgfs.files[1].offset, base + 5);
    assert_eq!(pkgfs.files[1].length, 3);
    assert_eq!(pkgfs.files[1].offset + pkgfs.files[1].length, data.len() as u64);
    assert_eq!(pkgfs.path, "x.pkg");
}

#[test]
fn parsing_twice_gives_same_index() {
    let data = container("PKGV0004", &[("a", b"1"), ("a", b"2"), ("b", b"3")]);
    let first = WPPkgFs::parse("x.pkg", data.clone()).unwrap();
    let second = WPPkgFs::parse("x.pkg", data).unwrap();
    assert_eq!(first.files.len(), second.files.len());
    for (f, g) in first.files.iter().zip(second.files.iter()) {
        assert_eq!(f.path, g.path);
        assert_eq!(f.offset, g.offset);
        assert_eq!(f.length, g.length);
    }
}

#[test]
fn duplicate_paths_open_the_first() {
    let data = container("PKGV0004", &[("a", b"first"), ("a", b"second")]);
    let pkgfs = WPPkgFs::parse("x.pkg", data.clone()).unwrap();
    let mut rd = pkgfs.open("/a", data).unwrap();
    assert_eq!(drain(&mut rd), b"first".to_vec());
}

#[test]
fn bad_header_is_refused() {
    let mut data = container("ZIP1", &[("a", b"1")]);
    assert_eq!(WPPkgFs::parse("x.pkg", data.clone()).unwrap_err(), WPPkgFsError::InvalidFileHeader);
    // Only the header record is read: what follows does not matter.
    data.truncate(8);
    assert_eq!(WPPkgFs::parse("x.pkg", data).unwrap_err(), WPPkgFsError::InvalidFileHeader);
    assert_eq!(WPPkgFs::parse("x.pkg", sized(b"PK")).unwrap_err(), WPPkgFsError::InvalidFileHeader);
}

#[test]
fn truncated_container_is_refused() {
    let data = container("PKGX", &[("a.txt", b"hello")]);
    assert_eq!(WPPkgFs::parse("x.pkg", data[..2].to_vec()).unwrap_err(), WPPkgFsError::UnexpectedEof);
    assert_eq!(WPPkgFs::parse("x.pkg", data[..20].to_vec()).unwrap_err(), WPPkgFsError::UnexpectedEof);
    // payload cut short: the entry would run past the end
    let cut = data.len() - 1;
    assert_eq!(WPPkgFs::parse("x.pkg", data[..cut].to_vec()).unwrap_err(), WPPkgFsError::UnexpectedEof);
    assert_eq!(WPPkgFs::parse("x.pkg", Vec::new()).unwrap_err(), WPPkgFsError::UnexpectedEof);
}

#[test]
fn invalid_utf8_path_is_refused() {
    let mut data = sized(b"PKGX");
    data.extend_from_slice(&1u32.to_le_bytes());
    data.extend(sized(&[0xff, 0xfe]));
    data.extend_from_slice(&0u32.to_le_bytes());
    data.extend_from_slice(&0u32.to_le_bytes());
    assert_eq!(WPPkgFs::parse("x.pkg", data).unwrap_err(), WPPkgFsError::InvalidUtf8);
}

#[test]
fn seek_outside_window_is_refused() {
    let data = container("PKGX", &[("a.txt", b"hello")]);
    let pkgfs = WPPkgFs::parse("x.pkg", data.clone()).unwrap();
    let start = pkgfs.files[0].offset;
    let mut rd = pkgfs.open("/a.txt", data).unwrap();
    assert_eq!(rd.position(), start);
    assert_eq!(rd.seek(start - 1).unwrap_err(), WPPkgFsError::OutOfRange);
    assert_eq!(rd.seek(start + 6).unwrap_err(), WPPkgFsError::OutOfRange);
    rd.seek(start + 3).unwrap();
    assert_eq!(rd.read(10).unwrap(), b"lo".to_vec());
    rd.seek(start + 5).unwrap();
    assert_eq!(rd.read(0).unwrap(), Vec::<u8>::new());
    assert_eq!(rd.read(1).unwrap_err(), WPPkgFsError::EndOfWindow);
}

#[test]
fn window_never_shows_neighbouring_bytes() {
    let data = container("PKGX", &[("a", b"AAAA"), ("b", b"BBBB")]);
    let pkgfs = WPPkgFs::parse("x.pkg", data.clone()).unwrap();
    let mut rd = pkgfs.open("/a", data).unwrap();
    assert_eq!(rd.read(100).unwrap(), b"AAAA".to_vec());
    assert_eq!(rd.remaining(), 0);
}

#[test]
fn window_past_backing_bytes_fails() {
    let data = container("PKGX", &[("a", b"AAAA")]);
    let pkgfs = WPPkgFs::parse("x.pkg", data.clone()).unwrap();
    let short = data[..data.len() - 2].to_vec();
    let mut rd = pkgfs.open("/a", short).unwrap();
    assert_eq!(rd.read(4).unwrap_err(), WPPkgFsError::UnexpectedEof);
    assert_eq!(rd.read(2).unwrap(), b"AA".to_vec());
}

#[test]
fn header_check() {
    assert!(is_pkg_header(&"PKGV0001".to_string()));
    assert!(is_pkg_header(&"PKG".to_string()));
    assert!(!is_pkg_header(&"PK".to_string()));
    assert!(!is_pkg_header(&"pkg1".to_string()));
}

#[test]
fn stream_integers_little_endian() {
    let mut s = FsBinaryStream::new(vec![0x01, 0x02, 0x03, 0x04, 0x05, 0x06, 0x07, 0x08, 0xff, 0xff, 0xff, 0xff, 0x7f]);
    assert_eq!(s.read_u16().unwrap(), 0x0201);
    s.reposition();
    assert_eq!(s.read_u32().unwrap(), 0x0403_0201);
    s.reposition();
    assert_eq!(s.read_u64().unwrap(), 0x0807_0605_0403_0201);
    assert_eq!(s.get_position(), 8);
    assert_eq!(s.read_i32().unwrap(), -1);
    assert_eq!(s.read_u8().unwrap(), 0x7f);
    assert_eq!(s.read_u8().unwrap_err(), WPPkgFsError::UnexpectedEof);
    assert_eq!(s.get_position(), 13);
}

#[test]
fn stream_integers_big_endian() {
    let mut s = FsBinaryStream::new(vec![0x01, 0x02, 0x03, 0x04, 0x05, 0x06, 0x07, 0x08, 0x80, 0x00, 0x00, 0x00]);
    s.set_endian(Endian::BigEndian);
    assert_eq!(s.get_endian(), Endian::BigEndian);
    assert_eq!(s.read_u16().unwrap(), 0x0102);
    s.set_position(0);
    assert_eq!(s.read_u32().unwrap(), 0x0102_0304);
    s.set_position(0);
    assert_eq!(s.read_u64().unwrap(), 0x0102_0304_0506_0708);
    assert_eq!(s.read_i32().unwrap(), i32::MIN);
    assert_eq!(s.read_u32().unwrap_err(), WPPkgFsError::UnexpectedEof);
}

#[test]
fn stream_read_fills_buffer() {
    let mut s = FsBinaryStream::new(vec![9, 8, 7, 6]);
    s.set_position(1);
    let mut buf = vec![0u8; 2];
    s.read(&mut buf).unwrap();
    assert_eq!(buf, vec![8, 7]);
    assert_eq!(s.get_position(), 3);
    let mut big = vec![0u8; 2];
    assert_eq!(s.read(&mut big).unwrap_err(), WPPkgFsError::UnexpectedEof);
    assert_eq!(s.get_position(), 3);
    s.set_position(100);
    assert_eq!(s.read_u8().unwrap_err(), WPPkgFsError::UnexpectedEof);
}

#[test]
fn sized_string_decodes_utf8() {
    let mut data = sized("héllo/wörld".as_bytes());
    data.extend(sized(b""));
    let mut s = FsBinaryStream::new(data);
    assert_eq!(s.read_sized_string().unwrap(), "héllo/wörld");
    assert_eq!(s.read_sized_string().unwrap(), "");
    assert_eq!(s.read_sized_string().unwrap_err(), WPPkgFsError::UnexpectedEof);
}

#[test]
fn sized_string_failures_keep_position() {
    let mut s = FsBinaryStream::new(sized(&[0xc3]));
    assert_eq!(s.read_sized_string().unwrap_err(), WPPkgFsError::InvalidUtf8);
    assert_eq!(s.get_position(), 0);
    let mut t = FsBinaryStream::new(vec![10, 0, 0, 0, b'a']);
    assert_eq!(t.read_sized_string().unwrap_err(), WPPkgFsError::UnexpectedEof);
    assert_eq!(t.get_position(), 0);
}

#[test]
fn error_messages() {
    assert_eq!(WPPkgFsError::InvalidFileHeader.message(), "Not a valid WPPkgFs file header");
    assert_eq!(WPPkgFsError::EndOfWindow.message(), "Reader window is exhausted");
}
