//! End-to-end walks over synthetic TIFF containers.

use quickexif::parse_exif;
use quickexif::Error;

/// A little-endian TIFF with IFD0 (make string, width, ExifIFD pointer),
/// an ExifIFD (iso), and IFD1 (thumbnail offset) on the next-IFD chain.
///
/// Layout: header 0..8, IFD0 8..50, "SONY\0" at 50, ExifIFD at 56..74,
/// IFD1 at 74..92.
fn sample_tiff_le() -> Vec<u8> {
    let mut d = Vec::new();
    d.extend_from_slice(&[0x49, 0x49, 0x2a, 0x00]);
    d.extend_from_slice(&8u32.to_le_bytes());
    // IFD0: three entries
    d.extend_from_slice(&3u16.to_le_bytes());
    // make: ASCII, count 5, out of line at 50
    d.extend_from_slice(&0x010fu16.to_le_bytes());
    d.extend_from_slice(&2u16.to_le_bytes());
    d.extend_from_slice(&5u32.to_le_bytes());
    d.extend_from_slice(&50u32.to_le_bytes());
    // width: SHORT, count 1, inline
    d.extend_from_slice(&0x0100u16.to_le_bytes());
    d.extend_from_slice(&3u16.to_le_bytes());
    d.extend_from_slice(&1u32.to_le_bytes());
    d.extend_from_slice(&6000u16.to_le_bytes());
    d.extend_from_slice(&[0, 0]);
    // ExifIFD pointer: LONG, count 1, inline value 56
    d.extend_from_slice(&0x8769u16.to_le_bytes());
    d.extend_from_slice(&4u16.to_le_bytes());
    d.extend_from_slice(&1u32.to_le_bytes());
    d.extend_from_slice(&56u32.to_le_bytes());
    // next IFD at 74
    d.extend_from_slice(&74u32.to_le_bytes());
    assert_eq!(d.len(), 50);
    d.extend_from_slice(b"SONY\0");
    d.push(0); // 55: padding
    assert_eq!(d.len(), 56);
    // ExifIFD: one entry (iso), no next
    d.extend_from_slice(&1u16.to_le_bytes());
    d.extend_from_slice(&0x8827u16.to_le_bytes());
    d.extend_from_slice(&3u16.to_le_bytes());
    d.extend_from_slice(&1u32.to_le_bytes());
    d.extend_from_slice(&160u16.to_le_bytes());
    d.extend_from_slice(&[0, 0]);
    d.extend_from_slice(&0u32.to_le_bytes());
    assert_eq!(d.len(), 74);
    // IFD1: one entry (thumbnail offset), no next
    d.extend_from_slice(&1u16.to_le_bytes());
    d.extend_from_slice(&0x0201u16.to_le_bytes());
    d.extend_from_slice(&4u16.to_le_bytes());
    d.extend_from_slice(&1u32.to_le_bytes());
    d.extend_from_slice(&0x1234u32.to_le_bytes());
    d.extend_from_slice(&0u32.to_le_bytes());
    assert_eq!(d.len(), 92);
    d
}

fn sample_paths() -> Vec<&'static [u16]> {
    vec![&[0u16][..], &[0u16, 0x8769, 0][..], &[1u16][..]]
}

#[test]
fn walk_le_scenario() {
    let data = sample_tiff_le();
    let paths = sample_paths();
    let (store, is_le) = parse_exif(&data, &paths, None).unwrap();
    assert!(is_le);
    let make = store.get(&(0, 0x010f)).unwrap();
    assert_eq!(make.str(), Some("SONY"));
    assert_eq!(make.raw(), b"SONY\0");
    let width = store.get(&(0, 0x0100)).unwrap();
    assert_eq!(width.u16(), 6000);
    assert_eq!(width.size(), 1);
    let exif_ptr = store.get(&(0, 0x8769)).unwrap();
    assert_eq!(exif_ptr.u32(), 56);
    let iso = store.get(&(1, 0x8827)).unwrap();
    assert_eq!(iso.u16(), 160);
    let thumb = store.get(&(2, 0x0201)).unwrap();
    assert_eq!(thumb.u32(), 0x1234);
    assert!(store.get(&(0, 0x9999)).is_none());
}

#[test]
fn walk_be_scenario() {
    // the same structure in big-endian byte order
    let mut d = Vec::new();
    d.extend_from_slice(&[0x4d, 0x4d, 0x00, 0x2a]);
    d.extend_from_slice(&8u32.to_be_bytes());
    d.extend_from_slice(&1u16.to_be_bytes());
    d.extend_from_slice(&0x0100u16.to_be_bytes());
    d.extend_from_slice(&3u16.to_be_bytes());
    d.extend_from_slice(&1u32.to_be_bytes());
    d.extend_from_slice(&4000u16.to_be_bytes());
    d.extend_from_slice(&[0, 0]);
    d.extend_from_slice(&0u32.to_be_bytes());
    let paths: Vec<&[u16]> = vec![&[0u16][..]];
    let (store, is_le) = parse_exif(&d, &paths, None).unwrap();
    assert!(!is_le);
    assert_eq!(store.get(&(0, 0x0100)).unwrap().u16(), 4000);
}

#[test]
fn jpeg_preface_transparency() {
    // parsing an EXIF-enveloped file gives the same values as the bare TIFF
    let tiff = sample_tiff_le();
    let paths = sample_paths();
    let (bare, le_bare) = parse_exif(&tiff, &paths, None).unwrap();

    let mut enveloped = vec![0xff, 0xd8, 0xff, 0xe1];
    enveloped.extend_from_slice(b"....Exif"); // filler up to twelve bytes
    assert_eq!(enveloped.len(), 12);
    enveloped.extend_from_slice(&tiff);
    let (wrapped, le_wrapped) = parse_exif(&enveloped, &paths, None).unwrap();

    assert_eq!(le_bare, le_wrapped);
    assert_eq!(bare.len(), wrapped.len());
    for key in [(0u16, 0x010fu16), (0, 0x0100), (0, 0x8769), (1, 0x8827), (2, 0x0201)] {
        let a = bare.get(&key).unwrap();
        let b = wrapped.get(&key).unwrap();
        assert_eq!(a.raw(), b.raw());
        assert_eq!(a.u16(), b.u16());
    }
}

#[test]
fn jfif_preface() {
    // a JFIF envelope takes thirty bytes before the TIFF header
    let tiff = sample_tiff_le();
    let paths = sample_paths();
    let mut enveloped = vec![0xff, 0xd8, 0xff, 0xe0];
    enveloped.extend_from_slice(&[0u8; 26]);
    assert_eq!(enveloped.len(), 30);
    enveloped.extend_from_slice(&tiff);
    let (store, is_le) = parse_exif(&enveloped, &paths, None).unwrap();
    assert!(is_le);
    assert_eq!(store.get(&(0, 0x010f)).unwrap().str(), Some("SONY"));
    assert_eq!(store.get(&(0, 0x0100)).unwrap().u16(), 6000);
}

#[test]
fn subifd_array_instances() {
    // a LONG entry with two out-of-line offsets descends into both
    // sub-IFDs, keyed under instance 0 and instance 100
    let mut d = Vec::new();
    d.extend_from_slice(&[0x49, 0x49, 0x2a, 0x00]);
    d.extend_from_slice(&8u32.to_le_bytes());
    // IFD0: one entry: SubIFDs array
    d.extend_from_slice(&1u16.to_le_bytes());
    d.extend_from_slice(&0x014au16.to_le_bytes());
    d.extend_from_slice(&4u16.to_le_bytes());
    d.extend_from_slice(&2u32.to_le_bytes());
    d.extend_from_slice(&26u32.to_le_bytes()); // offsets array at 26
    d.extend_from_slice(&0u32.to_le_bytes());
    assert_eq!(d.len(), 26);
    d.extend_from_slice(&34u32.to_le_bytes()); // first sub-IFD
    d.extend_from_slice(&52u32.to_le_bytes()); // second sub-IFD
    assert_eq!(d.len(), 34);
    for width in [111u16, 222] {
        d.extend_from_slice(&1u16.to_le_bytes());
        d.extend_from_slice(&0x0100u16.to_le_bytes());
        d.extend_from_slice(&3u16.to_le_bytes());
        d.extend_from_slice(&1u32.to_le_bytes());
        d.extend_from_slice(&width.to_le_bytes());
        d.extend_from_slice(&[0, 0]);
        d.extend_from_slice(&0u32.to_le_bytes());
    }
    assert_eq!(d.len(), 70);
    let paths: Vec<&[u16]> = vec![&[0u16][..], &[0u16, 0x014a, 0][..], &[0u16, 0x014a, 100][..]];
    let (store, _) = parse_exif(&d, &paths, None).unwrap();
    assert_eq!(store.get(&(1, 0x0100)).unwrap().u16(), 111);
    assert_eq!(store.get(&(2, 0x0100)).unwrap().u16(), 222);
}

#[test]
fn sony_decrypt_hint_walks_plaintext() {
    // the SR2Private region is decrypted and walked with the inverted bias
    let key = 0x1234_5678u32;
    // the plaintext inner IFD: one SHORT entry (tag 0x7310, value 512)
    let mut inner = Vec::new();
    inner.extend_from_slice(&1u16.to_le_bytes());
    inner.extend_from_slice(&0x7310u16.to_le_bytes());
    inner.extend_from_slice(&3u16.to_le_bytes());
    inner.extend_from_slice(&1u32.to_le_bytes());
    inner.extend_from_slice(&512u16.to_le_bytes());
    inner.extend_from_slice(&[0, 0]);
    inner.extend_from_slice(&0u32.to_le_bytes());
    inner.extend_from_slice(&[0, 0]); // pad to a whole number of words
    assert_eq!(inner.len(), 20);
    let cipher = quickexif::sony::sony_decrypt(&inner, key, true);
    assert_eq!(cipher.len(), 20);

    let mut d = Vec::new();
    d.extend_from_slice(&[0x49, 0x49, 0x2a, 0x00]);
    d.extend_from_slice(&8u32.to_le_bytes());
    // IFD0: offset, length and key of the encrypted region, all inline LONGs
    d.extend_from_slice(&3u16.to_le_bytes());
    for (tag, value) in [(0x7200u16, 56u32), (0x7201, 20), (0x7221, key)] {
        d.extend_from_slice(&tag.to_le_bytes());
        d.extend_from_slice(&4u16.to_le_bytes());
        d.extend_from_slice(&1u32.to_le_bytes());
        d.extend_from_slice(&value.to_le_bytes());
    }
    d.extend_from_slice(&0u32.to_le_bytes());
    assert_eq!(d.len(), 50);
    d.extend_from_slice(&[0; 6]);
    assert_eq!(d.len(), 56);
    d.extend_from_slice(&cipher);

    let paths: Vec<&[u16]> = vec![&[0u16][..], &[9u16][..]];
    let (store, _) = parse_exif(&d, &paths, Some((0, 1))).unwrap();
    assert_eq!(store.get(&(0, 0x7201)).unwrap().u32(), 20);
    let black_level = store.get(&(1, 0x7310)).unwrap();
    assert_eq!(black_level.u16(), 512);
}

#[test]
fn missing_sony_tags_walk_quietly() {
    // without the three region tags, the hint changes nothing
    let tiff = sample_tiff_le();
    let paths = sample_paths();
    let (store, _) = parse_exif(&tiff, &paths, Some((0, 1))).unwrap();
    assert_eq!(store.get(&(0, 0x0100)).unwrap().u16(), 6000);
}

#[test]
fn invalid_tiff_header() {
    let paths: Vec<&[u16]> = vec![&[0u16][..]];
    let r = parse_exif(&[0x58, 0x59, 0, 0, 0, 0, 0, 0], &paths, None);
    assert_eq!(r.unwrap_err(), Error::InvalidTiffHeader(0x58, 0x59));
}

#[test]
fn truncated_data_is_io() {
    let paths: Vec<&[u16]> = vec![&[0u16][..]];
    assert_eq!(parse_exif(&[], &paths, None).unwrap_err(), Error::Io);
    assert_eq!(parse_exif(&[0x49], &paths, None).unwrap_err(), Error::Io);
    // a valid order mark whose IFD offset points past the end
    let mut d = Vec::new();
    d.extend_from_slice(&[0x49, 0x49, 0x2a, 0x00]);
    d.extend_from_slice(&999u32.to_le_bytes());
    assert_eq!(parse_exif(&d, &paths, None).unwrap_err(), Error::Io);
}

#[test]
fn ifd_chain_cycle_stops() {
    // an IFD whose next pointer leads back to itself still terminates
    let mut d = Vec::new();
    d.extend_from_slice(&[0x49, 0x49, 0x2a, 0x00]);
    d.extend_from_slice(&8u32.to_le_bytes());
    d.extend_from_slice(&0u16.to_le_bytes());
    d.extend_from_slice(&8u32.to_le_bytes()); // next IFD: itself
    let paths: Vec<&[u16]> = vec![&[0u16][..]];
    let r = parse_exif(&d, &paths, None);
    assert!(r.is_ok());
}

#[test]
fn zero_count_entry_schedules_no_descent() {
    // an entry with no elements is captured but never descended into, even
    // when its extension path is registered and its value field is garbage
    let mut d = Vec::new();
    d.extend_from_slice(&[0x49, 0x49, 0x2a, 0x00]);
    d.extend_from_slice(&8u32.to_le_bytes());
    d.extend_from_slice(&1u16.to_le_bytes());
    d.extend_from_slice(&0x014au16.to_le_bytes());
    d.extend_from_slice(&4u16.to_le_bytes());
    d.extend_from_slice(&0u32.to_le_bytes()); // count zero
    d.extend_from_slice(&9999u32.to_le_bytes()); // a far-out address
    d.extend_from_slice(&0u32.to_le_bytes());
    let paths: Vec<&[u16]> = vec![&[0u16][..], &[0u16, 0x014a, 0][..]];
    let (store, _) = parse_exif(&d, &paths, None).unwrap();
    assert_eq!(store.get(&(0, 0x014a)).unwrap().size(), 0);
    assert_eq!(store.len(), 1);
}

#[test]
fn olympus_maker_note_adds_its_base_to_the_bias() {
    // IFD0 points at a maker note whose first bytes are "OLYM"; offsets
    // inside the note are relative to the note's own start, so the payload
    // address written there resolves only through the added bias
    let mut d: Vec<u8> = Vec::new();
    d.extend_from_slice(b"II");
    d.extend_from_slice(&42u16.to_le_bytes());
    d.extend_from_slice(&8u32.to_le_bytes());
    d.extend_from_slice(&1u16.to_le_bytes());
    d.extend_from_slice(&0x927cu16.to_le_bytes());
    d.extend_from_slice(&4u16.to_le_bytes());
    d.extend_from_slice(&1u32.to_le_bytes());
    let note_pos: usize = 8 + 2 + 12 + 4;
    d.extend_from_slice(&(note_pos as u32).to_le_bytes());
    d.extend_from_slice(&0u32.to_le_bytes());
    assert_eq!(d.len(), note_pos);
    d.extend_from_slice(b"OLYM");
    d.extend_from_slice(&[0u8; 8]);
    // the note's own IFD: one ASCII entry with a note-relative payload address
    d.extend_from_slice(&1u16.to_le_bytes());
    d.extend_from_slice(&0x0001u16.to_le_bytes());
    d.extend_from_slice(&2u16.to_le_bytes());
    d.extend_from_slice(&4u32.to_le_bytes());
    let payload_rel: usize = 12 + 2 + 12 + 4;
    d.extend_from_slice(&(payload_rel as u32).to_le_bytes());
    d.extend_from_slice(&0u32.to_le_bytes());
    assert_eq!(d.len(), note_pos + payload_rel);
    d.extend_from_slice(b"abc\0");

    let paths: Vec<&[u16]> = vec![&[0u16][..], &[0u16, 0x927c, 0][..]];
    let (store, is_le) = parse_exif(&d, &paths, None).unwrap();
    assert!(is_le);
    let item = store.get(&(1, 0x0001)).unwrap();
    assert_eq!(item.str(), Some("abc"));
}

#[test]
fn embedded_jpeg_descent_anchors_bias() {
    // the descent target holds an embedded JPEG: the walker skips its
    // envelope, anchors the bias at the embedded TIFF header, and follows
    // the header's own IFD offset
    let mut d: Vec<u8> = Vec::new();
    d.extend_from_slice(b"II");
    d.extend_from_slice(&42u16.to_le_bytes());
    d.extend_from_slice(&8u32.to_le_bytes());
    d.extend_from_slice(&1u16.to_le_bytes());
    d.extend_from_slice(&0x8769u16.to_le_bytes());
    d.extend_from_slice(&4u16.to_le_bytes());
    d.extend_from_slice(&1u32.to_le_bytes());
    let target: usize = 8 + 2 + 12 + 4;
    d.extend_from_slice(&(target as u32).to_le_bytes());
    d.extend_from_slice(&0u32.to_le_bytes());
    assert_eq!(d.len(), target);
    d.extend_from_slice(&[0xff, 0xd8]);
    d.extend_from_slice(&[0u8; 10]);
    d.extend_from_slice(b"II");
    d.extend_from_slice(&42u16.to_le_bytes());
    d.extend_from_slice(&8u32.to_le_bytes());
    assert_eq!(d.len(), target + 20);
    d.extend_from_slice(&1u16.to_le_bytes());
    d.extend_from_slice(&0x8827u16.to_le_bytes());
    d.extend_from_slice(&3u16.to_le_bytes());
    d.extend_from_slice(&1u32.to_le_bytes());
    d.extend_from_slice(&160u16.to_le_bytes());
    d.extend_from_slice(&0u16.to_le_bytes());
    d.extend_from_slice(&0u32.to_le_bytes());

    let paths: Vec<&[u16]> = vec![&[0u16][..], &[0u16, 0x8769, 0][..]];
    let (store, _) = parse_exif(&d, &paths, None).unwrap();
    assert_eq!(store.get(&(1, 0x8827)).unwrap().u16(), 160);
}
