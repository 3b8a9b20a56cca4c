//! The pre-seek helpers and the JPEG segment walker.

use quickexif::jpeg::{Error as JpegError, JPEG};
use quickexif::{seek_header_cr3, seek_header_raf, Error};

#[test]
fn cr3_cmt_parts() {
    // CMT tags on four-byte boundaries; the position after the tag is
    // where the TIFF header starts
    let mut d = vec![0u8; 8];
    d.extend_from_slice(b"CMT1");
    d.extend_from_slice(&[0x49, 0x49, 0x2a, 0x00]);
    d.extend_from_slice(b"CMT2");
    d.extend_from_slice(&[0x4d, 0x4d, 0x00, 0x2a]);
    d.extend_from_slice(b"CMT3");
    d.extend_from_slice(&[0u8; 4]);
    assert_eq!(seek_header_cr3(&d, 0), Ok(12));
    assert_eq!(seek_header_cr3(&d, 1), Ok(20));
    assert_eq!(seek_header_cr3(&d, 2), Ok(28));
    assert_eq!(&d[12..16], &[0x49, 0x49, 0x2a, 0x00]);
}

#[test]
fn cr3_cmt_missing_is_io() {
    let d = vec![0u8; 64];
    assert_eq!(seek_header_cr3(&d, 0), Err(Error::Io));
}

#[test]
fn cr3_ctb_parts() {
    // records are scanned from the fixed offset in four-byte steps
    let base = 0x1a00002;
    let mut d = vec![0u8; base + 24];
    d[base + 4..base + 8].copy_from_slice(&[0x7c, 0x92, 0x00, 0x00]);
    d[base + 12..base + 16].copy_from_slice(&[0x7c, 0x92, 0x00, 0x00]);
    assert_eq!(seek_header_cr3(&d, 3), Ok(base + 8));
    assert_eq!(seek_header_cr3(&d, 4), Ok(base + 16));
    assert_eq!(seek_header_cr3(&d, 5), Err(Error::PartNotDefined(5)));
    // a short file has no such records
    assert_eq!(seek_header_cr3(&[0u8; 16], 3), Err(Error::Io));
}

#[test]
fn raf_parts() {
    let mut d = vec![0u8; 200];
    // the TIFF magic on a four-byte boundary past the 164-byte prefix
    d[172..176].copy_from_slice(&[0x49, 0x49, 0x2a, 0x00]);
    assert_eq!(seek_header_raf(&d, 0), Ok(148));
    assert_eq!(seek_header_raf(&d, 1), Ok(172));
    assert_eq!(seek_header_raf(&d, 2), Err(Error::PartNotDefined(2)));
    assert_eq!(seek_header_raf(&[0u8; 64], 0), Err(Error::Io));
    assert_eq!(seek_header_raf(&[0u8; 200], 1), Err(Error::Io));
}

/// A small JPEG: SOI, a quantization table, a baseline frame header, one
/// Huffman table, and a scan closed by EOI.
fn sample_jpeg() -> Vec<u8> {
    let mut d = Vec::new();
    d.extend_from_slice(&[0xff, 0xd8]);
    // DQT: size 6, four table bytes
    d.extend_from_slice(&[0xff, 0xdb, 0x00, 0x06, 0x10, 0x20, 0x30, 0x40]);
    // SOF0: size 11: precision 8, height 4000, width 6000, one component
    d.extend_from_slice(&[0xff, 0xc0, 0x00, 0x0b, 0x08]);
    d.extend_from_slice(&4000u16.to_be_bytes());
    d.extend_from_slice(&6000u16.to_be_bytes());
    d.extend_from_slice(&[0x01, 0x01, 0x22, 0x00]);
    // DHT: one table, sizes [1, 0, ..., 0], one value
    d.extend_from_slice(&[0xff, 0xc4, 0x00, 0x14, 0x10]);
    d.push(1);
    d.extend_from_slice(&[0u8; 15]);
    d.push(0x42);
    // SOS: header length 8, one component, spectral 0..63, body, EOI
    d.extend_from_slice(&[0xff, 0xda, 0x00, 0x08, 0x01, 0x01, 0x00, 0x00, 0x3f, 0x00]);
    d.extend_from_slice(&[0xaa, 0xbb, 0xcc]);
    d.extend_from_slice(&[0xff, 0xd9]);
    d
}

#[test]
fn jpeg_segments() {
    let d = sample_jpeg();
    let jpeg = JPEG::new(&d).unwrap();
    assert_eq!(jpeg.dqt, vec![0x10, 0x20, 0x30, 0x40]);
    assert_eq!(jpeg.sof.id, 0);
    assert_eq!(jpeg.sof.precision, 8);
    assert_eq!(jpeg.sof.height, 4000);
    assert_eq!(jpeg.sof.width, 6000);
    assert_eq!(jpeg.sof.components, vec![(1, 2, 2, 0)]);
    assert_eq!(jpeg.dht.len(), 1);
    assert!(jpeg.dht[0].is_ac);
    assert_eq!(jpeg.dht[0].destination, 0);
    assert_eq!(jpeg.dht[0].huff_size[0], 1);
    assert_eq!(jpeg.dht[0].huff_vals[0], vec![0x42]);
    assert_eq!(jpeg.sos.scan_header, vec![(1, 0, 0)]);
    assert_eq!(jpeg.sos.ss, 0);
    assert_eq!(jpeg.sos.se, 0x3f);
    assert_eq!(jpeg.sos.ah, 0);
    assert_eq!(jpeg.sos.al, 0);
    assert_eq!(jpeg.sos.body, vec![0xaa, 0xbb, 0xcc]);
}

#[test]
fn jpeg_bad_header() {
    assert_eq!(JPEG::new(&[0x00, 0x11, 0x22]).unwrap_err(), JpegError::InvalidHeader(0x0011));
    assert_eq!(JPEG::new(&[0xff]).unwrap_err(), JpegError::IndexError(0));
}

#[test]
fn jpeg_bad_tail() {
    let mut d = sample_jpeg();
    let n = d.len();
    d[n - 1] = 0x00; // break the EOI marker
    assert_eq!(JPEG::new(&d).unwrap_err(), JpegError::InvalidTail(0xff00));
}
