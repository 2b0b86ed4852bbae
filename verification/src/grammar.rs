//! The byte-level grammar of the bitstream, stated as spec functions over
//! `Seq<u8>`. These functions are the mathematical reference that the
//! executable readers in `parser` are proved against.

use vstd::prelude::*;
use crate::types::{
    Component, DispatchModel, FrameModel, HeaderModel, ParseError, ParsedModel, ScanModel,
    TableModel, spec_insert_mapping, spec_insert_table,
};

verus! {

/// Start of image.
pub const SOI: u16 = 0xFFD8;

/// Start of frame, lossless (sequential, Huffman coded).
pub const SOF_3: u16 = 0xFFC3;

/// Define Huffman table.
pub const DHT: u16 = 0xFFC4;

/// End of image.
pub const EOI: u16 = 0xFFD9;

/// Start of scan.
pub const SOS: u16 = 0xFFDA;

/// The big-endian 16-bit value at `pos`.
pub open spec fn be16(b: Seq<u8>, pos: int) -> u16 {
    ((b[pos] as int) * 256 + (b[pos + 1] as int)) as u16
}

/// The high nibble of a packed byte.
pub open spec fn hi_nibble(v: u8) -> u8 {
    v / 16
}

/// The low nibble of a packed byte.
pub open spec fn lo_nibble(v: u8) -> u8 {
    v % 16
}

/// The sum of a sequence of bytes, as an unbounded integer.
pub open spec fn sum_bytes(s: Seq<u8>) -> int
    decreases s.len(),
{
    if s.len() == 0 {
        0
    } else {
        s[0] + sum_bytes(s.drop_first())
    }
}

/// One DHT segment read at `pos` (just past the DHT marker): the 2-byte
/// declared length, 1 destination byte, 16 count bytes, then `length - 19`
/// value bytes; the declared length counts everything after the marker, the
/// length field included. A declared length that disagrees with the sum of
/// the counts rejects the table as malformed. On success the second member
/// is the position just past the segment.
pub open spec fn spec_read_table(b: Seq<u8>, pos: int) -> Result<(TableModel, int), ParseError> {
    if pos + 19 > b.len() {
        Err(ParseError::OutOfBounds)
    } else {
        let length = be16(b, pos) as int;
        let counts = b.subrange(pos + 3, pos + 19);
        if length < 19 || sum_bytes(counts) != length - 19 {
            Err(ParseError::MalformedTable)
        } else if pos + length > b.len() {
            Err(ParseError::OutOfBounds)
        } else {
            Ok(
                (
                    TableModel {
                        destination: b[pos + 2],
                        number_of_codes: counts,
                        values: b.subrange(pos + 19, pos + length),
                    },
                    pos + length,
                ),
            )
        }
    }
}

/// The scan's component-to-table mapping built from `n` (id, packed selector)
/// byte pairs starting at `pos`, inserted left to right with last-write-wins
/// on the component id. The selector is the high nibble of the second byte.
pub open spec fn spec_scan_mappings(b: Seq<u8>, pos: int, n: int) -> Seq<(u8, u8)>
    decreases n,
{
    if n <= 0 {
        Seq::empty()
    } else {
        spec_insert_mapping(
            spec_scan_mappings(b, pos, n - 1),
            b[pos + 2 * (n - 1)],
            hi_nibble(b[pos + 2 * (n - 1) + 1]),
        )
    }
}

/// One SOS header read at `pos` (just past the SOS marker): the 2-byte length
/// (ignored beyond framing), 1 component-count byte `n`, `n` pairs of
/// (component id, packed table selector), 1 predictor byte, 1 discarded
/// spectral-selection byte, 1 point-transform byte. On success the second
/// member is the position just past the header (not past any entropy data).
pub open spec fn spec_read_scan(b: Seq<u8>, pos: int) -> Result<(ScanModel, int), ParseError> {
    if pos + 3 > b.len() {
        Err(ParseError::OutOfBounds)
    } else {
        let n = b[pos + 2] as int;
        if pos + 3 + 2 * n + 3 > b.len() {
            Err(ParseError::OutOfBounds)
        } else {
            Ok(
                (
                    ScanModel {
                        table_mappings: spec_scan_mappings(b, pos + 3, n),
                        predictor: b[pos + 3 + 2 * n],
                        point_transform: b[pos + 3 + 2 * n + 2],
                    },
                    pos + 3 + 2 * n + 3,
                ),
            )
        }
    }
}

/// The components declared by `c` (id, packed sampling factors, quantization
/// table) byte triples starting at `pos`.
pub open spec fn spec_components(b: Seq<u8>, pos: int, c: int) -> Seq<Component> {
    Seq::new(
        c as nat,
        |i: int|
            Component {
                id: b[pos + 3 * i],
                horizontal_sampling_factor: hi_nibble(b[pos + 3 * i + 1]),
                vertical_sampling_factor: lo_nibble(b[pos + 3 * i + 1]),
                q_table: b[pos + 3 * i + 2],
            },
    )
}

/// The SOF3 segment's fixed fields read at `pos` (just past the SOF3
/// marker): 2-byte length (ignored), 1 precision byte, 2-byte height, 2-byte
/// width, 1 component-count byte, then the component triples. `end` is the
/// position just past the last triple.
pub open spec fn spec_read_header(b: Seq<u8>, pos: int) -> Result<HeaderModel, ParseError> {
    if pos + 8 > b.len() {
        Err(ParseError::OutOfBounds)
    } else {
        let c = b[pos + 7] as int;
        if pos + 8 + 3 * c > b.len() {
            Err(ParseError::OutOfBounds)
        } else {
            Ok(
                HeaderModel {
                    precision: b[pos + 2],
                    y: be16(b, pos + 3),
                    x: be16(b, pos + 5),
                    components: spec_components(b, pos + 8, c),
                    end: pos + 8 + 3 * c,
                },
            )
        }
    }
}

/// Whether a marker value is surfaced as an unrecognized-marker diagnostic:
/// its high byte is `0xFF` and it is neither a known marker handled by the
/// dispatch loop nor one of the byte-stuffing sentinels `0xFFFF` / `0xFF00`.
pub open spec fn is_unrecognized(m: u16) -> bool {
    m / 256 == 0xFF && m != 0xFFFF && m != 0xFF00 && m != DHT && m != SOS && m != EOI
}

/// The marker-dispatch loop from `pos`: read a marker; DHT inserts a table
/// (last-write-wins on destination), SOS appends a scan, EOI terminates,
/// an unrecognized `0xFFxx` marker is recorded as a diagnostic and skipped,
/// and anything else is treated as skippable filler.
pub open spec fn spec_dispatch(b: Seq<u8>, pos: int, acc: DispatchModel) -> Result<
    DispatchModel,
    ParseError,
>
    decreases b.len() - pos,
{
    if pos + 2 > b.len() {
        Err(ParseError::OutOfBounds)
    } else {
        let m = be16(b, pos);
        if m == EOI {
            Ok(acc)
        } else if m == DHT {
            match spec_read_table(b, pos + 2) {
                Ok(tp) => spec_dispatch(
                    b,
                    tp.1,
                    DispatchModel {
                        tables: spec_insert_table(acc.tables, tp.0),
                        scans: acc.scans,
                        unrecognized_markers: acc.unrecognized_markers,
                    },
                ),
                Err(e) => Err(e),
            }
        } else if m == SOS {
            match spec_read_scan(b, pos + 2) {
                Ok(sp) => spec_dispatch(
                    b,
                    sp.1,
                    DispatchModel {
                        tables: acc.tables,
                        scans: acc.scans.push(sp.0),
                        unrecognized_markers: acc.unrecognized_markers,
                    },
                ),
                Err(e) => Err(e),
            }
        } else if is_unrecognized(m) {
            spec_dispatch(
                b,
                pos + 2,
                DispatchModel {
                    tables: acc.tables,
                    scans: acc.scans,
                    unrecognized_markers: acc.unrecognized_markers.push(m),
                },
            )
        } else {
            spec_dispatch(b, pos + 2, acc)
        }
    }
}

/// The empty dispatch accumulator.
pub open spec fn empty_dispatch() -> DispatchModel {
    DispatchModel {
        tables: Seq::empty(),
        scans: Seq::empty(),
        unrecognized_markers: Seq::empty(),
    }
}

/// The frame body read at `pos` (just past the SOF3 marker): the header's
/// fixed fields, then the marker-dispatch loop run to EOI.
pub open spec fn spec_read_frame(b: Seq<u8>, pos: int) -> Result<
    (FrameModel, Seq<u16>),
    ParseError,
> {
    match spec_read_header(b, pos) {
        Ok(h) => match spec_dispatch(b, h.end, empty_dispatch()) {
            Ok(d) => Ok(
                (
                    FrameModel {
                        precision: h.precision,
                        y: h.y,
                        x: h.x,
                        components: h.components,
                        tables: d.tables,
                        scans: d.scans,
                    },
                    d.unrecognized_markers,
                ),
            ),
            Err(e) => Err(e),
        },
        Err(e) => Err(e),
    }
}

/// The whole parse of a buffer: require the SOI marker, then the SOF3
/// marker, then read the frame body.
pub open spec fn spec_parse(b: Seq<u8>) -> Result<ParsedModel, ParseError> {
    if b.len() < 2 {
        Err(ParseError::OutOfBounds)
    } else if be16(b, 0) != SOI {
        Err(ParseError::NotAnImage)
    } else if b.len() < 4 {
        Err(ParseError::OutOfBounds)
    } else if be16(b, 2) != SOF_3 {
        Err(ParseError::UnsupportedEncoding(be16(b, 2)))
    } else {
        match spec_read_frame(b, 4) {
            Ok(fd) => Ok(ParsedModel { frame: fd.0, unrecognized_markers: fd.1 }),
            Err(e) => Err(e),
        }
    }
}

} // verus!
