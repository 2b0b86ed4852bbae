//! The executable parser: a big-endian byte cursor and the segment readers,
//! each proved to agree with the spec-level grammar in `grammar`.

use vstd::prelude::*;
use crate::grammar::{
    be16, empty_dispatch, spec_dispatch, spec_parse, spec_read_frame, spec_read_header,
    spec_read_scan, spec_read_table, spec_scan_mappings, spec_components, sum_bytes, DHT, EOI,
    SOF_3, SOI, SOS,
};
use crate::types::{
    Component, DispatchModel, Frame, FrameModel, HuffmanTable, ParseError, Parsed, ParsedModel,
    Scan, ScanModel, TableModel, lemma_mapping_index_of, lemma_table_index_of, mapping_index_of,
    spec_insert_mapping, spec_insert_table, table_index_of, tables_view, scans_view,
};

verus! {

/// A sequential big-endian reader over an immutable byte buffer. Reads
/// advance the position; a read past the end fails with `OutOfBounds` and
/// leaves the position where it was.
pub struct Cursor<'a> {
    buf: &'a [u8],
    pos: usize,
}

impl<'a> Cursor<'a> {
    /// The bytes the cursor reads from.
    pub closed spec fn bytes(&self) -> Seq<u8> {
        self.buf@
    }

    /// The current position.
    pub closed spec fn position(&self) -> int {
        self.pos as int
    }

    /// The position never stands past the end of the buffer.
    pub closed spec fn wf(&self) -> bool {
        self.pos <= self.buf@.len()
    }

    /// A cursor at the start of the buffer.
    pub fn new(buf: &'a [u8]) -> (c: Cursor<'a>)
        ensures
            c.bytes() == buf@,
            c.position() == 0,
            c.wf(),
    {
        Cursor { buf, pos: 0 }
    }

    /// Read one byte and advance by one.
    pub fn read_u8(&mut self) -> (r: Result<u8, ParseError>)
        requires
            old(self).wf(),
        ensures
            final(self).bytes() == old(self).bytes(),
            final(self).wf(),
            match r {
                Ok(v) => {
                    &&& old(self).position() + 1 <= old(self).bytes().len()
                    &&& v == old(self).bytes()[old(self).position()]
                    &&& final(self).position() == old(self).position() + 1
                },
                Err(e) => {
                    &&& e == ParseError::OutOfBounds
                    &&& old(self).position() + 1 > old(self).bytes().len()
                    &&& final(self).position() == old(self).position()
                },
            },
    {
        if self.buf.len() - self.pos >= 1 {
            let v = self.buf[self.pos];
            self.pos = self.pos + 1;
            Ok(v)
        } else {
            Err(ParseError::OutOfBounds)
        }
    }

    /// Read one big-endian 16-bit value and advance by two.
    pub fn read_u16(&mut self) -> (r: Result<u16, ParseError>)
        requires
            old(self).wf(),
        ensures
            final(self).bytes() == old(self).bytes(),
            final(self).wf(),
            match r {
                Ok(v) => {
                    &&& old(self).position() + 2 <= old(self).bytes().len()
                    &&& v == be16(old(self).bytes(), old(self).position())
                    &&& final(self).position() == old(self).position() + 2
                },
                Err(e) => {
                    &&& e == ParseError::OutOfBounds
                    &&& old(self).position() + 2 > old(self).bytes().len()
                    &&& final(self).position() == old(self).position()
                },
            },
    {
        if self.buf.len() - self.pos >= 2 {
            let hi = self.buf[self.pos];
            let lo = self.buf[self.pos + 1];
            self.pos = self.pos + 2;
            Ok((hi as u16) * 256 + (lo as u16))
        } else {
            Err(ParseError::OutOfBounds)
        }
    }
}

/// Appending a byte adds it to the sum.
proof fn lemma_sum_bytes_push(s: Seq<u8>, x: u8)
    ensures
        sum_bytes(s.push(x)) == sum_bytes(s) + x,
    decreases s.len(),
{
    if s.len() == 0 {
        assert(s.push(x).drop_first() =~= Seq::<u8>::empty());
        assert(sum_bytes(s.push(x)) == s.push(x)[0] + sum_bytes(s.push(x).drop_first()));
        assert(sum_bytes(Seq::<u8>::empty()) == 0);
    } else {
        assert(s.push(x).drop_first() =~= s.drop_first().push(x));
        lemma_sum_bytes_push(s.drop_first(), x);
        assert(sum_bytes(s.push(x)) == s.push(x)[0] + sum_bytes(s.push(x).drop_first()));
        assert(sum_bytes(s) == s[0] + sum_bytes(s.drop_first()));
        assert(s.push(x)[0] == s[0]);
    }
}

/// Insert a table with last-write-wins on its destination: replace the
/// first table with the same destination, else append.
fn insert_table(tables: &mut Vec<HuffmanTable>, t: HuffmanTable)
    ensures
        tables_view(final(tables)@) == spec_insert_table(tables_view(old(tables)@), t@),
{
    let ghost s = tables_view(old(tables)@);
    let ghost d = t@.destination;
    proof {
        lemma_table_index_of(s, d);
    }
    let mut i: usize = 0;
    while i < tables.len()
        invariant
            i <= tables@.len(),
            tables@ == old(tables)@,
            s == tables_view(tables@),
            d == t@.destination,
            forall|j: int| 0 <= j < i ==> s[j].destination != d,
        decreases tables@.len() - i,
    {
        if tables[i].destination == t.destination {
            proof {
                lemma_table_index_of(s, d);
                assert(s[i as int].destination == d);
                assert(table_index_of(s, d) == i);
            }
            tables.set(i, t);
            proof {
                assert(tables_view(tables@) =~= s.update(i as int, t@));
            }
            return;
        }
        i = i + 1;
    }
    proof {
        lemma_table_index_of(s, d);
        assert(table_index_of(s, d) == -1);
    }
    tables.push(t);
    proof {
        assert(tables_view(tables@) =~= s.push(t@));
    }
}

/// Insert a (component id, selector) pair with last-write-wins on the id:
/// replace the first pair with the same id, else append.
fn insert_mapping(mappings: &mut Vec<(u8, u8)>, id: u8, selector: u8)
    ensures
        final(mappings)@ == spec_insert_mapping(old(mappings)@, id, selector),
{
    let ghost s = old(mappings)@;
    proof {
        lemma_mapping_index_of(s, id);
    }
    let mut i: usize = 0;
    while i < mappings.len()
        invariant
            i <= mappings@.len(),
            mappings@ == s,
            s == old(mappings)@,
            forall|j: int| 0 <= j < i ==> s[j].0 != id,
        decreases mappings@.len() - i,
    {
        if mappings[i].0 == id {
            proof {
                lemma_mapping_index_of(s, id);
                assert(mapping_index_of(s, id) == i);
            }
            mappings.set(i, (id, selector));
            proof {
                assert(mappings@ =~= s.update(i as int, (id, selector)));
                assert(spec_insert_mapping(s, id, selector) == s.update(
                    mapping_index_of(s, id),
                    (id, selector),
                ));
                assert(mappings@ == spec_insert_mapping(s, id, selector));
            }
            return;
        }
        i = i + 1;
    }
    proof {
        lemma_mapping_index_of(s, id);
        assert(mapping_index_of(s, id) == -1);
    }
    mappings.push((id, selector));
    proof {
        assert(mappings@ =~= s.push((id, selector)));
    }
}

/// Read one DHT segment, the cursor standing just past the DHT marker:
/// 2-byte declared length, 1 destination byte, 16 count bytes, then
/// `length - 19` value bytes. A declared length that disagrees with the sum
/// of the counts rejects the table as malformed.
pub fn read_huffman_table(c: &mut Cursor) -> (r: Result<HuffmanTable, ParseError>)
    requires
        old(c).wf(),
    ensures
        final(c).bytes() == old(c).bytes(),
        final(c).wf(),
        match r {
            Ok(t) => spec_read_table(old(c).bytes(), old(c).position()) matches Ok(tp) && tp.0
                == t@ && tp.1 == final(c).position(),
            Err(e) => spec_read_table(old(c).bytes(), old(c).position()) == Err::<
                (TableModel, int),
                ParseError,
            >(e),
        },
{
    let ghost b = old(c).bytes();
    let ghost p0 = old(c).position();
    let length = match c.read_u16() {
        Ok(v) => v,
        Err(e) => return Err(e),
    };
    let destination = match c.read_u8() {
        Ok(v) => v,
        Err(e) => return Err(e),
    };
    let mut number_of_codes: Vec<u8> = Vec::new();
    let mut sum: u32 = 0;
    let mut i: usize = 0;
    while i < 16
        invariant
            c.wf(),
            c.bytes() == b,
            b == old(c).bytes(),
            p0 == old(c).position(),
            c.position() == p0 + 3 + i,
            i <= 16,
            number_of_codes@ == b.subrange(p0 + 3, p0 + 3 + i),
            sum == sum_bytes(b.subrange(p0 + 3, p0 + 3 + i)),
            sum <= 255 * i,
        decreases 16 - i,
    {
        let v = match c.read_u8() {
            Ok(v) => v,
            Err(e) => return Err(e),
        };
        proof {
            lemma_sum_bytes_push(b.subrange(p0 + 3, p0 + 3 + i), v);
            assert(b.subrange(p0 + 3, p0 + 3 + i).push(v) =~= b.subrange(p0 + 3, p0 + 3 + i + 1));
        }
        number_of_codes.push(v);
        sum = sum + (v as u32);
        i = i + 1;
    }
    if length < 19 || sum != (length - 19) as u32 {
        return Err(ParseError::MalformedTable);
    }
    let value_count: usize = (length - 19) as usize;
    let mut values: Vec<u8> = Vec::new();
    let mut j: usize = 0;
    while j < value_count
        invariant
            c.wf(),
            c.bytes() == b,
            b == old(c).bytes(),
            p0 == old(c).position(),
            c.position() == p0 + 19 + j,
            j <= value_count,
            19 <= length,
            length == be16(b, p0),
            value_count == length - 19,
            number_of_codes@ == b.subrange(p0 + 3, p0 + 19),
            sum_bytes(b.subrange(p0 + 3, p0 + 19)) == length - 19,
            values@ == b.subrange(p0 + 19, p0 + 19 + j),
        decreases value_count - j,
    {
        let v = match c.read_u8() {
            Ok(v) => v,
            Err(e) => return Err(e),
        };
        proof {
            assert(b.subrange(p0 + 19, p0 + 19 + j).push(v) =~= b.subrange(
                p0 + 19,
                p0 + 19 + j + 1,
            ));
        }
        values.push(v);
        j = j + 1;
    }
    let t = HuffmanTable { destination, number_of_codes, values };
    proof {
        assert(spec_read_table(b, p0) matches Ok(tp) && tp.0 =~= t@ && tp.1 == p0 + length);
    }
    Ok(t)
}

/// Read one SOS header, the cursor standing just past the SOS marker:
/// 2-byte length (ignored beyond framing), 1 component-count byte, that many
/// (component id, packed table selector) pairs, 1 predictor byte, 1
/// discarded spectral-selection byte, 1 point-transform byte. The cursor is
/// left just past the header, not past any entropy-coded data.
pub fn read_scan(c: &mut Cursor) -> (r: Result<Scan, ParseError>)
    requires
        old(c).wf(),
    ensures
        final(c).bytes() == old(c).bytes(),
        final(c).wf(),
        match r {
            Ok(s) => spec_read_scan(old(c).bytes(), old(c).position()) matches Ok(sp) && sp.0
                == s@ && sp.1 == final(c).position(),
            Err(e) => spec_read_scan(old(c).bytes(), old(c).position()) == Err::<
                (ScanModel, int),
                ParseError,
            >(e),
        },
{
    let ghost b = old(c).bytes();
    let ghost p0 = old(c).position();
    let _length = match c.read_u16() {
        Ok(v) => v,
        Err(e) => return Err(e),
    };
    let component_count = match c.read_u8() {
        Ok(v) => v,
        Err(e) => return Err(e),
    };
    let n: usize = component_count as usize;
    let mut table_mappings: Vec<(u8, u8)> = Vec::new();
    let mut i: usize = 0;
    while i < n
        invariant
            c.wf(),
            c.bytes() == b,
            b == old(c).bytes(),
            p0 == old(c).position(),
            n == b[p0 + 2],
            p0 + 3 <= b.len(),
            c.position() == p0 + 3 + 2 * i,
            i <= n,
            table_mappings@ == spec_scan_mappings(b, p0 + 3, i as int),
        decreases n - i,
    {
        let id = match c.read_u8() {
            Ok(v) => v,
            Err(e) => return Err(e),
        };
        let sel_byte = match c.read_u8() {
            Ok(v) => v,
            Err(e) => return Err(e),
        };
        insert_mapping(&mut table_mappings, id, sel_byte / 16);
        i = i + 1;
    }
    let predictor = match c.read_u8() {
        Ok(v) => v,
        Err(e) => return Err(e),
    };
    let _spectral = match c.read_u8() {
        Ok(v) => v,
        Err(e) => return Err(e),
    };
    let point_transform = match c.read_u8() {
        Ok(v) => v,
        Err(e) => return Err(e),
    };
    let s = Scan { table_mappings, predictor, point_transform };
    proof {
        assert(spec_read_scan(b, p0) matches Ok(sp) && sp.0 =~= s@ && sp.1 == p0 + 3 + 2 * (
        n as int) + 3);
    }
    Ok(s)
}

/// Read the frame body, the cursor standing just past the SOF3 marker: the
/// header's fixed fields and component triples, then the marker-dispatch
/// loop, which accumulates Huffman tables (last-write-wins on destination),
/// scan headers (in encounter order) and unrecognized-marker diagnostics
/// until the EOI marker.
pub fn read_frame(c: &mut Cursor) -> (r: Result<(Frame, Vec<u16>), ParseError>)
    requires
        old(c).wf(),
    ensures
        final(c).bytes() == old(c).bytes(),
        final(c).wf(),
        match r {
            Ok(fd) => spec_read_frame(old(c).bytes(), old(c).position()) matches Ok(m) && m.0
                == fd.0@ && m.1 == fd.1@,
            Err(e) => spec_read_frame(old(c).bytes(), old(c).position()) == Err::<
                (FrameModel, Seq<u16>),
                ParseError,
            >(e),
        },
{
    let ghost b = old(c).bytes();
    let ghost p0 = old(c).position();
    let _length = match c.read_u16() {
        Ok(v) => v,
        Err(e) => return Err(e),
    };
    let precision = match c.read_u8() {
        Ok(v) => v,
        Err(e) => return Err(e),
    };
    let y = match c.read_u16() {
        Ok(v) => v,
        Err(e) => return Err(e),
    };
    let x = match c.read_u16() {
        Ok(v) => v,
        Err(e) => return Err(e),
    };
    let component_count = match c.read_u8() {
        Ok(v) => v,
        Err(e) => return Err(e),
    };
    let cc: usize = component_count as usize;
    let mut components: Vec<Component> = Vec::new();
    let mut i: usize = 0;
    while i < cc
        invariant
            c.wf(),
            c.bytes() == b,
            b == old(c).bytes(),
            p0 == old(c).position(),
            cc == b[p0 + 7],
            p0 + 8 <= b.len(),
            c.position() == p0 + 8 + 3 * (i as int),
            i <= cc,
            components@ == spec_components(b, p0 + 8, i as int),
        decreases cc - i,
    {
        let id = match c.read_u8() {
            Ok(v) => v,
            Err(e) => return Err(e),
        };
        let sampling = match c.read_u8() {
            Ok(v) => v,
            Err(e) => return Err(e),
        };
        let q_table = match c.read_u8() {
            Ok(v) => v,
            Err(e) => return Err(e),
        };
        components.push(
            Component {
                id,
                horizontal_sampling_factor: sampling / 16,
                vertical_sampling_factor: sampling % 16,
                q_table,
            },
        );
        proof {
            assert(components@ =~= spec_components(b, p0 + 8, i + 1));
        }
        i = i + 1;
    }
    let ghost hend = c.position();
    proof {
        assert(spec_read_header(b, p0) matches Ok(h) && h.end == hend && h.precision == precision
            && h.y == y && h.x == x && h.components == components@);
    }
    let mut tables: Vec<HuffmanTable> = Vec::new();
    let mut scans: Vec<Scan> = Vec::new();
    let mut unrecognized: Vec<u16> = Vec::new();
    proof {
        assert(DispatchModel {
            tables: tables_view(tables@),
            scans: scans_view(scans@),
            unrecognized_markers: unrecognized@,
        } =~= empty_dispatch());
    }
    loop
        invariant_except_break
            spec_dispatch(b, hend, empty_dispatch()) == spec_dispatch(
                b,
                c.position(),
                DispatchModel {
                    tables: tables_view(tables@),
                    scans: scans_view(scans@),
                    unrecognized_markers: unrecognized@,
                },
            ),
        invariant
            c.wf(),
            c.bytes() == b,
            b == old(c).bytes(),
            p0 == old(c).position(),
            spec_read_header(b, p0) matches Ok(h) && h.end == hend,
        ensures
            c.wf(),
            c.bytes() == b,
            spec_dispatch(b, hend, empty_dispatch()) == Ok::<DispatchModel, ParseError>(
                DispatchModel {
                    tables: tables_view(tables@),
                    scans: scans_view(scans@),
                    unrecognized_markers: unrecognized@,
                },
            ),
        decreases b.len() - c.position(),
    {
        let ghost pos_at = c.position();
        let ghost acc_at = DispatchModel {
            tables: tables_view(tables@),
            scans: scans_view(scans@),
            unrecognized_markers: unrecognized@,
        };
        let next_marker = match c.read_u16() {
            Ok(v) => v,
            Err(e) => return Err(e),
        };
        if next_marker == EOI {
            break;
        }
        if next_marker == DHT {
            let table = match read_huffman_table(c) {
                Ok(t) => t,
                Err(e) => return Err(e),
            };
            insert_table(&mut tables, table);
            proof {
                assert(DispatchModel {
                    tables: tables_view(tables@),
                    scans: scans_view(scans@),
                    unrecognized_markers: unrecognized@,
                } =~= DispatchModel {
                    tables: spec_insert_table(acc_at.tables, table@),
                    scans: acc_at.scans,
                    unrecognized_markers: acc_at.unrecognized_markers,
                });
            }
        } else if next_marker == SOS {
            let scan = match read_scan(c) {
                Ok(s) => s,
                Err(e) => return Err(e),
            };
            scans.push(scan);
            proof {
                assert(scans_view(scans@) =~= acc_at.scans.push(scan@));
                assert(DispatchModel {
                    tables: tables_view(tables@),
                    scans: scans_view(scans@),
                    unrecognized_markers: unrecognized@,
                } =~= DispatchModel {
                    tables: acc_at.tables,
                    scans: acc_at.scans.push(scan@),
                    unrecognized_markers: acc_at.unrecognized_markers,
                });
            }
        } else if next_marker / 256 == 0xFF && next_marker != 0xFFFF && next_marker != 0xFF00 {
            unrecognized.push(next_marker);
            proof {
                assert(DispatchModel {
                    tables: tables_view(tables@),
                    scans: scans_view(scans@),
                    unrecognized_markers: unrecognized@,
                } =~= DispatchModel {
                    tables: acc_at.tables,
                    scans: acc_at.scans,
                    unrecognized_markers: acc_at.unrecognized_markers.push(next_marker),
                });
            }
        }
    }
    let frame = Frame { precision, y, x, components, tables, scans };
    proof {
        assert(spec_read_frame(b, p0) matches Ok(m) && m.0 =~= frame@ && m.1 == unrecognized@);
    }
    Ok((frame, unrecognized))
}

/// Parse one lossless-JPEG buffer: require the SOI marker, then the SOF3
/// marker (any other second marker is an unsupported encoding), then read
/// the frame body to EOI. A successful parse returns the frame together
/// with the non-fatal unrecognized-marker diagnostics; a failed parse
/// returns the error and no partial frame.
pub fn parse_lossless_jpeg(buffer: &[u8]) -> (r: Result<Parsed, ParseError>)
    ensures
        match r {
            Ok(p) => spec_parse(buffer@) matches Ok(m) && m == p@,
            Err(e) => spec_parse(buffer@) == Err::<ParsedModel, ParseError>(e),
        },
{
    let mut c = Cursor::new(buffer);
    let soi = match c.read_u16() {
        Ok(v) => v,
        Err(e) => return Err(e),
    };
    if soi != SOI {
        return Err(ParseError::NotAnImage);
    }
    let sof = match c.read_u16() {
        Ok(v) => v,
        Err(e) => return Err(e),
    };
    if sof != SOF_3 {
        return Err(ParseError::UnsupportedEncoding(sof));
    }
    let fd = match read_frame(&mut c) {
        Ok(v) => v,
        Err(e) => return Err(e),
    };
    let p = Parsed { frame: fd.0, unrecognized_markers: fd.1 };
    proof {
        assert(spec_parse(buffer@) matches Ok(m) && m =~= p@);
    }
    Ok(p)
}

} // verus!
