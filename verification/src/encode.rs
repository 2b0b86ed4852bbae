//! A spec-level encoder for the marker-segment byte layout, together with
//! the well-formedness of the data model. It exists to state and prove the
//! round-trip law in `laws`: parsing an encoded frame gives the frame back.

use vstd::prelude::*;
use crate::grammar::{sum_bytes, DHT, EOI, SOF_3, SOI, SOS};
use crate::types::{Component, FrameModel, ScanModel, TableModel};

verus! {

/// A 16-bit value as two big-endian bytes.
pub open spec fn enc16(v: u16) -> Seq<u8> {
    seq![(v / 256) as u8, (v % 256) as u8]
}

/// One component triple: id, packed sampling factors, quantization table.
pub open spec fn enc_component(c: Component) -> Seq<u8> {
    seq![
        c.id,
        (c.horizontal_sampling_factor * 16 + c.vertical_sampling_factor) as u8,
        c.q_table,
    ]
}

/// The component triples in order.
pub open spec fn enc_components(cs: Seq<Component>) -> Seq<u8>
    decreases cs.len(),
{
    if cs.len() == 0 {
        Seq::empty()
    } else {
        enc_component(cs[0]) + enc_components(cs.drop_first())
    }
}

/// A DHT segment's payload: declared length (the payload's own size, length
/// field included), destination, the sixteen counts, the values.
pub open spec fn table_payload(t: TableModel) -> Seq<u8> {
    enc16((19 + t.values.len()) as u16) + seq![t.destination] + t.number_of_codes + t.values
}

/// A whole DHT segment: marker plus payload.
pub open spec fn enc_table(t: TableModel) -> Seq<u8> {
    enc16(DHT) + table_payload(t)
}

/// The DHT segments in order.
pub open spec fn enc_tables(ts: Seq<TableModel>) -> Seq<u8>
    decreases ts.len(),
{
    if ts.len() == 0 {
        Seq::empty()
    } else {
        enc_table(ts[0]) + enc_tables(ts.drop_first())
    }
}

/// One scan component pair: id, selector packed into the high nibble.
pub open spec fn enc_pair(p: (u8, u8)) -> Seq<u8> {
    seq![p.0, (p.1 * 16) as u8]
}

/// The scan component pairs in order. Recursion peels the last pair, as the
/// parse of the pairs does.
pub open spec fn enc_pairs(ps: Seq<(u8, u8)>) -> Seq<u8>
    decreases ps.len(),
{
    if ps.len() == 0 {
        Seq::empty()
    } else {
        enc_pairs(ps.drop_last()) + enc_pair(ps.last())
    }
}

/// An SOS header's payload: declared length, component count, the pairs,
/// predictor, a zero spectral-selection byte, point transform.
pub open spec fn scan_payload(s: ScanModel) -> Seq<u8> {
    enc16((6 + 2 * s.table_mappings.len()) as u16) + seq![s.table_mappings.len() as u8]
        + enc_pairs(s.table_mappings) + seq![s.predictor, 0u8, s.point_transform]
}

/// A whole SOS header: marker plus payload.
pub open spec fn enc_scan(s: ScanModel) -> Seq<u8> {
    enc16(SOS) + scan_payload(s)
}

/// The SOS headers in order.
pub open spec fn enc_scans(ss: Seq<ScanModel>) -> Seq<u8>
    decreases ss.len(),
{
    if ss.len() == 0 {
        Seq::empty()
    } else {
        enc_scan(ss[0]) + enc_scans(ss.drop_first())
    }
}

/// A whole frame: SOI, the SOF3 segment with its fixed fields and component
/// triples, the DHT segments, the SOS headers, EOI.
pub open spec fn enc_frame(f: FrameModel) -> Seq<u8> {
    enc16(SOI) + enc16(SOF_3) + enc16((8 + 3 * f.components.len()) as u16) + seq![f.precision]
        + enc16(f.y) + enc16(f.x) + seq![f.components.len() as u8] + enc_components(f.components)
        + enc_tables(f.tables) + enc_scans(f.scans) + enc16(EOI)
}

/// Sampling factors are nibbles, so the packed byte holds them exactly.
pub open spec fn component_wf(c: Component) -> bool {
    c.horizontal_sampling_factor < 16 && c.vertical_sampling_factor < 16
}

/// Sixteen counts whose sum is the value count, and a payload whose declared
/// length fits the 16-bit length field.
pub open spec fn table_wf(t: TableModel) -> bool {
    &&& t.number_of_codes.len() == 16
    &&& sum_bytes(t.number_of_codes) == t.values.len()
    &&& 19 + t.values.len() <= 0xFFFF
}

/// Pairwise distinct table destinations.
pub open spec fn tables_unique(ts: Seq<TableModel>) -> bool {
    forall|i: int, j: int|
        0 <= i < j < ts.len() ==> ts[i].destination != ts[j].destination
}

/// At most 255 pairs, nibble selectors, pairwise distinct component ids.
pub open spec fn scan_wf(s: ScanModel) -> bool {
    &&& s.table_mappings.len() <= 255
    &&& forall|i: int| 0 <= i < s.table_mappings.len() ==> s.table_mappings[i].1 < 16
    &&& forall|i: int, j: int|
        0 <= i < j < s.table_mappings.len() ==> s.table_mappings[i].0 != s.table_mappings[j].0
}

/// Consistent field ranges for the byte layout: every packed field fits its
/// slot and every keyed collection has unique keys.
pub open spec fn frame_wf(f: FrameModel) -> bool {
    &&& f.components.len() <= 255
    &&& forall|i: int| 0 <= i < f.components.len() ==> component_wf(f.components[i])
    &&& forall|i: int| 0 <= i < f.tables.len() ==> table_wf(f.tables[i])
    &&& tables_unique(f.tables)
    &&& forall|i: int| 0 <= i < f.scans.len() ==> scan_wf(f.scans[i])
}

} // verus!
