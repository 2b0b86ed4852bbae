//! The laws of the parser, each proved against the spec-level grammar that
//! `parser::parse_lossless_jpeg`'s contract ties the executable code to.

use vstd::prelude::*;
use crate::encode::{
    component_wf, enc16, enc_component, enc_components, enc_frame, enc_pair, enc_pairs,
    enc_scan, enc_scans, enc_table, enc_tables, frame_wf, scan_payload, scan_wf, table_payload,
    table_wf, tables_unique,
};
use crate::grammar::{
    be16, empty_dispatch, hi_nibble, is_unrecognized, lo_nibble, spec_components, spec_dispatch,
    spec_parse, spec_read_header, spec_read_scan, spec_read_table, spec_scan_mappings, sum_bytes,
    DHT, EOI, SOF_3, SOI, SOS,
};
use crate::types::{
    lemma_mapping_index_of, lemma_table_index_of, mapping_index_of, spec_insert_mapping,
    spec_insert_table, table_index_of, Component, DispatchModel, FrameModel, ParseError,
    ParsedModel, ScanModel, TableModel,
};

verus! {

/// A buffer whose first two bytes are not the start-of-image marker always
/// fails with `NotAnImage`, whatever follows them.
pub proof fn lemma_not_an_image(b: Seq<u8>)
    requires
        b.len() >= 2,
        be16(b, 0) != SOI,
    ensures
        spec_parse(b) == Err::<ParsedModel, ParseError>(ParseError::NotAnImage),
{
}

/// A buffer that opens with the start-of-image marker but whose second
/// marker is not the lossless start-of-frame marker always fails with
/// `UnsupportedEncoding` carrying that second marker, whatever follows it.
pub proof fn lemma_unsupported_encoding(b: Seq<u8>)
    requires
        b.len() >= 4,
        be16(b, 0) == SOI,
        be16(b, 2) != SOF_3,
    ensures
        spec_parse(b) == Err::<ParsedModel, ParseError>(
            ParseError::UnsupportedEncoding(be16(b, 2)),
        ),
{
}

/// A successfully parsed DHT segment holds exactly `declared length - 19`
/// values, and that count equals the sum of its sixteen code-length counts;
/// when the declared length disagrees with the sum of the counts, the
/// segment is rejected as malformed rather than truncated or extended.
pub proof fn lemma_table_length(b: Seq<u8>, pos: int)
    requires
        pos >= 0,
    ensures
        spec_read_table(b, pos) matches Ok(tp) ==> {
            &&& tp.0.values.len() == be16(b, pos) - 19
            &&& tp.0.number_of_codes.len() == 16
            &&& sum_bytes(tp.0.number_of_codes) == tp.0.values.len()
        },
        pos + 19 <= b.len() && (be16(b, pos) < 19 || sum_bytes(b.subrange(pos + 3, pos + 19))
            != be16(b, pos) - 19) ==> spec_read_table(b, pos) == Err::<
            (TableModel, int),
            ParseError,
        >(ParseError::MalformedTable),
{
}

/// Last write wins: inserting a table and then another one for the same
/// destination leaves the mapping exactly as if only the second had been
/// inserted — the first table is never retained beside it.
pub proof fn lemma_table_replaced(s: Seq<TableModel>, t1: TableModel, t2: TableModel)
    requires
        t1.destination == t2.destination,
    ensures
        spec_insert_table(spec_insert_table(s, t1), t2) == spec_insert_table(s, t2),
{
    let d = t1.destination;
    let s1 = spec_insert_table(s, t1);
    lemma_table_index_of(s, d);
    lemma_table_index_of(s1, d);
    if table_index_of(s, d) == -1 {
        assert(s1 == s.push(t1));
        assert(s1[s.len() as int].destination == d);
        assert(table_index_of(s1, d) == s.len());
        assert(s1.update(s.len() as int, t2) =~= s.push(t2));
    } else {
        let i = table_index_of(s, d);
        assert(s1 == s.update(i, t1));
        assert(s1[i].destination == d);
        assert(forall|j: int| 0 <= j < i ==> s1[j] == s[j]);
        assert(table_index_of(s1, d) == i);
        assert(s1.update(i, t2) =~= s.update(i, t2));
    }
}

/// An unrecognized `0xFFxx` marker between segments adds exactly one
/// diagnostic, and parsing continues right past it with the tables and
/// scans untouched.
pub proof fn lemma_unrecognized_marker_step(b: Seq<u8>, pos: int, acc: DispatchModel)
    requires
        pos >= 0,
        pos + 2 <= b.len(),
        is_unrecognized(be16(b, pos)),
    ensures
        spec_dispatch(b, pos, acc) == spec_dispatch(
            b,
            pos + 2,
            DispatchModel {
                tables: acc.tables,
                scans: acc.scans,
                unrecognized_markers: acc.unrecognized_markers.push(be16(b, pos)),
            },
        ),
{
}

/// Two bytes written by `enc16` read back as the value.
proof fn lemma_be16_enc(b: Seq<u8>, pos: int, v: u16)
    requires
        pos >= 0,
        pos + 2 <= b.len(),
        b[pos] == ((v / 256) as u8),
        b[pos + 1] == ((v % 256) as u8),
    ensures
        be16(b, pos) == v,
{
}

/// Last-write-wins insertion keeps table destinations pairwise distinct.
pub proof fn lemma_insert_table_unique(s: Seq<TableModel>, t: TableModel)
    requires
        tables_unique(s),
    ensures
        tables_unique(spec_insert_table(s, t)),
{
    lemma_table_index_of(s, t.destination);
    let s2 = spec_insert_table(s, t);
    if table_index_of(s, t.destination) == -1 {
        assert forall|i: int, j: int| 0 <= i < j < s2.len() implies s2[i].destination
            != s2[j].destination by {
            if j == s.len() {
                assert(s[i].destination != t.destination);
            }
        }
    } else {
        let k = table_index_of(s, t.destination);
        assert forall|i: int, j: int| 0 <= i < j < s2.len() implies s2[i].destination
            != s2[j].destination by {
            assert(s[k].destination == t.destination);
        }
    }
}

/// Inserting a pair keeps the component ids pairwise distinct, the
/// selectors in nibble range, and grows the mapping by at most one entry.
proof fn lemma_insert_mapping_wf(s: Seq<(u8, u8)>, id: u8, sel: u8)
    requires
        forall|i: int, j: int| 0 <= i < j < s.len() ==> s[i].0 != s[j].0,
        forall|i: int| 0 <= i < s.len() ==> (#[trigger] s[i]).1 < 16,
        sel < 16,
    ensures
        spec_insert_mapping(s, id, sel).len() <= s.len() + 1,
        forall|i: int, j: int|
            0 <= i < j < spec_insert_mapping(s, id, sel).len() ==> spec_insert_mapping(
                s,
                id,
                sel,
            )[i].0 != spec_insert_mapping(s, id, sel)[j].0,
        forall|i: int|
            0 <= i < spec_insert_mapping(s, id, sel).len() ==> (#[trigger] spec_insert_mapping(
                s,
                id,
                sel,
            )[i]).1 < 16,
{
    lemma_mapping_index_of(s, id);
    let s2 = spec_insert_mapping(s, id, sel);
    if mapping_index_of(s, id) == -1 {
        assert forall|i: int, j: int| 0 <= i < j < s2.len() implies s2[i].0 != s2[j].0 by {
            if j == s.len() {
                assert(s[i].0 != id);
            }
        }
    } else {
        let k = mapping_index_of(s, id);
        assert forall|i: int, j: int| 0 <= i < j < s2.len() implies s2[i].0 != s2[j].0 by {
            assert(s[k].0 == id);
        }
    }
}

/// The mapping folded from a scan's pairs is a true mapping: distinct
/// component ids, nibble selectors, at most one entry per pair.
proof fn lemma_scan_mappings_wf(b: Seq<u8>, pos: int, n: int)
    requires
        n >= 0,
    ensures
        spec_scan_mappings(b, pos, n).len() <= n,
        forall|i: int, j: int|
            0 <= i < j < spec_scan_mappings(b, pos, n).len() ==> spec_scan_mappings(b, pos, n)[i].0
                != spec_scan_mappings(b, pos, n)[j].0,
        forall|i: int|
            0 <= i < spec_scan_mappings(b, pos, n).len() ==> (#[trigger] spec_scan_mappings(
                b,
                pos,
                n,
            )[i]).1 < 16,
    decreases n,
{
    if n > 0 {
        lemma_scan_mappings_wf(b, pos, n - 1);
        lemma_insert_mapping_wf(
            spec_scan_mappings(b, pos, n - 1),
            b[pos + 2 * (n - 1)],
            hi_nibble(b[pos + 2 * (n - 1) + 1]),
        );
    }
}

/// A successfully read SOS header is a well-formed scan.
proof fn lemma_read_scan_wf(b: Seq<u8>, pos: int)
    ensures
        spec_read_scan(b, pos) matches Ok(sp) ==> scan_wf(sp.0),
{
    if pos + 3 <= b.len() {
        lemma_scan_mappings_wf(b, pos + 3, b[pos + 2] as int);
    }
}

/// A successfully read DHT segment is a well-formed table.
proof fn lemma_read_table_wf(b: Seq<u8>, pos: int)
    requires
        pos >= 0,
    ensures
        spec_read_table(b, pos) matches Ok(tp) ==> table_wf(tp.0),
{
}

/// The dispatch loop keeps the accumulated tables well-formed with pairwise
/// distinct destinations, and the accumulated scans well-formed.
proof fn lemma_dispatch_wf(b: Seq<u8>, pos: int, acc: DispatchModel)
    requires
        pos >= 0,
        tables_unique(acc.tables),
        forall|i: int| 0 <= i < acc.tables.len() ==> table_wf(#[trigger] acc.tables[i]),
        forall|i: int| 0 <= i < acc.scans.len() ==> scan_wf(#[trigger] acc.scans[i]),
    ensures
        spec_dispatch(b, pos, acc) matches Ok(d) ==> {
            &&& tables_unique(d.tables)
            &&& forall|i: int| 0 <= i < d.tables.len() ==> table_wf(#[trigger] d.tables[i])
            &&& forall|i: int| 0 <= i < d.scans.len() ==> scan_wf(#[trigger] d.scans[i])
        },
    decreases b.len() - pos,
{
    if pos + 2 <= b.len() {
        let m = be16(b, pos);
        if m == EOI {
        } else if m == DHT {
            match spec_read_table(b, pos + 2) {
                Ok(tp) => {
                    lemma_read_table_wf(b, pos + 2);
                    lemma_insert_table_unique(acc.tables, tp.0);
                    let t2 = spec_insert_table(acc.tables, tp.0);
                    lemma_table_index_of(acc.tables, tp.0.destination);
                    assert(forall|i: int| 0 <= i < t2.len() ==> table_wf(#[trigger] t2[i]));
                    lemma_dispatch_wf(
                        b,
                        tp.1,
                        DispatchModel {
                            tables: t2,
                            scans: acc.scans,
                            unrecognized_markers: acc.unrecognized_markers,
                        },
                    );
                },
                Err(_) => {},
            }
        } else if m == SOS {
            match spec_read_scan(b, pos + 2) {
                Ok(sp) => {
                    lemma_read_scan_wf(b, pos + 2);
                    lemma_dispatch_wf(
                        b,
                        sp.1,
                        DispatchModel {
                            tables: acc.tables,
                            scans: acc.scans.push(sp.0),
                            unrecognized_markers: acc.unrecognized_markers,
                        },
                    );
                },
                Err(_) => {},
            }
        } else if is_unrecognized(m) {
            lemma_dispatch_wf(
                b,
                pos + 2,
                DispatchModel {
                    tables: acc.tables,
                    scans: acc.scans,
                    unrecognized_markers: acc.unrecognized_markers.push(m),
                },
            );
        } else {
            lemma_dispatch_wf(b, pos + 2, acc);
        }
    }
}

/// Every successfully parsed frame is well-formed: sampling factors are
/// nibbles, each table's counts sum to its value count, table destinations
/// and each scan's component ids are pairwise distinct. In particular the
/// parsed frame never holds two tables for one destination, and it has
/// exactly the shape the round-trip law accepts, so it can be encoded
/// again.
pub proof fn lemma_parse_frame_wf(b: Seq<u8>)
    ensures
        spec_parse(b) matches Ok(m) ==> frame_wf(m.frame),
{
    if b.len() >= 4 && be16(b, 0) == SOI && be16(b, 2) == SOF_3 {
        match spec_read_header(b, 4) {
            Ok(h) => {
                lemma_dispatch_wf(b, h.end, empty_dispatch());
            },
            Err(_) => {},
        }
    }
}

/// A region of `b` known equal to `s` agrees with `s` byte by byte.
proof fn lemma_subrange_index(b: Seq<u8>, pos: int, s: Seq<u8>, k: int)
    requires
        pos >= 0,
        pos + s.len() <= b.len(),
        b.subrange(pos, pos + s.len()) == s,
        0 <= k < s.len(),
    ensures
        b[pos + k] == s[k],
{
    assert(b.subrange(pos, pos + s.len())[k] == b[pos + k]);
}

/// A region of `b` known equal to `s` agrees with `s` on every sub-region.
proof fn lemma_subrange_sub(b: Seq<u8>, pos: int, s: Seq<u8>, i: int, j: int)
    requires
        pos >= 0,
        pos + s.len() <= b.len(),
        b.subrange(pos, pos + s.len()) == s,
        0 <= i <= j <= s.len(),
    ensures
        b.subrange(pos + i, pos + j) == s.subrange(i, j),
{
    assert forall|m: int| 0 <= m < j - i implies b.subrange(pos + i, pos + j)[m] == s.subrange(
        i,
        j,
    )[m] by {
        assert(b.subrange(pos, pos + s.len())[i + m] == b[pos + i + m]);
    }
    assert(b.subrange(pos + i, pos + j) =~= s.subrange(i, j));
}

/// Each component triple takes three bytes.
proof fn lemma_enc_components_len(cs: Seq<Component>)
    ensures
        enc_components(cs).len() == 3 * cs.len(),
    decreases cs.len(),
{
    if cs.len() != 0 {
        lemma_enc_components_len(cs.drop_first());
    }
}

/// Component triples written by `enc_components` read back as the
/// components.
proof fn lemma_components_roundtrip(b: Seq<u8>, pos: int, cs: Seq<Component>)
    requires
        pos >= 0,
        pos + 3 * cs.len() <= b.len(),
        b.subrange(pos, pos + 3 * cs.len()) == enc_components(cs),
        forall|i: int| 0 <= i < cs.len() ==> component_wf(#[trigger] cs[i]),
    ensures
        spec_components(b, pos, cs.len() as int) == cs,
    decreases cs.len(),
{
    lemma_enc_components_len(cs);
    if cs.len() == 0 {
        assert(spec_components(b, pos, 0) =~= cs);
    } else {
        let e = enc_components(cs);
        let c0 = cs[0];
        lemma_enc_components_len(cs.drop_first());
        assert(e == enc_component(c0) + enc_components(cs.drop_first()));
        lemma_subrange_index(b, pos, e, 0);
        lemma_subrange_index(b, pos, e, 1);
        lemma_subrange_index(b, pos, e, 2);
        assert(e[0] == c0.id);
        assert(e[1] == (c0.horizontal_sampling_factor * 16 + c0.vertical_sampling_factor) as u8);
        assert(e[2] == c0.q_table);
        lemma_subrange_sub(b, pos, e, 3, e.len() as int);
        assert(e.subrange(3, e.len() as int) =~= enc_components(cs.drop_first()));
        lemma_components_roundtrip(b, pos + 3, cs.drop_first());
        assert(hi_nibble(b[pos + 1]) == c0.horizontal_sampling_factor) by {
            assert(c0.horizontal_sampling_factor * 16 + c0.vertical_sampling_factor < 256);
        }
        assert(lo_nibble(b[pos + 1]) == c0.vertical_sampling_factor);
        assert forall|i: int| 0 <= i < cs.len() implies spec_components(
            b,
            pos,
            cs.len() as int,
        )[i] == cs[i] by {
            if i > 0 {
                assert(spec_components(b, pos + 3, cs.drop_first().len() as int)[i - 1]
                    == cs.drop_first()[i - 1]);
            }
        }
        assert(spec_components(b, pos, cs.len() as int) =~= cs);
    }
}

/// A DHT payload written by `table_payload` reads back as the table, the
/// cursor ending just past it.
proof fn lemma_table_roundtrip(b: Seq<u8>, pos: int, t: TableModel)
    requires
        table_wf(t),
        pos >= 0,
        pos + 19 + t.values.len() <= b.len(),
        b.subrange(pos, pos + 19 + t.values.len()) == table_payload(t),
    ensures
        spec_read_table(b, pos) matches Ok(tp) && tp.0 == t && tp.1 == pos + 19 + t.values.len(),
{
    let e = table_payload(t);
    let length = (19 + t.values.len()) as u16;
    assert(e.len() == 19 + t.values.len());
    lemma_subrange_index(b, pos, e, 0);
    lemma_subrange_index(b, pos, e, 1);
    lemma_subrange_index(b, pos, e, 2);
    assert(e[0] == enc16(length)[0] && e[1] == enc16(length)[1]);
    lemma_be16_enc(b, pos, length);
    assert(e[2] == t.destination);
    lemma_subrange_sub(b, pos, e, 3, 19);
    assert(e.subrange(3, 19) =~= t.number_of_codes);
    assert(b.subrange(pos + 3, pos + 19) == t.number_of_codes);
    lemma_subrange_sub(b, pos, e, 19, e.len() as int);
    assert(e.subrange(19, e.len() as int) =~= t.values);
    assert(b.subrange(pos + 19, pos + length) == t.values);
    assert(spec_read_table(b, pos) matches Ok(tp) && tp.0 =~= t && tp.1 == pos + 19
        + t.values.len());
}

/// Each pair takes two bytes.
proof fn lemma_enc_pairs_len(ps: Seq<(u8, u8)>)
    ensures
        enc_pairs(ps).len() == 2 * ps.len(),
    decreases ps.len(),
{
    if ps.len() != 0 {
        lemma_enc_pairs_len(ps.drop_last());
    }
}

/// Pairs written by `enc_pairs`, their component ids distinct, fold back by
/// last-write-wins insertion into exactly the original pair sequence.
proof fn lemma_pairs_roundtrip(b: Seq<u8>, pos: int, ps: Seq<(u8, u8)>)
    requires
        pos >= 0,
        pos + 2 * ps.len() <= b.len(),
        b.subrange(pos, pos + 2 * ps.len()) == enc_pairs(ps),
        forall|i: int| 0 <= i < ps.len() ==> (#[trigger] ps[i]).1 < 16,
        forall|i: int, j: int| 0 <= i < j < ps.len() ==> ps[i].0 != ps[j].0,
    ensures
        spec_scan_mappings(b, pos, ps.len() as int) == ps,
    decreases ps.len(),
{
    lemma_enc_pairs_len(ps);
    if ps.len() == 0 {
        assert(spec_scan_mappings(b, pos, 0) =~= ps);
    } else {
        let e = enc_pairs(ps);
        let n = ps.len() as int;
        let last = ps.last();
        lemma_enc_pairs_len(ps.drop_last());
        assert(e == enc_pairs(ps.drop_last()) + enc_pair(last));
        lemma_subrange_sub(b, pos, e, 0, 2 * n - 2);
        assert(e.subrange(0, 2 * n - 2) =~= enc_pairs(ps.drop_last()));
        lemma_pairs_roundtrip(b, pos, ps.drop_last());
        lemma_subrange_index(b, pos, e, 2 * n - 2);
        lemma_subrange_index(b, pos, e, 2 * n - 1);
        assert(e[2 * n - 2] == last.0);
        assert(e[2 * n - 1] == (last.1 * 16) as u8);
        assert(hi_nibble(b[pos + 2 * (n - 1) + 1]) == last.1) by {
            assert(last.1 * 16 < 256);
        }
        assert(spec_scan_mappings(b, pos, n) == spec_insert_mapping(
            ps.drop_last(),
            last.0,
            last.1,
        ));
        lemma_mapping_index_of(ps.drop_last(), last.0);
        assert(mapping_index_of(ps.drop_last(), last.0) == -1);
        assert(ps.drop_last().push(last) =~= ps);
    }
}

/// An SOS payload written by `scan_payload` reads back as the scan, the
/// cursor ending just past it.
proof fn lemma_scan_roundtrip(b: Seq<u8>, pos: int, s: ScanModel)
    requires
        scan_wf(s),
        pos >= 0,
        pos + 6 + 2 * s.table_mappings.len() <= b.len(),
        b.subrange(pos, pos + 6 + 2 * s.table_mappings.len()) == scan_payload(s),
    ensures
        spec_read_scan(b, pos) matches Ok(sp) && sp.0 == s && sp.1 == pos + 6 + 2
            * s.table_mappings.len(),
{
    let e = scan_payload(s);
    let n = s.table_mappings.len() as int;
    lemma_enc_pairs_len(s.table_mappings);
    assert(e.len() == 6 + 2 * n);
    lemma_subrange_index(b, pos, e, 2);
    assert(e[2] == n as u8);
    assert(b[pos + 2] == n);
    lemma_subrange_sub(b, pos, e, 3, 3 + 2 * n);
    assert(e.subrange(3, 3 + 2 * n) =~= enc_pairs(s.table_mappings));
    lemma_pairs_roundtrip(b, pos + 3, s.table_mappings);
    lemma_subrange_index(b, pos, e, 3 + 2 * n);
    lemma_subrange_index(b, pos, e, 5 + 2 * n);
    assert(e[3 + 2 * n] == s.predictor);
    assert(e[5 + 2 * n] == s.point_transform);
    assert(spec_read_scan(b, pos) matches Ok(sp) && sp.0 =~= s && sp.1 == pos + 6 + 2 * n);
}

/// The dispatch loop over encoded DHT segments, then encoded SOS headers,
/// then EOI appends exactly those tables and scans to the accumulator and
/// raises no diagnostic.
#[verifier::rlimit(60)]
proof fn lemma_dispatch_roundtrip(
    b: Seq<u8>,
    pos: int,
    ts: Seq<TableModel>,
    ss: Seq<ScanModel>,
    acc: DispatchModel,
)
    requires
        pos >= 0,
        forall|i: int| 0 <= i < ts.len() ==> table_wf(#[trigger] ts[i]),
        tables_unique(acc.tables + ts),
        forall|i: int| 0 <= i < ss.len() ==> scan_wf(#[trigger] ss[i]),
        pos + (enc_tables(ts) + enc_scans(ss) + enc16(EOI)).len() <= b.len(),
        b.subrange(pos, pos + (enc_tables(ts) + enc_scans(ss) + enc16(EOI)).len()) == enc_tables(
            ts,
        ) + enc_scans(ss) + enc16(EOI),
    ensures
        spec_dispatch(b, pos, acc) == Ok::<DispatchModel, ParseError>(
            DispatchModel {
                tables: acc.tables + ts,
                scans: acc.scans + ss,
                unrecognized_markers: acc.unrecognized_markers,
            },
        ),
    decreases ts.len() + ss.len(),
{
    let e = enc_tables(ts) + enc_scans(ss) + enc16(EOI);
    if ts.len() > 0 {
        let t0 = ts[0];
        let et = enc_table(t0);
        assert(et.len() == 21 + t0.values.len());
        assert(enc_tables(ts) == et + enc_tables(ts.drop_first()));
        lemma_subrange_index(b, pos, e, 0);
        lemma_subrange_index(b, pos, e, 1);
        assert(e[0] == enc16(DHT)[0] && e[1] == enc16(DHT)[1]);
        lemma_be16_enc(b, pos, DHT);
        lemma_subrange_sub(b, pos, e, 2, et.len() as int);
        assert(e.subrange(2, et.len() as int) =~= table_payload(t0));
        lemma_table_roundtrip(b, pos + 2, t0);
        let d = t0.destination;
        lemma_table_index_of(acc.tables, d);
        assert(table_index_of(acc.tables, d) == -1) by {
            if table_index_of(acc.tables, d) != -1 {
                let j = table_index_of(acc.tables, d);
                assert((acc.tables + ts)[j].destination == d);
                assert((acc.tables + ts)[acc.tables.len() as int].destination == d);
            }
        }
        let acc2 = DispatchModel {
            tables: acc.tables.push(t0),
            scans: acc.scans,
            unrecognized_markers: acc.unrecognized_markers,
        };
        assert(acc2.tables + ts.drop_first() =~= acc.tables + ts);
        lemma_subrange_sub(b, pos, e, et.len() as int, e.len() as int);
        assert(e.subrange(et.len() as int, e.len() as int) =~= enc_tables(ts.drop_first())
            + enc_scans(ss) + enc16(EOI));
        lemma_dispatch_roundtrip(b, pos + et.len(), ts.drop_first(), ss, acc2);
        assert(spec_dispatch(b, pos, acc) == spec_dispatch(b, pos + et.len(), acc2));
        assert(DispatchModel {
            tables: acc2.tables + ts.drop_first(),
            scans: acc2.scans + ss,
            unrecognized_markers: acc2.unrecognized_markers,
        } =~= DispatchModel {
            tables: acc.tables + ts,
            scans: acc.scans + ss,
            unrecognized_markers: acc.unrecognized_markers,
        });
    } else if ss.len() > 0 {
        let s0 = ss[0];
        let es = enc_scan(s0);
        lemma_enc_pairs_len(s0.table_mappings);
        assert(es.len() == 8 + 2 * s0.table_mappings.len());
        assert(enc_tables(ts) =~= Seq::<u8>::empty());
        assert(e =~= es + (enc_scans(ss.drop_first()) + enc16(EOI)));
        assert(enc_scans(ss) == es + enc_scans(ss.drop_first()));
        lemma_subrange_index(b, pos, e, 0);
        lemma_subrange_index(b, pos, e, 1);
        assert(e[0] == enc16(SOS)[0] && e[1] == enc16(SOS)[1]);
        lemma_be16_enc(b, pos, SOS);
        lemma_subrange_sub(b, pos, e, 2, es.len() as int);
        assert(e.subrange(2, es.len() as int) =~= scan_payload(s0));
        lemma_scan_roundtrip(b, pos + 2, s0);
        let acc2 = DispatchModel {
            tables: acc.tables,
            scans: acc.scans.push(s0),
            unrecognized_markers: acc.unrecognized_markers,
        };
        assert(acc2.tables + Seq::<TableModel>::empty() =~= acc.tables + ts);
        lemma_subrange_sub(b, pos, e, es.len() as int, e.len() as int);
        assert(e.subrange(es.len() as int, e.len() as int) =~= enc_tables(
            Seq::<TableModel>::empty(),
        ) + enc_scans(ss.drop_first()) + enc16(EOI));
        lemma_dispatch_roundtrip(b, pos + es.len(), Seq::empty(), ss.drop_first(), acc2);
        assert(spec_dispatch(b, pos, acc) == spec_dispatch(b, pos + es.len(), acc2));
        assert(DispatchModel {
            tables: acc2.tables + Seq::<TableModel>::empty(),
            scans: acc2.scans + ss.drop_first(),
            unrecognized_markers: acc2.unrecognized_markers,
        } =~= DispatchModel {
            tables: acc.tables + ts,
            scans: acc.scans + ss,
            unrecognized_markers: acc.unrecognized_markers,
        });
    } else {
        assert(e =~= enc16(EOI));
        lemma_subrange_index(b, pos, e, 0);
        lemma_subrange_index(b, pos, e, 1);
        lemma_be16_enc(b, pos, EOI);
        assert(spec_dispatch(b, pos, acc) == Ok::<DispatchModel, ParseError>(acc));
        assert(acc =~= DispatchModel {
            tables: acc.tables + ts,
            scans: acc.scans + ss,
            unrecognized_markers: acc.unrecognized_markers,
        });
    }
}

/// Round trip: a well-formed frame, encoded into the byte layout, parses
/// back to exactly that frame — precision, height, width, components in
/// order, table mapping, scans in order — with no diagnostics.
#[verifier::rlimit(60)]
pub proof fn lemma_round_trip(f: FrameModel)
    requires
        frame_wf(f),
    ensures
        spec_parse(enc_frame(f)) matches Ok(m) && m.frame == f && m.unrecognized_markers
            == Seq::<u16>::empty(),
{
    let b = enc_frame(f);
    let c = f.components.len() as int;
    let slen = (8 + 3 * f.components.len()) as u16;
    lemma_enc_components_len(f.components);
    let head = enc16(SOI) + enc16(SOF_3) + enc16(slen) + seq![f.precision] + enc16(f.y) + enc16(
        f.x,
    ) + seq![f.components.len() as u8] + enc_components(f.components);
    let tail = enc_tables(f.tables) + enc_scans(f.scans) + enc16(EOI);
    assert(head.len() == 12 + 3 * c);
    assert(b =~= head + tail);
    assert(b.len() == head.len() + tail.len());
    assert(b.subrange(0, 12) =~= seq![
        (SOI / 256) as u8,
        (SOI % 256) as u8,
        (SOF_3 / 256) as u8,
        (SOF_3 % 256) as u8,
        (slen / 256) as u8,
        (slen % 256) as u8,
        f.precision,
        (f.y / 256) as u8,
        (f.y % 256) as u8,
        (f.x / 256) as u8,
        (f.x % 256) as u8,
        f.components.len() as u8,
    ]);
    assert(b[0] == (SOI / 256) as u8 && b[1] == (SOI % 256) as u8) by {
        assert(b.subrange(0, 12)[0] == b[0] && b.subrange(0, 12)[1] == b[1]);
    }
    assert(b[2] == (SOF_3 / 256) as u8 && b[3] == (SOF_3 % 256) as u8 && b[6] == f.precision
        && b[7] == (f.y / 256) as u8 && b[8] == (f.y % 256) as u8 && b[9] == (f.x / 256) as u8
        && b[10] == (f.x % 256) as u8 && b[11] == f.components.len() as u8) by {
        assert(forall|k: int| 0 <= k < 12 ==> b.subrange(0, 12)[k] == b[k]);
    }
    lemma_be16_enc(b, 0, SOI);
    lemma_be16_enc(b, 2, SOF_3);
    lemma_be16_enc(b, 7, f.y);
    lemma_be16_enc(b, 9, f.x);
    assert(b.subrange(12, 12 + 3 * c) =~= enc_components(f.components));
    lemma_components_roundtrip(b, 12, f.components);
    assert(spec_read_header(b, 4) matches Ok(h) && h.precision == f.precision && h.y == f.y
        && h.x == f.x && h.components == f.components && h.end == 12 + 3 * c);
    assert(b.subrange(12 + 3 * c, 12 + 3 * c + tail.len()) =~= tail);
    assert(empty_dispatch().tables + f.tables =~= f.tables);
    lemma_dispatch_roundtrip(b, 12 + 3 * c, f.tables, f.scans, empty_dispatch());
    assert(spec_dispatch(b, 12 + 3 * c, empty_dispatch()) matches Ok(d) && d.tables =~= f.tables
        && d.scans =~= f.scans && d.unrecognized_markers =~= Seq::<u16>::empty());
    assert(spec_parse(b) matches Ok(m) && m.frame =~= f && m.unrecognized_markers
        == Seq::<u16>::empty());
}

} // verus!
