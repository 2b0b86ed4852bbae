//! The parsed data model: a `Frame` with its components, Huffman tables and
//! scan headers, the error taxonomy of a parse, and the spec-level models
//! that the contracts speak of.

use vstd::prelude::*;

verus! {

/// A failure of the whole parse: the bitstream violated a structural
/// expectation and no `Frame` is produced.
#[derive(Debug, Clone, Copy, PartialEq, Eq, Structural)]
pub enum ParseError {
    /// The leading two bytes are not the start-of-image marker.
    NotAnImage,
    /// The second marker is not the lossless start-of-frame marker; carries
    /// the marker value that was found instead.
    UnsupportedEncoding(u16),
    /// A read ran past the end of the buffer (truncated or corrupt input).
    OutOfBounds,
    /// A DHT segment's declared length disagrees with the sum of its sixteen
    /// code-length counts (or is too short to hold its fixed fields).
    MalformedTable,
}

/// One color/sample plane declared in the frame header.
#[derive(Debug, Clone, Copy, PartialEq, Eq, Structural)]
pub struct Component {
    /// Arbitrary tag byte; scans refer to components by this id.
    pub id: u8,
    /// High nibble of the packed sampling-factor byte.
    pub horizontal_sampling_factor: u8,
    /// Low nibble of the packed sampling-factor byte.
    pub vertical_sampling_factor: u8,
    /// Quantization-table reference; unused in lossless mode but present in
    /// the byte layout.
    pub q_table: u8,
}

/// One entropy-coding table, decoded from a DHT segment.
#[derive(Debug, Clone, PartialEq, Eq)]
pub struct HuffmanTable {
    /// Which table slot this definition fills (0-3 in conforming streams).
    pub destination: u8,
    /// The sixteen code-length counts: entry `i` is the number of codes of
    /// bit-length `i + 1`. Always exactly sixteen entries.
    pub number_of_codes: Vec<u8>,
    /// The Huffman leaf values, in order; their count equals the sum of the
    /// sixteen counts.
    pub values: Vec<u8>,
}

/// One SOS segment's header.
#[derive(Debug, Clone, PartialEq, Eq)]
pub struct Scan {
    /// Pairs of (component id, table destination selected for it), with the
    /// component ids kept unique: a later pair for the same id replaces the
    /// earlier one.
    pub table_mappings: Vec<(u8, u8)>,
    /// Which lossless prediction formula applies to this scan (1-7 in
    /// conforming streams).
    pub predictor: u8,
    /// Low-order bit shift applied around prediction.
    pub point_transform: u8,
}

/// The root parsed artifact for one image.
#[derive(Debug, Clone, PartialEq, Eq)]
pub struct Frame {
    /// Bits per sample.
    pub precision: u8,
    /// Image height.
    pub y: u16,
    /// Image width.
    pub x: u16,
    /// The components in declaration order.
    pub components: Vec<Component>,
    /// The Huffman tables, destinations kept unique: a later DHT for the
    /// same destination replaces the earlier table in place.
    pub tables: Vec<HuffmanTable>,
    /// The scan headers in encounter order.
    pub scans: Vec<Scan>,
}

/// A successful parse: the frame plus the non-fatal diagnostics.
#[derive(Debug, Clone, PartialEq, Eq)]
pub struct Parsed {
    pub frame: Frame,
    /// The unrecognized `0xFFxx` marker values, in encounter order.
    pub unrecognized_markers: Vec<u16>,
}

/// Mathematical model of a `HuffmanTable`.
#[verifier::ext_equal]
pub struct TableModel {
    pub destination: u8,
    pub number_of_codes: Seq<u8>,
    pub values: Seq<u8>,
}

/// Mathematical model of a `Scan`.
#[verifier::ext_equal]
pub struct ScanModel {
    pub table_mappings: Seq<(u8, u8)>,
    pub predictor: u8,
    pub point_transform: u8,
}

/// Mathematical model of a `Frame`.
#[verifier::ext_equal]
pub struct FrameModel {
    pub precision: u8,
    pub y: u16,
    pub x: u16,
    pub components: Seq<Component>,
    pub tables: Seq<TableModel>,
    pub scans: Seq<ScanModel>,
}

/// Mathematical model of a successful parse.
#[verifier::ext_equal]
pub struct ParsedModel {
    pub frame: FrameModel,
    pub unrecognized_markers: Seq<u16>,
}

/// The fixed fields of the SOF3 segment, with the position just past the
/// component triples.
#[verifier::ext_equal]
pub struct HeaderModel {
    pub precision: u8,
    pub y: u16,
    pub x: u16,
    pub components: Seq<Component>,
    pub end: int,
}

/// What the marker-dispatch loop accumulates.
#[verifier::ext_equal]
pub struct DispatchModel {
    pub tables: Seq<TableModel>,
    pub scans: Seq<ScanModel>,
    pub unrecognized_markers: Seq<u16>,
}

impl View for HuffmanTable {
    type V = TableModel;

    open spec fn view(&self) -> TableModel {
        TableModel {
            destination: self.destination,
            number_of_codes: self.number_of_codes@,
            values: self.values@,
        }
    }
}

impl View for Scan {
    type V = ScanModel;

    open spec fn view(&self) -> ScanModel {
        ScanModel {
            table_mappings: self.table_mappings@,
            predictor: self.predictor,
            point_transform: self.point_transform,
        }
    }
}

impl View for Frame {
    type V = FrameModel;

    open spec fn view(&self) -> FrameModel {
        FrameModel {
            precision: self.precision,
            y: self.y,
            x: self.x,
            components: self.components@,
            tables: tables_view(self.tables@),
            scans: scans_view(self.scans@),
        }
    }
}

impl View for Parsed {
    type V = ParsedModel;

    open spec fn view(&self) -> ParsedModel {
        ParsedModel { frame: self.frame@, unrecognized_markers: self.unrecognized_markers@ }
    }
}

/// The models of a sequence of tables, element by element.
pub open spec fn tables_view(s: Seq<HuffmanTable>) -> Seq<TableModel> {
    Seq::new(s.len(), |i: int| s[i]@)
}

/// The models of a sequence of scans, element by element.
pub open spec fn scans_view(s: Seq<Scan>) -> Seq<ScanModel> {
    Seq::new(s.len(), |i: int| s[i]@)
}

/// The first index whose table has the given destination, or -1 when none has.
pub open spec fn table_index_of(s: Seq<TableModel>, destination: u8) -> int
    decreases s.len(),
{
    if s.len() == 0 {
        -1
    } else if s[0].destination == destination {
        0
    } else if table_index_of(s.drop_first(), destination) == -1 {
        -1
    } else {
        table_index_of(s.drop_first(), destination) + 1
    }
}

/// Last-write-wins insertion keyed by destination: replace the table at the
/// first index with the same destination, else append.
pub open spec fn spec_insert_table(s: Seq<TableModel>, t: TableModel) -> Seq<TableModel> {
    if table_index_of(s, t.destination) == -1 {
        s.push(t)
    } else {
        s.update(table_index_of(s, t.destination), t)
    }
}

/// The first index whose pair has the given component id, or -1 when none has.
pub open spec fn mapping_index_of(s: Seq<(u8, u8)>, id: u8) -> int
    decreases s.len(),
{
    if s.len() == 0 {
        -1
    } else if s[0].0 == id {
        0
    } else if mapping_index_of(s.drop_first(), id) == -1 {
        -1
    } else {
        mapping_index_of(s.drop_first(), id) + 1
    }
}

/// Last-write-wins insertion keyed by component id: replace the pair at the
/// first index with the same id, else append.
pub open spec fn spec_insert_mapping(s: Seq<(u8, u8)>, id: u8, selector: u8) -> Seq<(u8, u8)> {
    if mapping_index_of(s, id) == -1 {
        s.push((id, selector))
    } else {
        s.update(mapping_index_of(s, id), (id, selector))
    }
}

/// `table_index_of` finds the first index with the given destination: -1
/// means no index has it, and a non-negative result is the least such index.
pub proof fn lemma_table_index_of(s: Seq<TableModel>, destination: u8)
    ensures
        table_index_of(s, destination) == -1 ==> forall|i: int|
            0 <= i < s.len() ==> s[i].destination != destination,
        table_index_of(s, destination) != -1 ==> {
            &&& 0 <= table_index_of(s, destination) < s.len()
            &&& s[table_index_of(s, destination)].destination == destination
            &&& forall|i: int|
                0 <= i < table_index_of(s, destination) ==> s[i].destination != destination
        },
    decreases s.len(),
{
    if s.len() != 0 && s[0].destination != destination {
        lemma_table_index_of(s.drop_first(), destination);
        assert forall|i: int| 1 <= i < s.len() implies s.drop_first()[i - 1] == s[i] by {}
    }
}

/// `mapping_index_of` finds the first index with the given id: -1 means no
/// index has it, and a non-negative result is the least such index.
pub proof fn lemma_mapping_index_of(s: Seq<(u8, u8)>, id: u8)
    ensures
        mapping_index_of(s, id) == -1 ==> forall|i: int| 0 <= i < s.len() ==> s[i].0 != id,
        mapping_index_of(s, id) != -1 ==> {
            &&& 0 <= mapping_index_of(s, id) < s.len()
            &&& s[mapping_index_of(s, id)].0 == id
            &&& forall|i: int| 0 <= i < mapping_index_of(s, id) ==> s[i].0 != id
        },
    decreases s.len(),
{
    if s.len() != 0 && s[0].0 != id {
        lemma_mapping_index_of(s.drop_first(), id);
        assert forall|i: int| 1 <= i < s.len() implies s.drop_first()[i - 1] == s[i] by {}
    }
}

} // verus!
