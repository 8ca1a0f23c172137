//! The `.vex` snapshot format, as mathematics.
//!
//! ```text
//! header:
//!   magic        8  "VEXSNAP" and a zero byte
//!   version      u32
//!   index_type   u8   0 = flat, 1 = hnsw
//!   metric       u8   0 = cosine, 1 = l2, 2 = dot
//!   reserved     u16  must be 0
//!   dim          u64
//!
//! flat body:
//!   count        u64
//!   per entry:   id u64, payload (u32 length and JSON bytes, 0 = none), dim x u32
//!
//! hnsw body:
//!   m, ef_construction, ef_search, seed, rng_state   5 x u64
//!   entry_point  u64  (all ones = none)
//!   max_layer    u64
//!   live_count   u64
//!   node_count   u64  (removed nodes count too)
//!   per node:    id u64, deleted u8, layer_count u32,
//!                per layer: (u32 length and that many u32 places),
//!                payload (u32 length and JSON bytes, 0 = none), dim x u32
//! ```
//!
//! Numbers are little-endian; a coordinate is the bit pattern of a single.
use crate::codec::{
    cut_short, fits, le_bytes, lemma_le_bounds, lemma_le_bytes_len, lemma_number_stands,
    lemma_stands_split, number_at, stands_at, Fault,
};
use crate::distance::DistanceMetric;
use crate::flat::{EntryView, FlatView};
use crate::graph::NodeView;
use crate::hnsw::{HnswConfig, HnswView};
use crate::json::{json_parsed, json_text, JsonView};
use crate::records::live_count;
use crate::text::decimal;
use vstd::prelude::*;

verus! {

/// The format version that this library writes and reads.
pub const FORMAT_VERSION: u32 = 1;

/// The tag of a flat index.
pub const TYPE_FLAT: u8 = 0;

/// The tag of an HNSW index.
pub const TYPE_HNSW: u8 = 1;

/// The largest payload in bytes (16 MiB).
pub const MAX_PAYLOAD_BYTES: u32 = 0x100_0000;

/// The largest number of layers of a node.
pub const MAX_LAYERS: u32 = 64;

/// The entry point of an index without one.
pub const NO_ENTRY: u64 = 0xffff_ffff_ffff_ffff;

/// The largest dimension.
pub const MAX_SNAPSHOT_DIM: u64 = 0x10_0000;

/// The largest `m`.
pub const MAX_SNAPSHOT_M: u64 = 0x1_0000;

/// The bytes that every snapshot begins with.
pub open spec fn magic() -> Seq<u8> {
    seq![0x56u8, 0x45u8, 0x58u8, 0x53u8, 0x4eu8, 0x41u8, 0x50u8, 0x00u8]
}

// ---------------------------------------------------------------------------
// Writing
// ---------------------------------------------------------------------------

/// What a writer leaves: the bytes written, and the fault that stopped it, if
/// any.
#[verifier::ext_equal]
pub struct Output {
    pub bytes: Seq<u8>,
    pub fault: Option<Fault>,
}

/// The output of a writer that wrote all it had.
pub open spec fn whole(bytes: Seq<u8>) -> Output {
    Output { bytes, fault: None }
}

/// The output of two writers in turn; the second one only gets its turn if
/// nothing stopped the first.
pub open spec fn chained(a: Output, b: Output) -> Output {
    if a.fault is Some {
        a
    } else {
        Output { bytes: a.bytes + b.bytes, fault: b.fault }
    }
}

/// The header of a snapshot.
pub open spec fn header_bytes(index_type: u8, metric: DistanceMetric, dim: usize) -> Seq<u8> {
    magic() + (le_bytes(FORMAT_VERSION as nat, 4) + (seq![index_type] + (seq![metric.tag()] + (
    le_bytes(0, 2) + le_bytes(dim as nat, 8)))))
}

/// A payload: its length and its JSON text. One that is too long, or that
/// cannot be written as JSON, stops the writer.
pub open spec fn payload_output(payload: Option<JsonView>) -> Output {
    match payload {
        None => whole(le_bytes(0, 4)),
        Some(value) => match json_text(value) {
            Err(message) => Output {
                bytes: seq![],
                fault: Some(Fault::Corrupt("unserializable payload: "@ + message)),
            },
            Ok(text) => if 0 < text.len() <= MAX_PAYLOAD_BYTES {
                whole(le_bytes(text.len(), 4) + text)
            } else {
                Output {
                    bytes: seq![],
                    fault: Some(Fault::Corrupt("payload exceeds 16 MiB limit"@)),
                }
            },
        },
    }
}

/// Numbers of four bytes, one after the other.
pub open spec fn words_bytes(words: Seq<u32>) -> Seq<u8>
    decreases words.len(),
{
    if words.len() == 0 {
        seq![]
    } else {
        words_bytes(words.drop_last()) + le_bytes(words.last() as nat, 4)
    }
}

/// One entry of a flat index.
pub open spec fn entry_output(e: EntryView) -> Output {
    chained(
        whole(le_bytes(e.id as nat, 8)),
        chained(payload_output(e.payload), whole(words_bytes(e.vector))),
    )
}

/// The entries of a flat index.
pub open spec fn entries_output(entries: Seq<EntryView>) -> Output
    decreases entries.len(),
{
    if entries.len() == 0 {
        whole(seq![])
    } else {
        chained(entries_output(entries.drop_last()), entry_output(entries.last()))
    }
}

/// The snapshot of a flat index.
pub open spec fn flat_output(v: FlatView) -> Output {
    chained(
        whole(header_bytes(TYPE_FLAT, v.metric, v.dim) + le_bytes(v.entries.len(), 8)),
        entries_output(v.entries),
    )
}

/// A neighbor list.
pub open spec fn list_bytes(list: Seq<u32>) -> Seq<u8> {
    le_bytes(list.len(), 4) + words_bytes(list)
}

/// The neighbor lists of a node.
pub open spec fn lists_bytes(lists: Seq<Seq<u32>>) -> Seq<u8>
    decreases lists.len(),
{
    if lists.len() == 0 {
        seq![]
    } else {
        lists_bytes(lists.drop_last()) + list_bytes(lists.last())
    }
}

/// The byte that marks a removed node.
pub open spec fn flag_byte(deleted: bool) -> u8 {
    if deleted {
        1
    } else {
        0
    }
}

/// A node up to its payload.
pub open spec fn node_head(n: NodeView) -> Seq<u8> {
    le_bytes(n.id as nat, 8) + (seq![flag_byte(n.deleted)] + (le_bytes(n.neighbors.len(), 4)
        + lists_bytes(n.neighbors)))
}

/// One node of an HNSW index.
pub open spec fn node_output(n: NodeView) -> Output {
    chained(
        whole(node_head(n)),
        chained(payload_output(n.payload), whole(words_bytes(n.vector))),
    )
}

/// The nodes of an HNSW index.
pub open spec fn nodes_output(nodes: Seq<NodeView>) -> Output
    decreases nodes.len(),
{
    if nodes.len() == 0 {
        whole(seq![])
    } else {
        chained(nodes_output(nodes.drop_last()), node_output(nodes.last()))
    }
}

/// The number that an entry point is written as.
pub open spec fn entry_number(entry: Option<u32>) -> u64 {
    match entry {
        Some(e) => e as u64,
        None => NO_ENTRY,
    }
}

/// The parameters and counts of an HNSW index.
pub open spec fn hnsw_fields(v: HnswView) -> Seq<u8> {
    le_bytes(v.config.m as nat, 8) + (le_bytes(v.config.ef_construction as nat, 8) + (le_bytes(
        v.config.ef_search as nat,
        8,
    ) + (le_bytes(v.config.seed as nat, 8) + (le_bytes(v.rng as nat, 8) + (le_bytes(
        entry_number(v.entry) as nat,
        8,
    ) + (le_bytes(v.max_layer as nat, 8) + (le_bytes(live_count(v.points()), 8) + le_bytes(
        v.nodes.len(),
        8,
    ))))))))
}

/// The snapshot of an HNSW index.
pub open spec fn hnsw_output(v: HnswView) -> Output {
    chained(
        whole(header_bytes(TYPE_HNSW, v.metric, v.dim) + hnsw_fields(v)),
        nodes_output(v.nodes),
    )
}

// ---------------------------------------------------------------------------
// Reading
// ---------------------------------------------------------------------------

/// What reading at a place gives: a value and the place behind it, or a fault.
pub type Parsed<T> = Result<(T, int), Fault>;

/// The header of a snapshot.
#[derive(Clone, Copy, Debug, PartialEq, Eq, Structural)]
pub struct Header {
    pub index_type: u8,
    pub metric: DistanceMetric,
    pub dim: usize,
}

/// Reads the header, which takes 24 bytes.
pub open spec fn header_at(data: Seq<u8>) -> Result<Header, Fault> {
    if !fits(data, 0, 8) {
        Err(cut_short())
    } else if data.subrange(0, 8) != magic() {
        Err(Fault::BadMagic)
    } else if !fits(data, 8, 4) {
        Err(cut_short())
    } else if number_at(data, 8, 4) != FORMAT_VERSION {
        Err(Fault::UnsupportedVersion(number_at(data, 8, 4) as u32))
    } else if !fits(data, 12, 1) {
        Err(cut_short())
    } else if number_at(data, 12, 1) != TYPE_FLAT && number_at(data, 12, 1) != TYPE_HNSW {
        Err(Fault::Corrupt("unknown index type tag "@ + decimal(number_at(data, 12, 1))))
    } else if !fits(data, 13, 1) {
        Err(cut_short())
    } else if DistanceMetric::of_tag(number_at(data, 13, 1) as u8) is None {
        Err(Fault::Corrupt("unknown metric tag"@))
    } else if !fits(data, 14, 2) {
        Err(cut_short())
    } else if number_at(data, 14, 2) != 0 {
        Err(Fault::Corrupt("reserved header bytes are not zero"@))
    } else if !fits(data, 16, 8) {
        Err(cut_short())
    } else if number_at(data, 16, 8) > usize::MAX {
        Err(Fault::Corrupt("dim overflows usize"@))
    } else if number_at(data, 16, 8) == 0 || number_at(data, 16, 8) > MAX_SNAPSHOT_DIM {
        Err(Fault::Corrupt("implausible dim "@ + decimal(number_at(data, 16, 8))))
    } else {
        Ok(
            Header {
                index_type: number_at(data, 12, 1) as u8,
                metric: DistanceMetric::of_tag(number_at(data, 13, 1) as u8)->Some_0,
                dim: number_at(data, 16, 8) as usize,
            },
        )
    }
}

/// Reads a payload.
pub open spec fn payload_at(data: Seq<u8>, pos: int) -> Parsed<Option<JsonView>> {
    let len = number_at(data, pos, 4);
    if !fits(data, pos, 4) {
        Err(cut_short())
    } else if len == 0 {
        Ok((None, pos + 4))
    } else if len > MAX_PAYLOAD_BYTES {
        Err(Fault::Corrupt("payload length "@ + decimal(len) + " exceeds limit"@))
    } else if !fits(data, pos + 4, len as int) {
        Err(cut_short())
    } else {
        match json_parsed(data.subrange(pos + 4, pos + 4 + len)) {
            Ok(value) => Ok((Some(value), pos + 4 + len)),
            Err(message) => Err(Fault::Corrupt("payload is not valid JSON: "@ + message)),
        }
    }
}

/// Numbers of four bytes from a place on.
pub open spec fn words_at(data: Seq<u8>, pos: int, count: nat) -> Seq<u32> {
    Seq::new(count, |i: int| number_at(data, pos + 4 * i, 4) as u32)
}

/// Reads the coordinates of a vector.
pub open spec fn vector_at(data: Seq<u8>, pos: int, dim: nat) -> Parsed<Seq<u32>> {
    if !fits(data, pos, 4 * dim as int) {
        Err(cut_short())
    } else {
        Ok((words_at(data, pos, dim), pos + 4 * dim))
    }
}

/// Reads a payload and the coordinates behind it.
pub open spec fn payload_and_vector_at(
    data: Seq<u8>,
    pos: int,
    dim: nat,
) -> Parsed<(Option<JsonView>, Seq<u32>)> {
    match payload_at(data, pos) {
        Err(fault) => Err(fault),
        Ok((payload, next)) => match vector_at(data, next, dim) {
            Err(fault) => Err(fault),
            Ok((vector, end)) => Ok(((payload, vector), end)),
        },
    }
}

/// Reads an entry of a flat index.
pub open spec fn entry_at(data: Seq<u8>, pos: int, dim: nat) -> Parsed<EntryView> {
    if !fits(data, pos, 8) {
        Err(cut_short())
    } else {
        match payload_and_vector_at(data, pos + 8, dim) {
            Err(fault) => Err(fault),
            Ok(((payload, vector), end)) => Ok(
                (EntryView { id: number_at(data, pos, 8) as u64, vector, payload }, end),
            ),
        }
    }
}

/// Whether some entry has an id.
pub open spec fn has_entry(entries: Seq<EntryView>, id: u64) -> bool {
    exists|i: int| 0 <= i < entries.len() && (#[trigger] entries[i]).id == id
}

/// Reads `left` entries that follow on those read before. No id may occur
/// twice.
pub open spec fn entries_from(
    data: Seq<u8>,
    pos: int,
    dim: nat,
    left: nat,
    before: Seq<EntryView>,
) -> Result<Seq<EntryView>, Fault>
    decreases left,
{
    if left == 0 {
        Ok(before)
    } else {
        match entry_at(data, pos, dim) {
            Err(fault) => Err(fault),
            Ok((e, next)) => if has_entry(before, e.id) {
                Err(
                    Fault::Corrupt(
                        "duplicate id "@ + decimal(e.id as nat) + " in flat snapshot"@,
                    ),
                )
            } else {
                entries_from(data, next, dim, (left - 1) as nat, before.push(e))
            },
        }
    }
}

/// Reads the body of a flat index.
pub open spec fn flat_at(data: Seq<u8>, header: Header) -> Result<FlatView, Fault> {
    if !fits(data, 24, 8) {
        Err(cut_short())
    } else if number_at(data, 24, 8) > usize::MAX {
        Err(Fault::Corrupt("count overflows usize"@))
    } else {
        match entries_from(data, 32, header.dim as nat, number_at(data, 24, 8), seq![]) {
            Err(fault) => Err(fault),
            Ok(entries) => Ok(FlatView { metric: header.metric, dim: header.dim, entries }),
        }
    }
}

/// Reads `left` places of nodes that follow on those read before.
pub open spec fn places_from(
    data: Seq<u8>,
    pos: int,
    left: nat,
    count: u32,
    before: Seq<u32>,
) -> Parsed<Seq<u32>>
    decreases left,
{
    let nb = number_at(data, pos, 4);
    if left == 0 {
        Ok((before, pos))
    } else if !fits(data, pos, 4) {
        Err(cut_short())
    } else if nb >= count {
        Err(
            Fault::Corrupt(
                "neighbor index "@ + decimal(nb) + (" exceeds node count "@ + decimal(
                    count as nat,
                )),
            ),
        )
    } else {
        places_from(data, pos + 4, (left - 1) as nat, count, before.push(nb as u32))
    }
}

/// Reads a neighbor list.
pub open spec fn list_at(data: Seq<u8>, pos: int, count: u32) -> Parsed<Seq<u32>> {
    let len = number_at(data, pos, 4);
    if !fits(data, pos, 4) {
        Err(cut_short())
    } else if len > 2 * count {
        Err(Fault::Corrupt("implausible neighbor list length "@ + decimal(len)))
    } else {
        places_from(data, pos + 4, len, count, seq![])
    }
}

/// Reads `left` neighbor lists that follow on those read before.
pub open spec fn lists_from(
    data: Seq<u8>,
    pos: int,
    left: nat,
    count: u32,
    before: Seq<Seq<u32>>,
) -> Parsed<Seq<Seq<u32>>>
    decreases left,
{
    if left == 0 {
        Ok((before, pos))
    } else {
        match list_at(data, pos, count) {
            Err(fault) => Err(fault),
            Ok((list, next)) => lists_from(
                data,
                next,
                (left - 1) as nat,
                count,
                before.push(list),
            ),
        }
    }
}

/// Reads a node.
pub open spec fn node_at(data: Seq<u8>, pos: int, dim: nat, count: u32) -> Parsed<NodeView> {
    let flag = number_at(data, pos + 8, 1);
    let layers = number_at(data, pos + 9, 4);
    if !fits(data, pos, 8) {
        Err(cut_short())
    } else if !fits(data, pos + 8, 1) {
        Err(cut_short())
    } else if flag > 1 {
        Err(Fault::Corrupt("invalid deleted flag "@ + decimal(flag)))
    } else if !fits(data, pos + 9, 4) {
        Err(cut_short())
    } else if layers == 0 || layers > MAX_LAYERS {
        Err(Fault::Corrupt("implausible layer count "@ + decimal(layers)))
    } else {
        match lists_from(data, pos + 13, layers, count, seq![]) {
            Err(fault) => Err(fault),
            Ok((neighbors, next)) => match payload_and_vector_at(data, next, dim) {
                Err(fault) => Err(fault),
                Ok(((payload, vector), end)) => Ok(
                    (
                        NodeView {
                            id: number_at(data, pos, 8) as u64,
                            vector,
                            neighbors,
                            deleted: flag == 1,
                            payload,
                        },
                        end,
                    ),
                ),
            },
        }
    }
}

/// Whether some live node has an id.
pub open spec fn has_live_node(nodes: Seq<NodeView>, id: u64) -> bool {
    exists|i: int|
        0 <= i < nodes.len() && !(#[trigger] nodes[i]).deleted && nodes[i].id == id
}

/// Reads `left` nodes that follow on those read before. No two live nodes may
/// share an id.
pub open spec fn nodes_from(
    data: Seq<u8>,
    pos: int,
    dim: nat,
    left: nat,
    count: u32,
    before: Seq<NodeView>,
) -> Result<Seq<NodeView>, Fault>
    decreases left,
{
    if left == 0 {
        Ok(before)
    } else {
        match node_at(data, pos, dim, count) {
            Err(fault) => Err(fault),
            Ok((n, next)) => if !n.deleted && has_live_node(before, n.id) {
                Err(
                    Fault::Corrupt(
                        "duplicate live id "@ + decimal(n.id as nat) + " in hnsw snapshot"@,
                    ),
                )
            } else {
                nodes_from(data, next, dim, (left - 1) as nat, count, before.push(n))
            },
        }
    }
}

/// The parameters and counts of an HNSW index.
pub struct HnswFields {
    pub config: HnswConfig,
    pub rng: u64,
    pub entry: Option<u32>,
    pub max_layer: usize,
    pub live_count: usize,
    pub node_count: u32,
}

/// Reads the parameters and counts of an HNSW index, which stand behind the
/// header.
pub open spec fn fields_at(data: Seq<u8>) -> Result<HnswFields, Fault> {
    let m = number_at(data, 24, 8);
    let ef_construction = number_at(data, 32, 8);
    let ef_search = number_at(data, 40, 8);
    let entry = number_at(data, 64, 8);
    let max_layer = number_at(data, 72, 8);
    let live = number_at(data, 80, 8);
    let count = number_at(data, 88, 8);
    if !fits(data, 24, 8) {
        Err(cut_short())
    } else if m > usize::MAX {
        Err(Fault::Corrupt("m overflows usize"@))
    } else if !fits(data, 32, 8) {
        Err(cut_short())
    } else if ef_construction > usize::MAX {
        Err(Fault::Corrupt("ef_construction overflows usize"@))
    } else if !fits(data, 40, 8) {
        Err(cut_short())
    } else if ef_search > usize::MAX {
        Err(Fault::Corrupt("ef_search overflows usize"@))
    } else if !fits(data, 48, 8) || !fits(data, 56, 8) {
        Err(cut_short())
    } else if m == 0 || m > MAX_SNAPSHOT_M {
        Err(Fault::Corrupt("implausible m "@ + decimal(m)))
    } else if !fits(data, 64, 8) || !fits(data, 72, 8) {
        Err(cut_short())
    } else if max_layer > usize::MAX {
        Err(Fault::Corrupt("max_layer overflows usize"@))
    } else if !fits(data, 80, 8) {
        Err(cut_short())
    } else if live > usize::MAX {
        Err(Fault::Corrupt("live_count overflows usize"@))
    } else if !fits(data, 88, 8) {
        Err(cut_short())
    } else if count > u32::MAX {
        Err(Fault::Corrupt("node count "@ + decimal(count) + " exceeds u32 arena limit"@))
    } else if max_layer >= MAX_LAYERS {
        Err(Fault::Corrupt("implausible max_layer "@ + decimal(max_layer)))
    } else if entry != NO_ENTRY && entry > u32::MAX {
        Err(Fault::Corrupt("entry point out of range"@))
    } else if entry != NO_ENTRY && entry >= count {
        Err(Fault::Corrupt("entry point exceeds node count"@))
    } else {
        Ok(
            HnswFields {
                config: HnswConfig {
                    m: m as usize,
                    ef_construction: ef_construction as usize,
                    ef_search: ef_search as usize,
                    seed: number_at(data, 48, 8) as u64,
                },
                rng: number_at(data, 56, 8) as u64,
                entry: if entry == NO_ENTRY {
                    None
                } else {
                    Some(entry as u32)
                },
                max_layer: max_layer as usize,
                live_count: live as usize,
                node_count: count as u32,
            },
        )
    }
}

/// Whether every neighbor on a layer is a node of that layer.
pub open spec fn layered(nodes: Seq<NodeView>) -> bool {
    forall|i: int, layer: int, j: int|
        #![trigger nodes[i].neighbors[layer][j]]
        0 <= i < nodes.len() && 0 <= layer < nodes[i].neighbors.len() && 0 <= j
            < nodes[i].neighbors[layer].len() ==> nodes[nodes[i].neighbors[layer][j] as int].reaches(
            layer,
        )
}

/// Puts an index together from its parts. The counts have to agree, and the
/// neighbors and the entry point have to be on their layers.
pub open spec fn assembled(
    header: Header,
    fields: HnswFields,
    nodes: Seq<NodeView>,
) -> Result<HnswView, Fault> {
    let v = HnswView {
        config: fields.config,
        metric: header.metric,
        dim: header.dim,
        nodes,
        entry: fields.entry,
        max_layer: fields.max_layer,
        rng: fields.rng,
    };
    if live_count(v.points()) != fields.live_count {
        Err(
            Fault::Corrupt(
                "live_count "@ + decimal(fields.live_count as nat) + (" does not match "@
                    + decimal(live_count(v.points())) + " live nodes"@),
            ),
        )
    } else if !layered(nodes) {
        Err(Fault::Corrupt("neighbor is not on the layer that links it"@))
    } else if fields.entry is Some && !nodes[fields.entry->Some_0 as int].reaches(
        fields.max_layer as int,
    ) {
        Err(Fault::Corrupt("entry point is not on the highest layer"@))
    } else {
        Ok(v)
    }
}

/// Reads the body of an HNSW index.
pub open spec fn hnsw_at(data: Seq<u8>, header: Header) -> Result<HnswView, Fault> {
    match fields_at(data) {
        Err(fault) => Err(fault),
        Ok(fields) => match nodes_from(
            data,
            96,
            header.dim as nat,
            fields.node_count as nat,
            fields.node_count,
            seq![],
        ) {
            Err(fault) => Err(fault),
            Ok(nodes) => assembled(header, fields, nodes),
        },
    }
}

/// An index of either type as mathematics.
#[verifier::ext_equal]
pub enum AnyView {
    Flat(FlatView),
    Hnsw(HnswView),
}

/// The snapshot of an index.
pub open spec fn encoded(v: AnyView) -> Output {
    match v {
        AnyView::Flat(flat) => flat_output(flat),
        AnyView::Hnsw(hnsw) => hnsw_output(hnsw),
    }
}

/// The index that a snapshot holds. What stands behind it does not matter.
pub open spec fn decoded(data: Seq<u8>) -> Result<AnyView, Fault> {
    match header_at(data) {
        Err(fault) => Err(fault),
        Ok(header) => if header.index_type == TYPE_FLAT {
            match flat_at(data, header) {
                Err(fault) => Err(fault),
                Ok(flat) => Ok(AnyView::Flat(flat)),
            }
        } else {
            match hnsw_at(data, header) {
                Err(fault) => Err(fault),
                Ok(hnsw) => Ok(AnyView::Hnsw(hnsw)),
            }
        },
    }
}

// ---------------------------------------------------------------------------
// What was written reads back
// ---------------------------------------------------------------------------

/// Whether the JSON text of a payload, if it has one, is read as the payload.
pub open spec fn reads_back(payload: Option<JsonView>) -> bool {
    payload matches Some(value) ==> (json_text(value) matches Ok(text) ==> json_parsed(text)
        == Ok::<JsonView, Seq<char>>(value))
}

pub(crate) proof fn lemma_words_len(words: Seq<u32>)
    ensures
        words_bytes(words).len() == 4 * words.len(),
    decreases words.len(),
{
    if words.len() > 0 {
        lemma_words_len(words.drop_last());
        lemma_le_bytes_len(words.last() as nat, 4);
    }
}

pub(crate) proof fn lemma_words_stand(data: Seq<u8>, pos: int, words: Seq<u32>)
    requires
        stands_at(data, pos, words_bytes(words)),
    ensures
        fits(data, pos, 4 * words.len() as int),
        forall|i: int|
            0 <= i < words.len() ==> number_at(data, pos + 4 * i, 4) == #[trigger] words[i],
    decreases words.len(),
{
    lemma_words_len(words);
    if words.len() > 0 {
        let front = words.drop_last();
        let last = words.last();
        lemma_words_len(front);
        lemma_stands_split(data, pos, words_bytes(front), le_bytes(last as nat, 4));
        lemma_words_stand(data, pos, front);
        lemma_le_bounds();
        lemma_number_stands(data, pos + 4 * front.len(), last as nat, 4);
        assert forall|i: int| 0 <= i < words.len() implies number_at(data, pos + 4 * i, 4)
            == #[trigger] words[i] by {
            if i < front.len() {
                assert(front[i] == words[i]);
            }
        }
    }
}

pub(crate) proof fn lemma_vector_reads_back(data: Seq<u8>, pos: int, vector: Seq<u32>)
    requires
        stands_at(data, pos, words_bytes(vector)),
    ensures
        vector_at(data, pos, vector.len()) == Ok::<(Seq<u32>, int), Fault>(
            (vector, pos + words_bytes(vector).len()),
        ),
{
    lemma_words_stand(data, pos, vector);
    lemma_words_len(vector);
    assert(words_at(data, pos, vector.len()) =~= vector);
}

pub(crate) proof fn lemma_payload_reads_back(data: Seq<u8>, pos: int, payload: Option<JsonView>)
    requires
        payload_output(payload).fault is None,
        reads_back(payload),
        stands_at(data, pos, payload_output(payload).bytes),
    ensures
        payload_at(data, pos) == Ok::<(Option<JsonView>, int), Fault>(
            (payload, pos + payload_output(payload).bytes.len()),
        ),
{
    lemma_le_bounds();
    match payload {
        None => {
            lemma_le_bytes_len(0, 4);
            lemma_number_stands(data, pos, 0, 4);
        },
        Some(value) => {
            let text = json_text(value)->Ok_0;
            lemma_le_bytes_len(text.len(), 4);
            lemma_stands_split(data, pos, le_bytes(text.len(), 4), text);
            lemma_number_stands(data, pos, text.len(), 4);
        },
    }
}

pub(crate) proof fn lemma_tail_reads_back(
    data: Seq<u8>,
    pos: int,
    payload: Option<JsonView>,
    vector: Seq<u32>,
)
    requires
        payload_output(payload).fault is None,
        reads_back(payload),
        stands_at(data, pos, payload_output(payload).bytes + words_bytes(vector)),
    ensures
        payload_and_vector_at(data, pos, vector.len()) == Ok::<
            ((Option<JsonView>, Seq<u32>), int),
            Fault,
        >(
            (
                (payload, vector),
                pos + payload_output(payload).bytes.len() + words_bytes(vector).len(),
            ),
        ),
{
    let head = payload_output(payload).bytes;
    lemma_stands_split(data, pos, head, words_bytes(vector));
    lemma_payload_reads_back(data, pos, payload);
    lemma_vector_reads_back(data, pos + head.len(), vector);
}

pub(crate) proof fn lemma_entry_reads_back(data: Seq<u8>, pos: int, e: EntryView)
    requires
        entry_output(e).fault is None,
        reads_back(e.payload),
        stands_at(data, pos, entry_output(e).bytes),
    ensures
        entry_at(data, pos, e.vector.len()) == Ok::<(EntryView, int), Fault>(
            (e, pos + entry_output(e).bytes.len()),
        ),
{
    let head = le_bytes(e.id as nat, 8);
    let tail = payload_output(e.payload).bytes + words_bytes(e.vector);
    lemma_le_bytes_len(e.id as nat, 8);
    lemma_stands_split(data, pos, head, tail);
    lemma_le_bounds();
    lemma_number_stands(data, pos, e.id as nat, 8);
    lemma_tail_reads_back(data, pos + 8, e.payload, e.vector);
}

pub(crate) proof fn lemma_entries_prefix(data: Seq<u8>, pos: int, entries: Seq<EntryView>, i: int)
    requires
        0 <= i <= entries.len(),
        entries_output(entries).fault is None,
        stands_at(data, pos, entries_output(entries).bytes),
    ensures
        entries_output(entries.take(i)).fault is None,
        stands_at(data, pos, entries_output(entries.take(i)).bytes),
    decreases entries.len() - i,
{
    if i == entries.len() {
        assert(entries.take(i) =~= entries);
    } else {
        lemma_entries_prefix(data, pos, entries, i + 1);
        let more = entries.take(i + 1);
        assert(more.drop_last() =~= entries.take(i));
        lemma_stands_split(
            data,
            pos,
            entries_output(entries.take(i)).bytes,
            entry_output(more.last()).bytes,
        );
    }
}

proof fn lemma_entries_read_back(data: Seq<u8>, pos: int, dim: nat, entries: Seq<EntryView>, i: int)
    requires
        0 <= i <= entries.len(),
        entries_output(entries).fault is None,
        stands_at(data, pos, entries_output(entries).bytes),
        forall|j: int|
            0 <= j < entries.len() ==> (#[trigger] entries[j]).vector.len() == dim && reads_back(
                entries[j].payload,
            ),
        forall|a: int, b: int|
            #![trigger entries[a], entries[b]]
            0 <= a < b < entries.len() ==> entries[a].id != entries[b].id,
    ensures
        entries_from(
            data,
            pos + entries_output(entries.take(i)).bytes.len(),
            dim,
            (entries.len() - i) as nat,
            entries.take(i),
        ) == Ok::<Seq<EntryView>, Fault>(entries),
    decreases entries.len() - i,
{
    if i == entries.len() {
        assert(entries.take(i) =~= entries);
    } else {
        let before = entries.take(i);
        let more = entries.take(i + 1);
        let e = entries[i];
        let at = pos + entries_output(before).bytes.len();
        lemma_entries_prefix(data, pos, entries, i + 1);
        assert(more.drop_last() =~= before);
        assert(more.last() == e);
        lemma_stands_split(data, pos, entries_output(before).bytes, entry_output(e).bytes);
        lemma_entry_reads_back(data, at, e);
        assert(!has_entry(before, e.id)) by {
            if has_entry(before, e.id) {
                let j = choose|j: int| 0 <= j < before.len() && (#[trigger] before[j]).id == e.id;
                assert(before[j] == entries[j]);
            }
        }
        assert(before.push(e) =~= more);
        lemma_entries_read_back(data, pos, dim, entries, i + 1);
    }
}

pub(crate) proof fn lemma_header_reads_back(
    data: Seq<u8>,
    index_type: u8,
    metric: DistanceMetric,
    dim: usize,
)
    requires
        stands_at(data, 0, header_bytes(index_type, metric, dim)),
        index_type == TYPE_FLAT || index_type == TYPE_HNSW,
        1 <= dim <= MAX_SNAPSHOT_DIM,
    ensures
        header_at(data) == Ok::<Header, Fault>(Header { index_type, metric, dim }),
        header_bytes(index_type, metric, dim).len() == 24,
{
    let f = le_bytes(0, 2) + le_bytes(dim as nat, 8);
    let e = seq![metric.tag()] + f;
    let d = seq![index_type] + e;
    let c = le_bytes(FORMAT_VERSION as nat, 4) + d;
    lemma_le_bounds();
    lemma_le_bytes_len(FORMAT_VERSION as nat, 4);
    lemma_le_bytes_len(0, 2);
    lemma_le_bytes_len(dim as nat, 8);
    lemma_stands_split(data, 0, magic(), c);
    lemma_stands_split(data, 8, le_bytes(FORMAT_VERSION as nat, 4), d);
    lemma_number_stands(data, 8, FORMAT_VERSION as nat, 4);
    lemma_stands_split(data, 12, seq![index_type], e);
    lemma_byte_stands(data, 12, index_type);
    lemma_stands_split(data, 13, seq![metric.tag()], f);
    lemma_byte_stands(data, 13, metric.tag());
    lemma_stands_split(data, 14, le_bytes(0, 2), le_bytes(dim as nat, 8));
    lemma_number_stands(data, 14, 0, 2);
    lemma_number_stands(data, 16, dim as nat, 8);
}

pub(crate) proof fn lemma_byte_stands(data: Seq<u8>, pos: int, byte: u8)
    requires
        stands_at(data, pos, seq![byte]),
    ensures
        fits(data, pos, 1),
        number_at(data, pos, 1) == byte,
{
    let run = data.subrange(pos, pos + 1);
    assert(run[0] == byte);
    assert(run.drop_first() =~= seq![]);
    reveal_with_fuel(crate::codec::le_value, 2);
}

/// Whether a flat index is within the limits of the format.
pub open spec fn flat_storable(v: FlatView) -> bool {
    &&& v.wf()
    &&& 1 <= v.dim <= MAX_SNAPSHOT_DIM
    &&& v.entries.len() <= usize::MAX
    &&& forall|i: int| 0 <= i < v.entries.len() ==> reads_back((#[trigger] v.entries[i]).payload)
}

/// A flat index that was written reads back as it was.
pub proof fn lemma_flat_reads_back(v: FlatView, data: Seq<u8>)
    requires
        flat_storable(v),
        flat_output(v).fault is None,
        stands_at(data, 0, flat_output(v).bytes),
    ensures
        decoded(data) == Ok::<AnyView, Fault>(AnyView::Flat(v)),
{
    let head = header_bytes(TYPE_FLAT, v.metric, v.dim);
    let count = le_bytes(v.entries.len(), 8);
    let body = entries_output(v.entries).bytes;
    lemma_stands_split(data, 0, head + count, body);
    lemma_stands_split(data, 0, head, count);
    lemma_header_reads_back(data, TYPE_FLAT, v.metric, v.dim);
    lemma_le_bytes_len(v.entries.len(), 8);
    lemma_le_bounds();
    lemma_number_stands(data, 24, v.entries.len(), 8);
    assert(v.entries.take(0) =~= seq![]);
    assert((head + count).len() == 32);
    lemma_entries_read_back(data, 32, v.dim as nat, v.entries, 0);
}

proof fn lemma_places_read_back(data: Seq<u8>, pos: int, count: u32, list: Seq<u32>, i: int)
    requires
        0 <= i <= list.len(),
        stands_at(data, pos, words_bytes(list)),
        forall|j: int| 0 <= j < list.len() ==> (#[trigger] list[j]) < count,
    ensures
        places_from(data, pos + 4 * i, (list.len() - i) as nat, count, list.take(i)) == Ok::<
            (Seq<u32>, int),
            Fault,
        >((list, pos + words_bytes(list).len())),
    decreases list.len() - i,
{
    lemma_words_len(list);
    if i == list.len() {
        assert(list.take(i) =~= list);
    } else {
        lemma_words_stand(data, pos, list);
        assert(number_at(data, pos + 4 * i, 4) == list[i]);
        assert(list.take(i).push(list[i]) =~= list.take(i + 1));
        lemma_places_read_back(data, pos, count, list, i + 1);
    }
}

pub(crate) proof fn lemma_list_reads_back(data: Seq<u8>, pos: int, count: u32, list: Seq<u32>)
    requires
        stands_at(data, pos, list_bytes(list)),
        list.len() <= 2 * count,
        list.len() <= u32::MAX,
        forall|j: int| 0 <= j < list.len() ==> (#[trigger] list[j]) < count,
    ensures
        list_at(data, pos, count) == Ok::<(Seq<u32>, int), Fault>(
            (list, pos + list_bytes(list).len()),
        ),
{
    lemma_le_bytes_len(list.len(), 4);
    lemma_le_bounds();
    lemma_stands_split(data, pos, le_bytes(list.len(), 4), words_bytes(list));
    lemma_number_stands(data, pos, list.len(), 4);
    assert(list.take(0) =~= seq![]);
    lemma_places_read_back(data, pos + 4, count, list, 0);
}

pub(crate) proof fn lemma_lists_prefix(data: Seq<u8>, pos: int, lists: Seq<Seq<u32>>, i: int)
    requires
        0 <= i <= lists.len(),
        stands_at(data, pos, lists_bytes(lists)),
    ensures
        stands_at(data, pos, lists_bytes(lists.take(i))),
    decreases lists.len() - i,
{
    if i == lists.len() {
        assert(lists.take(i) =~= lists);
    } else {
        lemma_lists_prefix(data, pos, lists, i + 1);
        let more = lists.take(i + 1);
        assert(more.drop_last() =~= lists.take(i));
        lemma_stands_split(data, pos, lists_bytes(lists.take(i)), list_bytes(more.last()));
    }
}

/// Whether neighbor lists are within the limits of the format.
pub open spec fn lists_storable(lists: Seq<Seq<u32>>, count: u32) -> bool {
    forall|l: int|
        0 <= l < lists.len() ==> {
            &&& (#[trigger] lists[l]).len() <= 2 * count
            &&& lists[l].len() <= u32::MAX
            &&& forall|j: int| 0 <= j < lists[l].len() ==> (#[trigger] lists[l][j]) < count
        }
}

pub(crate) proof fn lemma_lists_read_back(
    data: Seq<u8>,
    pos: int,
    count: u32,
    lists: Seq<Seq<u32>>,
    i: int,
)
    requires
        0 <= i <= lists.len(),
        stands_at(data, pos, lists_bytes(lists)),
        lists_storable(lists, count),
    ensures
        lists_from(
            data,
            pos + lists_bytes(lists.take(i)).len(),
            (lists.len() - i) as nat,
            count,
            lists.take(i),
        ) == Ok::<(Seq<Seq<u32>>, int), Fault>((lists, pos + lists_bytes(lists).len())),
    decreases lists.len() - i,
{
    if i == lists.len() {
        assert(lists.take(i) =~= lists);
    } else {
        let before = lists.take(i);
        let more = lists.take(i + 1);
        let list = lists[i];
        lemma_lists_prefix(data, pos, lists, i + 1);
        assert(more.drop_last() =~= before);
        assert(more.last() == list);
        lemma_stands_split(data, pos, lists_bytes(before), list_bytes(list));
        lemma_list_reads_back(data, pos + lists_bytes(before).len(), count, list);
        assert(before.push(list) =~= more);
        lemma_lists_read_back(data, pos, count, lists, i + 1);
    }
}

pub(crate) proof fn lemma_node_reads_back(data: Seq<u8>, pos: int, count: u32, n: NodeView)
    requires
        node_output(n).fault is None,
        reads_back(n.payload),
        stands_at(data, pos, node_output(n).bytes),
        1 <= n.neighbors.len() <= MAX_LAYERS,
        lists_storable(n.neighbors, count),
    ensures
        node_at(data, pos, n.vector.len(), count) == Ok::<(NodeView, int), Fault>(
            (n, pos + node_output(n).bytes.len()),
        ),
{
    let id = le_bytes(n.id as nat, 8);
    let flag = seq![flag_byte(n.deleted)];
    let layers = le_bytes(n.neighbors.len(), 4);
    let lists = lists_bytes(n.neighbors);
    let tail = payload_output(n.payload).bytes + words_bytes(n.vector);
    lemma_le_bounds();
    lemma_le_bytes_len(n.id as nat, 8);
    lemma_le_bytes_len(n.neighbors.len(), 4);
    lemma_stands_split(data, pos, node_head(n), tail);
    lemma_stands_split(data, pos, id, flag + (layers + lists));
    lemma_number_stands(data, pos, n.id as nat, 8);
    lemma_stands_split(data, pos + 8, flag, layers + lists);
    lemma_byte_stands(data, pos + 8, flag_byte(n.deleted));
    lemma_stands_split(data, pos + 9, layers, lists);
    lemma_number_stands(data, pos + 9, n.neighbors.len(), 4);
    assert(n.neighbors.take(0) =~= seq![]);
    lemma_lists_read_back(data, pos + 13, count, n.neighbors, 0);
    lemma_tail_reads_back(data, pos + 13 + lists.len(), n.payload, n.vector);
}

pub(crate) proof fn lemma_nodes_prefix(data: Seq<u8>, pos: int, nodes: Seq<NodeView>, i: int)
    requires
        0 <= i <= nodes.len(),
        nodes_output(nodes).fault is None,
        stands_at(data, pos, nodes_output(nodes).bytes),
    ensures
        nodes_output(nodes.take(i)).fault is None,
        stands_at(data, pos, nodes_output(nodes.take(i)).bytes),
    decreases nodes.len() - i,
{
    if i == nodes.len() {
        assert(nodes.take(i) =~= nodes);
    } else {
        lemma_nodes_prefix(data, pos, nodes, i + 1);
        let more = nodes.take(i + 1);
        assert(more.drop_last() =~= nodes.take(i));
        lemma_stands_split(
            data,
            pos,
            nodes_output(nodes.take(i)).bytes,
            node_output(more.last()).bytes,
        );
    }
}

/// Whether a node is within the limits of the format.
pub open spec fn node_storable(n: NodeView, dim: nat, count: u32) -> bool {
    &&& n.vector.len() == dim
    &&& 1 <= n.neighbors.len() <= MAX_LAYERS
    &&& lists_storable(n.neighbors, count)
    &&& reads_back(n.payload)
}

proof fn lemma_nodes_read_back(
    data: Seq<u8>,
    pos: int,
    dim: nat,
    count: u32,
    nodes: Seq<NodeView>,
    i: int,
)
    requires
        0 <= i <= nodes.len(),
        nodes_output(nodes).fault is None,
        stands_at(data, pos, nodes_output(nodes).bytes),
        forall|j: int| 0 <= j < nodes.len() ==> node_storable(#[trigger] nodes[j], dim, count),
        forall|a: int, b: int|
            #![trigger nodes[a], nodes[b]]
            0 <= a < b < nodes.len() && !nodes[a].deleted && !nodes[b].deleted ==> nodes[a].id
                != nodes[b].id,
    ensures
        nodes_from(
            data,
            pos + nodes_output(nodes.take(i)).bytes.len(),
            dim,
            (nodes.len() - i) as nat,
            count,
            nodes.take(i),
        ) == Ok::<Seq<NodeView>, Fault>(nodes),
    decreases nodes.len() - i,
{
    if i == nodes.len() {
        assert(nodes.take(i) =~= nodes);
    } else {
        let before = nodes.take(i);
        let more = nodes.take(i + 1);
        let n = nodes[i];
        let at = pos + nodes_output(before).bytes.len();
        lemma_nodes_prefix(data, pos, nodes, i + 1);
        assert(more.drop_last() =~= before);
        assert(more.last() == n);
        lemma_stands_split(data, pos, nodes_output(before).bytes, node_output(n).bytes);
        lemma_node_reads_back(data, at, count, n);
        assert(n.deleted || !has_live_node(before, n.id)) by {
            if has_live_node(before, n.id) {
                let j = choose|j: int|
                    0 <= j < before.len() && !(#[trigger] before[j]).deleted && before[j].id
                        == n.id;
                assert(before[j] == nodes[j]);
            }
        }
        assert(before.push(n) =~= more);
        lemma_nodes_read_back(data, pos, dim, count, nodes, i + 1);
    }
}

/// Whether an HNSW index is within the limits of the format.
pub open spec fn hnsw_storable(v: HnswView) -> bool {
    &&& v.wf()
    &&& 1 <= v.dim <= MAX_SNAPSHOT_DIM
    &&& 1 <= v.config.m <= MAX_SNAPSHOT_M
    &&& v.max_layer < MAX_LAYERS
    &&& v.nodes.len() <= u32::MAX
    &&& forall|i: int|
        0 <= i < v.nodes.len() ==> node_storable(
            #[trigger] v.nodes[i],
            v.dim as nat,
            v.nodes.len() as u32,
        )
    &&& live_count(v.points()) <= usize::MAX
}

pub(crate) proof fn lemma_fields_read_back(v: HnswView, data: Seq<u8>)
    requires
        hnsw_storable(v),
        stands_at(data, 24, hnsw_fields(v)),
    ensures
        hnsw_fields(v).len() == 72,
        fields_at(data) == Ok::<HnswFields, Fault>(
            HnswFields {
                config: v.config,
                rng: v.rng,
                entry: v.entry,
                max_layer: v.max_layer,
                live_count: live_count(v.points()) as usize,
                node_count: v.nodes.len() as u32,
            },
        ),
{
    let live = live_count(v.points());
    let count = v.nodes.len();
    let f8 = le_bytes(live, 8) + le_bytes(count, 8);
    let f7 = le_bytes(v.max_layer as nat, 8) + f8;
    let f6 = le_bytes(entry_number(v.entry) as nat, 8) + f7;
    let f5 = le_bytes(v.rng as nat, 8) + f6;
    let f4 = le_bytes(v.config.seed as nat, 8) + f5;
    let f3 = le_bytes(v.config.ef_search as nat, 8) + f4;
    let f2 = le_bytes(v.config.ef_construction as nat, 8) + f3;
    lemma_le_bounds();
    lemma_le_bytes_len(v.config.m as nat, 8);
    lemma_le_bytes_len(v.config.ef_construction as nat, 8);
    lemma_le_bytes_len(v.config.ef_search as nat, 8);
    lemma_le_bytes_len(v.config.seed as nat, 8);
    lemma_le_bytes_len(v.rng as nat, 8);
    lemma_le_bytes_len(entry_number(v.entry) as nat, 8);
    lemma_le_bytes_len(v.max_layer as nat, 8);
    lemma_le_bytes_len(live, 8);
    lemma_le_bytes_len(count, 8);
    lemma_stands_split(data, 24, le_bytes(v.config.m as nat, 8), f2);
    lemma_number_stands(data, 24, v.config.m as nat, 8);
    lemma_stands_split(data, 32, le_bytes(v.config.ef_construction as nat, 8), f3);
    lemma_number_stands(data, 32, v.config.ef_construction as nat, 8);
    lemma_stands_split(data, 40, le_bytes(v.config.ef_search as nat, 8), f4);
    lemma_number_stands(data, 40, v.config.ef_search as nat, 8);
    lemma_stands_split(data, 48, le_bytes(v.config.seed as nat, 8), f5);
    lemma_number_stands(data, 48, v.config.seed as nat, 8);
    lemma_stands_split(data, 56, le_bytes(v.rng as nat, 8), f6);
    lemma_number_stands(data, 56, v.rng as nat, 8);
    lemma_stands_split(data, 64, le_bytes(entry_number(v.entry) as nat, 8), f7);
    lemma_number_stands(data, 64, entry_number(v.entry) as nat, 8);
    lemma_stands_split(data, 72, le_bytes(v.max_layer as nat, 8), f8);
    lemma_number_stands(data, 72, v.max_layer as nat, 8);
    lemma_stands_split(data, 80, le_bytes(live, 8), le_bytes(count, 8));
    lemma_number_stands(data, 80, live, 8);
    lemma_number_stands(data, 88, count, 8);
}

/// An HNSW index that was written reads back as it was, with its removed
/// nodes and the state of its generator.
pub proof fn lemma_hnsw_reads_back(v: HnswView, data: Seq<u8>)
    requires
        hnsw_storable(v),
        hnsw_output(v).fault is None,
        stands_at(data, 0, hnsw_output(v).bytes),
    ensures
        decoded(data) == Ok::<AnyView, Fault>(AnyView::Hnsw(v)),
{
    let head = header_bytes(TYPE_HNSW, v.metric, v.dim);
    let fields = hnsw_fields(v);
    let body = nodes_output(v.nodes).bytes;
    lemma_stands_split(data, 0, head + fields, body);
    lemma_stands_split(data, 0, head, fields);
    lemma_header_reads_back(data, TYPE_HNSW, v.metric, v.dim);
    lemma_fields_read_back(v, data);
    assert((head + fields).len() == 96);
    assert(v.nodes.take(0) =~= seq![]);
    assert forall|a: int, b: int|
        #![trigger v.nodes[a], v.nodes[b]]
        0 <= a < b < v.nodes.len() && !v.nodes[a].deleted
            && !v.nodes[b].deleted implies v.nodes[a].id != v.nodes[b].id by {
        assert(v.points()[a].live && v.points()[b].live);
    }
    lemma_nodes_read_back(
        data,
        96,
        v.dim as nat,
        v.nodes.len() as u32,
        v.nodes,
        0,
    );
    assert(layered(v.nodes));
}

/// Whether an index is within the limits of the format.
pub open spec fn storable(v: AnyView) -> bool {
    match v {
        AnyView::Flat(flat) => flat_storable(flat),
        AnyView::Hnsw(hnsw) => hnsw_storable(hnsw),
    }
}

/// Whether a payload, if there is one, is a value whose JSON text is read as
/// the same value.
pub open spec fn legible(payload: Option<JsonView>) -> bool {
    payload matches Some(value) ==> value.legible()
}

/// Whether an index is within the limits of the format, with payloads that
/// are legible.
pub open spec fn portable(v: AnyView) -> bool {
    match v {
        AnyView::Flat(flat) => {
            &&& flat.wf()
            &&& 1 <= flat.dim <= MAX_SNAPSHOT_DIM
            &&& flat.entries.len() <= usize::MAX
            &&& forall|i: int|
                0 <= i < flat.entries.len() ==> legible((#[trigger] flat.entries[i]).payload)
        },
        AnyView::Hnsw(hnsw) => {
            &&& hnsw.wf()
            &&& 1 <= hnsw.dim <= MAX_SNAPSHOT_DIM
            &&& 1 <= hnsw.config.m <= MAX_SNAPSHOT_M
            &&& hnsw.max_layer < MAX_LAYERS
            &&& hnsw.nodes.len() <= u32::MAX
            &&& live_count(hnsw.points()) <= usize::MAX
            &&& forall|i: int|
                #![trigger hnsw.nodes[i]]
                0 <= i < hnsw.nodes.len() ==> {
                    &&& hnsw.nodes[i].neighbors.len() <= MAX_LAYERS
                    &&& lists_storable(hnsw.nodes[i].neighbors, hnsw.nodes.len() as u32)
                    &&& legible(hnsw.nodes[i].payload)
                }
        },
    }
}

/// The payloads of an index.
pub open spec fn payloads(v: AnyView) -> Seq<Option<JsonView>> {
    match v {
        AnyView::Flat(flat) => flat.entries.map_values(|e: EntryView| e.payload),
        AnyView::Hnsw(hnsw) => hnsw.nodes.map_values(|n: NodeView| n.payload),
    }
}

/// An index with legible payloads, all of which read back, reads back.
pub proof fn lemma_portable(v: AnyView)
    requires
        portable(v),
        forall|i: int|
            0 <= i < payloads(v).len() ==> (legible(#[trigger] payloads(v)[i]) ==> reads_back(
                payloads(v)[i],
            )),
    ensures
        storable(v),
{
    match v {
        AnyView::Flat(flat) => {
            assert forall|i: int| 0 <= i < flat.entries.len() implies reads_back(
                (#[trigger] flat.entries[i]).payload,
            ) by {
                assert(payloads(v)[i] == flat.entries[i].payload);
            }
        },
        AnyView::Hnsw(hnsw) => {
            assert forall|i: int| 0 <= i < hnsw.nodes.len() implies node_storable(
                #[trigger] hnsw.nodes[i],
                hnsw.dim as nat,
                hnsw.nodes.len() as u32,
            ) by {
                assert(payloads(v)[i] == hnsw.nodes[i].payload);
            }
        },
    }
}

/// What was written reads back: an index within the limits of the format whose
/// snapshot could be written is decoded from it as it was, whatever stands
/// behind the snapshot.
pub proof fn law_snapshot_reads_back(v: AnyView, behind: Seq<u8>)
    requires
        storable(v),
        encoded(v).fault is None,
    ensures
        decoded(encoded(v).bytes + behind) == Ok::<AnyView, Fault>(v),
{
    let bytes = encoded(v).bytes;
    let data = bytes + behind;
    assert(data.subrange(0, bytes.len() as int) =~= bytes);
    match v {
        AnyView::Flat(flat) => lemma_flat_reads_back(flat, data),
        AnyView::Hnsw(hnsw) => lemma_hnsw_reads_back(hnsw, data),
    }
}

/// A header that was written reads back, and takes all of its bytes.
pub proof fn law_header_reads_back(index_type: u8, metric: DistanceMetric, dim: usize)
    requires
        index_type == TYPE_FLAT || index_type == TYPE_HNSW,
        1 <= dim <= MAX_SNAPSHOT_DIM,
    ensures
        header_at(header_bytes(index_type, metric, dim)) == Ok::<Header, Fault>(
            Header { index_type, metric, dim },
        ),
        header_bytes(index_type, metric, dim).len() == 24,
{
    let bytes = header_bytes(index_type, metric, dim);
    assert(bytes.subrange(0, bytes.len() as int) =~= bytes);
    lemma_header_reads_back(bytes, index_type, metric, dim);
}

} // verus!
