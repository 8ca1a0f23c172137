//! Indexes of either type, and their snapshots.
use crate::codec::{
    corrupt, corrupt_number, cut_short, fits, le_bytes, lemma_le_bounds, number_at, put_byte,
    put_bytes, put_number, Cursor, Fault, SnapshotError,
};
use crate::cut_laws::{framed, law_part_of_a_snapshot_is_corrupt, refused};
use crate::distance::DistanceMetric;
use crate::error::{Result, VexError};
use crate::flat::{lemma_flat_points, Entry, EntryView, FlatIndex, FlatView};
use crate::float::{arith_of, is_arithmetic, Arith, FloatOp};
use crate::format::{
    assembled, decoded, encoded, entries_from, entries_output, entry_at, entry_output, fields_at,
    flat_at, flat_output, has_entry, has_live_node, header_at, header_bytes, hnsw_at, hnsw_fields,
    hnsw_output, law_snapshot_reads_back, layered, legible, lemma_portable, list_at, list_bytes,
    lists_bytes, lists_from, magic, node_at, node_head, node_output, nodes_from, nodes_output,
    payload_at, payload_output, payloads, places_from, portable, reads_back, storable, vector_at,
    words_at, words_bytes, AnyView, Header, HnswFields, Output, FORMAT_VERSION, MAX_LAYERS,
    MAX_PAYLOAD_BYTES, MAX_SNAPSHOT_DIM, MAX_SNAPSHOT_M, NO_ENTRY, TYPE_FLAT, TYPE_HNSW,
};
use crate::format_laws::law_cut_snapshot_is_refused;
use crate::graph::{graph_wf, held_payload, lists_view, nodes_view, Node, NodeView};
use crate::hnsw::{node_points, HnswConfig, HnswIndex, HnswView};
use crate::index::{search_outcome, sound_answer, Index, Record, SearchResult};
use crate::json::{JsonView, Payload};
use crate::payload::{optional_filter, Filter, FilterView};
use crate::records::{
    exact_hits, holds_live, lemma_push_point, lemma_push_removed, live_count, live_list,
    live_points, live_records, unique_live, Point,
};
use crate::text::{joined, with_number};
use crate::vector::{Vector, VectorId};
use std::collections::HashMap;
use vstd::prelude::*;
use vstd::string::StringExecFns;

verus! {

broadcast use vstd::std_specs::hash::group_hash_axioms;

// ---------------------------------------------------------------------------
// Writing
// ---------------------------------------------------------------------------

/// Whether a writer did what its specification says: the bytes are there, and
/// the outcome is the fault, if any.
pub open spec fn wrote(
    was: Seq<u8>,
    now: Seq<u8>,
    r: std::result::Result<(), SnapshotError>,
    out: Output,
) -> bool {
    &&& now == was + out.bytes
    &&& match r {
        Ok(()) => out.fault is None,
        Err(e) => out.fault == Some(e@),
    }
}

/// Whether the payload, if it is legible, reads back.
pub open spec fn reads_back_if_legible(payload: Option<JsonView>) -> bool {
    legible(payload) ==> reads_back(payload)
}

fn put_payload(w: &mut Vec<u8>, payload: Option<&Payload>, Ghost(view): Ghost<Option<JsonView>>) -> (r:
    std::result::Result<(), SnapshotError>)
    requires
        view == crate::payload::payload_view(payload),
    ensures
        wrote(old(w)@, final(w)@, r, payload_output(view)),
        r is Ok ==> reads_back_if_legible(view),
{
    let ghost was = w@;
    match payload {
        None => {
            put_number(w, 0, 4);
            Ok(())
        },
        Some(p) => {
            match p.to_text() {
                Err(message) => {
                    assert(w@ =~= was + seq![]);
                    Err(SnapshotError::Corrupt(joined("unserializable payload: ", message.as_str())))
                },
                Ok(text) => {
                    if text.len() == 0 || text.len() as u64 > MAX_PAYLOAD_BYTES as u64 {
                        assert(w@ =~= was + seq![]);
                        return Err(corrupt("payload exceeds 16 MiB limit"));
                    }
                    put_number(w, text.len() as u64, 4);
                    put_bytes(w, text.as_slice());
                    assert(w@ =~= was + (le_bytes(text@.len(), 4) + text@));
                    Ok(())
                },
            }
        },
    }
}

fn put_words(w: &mut Vec<u8>, words: &[u32])
    ensures
        final(w)@ == old(w)@ + words_bytes(words@),
{
    let ghost was = w@;
    let mut i: usize = 0;
    assert(words@.take(0) =~= seq![]);
    assert(w@ =~= was + words_bytes(words@.take(0)));
    while i < words.len()
        invariant
            i <= words@.len(),
            w@ == was + words_bytes(words@.take(i as int)),
        decreases words@.len() - i,
    {
        let ghost front = words_bytes(words@.take(i as int));
        put_number(w, words[i] as u64, 4);
        assert(words@.take(i as int + 1).drop_last() =~= words@.take(i as int));
        assert(w@ =~= was + (front + le_bytes(words@[i as int] as nat, 4)));
        i = i + 1;
    }
    assert(words@.take(i as int) =~= words@);
}

/// Appends the header of a snapshot.
pub fn write_header(w: &mut Vec<u8>, index_type: u8, metric: DistanceMetric, dim: usize)
    ensures
        final(w)@ == old(w)@ + header_bytes(index_type, metric, dim),
{
    let ghost was = w@;
    put_byte(w, 0x56);
    put_byte(w, 0x45);
    put_byte(w, 0x58);
    put_byte(w, 0x53);
    put_byte(w, 0x4e);
    put_byte(w, 0x41);
    put_byte(w, 0x50);
    put_byte(w, 0x00);
    assert(w@ =~= was + magic());
    put_number(w, FORMAT_VERSION as u64, 4);
    put_byte(w, index_type);
    put_byte(w, metric.to_tag());
    put_number(w, 0, 2);
    put_number(w, dim as u64, 8);
    assert(w@ =~= was + header_bytes(index_type, metric, dim));
}

fn write_entry(w: &mut Vec<u8>, entry: &Entry) -> (r: std::result::Result<(), SnapshotError>)
    ensures
        wrote(old(w)@, final(w)@, r, entry_output(entry@)),
        r is Ok ==> reads_back_if_legible(entry@.payload),
{
    let ghost was = w@;
    let ghost e = entry@;
    put_number(w, entry.id.0, 8);
    let ghost head = w@;
    match put_payload(w, entry.payload.as_ref(), Ghost(e.payload)) {
        Err(fault) => {
            assert(w@ =~= was + entry_output(e).bytes);
            Err(fault)
        },
        Ok(()) => {
            put_words(w, entry.vector.as_slice());
            assert(w@ =~= was + entry_output(e).bytes);
            Ok(())
        },
    }
}

fn write_flat(w: &mut Vec<u8>, index: &FlatIndex) -> (r: std::result::Result<(), SnapshotError>)
    ensures
        wrote(old(w)@, final(w)@, r, flat_output(index@)),
        r is Ok ==> forall|i: int|
            0 <= i < index@.entries.len() ==> reads_back_if_legible(
                (#[trigger] index@.entries[i]).payload,
            ),
{
    let ghost was = w@;
    let ghost v = index@;
    write_header(w, TYPE_FLAT, index.metric, index.dim);
    put_number(w, index.entries.len() as u64, 8);
    let ghost head = header_bytes(TYPE_FLAT, v.metric, v.dim) + le_bytes(v.entries.len(), 8);
    let mut i: usize = 0;
    assert(v.entries.take(0) =~= seq![]);
    assert(w@ =~= was + (head + entries_output(v.entries.take(0)).bytes));
    while i < index.entries.len()
        invariant
            was == old(w)@,
            v == index@,
            v.entries.len() == index.entries@.len(),
            i <= v.entries.len(),
            head == header_bytes(TYPE_FLAT, v.metric, v.dim) + le_bytes(v.entries.len(), 8),
            entries_output(v.entries.take(i as int)).fault is None,
            w@ == was + (head + entries_output(v.entries.take(i as int)).bytes),
            forall|j: int|
                0 <= j < i ==> reads_back_if_legible((#[trigger] v.entries[j]).payload),
        decreases v.entries.len() - i,
    {
        let ghost done = entries_output(v.entries.take(i as int));
        let ghost one = entry_output(v.entries[i as int]);
        assert(v.entries.take(i as int + 1).drop_last() =~= v.entries.take(i as int));
        assert(index.entries@[i as int]@ == v.entries[i as int]);
        match write_entry(w, &index.entries[i]) {
            Err(fault) => {
                assert(w@ =~= was + (head + (done.bytes + one.bytes)));
                proof {
                    lemma_entries_fault(v.entries, i as int);
                }
                return Err(fault);
            },
            Ok(()) => {},
        }
        assert(w@ =~= was + (head + (done.bytes + one.bytes)));
        i = i + 1;
    }
    assert(v.entries.take(i as int) =~= v.entries);
    Ok(())
}

/// A fault in one entry is what comes of all entries.
proof fn lemma_entries_fault(entries: Seq<EntryView>, i: int)
    requires
        0 <= i < entries.len(),
        entries_output(entries.take(i + 1)).fault is Some,
    ensures
        entries_output(entries) == entries_output(entries.take(i + 1)),
    decreases entries.len() - i,
{
    if i + 1 == entries.len() {
        assert(entries.take(i + 1) =~= entries);
    } else {
        assert(entries.take(i + 2).drop_last() =~= entries.take(i + 1));
        lemma_entries_fault(entries, i + 1);
    }
}

fn write_node(w: &mut Vec<u8>, node: &Node) -> (r: std::result::Result<(), SnapshotError>)
    ensures
        wrote(old(w)@, final(w)@, r, node_output(node@)),
        r is Ok ==> reads_back_if_legible(node@.payload),
{
    let ghost was = w@;
    let ghost n = node@;
    put_number(w, node.id.0, 8);
    put_byte(
        w,
        if node.deleted {
            1
        } else {
            0
        },
    );
    put_number(w, node.neighbors.len() as u64, 4);
    let ghost head = w@;
    let ghost lists = n.neighbors;
    let mut l: usize = 0;
    assert(lists.take(0) =~= seq![]);
    assert(w@ =~= head + lists_bytes(lists.take(0)));
    while l < node.neighbors.len()
        invariant
            n == node@,
            lists == n.neighbors,
            lists == lists_view(node.neighbors@),
            l <= lists.len(),
            w@ == head + lists_bytes(lists.take(l as int)),
        decreases lists.len() - l,
    {
        let ghost done = lists_bytes(lists.take(l as int));
        let list = &node.neighbors[l];
        assert(list@ == lists[l as int]);
        put_number(w, list.len() as u64, 4);
        put_words(w, list.as_slice());
        assert(lists.take(l as int + 1).drop_last() =~= lists.take(l as int));
        assert(w@ =~= head + (done + list_bytes(list@)));
        l = l + 1;
    }
    assert(lists.take(l as int) =~= lists);
    assert(w@ =~= was + node_head(n));
    match put_payload(w, node.payload.as_ref(), Ghost(n.payload)) {
        Err(fault) => {
            assert(w@ =~= was + node_output(n).bytes);
            Err(fault)
        },
        Ok(()) => {
            put_words(w, node.vector.as_slice());
            assert(w@ =~= was + node_output(n).bytes);
            Ok(())
        },
    }
}

fn write_hnsw(w: &mut Vec<u8>, index: &HnswIndex) -> (r: std::result::Result<(), SnapshotError>)
    requires
        index.wf(),
    ensures
        wrote(old(w)@, final(w)@, r, hnsw_output(index@)),
        r is Ok ==> forall|i: int|
            0 <= i < index@.nodes.len() ==> reads_back_if_legible(
                (#[trigger] index@.nodes[i]).payload,
            ),
{
    let ghost was = w@;
    let ghost v = index@;
    write_header(w, TYPE_HNSW, index.metric, index.dim);
    put_number(w, index.config.m as u64, 8);
    put_number(w, index.config.ef_construction as u64, 8);
    put_number(w, index.config.ef_search as u64, 8);
    put_number(w, index.config.seed, 8);
    put_number(w, index.rng_state, 8);
    let entry: u64 = match index.entry_point {
        Some(e) => e as u64,
        None => NO_ENTRY,
    };
    put_number(w, entry, 8);
    put_number(w, index.max_layer as u64, 8);
    put_number(w, index.live_count as u64, 8);
    put_number(w, index.nodes.len() as u64, 8);
    let ghost head = header_bytes(TYPE_HNSW, v.metric, v.dim) + hnsw_fields(v);
    proof {
        index.lemma_live_count();
    }
    assert(w@ =~= was + head);
    let mut i: usize = 0;
    assert(v.nodes.take(0) =~= seq![]);
    assert(w@ =~= was + (head + nodes_output(v.nodes.take(0)).bytes));
    while i < index.nodes.len()
        invariant
            was == old(w)@,
            v == index@,
            v.nodes.len() == index.nodes@.len(),
            i <= v.nodes.len(),
            head == header_bytes(TYPE_HNSW, v.metric, v.dim) + hnsw_fields(v),
            nodes_output(v.nodes.take(i as int)).fault is None,
            w@ == was + (head + nodes_output(v.nodes.take(i as int)).bytes),
            forall|j: int| 0 <= j < i ==> reads_back_if_legible((#[trigger] v.nodes[j]).payload),
        decreases v.nodes.len() - i,
    {
        let ghost done = nodes_output(v.nodes.take(i as int));
        let ghost one = node_output(v.nodes[i as int]);
        assert(v.nodes.take(i as int + 1).drop_last() =~= v.nodes.take(i as int));
        assert(index.nodes@[i as int]@ == v.nodes[i as int]);
        match write_node(w, &index.nodes[i]) {
            Err(fault) => {
                assert(w@ =~= was + (head + (done.bytes + one.bytes)));
                proof {
                    lemma_nodes_fault(v.nodes, i as int);
                }
                return Err(fault);
            },
            Ok(()) => {},
        }
        assert(w@ =~= was + (head + (done.bytes + one.bytes)));
        i = i + 1;
    }
    assert(v.nodes.take(i as int) =~= v.nodes);
    Ok(())
}

/// A fault in one node is what comes of all nodes.
proof fn lemma_nodes_fault(nodes: Seq<NodeView>, i: int)
    requires
        0 <= i < nodes.len(),
        nodes_output(nodes.take(i + 1)).fault is Some,
    ensures
        nodes_output(nodes) == nodes_output(nodes.take(i + 1)),
    decreases nodes.len() - i,
{
    if i + 1 == nodes.len() {
        assert(nodes.take(i + 1) =~= nodes);
    } else {
        assert(nodes.take(i + 2).drop_last() =~= nodes.take(i + 1));
        lemma_nodes_fault(nodes, i + 1);
    }
}

// ---------------------------------------------------------------------------
// Reading
// ---------------------------------------------------------------------------

fn is_magic(bytes: &[u8]) -> (r: bool)
    requires
        bytes@.len() == 8,
    ensures
        r == (bytes@ == magic()),
{
    let r = bytes[0] == 0x56 && bytes[1] == 0x45 && bytes[2] == 0x58 && bytes[3] == 0x53
        && bytes[4] == 0x4e && bytes[5] == 0x41 && bytes[6] == 0x50 && bytes[7] == 0x00;
    proof {
        if r {
            assert(bytes@ =~= magic());
        } else {
            assert(magic()[0] == 0x56 && magic()[1] == 0x45 && magic()[2] == 0x58 && magic()[3]
                == 0x53 && magic()[4] == 0x4e && magic()[5] == 0x41 && magic()[6] == 0x50
                && magic()[7] == 0x00);
        }
    }
    r
}

/// Reads the header of a snapshot, which begins where the reader stands.
pub fn read_header(r: &mut Cursor<'_>) -> (h: std::result::Result<Header, SnapshotError>)
    requires
        old(r).wf(),
    ensures
        final(r).wf(),
        final(r).data@ == old(r).data@,
        match h {
            Ok(header) => {
                &&& header_at(old(r).data@.skip(old(r).pos as int)) == Ok::<Header, Fault>(header)
                &&& final(r).pos == old(r).pos + 24
                &&& header.index_type == TYPE_FLAT || header.index_type == TYPE_HNSW
                &&& header.dim <= MAX_SNAPSHOT_DIM
            },
            Err(e) => header_at(old(r).data@.skip(old(r).pos as int)) == Err::<Header, Fault>(e@),
        },
{
    proof {
        lemma_le_bounds();
        let data = r.data@;
        let from = r.pos as int;
        let rest = data.skip(from);
        assert forall|i: int, width: int|
            0 <= i && 0 <= width && from + i + width <= data.len() implies #[trigger] number_at(
            rest,
            i,
            width,
        ) == number_at(data, from + i, width) by {
            assert(rest.subrange(i, i + width) =~= data.subrange(from + i, from + i + width));
        }
        if from + 8 <= data.len() {
            assert(rest.subrange(0, 8) =~= data.subrange(from, from + 8));
        }
    }
    let start = r.bytes(8)?;
    if !is_magic(start) {
        return Err(SnapshotError::BadMagic);
    }
    let version: u64 = r.number(4)?;
    if version != FORMAT_VERSION as u64 {
        return Err(SnapshotError::UnsupportedVersion(version as u32));
    }
    let index_type: u64 = r.number(1)?;
    if index_type != TYPE_FLAT as u64 && index_type != TYPE_HNSW as u64 {
        return Err(corrupt_number("unknown index type tag ", index_type));
    }
    let tag: u64 = r.number(1)?;
    let metric = match DistanceMetric::from_tag(tag as u8) {
        Some(metric) => metric,
        None => return Err(corrupt("unknown metric tag")),
    };
    if r.number(2)? != 0 {
        return Err(corrupt("reserved header bytes are not zero"));
    }
    let dim: u64 = r.number(8)?;
    if dim > usize::MAX as u64 {
        return Err(corrupt("dim overflows usize"));
    }
    if dim == 0 || dim > MAX_SNAPSHOT_DIM {
        return Err(corrupt_number("implausible dim ", dim));
    }
    Ok(Header { index_type: index_type as u8, metric, dim: dim as usize })
}

fn get_payload(r: &mut Cursor<'_>) -> (p: std::result::Result<Option<Payload>, SnapshotError>)
    requires
        old(r).wf(),
    ensures
        final(r).wf(),
        final(r).data@ == old(r).data@,
        match p {
            Ok(payload) => payload_at(old(r).data@, old(r).pos as int) == Ok::<
                (Option<JsonView>, int),
                Fault,
            >((held_payload(payload), final(r).pos as int)),
            Err(e) => payload_at(old(r).data@, old(r).pos as int) == Err::<
                (Option<JsonView>, int),
                Fault,
            >(e@),
        },
{
    proof {
        lemma_le_bounds();
    }
    let len: u64 = r.number(4)?;
    if len == 0 {
        return Ok(None);
    }
    if len > MAX_PAYLOAD_BYTES as u64 {
        let head = with_number("payload length ", len);
        return Err(SnapshotError::Corrupt(joined(head.as_str(), " exceeds limit")));
    }
    let text = r.bytes(len as usize)?;
    match Payload::parse(text) {
        Ok(payload) => Ok(Some(payload)),
        Err(message) => Err(
            SnapshotError::Corrupt(joined("payload is not valid JSON: ", message.as_str())),
        ),
    }
}

fn get_vector(r: &mut Cursor<'_>, dim: usize) -> (v: std::result::Result<Vector, SnapshotError>)
    requires
        old(r).wf(),
        dim <= MAX_SNAPSHOT_DIM,
    ensures
        final(r).wf(),
        final(r).data@ == old(r).data@,
        match v {
            Ok(vector) => vector_at(old(r).data@, old(r).pos as int, dim as nat) == Ok::<
                (Seq<u32>, int),
                Fault,
            >((vector@, final(r).pos as int)) && vector@.len() == dim,
            Err(e) => vector_at(old(r).data@, old(r).pos as int, dim as nat) == Err::<
                (Seq<u32>, int),
                Fault,
            >(e@),
        },
{
    let ghost data = r.data@;
    let ghost start = r.pos as int;
    if r.data.len() - r.pos < 4 * dim {
        return Err(crate::codec::end_of_data());
    }
    let mut words: Vec<u32> = Vec::new();
    let mut i: usize = 0;
    while i < dim
        invariant
            r.wf(),
            data == r.data@,
            data == old(r).data@,
            start == old(r).pos,
            dim <= MAX_SNAPSHOT_DIM,
            fits(data, start, 4 * dim),
            i <= dim,
            r.pos == start + 4 * i,
            words@.len() == i,
            forall|j: int|
                0 <= j < i ==> (#[trigger] words@[j]) == number_at(data, start + 4 * j, 4),
        decreases dim - i,
    {
        proof {
            lemma_le_bounds();
        }
        let word: u64 = r.number(4)?;
        words.push(word as u32);
        i = i + 1;
    }
    assert(words@ =~= words_at(data, start, dim as nat));
    Ok(Vector::from_vec(words))
}

fn read_entry(r: &mut Cursor<'_>, dim: usize) -> (e: std::result::Result<Entry, SnapshotError>)
    requires
        old(r).wf(),
        dim <= MAX_SNAPSHOT_DIM,
    ensures
        final(r).wf(),
        final(r).data@ == old(r).data@,
        match e {
            Ok(entry) => entry_at(old(r).data@, old(r).pos as int, dim as nat) == Ok::<
                (EntryView, int),
                Fault,
            >((entry@, final(r).pos as int)) && entry@.vector.len() == dim,
            Err(fault) => entry_at(old(r).data@, old(r).pos as int, dim as nat) == Err::<
                (EntryView, int),
                Fault,
            >(fault@),
        },
{
    let id: u64 = r.number(8)?;
    let payload = get_payload(r)?;
    let vector = get_vector(r, dim)?;
    Ok(Entry { id: VectorId(id), vector, payload })
}

fn read_flat_body(r: &mut Cursor<'_>, header: &Header) -> (f: std::result::Result<
    FlatIndex,
    SnapshotError,
>)
    requires
        old(r).wf(),
        old(r).pos == 24,
        header.dim <= MAX_SNAPSHOT_DIM,
    ensures
        match f {
            Ok(index) => index.wf() && flat_at(old(r).data@, *header) == Ok::<FlatView, Fault>(
                index@,
            ),
            Err(e) => flat_at(old(r).data@, *header) == Err::<FlatView, Fault>(e@),
        },
{
    let ghost data = r.data@;
    let count: u64 = r.number(8)?;
    if count > usize::MAX as u64 {
        return Err(corrupt("count overflows usize"));
    }
    let mut entries: Vec<Entry> = Vec::new();
    let mut id_to_pos: HashMap<u64, usize> = HashMap::new();
    let ghost goal = entries_from(data, 32, header.dim as nat, count as nat, seq![]);
    let count: usize = count as usize;
    let mut pos: usize = 0;
    let ghost mut views: Seq<EntryView> = seq![];
    while pos < count
        invariant
            r.wf(),
            data == r.data@,
            data == old(r).data@,
            header.dim <= MAX_SNAPSHOT_DIM,
            pos <= count,
            fits(data, 24, 8),
            count == number_at(data, 24, 8),
            goal == entries_from(data, 32, header.dim as nat, count as nat, seq![]),
            goal == entries_from(
                data,
                r.pos as int,
                header.dim as nat,
                (count - pos) as nat,
                views,
            ),
            entries@.len() == pos,
            views == entries@.map_values(|e: Entry| e@),
            forall|i: int|
                0 <= i < pos ==> id_to_pos@.contains_key((#[trigger] entries@[i]).id.0)
                    && id_to_pos@[entries@[i].id.0] == i && entries@[i]@.vector.len()
                    == header.dim,
            forall|id: u64| #[trigger]
                id_to_pos@.contains_key(id) ==> id_to_pos@[id] < pos
                    && entries@[id_to_pos@[id] as int].id.0 == id,
        decreases count - pos,
    {
        let entry = read_entry(r, header.dim)?;
        let id: u64 = entry.id.0;
        if id_to_pos.contains_key(&id) {
            assert(has_entry(views, id)) by {
                let i = id_to_pos@[id] as int;
                assert(views[i] == entries@[i]@);
            }
            let head = with_number("duplicate id ", id);
            return Err(SnapshotError::Corrupt(joined(head.as_str(), " in flat snapshot")));
        }
        assert(!has_entry(views, id)) by {
            if has_entry(views, id) {
                let i = choose|i: int| 0 <= i < views.len() && (#[trigger] views[i]).id == id;
                assert(entries@[i].id.0 == id);
            }
        }
        proof {
            views = views.push(entry@);
        }
        id_to_pos.insert(id, pos);
        entries.push(entry);
        assert(views =~= entries@.map_values(|e: Entry| e@));
        pos = pos + 1;
    }
    let index = FlatIndex { metric: header.metric, dim: header.dim, entries, id_to_pos };
    proof {
        assert(index@.entries =~= views);
        assert forall|i: int, j: int|
            #![trigger index@.entries[i], index@.entries[j]]
            0 <= i < j < index@.entries.len() implies index@.entries[i].id
            != index@.entries[j].id by {
            assert(index.entries@[i].id.0 == index@.entries[i].id);
            assert(index.entries@[j].id.0 == index@.entries[j].id);
        }
        assert forall|i: int| 0 <= i < index@.entries.len() implies (
        #[trigger] index@.entries[i]).vector.len() == header.dim by {
            assert(index.entries@[i]@ == index@.entries[i]);
        }
    }
    Ok(index)
}

fn read_list(r: &mut Cursor<'_>, node_count: u32) -> (l: std::result::Result<
    Vec<u32>,
    SnapshotError,
>)
    requires
        old(r).wf(),
    ensures
        final(r).wf(),
        final(r).data@ == old(r).data@,
        match l {
            Ok(list) => {
                &&& list_at(old(r).data@, old(r).pos as int, node_count) == Ok::<
                    (Seq<u32>, int),
                    Fault,
                >((list@, final(r).pos as int))
                &&& forall|j: int| 0 <= j < list@.len() ==> (#[trigger] list@[j]) < node_count
            },
            Err(e) => list_at(old(r).data@, old(r).pos as int, node_count) == Err::<
                (Seq<u32>, int),
                Fault,
            >(e@),
        },
{
    let ghost data = r.data@;
    proof {
        lemma_le_bounds();
    }
    let len: u64 = r.number(4)?;
    if len > node_count as u64 * 2 {
        return Err(corrupt_number("implausible neighbor list length ", len));
    }
    let ghost goal = places_from(data, r.pos as int, len as nat, node_count, seq![]);
    let mut list: Vec<u32> = Vec::new();
    let mut left: u64 = len;
    while left > 0
        invariant
            r.wf(),
            data == r.data@,
            data == old(r).data@,
            goal == list_at(data, old(r).pos as int, node_count),
            goal == places_from(data, r.pos as int, left as nat, node_count, list@),
            forall|j: int| 0 <= j < list@.len() ==> (#[trigger] list@[j]) < node_count,
        decreases left,
    {
        proof {
            lemma_le_bounds();
        }
        let nb: u64 = r.number(4)?;
        if nb >= node_count as u64 {
            let head = with_number("neighbor index ", nb);
            let tail = with_number(" exceeds node count ", node_count as u64);
            return Err(SnapshotError::Corrupt(joined(head.as_str(), tail.as_str())));
        }
        list.push(nb as u32);
        left = left - 1;
    }
    Ok(list)
}

fn read_lists(r: &mut Cursor<'_>, layers: u64, node_count: u32) -> (l: std::result::Result<
    Vec<Vec<u32>>,
    SnapshotError,
>)
    requires
        old(r).wf(),
    ensures
        final(r).wf(),
        final(r).data@ == old(r).data@,
        match l {
            Ok(lists) => {
                &&& lists_from(old(r).data@, old(r).pos as int, layers as nat, node_count, seq![])
                    == Ok::<(Seq<Seq<u32>>, int), Fault>((lists_view(lists@), final(r).pos as int))
                &&& lists@.len() == layers
                &&& forall|a: int, j: int|
                    #![trigger lists@[a]@[j]]
                    0 <= a < lists@.len() && 0 <= j < lists@[a]@.len() ==> lists@[a]@[j]
                        < node_count
            },
            Err(e) => lists_from(
                old(r).data@,
                old(r).pos as int,
                layers as nat,
                node_count,
                seq![],
            ) == Err::<(Seq<Seq<u32>>, int), Fault>(e@),
        },
{
    let ghost data = r.data@;
    let ghost goal = lists_from(data, r.pos as int, layers as nat, node_count, seq![]);
    let mut lists: Vec<Vec<u32>> = Vec::new();
    let mut left: u64 = layers;
    assert(lists_view(lists@) =~= seq![]);
    while left > 0
        invariant
            r.wf(),
            data == r.data@,
            data == old(r).data@,
            left <= layers,
            lists@.len() == layers - left,
            goal == lists_from(data, old(r).pos as int, layers as nat, node_count, seq![]),
            goal == lists_from(data, r.pos as int, left as nat, node_count, lists_view(lists@)),
            forall|a: int, j: int|
                #![trigger lists@[a]@[j]]
                0 <= a < lists@.len() && 0 <= j < lists@[a]@.len() ==> lists@[a]@[j] < node_count,
        decreases left,
    {
        let ghost was = lists_view(lists@);
        let list = read_list(r, node_count)?;
        let ghost got = list@;
        lists.push(list);
        assert(lists_view(lists@) =~= was.push(got));
        left = left - 1;
    }
    Ok(lists)
}

fn read_node(r: &mut Cursor<'_>, dim: usize, node_count: u32) -> (n: std::result::Result<
    Node,
    SnapshotError,
>)
    requires
        old(r).wf(),
        dim <= MAX_SNAPSHOT_DIM,
    ensures
        final(r).wf(),
        final(r).data@ == old(r).data@,
        match n {
            Ok(node) => {
                &&& node_at(old(r).data@, old(r).pos as int, dim as nat, node_count) == Ok::<
                    (NodeView, int),
                    Fault,
                >((node@, final(r).pos as int))
                &&& node@.vector.len() == dim
                &&& node@.neighbors.len() >= 1
                &&& forall|a: int, j: int|
                    #![trigger node@.neighbors[a][j]]
                    0 <= a < node@.neighbors.len() && 0 <= j < node@.neighbors[a].len()
                        ==> node@.neighbors[a][j] < node_count
            },
            Err(e) => node_at(old(r).data@, old(r).pos as int, dim as nat, node_count) == Err::<
                (NodeView, int),
                Fault,
            >(e@),
        },
{
    let ghost data = r.data@;
    let ghost start = r.pos as int;
    proof {
        lemma_le_bounds();
    }
    let id: u64 = r.number(8)?;
    let flag: u64 = r.number(1)?;
    if flag > 1 {
        return Err(corrupt_number("invalid deleted flag ", flag));
    }
    let layers: u64 = r.number(4)?;
    if layers == 0 || layers > MAX_LAYERS as u64 {
        return Err(corrupt_number("implausible layer count ", layers));
    }
    let neighbors = read_lists(r, layers, node_count)?;
    let payload = get_payload(r)?;
    let vector = get_vector(r, dim)?;
    let node = Node { id: VectorId(id), vector, neighbors, deleted: flag == 1, payload };
    assert forall|a: int, j: int|
        #![trigger node@.neighbors[a][j]]
        0 <= a < node@.neighbors.len() && 0 <= j
            < node@.neighbors[a].len() implies node@.neighbors[a][j] < node_count by {
        assert(node@.neighbors[a][j] == node.neighbors@[a]@[j]);
    }
    Ok(node)
}

fn read_fields(r: &mut Cursor<'_>) -> (f: std::result::Result<HnswFields, SnapshotError>)
    requires
        old(r).wf(),
        old(r).pos == 24,
    ensures
        final(r).wf(),
        final(r).data@ == old(r).data@,
        match f {
            Ok(fields) => {
                &&& fields_at(old(r).data@) == Ok::<HnswFields, Fault>(fields)
                &&& final(r).pos == 96
                &&& fields.entry matches Some(e) ==> e < fields.node_count
            },
            Err(e) => fields_at(old(r).data@) == Err::<HnswFields, Fault>(e@),
        },
{
    proof {
        lemma_le_bounds();
    }
    let m: u64 = r.number(8)?;
    if m > usize::MAX as u64 {
        return Err(corrupt("m overflows usize"));
    }
    let ef_construction: u64 = r.number(8)?;
    if ef_construction > usize::MAX as u64 {
        return Err(corrupt("ef_construction overflows usize"));
    }
    let ef_search: u64 = r.number(8)?;
    if ef_search > usize::MAX as u64 {
        return Err(corrupt("ef_search overflows usize"));
    }
    let seed: u64 = r.number(8)?;
    let rng: u64 = r.number(8)?;
    if m == 0 || m > MAX_SNAPSHOT_M {
        return Err(corrupt_number("implausible m ", m));
    }
    let entry_raw: u64 = r.number(8)?;
    let max_layer: u64 = r.number(8)?;
    if max_layer > usize::MAX as u64 {
        return Err(corrupt("max_layer overflows usize"));
    }
    let live: u64 = r.number(8)?;
    if live > usize::MAX as u64 {
        return Err(corrupt("live_count overflows usize"));
    }
    let count: u64 = r.number(8)?;
    if count > u32::MAX as u64 {
        let head = with_number("node count ", count);
        return Err(SnapshotError::Corrupt(joined(head.as_str(), " exceeds u32 arena limit")));
    }
    if max_layer >= MAX_LAYERS as u64 {
        return Err(corrupt_number("implausible max_layer ", max_layer));
    }
    let entry: Option<u32> = if entry_raw == NO_ENTRY {
        None
    } else {
        if entry_raw > u32::MAX as u64 {
            return Err(corrupt("entry point out of range"));
        }
        if entry_raw >= count {
            return Err(corrupt("entry point exceeds node count"));
        }
        Some(entry_raw as u32)
    };
    Ok(
        HnswFields {
            config: HnswConfig {
                m: m as usize,
                ef_construction: ef_construction as usize,
                ef_search: ef_search as usize,
                seed,
            },
            rng,
            entry,
            max_layer: max_layer as usize,
            live_count: live as usize,
            node_count: count as u32,
        },
    )
}

/// Whether every node of a list is on a layer.
fn list_on_layer(nodes: &Vec<Node>, list: &Vec<u32>, layer: usize) -> (r: bool)
    requires
        forall|j: int| 0 <= j < list@.len() ==> (#[trigger] list@[j]) < nodes@.len(),
    ensures
        r == forall|j: int|
            0 <= j < list@.len() ==> nodes_view(nodes@)[#[trigger] list@[j] as int].reaches(
                layer as int,
            ),
{
    let mut j: usize = 0;
    while j < list.len()
        invariant
            j <= list@.len(),
            forall|i: int| 0 <= i < list@.len() ==> (#[trigger] list@[i]) < nodes@.len(),
            forall|i: int|
                0 <= i < j ==> nodes_view(nodes@)[#[trigger] list@[i] as int].reaches(
                    layer as int,
                ),
        decreases list@.len() - j,
    {
        let nb: u32 = list[j];
        assert(nodes_view(nodes@)[nb as int] == nodes@[nb as int]@);
        if nodes[nb as usize].neighbors.len() <= layer {
            assert(!nodes_view(nodes@)[list@[j as int] as int].reaches(layer as int));
            return false;
        }
        j = j + 1;
    }
    true
}

/// Whether every neighbor of a node is on the layer that links it.
fn node_on_layers(nodes: &Vec<Node>, node: &Node) -> (r: bool)
    requires
        forall|l: int, j: int|
            #![trigger node@.neighbors[l][j]]
            0 <= l < node@.neighbors.len() && 0 <= j < node@.neighbors[l].len()
                ==> node@.neighbors[l][j] < nodes@.len(),
    ensures
        r == forall|l: int, j: int|
            #![trigger node@.neighbors[l][j]]
            0 <= l < node@.neighbors.len() && 0 <= j < node@.neighbors[l].len() ==> nodes_view(
                nodes@,
            )[node@.neighbors[l][j] as int].reaches(l),
{
    let ghost all = nodes_view(nodes@);
    let mut l: usize = 0;
    while l < node.neighbors.len()
        invariant
            all == nodes_view(nodes@),
            l <= node.neighbors@.len(),
            forall|a: int, j: int|
                #![trigger node@.neighbors[a][j]]
                0 <= a < node@.neighbors.len() && 0 <= j < node@.neighbors[a].len()
                    ==> node@.neighbors[a][j] < nodes@.len(),
            forall|a: int, j: int|
                #![trigger node@.neighbors[a][j]]
                0 <= a < l && 0 <= j < node@.neighbors[a].len()
                    ==> all[node@.neighbors[a][j] as int].reaches(a),
        decreases node.neighbors@.len() - l,
    {
        let list = &node.neighbors[l];
        assert(node@.neighbors[l as int] == list@);
        assert forall|j: int| 0 <= j < list@.len() implies (#[trigger] list@[j]) < nodes@.len() by {
            assert(node@.neighbors[l as int][j] == list@[j]);
        }
        if !list_on_layer(nodes, list, l) {
            proof {
                let j = choose|j: int|
                    0 <= j < list@.len() && !all[#[trigger] list@[j] as int].reaches(l as int);
                assert(node@.neighbors[l as int][j] == list@[j]);
            }
            return false;
        }
        assert forall|a: int, j: int|
            #![trigger node@.neighbors[a][j]]
            0 <= a < l + 1 && 0 <= j
                < node@.neighbors[a].len() implies all[node@.neighbors[a][j] as int].reaches(a) by {
            if a == l {
                assert(node@.neighbors[a][j] == list@[j]);
            }
        }
        l = l + 1;
    }
    true
}

/// Whether every neighbor of every node is on the layer that links it.
fn is_layered(nodes: &Vec<Node>) -> (r: bool)
    requires
        forall|i: int, l: int, j: int|
            #![trigger nodes_view(nodes@)[i].neighbors[l][j]]
            0 <= i < nodes@.len() && 0 <= l < nodes_view(nodes@)[i].neighbors.len() && 0 <= j
                < nodes_view(nodes@)[i].neighbors[l].len()
                ==> nodes_view(nodes@)[i].neighbors[l][j] < nodes@.len(),
    ensures
        r == layered(nodes_view(nodes@)),
{
    let ghost all = nodes_view(nodes@);
    let mut i: usize = 0;
    while i < nodes.len()
        invariant
            all == nodes_view(nodes@),
            i <= nodes@.len(),
            forall|a: int, l: int, j: int|
                #![trigger all[a].neighbors[l][j]]
                0 <= a < nodes@.len() && 0 <= l < all[a].neighbors.len() && 0 <= j
                    < all[a].neighbors[l].len() ==> all[a].neighbors[l][j] < nodes@.len(),
            forall|a: int, l: int, j: int|
                #![trigger all[a].neighbors[l][j]]
                0 <= a < i && 0 <= l < all[a].neighbors.len() && 0 <= j
                    < all[a].neighbors[l].len() ==> all[all[a].neighbors[l][j] as int].reaches(l),
        decreases nodes@.len() - i,
    {
        let node = &nodes[i];
        assert(all[i as int] == node@);
        assert forall|l: int, j: int|
            #![trigger node@.neighbors[l][j]]
            0 <= l < node@.neighbors.len() && 0 <= j
                < node@.neighbors[l].len() implies node@.neighbors[l][j] < nodes@.len() by {
            assert(all[i as int].neighbors[l][j] < nodes@.len());
        }
        if !node_on_layers(nodes, node) {
            proof {
                let (l, j) = choose|l: int, j: int|
                    #![trigger node@.neighbors[l][j]]
                    0 <= l < node@.neighbors.len() && 0 <= j < node@.neighbors[l].len()
                        && !all[node@.neighbors[l][j] as int].reaches(l);
                assert(!all[all[i as int].neighbors[l][j] as int].reaches(l));
            }
            return false;
        }
        assert forall|a: int, l: int, j: int|
            #![trigger all[a].neighbors[l][j]]
            0 <= a < i + 1 && 0 <= l < all[a].neighbors.len() && 0 <= j
                < all[a].neighbors[l].len() implies all[all[a].neighbors[l][j] as int].reaches(
            l,
        ) by {
            if a == i {
                assert(node@.neighbors[l][j] == all[a].neighbors[l][j]);
            }
        }
        i = i + 1;
    }
    true
}

/// What is known of the nodes read so far and of the places of their ids.
spec fn read_so_far(
    nodes: Seq<Node>,
    places: Map<u64, u32>,
    live: usize,
    dim: usize,
    count: u32,
) -> bool {
    let views = nodes_view(nodes);
    &&& unique_live(node_points(views))
    &&& live == live_count(node_points(views))
    &&& forall|i: int|
        #![trigger nodes[i]]
        0 <= i < nodes.len() ==> {
            &&& places.contains_key(nodes[i].id.0)
            &&& !nodes[i].deleted ==> places[nodes[i].id.0] == i
            &&& nodes[i]@.vector.len() == dim
            &&& nodes[i]@.neighbors.len() >= 1
        }
    &&& forall|id: u64| #[trigger]
        places.contains_key(id) ==> places[id] < nodes.len() && nodes[places[id] as int].id.0 == id
    &&& forall|i: int, l: int, j: int|
        #![trigger views[i].neighbors[l][j]]
        0 <= i < nodes.len() && 0 <= l < views[i].neighbors.len() && 0 <= j
            < views[i].neighbors[l].len() ==> views[i].neighbors[l][j] < count
}

proof fn lemma_live_node(nodes: Seq<Node>, id: u64)
    ensures
        has_live_node(nodes_view(nodes), id) == holds_live(node_points(nodes_view(nodes)), id),
{
    let views = nodes_view(nodes);
    let points = node_points(views);
    if has_live_node(views, id) {
        let i = choose|i: int| 0 <= i < views.len() && !(#[trigger] views[i]).deleted && views[i].id == id;
        assert(points[i].live && points[i].id == id);
    }
    if holds_live(points, id) {
        let i = choose|i: int|
            #![trigger points[i]]
            0 <= i < points.len() && points[i].live && points[i].id == id;
        assert(!views[i].deleted && views[i].id == id);
    }
}

/// One more node, whose id no live node has if the new one is live.
proof fn lemma_read_one_more(
    nodes: Seq<Node>,
    places: Map<u64, u32>,
    live: usize,
    dim: usize,
    count: u32,
    node: Node,
    after: Map<u64, u32>,
    live_after: usize,
)
    requires
        read_so_far(nodes, places, live, dim, count),
        nodes.len() < count,
        node@.vector.len() == dim,
        node@.neighbors.len() >= 1,
        forall|l: int, j: int|
            #![trigger node@.neighbors[l][j]]
            0 <= l < node@.neighbors.len() && 0 <= j < node@.neighbors[l].len()
                ==> node@.neighbors[l][j] < count,
        !node.deleted ==> !has_live_node(nodes_view(nodes), node.id.0) && after == places.insert(
            node.id.0,
            nodes.len() as u32,
        ) && live_after == live + 1,
        node.deleted ==> live_after == live && after == if places.contains_key(node.id.0) {
            places
        } else {
            places.insert(node.id.0, nodes.len() as u32)
        },
    ensures
        read_so_far(nodes.push(node), after, live_after, dim, count),
        nodes_view(nodes.push(node)) == nodes_view(nodes).push(node@),
{
    let views = nodes_view(nodes);
    let points = node_points(views);
    let all = nodes.push(node);
    let all_views = nodes_view(all);
    let p = Point {
        id: node.id.0,
        live: !node.deleted,
        record: Record { vector: node@.vector, payload: node@.payload },
    };
    assert(all_views =~= views.push(node@));
    assert(node_points(all_views) =~= points.push(p));
    lemma_live_node(nodes, node.id.0);
    if node.deleted {
        lemma_push_removed(points, p);
    } else {
        lemma_push_point(points, p);
    }
    assert forall|i: int|
        #![trigger all[i]]
        0 <= i < all.len() implies {
        &&& after.contains_key(all[i].id.0)
        &&& !all[i].deleted ==> after[all[i].id.0] == i
        &&& all[i]@.vector.len() == dim
        &&& all[i]@.neighbors.len() >= 1
    } by {
        if i < nodes.len() {
            assert(all[i] == nodes[i]);
            if !node.deleted && !nodes[i].deleted && nodes[i].id.0 == node.id.0 {
                assert(!views[i].deleted && views[i].id == node.id.0);
            }
        }
    }
    assert forall|i: int, l: int, j: int|
        #![trigger all_views[i].neighbors[l][j]]
        0 <= i < all.len() && 0 <= l < all_views[i].neighbors.len() && 0 <= j
            < all_views[i].neighbors[l].len() implies all_views[i].neighbors[l][j] < count by {
        if i < nodes.len() {
            assert(all_views[i] == views[i]);
        } else {
            assert(all_views[i] == node@);
        }
    }
}

fn read_hnsw_body(r: &mut Cursor<'_>, header: &Header) -> (h: std::result::Result<
    HnswIndex,
    SnapshotError,
>)
    requires
        old(r).wf(),
        old(r).pos == 24,
        header.dim <= MAX_SNAPSHOT_DIM,
    ensures
        match h {
            Ok(index) => index.wf() && hnsw_at(old(r).data@, *header) == Ok::<HnswView, Fault>(
                index@,
            ),
            Err(e) => hnsw_at(old(r).data@, *header) == Err::<HnswView, Fault>(e@),
        },
{
    let ghost data = r.data@;
    let fields = read_fields(r)?;
    let node_count: u32 = fields.node_count;
    let ghost goal = nodes_from(
        data,
        96,
        header.dim as nat,
        node_count as nat,
        node_count,
        seq![],
    );
    let mut nodes: Vec<Node> = Vec::new();
    let mut id_to_pos: HashMap<u64, u32> = HashMap::new();
    let mut counted_live: usize = 0;
    let mut pos: u32 = 0;
    assert(nodes_view(nodes@) =~= seq![]);
    assert(node_points(nodes_view(nodes@)) =~= seq![]);
    while pos < node_count
        invariant
            r.wf(),
            data == r.data@,
            data == old(r).data@,
            header.dim <= MAX_SNAPSHOT_DIM,
            fields_at(data) == Ok::<HnswFields, Fault>(fields),
            node_count == fields.node_count,
            pos <= node_count,
            pos == nodes@.len(),
            counted_live <= pos,
            goal == nodes_from(
                data,
                96,
                header.dim as nat,
                node_count as nat,
                node_count,
                seq![],
            ),
            goal == nodes_from(
                data,
                r.pos as int,
                header.dim as nat,
                (node_count - pos) as nat,
                node_count,
                nodes_view(nodes@),
            ),
            read_so_far(nodes@, id_to_pos@, counted_live, header.dim, node_count),
        decreases node_count - pos,
    {
        let node = read_node(r, header.dim, node_count)?;
        let id: u64 = node.id.0;
        let ghost was = nodes@;
        let ghost places = id_to_pos@;
        let ghost live = counted_live;
        let known: Option<u32> = match id_to_pos.get(&id) {
            Some(at) => Some(*at),
            None => None,
        };
        let count: usize = nodes.len();
        if !node.deleted {
            if let Some(at) = known {
                if !nodes[at as usize].deleted {
                    assert(has_live_node(nodes_view(was), id)) by {
                        assert(nodes_view(was)[at as int] == was[at as int]@);
                    }
                    let head = with_number("duplicate live id ", id);
                    return Err(SnapshotError::Corrupt(joined(head.as_str(), " in hnsw snapshot")));
                }
            }
            assert(!has_live_node(nodes_view(was), id)) by {
                if has_live_node(nodes_view(was), id) {
                    let i = choose|i: int|
                        0 <= i < nodes_view(was).len() && !(
                        #[trigger] nodes_view(was)[i]).deleted && nodes_view(was)[i].id == id;
                    assert(was[i].id.0 == id && !was[i].deleted);
                }
            }
            counted_live = counted_live + 1;
            id_to_pos.insert(id, pos);
        } else if known.is_none() {
            id_to_pos.insert(id, pos);
        }
        proof {
            lemma_read_one_more(
                was,
                places,
                live,
                header.dim,
                node_count,
                node,
                id_to_pos@,
                counted_live,
            );
        }
        nodes.push(node);
        pos = pos + 1;
    }
    let ghost views = nodes_view(nodes@);
    let ghost v = HnswView {
        config: fields.config,
        metric: header.metric,
        dim: header.dim,
        nodes: views,
        entry: fields.entry,
        max_layer: fields.max_layer,
        rng: fields.rng,
    };
    assert(hnsw_at(data, *header) == assembled(*header, fields, views));
    if counted_live != fields.live_count {
        let head = with_number("live_count ", fields.live_count as u64);
        let middle = with_number(" does not match ", counted_live as u64);
        let tail = joined(middle.as_str(), " live nodes");
        return Err(SnapshotError::Corrupt(joined(head.as_str(), tail.as_str())));
    }
    if !is_layered(&nodes) {
        return Err(corrupt("neighbor is not on the layer that links it"));
    }
    if let Some(e) = fields.entry {
        assert(views[e as int] == nodes@[e as int]@);
        if nodes[e as usize].neighbors.len() <= fields.max_layer {
            return Err(corrupt("entry point is not on the highest layer"));
        }
    }
    let index = HnswIndex {
        config: fields.config,
        metric: header.metric,
        dim: header.dim,
        nodes,
        id_to_pos,
        entry_point: fields.entry,
        max_layer: fields.max_layer,
        live_count: fields.live_count,
        rng_state: fields.rng,
    };
    proof {
        assert(index@ == v);
        assert forall|i: int| 0 <= i < views.len() implies (#[trigger] views[i]).vector.len()
            == header.dim && views[i].neighbors.len() >= 1 by {
            assert(views[i] == index.nodes@[i]@);
        }
        assert(graph_wf(views, header.dim as nat));
    }
    Ok(index)
}

// ---------------------------------------------------------------------------
// Indexes of either type
// ---------------------------------------------------------------------------

/// An index of either type, from or for a snapshot.
#[derive(Debug)]
pub enum AnyIndex {
    Flat(FlatIndex),
    Hnsw(HnswIndex),
}

impl View for AnyIndex {
    type V = AnyView;

    open spec fn view(&self) -> AnyView {
        match self {
            AnyIndex::Flat(i) => AnyView::Flat(i@),
            AnyIndex::Hnsw(i) => AnyView::Hnsw(i@),
        }
    }
}

impl AnyView {
    /// The dimension of the vectors.
    pub open spec fn dim(self) -> usize {
        match self {
            AnyView::Flat(v) => v.dim,
            AnyView::Hnsw(v) => v.dim,
        }
    }

    /// The metric of the index.
    pub open spec fn metric(self) -> DistanceMetric {
        match self {
            AnyView::Flat(v) => v.metric,
            AnyView::Hnsw(v) => v.metric,
        }
    }

    /// The stored points.
    pub open spec fn points(self) -> Seq<Point> {
        match self {
            AnyView::Flat(v) => v.points(),
            AnyView::Hnsw(v) => v.points(),
        }
    }

    /// The name of the type of index.
    pub open spec fn kind_name(self) -> Seq<char> {
        match self {
            AnyView::Flat(_) => "flat"@,
            AnyView::Hnsw(_) => "hnsw"@,
        }
    }

    /// The hits of a search. The width of the beam matters to an HNSW index
    /// only, which has one of its own for searches that give none.
    pub open spec fn hits(
        self,
        ar: Arith,
        query: Seq<u32>,
        k: usize,
        ef: Option<usize>,
        filter: Option<FilterView>,
    ) -> Seq<SearchResult> {
        match self {
            AnyView::Flat(v) => exact_hits(v.points(), v.metric, ar, query, k as int, filter),
            AnyView::Hnsw(v) => v.found(
                ar,
                query,
                k,
                match ef {
                    Some(width) => width,
                    None => v.config.ef_search,
                },
                filter,
            ),
        }
    }

    /// The index with one more vector.
    pub open spec fn inserted(
        self,
        ar: Arith,
        id: u64,
        vector: Seq<u32>,
        payload: Option<JsonView>,
    ) -> AnyView {
        match self {
            AnyView::Flat(v) => AnyView::Flat(v.added(EntryView { id, vector, payload })),
            AnyView::Hnsw(v) => AnyView::Hnsw(v.inserted(ar, id, vector, payload)),
        }
    }

    /// The index without the vector that has an id.
    pub open spec fn removed(self, id: u64) -> AnyView {
        match self {
            AnyView::Flat(v) => AnyView::Flat(v.removed_at(v.place_of(id))),
            AnyView::Hnsw(v) => AnyView::Hnsw(v.retired(v.place_of(id))),
        }
    }
}

impl AnyIndex {
    /// The metric of the index.
    pub fn metric(&self) -> (r: DistanceMetric)
        ensures
            r == self@.metric(),
    {
        match self {
            AnyIndex::Flat(i) => i.metric(),
            AnyIndex::Hnsw(i) => i.metric(),
        }
    }

    /// The name of the type of index.
    pub fn kind_name(&self) -> (r: &'static str)
        ensures
            r@ == self@.kind_name(),
    {
        match self {
            AnyIndex::Flat(_) => "flat",
            AnyIndex::Hnsw(_) => "hnsw",
        }
    }

    /// Searches with an optional beam width and an optional filter. A flat
    /// index is exact whatever the width.
    pub fn search_opts<F: Fn(FloatOp, u64, u64) -> u64>(
        &self,
        fpu: &F,
        query: &[u32],
        k: usize,
        ef: Option<usize>,
        filter: Option<&Filter>,
    ) -> (r: Result<Vec<SearchResult>>)
        requires
            self.wf(),
            is_arithmetic(*fpu),
        ensures
            ({
                let hits = self@.hits(arith_of(*fpu), query@, k, ef, optional_filter(filter));
                match r {
                    Ok(found) => {
                        &&& search_outcome(self@.dim(), query@, k, hits) == Ok::<
                            Seq<SearchResult>,
                            VexError,
                        >(found@)
                        &&& sound_answer(
                            self.records(),
                            self@.metric(),
                            arith_of(*fpu),
                            query@,
                            k as int,
                            optional_filter(filter),
                            found@,
                        )
                    },
                    Err(e) => search_outcome(self@.dim(), query@, k, hits) == Err::<
                        Seq<SearchResult>,
                        VexError,
                    >(e),
                }
            }),
    {
        match self {
            AnyIndex::Flat(i) => i.search_filtered(fpu, query, k, filter),
            AnyIndex::Hnsw(i) => {
                let width: usize = match ef {
                    Some(width) => width,
                    None => i.config().ef_search,
                };
                i.search_filtered_with_ef(fpu, query, k, width, filter)
            },
        }
    }

    /// The live vectors with their payloads, in the order in which they are
    /// stored.
    pub fn iter_live(&self) -> (r: Vec<(VectorId, &Vector, Option<&Payload>)>)
        requires
            self.wf(),
        ensures
            live_list(r@) == live_points(self@.points()),
    {
        match self {
            AnyIndex::Flat(i) => i.iter_live(),
            AnyIndex::Hnsw(i) => i.iter_live(),
        }
    }

    /// Appends the snapshot of the index to `w`.
    ///
    /// What was written without a fault reads back as the same index, within
    /// the limits of the format. Cut short, it is refused as corrupt, within
    /// those limits or not, as long as every count fits its field.
    pub fn write_to(&self, w: &mut Vec<u8>) -> (r: std::result::Result<(), SnapshotError>)
        requires
            self.wf(),
        ensures
            wrote(old(w)@, final(w)@, r, encoded(self@)),
            r is Ok && portable(self@) ==> forall|behind: Seq<u8>|
                decoded(#[trigger] (encoded(self@).bytes + behind)) == Ok::<AnyView, Fault>(self@),
            r is Ok && portable(self@) ==> forall|n: int|
                0 <= n < encoded(self@).bytes.len() ==> decoded(
                    #[trigger] encoded(self@).bytes.take(n),
                ) == Err::<AnyView, Fault>(cut_short()),
            r is Ok && (self is Flat || framed(self@)) ==> forall|n: int|
                0 <= n < encoded(self@).bytes.len() ==> refused(
                    decoded(#[trigger] encoded(self@).bytes.take(n)),
                ),
            r is Ok && portable(self@) ==> storable(self@),
    {
        let r = match self {
            AnyIndex::Flat(i) => {
                let count: usize = i.entries.len();
                assert(self@->Flat_0.entries.len() == count);
                write_flat(w, i)
            },
            AnyIndex::Hnsw(i) => write_hnsw(w, i),
        };
        proof {
            if r is Ok && portable(self@) {
                assert forall|i: int| 0 <= i < payloads(self@).len() && legible(
                    #[trigger] payloads(self@)[i],
                ) implies reads_back(payloads(self@)[i]) by {
                    match self@ {
                        AnyView::Flat(v) => {
                            assert(reads_back_if_legible(v.entries[i].payload));
                        },
                        AnyView::Hnsw(v) => {
                            assert(reads_back_if_legible(v.nodes[i].payload));
                        },
                    }
                }
                lemma_portable(self@);
                assert forall|behind: Seq<u8>|
                    decoded(#[trigger] (encoded(self@).bytes + behind)) == Ok::<AnyView, Fault>(
                        self@,
                    ) by {
                    law_snapshot_reads_back(self@, behind);
                }
                assert forall|n: int| 0 <= n < encoded(self@).bytes.len() implies decoded(
                    #[trigger] encoded(self@).bytes.take(n),
                ) == Err::<AnyView, Fault>(cut_short()) by {
                    law_cut_snapshot_is_refused(self@, n);
                }
            }
            if r is Ok && (self is Flat || framed(self@)) {
                assert(framed(self@));
                assert forall|n: int| 0 <= n < encoded(self@).bytes.len() implies refused(
                    decoded(#[trigger] encoded(self@).bytes.take(n)),
                ) by {
                    law_part_of_a_snapshot_is_corrupt(self@, n);
                }
            }
        }
        r
    }

    /// Reads a snapshot. Every length and place is checked before it is used.
    pub fn read_from(data: &[u8]) -> (r: std::result::Result<AnyIndex, SnapshotError>)
        ensures
            match r {
                Ok(index) => index.wf() && decoded(data@) == Ok::<AnyView, Fault>(index@),
                Err(e) => decoded(data@) == Err::<AnyView, Fault>(e@),
            },
    {
        let mut cursor = Cursor::new(data);
        assert(data@.skip(0) =~= data@);
        let header = read_header(&mut cursor)?;
        if header.index_type == TYPE_FLAT {
            let flat = read_flat_body(&mut cursor, &header)?;
            Ok(AnyIndex::Flat(flat))
        } else {
            let hnsw = read_hnsw_body(&mut cursor, &header)?;
            Ok(AnyIndex::Hnsw(hnsw))
        }
    }
}

impl AnyIndex {
    /// No two live vectors share an id.
    pub proof fn lemma_unique_live(&self)
        requires
            self.wf(),
        ensures
            unique_live(self@.points()),
    {
        match self {
            AnyIndex::Flat(i) => lemma_flat_points(i@),
            AnyIndex::Hnsw(_) => {},
        }
    }
}

impl From<FlatIndex> for AnyIndex {
    fn from(i: FlatIndex) -> (r: Self) {
        AnyIndex::Flat(i)
    }
}

impl vstd::std_specs::convert::FromSpecImpl<FlatIndex> for AnyIndex {
    open spec fn obeys_from_spec() -> bool {
        true
    }

    open spec fn from_spec(i: FlatIndex) -> Self {
        AnyIndex::Flat(i)
    }
}

impl From<HnswIndex> for AnyIndex {
    fn from(i: HnswIndex) -> (r: Self) {
        AnyIndex::Hnsw(i)
    }
}

impl vstd::std_specs::convert::FromSpecImpl<HnswIndex> for AnyIndex {
    open spec fn obeys_from_spec() -> bool {
        true
    }

    open spec fn from_spec(i: HnswIndex) -> Self {
        AnyIndex::Hnsw(i)
    }
}

impl Index for AnyIndex {
    open(crate) spec fn wf(&self) -> bool {
        match self {
            AnyIndex::Flat(i) => i.wf(),
            AnyIndex::Hnsw(i) => i.wf(),
        }
    }

    open spec fn spec_dim(&self) -> usize {
        self@.dim()
    }

    open spec fn spec_metric(&self) -> DistanceMetric {
        self@.metric()
    }

    open spec fn records(&self) -> Map<u64, Record> {
        live_records(self@.points())
    }

    open spec fn ready_for(&self, ar: Arith, n: nat) -> bool {
        match self {
            AnyIndex::Flat(i) => i.ready_for(ar, n),
            AnyIndex::Hnsw(i) => i.ready_for(ar, n),
        }
    }

    open spec fn stored(
        &self,
        ar: Arith,
        id: u64,
        vector: Seq<u32>,
        payload: Option<JsonView>,
        after: Self,
    ) -> bool {
        after@ == self@.inserted(ar, id, vector, payload)
    }

    open spec fn dropped(&self, id: u64, after: Self) -> bool {
        after@ == self@.removed(id)
    }

    open spec fn answer(
        &self,
        ar: Arith,
        query: Seq<u32>,
        k: usize,
        filter: Option<FilterView>,
    ) -> Seq<SearchResult> {
        self@.hits(ar, query, k, None, filter)
    }

    proof fn lemma_ready_for_less(&self, ar: Arith, n: nat, fewer: nat) {
        match self {
            AnyIndex::Flat(i) => i.lemma_ready_for_less(ar, n, fewer),
            AnyIndex::Hnsw(i) => i.lemma_ready_for_less(ar, n, fewer),
        }
    }

    fn can_take<F: Fn(FloatOp, u64, u64) -> u64>(&self, fpu: &F, n: usize) -> (r: bool) {
        match self {
            AnyIndex::Flat(i) => i.can_take(fpu, n),
            AnyIndex::Hnsw(i) => i.can_take(fpu, n),
        }
    }

    fn add_with_payload<F: Fn(FloatOp, u64, u64) -> u64>(
        &mut self,
        fpu: &F,
        id: VectorId,
        vector: Vector,
        payload: Option<Payload>,
    ) -> (r: Result<()>)
        ensures
            r is Ok ==> final(self)@ == old(self)@.inserted(
                arith_of(*fpu),
                id.0,
                vector@,
                held_payload(payload),
            ),
    {
        match self {
            AnyIndex::Flat(i) => i.add_with_payload(fpu, id, vector, payload),
            AnyIndex::Hnsw(i) => i.add_with_payload(fpu, id, vector, payload),
        }
    }

    fn remove(&mut self, id: VectorId) -> (r: Result<bool>)
        ensures
            old(self).records().contains_key(id.0) ==> final(self)@ == old(self)@.removed(id.0),
    {
        match self {
            AnyIndex::Flat(i) => i.remove(id),
            AnyIndex::Hnsw(i) => i.remove(id),
        }
    }

    fn search_filtered<F: Fn(FloatOp, u64, u64) -> u64>(
        &self,
        fpu: &F,
        query: &[u32],
        k: usize,
        filter: Option<&Filter>,
    ) -> (r: Result<Vec<SearchResult>>) {
        match self {
            AnyIndex::Flat(i) => i.search_filtered(fpu, query, k, filter),
            AnyIndex::Hnsw(i) => i.search_filtered(fpu, query, k, filter),
        }
    }

    fn payload(&self, id: VectorId) -> (r: Option<&Payload>) {
        match self {
            AnyIndex::Flat(i) => i.payload(id),
            AnyIndex::Hnsw(i) => i.payload(id),
        }
    }

    fn vector(&self, id: VectorId) -> (r: Option<&Vector>) {
        match self {
            AnyIndex::Flat(i) => i.vector(id),
            AnyIndex::Hnsw(i) => i.vector(id),
        }
    }

    fn len(&self) -> (r: usize) {
        match self {
            AnyIndex::Flat(i) => i.len(),
            AnyIndex::Hnsw(i) => i.len(),
        }
    }

    fn dim(&self) -> (r: usize) {
        match self {
            AnyIndex::Flat(i) => i.dim(),
            AnyIndex::Hnsw(i) => i.dim(),
        }
    }
}

} // verus!
