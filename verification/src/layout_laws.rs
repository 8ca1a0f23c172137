//! Where everything stands in a snapshot, and what a snapshot may hold.
use crate::codec::{
    fits, le_bytes, le_value, lemma_le_bounds, lemma_le_bytes_len, lemma_number_stands,
    lemma_stands_split, number_at, stands_at, Fault,
};
use crate::distance::DistanceMetric;
use crate::flat::{EntryView, FlatView};
use crate::format::{
    decoded, encoded, entries_from, entries_output, entry_at, entry_number, entry_output,
    flag_byte, header_bytes, hnsw_fields, layered, lemma_byte_stands, lemma_words_len,
    lemma_words_stand, list_at, list_bytes, lists_bytes, lists_from, magic, node_at, node_head,
    node_output, nodes_from, nodes_output, payload_at, payload_output, payloads, places_from,
    portable, words_bytes, AnyView, FORMAT_VERSION, TYPE_FLAT, TYPE_HNSW,
};
use crate::graph::NodeView;
use crate::hnsw::HnswView;
use crate::json::{json_parsed, json_text, JsonView};
use crate::records::live_count;
use vstd::prelude::*;

verus! {

// ---------------------------------------------------------------------------
// Numbers
// ---------------------------------------------------------------------------

proof fn lemma_value_step(data: Seq<u8>, a: int, b: int)
    requires
        0 <= a < b <= data.len(),
    ensures
        le_value(data.subrange(a, b)) == data[a] + 256 * le_value(data.subrange(a + 1, b)),
        le_value(data.subrange(b, b)) == 0,
{
    assert(data.subrange(a, b).drop_first() =~= data.subrange(a + 1, b));
    assert(data.subrange(b, b) =~= seq![]);
}

/// Numbers stand with their lowest byte first.
pub proof fn law_numbers_are_little_endian(data: Seq<u8>, pos: int)
    requires
        0 <= pos,
        pos + 8 <= data.len(),
    ensures
        number_at(data, pos, 1) == data[pos],
        number_at(data, pos, 2) == data[pos] + 0x100 * data[pos + 1],
        number_at(data, pos, 4) == data[pos] + 0x100 * data[pos + 1] + 0x1_0000 * data[pos + 2]
            + 0x100_0000 * data[pos + 3],
        number_at(data, pos, 8) == data[pos] + 0x100 * data[pos + 1] + 0x1_0000 * data[pos + 2]
            + 0x100_0000 * data[pos + 3] + 0x1_0000_0000 * data[pos + 4] + 0x100_0000_0000 * data[pos
            + 5] + 0x1_0000_0000_0000 * data[pos + 6] + 0x100_0000_0000_0000 * data[pos + 7],
{
    lemma_value_step(data, pos, pos + 1);
    lemma_value_step(data, pos, pos + 2);
    lemma_value_step(data, pos + 1, pos + 2);
    lemma_value_step(data, pos, pos + 4);
    lemma_value_step(data, pos + 1, pos + 4);
    lemma_value_step(data, pos + 2, pos + 4);
    lemma_value_step(data, pos + 3, pos + 4);
    lemma_value_step(data, pos, pos + 8);
    lemma_value_step(data, pos + 1, pos + 8);
    lemma_value_step(data, pos + 2, pos + 8);
    lemma_value_step(data, pos + 3, pos + 8);
    lemma_value_step(data, pos + 4, pos + 8);
    lemma_value_step(data, pos + 5, pos + 8);
    lemma_value_step(data, pos + 6, pos + 8);
    lemma_value_step(data, pos + 7, pos + 8);
}

// ---------------------------------------------------------------------------
// The header and the fields
// ---------------------------------------------------------------------------

/// Whether a snapshot begins as it should: with the eight bytes `VEXSNAP` and
/// zero, the version, the kind, the metric, two bytes of zero and the dimension.
pub open spec fn headed(data: Seq<u8>, kind: int, metric: DistanceMetric, dim: usize) -> bool {
    &&& data.len() >= 24
    &&& data[0] == 0x56 && data[1] == 0x45 && data[2] == 0x58 && data[3] == 0x53
    &&& data[4] == 0x4e && data[5] == 0x41 && data[6] == 0x50 && data[7] == 0
    &&& number_at(data, 8, 4) == 1
    &&& number_at(data, 12, 1) == kind
    &&& number_at(data, 13, 1) == match metric {
        DistanceMetric::Cosine => 0int,
        DistanceMetric::L2 => 1,
        DistanceMetric::Dot => 2,
    }
    &&& number_at(data, 14, 2) == 0
    &&& number_at(data, 16, 8) == dim
}

proof fn lemma_header_stands(data: Seq<u8>, kind: u8, metric: DistanceMetric, dim: usize)
    requires
        stands_at(data, 0, header_bytes(kind, metric, dim)),
    ensures
        headed(data, kind as int, metric, dim),
        header_bytes(kind, metric, dim).len() == 24,
{
    let f = le_bytes(0, 2) + le_bytes(dim as nat, 8);
    let e = seq![metric.tag()] + f;
    let d = seq![kind] + e;
    let c = le_bytes(FORMAT_VERSION as nat, 4) + d;
    lemma_le_bounds();
    lemma_le_bytes_len(FORMAT_VERSION as nat, 4);
    lemma_le_bytes_len(0, 2);
    lemma_le_bytes_len(dim as nat, 8);
    lemma_stands_split(data, 0, magic(), c);
    lemma_stands_split(data, 8, le_bytes(FORMAT_VERSION as nat, 4), d);
    lemma_stands_split(data, 12, seq![kind], e);
    lemma_stands_split(data, 13, seq![metric.tag()], f);
    lemma_stands_split(data, 14, le_bytes(0, 2), le_bytes(dim as nat, 8));
    lemma_number_stands(data, 8, FORMAT_VERSION as nat, 4);
    lemma_byte_stands(data, 12, kind);
    lemma_byte_stands(data, 13, metric.tag());
    lemma_number_stands(data, 14, 0, 2);
    lemma_number_stands(data, 16, dim as nat, 8);
    let head = data.subrange(0, 8);
    assert(head == magic());
    assert(head[0] == 0x56 && head[1] == 0x45 && head[2] == 0x58 && head[3] == 0x53);
    assert(head[4] == 0x4e && head[5] == 0x41 && head[6] == 0x50 && head[7] == 0);
}

/// The snapshot of an index that looks at every vector has the header of kind
/// 0 and the number of vectors; the vectors follow.
pub proof fn law_flat_snapshot_begins(v: FlatView)
    requires
        v.entries.len() <= usize::MAX,
    ensures
        headed(encoded(AnyView::Flat(v)).bytes, 0, v.metric, v.dim),
        encoded(AnyView::Flat(v)).bytes.len() >= 32,
        number_at(encoded(AnyView::Flat(v)).bytes, 24, 8) == v.entries.len(),
{
    let data = encoded(AnyView::Flat(v)).bytes;
    let head = header_bytes(TYPE_FLAT, v.metric, v.dim);
    let count = le_bytes(v.entries.len(), 8);
    let body = entries_output(v.entries).bytes;
    assert(data.subrange(0, data.len() as int) =~= data);
    assert(stands_at(data, 0, head + count + body));
    lemma_stands_split(data, 0, head + count, body);
    lemma_stands_split(data, 0, head, count);
    lemma_header_stands(data, TYPE_FLAT, v.metric, v.dim);
    lemma_le_bounds();
    lemma_le_bytes_len(v.entries.len(), 8);
    lemma_number_stands(data, 24, v.entries.len(), 8);
}

/// The snapshot of a graph index has the header of kind 1 and nine numbers of
/// eight bytes: its parameters, its generator, where searches enter and on
/// which layer, how many vectors are live and how many nodes there are; the
/// nodes follow.
pub proof fn law_graph_snapshot_begins(v: HnswView)
    requires
        v.nodes.len() <= u32::MAX,
        live_count(v.points()) <= usize::MAX,
    ensures
        ({
            let data = encoded(AnyView::Hnsw(v)).bytes;
            &&& headed(data, 1, v.metric, v.dim)
            &&& data.len() >= 96
            &&& number_at(data, 24, 8) == v.config.m
            &&& number_at(data, 32, 8) == v.config.ef_construction
            &&& number_at(data, 40, 8) == v.config.ef_search
            &&& number_at(data, 48, 8) == v.config.seed
            &&& number_at(data, 56, 8) == v.rng
            &&& v.entry is None ==> number_at(data, 64, 8) == 0xffff_ffff_ffff_ffff
            &&& v.entry is Some ==> number_at(data, 64, 8) == v.entry->Some_0
            &&& number_at(data, 72, 8) == v.max_layer
            &&& number_at(data, 80, 8) == live_count(v.points())
            &&& number_at(data, 88, 8) == v.nodes.len()
        }),
{
    let data = encoded(AnyView::Hnsw(v)).bytes;
    let head = header_bytes(TYPE_HNSW, v.metric, v.dim);
    let fields = hnsw_fields(v);
    let body = nodes_output(v.nodes).bytes;
    assert(data.subrange(0, data.len() as int) =~= data);
    assert(stands_at(data, 0, head + fields + body));
    lemma_stands_split(data, 0, head + fields, body);
    lemma_stands_split(data, 0, head, fields);
    lemma_header_stands(data, TYPE_HNSW, v.metric, v.dim);
    let live = live_count(v.points());
    let n8 = le_bytes(live, 8) + le_bytes(v.nodes.len(), 8);
    let n7 = le_bytes(v.max_layer as nat, 8) + n8;
    let n6 = le_bytes(entry_number(v.entry) as nat, 8) + n7;
    let n5 = le_bytes(v.rng as nat, 8) + n6;
    let n4 = le_bytes(v.config.seed as nat, 8) + n5;
    let n3 = le_bytes(v.config.ef_search as nat, 8) + n4;
    let n2 = le_bytes(v.config.ef_construction as nat, 8) + n3;
    lemma_le_bounds();
    lemma_le_bytes_len(v.config.m as nat, 8);
    lemma_le_bytes_len(v.config.ef_construction as nat, 8);
    lemma_le_bytes_len(v.config.ef_search as nat, 8);
    lemma_le_bytes_len(v.config.seed as nat, 8);
    lemma_le_bytes_len(v.rng as nat, 8);
    lemma_le_bytes_len(entry_number(v.entry) as nat, 8);
    lemma_le_bytes_len(v.max_layer as nat, 8);
    lemma_le_bytes_len(live, 8);
    lemma_le_bytes_len(v.nodes.len(), 8);
    lemma_stands_split(data, 24, le_bytes(v.config.m as nat, 8), n2);
    lemma_stands_split(data, 32, le_bytes(v.config.ef_construction as nat, 8), n3);
    lemma_stands_split(data, 40, le_bytes(v.config.ef_search as nat, 8), n4);
    lemma_stands_split(data, 48, le_bytes(v.config.seed as nat, 8), n5);
    lemma_stands_split(data, 56, le_bytes(v.rng as nat, 8), n6);
    lemma_stands_split(data, 64, le_bytes(entry_number(v.entry) as nat, 8), n7);
    lemma_stands_split(data, 72, le_bytes(v.max_layer as nat, 8), n8);
    lemma_stands_split(data, 80, le_bytes(live, 8), le_bytes(v.nodes.len(), 8));
    lemma_number_stands(data, 24, v.config.m as nat, 8);
    lemma_number_stands(data, 32, v.config.ef_construction as nat, 8);
    lemma_number_stands(data, 40, v.config.ef_search as nat, 8);
    lemma_number_stands(data, 48, v.config.seed as nat, 8);
    lemma_number_stands(data, 56, v.rng as nat, 8);
    lemma_number_stands(data, 64, entry_number(v.entry) as nat, 8);
    lemma_number_stands(data, 72, v.max_layer as nat, 8);
    lemma_number_stands(data, 80, live, 8);
    lemma_number_stands(data, 88, v.nodes.len(), 8);
}

// ---------------------------------------------------------------------------
// Payloads and vectors
// ---------------------------------------------------------------------------

/// The number of bytes of a payload's JSON text; 0 without a payload.
pub open spec fn text_length(payload: Option<JsonView>) -> int {
    match payload {
        None => 0,
        Some(value) => json_text(value)->Ok_0.len() as int,
    }
}

/// Whether a payload can be written: there is none, or it has a JSON text that
/// is not empty and takes 16 MiB at most.
pub open spec fn writable(payload: Option<JsonView>) -> bool {
    payload matches Some(value) ==> json_text(value) is Ok && 0 < json_text(value)->Ok_0.len()
        <= 16777216
}

/// Whether a payload and a vector stand at a place: the length of the JSON text
/// in four bytes, the text, and the numbers of the vector, four bytes each.
pub open spec fn payload_and_vector_stand(
    data: Seq<u8>,
    pos: int,
    payload: Option<JsonView>,
    vector: Seq<u32>,
) -> bool {
    let len = text_length(payload);
    &&& data.len() >= pos + 4 + len + 4 * vector.len()
    &&& number_at(data, pos, 4) == len
    &&& payload matches Some(value) ==> data.subrange(pos + 4, pos + 4 + len) == json_text(
        value,
    )->Ok_0
    &&& forall|i: int|
        #![trigger vector[i]]
        0 <= i < vector.len() ==> number_at(data, pos + 4 + len + 4 * i, 4) == vector[i]
}

proof fn lemma_payload_and_vector_stand(
    data: Seq<u8>,
    pos: int,
    payload: Option<JsonView>,
    vector: Seq<u32>,
)
    requires
        payload_output(payload).fault is None,
        stands_at(data, pos, payload_output(payload).bytes + words_bytes(vector)),
    ensures
        payload_and_vector_stand(data, pos, payload, vector),
        payload_output(payload).bytes.len() == 4 + text_length(payload),
{
    let head = payload_output(payload).bytes;
    lemma_stands_split(data, pos, head, words_bytes(vector));
    lemma_words_stand(data, pos + head.len(), vector);
    lemma_le_bounds();
    match payload {
        None => {
            lemma_le_bytes_len(0, 4);
            lemma_number_stands(data, pos, 0, 4);
        },
        Some(value) => {
            let text = json_text(value)->Ok_0;
            lemma_le_bytes_len(text.len(), 4);
            lemma_stands_split(data, pos, le_bytes(text.len(), 4), text);
            lemma_number_stands(data, pos, text.len(), 4);
        },
    }
}

/// Whether a vector of an index that looks at all of them stands at a place:
/// its id in eight bytes, then payload and vector.
pub open spec fn entry_stands(data: Seq<u8>, pos: int, e: EntryView) -> bool {
    &&& number_at(data, pos, 8) == e.id
    &&& payload_and_vector_stand(data, pos + 8, e.payload, e.vector)
}

/// The place of entry `i` of a snapshot: behind header and count and the
/// entries before it.
pub open spec fn entry_place(entries: Seq<EntryView>, i: int) -> int
    decreases i,
{
    if i <= 0 {
        32
    } else {
        entry_place(entries, i - 1) + 8 + 4 + text_length(entries[i - 1].payload) + 4
            * entries[i - 1].vector.len()
    }
}

proof fn lemma_entries_stand(data: Seq<u8>, entries: Seq<EntryView>, i: int)
    requires
        0 <= i <= entries.len(),
        entries_output(entries).fault is None,
        stands_at(data, 32, entries_output(entries).bytes),
    ensures
        entries_output(entries.take(i)).bytes.len() + 32 == entry_place(entries, i),
        i < entries.len() ==> entry_stands(data, entry_place(entries, i), entries[i]),
    decreases i,
{
    crate::format::lemma_entries_prefix(data, 32, entries, i);
    if i > 0 {
        lemma_entries_stand(data, entries, i - 1);
        let e = entries[i - 1];
        assert(entries.take(i).drop_last() =~= entries.take(i - 1));
        assert(entries.take(i).last() == e);
        lemma_le_bytes_len(e.id as nat, 8);
        lemma_words_len(e.vector);
        lemma_payload_length(e.payload);
    } else {
        assert(entries.take(0) =~= seq![]);
    }
    if i < entries.len() {
        let e = entries[i];
        let pos = entry_place(entries, i);
        crate::format::lemma_entries_prefix(data, 32, entries, i + 1);
        assert(entries.take(i + 1).drop_last() =~= entries.take(i));
        assert(entries.take(i + 1).last() == e);
        lemma_stands_split(data, 32, entries_output(entries.take(i)).bytes, entry_output(e).bytes);
        let tail = payload_output(e.payload).bytes + words_bytes(e.vector);
        lemma_le_bytes_len(e.id as nat, 8);
        lemma_stands_split(data, pos, le_bytes(e.id as nat, 8), tail);
        lemma_le_bounds();
        lemma_number_stands(data, pos, e.id as nat, 8);
        lemma_payload_and_vector_stand(data, pos + 8, e.payload, e.vector);
    }
}

proof fn lemma_payload_length(payload: Option<JsonView>)
    requires
        payload_output(payload).fault is None,
    ensures
        payload_output(payload).bytes.len() == 4 + text_length(payload),
{
    match payload {
        None => {
            lemma_le_bytes_len(0, 4);
        },
        Some(value) => {
            lemma_le_bytes_len(json_text(value)->Ok_0.len(), 4);
        },
    }
}

/// The entries of a snapshot stand one behind the other, in the order of the
/// index, and nothing follows them.
pub proof fn law_flat_snapshot_holds_its_entries(v: FlatView, i: int)
    requires
        encoded(AnyView::Flat(v)).fault is None,
        0 <= i < v.entries.len(),
    ensures
        entry_stands(encoded(AnyView::Flat(v)).bytes, entry_place(v.entries, i), v.entries[i]),
        encoded(AnyView::Flat(v)).bytes.len() == entry_place(v.entries, v.entries.len() as int),
{
    let data = encoded(AnyView::Flat(v)).bytes;
    let head = header_bytes(TYPE_FLAT, v.metric, v.dim);
    let count = le_bytes(v.entries.len(), 8);
    let body = entries_output(v.entries).bytes;
    assert(data.subrange(0, data.len() as int) =~= data);
    assert(stands_at(data, 0, head + count + body));
    lemma_stands_split(data, 0, head + count, body);
    lemma_stands_split(data, 0, head, count);
    lemma_header_stands(data, TYPE_FLAT, v.metric, v.dim);
    lemma_le_bytes_len(v.entries.len(), 8);
    lemma_entries_stand(data, v.entries, i);
    lemma_entries_stand(data, v.entries, v.entries.len() as int);
    assert(v.entries.take(v.entries.len() as int) =~= v.entries);
}

// ---------------------------------------------------------------------------
// Nodes
// ---------------------------------------------------------------------------

/// The bytes that the first `l` neighbor lists of a node take: four for the
/// length of each and four for each neighbor.
pub open spec fn lists_length(lists: Seq<Seq<u32>>, l: int) -> int
    decreases l,
{
    if l <= 0 {
        0
    } else {
        lists_length(lists, l - 1) + 4 + 4 * lists[l - 1].len()
    }
}

/// Whether neighbor lists stand at a place, one behind the other.
pub open spec fn lists_stand(data: Seq<u8>, pos: int, lists: Seq<Seq<u32>>) -> bool {
    forall|l: int|
        #![trigger lists[l]]
        0 <= l < lists.len() ==> {
            &&& number_at(data, pos + lists_length(lists, l), 4) == lists[l].len()
            &&& forall|j: int|
                #![trigger lists[l][j]]
                0 <= j < lists[l].len() ==> number_at(
                    data,
                    pos + lists_length(lists, l) + 4 + 4 * j,
                    4,
                ) == lists[l][j]
        }
}

proof fn lemma_one_list_stands(data: Seq<u8>, pos: int, lists: Seq<Seq<u32>>, l: int)
    requires
        0 <= l <= lists.len(),
        stands_at(data, pos, lists_bytes(lists)),
        forall|k: int| 0 <= k < lists.len() ==> (#[trigger] lists[k]).len() <= u32::MAX,
    ensures
        lists_bytes(lists.take(l)).len() == lists_length(lists, l),
        l < lists.len() ==> number_at(data, pos + lists_length(lists, l), 4) == lists[l].len(),
        l < lists.len() ==> forall|j: int|
            #![trigger lists[l][j]]
            0 <= j < lists[l].len() ==> number_at(
                data,
                pos + lists_length(lists, l) + 4 + 4 * j,
                4,
            ) == lists[l][j],
    decreases l,
{
    crate::format::lemma_lists_prefix(data, pos, lists, l);
    if l > 0 {
        lemma_one_list_stands(data, pos, lists, l - 1);
        assert(lists.take(l).drop_last() =~= lists.take(l - 1));
        assert(lists.take(l).last() == lists[l - 1]);
        lemma_words_len(lists[l - 1]);
        lemma_le_bytes_len(lists[l - 1].len(), 4);
    } else {
        assert(lists.take(0) =~= seq![]);
    }
    if l < lists.len() {
        let list = lists[l];
        let at = pos + lists_length(lists, l);
        crate::format::lemma_lists_prefix(data, pos, lists, l + 1);
        assert(lists.take(l + 1).drop_last() =~= lists.take(l));
        assert(lists.take(l + 1).last() == list);
        lemma_stands_split(data, pos, lists_bytes(lists.take(l)), list_bytes(list));
        lemma_le_bytes_len(list.len(), 4);
        lemma_le_bounds();
        lemma_stands_split(data, at, le_bytes(list.len(), 4), words_bytes(list));
        lemma_number_stands(data, at, list.len(), 4);
        lemma_words_stand(data, at + 4, list);
    }
}

/// Whether a node stands at a place: its id in eight bytes, a byte that is 1
/// if it was removed, the number of its layers in four bytes, its neighbor
/// lists from layer 0 up, then payload and vector.
pub open spec fn node_stands(data: Seq<u8>, pos: int, n: NodeView) -> bool {
    let lists = lists_length(n.neighbors, n.neighbors.len() as int);
    &&& number_at(data, pos, 8) == n.id
    &&& number_at(data, pos + 8, 1) == if n.deleted {
        1int
    } else {
        0
    }
    &&& number_at(data, pos + 9, 4) == n.neighbors.len()
    &&& lists_stand(data, pos + 13, n.neighbors)
    &&& payload_and_vector_stand(data, pos + 13 + lists, n.payload, n.vector)
}

/// The place of node `i` of a snapshot: behind header and fields and the nodes
/// before it.
pub open spec fn node_place(nodes: Seq<NodeView>, i: int) -> int
    decreases i,
{
    if i <= 0 {
        96
    } else {
        node_place(nodes, i - 1) + 13 + lists_length(
            nodes[i - 1].neighbors,
            nodes[i - 1].neighbors.len() as int,
        ) + 4 + text_length(nodes[i - 1].payload) + 4 * nodes[i - 1].vector.len()
    }
}

/// Whether the numbers of layers and of neighbors of a node fit four bytes.
pub open spec fn counts_fit(n: NodeView) -> bool {
    &&& n.neighbors.len() <= u32::MAX
    &&& forall|k: int|
        0 <= k < n.neighbors.len() ==> (#[trigger] n.neighbors[k]).len() <= u32::MAX
}

proof fn lemma_node_stands(data: Seq<u8>, pos: int, n: NodeView)
    requires
        node_output(n).fault is None,
        stands_at(data, pos, node_output(n).bytes),
        counts_fit(n),
    ensures
        node_stands(data, pos, n),
        node_output(n).bytes.len() == 13 + lists_length(n.neighbors, n.neighbors.len() as int) + 4
            + text_length(n.payload) + 4 * n.vector.len(),
{
    let id = le_bytes(n.id as nat, 8);
    let flag = seq![flag_byte(n.deleted)];
    let layers = le_bytes(n.neighbors.len(), 4);
    let lists = lists_bytes(n.neighbors);
    let tail = payload_output(n.payload).bytes + words_bytes(n.vector);
    lemma_le_bounds();
    lemma_le_bytes_len(n.id as nat, 8);
    lemma_le_bytes_len(n.neighbors.len(), 4);
    assert(node_output(n).bytes =~= node_head(n) + tail);
    lemma_stands_split(data, pos, node_head(n), tail);
    lemma_stands_split(data, pos, id, flag + (layers + lists));
    lemma_stands_split(data, pos + 8, flag, layers + lists);
    lemma_stands_split(data, pos + 9, layers, lists);
    lemma_number_stands(data, pos, n.id as nat, 8);
    lemma_byte_stands(data, pos + 8, flag_byte(n.deleted));
    lemma_number_stands(data, pos + 9, n.neighbors.len(), 4);
    assert(n.neighbors.take(n.neighbors.len() as int) =~= n.neighbors);
    lemma_one_list_stands(data, pos + 13, n.neighbors, n.neighbors.len() as int);
    assert(lists_stand(data, pos + 13, n.neighbors)) by {
        assert forall|l: int| #![trigger n.neighbors[l]] 0 <= l < n.neighbors.len() implies {
            &&& number_at(data, pos + 13 + lists_length(n.neighbors, l), 4)
                == n.neighbors[l].len()
            &&& forall|j: int|
                #![trigger n.neighbors[l][j]]
                0 <= j < n.neighbors[l].len() ==> number_at(
                    data,
                    pos + 13 + lists_length(n.neighbors, l) + 4 + 4 * j,
                    4,
                ) == n.neighbors[l][j]
        } by {
            lemma_one_list_stands(data, pos + 13, n.neighbors, l);
        }
    }
    lemma_payload_and_vector_stand(data, pos + node_head(n).len(), n.payload, n.vector);
    lemma_words_len(n.vector);
}

proof fn lemma_nodes_stand(data: Seq<u8>, nodes: Seq<NodeView>, i: int)
    requires
        0 <= i <= nodes.len(),
        nodes_output(nodes).fault is None,
        stands_at(data, 96, nodes_output(nodes).bytes),
        forall|k: int| 0 <= k < nodes.len() ==> counts_fit(#[trigger] nodes[k]),
    ensures
        nodes_output(nodes.take(i)).bytes.len() + 96 == node_place(nodes, i),
        i < nodes.len() ==> node_stands(data, node_place(nodes, i), nodes[i]),
    decreases i,
{
    crate::format::lemma_nodes_prefix(data, 96, nodes, i);
    if i > 0 {
        lemma_nodes_stand(data, nodes, i - 1);
        let n = nodes[i - 1];
        assert(nodes.take(i).drop_last() =~= nodes.take(i - 1));
        assert(nodes.take(i).last() == n);
        lemma_stands_split(
            data,
            96,
            nodes_output(nodes.take(i - 1)).bytes,
            node_output(n).bytes,
        );
        lemma_node_stands(data, node_place(nodes, i - 1), n);
    } else {
        assert(nodes.take(0) =~= seq![]);
    }
    if i < nodes.len() {
        let n = nodes[i];
        crate::format::lemma_nodes_prefix(data, 96, nodes, i + 1);
        assert(nodes.take(i + 1).drop_last() =~= nodes.take(i));
        assert(nodes.take(i + 1).last() == n);
        lemma_stands_split(data, 96, nodes_output(nodes.take(i)).bytes, node_output(n).bytes);
        lemma_node_stands(data, node_place(nodes, i), n);
    }
}

/// The nodes of a snapshot stand one behind the other, in the order of the
/// index, and nothing follows them.
pub proof fn law_graph_snapshot_holds_its_nodes(v: HnswView, i: int)
    requires
        encoded(AnyView::Hnsw(v)).fault is None,
        v.nodes.len() <= u32::MAX,
        live_count(v.points()) <= usize::MAX,
        forall|k: int| 0 <= k < v.nodes.len() ==> counts_fit(#[trigger] v.nodes[k]),
        0 <= i < v.nodes.len(),
    ensures
        node_stands(encoded(AnyView::Hnsw(v)).bytes, node_place(v.nodes, i), v.nodes[i]),
        encoded(AnyView::Hnsw(v)).bytes.len() == node_place(v.nodes, v.nodes.len() as int),
{
    let data = encoded(AnyView::Hnsw(v)).bytes;
    let head = header_bytes(TYPE_HNSW, v.metric, v.dim);
    let fields = hnsw_fields(v);
    let body = nodes_output(v.nodes).bytes;
    assert(data.subrange(0, data.len() as int) =~= data);
    assert(stands_at(data, 0, head + fields + body));
    lemma_stands_split(data, 0, head + fields, body);
    lemma_stands_split(data, 0, head, fields);
    lemma_header_stands(data, TYPE_HNSW, v.metric, v.dim);
    lemma_le_bytes_len(v.config.m as nat, 8);
    lemma_le_bytes_len(v.config.ef_construction as nat, 8);
    lemma_le_bytes_len(v.config.ef_search as nat, 8);
    lemma_le_bytes_len(v.config.seed as nat, 8);
    lemma_le_bytes_len(v.rng as nat, 8);
    lemma_le_bytes_len(entry_number(v.entry) as nat, 8);
    lemma_le_bytes_len(v.max_layer as nat, 8);
    lemma_le_bytes_len(live_count(v.points()), 8);
    lemma_le_bytes_len(v.nodes.len(), 8);
    assert(fields.len() == 72);
    lemma_nodes_stand(data, v.nodes, i);
    lemma_nodes_stand(data, v.nodes, v.nodes.len() as int);
    assert(v.nodes.take(v.nodes.len() as int) =~= v.nodes);
}

// ---------------------------------------------------------------------------
// What can be written
// ---------------------------------------------------------------------------

proof fn lemma_payload_fault(payload: Option<JsonView>)
    ensures
        payload_output(payload).fault is None <==> writable(payload),
{
}

proof fn lemma_entries_fault(entries: Seq<EntryView>)
    ensures
        entries_output(entries).fault is None <==> forall|i: int|
            0 <= i < entries.len() ==> writable((#[trigger] entries[i]).payload),
    decreases entries.len(),
{
    if entries.len() > 0 {
        let front = entries.drop_last();
        lemma_entries_fault(front);
        lemma_payload_fault(entries.last().payload);
        assert(forall|i: int| 0 <= i < front.len() ==> #[trigger] front[i] == entries[i]);
        assert(forall|i: int|
            0 <= i < entries.len() - 1 ==> #[trigger] entries[i] == front[i]);
        assert(entries[entries.len() - 1] == entries.last());
        if entries_output(entries).fault is None {
            assert forall|i: int| 0 <= i < entries.len() implies writable(
                (#[trigger] entries[i]).payload,
            ) by {
                if i < front.len() {
                    assert(front[i] == entries[i]);
                }
            }
        }
    }
}

proof fn lemma_nodes_fault(nodes: Seq<NodeView>)
    ensures
        nodes_output(nodes).fault is None <==> forall|i: int|
            0 <= i < nodes.len() ==> writable((#[trigger] nodes[i]).payload),
    decreases nodes.len(),
{
    if nodes.len() > 0 {
        let front = nodes.drop_last();
        lemma_nodes_fault(front);
        lemma_payload_fault(nodes.last().payload);
        assert(forall|i: int| 0 <= i < front.len() ==> #[trigger] front[i] == nodes[i]);
        assert(nodes[nodes.len() - 1] == nodes.last());
        if nodes_output(nodes).fault is None {
            assert forall|i: int| 0 <= i < nodes.len() implies writable(
                (#[trigger] nodes[i]).payload,
            ) by {
                if i < front.len() {
                    assert(front[i] == nodes[i]);
                }
            }
        }
    }
}

/// An index has a snapshot unless a payload has no JSON text or one of more
/// than 16 MiB.
pub proof fn law_snapshot_exists_unless_a_payload_is_too_large(v: AnyView)
    ensures
        encoded(v).fault is None <==> forall|i: int|
            0 <= i < payloads(v).len() ==> writable(#[trigger] payloads(v)[i]),
{
    match v {
        AnyView::Flat(flat) => {
            lemma_entries_fault(flat.entries);
            assert(forall|i: int|
                0 <= i < flat.entries.len() ==> #[trigger] payloads(v)[i]
                    == flat.entries[i].payload);
            if forall|i: int| 0 <= i < payloads(v).len() ==> writable(#[trigger] payloads(v)[i]) {
                assert forall|i: int| 0 <= i < flat.entries.len() implies writable(
                    (#[trigger] flat.entries[i]).payload,
                ) by {
                    assert(writable(payloads(v)[i]));
                }
            }
        },
        AnyView::Hnsw(hnsw) => {
            lemma_nodes_fault(hnsw.nodes);
            assert(forall|i: int|
                0 <= i < hnsw.nodes.len() ==> #[trigger] payloads(v)[i] == hnsw.nodes[i].payload);
            if forall|i: int| 0 <= i < payloads(v).len() ==> writable(#[trigger] payloads(v)[i]) {
                assert forall|i: int| 0 <= i < hnsw.nodes.len() implies writable(
                    (#[trigger] hnsw.nodes[i]).payload,
                ) by {
                    assert(writable(payloads(v)[i]));
                }
            }
        },
    }
}

/// An index that looks at every vector is within the limits of the format if
/// its dimension is not 0 and at most 1048576.
pub proof fn law_flat_limits(v: FlatView)
    requires
        v.wf(),
        1 <= v.dim <= 1048576,
        v.entries.len() <= usize::MAX,
        forall|i: int|
            0 <= i < v.entries.len() ==> ((#[trigger] v.entries[i]).payload matches Some(value)
                ==> value.legible()),
    ensures
        portable(AnyView::Flat(v)),
{
}

/// A graph index is within the limits of the format if its dimension is not 0
/// and at most 1048576, its `m` not 0 and at most 65536, and no node is on more
/// than 64 layers or names more neighbors on one than twice the nodes.
pub proof fn law_graph_limits(v: HnswView)
    requires
        v.wf(),
        1 <= v.dim <= 1048576,
        1 <= v.config.m <= 65536,
        v.max_layer < 64,
        v.nodes.len() <= u32::MAX,
        live_count(v.points()) <= usize::MAX,
        forall|i: int|
            #![trigger v.nodes[i]]
            0 <= i < v.nodes.len() ==> {
                &&& v.nodes[i].neighbors.len() <= 64
                &&& counts_fit(v.nodes[i])
                &&& v.nodes[i].payload matches Some(value) ==> value.legible()
            },
        forall|i: int, l: int|
            #![trigger v.nodes[i].neighbors[l]]
            0 <= i < v.nodes.len() && 0 <= l < v.nodes[i].neighbors.len()
                ==> v.nodes[i].neighbors[l].len() <= 2 * v.nodes.len(),
    ensures
        portable(AnyView::Hnsw(v)),
{
    assert forall|i: int|
        #![trigger v.nodes[i]]
        0 <= i < v.nodes.len() implies crate::format::lists_storable(
        v.nodes[i].neighbors,
        v.nodes.len() as u32,
    ) by {
        let lists = v.nodes[i].neighbors;
        assert forall|l: int| 0 <= l < lists.len() implies {
            &&& (#[trigger] lists[l]).len() <= 2 * v.nodes.len()
            &&& lists[l].len() <= u32::MAX
            &&& forall|j: int|
                0 <= j < lists[l].len() ==> (#[trigger] lists[l][j]) < v.nodes.len()
        } by {
            assert(v.nodes[i].neighbors[l] == lists[l]);
            assert forall|j: int| 0 <= j < lists[l].len() implies (#[trigger] lists[l][j])
                < v.nodes.len() by {
                assert(v.nodes[i].neighbors[l][j] < v.nodes.len());
            }
        }
    }
}

// ---------------------------------------------------------------------------
// What is read
// ---------------------------------------------------------------------------

/// Bytes that begin otherwise than a snapshot are refused for that, those of
/// another version for their version.
pub proof fn law_foreign_bytes_are_refused(data: Seq<u8>)
    requires
        data.len() >= 12,
    ensures
        ({
            let ours = data[0] == 0x56 && data[1] == 0x45 && data[2] == 0x58 && data[3] == 0x53
                && data[4] == 0x4e && data[5] == 0x41 && data[6] == 0x50 && data[7] == 0;
            &&& !ours ==> decoded(data) == Err::<AnyView, Fault>(Fault::BadMagic)
            &&& ours && number_at(data, 8, 4) != 1 ==> decoded(data) == Err::<AnyView, Fault>(
                Fault::UnsupportedVersion(number_at(data, 8, 4) as u32),
            )
        }),
{
    let head = data.subrange(0, 8);
    if data[0] == 0x56 && data[1] == 0x45 && data[2] == 0x58 && data[3] == 0x53 && data[4] == 0x4e
        && data[5] == 0x41 && data[6] == 0x50 && data[7] == 0 {
        assert(head =~= magic());
    } else {
        if head == magic() {
            assert(head[0] == 0x56 && head[1] == 0x45 && head[2] == 0x58 && head[3] == 0x53);
            assert(head[4] == 0x4e && head[5] == 0x41 && head[6] == 0x50 && head[7] == 0);
        }
    }
}

/// Whether vectors are what a snapshot of an index that looks at all of them
/// may hold: all of the dimension, no id twice.
pub open spec fn entries_sound(entries: Seq<EntryView>, dim: nat) -> bool {
    &&& forall|i: int| 0 <= i < entries.len() ==> (#[trigger] entries[i]).vector.len() == dim
    &&& forall|i: int, j: int|
        #![trigger entries[i], entries[j]]
        0 <= i < j < entries.len() ==> entries[i].id != entries[j].id
}

proof fn lemma_entries_read(
    data: Seq<u8>,
    pos: int,
    dim: nat,
    left: nat,
    before: Seq<EntryView>,
)
    requires
        entries_sound(before, dim),
    ensures
        entries_from(data, pos, dim, left, before) matches Ok(entries) ==> entries_sound(
            entries,
            dim,
        ) && entries.len() == before.len() + left,
    decreases left,
{
    if left > 0 {
        match entry_at(data, pos, dim) {
            Err(fault) => {},
            Ok((e, next)) => {
                if !crate::format::has_entry(before, e.id) {
                    let more = before.push(e);
                    assert forall|i: int, j: int|
                        #![trigger more[i], more[j]]
                        0 <= i < j < more.len() implies more[i].id != more[j].id by {
                        assert(more[i] == before[i]);
                        if j < before.len() {
                            assert(more[j] == before[j]);
                        } else {
                            assert(before[i].id != e.id);
                        }
                    }
                    assert(e.vector.len() == dim);
                    lemma_entries_read(data, next, dim, (left - 1) as nat, more);
                }
            },
        }
    }
}

/// Whether a node is what a snapshot may hold: a vector of the dimension, one
/// to 64 layers, neighbors that exist, no more of them on a layer than twice the
/// nodes.
pub open spec fn node_sound(n: NodeView, dim: nat, count: u32) -> bool {
    &&& n.vector.len() == dim
    &&& 1 <= n.neighbors.len() <= 64
    &&& forall|l: int, j: int|
        #![trigger n.neighbors[l][j]]
        0 <= l < n.neighbors.len() && 0 <= j < n.neighbors[l].len() ==> n.neighbors[l][j] < count
    &&& forall|l: int|
        #![trigger n.neighbors[l]]
        0 <= l < n.neighbors.len() ==> n.neighbors[l].len() <= 2 * count
}

/// Whether nodes are what a snapshot may hold: each of them sound, no id on
/// two that are live.
pub open spec fn nodes_sound(nodes: Seq<NodeView>, dim: nat, count: u32) -> bool {
    &&& forall|i: int| 0 <= i < nodes.len() ==> node_sound(#[trigger] nodes[i], dim, count)
    &&& forall|i: int, j: int|
        #![trigger nodes[i], nodes[j]]
        0 <= i < j < nodes.len() && !nodes[i].deleted && !nodes[j].deleted ==> nodes[i].id
            != nodes[j].id
}

proof fn lemma_places_read(data: Seq<u8>, pos: int, left: nat, count: u32, before: Seq<u32>)
    requires
        forall|j: int| 0 <= j < before.len() ==> (#[trigger] before[j]) < count,
    ensures
        places_from(data, pos, left, count, before) matches Ok((list, _)) ==> list.len()
            == before.len() + left && forall|j: int|
            0 <= j < list.len() ==> (#[trigger] list[j]) < count,
    decreases left,
{
    if left > 0 && fits(data, pos, 4) && number_at(data, pos, 4) < count {
        lemma_places_read(
            data,
            pos + 4,
            (left - 1) as nat,
            count,
            before.push(number_at(data, pos, 4) as u32),
        );
    }
}

proof fn lemma_lists_read(data: Seq<u8>, pos: int, left: nat, count: u32, before: Seq<Seq<u32>>)
    requires
        forall|l: int, j: int|
            #![trigger before[l][j]]
            0 <= l < before.len() && 0 <= j < before[l].len() ==> before[l][j] < count,
        forall|l: int| 0 <= l < before.len() ==> (#[trigger] before[l]).len() <= 2 * count,
    ensures
        lists_from(data, pos, left, count, before) matches Ok((lists, _)) ==> lists.len()
            == before.len() + left && forall|l: int, j: int|
            #![trigger lists[l][j]]
            0 <= l < lists.len() && 0 <= j < lists[l].len() ==> lists[l][j] < count,
        lists_from(data, pos, left, count, before) matches Ok((lists, _)) ==> forall|l: int|
            0 <= l < lists.len() ==> (#[trigger] lists[l]).len() <= 2 * count,
    decreases left,
{
    if left > 0 {
        match list_at(data, pos, count) {
            Err(fault) => {},
            Ok((list, next)) => {
                lemma_places_read(data, pos + 4, number_at(data, pos, 4), count, seq![]);
                let more = before.push(list);
                assert forall|l: int, j: int|
                    #![trigger more[l][j]]
                    0 <= l < more.len() && 0 <= j < more[l].len() implies more[l][j] < count by {
                    if l < before.len() {
                        assert(more[l] == before[l]);
                        assert(before[l][j] < count);
                    } else {
                        assert(list[j] < count);
                    }
                }
                lemma_lists_read(data, next, (left - 1) as nat, count, more);
            },
        }
    }
}

proof fn lemma_node_read(data: Seq<u8>, pos: int, dim: nat, count: u32)
    ensures
        node_at(data, pos, dim, count) matches Ok((n, _)) ==> node_sound(n, dim, count),
{
    lemma_lists_read(data, pos + 13, number_at(data, pos + 9, 4), count, seq![]);
}

proof fn lemma_nodes_read(
    data: Seq<u8>,
    pos: int,
    dim: nat,
    left: nat,
    count: u32,
    before: Seq<NodeView>,
)
    requires
        nodes_sound(before, dim, count),
    ensures
        nodes_from(data, pos, dim, left, count, before) matches Ok(nodes) ==> nodes_sound(
            nodes,
            dim,
            count,
        ) && nodes.len() == before.len() + left,
    decreases left,
{
    if left > 0 {
        match node_at(data, pos, dim, count) {
            Err(fault) => {},
            Ok((n, next)) => {
                lemma_node_read(data, pos, dim, count);
                if n.deleted || !crate::format::has_live_node(before, n.id) {
                    let more = before.push(n);
                    assert forall|i: int, j: int|
                        #![trigger more[i], more[j]]
                        0 <= i < j < more.len() && !more[i].deleted
                            && !more[j].deleted implies more[i].id != more[j].id by {
                        assert(more[i] == before[i]);
                        if j < before.len() {
                            assert(more[j] == before[j]);
                        } else {
                            assert(!before[i].deleted);
                        }
                    }
                    assert(nodes_sound(more, dim, count));
                    lemma_nodes_read(data, next, dim, (left - 1) as nat, count, more);
                }
            },
        }
    }
}

/// A payload of more than 16 MiB is refused, whatever it is; one of no bytes is
/// none; every other is what its bytes are read as.
pub proof fn law_payload_is_read_within_its_limit(data: Seq<u8>, pos: int)
    requires
        0 <= pos,
        pos + 4 <= data.len(),
    ensures
        ({
            let len = number_at(data, pos, 4) as int;
            let r = payload_at(data, pos);
            &&& len > 16777216 ==> r is Err
            &&& len == 0 ==> r == Ok::<(Option<JsonView>, int), Fault>((None, pos + 4))
            &&& r matches Ok((payload, end)) ==> end == pos + 4 + len && end <= data.len()
            &&& r matches Ok((Some(value), end)) ==> len > 0 && json_parsed(
                data.subrange(pos + 4, end),
            ) == Ok::<JsonView, Seq<char>>(value)
            &&& 0 < len <= 16777216 && pos + 4 + len <= data.len() && json_parsed(
                data.subrange(pos + 4, pos + 4 + len),
            ) is Ok ==> r is Ok
        }),
{
}

/// A node is marked as removed by 1, as live by 0, and refused with any other
/// byte in that place.
pub proof fn law_flag_is_read_as_zero_or_one(data: Seq<u8>, pos: int, dim: nat, count: u32)
    ensures
        node_at(data, pos, dim, count) matches Ok((n, _)) ==> {
            &&& number_at(data, pos, 8) as u64 == n.id
            &&& n.deleted ==> number_at(data, pos + 8, 1) == 1
            &&& !n.deleted ==> number_at(data, pos + 8, 1) == 0
            &&& n.neighbors.len() == number_at(data, pos + 9, 4)
        },
{
    lemma_lists_read(data, pos + 13, number_at(data, pos + 9, 4), count, seq![]);
}

/// What is read as an index is one, within the limits of the format, and
/// stands in the bytes where a snapshot has it.
pub proof fn law_what_is_read_is_sound(data: Seq<u8>)
    ensures
        decoded(data) matches Ok(AnyView::Flat(v)) ==> {
            &&& headed(data, 0, v.metric, v.dim)
            &&& 1 <= v.dim <= 1048576
            &&& v.entries.len() == number_at(data, 24, 8)
            &&& entries_sound(v.entries, v.dim as nat)
        },
        decoded(data) matches Ok(AnyView::Hnsw(v)) ==> {
            &&& headed(data, 1, v.metric, v.dim)
            &&& 1 <= v.dim <= 1048576
            &&& 1 <= v.config.m <= 65536
            &&& v.config.m == number_at(data, 24, 8)
            &&& v.config.ef_construction == number_at(data, 32, 8)
            &&& v.config.ef_search == number_at(data, 40, 8)
            &&& v.config.seed == number_at(data, 48, 8)
            &&& v.rng == number_at(data, 56, 8)
            &&& v.entry is None <==> number_at(data, 64, 8) == 0xffff_ffff_ffff_ffff
            &&& v.entry is Some ==> v.entry->Some_0 == number_at(data, 64, 8)
                && v.entry->Some_0 < v.nodes.len() && v.nodes[v.entry->Some_0 as int].neighbors.len()
                > v.max_layer
            &&& v.max_layer < 64
            &&& v.max_layer == number_at(data, 72, 8)
            &&& live_count(v.points()) == number_at(data, 80, 8)
            &&& v.nodes.len() == number_at(data, 88, 8)
            &&& nodes_sound(v.nodes, v.dim as nat, v.nodes.len() as u32)
            &&& layered(v.nodes)
        },
{
    if decoded(data) is Ok {
        let head = data.subrange(0, 8);
        assert(head == magic());
        assert(head[0] == 0x56 && head[1] == 0x45 && head[2] == 0x58 && head[3] == 0x53);
        assert(head[4] == 0x4e && head[5] == 0x41 && head[6] == 0x50 && head[7] == 0);
        lemma_le_bounds();
        crate::codec::lemma_le_value_bound(data.subrange(12, 13));
        crate::codec::lemma_le_value_bound(data.subrange(13, 14));
        crate::codec::lemma_le_value_bound(data.subrange(48, 56));
        crate::codec::lemma_le_value_bound(data.subrange(56, 64));
        match decoded(data)->Ok_0 {
            AnyView::Flat(v) => {
                lemma_entries_read(data, 32, v.dim as nat, number_at(data, 24, 8), seq![]);
            },
            AnyView::Hnsw(v) => {
                lemma_nodes_read(
                    data,
                    96,
                    v.dim as nat,
                    number_at(data, 88, 8),
                    number_at(data, 88, 8) as u32,
                    seq![],
                );
            },
        }
    }
}

} // verus!
