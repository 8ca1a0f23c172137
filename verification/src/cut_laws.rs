//! No part of a snapshot passes for a snapshot.
use crate::codec::{
    le_bytes, lemma_le_bounds, lemma_le_bytes_len, lemma_number_stands, lemma_stands_split,
    number_at, stands_at, Fault,
};
use crate::distance::DistanceMetric;
use crate::flat::{EntryView, FlatView};
use crate::format::{
    decoded, encoded, entries_from, entries_output, entry_at, entry_output, fields_at, flag_byte,
    flat_output, header_at, header_bytes, hnsw_fields, hnsw_output, lemma_byte_stands,
    lemma_entries_prefix, lemma_lists_prefix, lemma_nodes_prefix, lemma_words_len, list_at,
    list_bytes, lists_bytes, lists_from, magic, node_at, node_head, node_output, nodes_from,
    nodes_output, payload_and_vector_at, payload_at, payload_output, places_from, words_bytes,
    AnyView, Header, Parsed, FORMAT_VERSION, TYPE_FLAT, TYPE_HNSW,
};
use crate::format_laws::lemma_stands_before;
use crate::graph::NodeView;
use crate::hnsw::HnswView;
use crate::json::JsonView;
use crate::records::live_count;
use vstd::prelude::*;

verus! {

/// Whether all vectors have the dimension and every count fits the field that
/// the format has for it.
pub open spec fn framed(v: AnyView) -> bool {
    match v {
        AnyView::Flat(f) => {
            &&& f.entries.len() < 0x1_0000_0000_0000_0000
            &&& forall|i: int|
                0 <= i < f.entries.len() ==> (#[trigger] f.entries[i]).vector.len() == f.dim
        },
        AnyView::Hnsw(h) => {
            &&& h.nodes.len() < 0x1_0000_0000_0000_0000
            &&& forall|i: int|
                0 <= i < h.nodes.len() ==> node_framed(#[trigger] h.nodes[i], h.dim as nat)
        },
    }
}

/// The same of a node.
pub open spec fn node_framed(n: NodeView, dim: nat) -> bool {
    &&& n.vector.len() == dim
    &&& n.neighbors.len() < 0x1_0000_0000
    &&& forall|l: int|
        0 <= l < n.neighbors.len() ==> (#[trigger] n.neighbors[l]).len() < 0x1_0000_0000
}

/// Whether reading came to nothing but a corrupt snapshot.
pub open spec fn refused<T>(r: Result<T, Fault>) -> bool {
    r matches Err(Fault::Corrupt(_))
}

/// Whether reading what ends at a place was refused, or got there before the
/// cut.
spec fn lands<T>(r: Parsed<T>, end: int, n: int) -> bool {
    match r {
        Ok((_, at)) => at == end && end <= n,
        Err(fault) => fault is Corrupt,
    }
}

proof fn lemma_payload_lands(data: Seq<u8>, n: int, pos: int, payload: Option<JsonView>)
    requires
        payload_output(payload).fault is None,
        stands_at(data, pos, payload_output(payload).bytes),
        pos <= n <= data.len(),
    ensures
        lands(payload_at(data.take(n), pos), pos + payload_output(payload).bytes.len(), n),
{
    let short = data.take(n);
    lemma_le_bounds();
    match payload {
        None => {
            lemma_le_bytes_len(0, 4);
            if pos + 4 <= n {
                lemma_stands_before(data, n, pos, le_bytes(0, 4));
                lemma_number_stands(short, pos, 0, 4);
            }
        },
        Some(value) => {
            let text = crate::json::json_text(value)->Ok_0;
            lemma_le_bytes_len(text.len(), 4);
            lemma_stands_split(data, pos, le_bytes(text.len(), 4), text);
            if pos + 4 <= n {
                lemma_stands_before(data, n, pos, le_bytes(text.len(), 4));
                lemma_number_stands(short, pos, text.len(), 4);
            }
        },
    }
}

proof fn lemma_tail_lands(
    data: Seq<u8>,
    n: int,
    pos: int,
    payload: Option<JsonView>,
    vector: Seq<u32>,
)
    requires
        payload_output(payload).fault is None,
        stands_at(data, pos, payload_output(payload).bytes + words_bytes(vector)),
        pos <= n <= data.len(),
    ensures
        lands(
            payload_and_vector_at(data.take(n), pos, vector.len()),
            pos + payload_output(payload).bytes.len() + words_bytes(vector).len(),
            n,
        ),
{
    lemma_stands_split(data, pos, payload_output(payload).bytes, words_bytes(vector));
    lemma_words_len(vector);
    lemma_payload_lands(data, n, pos, payload);
}

proof fn lemma_entry_lands(data: Seq<u8>, n: int, pos: int, e: EntryView)
    requires
        entry_output(e).fault is None,
        stands_at(data, pos, entry_output(e).bytes),
        pos <= n <= data.len(),
    ensures
        lands(entry_at(data.take(n), pos, e.vector.len()), pos + entry_output(e).bytes.len(), n),
{
    let head = le_bytes(e.id as nat, 8);
    let tail = payload_output(e.payload).bytes + words_bytes(e.vector);
    lemma_le_bytes_len(e.id as nat, 8);
    lemma_stands_split(data, pos, head, tail);
    if pos + 8 <= n {
        lemma_tail_lands(data, n, pos + 8, e.payload, e.vector);
    }
}

proof fn lemma_entries_refused(
    data: Seq<u8>,
    n: int,
    pos: int,
    dim: nat,
    entries: Seq<EntryView>,
    i: int,
    before: Seq<EntryView>,
)
    requires
        0 <= i <= entries.len(),
        entries_output(entries).fault is None,
        stands_at(data, pos, entries_output(entries).bytes),
        forall|j: int| 0 <= j < entries.len() ==> (#[trigger] entries[j]).vector.len() == dim,
        pos + entries_output(entries.take(i)).bytes.len() <= n < pos + entries_output(
            entries,
        ).bytes.len(),
    ensures
        refused(
            entries_from(
                data.take(n),
                pos + entries_output(entries.take(i)).bytes.len(),
                dim,
                (entries.len() - i) as nat,
                before,
            ),
        ),
    decreases entries.len() - i,
{
    if i == entries.len() {
        assert(entries.take(i) =~= entries);
    } else {
        let done = entries.take(i);
        let more = entries.take(i + 1);
        let e = entries[i];
        let at = pos + entries_output(done).bytes.len();
        lemma_entries_prefix(data, pos, entries, i + 1);
        assert(more.drop_last() =~= done);
        assert(more.last() == e);
        lemma_stands_split(data, pos, entries_output(done).bytes, entry_output(e).bytes);
        lemma_entry_lands(data, n, at, e);
        match entry_at(data.take(n), at, dim) {
            Err(_) => {},
            Ok((read, _)) => {
                lemma_entries_refused(data, n, pos, dim, entries, i + 1, before.push(read));
            },
        }
    }
}

proof fn lemma_header_lands(
    data: Seq<u8>,
    n: int,
    index_type: u8,
    metric: DistanceMetric,
    dim: usize,
)
    requires
        stands_at(data, 0, header_bytes(index_type, metric, dim)),
        index_type == TYPE_FLAT || index_type == TYPE_HNSW,
        0 <= n <= data.len(),
    ensures
        header_bytes(index_type, metric, dim).len() == 24,
        refused(header_at(data.take(n))) || (n >= 24 && header_at(data.take(n)) == Ok::<
            Header,
            Fault,
        >(Header { index_type, metric, dim })),
{
    let short = data.take(n);
    let f = le_bytes(0, 2) + le_bytes(dim as nat, 8);
    let e = seq![metric.tag()] + f;
    let d = seq![index_type] + e;
    let c = le_bytes(FORMAT_VERSION as nat, 4) + d;
    lemma_le_bounds();
    lemma_le_bytes_len(FORMAT_VERSION as nat, 4);
    lemma_le_bytes_len(0, 2);
    lemma_le_bytes_len(dim as nat, 8);
    lemma_stands_split(data, 0, magic(), c);
    lemma_stands_split(data, 8, le_bytes(FORMAT_VERSION as nat, 4), d);
    lemma_stands_split(data, 12, seq![index_type], e);
    lemma_stands_split(data, 13, seq![metric.tag()], f);
    lemma_stands_split(data, 14, le_bytes(0, 2), le_bytes(dim as nat, 8));
    if n >= 8 {
        lemma_stands_before(data, n, 0, magic());
    }
    if n >= 12 {
        lemma_stands_before(data, n, 8, le_bytes(FORMAT_VERSION as nat, 4));
        lemma_number_stands(short, 8, FORMAT_VERSION as nat, 4);
    }
    if n >= 13 {
        lemma_stands_before(data, n, 12, seq![index_type]);
        lemma_byte_stands(short, 12, index_type);
    }
    if n >= 14 {
        lemma_stands_before(data, n, 13, seq![metric.tag()]);
        lemma_byte_stands(short, 13, metric.tag());
    }
    if n >= 16 {
        lemma_stands_before(data, n, 14, le_bytes(0, 2));
        lemma_number_stands(short, 14, 0, 2);
    }
    if n >= 24 {
        lemma_stands_before(data, n, 16, le_bytes(dim as nat, 8));
        lemma_number_stands(short, 16, dim as nat, 8);
    }
}

proof fn lemma_flat_refused(v: FlatView, data: Seq<u8>, n: int)
    requires
        framed(AnyView::Flat(v)),
        flat_output(v).fault is None,
        stands_at(data, 0, flat_output(v).bytes),
        0 <= n < flat_output(v).bytes.len(),
    ensures
        refused(decoded(data.take(n))),
{
    let short = data.take(n);
    let head = header_bytes(TYPE_FLAT, v.metric, v.dim);
    let count = le_bytes(v.entries.len(), 8);
    let body = entries_output(v.entries).bytes;
    lemma_stands_split(data, 0, head + count, body);
    lemma_stands_split(data, 0, head, count);
    lemma_header_lands(data, n, TYPE_FLAT, v.metric, v.dim);
    lemma_le_bytes_len(v.entries.len(), 8);
    lemma_le_bounds();
    if n >= 32 {
        lemma_stands_before(data, n, 24, count);
        lemma_number_stands(short, 24, v.entries.len(), 8);
        assert(v.entries.take(0) =~= seq![]);
        assert((head + count).len() == 32);
        lemma_entries_refused(data, n, 32, v.dim as nat, v.entries, 0, seq![]);
    }
}

proof fn lemma_places_land(
    data: Seq<u8>,
    n: int,
    pos: int,
    left: nat,
    count: u32,
    before: Seq<u32>,
)
    requires
        0 <= pos <= n <= data.len(),
    ensures
        lands(places_from(data.take(n), pos, left, count, before), pos + 4 * left, n),
    decreases left,
{
    let nb = number_at(data.take(n), pos, 4);
    if left > 0 && pos + 4 <= n {
        lemma_places_land(data, n, pos + 4, (left - 1) as nat, count, before.push(nb as u32));
    }
}

proof fn lemma_list_lands(data: Seq<u8>, n: int, pos: int, count: u32, list: Seq<u32>)
    requires
        stands_at(data, pos, list_bytes(list)),
        list.len() < 0x1_0000_0000,
        pos <= n <= data.len(),
    ensures
        lands(list_at(data.take(n), pos, count), pos + list_bytes(list).len(), n),
{
    lemma_le_bytes_len(list.len(), 4);
    lemma_words_len(list);
    lemma_le_bounds();
    lemma_stands_split(data, pos, le_bytes(list.len(), 4), words_bytes(list));
    if pos + 4 <= n {
        lemma_stands_before(data, n, pos, le_bytes(list.len(), 4));
        lemma_number_stands(data.take(n), pos, list.len(), 4);
        lemma_places_land(data, n, pos + 4, list.len(), count, seq![]);
    }
}

proof fn lemma_lists_land(
    data: Seq<u8>,
    n: int,
    pos: int,
    count: u32,
    lists: Seq<Seq<u32>>,
    i: int,
    before: Seq<Seq<u32>>,
)
    requires
        0 <= i <= lists.len(),
        stands_at(data, pos, lists_bytes(lists)),
        forall|l: int| 0 <= l < lists.len() ==> (#[trigger] lists[l]).len() < 0x1_0000_0000,
        pos + lists_bytes(lists.take(i)).len() <= n <= data.len(),
    ensures
        lands(
            lists_from(
                data.take(n),
                pos + lists_bytes(lists.take(i)).len(),
                (lists.len() - i) as nat,
                count,
                before,
            ),
            pos + lists_bytes(lists).len(),
            n,
        ),
    decreases lists.len() - i,
{
    if i == lists.len() {
        assert(lists.take(i) =~= lists);
    } else {
        let done = lists.take(i);
        let more = lists.take(i + 1);
        let list = lists[i];
        let at = pos + lists_bytes(done).len();
        lemma_lists_prefix(data, pos, lists, i + 1);
        assert(more.drop_last() =~= done);
        assert(more.last() == list);
        lemma_stands_split(data, pos, lists_bytes(done), list_bytes(list));
        lemma_list_lands(data, n, at, count, list);
        match list_at(data.take(n), at, count) {
            Err(_) => {},
            Ok((read, _)) => {
                lemma_lists_land(data, n, pos, count, lists, i + 1, before.push(read));
            },
        }
    }
}

proof fn lemma_node_lands(data: Seq<u8>, n: int, pos: int, count: u32, node: NodeView)
    requires
        node_output(node).fault is None,
        stands_at(data, pos, node_output(node).bytes),
        node_framed(node, node.vector.len()),
        pos <= n <= data.len(),
    ensures
        lands(
            node_at(data.take(n), pos, node.vector.len(), count),
            pos + node_output(node).bytes.len(),
            n,
        ),
{
    let short = data.take(n);
    let id = le_bytes(node.id as nat, 8);
    let flag = seq![flag_byte(node.deleted)];
    let layers = le_bytes(node.neighbors.len(), 4);
    let lists = lists_bytes(node.neighbors);
    let tail = payload_output(node.payload).bytes + words_bytes(node.vector);
    lemma_le_bounds();
    lemma_le_bytes_len(node.id as nat, 8);
    lemma_le_bytes_len(node.neighbors.len(), 4);
    lemma_stands_split(data, pos, node_head(node), tail);
    lemma_stands_split(data, pos, id, flag + (layers + lists));
    lemma_stands_split(data, pos + 8, flag, layers + lists);
    lemma_stands_split(data, pos + 9, layers, lists);
    assert(node.neighbors.take(0) =~= seq![]);
    if pos + 9 <= n {
        lemma_stands_before(data, n, pos + 8, flag);
        lemma_byte_stands(short, pos + 8, flag_byte(node.deleted));
    }
    if pos + 13 <= n {
        lemma_stands_before(data, n, pos + 9, layers);
        lemma_number_stands(short, pos + 9, node.neighbors.len(), 4);
        lemma_lists_land(data, n, pos + 13, count, node.neighbors, 0, seq![]);
        if pos + 13 + lists.len() <= n {
            lemma_tail_lands(data, n, pos + 13 + lists.len(), node.payload, node.vector);
        }
    }
}

proof fn lemma_nodes_refused(
    data: Seq<u8>,
    n: int,
    pos: int,
    dim: nat,
    count: u32,
    nodes: Seq<NodeView>,
    i: int,
    before: Seq<NodeView>,
)
    requires
        0 <= i <= nodes.len(),
        nodes_output(nodes).fault is None,
        stands_at(data, pos, nodes_output(nodes).bytes),
        forall|j: int| 0 <= j < nodes.len() ==> node_framed(#[trigger] nodes[j], dim),
        pos + nodes_output(nodes.take(i)).bytes.len() <= n < pos + nodes_output(nodes).bytes.len(),
    ensures
        refused(
            nodes_from(
                data.take(n),
                pos + nodes_output(nodes.take(i)).bytes.len(),
                dim,
                (nodes.len() - i) as nat,
                count,
                before,
            ),
        ),
    decreases nodes.len() - i,
{
    if i == nodes.len() {
        assert(nodes.take(i) =~= nodes);
    } else {
        let done = nodes.take(i);
        let more = nodes.take(i + 1);
        let node = nodes[i];
        let at = pos + nodes_output(done).bytes.len();
        lemma_nodes_prefix(data, pos, nodes, i + 1);
        assert(more.drop_last() =~= done);
        assert(more.last() == node);
        lemma_stands_split(data, pos, nodes_output(done).bytes, node_output(node).bytes);
        lemma_node_lands(data, n, at, count, node);
        match node_at(data.take(n), at, dim, count) {
            Err(_) => {},
            Ok((read, _)) => {
                lemma_nodes_refused(data, n, pos, dim, count, nodes, i + 1, before.push(read));
            },
        }
    }
}

/// The last of the fields behind the header is the number of nodes.
proof fn lemma_node_count_stands(v: HnswView, data: Seq<u8>)
    requires
        stands_at(data, 24, hnsw_fields(v)),
        v.nodes.len() < 0x1_0000_0000_0000_0000,
    ensures
        hnsw_fields(v).len() == 72,
        number_at(data, 88, 8) == v.nodes.len(),
{
    let live = live_count(v.points());
    let count = v.nodes.len();
    let entry = crate::format::entry_number(v.entry) as nat;
    let f8 = le_bytes(live, 8) + le_bytes(count, 8);
    let f7 = le_bytes(v.max_layer as nat, 8) + f8;
    let f6 = le_bytes(entry, 8) + f7;
    let f5 = le_bytes(v.rng as nat, 8) + f6;
    let f4 = le_bytes(v.config.seed as nat, 8) + f5;
    let f3 = le_bytes(v.config.ef_search as nat, 8) + f4;
    let f2 = le_bytes(v.config.ef_construction as nat, 8) + f3;
    lemma_le_bounds();
    lemma_le_bytes_len(v.config.m as nat, 8);
    lemma_le_bytes_len(v.config.ef_construction as nat, 8);
    lemma_le_bytes_len(v.config.ef_search as nat, 8);
    lemma_le_bytes_len(v.config.seed as nat, 8);
    lemma_le_bytes_len(v.rng as nat, 8);
    lemma_le_bytes_len(entry, 8);
    lemma_le_bytes_len(v.max_layer as nat, 8);
    lemma_le_bytes_len(live, 8);
    lemma_le_bytes_len(count, 8);
    lemma_stands_split(data, 24, le_bytes(v.config.m as nat, 8), f2);
    lemma_stands_split(data, 32, le_bytes(v.config.ef_construction as nat, 8), f3);
    lemma_stands_split(data, 40, le_bytes(v.config.ef_search as nat, 8), f4);
    lemma_stands_split(data, 48, le_bytes(v.config.seed as nat, 8), f5);
    lemma_stands_split(data, 56, le_bytes(v.rng as nat, 8), f6);
    lemma_stands_split(data, 64, le_bytes(entry, 8), f7);
    lemma_stands_split(data, 72, le_bytes(v.max_layer as nat, 8), f8);
    lemma_stands_split(data, 80, le_bytes(live, 8), le_bytes(count, 8));
    lemma_number_stands(data, 88, count, 8);
}

proof fn lemma_fields_land(v: HnswView, data: Seq<u8>, n: int)
    requires
        stands_at(data, 24, hnsw_fields(v)),
        v.nodes.len() < 0x1_0000_0000_0000_0000,
        24 <= n <= data.len(),
    ensures
        match fields_at(data.take(n)) {
            Ok(fields) => n >= 96 && fields.node_count == v.nodes.len(),
            Err(fault) => fault is Corrupt,
        },
{
    lemma_node_count_stands(v, data);
    if n >= 96 {
        assert(data.take(n).subrange(88, 96) =~= data.subrange(88, 96));
    }
}

proof fn lemma_hnsw_refused(v: HnswView, data: Seq<u8>, n: int)
    requires
        framed(AnyView::Hnsw(v)),
        hnsw_output(v).fault is None,
        stands_at(data, 0, hnsw_output(v).bytes),
        0 <= n < hnsw_output(v).bytes.len(),
    ensures
        refused(decoded(data.take(n))),
{
    let head = header_bytes(TYPE_HNSW, v.metric, v.dim);
    let fields = hnsw_fields(v);
    let body = nodes_output(v.nodes).bytes;
    lemma_stands_split(data, 0, head + fields, body);
    lemma_stands_split(data, 0, head, fields);
    lemma_header_lands(data, n, TYPE_HNSW, v.metric, v.dim);
    lemma_node_count_stands(v, data);
    assert((head + fields).len() == 96);
    if n >= 24 {
        lemma_fields_land(v, data, n);
        if n >= 96 {
            assert(v.nodes.take(0) =~= seq![]);
            lemma_nodes_refused(
                data,
                n,
                96,
                v.dim as nat,
                v.nodes.len() as u32,
                v.nodes,
                0,
                seq![],
            );
        }
    }
}

/// No part of a snapshot passes for a snapshot: wherever it is cut short, it
/// is refused as corrupt, whether the whole of it is within the limits of the
/// format or not.
pub proof fn law_part_of_a_snapshot_is_corrupt(v: AnyView, n: int)
    requires
        framed(v),
        encoded(v).fault is None,
        0 <= n < encoded(v).bytes.len(),
    ensures
        refused(decoded(encoded(v).bytes.take(n))),
{
    let bytes = encoded(v).bytes;
    assert(bytes.subrange(0, bytes.len() as int) =~= bytes);
    match v {
        AnyView::Flat(f) => lemma_flat_refused(f, bytes, n),
        AnyView::Hnsw(h) => lemma_hnsw_refused(h, bytes, n),
    }
}

} // verus!
