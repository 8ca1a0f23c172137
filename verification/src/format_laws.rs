//! A snapshot that was cut short is refused.
use crate::codec::{
    cut_short, le_bytes, lemma_le_bounds, lemma_le_bytes_len, lemma_number_stands,
    lemma_stands_split, number_at, stands_at, Fault,
};
use crate::distance::DistanceMetric;
use crate::flat::{EntryView, FlatView};
use crate::format::{
    decoded, encoded, entries_from, entries_output, entry_at, entry_output, fields_at, flag_byte,
    flat_output, flat_storable, has_entry, has_live_node, header_at, header_bytes, hnsw_fields,
    hnsw_output, hnsw_storable, lemma_byte_stands, lemma_entries_prefix, lemma_entry_reads_back,
    lemma_fields_read_back, lemma_header_reads_back, lemma_list_reads_back, lemma_lists_prefix,
    lemma_node_reads_back, lemma_nodes_prefix, lemma_payload_reads_back, lemma_words_len,
    lemma_words_stand, list_at, list_bytes, lists_bytes, lists_from, lists_storable, magic, node_at,
    node_head, node_output, node_storable, nodes_from, nodes_output, payload_and_vector_at,
    payload_output, places_from, reads_back, storable, words_bytes, AnyView, Header, HnswFields,
    FORMAT_VERSION, MAX_LAYERS, MAX_SNAPSHOT_DIM, TYPE_FLAT, TYPE_HNSW,
};
use crate::graph::NodeView;
use crate::hnsw::HnswView;
use crate::json::JsonView;
use vstd::prelude::*;

verus! {

/// What stands in front of the cut stands there still.
pub(crate) proof fn lemma_stands_before(data: Seq<u8>, n: int, pos: int, bytes: Seq<u8>)
    requires
        stands_at(data, pos, bytes),
        pos + bytes.len() <= n <= data.len(),
    ensures
        stands_at(data.take(n), pos, bytes),
{
    assert(data.take(n).subrange(pos, pos + bytes.len()) =~= data.subrange(
        pos,
        pos + bytes.len(),
    ));
}

proof fn lemma_tail_cut(
    data: Seq<u8>,
    n: int,
    pos: int,
    payload: Option<JsonView>,
    vector: Seq<u32>,
)
    requires
        payload_output(payload).fault is None,
        reads_back(payload),
        stands_at(data, pos, payload_output(payload).bytes + words_bytes(vector)),
        pos <= n < pos + payload_output(payload).bytes.len() + words_bytes(vector).len(),
    ensures
        payload_and_vector_at(data.take(n), pos, vector.len()) == Err::<
            ((Option<JsonView>, Seq<u32>), int),
            Fault,
        >(cut_short()),
{
    let short = data.take(n);
    let head = payload_output(payload).bytes;
    lemma_stands_split(data, pos, head, words_bytes(vector));
    lemma_words_len(vector);
    lemma_le_bounds();
    if pos + head.len() <= n {
        lemma_stands_before(data, n, pos, head);
        lemma_payload_reads_back(short, pos, payload);
    } else {
        match payload {
            None => {
                lemma_le_bytes_len(0, 4);
            },
            Some(value) => {
                let text = crate::json::json_text(value)->Ok_0;
                lemma_le_bytes_len(text.len(), 4);
                if pos + 4 <= n {
                    lemma_stands_split(data, pos, le_bytes(text.len(), 4), text);
                    lemma_stands_before(data, n, pos, le_bytes(text.len(), 4));
                    lemma_number_stands(short, pos, text.len(), 4);
                }
            },
        }
    }
}

proof fn lemma_entry_cut(data: Seq<u8>, n: int, pos: int, e: EntryView)
    requires
        entry_output(e).fault is None,
        reads_back(e.payload),
        stands_at(data, pos, entry_output(e).bytes),
        pos <= n < pos + entry_output(e).bytes.len(),
    ensures
        entry_at(data.take(n), pos, e.vector.len()) == Err::<(EntryView, int), Fault>(cut_short()),
{
    let head = le_bytes(e.id as nat, 8);
    let tail = payload_output(e.payload).bytes + words_bytes(e.vector);
    lemma_le_bytes_len(e.id as nat, 8);
    lemma_stands_split(data, pos, head, tail);
    if pos + 8 <= n {
        lemma_tail_cut(data, n, pos + 8, e.payload, e.vector);
    }
}

proof fn lemma_entries_cut(
    data: Seq<u8>,
    n: int,
    pos: int,
    dim: nat,
    entries: Seq<EntryView>,
    i: int,
)
    requires
        0 <= i <= entries.len(),
        entries_output(entries).fault is None,
        stands_at(data, pos, entries_output(entries).bytes),
        forall|j: int|
            0 <= j < entries.len() ==> (#[trigger] entries[j]).vector.len() == dim && reads_back(
                entries[j].payload,
            ),
        forall|a: int, b: int|
            #![trigger entries[a], entries[b]]
            0 <= a < b < entries.len() ==> entries[a].id != entries[b].id,
        pos + entries_output(entries.take(i)).bytes.len() <= n < pos + entries_output(
            entries,
        ).bytes.len(),
    ensures
        entries_from(
            data.take(n),
            pos + entries_output(entries.take(i)).bytes.len(),
            dim,
            (entries.len() - i) as nat,
            entries.take(i),
        ) == Err::<Seq<EntryView>, Fault>(cut_short()),
    decreases entries.len() - i,
{
    if i == entries.len() {
        assert(entries.take(i) =~= entries);
    } else {
        let before = entries.take(i);
        let more = entries.take(i + 1);
        let e = entries[i];
        let at = pos + entries_output(before).bytes.len();
        lemma_entries_prefix(data, pos, entries, i + 1);
        assert(more.drop_last() =~= before);
        assert(more.last() == e);
        lemma_stands_split(data, pos, entries_output(before).bytes, entry_output(e).bytes);
        if n < at + entry_output(e).bytes.len() {
            lemma_entry_cut(data, n, at, e);
        } else {
            lemma_stands_before(data, n, at, entry_output(e).bytes);
            lemma_entry_reads_back(data.take(n), at, e);
            assert(!has_entry(before, e.id)) by {
                if has_entry(before, e.id) {
                    let j = choose|j: int|
                        0 <= j < before.len() && (#[trigger] before[j]).id == e.id;
                    assert(before[j] == entries[j]);
                }
            }
            assert(before.push(e) =~= more);
            lemma_entries_cut(data, n, pos, dim, entries, i + 1);
        }
    }
}

proof fn lemma_header_cut(
    data: Seq<u8>,
    n: int,
    index_type: u8,
    metric: DistanceMetric,
    dim: usize,
)
    requires
        stands_at(data, 0, header_bytes(index_type, metric, dim)),
        index_type == TYPE_FLAT || index_type == TYPE_HNSW,
        1 <= dim <= MAX_SNAPSHOT_DIM,
        0 <= n < 24,
    ensures
        header_at(data.take(n)) == Err::<Header, Fault>(cut_short()),
{
    let short = data.take(n);
    let f = le_bytes(0, 2) + le_bytes(dim as nat, 8);
    let e = seq![metric.tag()] + f;
    let d = seq![index_type] + e;
    let c = le_bytes(FORMAT_VERSION as nat, 4) + d;
    lemma_le_bounds();
    lemma_le_bytes_len(FORMAT_VERSION as nat, 4);
    lemma_le_bytes_len(0, 2);
    lemma_le_bytes_len(dim as nat, 8);
    lemma_stands_split(data, 0, magic(), c);
    lemma_stands_split(data, 8, le_bytes(FORMAT_VERSION as nat, 4), d);
    lemma_stands_split(data, 12, seq![index_type], e);
    lemma_stands_split(data, 13, seq![metric.tag()], f);
    lemma_stands_split(data, 14, le_bytes(0, 2), le_bytes(dim as nat, 8));
    if n >= 8 {
        lemma_stands_before(data, n, 0, magic());
    }
    if n >= 12 {
        lemma_stands_before(data, n, 8, le_bytes(FORMAT_VERSION as nat, 4));
        lemma_number_stands(short, 8, FORMAT_VERSION as nat, 4);
    }
    if n >= 13 {
        lemma_stands_before(data, n, 12, seq![index_type]);
        lemma_byte_stands(short, 12, index_type);
    }
    if n >= 14 {
        lemma_stands_before(data, n, 13, seq![metric.tag()]);
        lemma_byte_stands(short, 13, metric.tag());
    }
    if n >= 16 {
        lemma_stands_before(data, n, 14, le_bytes(0, 2));
        lemma_number_stands(short, 14, 0, 2);
    }
}

proof fn lemma_flat_cut(v: FlatView, data: Seq<u8>, n: int)
    requires
        flat_storable(v),
        flat_output(v).fault is None,
        stands_at(data, 0, flat_output(v).bytes),
        0 <= n < flat_output(v).bytes.len(),
    ensures
        decoded(data.take(n)) == Err::<AnyView, Fault>(cut_short()),
{
    let short = data.take(n);
    let head = header_bytes(TYPE_FLAT, v.metric, v.dim);
    let count = le_bytes(v.entries.len(), 8);
    let body = entries_output(v.entries).bytes;
    lemma_stands_split(data, 0, head + count, body);
    lemma_stands_split(data, 0, head, count);
    lemma_header_reads_back(data, TYPE_FLAT, v.metric, v.dim);
    lemma_le_bytes_len(v.entries.len(), 8);
    lemma_le_bounds();
    if n < 24 {
        lemma_header_cut(data, n, TYPE_FLAT, v.metric, v.dim);
    } else {
        lemma_stands_before(data, n, 0, head);
        lemma_header_reads_back(short, TYPE_FLAT, v.metric, v.dim);
        if n >= 32 {
            lemma_stands_before(data, n, 24, count);
            lemma_number_stands(short, 24, v.entries.len(), 8);
            assert(v.entries.take(0) =~= seq![]);
            assert((head + count).len() == 32);
            lemma_entries_cut(data, n, 32, v.dim as nat, v.entries, 0);
        }
    }
}

proof fn lemma_places_cut(data: Seq<u8>, n: int, pos: int, count: u32, list: Seq<u32>, i: int)
    requires
        0 <= i <= list.len(),
        stands_at(data, pos, words_bytes(list)),
        forall|j: int| 0 <= j < list.len() ==> (#[trigger] list[j]) < count,
        pos + 4 * i <= n < pos + 4 * list.len(),
    ensures
        places_from(data.take(n), pos + 4 * i, (list.len() - i) as nat, count, list.take(i))
            == Err::<(Seq<u32>, int), Fault>(cut_short()),
    decreases list.len() - i,
{
    lemma_words_len(list);
    if i < list.len() && pos + 4 * i + 4 <= n {
        lemma_words_stand(data, pos, list);
        assert(data.take(n).subrange(pos + 4 * i, pos + 4 * i + 4) =~= data.subrange(
            pos + 4 * i,
            pos + 4 * i + 4,
        ));
        assert(number_at(data.take(n), pos + 4 * i, 4) == list[i]);
        assert(list.take(i).push(list[i]) =~= list.take(i + 1));
        lemma_places_cut(data, n, pos, count, list, i + 1);
    }
}

proof fn lemma_list_cut(data: Seq<u8>, n: int, pos: int, count: u32, list: Seq<u32>)
    requires
        stands_at(data, pos, list_bytes(list)),
        list.len() <= 2 * count,
        list.len() <= u32::MAX,
        forall|j: int| 0 <= j < list.len() ==> (#[trigger] list[j]) < count,
        pos <= n < pos + list_bytes(list).len(),
    ensures
        list_at(data.take(n), pos, count) == Err::<(Seq<u32>, int), Fault>(cut_short()),
{
    lemma_le_bytes_len(list.len(), 4);
    lemma_words_len(list);
    lemma_le_bounds();
    lemma_stands_split(data, pos, le_bytes(list.len(), 4), words_bytes(list));
    if pos + 4 <= n {
        lemma_stands_before(data, n, pos, le_bytes(list.len(), 4));
        lemma_number_stands(data.take(n), pos, list.len(), 4);
        assert(list.take(0) =~= seq![]);
        lemma_places_cut(data, n, pos + 4, count, list, 0);
    }
}

proof fn lemma_lists_cut(
    data: Seq<u8>,
    n: int,
    pos: int,
    count: u32,
    lists: Seq<Seq<u32>>,
    i: int,
)
    requires
        0 <= i <= lists.len(),
        stands_at(data, pos, lists_bytes(lists)),
        lists_storable(lists, count),
        pos + lists_bytes(lists.take(i)).len() <= n < pos + lists_bytes(lists).len(),
    ensures
        lists_from(
            data.take(n),
            pos + lists_bytes(lists.take(i)).len(),
            (lists.len() - i) as nat,
            count,
            lists.take(i),
        ) == Err::<(Seq<Seq<u32>>, int), Fault>(cut_short()),
    decreases lists.len() - i,
{
    if i == lists.len() {
        assert(lists.take(i) =~= lists);
    } else {
        let before = lists.take(i);
        let more = lists.take(i + 1);
        let list = lists[i];
        let at = pos + lists_bytes(before).len();
        lemma_lists_prefix(data, pos, lists, i + 1);
        assert(more.drop_last() =~= before);
        assert(more.last() == list);
        lemma_stands_split(data, pos, lists_bytes(before), list_bytes(list));
        if n < at + list_bytes(list).len() {
            lemma_list_cut(data, n, at, count, list);
        } else {
            lemma_stands_before(data, n, at, list_bytes(list));
            lemma_list_reads_back(data.take(n), at, count, list);
            assert(before.push(list) =~= more);
            lemma_lists_cut(data, n, pos, count, lists, i + 1);
        }
    }
}

proof fn lemma_node_cut(data: Seq<u8>, n: int, pos: int, count: u32, node: NodeView)
    requires
        node_output(node).fault is None,
        reads_back(node.payload),
        stands_at(data, pos, node_output(node).bytes),
        1 <= node.neighbors.len() <= MAX_LAYERS,
        lists_storable(node.neighbors, count),
        pos <= n < pos + node_output(node).bytes.len(),
    ensures
        node_at(data.take(n), pos, node.vector.len(), count) == Err::<(NodeView, int), Fault>(
            cut_short(),
        ),
{
    let short = data.take(n);
    let id = le_bytes(node.id as nat, 8);
    let flag = seq![flag_byte(node.deleted)];
    let layers = le_bytes(node.neighbors.len(), 4);
    let lists = lists_bytes(node.neighbors);
    let tail = payload_output(node.payload).bytes + words_bytes(node.vector);
    lemma_le_bounds();
    lemma_le_bytes_len(node.id as nat, 8);
    lemma_le_bytes_len(node.neighbors.len(), 4);
    lemma_stands_split(data, pos, node_head(node), tail);
    lemma_stands_split(data, pos, id, flag + (layers + lists));
    lemma_stands_split(data, pos + 8, flag, layers + lists);
    lemma_stands_split(data, pos + 9, layers, lists);
    assert(node.neighbors.take(0) =~= seq![]);
    if pos + 9 <= n {
        lemma_stands_before(data, n, pos + 8, flag);
        lemma_byte_stands(short, pos + 8, flag_byte(node.deleted));
    }
    if pos + 13 <= n {
        lemma_stands_before(data, n, pos + 9, layers);
        lemma_number_stands(short, pos + 9, node.neighbors.len(), 4);
        if n < pos + 13 + lists.len() {
            lemma_lists_cut(data, n, pos + 13, count, node.neighbors, 0);
        } else {
            lemma_stands_before(data, n, pos + 13, lists);
            crate::format::lemma_lists_read_back(short, pos + 13, count, node.neighbors, 0);
            lemma_tail_cut(data, n, pos + 13 + lists.len(), node.payload, node.vector);
        }
    }
}

proof fn lemma_nodes_cut(
    data: Seq<u8>,
    n: int,
    pos: int,
    dim: nat,
    count: u32,
    nodes: Seq<NodeView>,
    i: int,
)
    requires
        0 <= i <= nodes.len(),
        nodes_output(nodes).fault is None,
        stands_at(data, pos, nodes_output(nodes).bytes),
        forall|j: int| 0 <= j < nodes.len() ==> node_storable(#[trigger] nodes[j], dim, count),
        forall|a: int, b: int|
            #![trigger nodes[a], nodes[b]]
            0 <= a < b < nodes.len() && !nodes[a].deleted && !nodes[b].deleted ==> nodes[a].id
                != nodes[b].id,
        pos + nodes_output(nodes.take(i)).bytes.len() <= n < pos + nodes_output(nodes).bytes.len(),
    ensures
        nodes_from(
            data.take(n),
            pos + nodes_output(nodes.take(i)).bytes.len(),
            dim,
            (nodes.len() - i) as nat,
            count,
            nodes.take(i),
        ) == Err::<Seq<NodeView>, Fault>(cut_short()),
    decreases nodes.len() - i,
{
    if i == nodes.len() {
        assert(nodes.take(i) =~= nodes);
    } else {
        let before = nodes.take(i);
        let more = nodes.take(i + 1);
        let node = nodes[i];
        let at = pos + nodes_output(before).bytes.len();
        lemma_nodes_prefix(data, pos, nodes, i + 1);
        assert(more.drop_last() =~= before);
        assert(more.last() == node);
        lemma_stands_split(data, pos, nodes_output(before).bytes, node_output(node).bytes);
        if n < at + node_output(node).bytes.len() {
            lemma_node_cut(data, n, at, count, node);
        } else {
            lemma_stands_before(data, n, at, node_output(node).bytes);
            lemma_node_reads_back(data.take(n), at, count, node);
            assert(node.deleted || !has_live_node(before, node.id)) by {
                if has_live_node(before, node.id) {
                    let j = choose|j: int|
                        0 <= j < before.len() && !(#[trigger] before[j]).deleted && before[j].id
                            == node.id;
                    assert(before[j] == nodes[j]);
                }
            }
            assert(before.push(node) =~= more);
            lemma_nodes_cut(data, n, pos, dim, count, nodes, i + 1);
        }
    }
}

proof fn lemma_fields_cut(v: HnswView, data: Seq<u8>, n: int)
    requires
        hnsw_storable(v),
        stands_at(data, 24, hnsw_fields(v)),
        24 <= n < 96,
    ensures
        fields_at(data.take(n)) == Err::<HnswFields, Fault>(cut_short()),
{
    let short = data.take(n);
    lemma_fields_read_back(v, data);
    assert forall|p: int| 24 <= p && p + 8 <= n implies #[trigger] number_at(short, p, 8)
        == number_at(data, p, 8) by {
        assert(short.subrange(p, p + 8) =~= data.subrange(p, p + 8));
    }
}

proof fn lemma_hnsw_cut(v: HnswView, data: Seq<u8>, n: int)
    requires
        hnsw_storable(v),
        hnsw_output(v).fault is None,
        stands_at(data, 0, hnsw_output(v).bytes),
        0 <= n < hnsw_output(v).bytes.len(),
    ensures
        decoded(data.take(n)) == Err::<AnyView, Fault>(cut_short()),
{
    let short = data.take(n);
    let head = header_bytes(TYPE_HNSW, v.metric, v.dim);
    let fields = hnsw_fields(v);
    let body = nodes_output(v.nodes).bytes;
    lemma_stands_split(data, 0, head + fields, body);
    lemma_stands_split(data, 0, head, fields);
    lemma_header_reads_back(data, TYPE_HNSW, v.metric, v.dim);
    lemma_fields_read_back(v, data);
    assert((head + fields).len() == 96);
    if n < 24 {
        lemma_header_cut(data, n, TYPE_HNSW, v.metric, v.dim);
    } else {
        lemma_stands_before(data, n, 0, head);
        lemma_header_reads_back(short, TYPE_HNSW, v.metric, v.dim);
        if n < 96 {
            lemma_fields_cut(v, data, n);
        } else {
            lemma_stands_before(data, n, 24, fields);
            lemma_fields_read_back(v, short);
            lemma_hnsw_body_cut(v, data, n);
        }
    }
}

proof fn lemma_hnsw_body_cut(v: HnswView, data: Seq<u8>, n: int)
    requires
        hnsw_storable(v),
        nodes_output(v.nodes).fault is None,
        stands_at(data, 96, nodes_output(v.nodes).bytes),
        96 <= n < 96 + nodes_output(v.nodes).bytes.len(),
    ensures
        nodes_from(
            data.take(n),
            96,
            v.dim as nat,
            v.nodes.len(),
            v.nodes.len() as u32,
            seq![],
        ) == Err::<Seq<NodeView>, Fault>(cut_short()),
{
    assert(v.nodes.take(0) =~= seq![]);
    assert forall|a: int, b: int|
        #![trigger v.nodes[a], v.nodes[b]]
        0 <= a < b < v.nodes.len() && !v.nodes[a].deleted
            && !v.nodes[b].deleted implies v.nodes[a].id != v.nodes[b].id by {
        assert(v.points()[a].live && v.points()[b].live);
    }
    lemma_nodes_cut(data, n, 96, v.dim as nat, v.nodes.len() as u32, v.nodes, 0);
}

/// A snapshot that was cut short, wherever the cut is, is refused as such.
pub proof fn law_cut_snapshot_is_refused(v: AnyView, n: int)
    requires
        storable(v),
        encoded(v).fault is None,
        0 <= n < encoded(v).bytes.len(),
    ensures
        decoded(encoded(v).bytes.take(n)) == Err::<AnyView, Fault>(cut_short()),
{
    let bytes = encoded(v).bytes;
    assert(bytes.subrange(0, bytes.len() as int) =~= bytes);
    match v {
        AnyView::Flat(flat) => lemma_flat_cut(flat, bytes, n),
        AnyView::Hnsw(hnsw) => lemma_hnsw_cut(hnsw, bytes, n),
    }
}

} // verus!
