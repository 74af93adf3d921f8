use vstd::prelude::*;

use crate::builder::BuildError;
use crate::builder::build_spec;
use crate::builder::consume_block_spec;
use crate::builder::consume_headers_spec;
use crate::builder::insert_entry;
use crate::builder::item_node_spec;
use crate::builder::items_nodes_spec;
use crate::builder::lemma_consume_block_shrinks;
use crate::builder::top_nodes_spec;
use crate::model::BlockV;
use crate::model::ItemV;
use crate::model::NodeV;
use crate::model::blocks_size;
use crate::model::entries_wf;
use crate::model::node_wf;
use crate::model::nodes_wf;
use crate::model::unique_keys;

verus! {

broadcast use vstd::seq::group_seq_axioms;

/// A document whose first block is a heading and whose whole queue that
/// one construct consumes is a group, never a sequence: the single
/// top-level heading case is returned bare.
pub proof fn lemma_single_heading_is_group(q: Seq<BlockV>)
    requires
        q.len() > 0,
        q[0] is Heading,
        consume_block_spec(q).0 is Ok,
        consume_block_spec(q).1.len() == 0,
    ensures
        build_spec(q) == Ok::<NodeV, BuildError>(consume_block_spec(q).0->Ok_0),
        consume_block_spec(q).0->Ok_0 is Group,
{
    lemma_consume_block_shrinks(q);
    let (r, rest) = consume_block_spec(q);
    let n = r->Ok_0;
    assert(blocks_size(rest) == 0);
    assert(top_nodes_spec(rest) == Ok::<Seq<NodeV>, BuildError>(Seq::empty()));
    assert(seq![n] + Seq::<NodeV>::empty() =~= seq![n]);
    assert(top_nodes_spec(q) == Ok::<Seq<NodeV>, BuildError>(seq![n]));
}

/// A document of two or more top-level constructs with no shared
/// ancestor heading becomes a sequence of exactly their nodes, one per
/// construct, in document order.
pub proof fn lemma_multiple_top_level_is_sequence(q: Seq<BlockV>, ns: Seq<NodeV>)
    requires
        top_nodes_spec(q) == Ok::<Seq<NodeV>, BuildError>(ns),
        ns.len() >= 2,
    ensures
        build_spec(q) == Ok::<NodeV, BuildError>(NodeV::Sequence(ns)),
{
}

/// A heading that nothing follows maps to a group of one entry: its
/// text keyed to an empty leaf.
pub proof fn lemma_trailing_heading_empty_leaf(text: Seq<char>, level: u32)
    ensures
        build_spec(seq![BlockV::Heading(text, level)]) == Ok::<NodeV, BuildError>(
            NodeV::Group(seq![(text, NodeV::Leaf(Seq::empty()))]),
        ),
{
    let q = seq![BlockV::Heading(text, level)];
    let empty = Seq::<BlockV>::empty();
    assert(q.drop_first() =~= empty);
    assert(insert_entry(Seq::empty(), text, NodeV::Leaf(Seq::empty())) =~= seq![
        (text, NodeV::Leaf(Seq::empty())),
    ]);
    assert(consume_headers_spec(empty, text, level, Seq::empty()).0 == Ok::<
        Seq<(Seq<char>, NodeV)>,
        BuildError,
    >(seq![(text, NodeV::Leaf(Seq::empty()))]));
    let g = NodeV::Group(seq![(text, NodeV::Leaf(Seq::empty()))]);
    assert(consume_block_spec(q) == (Ok::<NodeV, BuildError>(g), empty));
    lemma_consume_block_shrinks(q);
    assert(top_nodes_spec(empty) == Ok::<Seq<NodeV>, BuildError>(Seq::empty()));
    assert(seq![g] + Seq::<NodeV>::empty() =~= seq![g]);
    assert(top_nodes_spec(q) == Ok::<Seq<NodeV>, BuildError>(seq![g]));
}

/// A heading directly followed by a heading of strictly greater level
/// nests the deeper heading's group as that entry's sole content.
pub proof fn lemma_deeper_heading_nests(t1: Seq<char>, l1: u32, t2: Seq<char>, l2: u32)
    requires
        l2 > l1,
    ensures
        build_spec(seq![BlockV::Heading(t1, l1), BlockV::Heading(t2, l2)]) == Ok::<
            NodeV,
            BuildError,
        >(NodeV::Group(seq![(t1, NodeV::Group(seq![(t2, NodeV::Leaf(Seq::empty()))]))])),
{
    let q = seq![BlockV::Heading(t1, l1), BlockV::Heading(t2, l2)];
    let q2 = seq![BlockV::Heading(t2, l2)];
    let empty = Seq::<BlockV>::empty();
    assert(q.drop_first() =~= q2);
    assert(q2.drop_first() =~= empty);

    let leaf = NodeV::Leaf(Seq::empty());
    assert(insert_entry(Seq::empty(), t2, leaf) =~= seq![(t2, leaf)]);
    assert(consume_headers_spec(empty, t2, l2, Seq::empty()).0 == Ok::<
        Seq<(Seq<char>, NodeV)>,
        BuildError,
    >(seq![(t2, leaf)]));
    let g2 = NodeV::Group(seq![(t2, leaf)]);
    assert(consume_block_spec(q2) == (Ok::<NodeV, BuildError>(g2), empty));

    assert(insert_entry(Seq::empty(), t1, g2) =~= seq![(t1, g2)]);
    assert(consume_headers_spec(q2, t1, l1, Seq::empty()).0 == Ok::<
        Seq<(Seq<char>, NodeV)>,
        BuildError,
    >(seq![(t1, g2)]));
    let g1 = NodeV::Group(seq![(t1, g2)]);
    assert(consume_block_spec(q) == (Ok::<NodeV, BuildError>(g1), empty));
    lemma_consume_block_shrinks(q);
    assert(top_nodes_spec(empty) == Ok::<Seq<NodeV>, BuildError>(Seq::empty()));
    assert(seq![g1] + Seq::<NodeV>::empty() =~= seq![g1]);
    assert(top_nodes_spec(q) == Ok::<Seq<NodeV>, BuildError>(seq![g1]));
}

/// With one construct standing between them as the first heading's
/// content, a heading followed by a heading of equal or greater level
/// becomes a sibling key in the same group, not a nested child.
pub proof fn lemma_sibling_heading(
    t1: Seq<char>,
    l1: u32,
    b: BlockV,
    t2: Seq<char>,
    l2: u32,
    nb: NodeV,
)
    requires
        l2 >= l1,
        t1 != t2,
        consume_block_spec(seq![b, BlockV::Heading(t2, l2)]) == (
            Ok::<NodeV, BuildError>(nb),
            seq![BlockV::Heading(t2, l2)],
        ),
    ensures
        build_spec(seq![BlockV::Heading(t1, l1), b, BlockV::Heading(t2, l2)]) == Ok::<
            NodeV,
            BuildError,
        >(NodeV::Group(seq![(t1, nb), (t2, NodeV::Leaf(Seq::empty()))])),
{
    let q = seq![BlockV::Heading(t1, l1), b, BlockV::Heading(t2, l2)];
    let qmid = seq![b, BlockV::Heading(t2, l2)];
    let q2 = seq![BlockV::Heading(t2, l2)];
    let empty = Seq::<BlockV>::empty();
    assert(q.drop_first() =~= qmid);
    assert(q2.drop_first() =~= empty);

    let leaf = NodeV::Leaf(Seq::empty());
    let acc1 = seq![(t1, nb)];
    assert(insert_entry(Seq::empty(), t1, nb) =~= acc1);
    assert(insert_entry(acc1, t2, leaf) =~= seq![(t1, nb), (t2, leaf)]) by {
        assert(acc1.drop_first() =~= Seq::<(Seq<char>, NodeV)>::empty());
        assert(insert_entry(acc1.drop_first(), t2, leaf) =~= seq![(t2, leaf)]);
        assert(seq![acc1[0]] + seq![(t2, leaf)] =~= seq![(t1, nb), (t2, leaf)]);
    }
    lemma_consume_block_shrinks(qmid);
    assert(consume_headers_spec(empty, t2, l2, acc1).0 == Ok::<
        Seq<(Seq<char>, NodeV)>,
        BuildError,
    >(seq![(t1, nb), (t2, leaf)]));
    assert(consume_headers_spec(qmid, t1, l1, Seq::empty()).0 == Ok::<
        Seq<(Seq<char>, NodeV)>,
        BuildError,
    >(seq![(t1, nb), (t2, leaf)]));
    let g = NodeV::Group(seq![(t1, nb), (t2, leaf)]);
    assert(consume_block_spec(q) == (Ok::<NodeV, BuildError>(g), empty));
    lemma_consume_block_shrinks(q);
    assert(top_nodes_spec(empty) == Ok::<Seq<NodeV>, BuildError>(Seq::empty()));
    assert(seq![g] + Seq::<NodeV>::empty() =~= seq![g]);
    assert(top_nodes_spec(q) == Ok::<Seq<NodeV>, BuildError>(seq![g]));
}

/// A simple list item becomes a plain string leaf of its rendered text.
pub proof fn lemma_simple_item_is_leaf(text: Seq<char>)
    ensures
        item_node_spec(ItemV::Simple(text)) == Ok::<NodeV, BuildError>(NodeV::Leaf(text)),
{
}

/// A list item whose nested content is a paragraph followed by an
/// unordered list becomes a one-entry group keying the paragraph's text
/// to the nested list's sequence of item nodes.
pub proof fn lemma_nested_item_group(text: Seq<char>, items: Seq<ItemV>, ns: Seq<NodeV>)
    requires
        items_nodes_spec(items) == Ok::<Seq<NodeV>, BuildError>(ns),
    ensures
        item_node_spec(
            ItemV::Nested(seq![BlockV::Paragraph(text), BlockV::List(items)]),
        ) == Ok::<NodeV, BuildError>(NodeV::Group(seq![(text, NodeV::Sequence(ns))])),
{
    let sub = seq![BlockV::Paragraph(text), BlockV::List(items)];
    let ql = seq![BlockV::List(items)];
    assert(sub.drop_first() =~= ql);
    assert(consume_block_spec(ql).0 == Ok::<NodeV, BuildError>(NodeV::Sequence(ns)));
}

/// Whether some entry carries the key.
pub open spec fn has_entry_key(entries: Seq<(Seq<char>, NodeV)>, key: Seq<char>) -> bool {
    exists|j: int| 0 <= j < entries.len() && #[trigger] entries[j].0 == key
}

/// Insertion keeps keys unique and every value well-formed, and brings
/// in no key but the inserted one.
pub proof fn lemma_insert_entry_wf(
    entries: Seq<(Seq<char>, NodeV)>,
    key: Seq<char>,
    value: NodeV,
)
    requires
        unique_keys(entries),
        entries_wf(entries),
        node_wf(value),
    ensures
        unique_keys(insert_entry(entries, key, value)),
        entries_wf(insert_entry(entries, key, value)),
        forall|i: int|
            0 <= i < insert_entry(entries, key, value).len() ==> #[trigger] insert_entry(
                entries,
                key,
                value,
            )[i].0 == key || has_entry_key(entries, insert_entry(entries, key, value)[i].0),
    decreases entries.len(),
{
    let result = insert_entry(entries, key, value);
    crate::model::lemma_entries_wf_index(entries);
    if entries.len() == 0 {
        assert(result =~= seq![(key, value)]);
        assert(result.drop_first() =~= Seq::<(Seq<char>, NodeV)>::empty());
        assert(result[0].1 == value);
        assert(entries_wf(result.drop_first()));
        assert(entries_wf(result));
    } else if entries[0].0 == key {
        assert(result =~= seq![(key, value)] + entries.drop_first());
        assert(result.drop_first() =~= entries.drop_first());
        crate::model::lemma_entries_wf_index(result);
        assert forall|i: int| 0 <= i < result.len() implies #[trigger] node_wf(
            result[i].1,
        ) by {
            if i == 0 {
                assert(result[0].1 == value);
            } else {
                assert(result[i] == entries[i]);
            }
        }
        assert forall|i: int, j: int| 0 <= i < j < result.len() implies #[trigger] result[i].0
            != #[trigger] result[j].0 by {
            assert(entries[0].0 == result[0].0);
            if i > 0 {
                assert(result[i] == entries[i]);
            }
            assert(result[j] == entries[j]);
        }
        assert forall|i: int| 0 <= i < result.len() implies #[trigger] result[i].0 == key
            || has_entry_key(entries, result[i].0) by {
            if i > 0 {
                assert(result[i] == entries[i]);
            }
        }
    } else {
        let rest = entries.drop_first();
        assert forall|i: int, j: int| 0 <= i < j < rest.len() implies #[trigger] rest[i].0
            != #[trigger] rest[j].0 by {
            assert(rest[i] == entries[i + 1]);
            assert(rest[j] == entries[j + 1]);
        }
        lemma_insert_entry_wf(rest, key, value);
        let inner = insert_entry(rest, key, value);
        assert(result =~= seq![entries[0]] + inner);
        assert(result.drop_first() =~= inner);
        assert forall|i: int, j: int| 0 <= i < j < result.len() implies #[trigger] result[i].0
            != #[trigger] result[j].0 by {
            if i == 0 {
                assert(result[j] == inner[j - 1]);
                if inner[j - 1].0 == key {
                } else {
                    assert(has_entry_key(rest, inner[j - 1].0));
                    let w = choose|w: int|
                        0 <= w < rest.len() && #[trigger] rest[w].0 == inner[j - 1].0;
                    assert(rest[w] == entries[w + 1]);
                }
            } else {
                assert(result[i] == inner[i - 1]);
                assert(result[j] == inner[j - 1]);
            }
        }
        crate::model::lemma_entries_wf_index(rest);
        crate::model::lemma_entries_wf_index(inner);
        crate::model::lemma_entries_wf_index(result);
        assert forall|i: int| 0 <= i < result.len() implies #[trigger] node_wf(
            result[i].1,
        ) by {
            if i > 0 {
                assert(result[i] == inner[i - 1]);
            }
        }
        assert forall|i: int| 0 <= i < result.len() implies #[trigger] result[i].0 == key
            || has_entry_key(entries, result[i].0) by {
            if i == 0 {
                assert(entries[0].0 == result[0].0);
            } else {
                assert(result[i] == inner[i - 1]);
                if inner[i - 1].0 != key {
                    let w = choose|w: int|
                        0 <= w < rest.len() && #[trigger] rest[w].0 == inner[i - 1].0;
                    assert(rest[w] == entries[w + 1]);
                }
            }
        }
    }
}

/// Every group of a node that one construct's consumption yields has
/// unique keys, all the way down.
pub proof fn lemma_consume_block_wf(q: Seq<BlockV>)
    ensures
        consume_block_spec(q).0 matches Ok(n) ==> node_wf(n),
    decreases blocks_size(q), 0int,
{
    if q.len() > 0 {
        assert(blocks_size(q) == crate::model::block_size(q[0]) + blocks_size(q.drop_first()));
        crate::model::lemma_block_size_pos(q[0]);
        match q[0] {
            BlockV::Heading(text, level) => {
                lemma_consume_headers_wf(q.drop_first(), text, level, Seq::empty());
            },
            BlockV::List(items) => {
                lemma_items_nodes_wf(items);
            },
            _ => {},
        }
    }
}

/// Sibling collection keeps the entries' keys unique and their values
/// well-formed, provided they start out so.
pub proof fn lemma_consume_headers_wf(
    q: Seq<BlockV>,
    key: Seq<char>,
    level: u32,
    acc: Seq<(Seq<char>, NodeV)>,
)
    requires
        unique_keys(acc),
        entries_wf(acc),
    ensures
        consume_headers_spec(q, key, level, acc).0 matches Ok(es) ==> unique_keys(es)
            && entries_wf(es),
    decreases blocks_size(q), 1int,
{
    let (r, rest) = if q.len() == 0 {
        (Ok::<NodeV, BuildError>(NodeV::Leaf(Seq::empty())), q)
    } else {
        lemma_consume_block_wf(q);
        consume_block_spec(q)
    };
    match r {
        Err(_) => {},
        Ok(node) => {
            lemma_insert_entry_wf(acc, key, node);
            let acc2 = insert_entry(acc, key, node);
            if rest.len() > 0 {
                match rest[0] {
                    BlockV::Heading(text2, level2) => {
                        if level2 >= level && blocks_size(rest.drop_first()) < blocks_size(q) {
                            lemma_consume_headers_wf(rest.drop_first(), text2, level2, acc2);
                        }
                    },
                    _ => {},
                }
            }
        },
    }
}

/// The node of one list item has unique keys in every group of it.
pub proof fn lemma_item_node_wf(it: ItemV)
    ensures
        item_node_spec(it) matches Ok(n) ==> node_wf(n),
    decreases crate::model::item_size(it), 0int,
{
    match it {
        ItemV::Simple(text) => {
            assert(item_node_spec(it) == Ok::<NodeV, BuildError>(NodeV::Leaf(text)));
            assert(node_wf(NodeV::Leaf(text)));
        },
        ItemV::Nested(sub) => {
            if sub.len() < 2 || !(sub[0] is Paragraph) {
            } else {
                assert(blocks_size(sub) == crate::model::block_size(sub[0]) + blocks_size(
                    sub.drop_first(),
                ));
                lemma_consume_block_wf(sub.drop_first());
                match consume_block_spec(sub.drop_first()).0 {
                    Ok(node) => {
                        let es = seq![(sub[0]->Paragraph_0, node)];
                        assert(es.drop_first() =~= Seq::<(Seq<char>, NodeV)>::empty());
                        assert(es[0].1 == node);
                        assert(entries_wf(es.drop_first()));
                        assert(entries_wf(es));
                        assert(node_wf(NodeV::Group(es)));
                    },
                    Err(_) => {},
                }
            }
        },
    }
}

/// The nodes of a run of list items are all well-formed.
pub proof fn lemma_items_nodes_wf(items: Seq<ItemV>)
    ensures
        items_nodes_spec(items) matches Ok(ns) ==> nodes_wf(ns),
    decreases crate::model::items_size(items), 1int,
{
    if items.len() > 0 {
        assert(crate::model::items_size(items) == crate::model::item_size(items[0])
            + crate::model::items_size(items.drop_first()));
        crate::model::lemma_item_size_pos(items[0]);
        lemma_item_node_wf(items[0]);
        lemma_items_nodes_wf(items.drop_first());
        match item_node_spec(items[0]) {
            Err(_) => {},
            Ok(n) => {
                match items_nodes_spec(items.drop_first()) {
                    Err(_) => {},
                    Ok(ns) => {
                        crate::model::lemma_nodes_wf_index(ns);
                        crate::model::lemma_nodes_wf_index(seq![n] + ns);
                        assert forall|i: int| 0 <= i < (seq![n] + ns).len() implies
                            #[trigger] node_wf((seq![n] + ns)[i]) by {
                            if i == 0 {
                                assert((seq![n] + ns)[0] == n);
                            } else {
                                assert((seq![n] + ns)[i] == ns[i - 1]);
                            }
                        }
                    },
                }
            },
        }
    }
}

/// Every top-level node is well-formed.
pub proof fn lemma_top_nodes_wf(q: Seq<BlockV>)
    ensures
        top_nodes_spec(q) matches Ok(ns) ==> nodes_wf(ns),
    decreases blocks_size(q), 2int,
{
    if q.len() > 0 {
        lemma_consume_block_wf(q);
        let (r, rest) = consume_block_spec(q);
        match r {
            Err(_) => {},
            Ok(n) => {
                if blocks_size(rest) < blocks_size(q) {
                    lemma_top_nodes_wf(rest);
                    match top_nodes_spec(rest) {
                        Err(_) => {},
                        Ok(ns) => {
                            crate::model::lemma_nodes_wf_index(ns);
                            crate::model::lemma_nodes_wf_index(seq![n] + ns);
                            assert forall|i: int| 0 <= i < (seq![n] + ns).len() implies
                                #[trigger] node_wf((seq![n] + ns)[i]) by {
                                if i == 0 {
                                    assert((seq![n] + ns)[0] == n);
                                } else {
                                    assert((seq![n] + ns)[i] == ns[i - 1]);
                                }
                            }
                        },
                    }
                } else {
                    assert((seq![n]).drop_first() =~= Seq::<NodeV>::empty());
                    assert((seq![n])[0] == n);
                    assert(nodes_wf((seq![n]).drop_first()));
                    assert(nodes_wf(seq![n]));
                }
            },
        }
    }
}

/// Every group anywhere in a built tree has unique keys: the data
/// model's invariant holds of every document the builder accepts.
pub proof fn lemma_build_unique_keys(q: Seq<BlockV>)
    ensures
        build_spec(q) matches Ok(n) ==> node_wf(n),
{
    lemma_top_nodes_wf(q);
    match top_nodes_spec(q) {
        Err(_) => {},
        Ok(ns) => {
            crate::model::lemma_nodes_wf_index(ns);
        },
    }
}

} // verus!
