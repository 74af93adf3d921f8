use vstd::prelude::*;

use crate::model::Block;
use crate::model::BlockV;
use crate::model::Item;
use crate::model::ItemV;
use crate::model::Node;
use crate::model::NodeV;
use crate::model::block_size;
use crate::model::block_view;
use crate::model::blocks_size;
use crate::model::blocks_view;
use crate::model::entries_view;
use crate::model::item_size;
use crate::model::item_view;
use crate::model::items_size;
use crate::model::items_view;
use crate::model::node_view;
use crate::model::nodes_view;

verus! {

broadcast use vstd::std_specs::vec::group_vec_axioms, vstd::seq::group_seq_axioms;

/// Why a conversion was refused.
#[derive(Debug, PartialEq, Eq, Structural, Clone, Copy)]
pub enum BuildError {
    /// A block kind other than heading or unordered list stood where a
    /// top-level or nested construct was expected.
    UnsupportedBlock,
    /// A list item carried nested blocks whose first element was not
    /// paragraph content, or nothing followed that paragraph.
    MalformedNestedItem,
}

/// Entry insertion with last write winning: an existing key keeps its
/// place and takes the new value; a new key is appended.
pub open spec fn insert_entry(
    entries: Seq<(Seq<char>, NodeV)>,
    key: Seq<char>,
    value: NodeV,
) -> Seq<(Seq<char>, NodeV)>
    decreases entries,
{
    if entries.len() == 0 {
        seq![(key, value)]
    } else if entries[0].0 == key {
        seq![(key, value)] + entries.drop_first()
    } else {
        seq![entries[0]] + insert_entry(entries.drop_first(), key, value)
    }
}

/// Remove exactly one construct from the front of the queue and convert
/// it to a node, consuming further blocks as its nested content; the
/// second component is what is left of the queue.
pub open spec fn consume_block_spec(q: Seq<BlockV>) -> (Result<NodeV, BuildError>, Seq<BlockV>)
    decreases blocks_size(q), 0int,
    via consume_block_spec_dec
{
    if q.len() == 0 {
        (Err(BuildError::UnsupportedBlock), q)
    } else {
        match q[0] {
            BlockV::Heading(text, level) => {
                let (r, rest) = consume_headers_spec(q.drop_first(), text, level, Seq::empty());
                match r {
                    Ok(entries) => (Ok(NodeV::Group(entries)), rest),
                    Err(e) => (Err(e), rest),
                }
            },
            BlockV::List(items) => match items_nodes_spec(items) {
                Ok(ns) => (Ok(NodeV::Sequence(ns)), q.drop_first()),
                Err(e) => (Err(e), q.drop_first()),
            },
            _ => (Err(BuildError::UnsupportedBlock), q.drop_first()),
        }
    }
}

#[via_fn]
proof fn consume_block_spec_dec(q: Seq<BlockV>) {
    if q.len() > 0 {
        assert(blocks_size(q) == block_size(q[0]) + blocks_size(q.drop_first()));
        crate::model::lemma_block_size_pos(q[0]);
    }
}

/// Populate a heading's entries: first the content of the heading at
/// hand (the next construct, or an empty leaf at the end of input), then
/// every directly following sibling heading of equal or greater level,
/// all into the same run of entries. The size test on the recursion
/// bounds it; `lemma_consume_block_shrinks` shows it always passes.
pub open spec fn consume_headers_spec(
    q: Seq<BlockV>,
    key: Seq<char>,
    level: u32,
    acc: Seq<(Seq<char>, NodeV)>,
) -> (Result<Seq<(Seq<char>, NodeV)>, BuildError>, Seq<BlockV>)
    decreases blocks_size(q), 1int,
{
    let (r, rest) = if q.len() == 0 {
        (Ok(NodeV::Leaf(Seq::empty())), q)
    } else {
        consume_block_spec(q)
    };
    match r {
        Err(e) => (Err(e), rest),
        Ok(node) => {
            let acc2 = insert_entry(acc, key, node);
            if rest.len() > 0 {
                match rest[0] {
                    BlockV::Heading(text2, level2) => {
                        if level2 >= level && blocks_size(rest.drop_first()) < blocks_size(q) {
                            consume_headers_spec(rest.drop_first(), text2, level2, acc2)
                        } else {
                            (Ok(acc2), rest)
                        }
                    },
                    _ => (Ok(acc2), rest),
                }
            } else {
                (Ok(acc2), rest)
            }
        },
    }
}

/// The node one list item stands for: a simple item is a leaf of its
/// rendered text; a nested item maps its leading paragraph's text to the
/// node built from the blocks that follow it, on the item's own queue.
pub open spec fn item_node_spec(it: ItemV) -> Result<NodeV, BuildError>
    decreases item_size(it), 0int,
{
    match it {
        ItemV::Simple(text) => Ok(NodeV::Leaf(text)),
        ItemV::Nested(sub) => {
            if sub.len() < 2 || !(sub[0] is Paragraph) {
                Err(BuildError::MalformedNestedItem)
            } else {
                match consume_block_spec(sub.drop_first()).0 {
                    Ok(node) => Ok(NodeV::Group(seq![(sub[0]->Paragraph_0, node)])),
                    Err(e) => Err(e),
                }
            }
        },
    }
}

/// The nodes of a run of list items, in order; the first failing item
/// decides the error.
pub open spec fn items_nodes_spec(items: Seq<ItemV>) -> Result<Seq<NodeV>, BuildError>
    decreases items_size(items), 1int,
    via items_nodes_spec_dec
{
    if items.len() == 0 {
        Ok(Seq::empty())
    } else {
        match item_node_spec(items[0]) {
            Err(e) => Err(e),
            Ok(n) => match items_nodes_spec(items.drop_first()) {
                Err(e) => Err(e),
                Ok(ns) => Ok(seq![n] + ns),
            },
        }
    }
}

#[via_fn]
proof fn items_nodes_spec_dec(items: Seq<ItemV>) {
    if items.len() > 0 {
        assert(items_size(items) == item_size(items[0]) + items_size(items.drop_first()));
        crate::model::lemma_item_size_pos(items[0]);
    }
}

/// The top-level constructs of a document, each consumed in turn from
/// the front of the queue until it is drained. The size test on the
/// recursion bounds it; `lemma_consume_block_shrinks` shows it always
/// passes.
pub open spec fn top_nodes_spec(q: Seq<BlockV>) -> Result<Seq<NodeV>, BuildError>
    decreases blocks_size(q), 2int,
{
    if q.len() == 0 {
        Ok(Seq::empty())
    } else {
        let (r, rest) = consume_block_spec(q);
        match r {
            Err(e) => Err(e),
            Ok(n) => {
                if blocks_size(rest) < blocks_size(q) {
                    match top_nodes_spec(rest) {
                        Err(e) => Err(e),
                        Ok(ns) => Ok(seq![n] + ns),
                    }
                } else {
                    Ok(seq![n])
                }
            },
        }
    }
}

/// What a whole document becomes: its single top-level construct bare,
/// or two or more of them wrapped as a sequence in document order.
pub open spec fn build_spec(q: Seq<BlockV>) -> Result<NodeV, BuildError> {
    match top_nodes_spec(q) {
        Err(e) => Err(e),
        Ok(ns) => if ns.len() == 1 {
            Ok(ns[0])
        } else {
            Ok(NodeV::Sequence(ns))
        },
    }
}

/// Consuming one construct always takes strictly more than nothing off
/// the queue, whatever the outcome; so the recursions that follow a
/// consumption are bounded, and their size tests always pass.
pub proof fn lemma_consume_block_shrinks(q: Seq<BlockV>)
    requires
        q.len() > 0,
    ensures
        blocks_size(consume_block_spec(q).1) < blocks_size(q),
    decreases blocks_size(q), 0int,
{
    assert(blocks_size(q) == block_size(q[0]) + blocks_size(q.drop_first()));
    crate::model::lemma_block_size_pos(q[0]);
    match q[0] {
        BlockV::Heading(text, level) => {
            lemma_consume_headers_bound(q.drop_first(), text, level, Seq::empty());
        },
        _ => {},
    }
}

/// Collecting a heading's content and siblings never grows the queue.
pub proof fn lemma_consume_headers_bound(
    q: Seq<BlockV>,
    key: Seq<char>,
    level: u32,
    acc: Seq<(Seq<char>, NodeV)>,
)
    ensures
        blocks_size(consume_headers_spec(q, key, level, acc).1) <= blocks_size(q),
    decreases blocks_size(q), 1int,
{
    if q.len() > 0 {
        lemma_consume_block_shrinks(q);
        let (r, rest) = consume_block_spec(q);
        match r {
            Err(_) => {},
            Ok(node) => {
                let acc2 = insert_entry(acc, key, node);
                if rest.len() > 0 {
                    match rest[0] {
                        BlockV::Heading(text2, level2) => {
                            if level2 >= level && blocks_size(rest.drop_first()) < blocks_size(q) {
                                lemma_consume_headers_bound(rest.drop_first(), text2, level2, acc2);
                            }
                        },
                        _ => {},
                    }
                }
            },
        }
    }
}

/// Where the key already stands, insertion updates that entry in place.
proof fn lemma_insert_entry_found(
    entries: Seq<(Seq<char>, NodeV)>,
    key: Seq<char>,
    value: NodeV,
    i: int,
)
    requires
        0 <= i < entries.len(),
        entries[i].0 == key,
        forall|j: int| 0 <= j < i ==> #[trigger] entries[j].0 != key,
    ensures
        insert_entry(entries, key, value) == entries.update(i, (key, value)),
    decreases entries.len(),
{
    if i == 0 {
        assert(seq![(key, value)] + entries.drop_first() =~= entries.update(0, (key, value)));
    } else {
        lemma_insert_entry_found(entries.drop_first(), key, value, i - 1);
        assert(seq![entries[0]] + entries.drop_first().update(i - 1, (key, value)) =~= entries
            .update(i, (key, value)));
    }
}

/// Where the key is absent, insertion appends the entry.
proof fn lemma_insert_entry_absent(entries: Seq<(Seq<char>, NodeV)>, key: Seq<char>, value: NodeV)
    requires
        forall|j: int| 0 <= j < entries.len() ==> #[trigger] entries[j].0 != key,
    ensures
        insert_entry(entries, key, value) == entries.push((key, value)),
    decreases entries.len(),
{
    if entries.len() == 0 {
        assert(seq![(key, value)] =~= entries.push((key, value)));
    } else {
        lemma_insert_entry_absent(entries.drop_first(), key, value);
        assert(seq![entries[0]] + entries.drop_first().push((key, value)) =~= entries.push(
            (key, value),
        ));
    }
}

/// Put one entry into a group's entries, the later value replacing an
/// earlier one under the same rendered key.
fn group_insert(entries: &mut Vec<(String, Node)>, key: String, value: Node)
    ensures
        entries_view(final(entries)@) == insert_entry(
            entries_view(old(entries)@),
            key@,
            value@,
        ),
{
    let ghost orig = old(entries)@;
    let mut i: usize = 0;
    while i < entries.len()
        invariant
            orig == old(entries)@,
            entries@ == orig,
            0 <= i <= orig.len(),
            forall|j: int| 0 <= j < i ==> #[trigger] entries_view(orig)[j].0 != key@,
        decreases orig.len() - i,
    {
        if entries[i].0 == key {
            proof {
                assert(entries_view(orig)[i as int].0 == orig[i as int].0@);
                lemma_insert_entry_found(entries_view(orig), key@, value@, i as int);
                crate::model::lemma_entries_view_update(orig, i as int, key, value);
            }
            entries.set(i, (key, value));
            proof {
                assert(entries@ == orig.update(i as int, (key, value)));
            }
            return ;
        }
        proof {
            assert(entries_view(orig)[i as int].0 == orig[i as int].0@);
        }
        i = i + 1;
    }
    proof {
        lemma_insert_entry_absent(entries_view(orig), key@, value@);
        crate::model::lemma_entries_view_push(orig, key, value);
    }
    entries.push((key, value));
}

/// Remove exactly one construct from the front of the shared queue and
/// convert it to a node, consuming further blocks as its nested
/// content.
pub fn consume_block(q: &mut Vec<Block>) -> (r: Result<Node, BuildError>)
    requires
        old(q)@.len() > 0,
    ensures
        ({
            let (sr, srest) = consume_block_spec(blocks_view(old(q)@));
            match r {
                Ok(n) => sr == Ok::<NodeV, BuildError>(n@) && blocks_view(final(q)@) == srest,
                Err(e) => sr == Err::<NodeV, BuildError>(e),
            }
        }),
    decreases blocks_size(blocks_view(q@)), 0int,
{
    let ghost q0 = q@;
    let b = q.remove(0);
    proof {
        assert(q0.remove(0) =~= q0.drop_first());
        crate::model::lemma_blocks_view_drop_first(q0);
        assert(blocks_view(q0)[0] == block_view(q0[0]));
    }
    match b {
        Block::Heading(text, level) => {
            let mut entries: Vec<(String, Node)> = Vec::new();
            proof {
                assert(entries_view(entries@) =~= Seq::<(Seq<char>, NodeV)>::empty());
                assert(blocks_view(q0)[0] == BlockV::Heading(text@, level));
                assert(blocks_size(blocks_view(q0)) == block_size(blocks_view(q0)[0])
                    + blocks_size(blocks_view(q0).drop_first()));
            }
            match consume_headers(&mut entries, q, text, level) {
                Ok(()) => Ok(Node::Group(entries)),
                Err(e) => Err(e),
            }
        },
        Block::List(items) => {
            proof {
                assert(blocks_view(q0)[0] == BlockV::List(items_view(items@)));
                assert(blocks_size(blocks_view(q0)) == block_size(blocks_view(q0)[0])
                    + blocks_size(blocks_view(q0).drop_first()));
                assert(block_size(blocks_view(q0)[0]) == 1 + items_size(items_view(items@)));
            }
            match items_to_nodes(items) {
                Ok(ns) => Ok(Node::Sequence(ns)),
                Err(e) => Err(e),
            }
        },
        Block::Paragraph(_) => Err(BuildError::UnsupportedBlock),
        Block::Unsupported => Err(BuildError::UnsupportedBlock),
    }
}

/// Populate a heading's entries: first the content of the heading at
/// hand, then every directly following sibling heading of equal or
/// greater level, all into the same run of entries.
pub fn consume_headers(
    entries: &mut Vec<(String, Node)>,
    q: &mut Vec<Block>,
    key: String,
    level: u32,
) -> (r: Result<(), BuildError>)
    ensures
        ({
            let (sr, srest) = consume_headers_spec(
                blocks_view(old(q)@),
                key@,
                level,
                entries_view(old(entries)@),
            );
            match r {
                Ok(()) => sr == Ok::<Seq<(Seq<char>, NodeV)>, BuildError>(
                    entries_view(final(entries)@),
                ) && blocks_view(final(q)@) == srest,
                Err(e) => sr == Err::<Seq<(Seq<char>, NodeV)>, BuildError>(e),
            }
        }),
    decreases blocks_size(blocks_view(q@)), 1int,
{
    let ghost q0 = q@;
    let node: Node;
    if q.len() == 0 {
        node = Node::Leaf(String::new());
    } else {
        proof {
            lemma_consume_block_shrinks(blocks_view(q0));
        }
        match consume_block(q) {
            Ok(n) => {
                node = n;
            },
            Err(e) => {
                return Err(e);
            },
        }
    }
    group_insert(entries, key, node);
    if q.len() > 0 {
        let front_is_sibling = match &q[0] {
            Block::Heading(_, l2) => *l2 >= level,
            _ => false,
        };
        if front_is_sibling {
            let ghost rest = blocks_view(q@);
            let ghost q1 = q@;
            let b2 = q.remove(0);
            proof {
                assert(q1.remove(0) =~= q1.drop_first());
                crate::model::lemma_blocks_view_drop_first(q1);
                assert(rest[0] == block_view(q1[0]));
                assert(blocks_size(rest) == block_size(rest[0]) + blocks_size(
                    rest.drop_first(),
                ));
            }
            match b2 {
                Block::Heading(text2, level2) => consume_headers(entries, q, text2, level2),
                _ => {
                    proof {
                        assert(false);
                    }
                    Err(BuildError::UnsupportedBlock)
                },
            }
        } else {
            Ok(())
        }
    } else {
        Ok(())
    }
}

/// Convert each item of an unordered list to its node, in order.
#[verifier::loop_isolation(false)]
pub fn items_to_nodes(items: Vec<Item>) -> (r: Result<Vec<Node>, BuildError>)
    ensures
        ({
            let s = items_nodes_spec(items_view(items@));
            match r {
                Ok(ns) => s == Ok::<Seq<NodeV>, BuildError>(nodes_view(ns@)),
                Err(e) => s == Err::<Seq<NodeV>, BuildError>(e),
            }
        }),
    decreases items_size(items_view(items@)), 2int,
{
    let ghost items0 = items_view(items@);
    let mut rem = items;
    let mut out: Vec<Node> = Vec::new();
    while rem.len() > 0
        invariant
            items_size(items_view(rem@)) <= items_size(items0),
            ({
                let tail = items_nodes_spec(items_view(rem@));
                let full = items_nodes_spec(items0);
                match tail {
                    Ok(ts) => full == Ok::<Seq<NodeV>, BuildError>(nodes_view(out@) + ts),
                    Err(e) => full == Err::<Seq<NodeV>, BuildError>(e),
                }
            }),
        decreases items_size(items_view(rem@)),
    {
        let ghost rem0 = rem@;
        let it = rem.remove(0);
        proof {
            assert(rem0.remove(0) =~= rem0.drop_first());
            crate::model::lemma_items_view_drop_first(rem0);
            assert(items_view(rem0)[0] == item_view(rem0[0]));
            crate::model::lemma_item_size_pos(item_view(rem0[0]));
            assert(items_size(items_view(rem0)) == item_size(items_view(rem0)[0]) + items_size(
                items_view(rem0).drop_first(),
            ));
        }
        let ghost out0 = out@;
        match it {
            Item::Simple(text) => {
                proof {
                    crate::model::lemma_nodes_view_push(out@, Node::Leaf(text));
                }
                out.push(Node::Leaf(text));
            },
            Item::Nested(sub) => {
                let mut sub = sub;
                let ghost sub0 = sub@;
                proof {
                    assert(item_view(rem0[0]) == ItemV::Nested(blocks_view(sub0)));
                }
                if sub.len() == 0 {
                    proof {
                        assert(item_node_spec(item_view(rem0[0])) == Err::<
                            NodeV,
                            BuildError,
                        >(BuildError::MalformedNestedItem));
                        assert(items_nodes_spec(items_view(rem0)) == Err::<
                            Seq<NodeV>,
                            BuildError,
                        >(BuildError::MalformedNestedItem));
                    }
                    return Err(BuildError::MalformedNestedItem);
                }
                let first = sub.remove(0);
                proof {
                    assert(sub0.remove(0) =~= sub0.drop_first());
                    crate::model::lemma_blocks_view_drop_first(sub0);
                    assert(blocks_view(sub0)[0] == block_view(sub0[0]));
                }
                match first {
                    Block::Paragraph(text) => {
                        if sub.len() == 0 {
                            proof {
                                assert(blocks_view(sub0).len() == 1);
                                assert(items_nodes_spec(items_view(rem0)) == Err::<
                                    Seq<NodeV>,
                                    BuildError,
                                >(BuildError::MalformedNestedItem));
                            }
                            return Err(BuildError::MalformedNestedItem);
                        }
                        proof {
                            assert(item_size(item_view(rem0[0])) == 1 + blocks_size(
                                blocks_view(sub0),
                            ));
                            assert(blocks_size(blocks_view(sub0)) == block_size(
                                blocks_view(sub0)[0],
                            ) + blocks_size(blocks_view(sub0).drop_first()));
                            assert(blocks_view(sub@) == blocks_view(sub0).drop_first());
                        }
                        match consume_block(&mut sub) {
                            Ok(n) => {
                                let ghost nv = n@;
                                let ghost textv = text@;
                                let mut g: Vec<(String, Node)> = Vec::new();
                                g.push((text, n));
                                proof {
                                    assert(entries_view(g@) =~= seq![(textv, nv)]);
                                    crate::model::lemma_nodes_view_push(
                                        out@,
                                        Node::Group(g),
                                    );
                                }
                                out.push(Node::Group(g));
                            },
                            Err(e) => {
                                proof {
                                    assert(items_nodes_spec(items_view(rem0)) == Err::<
                                        Seq<NodeV>,
                                        BuildError,
                                    >(e));
                                }
                                return Err(e);
                            },
                        }
                    },
                    _ => {
                        proof {
                            assert(!(blocks_view(sub0)[0] is Paragraph));
                            assert(item_node_spec(item_view(rem0[0])) == Err::<
                                NodeV,
                                BuildError,
                            >(BuildError::MalformedNestedItem));
                            assert(items_nodes_spec(items_view(rem0)) == Err::<
                                Seq<NodeV>,
                                BuildError,
                            >(BuildError::MalformedNestedItem));
                        }
                        return Err(BuildError::MalformedNestedItem);
                    },
                }
            },
        }
        proof {
            let tail0 = items_nodes_spec(items_view(rem0));
            let tail1 = items_nodes_spec(items_view(rem@));
            if tail1 is Ok {
                assert(nodes_view(out0) + (seq![nodes_view(out@).last()] + tail1->Ok_0)
                    =~= nodes_view(out@) + tail1->Ok_0);
            }
        }
    }
    proof {
        assert(items_nodes_spec(items_view(rem@)) == Ok::<Seq<NodeV>, BuildError>(
            Seq::<NodeV>::empty(),
        ));
        assert(nodes_view(out@) + Seq::<NodeV>::empty() =~= nodes_view(out@));
    }
    Ok(out)
}

/// Convert a whole tokenized document: its single top-level construct
/// bare, or two or more of them wrapped as a sequence in document
/// order.
#[verifier::loop_isolation(false)]
pub fn build_outline(blocks: Vec<Block>) -> (r: Result<Node, BuildError>)
    requires
        blocks@.len() > 0,
    ensures
        ({
            let s = build_spec(blocks_view(blocks@));
            match r {
                Ok(n) => s == Ok::<NodeV, BuildError>(n@),
                Err(e) => s == Err::<NodeV, BuildError>(e),
            }
        }),
{
    let ghost q0 = blocks_view(blocks@);
    let mut q = blocks;
    let mut out: Vec<Node> = Vec::new();
    while q.len() > 0
        invariant
            ({
                let tail = top_nodes_spec(blocks_view(q@));
                let full = top_nodes_spec(q0);
                match tail {
                    Ok(ts) => full == Ok::<Seq<NodeV>, BuildError>(nodes_view(out@) + ts),
                    Err(e) => full == Err::<Seq<NodeV>, BuildError>(e),
                }
            }),
        decreases blocks_size(blocks_view(q@)),
    {
        let ghost qv = blocks_view(q@);
        let ghost out0 = out@;
        proof {
            lemma_consume_block_shrinks(qv);
        }
        match consume_block(&mut q) {
            Ok(n) => {
                proof {
                    crate::model::lemma_nodes_view_push(out@, n);
                    let tail1 = top_nodes_spec(blocks_view(q@));
                    if tail1 is Ok {
                        assert(nodes_view(out0) + (seq![node_view(n)] + tail1->Ok_0)
                            =~= nodes_view(out0).push(node_view(n)) + tail1->Ok_0);
                    }
                }
                out.push(n);
            },
            Err(e) => {
                proof {
                    assert(top_nodes_spec(qv) == Err::<Seq<NodeV>, BuildError>(e));
                }
                return Err(e);
            },
        }
    }
    proof {
        assert(nodes_view(out@) + Seq::<NodeV>::empty() =~= nodes_view(out@));
    }
    if out.len() == 1 {
        let n = out.remove(0);
        Ok(n)
    } else {
        Ok(Node::Sequence(out))
    }
}

} // verus!
