use vstd::prelude::*;

verus! {

broadcast use vstd::std_specs::vec::group_vec_axioms, vstd::seq::group_seq_axioms;

/// A tree produced from an outline: a keyed group, an ordered run of
/// children, or a terminal rendered string.
#[derive(Debug, PartialEq)]
pub enum Node {
    /// Entries pairing a rendered-text key with a child node; keys are unique.
    Group(Vec<(String, Node)>),
    /// Children in document order.
    Sequence(Vec<Node>),
    /// A rendered text string, possibly empty.
    Leaf(String),
}

/// One item of an unordered list.
#[derive(Debug, PartialEq)]
pub enum Item {
    /// Inline content only, already rendered to text.
    Simple(String),
    /// Nested blocks private to this item, independent of the shared queue.
    Nested(Vec<Block>),
}

/// A block-level construct, as handed over by the tokenizer with inline
/// content already rendered to text.
#[derive(Debug, PartialEq)]
pub enum Block {
    /// Rendered heading text and its positive nesting level (1 = top).
    Heading(String, u32),
    /// An unordered list.
    List(Vec<Item>),
    /// A bare paragraph of rendered inline text.
    Paragraph(String),
    /// Any block kind the builder does not support.
    Unsupported,
}

/// Mathematical value of a `Node`.
pub ghost enum NodeV {
    Group(Seq<(Seq<char>, NodeV)>),
    Sequence(Seq<NodeV>),
    Leaf(Seq<char>),
}

/// Mathematical value of an `Item`.
pub ghost enum ItemV {
    Simple(Seq<char>),
    Nested(Seq<BlockV>),
}

/// Mathematical value of a `Block`.
pub ghost enum BlockV {
    Heading(Seq<char>, u32),
    List(Seq<ItemV>),
    Paragraph(Seq<char>),
    Unsupported,
}

pub open spec fn node_view(n: Node) -> NodeV
    decreases n,
{
    match n {
        Node::Group(entries) => NodeV::Group(entries_view(entries@)),
        Node::Sequence(children) => NodeV::Sequence(nodes_view(children@)),
        Node::Leaf(text) => NodeV::Leaf(text@),
    }
}

/// Views of keyed entries; the range guard bounds the recursion, and
/// out-of-range indices are never read.
pub open spec fn entries_view(s: Seq<(String, Node)>) -> Seq<(Seq<char>, NodeV)>
    decreases s,
{
    Seq::new(
        s.len(),
        |i: int|
            if 0 <= i < s.len() {
                (s[i].0@, node_view(s[i].1))
            } else {
                (Seq::empty(), NodeV::Leaf(Seq::empty()))
            },
    )
}

/// Views of a run of nodes.
pub open spec fn nodes_view(s: Seq<Node>) -> Seq<NodeV>
    decreases s,
{
    Seq::new(
        s.len(),
        |i: int|
            if 0 <= i < s.len() {
                node_view(s[i])
            } else {
                NodeV::Leaf(Seq::empty())
            },
    )
}

pub open spec fn item_view(it: Item) -> ItemV
    decreases it,
{
    match it {
        Item::Simple(text) => ItemV::Simple(text@),
        Item::Nested(blocks) => ItemV::Nested(blocks_view(blocks@)),
    }
}

/// Views of a run of list items.
pub open spec fn items_view(s: Seq<Item>) -> Seq<ItemV>
    decreases s,
{
    Seq::new(
        s.len(),
        |i: int|
            if 0 <= i < s.len() {
                item_view(s[i])
            } else {
                ItemV::Simple(Seq::empty())
            },
    )
}

pub open spec fn block_view(b: Block) -> BlockV
    decreases b,
{
    match b {
        Block::Heading(text, level) => BlockV::Heading(text@, level),
        Block::List(items) => BlockV::List(items_view(items@)),
        Block::Paragraph(text) => BlockV::Paragraph(text@),
        Block::Unsupported => BlockV::Unsupported,
    }
}

/// Views of a queue of blocks, front first.
pub open spec fn blocks_view(q: Seq<Block>) -> Seq<BlockV>
    decreases q,
{
    Seq::new(
        q.len(),
        |i: int|
            if 0 <= i < q.len() {
                block_view(q[i])
            } else {
                BlockV::Unsupported
            },
    )
}

impl View for Node {
    type V = NodeV;

    open spec fn view(&self) -> NodeV {
        node_view(*self)
    }
}

impl View for Item {
    type V = ItemV;

    open spec fn view(&self) -> ItemV {
        item_view(*self)
    }
}

impl View for Block {
    type V = BlockV;

    open spec fn view(&self) -> BlockV {
        block_view(*self)
    }
}

/// Structural size of one block; at least 1 for every variant.
pub open spec fn block_size(b: BlockV) -> nat
    decreases b,
{
    match b {
        BlockV::Heading(_, _) => 1,
        BlockV::List(items) => 1 + items_size(items),
        BlockV::Paragraph(_) => 1,
        BlockV::Unsupported => 1,
    }
}

/// Structural size of one list item; at least 1 for either variant.
pub open spec fn item_size(it: ItemV) -> nat
    decreases it,
{
    match it {
        ItemV::Simple(_) => 1,
        ItemV::Nested(blocks) => 1 + blocks_size(blocks),
    }
}

/// Total structural size of a queue of blocks.
pub open spec fn blocks_size(q: Seq<BlockV>) -> nat
    decreases q,
{
    if q.len() == 0 {
        0
    } else {
        block_size(q[0]) + blocks_size(q.drop_first())
    }
}

/// Total structural size of a run of list items.
pub open spec fn items_size(items: Seq<ItemV>) -> nat
    decreases items,
{
    if items.len() == 0 {
        0
    } else {
        item_size(items[0]) + items_size(items.drop_first())
    }
}

/// No two entries of a group carry the same key.
pub open spec fn unique_keys(entries: Seq<(Seq<char>, NodeV)>) -> bool {
    forall|i: int, j: int|
        0 <= i < j < entries.len() ==> #[trigger] entries[i].0 != #[trigger] entries[j].0
}

/// Well-formedness of a tree: every group anywhere in it has unique
/// keys.
pub open spec fn node_wf(n: NodeV) -> bool
    decreases n,
{
    match n {
        NodeV::Group(entries) => unique_keys(entries) && entries_wf(entries),
        NodeV::Sequence(children) => nodes_wf(children),
        NodeV::Leaf(_) => true,
    }
}

/// Well-formedness of every value of a run of entries.
pub open spec fn entries_wf(entries: Seq<(Seq<char>, NodeV)>) -> bool
    decreases entries,
{
    if entries.len() == 0 {
        true
    } else {
        node_wf(entries[0].1) && entries_wf(entries.drop_first())
    }
}

/// Well-formedness of every node of a run.
pub open spec fn nodes_wf(s: Seq<NodeV>) -> bool
    decreases s,
{
    if s.len() == 0 {
        true
    } else {
        node_wf(s[0]) && nodes_wf(s.drop_first())
    }
}

/// A run of entries is well-formed exactly when each of its values is.
pub proof fn lemma_entries_wf_index(entries: Seq<(Seq<char>, NodeV)>)
    ensures
        entries_wf(entries) <==> (forall|i: int|
            0 <= i < entries.len() ==> #[trigger] node_wf(entries[i].1)),
    decreases entries.len(),
{
    if entries.len() > 0 {
        lemma_entries_wf_index(entries.drop_first());
        assert forall|i: int|
            0 <= i < entries.len() && entries_wf(entries) implies #[trigger] node_wf(
            entries[i].1,
        ) by {
            if i > 0 {
                assert(entries.drop_first()[i - 1] == entries[i]);
            }
        }
        if forall|i: int| 0 <= i < entries.len() ==> #[trigger] node_wf(entries[i].1) {
            assert forall|i: int|
                0 <= i < entries.drop_first().len() implies #[trigger] node_wf(
                entries.drop_first()[i].1,
            ) by {
                assert(entries.drop_first()[i] == entries[i + 1]);
            }
            assert(node_wf(entries[0].1));
            assert(entries_wf(entries.drop_first()));
        }
    }
}

/// A run of nodes is well-formed exactly when each of them is.
pub proof fn lemma_nodes_wf_index(s: Seq<NodeV>)
    ensures
        nodes_wf(s) <==> (forall|i: int| 0 <= i < s.len() ==> #[trigger] node_wf(s[i])),
    decreases s.len(),
{
    if s.len() > 0 {
        lemma_nodes_wf_index(s.drop_first());
        assert forall|i: int| 0 <= i < s.len() && nodes_wf(s) implies #[trigger] node_wf(
            s[i],
        ) by {
            if i > 0 {
                assert(s.drop_first()[i - 1] == s[i]);
            }
        }
        if forall|i: int| 0 <= i < s.len() ==> #[trigger] node_wf(s[i]) {
            assert forall|i: int| 0 <= i < s.drop_first().len() implies #[trigger] node_wf(
                s.drop_first()[i],
            ) by {
                assert(s.drop_first()[i] == s[i + 1]);
            }
            assert(node_wf(s[0]));
            assert(nodes_wf(s.drop_first()));
        }
    }
}

pub proof fn lemma_blocks_view_drop_first(s: Seq<Block>)
    requires
        s.len() > 0,
    ensures
        blocks_view(s.drop_first()) == blocks_view(s).drop_first(),
{
    assert(blocks_view(s.drop_first()) =~= blocks_view(s).drop_first());
}

pub proof fn lemma_items_view_drop_first(s: Seq<Item>)
    requires
        s.len() > 0,
    ensures
        items_view(s.drop_first()) == items_view(s).drop_first(),
{
    assert(items_view(s.drop_first()) =~= items_view(s).drop_first());
}

pub proof fn lemma_nodes_view_push(s: Seq<Node>, n: Node)
    ensures
        nodes_view(s.push(n)) == nodes_view(s).push(node_view(n)),
{
    assert(nodes_view(s.push(n)) =~= nodes_view(s).push(node_view(n)));
}

pub proof fn lemma_entries_view_push(s: Seq<(String, Node)>, key: String, n: Node)
    ensures
        entries_view(s.push((key, n))) == entries_view(s).push((key@, node_view(n))),
{
    assert(entries_view(s.push((key, n))) =~= entries_view(s).push((key@, node_view(n))));
}

pub proof fn lemma_entries_view_update(s: Seq<(String, Node)>, i: int, key: String, n: Node)
    requires
        0 <= i < s.len(),
    ensures
        entries_view(s.update(i, (key, n))) == entries_view(s).update(i, (key@, node_view(n))),
{
    assert(entries_view(s.update(i, (key, n))) =~= entries_view(s).update(i, (key@, node_view(n))));
}

pub proof fn lemma_block_size_pos(b: BlockV)
    ensures
        block_size(b) >= 1,
{
    match b {
        BlockV::Heading(_, _) => {},
        BlockV::List(items) => {},
        BlockV::Paragraph(_) => {},
        BlockV::Unsupported => {},
    }
}

pub proof fn lemma_item_size_pos(it: ItemV)
    ensures
        item_size(it) >= 1,
{
    match it {
        ItemV::Simple(_) => {},
        ItemV::Nested(_) => {},
    }
}

} // verus!
