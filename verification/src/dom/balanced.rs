//! Balanced tag streams, and the law that the parser reads them as the
//! trees that they write down.

use crate::dom::lexer::{SpecTag, SpecTagContents, TagStatus};
use crate::dom::parser::{
    children_from, node_at, text_node, tree_of, SpecElementData, SpecNode, SpecNodeType,
};
use crate::helper::{SpecErrorKind, MAX_DEPTH};
use vstd::prelude::*;

verus! {

/// `node` is a tree as the parser builds them, and its elements nest at
/// most `room` deep: a text has no children, and an element needs room
/// for itself and one level less for each child.
pub open spec fn nests_within(node: SpecNode, room: nat) -> bool
    decreases node,
{
    match node.node_type {
        SpecNodeType::Text(_) => node.children.len() == 0,
        SpecNodeType::Element(_) => room > 0 && forall|i: int|
            0 <= i < node.children.len() ==> nests_within(
                #[trigger] node.children[i],
                (room - 1) as nat,
            ),
    }
}

/// The tag that opens the element `data`.
pub open spec fn open_tag(data: SpecElementData) -> SpecTagContents {
    SpecTagContents::Tag(
        SpecTag { name: data.tag_name, attrs: data.attributes, status: TagStatus::Open },
    )
}

/// The tag that is the whole of the childless element `data`.
pub open spec fn lone_tag(data: SpecElementData) -> SpecTagContents {
    SpecTagContents::Tag(
        SpecTag { name: data.tag_name, attrs: data.attributes, status: TagStatus::SelfClose },
    )
}

/// `item` is a closing tag of the name `name`, whatever its attributes.
pub open spec fn closes(item: SpecTagContents, name: Seq<char>) -> bool {
    match item {
        SpecTagContents::Tag(tag) => tag.status == TagStatus::Close && tag.name == name,
        SpecTagContents::Content(_) => false,
    }
}

/// `tags` is a balanced, rightly nested stream that writes `node` down: a
/// text is one item; an element is its opening tag, its children one
/// after the other, and a closing tag of its name; a childless element
/// may also be one self-closing tag.
pub open spec fn writes_down(tags: Seq<SpecTagContents>, node: SpecNode) -> bool
    decreases node, node.children.len() + 1,
{
    match node.node_type {
        SpecNodeType::Text(text) => tags == seq![SpecTagContents::Content(text)],
        SpecNodeType::Element(data) => {
            ||| node.children.len() == 0 && tags == seq![lone_tag(data)]
            ||| {
                &&& tags.len() >= 2
                &&& tags[0] == open_tag(data)
                &&& closes(tags.last(), data.tag_name)
                &&& writes_children(tags.subrange(1, tags.len() - 1), node, 0)
            }
        },
    }
}

/// `tags` writes down the children of `node` from the child `from` on,
/// one after the other and nothing else.
pub open spec fn writes_children(tags: Seq<SpecTagContents>, node: SpecNode, from: int) -> bool
    decreases node, node.children.len() - from,
{
    if from < 0 || from >= node.children.len() {
        tags.len() == 0
    } else {
        exists|k: int|
            0 <= k <= tags.len() && writes_down(tags.take(k), node.children[from])
                && writes_children(tags.skip(k), node, from + 1)
    }
}

/// Where a stream that writes an element down stands in `tags` at `pos`,
/// the element is the node that starts there.
proof fn lemma_node_at_written(
    tags: Seq<SpecTagContents>,
    pos: int,
    n: int,
    depth: nat,
    room: nat,
    node: SpecNode,
)
    requires
        node.node_type is Element,
        nests_within(node, room),
        depth + room <= MAX_DEPTH,
        0 <= pos,
        0 <= n,
        pos + n <= tags.len(),
        writes_down(tags.subrange(pos, pos + n), node),
    ensures
        n >= 1,
        node_at(tags, pos, depth) == Ok::<(SpecNode, nat), SpecErrorKind>((node, (n - 1) as nat)),
    decreases node, node.children.len() + 1,
{
    let part = tags.subrange(pos, pos + n);
    let data = node.node_type->Element_0;
    if node.children.len() == 0 && part == seq![lone_tag(data)] {
        assert(part.len() == 1);
        assert(tags[pos] == part[0]);
        assert(node.children =~= Seq::<SpecNode>::empty());
    } else {
        assert(tags[pos] == part[0]);
        assert(tags[pos + n - 1] == part[n - 1]);
        assert(tags.subrange(pos + 1, pos + n - 1) =~= part.subrange(1, n - 1));
        lemma_children_written(tags, pos + 1, n - 2, depth, room, node, 0);
        assert(node.children.skip(0) =~= node.children);
    }
}

/// Where a stream that writes the children of an element down stands in
/// `tags` at `pos`, with a closing tag of the element behind it, those
/// children are read there.
proof fn lemma_children_written(
    tags: Seq<SpecTagContents>,
    pos: int,
    n: int,
    depth: nat,
    room: nat,
    node: SpecNode,
    from: int,
)
    requires
        node.node_type is Element,
        nests_within(node, room),
        depth + room <= MAX_DEPTH,
        0 <= from <= node.children.len(),
        0 <= pos,
        0 <= n,
        pos + n < tags.len(),
        writes_children(tags.subrange(pos, pos + n), node, from),
        closes(tags[pos + n], node.node_type->Element_0.tag_name),
    ensures
        children_from(tags, pos, node.node_type->Element_0.tag_name, depth) == Ok::<
            (Seq<SpecNode>, nat),
            SpecErrorKind,
        >((node.children.skip(from), (n + 1) as nat)),
    decreases node, node.children.len() - from,
{
    let part = tags.subrange(pos, pos + n);
    if from == node.children.len() {
        assert(node.children.skip(from) =~= Seq::<SpecNode>::empty());
    } else {
        let child = node.children[from];
        let k = choose|k: int|
            0 <= k <= part.len() && writes_down(part.take(k), child) && writes_children(
                part.skip(k),
                node,
                from + 1,
            );
        assert(part.take(k) =~= tags.subrange(pos, pos + k));
        assert(part.skip(k) =~= tags.subrange(pos + k, pos + n));
        assert(nests_within(child, (room - 1) as nat));
        assert(seq![child] + node.children.skip(from + 1) =~= node.children.skip(from));
        match child.node_type {
            SpecNodeType::Text(text) => {
                assert(k == 1);
                assert(tags[pos] == part.take(k)[0]);
                assert(child.children =~= Seq::<SpecNode>::empty());
                assert(child == text_node(text));
            },
            SpecNodeType::Element(_) => {
                lemma_node_at_written(tags, pos, k, depth + 1, (room - 1) as nat, child);
                assert(tags[pos] == part.take(k)[0]);
            },
        }
        lemma_children_written(tags, pos + k, n - k, depth, room, node, from + 1);
    }
}

/// The tag that closes the element `data`.
pub open spec fn close_tag(data: SpecElementData) -> SpecTagContents {
    SpecTagContents::Tag(
        SpecTag { name: data.tag_name, attrs: Map::empty(), status: TagStatus::Close },
    )
}

/// One balanced stream that writes `node` down: a childless element
/// whose name is in `void` is written as one self-closing tag, every
/// other element with an opening and a closing tag.
pub open spec fn stream_of(node: SpecNode, void: spec_fn(Seq<char>) -> bool) -> Seq<
    SpecTagContents,
>
    decreases node, node.children.len() + 1,
{
    match node.node_type {
        SpecNodeType::Text(text) => seq![SpecTagContents::Content(text)],
        SpecNodeType::Element(data) => if node.children.len() == 0 && void(data.tag_name) {
            seq![lone_tag(data)]
        } else {
            seq![open_tag(data)] + streams_from(node, 0, void) + seq![close_tag(data)]
        },
    }
}

/// The streams of the children of `node` from the child `from` on, one
/// after the other.
pub open spec fn streams_from(
    node: SpecNode,
    from: int,
    void: spec_fn(Seq<char>) -> bool,
) -> Seq<SpecTagContents>
    decreases node, node.children.len() - from,
{
    if from < 0 || from >= node.children.len() {
        Seq::empty()
    } else {
        stream_of(node.children[from], void) + streams_from(node, from + 1, void)
    }
}

/// Every tree has a balanced stream: [`stream_of`] writes it down.
pub proof fn lemma_stream_writes_down(node: SpecNode, void: spec_fn(Seq<char>) -> bool)
    ensures
        writes_down(stream_of(node, void), node),
    decreases node, node.children.len() + 1,
{
    match node.node_type {
        SpecNodeType::Text(_) => {},
        SpecNodeType::Element(data) => {
            if !(node.children.len() == 0 && void(data.tag_name)) {
                let tags = stream_of(node, void);
                let inner = streams_from(node, 0, void);
                assert(tags.subrange(1, tags.len() - 1) =~= inner);
                lemma_streams_write_children(node, 0, void);
            }
        },
    }
}

/// The streams of the children of a node, one after the other, write
/// those children down.
proof fn lemma_streams_write_children(node: SpecNode, from: int, void: spec_fn(Seq<char>) -> bool)
    requires
        0 <= from <= node.children.len(),
    ensures
        writes_children(streams_from(node, from, void), node, from),
    decreases node, node.children.len() - from,
{
    if from < node.children.len() {
        let first = stream_of(node.children[from], void);
        let rest = streams_from(node, from + 1, void);
        let tags = streams_from(node, from, void);
        lemma_stream_writes_down(node.children[from], void);
        lemma_streams_write_children(node, from + 1, void);
        assert(tags.take(first.len() as int) =~= first);
        assert(tags.skip(first.len() as int) =~= rest);
    }
}

/// A balanced, rightly nested tag stream parses to the tree that it
/// writes down: the tree mirrors the opening and closing tags of the
/// stream. This holds of every element tree whose elements nest at most
/// `MAX_DEPTH` deep.
pub proof fn lemma_balanced_stream_parses(tags: Seq<SpecTagContents>, node: SpecNode)
    requires
        node.node_type is Element,
        nests_within(node, MAX_DEPTH as nat),
        writes_down(tags, node),
    ensures
        tree_of(tags) == Ok::<SpecNode, SpecErrorKind>(node),
{
    assert(tags.subrange(0, tags.len() as int) =~= tags);
    lemma_node_at_written(tags, 0, tags.len() as int, 0, MAX_DEPTH as nat, node);
}

/// Writing an element tree down and parsing the stream gives the tree
/// back, whichever of its childless elements are written self-closing.
pub proof fn lemma_written_tree_parses_back(node: SpecNode, void: spec_fn(Seq<char>) -> bool)
    requires
        node.node_type is Element,
        nests_within(node, MAX_DEPTH as nat),
    ensures
        tree_of(stream_of(node, void)) == Ok::<SpecNode, SpecErrorKind>(node),
{
    lemma_stream_writes_down(node, void);
    lemma_balanced_stream_parses(stream_of(node, void), node);
}

} // verus!
