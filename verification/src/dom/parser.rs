//! The markup parser: from the flat tag stream to the element tree.

use crate::dom::lexer::{SpecTag, SpecTagContents, Tag, TagContents, TagStatus};
use crate::helper::{lift, Error, ErrorKind, SpecErrorKind, MAX_DEPTH};
use crate::{AttrMap, SpecAttrMap};
use vstd::prelude::*;

verus! {

/// The model of an [`ElementData`].
pub struct SpecElementData {
    pub tag_name: Seq<char>,
    pub attributes: SpecAttrMap,
}

/// The model of a [`NodeType`].
pub enum SpecNodeType {
    Text(Seq<char>),
    Element(SpecElementData),
}

/// The model of a [`Node`].
pub struct SpecNode {
    pub children: Seq<SpecNode>,
    pub node_type: SpecNodeType,
}

/// The name and the attributes of an element.
#[derive(Debug, PartialEq, Eq)]
pub struct ElementData {
    pub tag_name: String,
    pub attributes: AttrMap,
}

/// What a node is: a text, or an element.
#[derive(Debug, PartialEq, Eq)]
pub enum NodeType {
    Text(String),
    Element(ElementData),
}

/// A node of the tree. A text has no children.
#[derive(Debug, PartialEq, Eq)]
pub struct Node {
    pub children: Vec<Node>,
    pub node_type: NodeType,
}

impl DeepView for ElementData {
    type V = SpecElementData;

    open spec fn deep_view(&self) -> SpecElementData {
        SpecElementData { tag_name: self.tag_name@, attributes: self.attributes@ }
    }
}

impl DeepView for NodeType {
    type V = SpecNodeType;

    open spec fn deep_view(&self) -> SpecNodeType {
        match self {
            NodeType::Text(s) => SpecNodeType::Text(s@),
            NodeType::Element(e) => SpecNodeType::Element(e.deep_view()),
        }
    }
}

/// The model of a node: the models of its children, in order, under the
/// model of what it is.
pub open spec fn node_view(node: Node) -> SpecNode
    decreases node,
{
    SpecNode {
        children: Seq::new(
            node.children.len() as nat,
            |i: int|
                if 0 <= i < node.children.len() {
                    node_view(node.children[i])
                } else {
                    arbitrary()
                },
        ),
        node_type: node.node_type.deep_view(),
    }
}

impl DeepView for Node {
    type V = SpecNode;

    open spec fn deep_view(&self) -> SpecNode {
        node_view(*self)
    }
}

/// The text node of `text`.
pub open spec fn text_node(text: Seq<char>) -> SpecNode {
    SpecNode { children: Seq::empty(), node_type: SpecNodeType::Text(text) }
}

/// The element of the tag `tag` with the children `children`.
pub open spec fn element_node(tag: SpecTag, children: Seq<SpecNode>) -> SpecNode {
    SpecNode {
        children,
        node_type: SpecNodeType::Element(
            SpecElementData { tag_name: tag.name, attributes: tag.attrs },
        ),
    }
}

/// The node that starts at `pos`, with the number of items that it takes
/// after the one at `pos`; `depth` elements stand around it. A tag that is
/// not self-closing takes children up to the tag that ends it.
pub open spec fn node_at(tags: Seq<SpecTagContents>, pos: int, depth: nat) -> Result<
    (SpecNode, nat),
    SpecErrorKind,
>
    decreases tags.len() - pos, 0nat,
{
    if pos < 0 || pos >= tags.len() {
        Err(SpecErrorKind::NoElement)
    } else if depth >= MAX_DEPTH {
        Err(SpecErrorKind::TooDeep)
    } else {
        match tags[pos] {
            SpecTagContents::Content(_) => Err(SpecErrorKind::NodeIsContent),
            SpecTagContents::Tag(tag) => if tag.status == TagStatus::SelfClose {
                Ok((element_node(tag, Seq::empty()), 0nat))
            } else {
                match children_from(tags, pos + 1, tag.name, depth) {
                    Ok((children, used)) => Ok((element_node(tag, children), used)),
                    Err(e) => Err(e),
                }
            },
        }
    }
}

/// The children of the element `name` from `pos` on, with the number of
/// items that they take, the tag that ends the element counted in. The
/// closing tag of `name` ends the element and is taken. A closing tag of
/// another name ends it too, and is left to the element around it. The
/// end of the stream ends nothing: the element is unterminated.
pub open spec fn children_from(
    tags: Seq<SpecTagContents>,
    pos: int,
    name: Seq<char>,
    depth: nat,
) -> Result<(Seq<SpecNode>, nat), SpecErrorKind>
    decreases tags.len() - pos, 1nat,
{
    if pos < 0 || pos >= tags.len() {
        Err(SpecErrorKind::UnterminatedElement(name))
    } else {
        match tags[pos] {
            SpecTagContents::Content(text) => match children_from(tags, pos + 1, name, depth) {
                Ok((rest, used)) => Ok((seq![text_node(text)] + rest, used + 1)),
                Err(e) => Err(e),
            },
            SpecTagContents::Tag(tag) => if tag.status == TagStatus::Close {
                if tag.name == name {
                    Ok((Seq::empty(), 1nat))
                } else {
                    Ok((Seq::empty(), 0nat))
                }
            } else {
                match node_at(tags, pos, depth + 1) {
                    Err(e) => Err(e),
                    Ok((child, span)) => if pos + span + 1 >= tags.len() {
                        Err(SpecErrorKind::UnterminatedElement(name))
                    } else {
                        match children_from(tags, pos + span + 1, name, depth) {
                            Ok((rest, used)) => Ok((seq![child] + rest, span + 1 + used)),
                            Err(e) => Err(e),
                        }
                    },
                }
            },
        }
    }
}

/// The tree of a tag stream: the node that starts at its first item. What
/// follows that node is not looked at.
pub open spec fn tree_of(tags: Seq<SpecTagContents>) -> Result<SpecNode, SpecErrorKind> {
    match node_at(tags, 0, 0) {
        Ok((node, _)) => Ok(node),
        Err(e) => Err(e),
    }
}

/// Builds the node that starts at `pos`, and says where it ends.
fn node_from(tags: &Vec<TagContents>, pos: usize, depth: usize) -> (res: Result<
    (Node, usize),
    Error,
>)
    ensures
        match node_at(tags.deep_view(), pos as int, depth as nat) {
            Ok((node, span)) => {
                &&& res is Ok
                &&& res->Ok_0.0.deep_view() == node
                &&& res->Ok_0.1 == pos + span
                &&& res->Ok_0.1 < tags.len()
            },
            Err(e) => res is Err && res->Err_0.deep_view() == e,
        },
    decreases tags.len() - pos,
{
    let ghost stream = tags.deep_view();
    if pos >= tags.len() {
        return Err(Error(ErrorKind::NoElement));
    }
    if depth >= MAX_DEPTH {
        return Err(Error(ErrorKind::TooDeep));
    }
    assert(stream[pos as int] == tags[pos as int].deep_view());
    match &tags[pos] {
        TagContents::Content(_) => Err(Error(ErrorKind::NodeIsContent)),
        TagContents::Tag(tag) => {
            let mut children: Vec<Node> = Vec::new();
            let mut end: usize = pos;
            let ghost name = tag.name@;
            if tag.status != TagStatus::SelfClose {
                let mut i: usize = pos + 1;
                assert(children.deep_view() =~= Seq::<SpecNode>::empty());
                loop
                    invariant
                        stream == tags.deep_view(),
                        name == tag.name@,
                        depth < MAX_DEPTH,
                        pos < i <= tags.len(),
                        stream[pos as int] == SpecTagContents::Tag(tag.deep_view()),
                        tag.status != TagStatus::SelfClose,
                        match children_from(stream, i as int, name, depth as nat) {
                            Ok((rest, used)) => children_from(
                                stream,
                                pos + 1,
                                name,
                                depth as nat,
                            ) == Ok::<(Seq<SpecNode>, nat), SpecErrorKind>(
                                (children.deep_view() + rest, (i - pos - 1 + used) as nat),
                            ),
                            Err(e) => children_from(stream, pos + 1, name, depth as nat) == Err::<
                                (Seq<SpecNode>, nat),
                                SpecErrorKind,
                            >(e),
                        },
                    ensures
                        pos <= end < tags.len(),
                        children_from(stream, pos + 1, name, depth as nat) == Ok::<
                            (Seq<SpecNode>, nat),
                            SpecErrorKind,
                        >((children.deep_view(), (end - pos) as nat)),
                    decreases tags.len() - i,
                {
                    if i >= tags.len() {
                        return Err(Error(ErrorKind::UnterminatedElement(tag.name.clone())));
                    }
                    assert(stream[i as int] == tags[i as int].deep_view());
                    let ghost done = children.deep_view();
                    match &tags[i] {
                        TagContents::Content(text) => {
                            let node = Node {
                                children: Vec::new(),
                                node_type: NodeType::Text(text.clone()),
                            };
                            assert(node.deep_view().children =~= Seq::<SpecNode>::empty());
                            assert(node.deep_view() == text_node(text@));
                            children.push(node);
                            proof {
                                assert(children.deep_view() =~= done.push(text_node(text@)));
                                match children_from(stream, i + 1, name, depth as nat) {
                                    Ok((rest, used)) => {
                                        assert(done + (seq![text_node(text@)] + rest) =~= done.push(
                                            text_node(text@),
                                        ) + rest);
                                    },
                                    Err(e) => {},
                                }
                            }
                            i += 1;
                        },
                        TagContents::Tag(other) => {
                            if other.status == TagStatus::Close {
                                assert(done + Seq::<SpecNode>::empty() =~= done);
                                if other.name == tag.name {
                                    end = i;
                                } else {
                                    end = i - 1;
                                }
                                break ;
                            }
                            match node_from(tags, i, depth + 1) {
                                Err(e) => {
                                    return Err(e);
                                },
                                Ok((child, child_end)) => {
                                    let ghost model = child.deep_view();
                                    children.push(child);
                                    proof {
                                        assert(children.deep_view() =~= done.push(model));
                                        if child_end + 1 < tags.len() {
                                            match children_from(
                                                stream,
                                                child_end + 1,
                                                name,
                                                depth as nat,
                                            ) {
                                                Ok((rest, used)) => {
                                                    assert(done + (seq![model] + rest) =~= done.push(
                                                        model,
                                                    ) + rest);
                                                },
                                                Err(e) => {},
                                            }
                                        }
                                    }
                                    i = child_end + 1;
                                },
                            }
                        },
                    }
                }
            }
            let node = Node {
                children,
                node_type: NodeType::Element(
                    ElementData { tag_name: tag.name.clone(), attributes: tag.attrs.clone() },
                ),
            };
            proof {
                assert(node.deep_view().children =~= children.deep_view());
                if tag.status == TagStatus::SelfClose {
                    assert(children.deep_view() =~= Seq::<SpecNode>::empty());
                }
            }
            Ok((node, end))
        },
    }
}

/// A cursor over a flat tag stream.
pub struct Parser {
    pub tags: Vec<TagContents>,
    pub current: usize,
}

impl Parser {
    /// A cursor at the first item of `tags`.
    pub fn new(tags: Vec<TagContents>) -> (parser: Self)
        ensures
            parser.tags == tags,
            parser.current == 0,
    {
        Self { tags, current: 0 }
    }

    /// Builds the node that starts at the cursor, and leaves the cursor at
    /// the last item of that node. On failure the cursor stays.
    pub fn get_node(&mut self) -> (res: Result<Node, Error>)
        ensures
            final(self).tags == old(self).tags,
            match node_at(old(self).tags.deep_view(), old(self).current as int, 0) {
                Ok((node, span)) => {
                    &&& res is Ok
                    &&& res->Ok_0.deep_view() == node
                    &&& final(self).current == old(self).current + span
                },
                Err(e) => {
                    &&& res is Err
                    &&& res->Err_0.deep_view() == e
                    &&& final(self).current == old(self).current
                },
            },
    {
        match node_from(&self.tags, self.current, 0) {
            Ok((node, end)) => {
                self.current = end;
                Ok(node)
            },
            Err(e) => Err(e),
        }
    }
}

/// Builds the tree of a tag stream.
pub fn parse(tags: Vec<TagContents>) -> (res: Result<Node, Error>)
    ensures
        lift(res) == tree_of(tags.deep_view()),
{
    let mut parser = Parser::new(tags);
    parser.get_node()
}

} // verus!
