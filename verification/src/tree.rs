use vstd::prelude::*;
use vstd::string::StringExecFns;
use vstd::std_specs::cmp::PartialEqSpecImpl;
use vstd::std_specs::convert::FromSpecImpl;
use crate::text::to_scalars;

verus! {

/// A place in the input, counted in scalars: the scalar's index, and the line
/// and column it stands in.
#[derive(Clone, Copy, Debug)]
pub struct InputPosition {
    pub index: usize,
    pub line: usize,
    pub column: usize,
}

impl InputPosition {
    /// A position with `usize::MAX` in any field stands for "any position":
    /// it compares equal to every other one.
    pub open spec fn is_any(&self) -> bool {
        self.index == usize::MAX || self.line == usize::MAX || self.column == usize::MAX
    }

    pub fn new(index: usize, line: usize, column: usize) -> (position: InputPosition)
        ensures
            position == (InputPosition { index, line, column }),
    {
        InputPosition { index, line, column }
    }
}

impl PartialEq for InputPosition {
    fn eq(&self, other: &Self) -> (equal: bool) {
        if self.index == usize::MAX || self.line == usize::MAX || self.column == usize::MAX
            || other.index == usize::MAX || other.line == usize::MAX || other.column
            == usize::MAX {
            true
        } else {
            self.index == other.index && self.line == other.line && self.column == other.column
        }
    }
}

impl PartialEqSpecImpl for InputPosition {
    open spec fn obeys_eq_spec() -> bool {
        true
    }

    open spec fn eq_spec(&self, other: &Self) -> bool {
        self.is_any() || other.is_any() || (self.index == other.index && self.line == other.line
            && self.column == other.column)
    }
}

#[derive(Debug, PartialEq)]
pub enum SyntaxChild {
    Node(SyntaxNode),
    Leaf(SyntaxLeaf),
    Error(SyntaxError),
}

#[derive(Debug, PartialEq)]
pub struct SyntaxNode {
    pub name: String,
    pub children: Vec<SyntaxChild>,
}

#[derive(Debug, PartialEq)]
pub struct SyntaxLeaf {
    pub start: InputPosition,
    pub value: String,
}

#[derive(Debug, PartialEq)]
pub struct SyntaxError {
    pub message: String,
    pub children: Vec<SyntaxChild>,
}

#[derive(Debug, PartialEq)]
pub struct SyntaxTree {
    pub root: SyntaxNode,
}

/// What a `SyntaxChild` stands for: the same tree over sequences.
pub enum ChildView {
    Node { name: Seq<char>, children: Seq<ChildView> },
    Leaf { start: InputPosition, value: Seq<char> },
    Error { message: Seq<char>, children: Seq<ChildView> },
}

pub struct NodeView {
    pub name: Seq<char>,
    pub children: Seq<ChildView>,
}

pub struct LeafView {
    pub start: InputPosition,
    pub value: Seq<char>,
}

pub struct ErrorView {
    pub message: Seq<char>,
    pub children: Seq<ChildView>,
}

pub open spec fn child_view(child: SyntaxChild) -> ChildView
    decreases child, 0nat,
{
    match child {
        SyntaxChild::Node(node) => ChildView::Node {
            name: node.name@,
            children: children_view(node.children@),
        },
        SyntaxChild::Leaf(leaf) => ChildView::Leaf { start: leaf.start, value: leaf.value@ },
        SyntaxChild::Error(error) => ChildView::Error {
            message: error.message@,
            children: children_view(error.children@),
        },
    }
}

/// The views of a child list, item by item.
pub open spec fn children_view(children: Seq<SyntaxChild>) -> Seq<ChildView>
    decreases children, 1nat,
{
    Seq::new(
        children.len(),
        |i: int|
            if 0 <= i < children.len() {
                child_view(children[i])
            } else {
                arbitrary()
            },
    )
}

impl View for SyntaxChild {
    type V = ChildView;

    open spec fn view(&self) -> ChildView {
        child_view(*self)
    }
}

impl View for SyntaxNode {
    type V = NodeView;

    open spec fn view(&self) -> NodeView {
        NodeView { name: self.name@, children: children_view(self.children@) }
    }
}

impl View for SyntaxLeaf {
    type V = LeafView;

    open spec fn view(&self) -> LeafView {
        LeafView { start: self.start, value: self.value@ }
    }
}

impl View for SyntaxError {
    type V = ErrorView;

    open spec fn view(&self) -> ErrorView {
        ErrorView { message: self.message@, children: children_view(self.children@) }
    }
}

impl View for SyntaxTree {
    type V = NodeView;

    open spec fn view(&self) -> NodeView {
        self.root@
    }
}

fn copy_child(child: &SyntaxChild) -> (copy: SyntaxChild)
    ensures
        copy@ == child@,
    decreases child, 0nat,
{
    match child {
        SyntaxChild::Node(node) => SyntaxChild::Node(
            SyntaxNode { name: node.name.clone(), children: copy_children(&node.children) },
        ),
        SyntaxChild::Leaf(leaf) => SyntaxChild::Leaf(
            SyntaxLeaf { start: leaf.start, value: leaf.value.clone() },
        ),
        SyntaxChild::Error(error) => SyntaxChild::Error(
            SyntaxError {
                message: error.message.clone(),
                children: copy_children(&error.children),
            },
        ),
    }
}

fn copy_children(children: &Vec<SyntaxChild>) -> (copies: Vec<SyntaxChild>)
    ensures
        children_view(copies@) == children_view(children@),
    decreases children, 1nat,
{
    let mut copies: Vec<SyntaxChild> = Vec::new();
    let mut k: usize = 0;
    while k < children.len()
        invariant
            k <= children.len(),
            copies@.len() == k,
            forall|j: int| 0 <= j < k ==> copies@[j]@ == children@[j]@,
        decreases children.len() - k,
    {
        copies.push(copy_child(&children[k]));
        k += 1;
    }
    proof {
        assert(children_view(copies@) =~= children_view(children@));
    }
    copies
}

impl Clone for SyntaxChild {
    fn clone(&self) -> (copy: SyntaxChild)
        ensures
            copy@ == self@,
    {
        copy_child(self)
    }
}

impl Clone for SyntaxNode {
    fn clone(&self) -> (copy: SyntaxNode)
        ensures
            copy@ == self@,
    {
        SyntaxNode { name: self.name.clone(), children: copy_children(&self.children) }
    }
}

impl Clone for SyntaxLeaf {
    fn clone(&self) -> (copy: SyntaxLeaf)
        ensures
            copy@ == self@,
    {
        SyntaxLeaf { start: self.start, value: self.value.clone() }
    }
}

impl Clone for SyntaxError {
    fn clone(&self) -> (copy: SyntaxError)
        ensures
            copy@ == self@,
    {
        SyntaxError { message: self.message.clone(), children: copy_children(&self.children) }
    }
}

impl Clone for SyntaxTree {
    fn clone(&self) -> (copy: SyntaxTree)
        ensures
            copy@ == self@,
    {
        SyntaxTree { root: self.root.clone() }
    }
}

/// The text that a child covers: the values of the leaves under it, left to
/// right. What stands under an error marker does not count.
pub open spec fn leaf_text(child: ChildView) -> Seq<char>
    decreases child, 0nat,
{
    match child {
        ChildView::Node { children, .. } => leaves_text(children),
        ChildView::Leaf { value, .. } => value,
        ChildView::Error { .. } => Seq::empty(),
    }
}

/// `leaf_text` of each child of a list, one after the other.
pub open spec fn leaves_text(children: Seq<ChildView>) -> Seq<char>
    decreases children, 1nat,
{
    if children.len() == 0 {
        Seq::empty()
    } else {
        leaves_text(children.drop_last()) + leaf_text(children.last())
    }
}

impl SyntaxTree {
    pub fn new(root: SyntaxNode) -> (tree: SyntaxTree)
        ensures
            tree.root == root,
    {
        SyntaxTree { root }
    }
}

impl SyntaxNode {
    pub fn new(name: String, children: Vec<SyntaxChild>) -> (node: SyntaxNode)
        ensures
            node.name == name,
            node.children == children,
    {
        SyntaxNode { name, children }
    }
}

impl SyntaxLeaf {
    pub fn new(start: InputPosition, value: String) -> (leaf: SyntaxLeaf)
        ensures
            leaf.start == start,
            leaf.value == value,
    {
        SyntaxLeaf { start, value }
    }
}

impl SyntaxError {
    pub fn new(message: String, children: Vec<SyntaxChild>) -> (error: SyntaxError)
        ensures
            error.message == message,
            error.children == children,
    {
        SyntaxError { message, children }
    }
}

impl SyntaxChild {
    pub fn node(name: String, children: Vec<SyntaxChild>) -> (child: SyntaxChild)
        ensures
            child == SyntaxChild::Node(SyntaxNode { name, children }),
            child@ == (ChildView::Node { name: name@, children: children_view(children@) }),
    {
        SyntaxChild::Node(SyntaxNode::new(name, children))
    }

    pub fn leaf(start: InputPosition, value: String) -> (child: SyntaxChild)
        ensures
            child == SyntaxChild::Leaf(SyntaxLeaf { start, value }),
            child@ == (ChildView::Leaf { start, value: value@ }),
    {
        SyntaxChild::Leaf(SyntaxLeaf::new(start, value))
    }

    pub fn error(message: String, children: Vec<SyntaxChild>) -> (child: SyntaxChild)
        ensures
            child == SyntaxChild::Error(SyntaxError { message, children }),
            child@ == (ChildView::Error { message: message@, children: children_view(children@) }),
    {
        SyntaxChild::Error(SyntaxError::new(message, children))
    }

    pub fn into_node(&self) -> (node: &SyntaxNode)
        requires
            self is Node,
        ensures
            *self == SyntaxChild::Node(*node),
    {
        match self {
            SyntaxChild::Node(node) => node,
            _ => unreached(),
        }
    }

    pub fn into_leaf(&self) -> (leaf: &SyntaxLeaf)
        requires
            self is Leaf,
        ensures
            *self == SyntaxChild::Leaf(*leaf),
    {
        match self {
            SyntaxChild::Leaf(leaf) => leaf,
            _ => unreached(),
        }
    }

    pub fn into_error(&self) -> (error: &SyntaxError)
        requires
            self is Error,
        ensures
            *self == SyntaxChild::Error(*error),
    {
        match self {
            SyntaxChild::Error(error) => error,
            _ => unreached(),
        }
    }

    /// The text of the leaves under this child, left to right.
    pub fn join_children(&self) -> (text: String)
        ensures
            text@ == leaf_text(self@),
        decreases self, 0nat,
    {
        match self {
            SyntaxChild::Node(node) => join_leaves(&node.children),
            SyntaxChild::Leaf(leaf) => leaf.value.clone(),
            SyntaxChild::Error(_) => String::new(),
        }
    }
}

fn join_leaves(children: &Vec<SyntaxChild>) -> (text: String)
    ensures
        text@ == leaves_text(children_view(children@)),
    decreases children, 1nat,
{
    let ghost views = children_view(children@);
    let mut text = String::new();
    let mut k: usize = 0;
    while k < children.len()
        invariant
            k <= children.len(),
            views == children_view(children@),
            views.len() == children.len(),
            text@ == leaves_text(views.take(k as int)),
        decreases children.len() - k,
    {
        let part = children[k].join_children();
        text.append(part.as_str());
        proof {
            assert(views.take(k + 1).drop_last() =~= views.take(k as int));
        }
        k += 1;
    }
    proof {
        assert(views.take(k as int) =~= views);
    }
    text
}

/// What `expand` makes of one child. A node is replaced by its children where
/// `level` is 0 or `recursive` is set; they are expanded in turn, one level
/// further down. Leaves and error markers stay.
pub open spec fn expand_child(child: ChildView, level: nat, recursive: bool) -> Seq<ChildView>
    decreases child, 0nat,
{
    match child {
        ChildView::Node { children, .. } => if level == 0 || recursive {
            expand_children(children, level + 1, recursive)
        } else {
            seq![child]
        },
        _ => seq![child],
    }
}

/// What `expand` makes of a child list: `expand_child` of each, one after the
/// other.
pub open spec fn expand_children(children: Seq<ChildView>, level: nat, recursive: bool) -> Seq<
    ChildView,
>
    decreases children, 1nat,
{
    if children.len() == 0 {
        Seq::empty()
    } else {
        expand_children(children.drop_last(), level, recursive) + expand_child(
            children.last(),
            level,
            recursive,
        )
    }
}

/// The error markers of a child: the child itself where it is one, those
/// under it where it is a node, none for a leaf.
pub open spec fn errors_in(child: ChildView) -> Seq<ChildView>
    decreases child, 0nat,
{
    match child {
        ChildView::Node { children, .. } => errors_among(children),
        ChildView::Leaf { .. } => Seq::empty(),
        ChildView::Error { .. } => seq![child],
    }
}

/// The error markers of a child list, in the order in which they stand.
pub open spec fn errors_among(children: Seq<ChildView>) -> Seq<ChildView>
    decreases children, 1nat,
{
    if children.len() == 0 {
        Seq::empty()
    } else {
        errors_among(children.drop_last()) + errors_in(children.last())
    }
}

/// Where the first leaf under a child starts, error markers included.
pub open spec fn first_start_in(child: ChildView) -> Option<InputPosition>
    decreases child, 0nat,
{
    match child {
        ChildView::Node { children, .. } => first_start(children),
        ChildView::Leaf { start, .. } => Some(start),
        ChildView::Error { children, .. } => first_start(children),
    }
}

/// Where the first leaf of a child list starts.
pub open spec fn first_start(children: Seq<ChildView>) -> Option<InputPosition>
    decreases children, 1nat,
{
    if children.len() == 0 {
        None
    } else {
        match first_start_in(children.first()) {
            Some(start) => Some(start),
            None => first_start(children.drop_first()),
        }
    }
}

/// The index of the first node of that name in a child list, or the list's
/// length where there is none.
pub open spec fn node_index(children: Seq<ChildView>, name: Seq<char>) -> int
    decreases children.len(),
{
    if children.len() == 0 {
        0
    } else if children.first() matches ChildView::Node { name: found, .. } && found == name {
        0
    } else {
        1 + node_index(children.drop_first(), name)
    }
}

pub proof fn lemma_children_view_push(children: Seq<SyntaxChild>, child: SyntaxChild)
    ensures
        children_view(children.push(child)) == children_view(children).push(child@),
{
    assert(children_view(children.push(child)) =~= children_view(children).push(child@));
}

pub proof fn lemma_children_view_add(front: Seq<SyntaxChild>, back: Seq<SyntaxChild>)
    ensures
        children_view(front + back) == children_view(front) + children_view(back),
{
    assert(children_view(front + back) =~= children_view(front) + children_view(back));
}

/// With `recursive` set, the level does not matter.
pub proof fn lemma_expand_recursive_level(children: Seq<ChildView>, level: nat, other: nat)
    ensures
        expand_children(children, level, true) == expand_children(children, other, true),
    decreases children, 1nat,
{
    if children.len() > 0 {
        lemma_expand_recursive_level(children.drop_last(), level, other);
        let last = children.last();
        match last {
            ChildView::Node { children: inner, .. } => {
                lemma_expand_recursive_level(inner, level + 1, other + 1);
            },
            _ => {},
        }
        assert(expand_child(last, level, true) == expand_child(last, other, true));
    }
}

/// Below the top level, and without `recursive`, nothing changes.
pub proof fn lemma_expand_below_top(children: Seq<ChildView>, level: nat)
    requires
        level > 0,
    ensures
        expand_children(children, level, false) == children,
    decreases children.len(),
{
    if children.len() > 0 {
        lemma_expand_below_top(children.drop_last(), level);
        assert(expand_child(children.last(), level, false) == seq![children.last()]);
        assert(children.drop_last() + seq![children.last()] =~= children);
    } else {
        assert(children =~= Seq::empty());
    }
}

fn expand_list(children: Vec<SyntaxChild>, hierarchy: usize, recursive: bool) -> (flat: Vec<
    SyntaxChild,
>)
    ensures
        children_view(flat@) == expand_children(
            children_view(children@),
            hierarchy as nat,
            recursive,
        ),
    decreases children,
{
    let ghost views = children_view(children@);
    let ghost level = hierarchy as nat;
    let mut flat: Vec<SyntaxChild> = Vec::new();
    for child in it: children
        invariant
            it.seq() == children@,
            views == children_view(children@),
            level == hierarchy as nat,
            children_view(flat@) == expand_children(
                views.take(it.index() as int),
                level,
                recursive,
            ),
    {
        let ghost k = it.index() as int;
        let ghost before = flat@;
        let ghost view = child@;
        proof {
            let upto = views.take(k + 1);
            assert(upto.drop_last() =~= views.take(k));
            assert(upto.last() == view);
            assert(expand_children(upto, level, recursive) == expand_children(
                views.take(k),
                level,
                recursive,
            ) + expand_child(view, level, recursive));
        }
        match child {
            SyntaxChild::Node(node) => {
                let ghost inner_views = children_view(node.children@);
                assert(view == (ChildView::Node { name: node.name@, children: inner_views }));
                if recursive {
                    let mut inner = expand_list(node.children, hierarchy, true);
                    proof {
                        lemma_expand_recursive_level(inner_views, level, level + 1);
                        lemma_children_view_add(before, inner@);
                    }
                    flat.append(&mut inner);
                } else if hierarchy == 0 {
                    let mut inner = node.children;
                    proof {
                        lemma_expand_below_top(inner_views, 1);
                        lemma_children_view_add(before, inner@);
                    }
                    flat.append(&mut inner);
                } else {
                    proof {
                        lemma_children_view_push(before, SyntaxChild::Node(node));
                    }
                    flat.push(SyntaxChild::Node(node));
                }
            },
            other => {
                proof {
                    lemma_children_view_push(before, other);
                }
                flat.push(other);
            },
        }
    }
    proof {
        assert(views.take(views.len() as int) =~= views);
    }
    flat
}

fn eject_list(children: Vec<SyntaxChild>) -> (errors: Vec<SyntaxChild>)
    ensures
        children_view(errors@) == errors_among(children_view(children@)),
    decreases children,
{
    let ghost views = children_view(children@);
    let mut errors: Vec<SyntaxChild> = Vec::new();
    for child in it: children
        invariant
            it.seq() == children@,
            views == children_view(children@),
            children_view(errors@) == errors_among(views.take(it.index() as int)),
    {
        let ghost k = it.index() as int;
        let ghost before = errors@;
        let ghost view = child@;
        proof {
            let upto = views.take(k + 1);
            assert(upto.drop_last() =~= views.take(k));
            assert(upto.last() == view);
            assert(errors_among(upto) == errors_among(views.take(k)) + errors_in(view));
        }
        match child {
            SyntaxChild::Node(node) => {
                let mut inner = eject_list(node.children);
                proof {
                    lemma_children_view_add(before, inner@);
                }
                errors.append(&mut inner);
            },
            SyntaxChild::Error(error) => {
                proof {
                    lemma_children_view_push(before, SyntaxChild::Error(error));
                }
                errors.push(SyntaxChild::Error(error));
            },
            SyntaxChild::Leaf(_) => {
                assert(errors_among(views.take(k)) + Seq::<ChildView>::empty() =~= errors_among(
                    views.take(k),
                ));
            },
        }
    }
    proof {
        assert(views.take(views.len() as int) =~= views);
    }
    errors
}

fn start_of(children: &Vec<SyntaxChild>) -> (start: Option<InputPosition>)
    ensures
        start == first_start(children_view(children@)),
    decreases children,
{
    let ghost views = children_view(children@);
    let mut k: usize = 0;
    proof {
        assert(views.skip(0) =~= views);
    }
    while k < children.len()
        invariant
            k <= children.len(),
            views == children_view(children@),
            first_start(views) == first_start(views.skip(k as int)),
        decreases children.len() - k,
    {
        proof {
            let rest = views.skip(k as int);
            assert(rest.first() == children@[k as int]@);
            assert(rest.drop_first() =~= views.skip(k + 1));
            assert(first_start(rest) == match first_start_in(rest.first()) {
                Some(start) => Some(start),
                None => first_start(views.skip(k + 1)),
            });
        }
        match &children[k] {
            SyntaxChild::Node(node) => {
                if let Some(found) = start_of(&node.children) {
                    return Some(found);
                }
            },
            SyntaxChild::Leaf(leaf) => {
                return Some(leaf.start);
            },
            SyntaxChild::Error(error) => {
                if let Some(found) = start_of(&error.children) {
                    return Some(found);
                }
            },
        }
        k += 1;
    }
    None
}

/// `node_index` gives the first node of that name, or the length.
pub proof fn lemma_node_index(children: Seq<ChildView>, name: Seq<char>)
    ensures
        0 <= node_index(children, name) <= children.len(),
        node_index(children, name) < children.len() ==> (children[node_index(children, name)]
            matches ChildView::Node { name: found, .. } && found == name),
        forall|j: int|
            0 <= j < node_index(children, name) ==> !(#[trigger] children[j] matches ChildView::Node {
                name: found,
                ..
            } && found == name),
    decreases children.len(),
{
    if children.len() > 0 {
        let rest = children.drop_first();
        lemma_node_index(rest, name);
        if !(children.first() matches ChildView::Node { name: found, .. } && found == name) {
            assert forall|j: int| 0 <= j < node_index(children, name) implies !(
            #[trigger] children[j] matches ChildView::Node { name: found, .. } && found == name) by {
                if j > 0 {
                    assert(children[j] == rest[j - 1]);
                }
            }
        }
    }
}

/// The operations on a child list.
pub trait SyntaxChildVec: Sized {
    /// The list that the operations read.
    spec fn list(&self) -> Seq<SyntaxChild>;

    /// Replaces nodes by their children: at the top level only, or, with
    /// `recursive`, at every level.
    fn expand(self, hierarchy: usize, recursive: bool) -> (flat: Vec<SyntaxChild>)
        ensures
            children_view(flat@) == expand_children(
                children_view(self.list()),
                hierarchy as nat,
                recursive,
            ),
    ;

    fn get_start_position(&self) -> (start: Option<InputPosition>)
        ensures
            start == first_start(children_view(self.list())),
    ;

    /// Lifts the error markers of the list, and of the nodes in it, into one
    /// flat list.
    fn eject_errors(self) -> (errors: Vec<SyntaxChild>)
        ensures
            children_view(errors@) == errors_among(children_view(self.list())),
    ;

    fn join_into_string(&self) -> (text: String)
        ensures
            text@ == leaves_text(children_view(self.list())),
    ;

    fn get_child(&self, index: usize) -> (child: &SyntaxChild)
        requires
            index < self.list().len(),
        ensures
            *child == self.list()[index as int],
    ;

    fn get_child_or_none(&self, index: usize) -> (child: Option<&SyntaxChild>)
        ensures
            index < self.list().len() ==> child == Some(&self.list()[index as int]),
            index >= self.list().len() ==> child is None,
    ;

    fn get_node(&self, index: usize) -> (node: &SyntaxNode)
        requires
            index < self.list().len(),
            self.list()[index as int] is Node,
        ensures
            self.list()[index as int] == SyntaxChild::Node(*node),
    ;

    fn get_node_or_none(&self, index: usize) -> (node: Option<&SyntaxNode>)
        ensures
            index < self.list().len() && self.list()[index as int] is Node ==> node is Some
                && self.list()[index as int] == SyntaxChild::Node(*node->0),
            !(index < self.list().len() && self.list()[index as int] is Node) ==> node is None,
    ;

    fn get_leaf(&self, index: usize) -> (leaf: &SyntaxLeaf)
        requires
            index < self.list().len(),
            self.list()[index as int] is Leaf,
        ensures
            self.list()[index as int] == SyntaxChild::Leaf(*leaf),
    ;

    fn get_leaf_or_none(&self, index: usize) -> (leaf: Option<&SyntaxLeaf>)
        ensures
            index < self.list().len() && self.list()[index as int] is Leaf ==> leaf is Some
                && self.list()[index as int] == SyntaxChild::Leaf(*leaf->0),
            !(index < self.list().len() && self.list()[index as int] is Leaf) ==> leaf is None,
    ;

    fn get_error(&self, index: usize) -> (error: &SyntaxError)
        requires
            index < self.list().len(),
            self.list()[index as int] is Error,
        ensures
            self.list()[index as int] == SyntaxChild::Error(*error),
    ;

    fn get_error_or_none(&self, index: usize) -> (error: Option<&SyntaxError>)
        ensures
            index < self.list().len() && self.list()[index as int] is Error ==> error is Some
                && self.list()[index as int] == SyntaxChild::Error(*error->0),
            !(index < self.list().len() && self.list()[index as int] is Error) ==> error is None,
    ;

    /// The first node of that name among the items of the list.
    fn find_node(&self, name: &str) -> (node: &SyntaxNode)
        requires
            node_index(children_view(self.list()), name@) < self.list().len(),
        ensures
            self.list()[node_index(children_view(self.list()), name@)] == SyntaxChild::Node(*node),
    ;

    fn find_node_or_none(&self, name: &str) -> (node: Option<&SyntaxNode>)
        ensures
            node_index(children_view(self.list()), name@) < self.list().len() ==> node is Some
                && self.list()[node_index(children_view(self.list()), name@)] == SyntaxChild::Node(
                *node->0,
            ),
            node_index(children_view(self.list()), name@) >= self.list().len() ==> node is None,
    ;

    /// The nodes among the items of the list, in order.
    fn filter_nodes(&self) -> (nodes: Vec<&SyntaxNode>)
        ensures
            Seq::new(nodes@.len(), |i: int| SyntaxChild::Node(*nodes@[i])) == self.list().filter(
                |child: SyntaxChild| child is Node,
            ),
    ;
}

impl SyntaxChildVec for Vec<SyntaxChild> {
    open spec fn list(&self) -> Seq<SyntaxChild> {
        self@
    }

    fn expand(self, hierarchy: usize, recursive: bool) -> (flat: Vec<SyntaxChild>) {
        expand_list(self, hierarchy, recursive)
    }

    fn get_start_position(&self) -> (start: Option<InputPosition>) {
        start_of(self)
    }

    fn eject_errors(self) -> (errors: Vec<SyntaxChild>) {
        eject_list(self)
    }

    fn join_into_string(&self) -> (text: String) {
        join_leaves(self)
    }

    fn get_child(&self, index: usize) -> (child: &SyntaxChild) {
        &self[index]
    }

    fn get_child_or_none(&self, index: usize) -> (child: Option<&SyntaxChild>) {
        if index < self.len() {
            Some(&self[index])
        } else {
            None
        }
    }

    fn get_node(&self, index: usize) -> (node: &SyntaxNode) {
        self[index].into_node()
    }

    fn get_node_or_none(&self, index: usize) -> (node: Option<&SyntaxNode>) {
        if let Some(SyntaxChild::Node(node)) = self.get_child_or_none(index) {
            Some(node)
        } else {
            None
        }
    }

    fn get_leaf(&self, index: usize) -> (leaf: &SyntaxLeaf) {
        self[index].into_leaf()
    }

    fn get_leaf_or_none(&self, index: usize) -> (leaf: Option<&SyntaxLeaf>) {
        if let Some(SyntaxChild::Leaf(leaf)) = self.get_child_or_none(index) {
            Some(leaf)
        } else {
            None
        }
    }

    fn get_error(&self, index: usize) -> (error: &SyntaxError) {
        self[index].into_error()
    }

    fn get_error_or_none(&self, index: usize) -> (error: Option<&SyntaxError>) {
        if let Some(SyntaxChild::Error(error)) = self.get_child_or_none(index) {
            Some(error)
        } else {
            None
        }
    }

    fn find_node(&self, name: &str) -> (node: &SyntaxNode) {
        match self.find_node_or_none(name) {
            Some(node) => node,
            None => unreached(),
        }
    }

    fn find_node_or_none(&self, name: &str) -> (node: Option<&SyntaxNode>) {
        let ghost views = children_view(self@);
        let wanted = String::from_str(name);
        let mut k: usize = 0;
        proof {
            assert(views.skip(0) =~= views);
        }
        while k < self.len()
            invariant
                k <= self.len(),
                wanted@ == name@,
                views == children_view(self@),
                node_index(views, name@) == k + node_index(views.skip(k as int), name@),
            decreases self.len() - k,
        {
            proof {
                assert(views.skip(k as int).first() == self@[k as int]@);
                assert(views.skip(k as int).drop_first() =~= views.skip(k + 1));
            }
            if let SyntaxChild::Node(node) = &self[k] {
                if node.name == wanted {
                    return Some(node);
                }
            }
            k += 1;
        }
        None
    }

    fn filter_nodes(&self) -> (nodes: Vec<&SyntaxNode>) {
        let ghost is_node = |child: SyntaxChild| child is Node;
        let mut nodes: Vec<&SyntaxNode> = Vec::new();
        let mut k: usize = 0;
        while k < self.len()
            invariant
                k <= self.len(),
                is_node == |child: SyntaxChild| child is Node,
                Seq::new(nodes@.len(), |i: int| SyntaxChild::Node(*nodes@[i])) == self@.take(
                    k as int,
                ).filter(is_node),
            decreases self.len() - k,
        {
            let ghost before = Seq::new(nodes@.len(), |i: int| SyntaxChild::Node(*nodes@[i]));
            proof {
                assert(self@.take(k + 1).drop_last() =~= self@.take(k as int));
                reveal(Seq::filter);
            }
            if let SyntaxChild::Node(node) = &self[k] {
                nodes.push(node);
                assert(Seq::new(nodes@.len(), |i: int| SyntaxChild::Node(*nodes@[i])) =~= before.push(
                    self@[k as int],
                ));
            }
            k += 1;
        }
        proof {
            assert(self@.take(k as int) =~= self@);
        }
        nodes
    }
}

/// One line of a tree's rendering: its text, and how deep it stands.
#[derive(Clone, Debug, PartialEq)]
pub struct SyntaxDisplayLine {
    pub indent: usize,
    pub text: String,
}

pub struct LineView {
    pub indent: nat,
    pub text: Seq<char>,
}

impl View for SyntaxDisplayLine {
    type V = LineView;

    open spec fn view(&self) -> LineView {
        LineView { indent: self.indent as nat, text: self.text@ }
    }
}

pub open spec fn lines_view(lines: Seq<SyntaxDisplayLine>) -> Seq<LineView> {
    Seq::new(lines.len(), |i: int| lines[i]@)
}

/// Two spaces for each level.
pub open spec fn indentation(indent: nat) -> Seq<char> {
    Seq::new(2 * indent, |i: int| ' ')
}

/// A leaf's line: its value between double quotes.
pub open spec fn quoted(value: Seq<char>) -> Seq<char> {
    seq!['"'] + value + seq!['"']
}

/// An error marker's line: its message behind `[ERR] `.
pub open spec fn error_text(message: Seq<char>) -> Seq<char> {
    seq!['[', 'E', 'R', 'R', ']', ' '] + message
}

/// The lines of a child, depth first: its own line at `indent`, then those of
/// its children one level deeper.
pub open spec fn child_lines(child: ChildView, indent: nat) -> Seq<LineView>
    decreases child, 0nat,
{
    match child {
        ChildView::Node { name, children } => seq![LineView { indent, text: name }] + list_lines(
            children,
            indent + 1,
        ),
        ChildView::Leaf { value, .. } => seq![LineView { indent, text: quoted(value) }],
        ChildView::Error { message, children } => seq![
            LineView { indent, text: error_text(message) },
        ] + list_lines(children, indent + 1),
    }
}

/// The lines of each child of a list, one after the other.
pub open spec fn list_lines(children: Seq<ChildView>, indent: nat) -> Seq<LineView>
    decreases children, 1nat,
{
    if children.len() == 0 {
        Seq::empty()
    } else {
        list_lines(children.drop_last(), indent) + child_lines(children.last(), indent)
    }
}

/// How many levels lie below a child.
pub open spec fn child_depth(child: ChildView) -> nat
    decreases child, 0nat,
{
    match child {
        ChildView::Node { children, .. } => list_depth(children),
        ChildView::Leaf { .. } => 0,
        ChildView::Error { children, .. } => list_depth(children),
    }
}

/// How many levels a child list takes: one more than its deepest child, and
/// none where it is empty.
pub open spec fn list_depth(children: Seq<ChildView>) -> nat
    decreases children, 1nat,
{
    if children.len() == 0 {
        0
    } else {
        let front = list_depth(children.drop_last());
        let last = child_depth(children.last()) + 1;
        if front >= last {
            front
        } else {
            last
        }
    }
}

proof fn lemma_list_depth_bounds(children: Seq<ChildView>, k: int)
    requires
        0 <= k < children.len(),
    ensures
        child_depth(children[k]) + 1 <= list_depth(children),
    decreases children.len(),
{
    if k < children.len() - 1 {
        lemma_list_depth_bounds(children.drop_last(), k);
    }
}

impl SyntaxDisplayLine {
    /// The line as text: the indentation, then the line's own text.
    pub fn to_string(&self) -> (text: String)
        ensures
            text@ == indentation(self.indent as nat) + self.text@,
    {
        let mut text = String::new();
        let mut k: usize = 0;
        while k < self.indent
            invariant
                k <= self.indent,
                text@ == indentation(k as nat),
            decreases self.indent - k,
        {
            text.push(' ');
            text.push(' ');
            k += 1;
            assert(text@ =~= indentation(k as nat));
        }
        text.append(self.text.as_str());
        text
    }
}

fn render_child(child: &SyntaxChild, indent: usize) -> (lines: Vec<SyntaxDisplayLine>)
    requires
        indent + child_depth(child@) <= usize::MAX,
    ensures
        lines_view(lines@) == child_lines(child@, indent as nat),
    decreases child, 0nat,
{
    match child {
        SyntaxChild::Node(node) => render_node(node, indent),
        SyntaxChild::Leaf(leaf) => render_leaf(leaf, indent),
        SyntaxChild::Error(error) => render_error(error, indent),
    }
}

fn render_node(node: &SyntaxNode, indent: usize) -> (lines: Vec<SyntaxDisplayLine>)
    requires
        indent + list_depth(children_view(node.children@)) <= usize::MAX,
    ensures
        lines_view(lines@) == seq![LineView { indent: indent as nat, text: node.name@ }]
            + list_lines(children_view(node.children@), indent as nat + 1),
    decreases node, 0nat,
{
    let mut lines: Vec<SyntaxDisplayLine> = Vec::new();
    lines.push(SyntaxDisplayLine { indent, text: node.name.clone() });
    let mut below = render_list(&node.children, indent);
    proof {
        assert(lines_view(lines@ + below@) =~= lines_view(lines@) + lines_view(below@));
        assert(lines_view(lines@) =~= seq![LineView { indent: indent as nat, text: node.name@ }]);
    }
    lines.append(&mut below);
    lines
}

fn render_leaf(leaf: &SyntaxLeaf, indent: usize) -> (lines: Vec<SyntaxDisplayLine>)
    ensures
        lines_view(lines@) == seq![LineView { indent: indent as nat, text: quoted(leaf.value@) }],
{
    let mut text = String::new();
    text.push('"');
    text.append(leaf.value.as_str());
    text.push('"');
    assert(text@ =~= quoted(leaf.value@));
    let mut lines: Vec<SyntaxDisplayLine> = Vec::new();
    lines.push(SyntaxDisplayLine { indent, text });
    proof {
        assert(lines_view(lines@) =~= seq![
            LineView { indent: indent as nat, text: quoted(leaf.value@) },
        ]);
    }
    lines
}

fn render_error(error: &SyntaxError, indent: usize) -> (lines: Vec<SyntaxDisplayLine>)
    requires
        indent + list_depth(children_view(error.children@)) <= usize::MAX,
    ensures
        lines_view(lines@) == seq![
            LineView { indent: indent as nat, text: error_text(error.message@) },
        ] + list_lines(children_view(error.children@), indent as nat + 1),
    decreases error, 0nat,
{
    let mut text = String::new();
    text.push('[');
    text.push('E');
    text.push('R');
    text.push('R');
    text.push(']');
    text.push(' ');
    text.append(error.message.as_str());
    assert(text@ =~= error_text(error.message@));
    let mut lines: Vec<SyntaxDisplayLine> = Vec::new();
    lines.push(SyntaxDisplayLine { indent, text });
    let mut below = render_list(&error.children, indent);
    proof {
        assert(lines_view(lines@ + below@) =~= lines_view(lines@) + lines_view(below@));
        assert(lines_view(lines@) =~= seq![
            LineView { indent: indent as nat, text: error_text(error.message@) },
        ]);
    }
    lines.append(&mut below);
    lines
}

/// The lines of the children of a node that stands at `indent`.
fn render_list(children: &Vec<SyntaxChild>, indent: usize) -> (lines: Vec<SyntaxDisplayLine>)
    requires
        indent + list_depth(children_view(children@)) <= usize::MAX,
    ensures
        lines_view(lines@) == list_lines(children_view(children@), indent as nat + 1),
    decreases children, 1nat,
{
    let ghost views = children_view(children@);
    let mut lines: Vec<SyntaxDisplayLine> = Vec::new();
    let mut k: usize = 0;
    while k < children.len()
        invariant
            k <= children.len(),
            views == children_view(children@),
            indent + list_depth(views) <= usize::MAX,
            lines_view(lines@) == list_lines(views.take(k as int), indent as nat + 1),
        decreases children.len() - k,
    {
        proof {
            lemma_list_depth_bounds(views, k as int);
            assert(views.take(k + 1).drop_last() =~= views.take(k as int));
        }
        let mut part = render_child(&children[k], indent + 1);
        proof {
            assert(lines_view(lines@ + part@) =~= lines_view(lines@) + lines_view(part@));
        }
        lines.append(&mut part);
        k += 1;
    }
    proof {
        assert(views.take(k as int) =~= views);
    }
    lines
}

/// The indented rendering of a tree or of a part of one.
pub trait SyntaxDisplay {
    /// The lines that `fmt` gives, where the first stands at `indent`.
    spec fn lines(&self, indent: nat) -> Seq<LineView>;

    /// How many levels lie below the first line.
    spec fn depth(&self) -> nat;

    fn fmt(&self, indent: usize) -> (lines: Vec<SyntaxDisplayLine>)
        requires
            indent + self.depth() <= usize::MAX,
        ensures
            lines_view(lines@) == self.lines(indent as nat),
    ;
}

impl SyntaxDisplay for SyntaxChild {
    open spec fn lines(&self, indent: nat) -> Seq<LineView> {
        child_lines(self@, indent)
    }

    open spec fn depth(&self) -> nat {
        child_depth(self@)
    }

    fn fmt(&self, indent: usize) -> (lines: Vec<SyntaxDisplayLine>) {
        render_child(self, indent)
    }
}

impl SyntaxDisplay for SyntaxNode {
    open spec fn lines(&self, indent: nat) -> Seq<LineView> {
        seq![LineView { indent, text: self.name@ }] + list_lines(
            children_view(self.children@),
            indent + 1,
        )
    }

    open spec fn depth(&self) -> nat {
        list_depth(children_view(self.children@))
    }

    fn fmt(&self, indent: usize) -> (lines: Vec<SyntaxDisplayLine>) {
        render_node(self, indent)
    }
}

impl SyntaxDisplay for SyntaxLeaf {
    open spec fn lines(&self, indent: nat) -> Seq<LineView> {
        seq![LineView { indent, text: quoted(self.value@) }]
    }

    open spec fn depth(&self) -> nat {
        0
    }

    fn fmt(&self, indent: usize) -> (lines: Vec<SyntaxDisplayLine>) {
        render_leaf(self, indent)
    }
}

impl SyntaxDisplay for SyntaxError {
    open spec fn lines(&self, indent: nat) -> Seq<LineView> {
        seq![LineView { indent, text: error_text(self.message@) }] + list_lines(
            children_view(self.children@),
            indent + 1,
        )
    }

    open spec fn depth(&self) -> nat {
        list_depth(children_view(self.children@))
    }

    fn fmt(&self, indent: usize) -> (lines: Vec<SyntaxDisplayLine>) {
        render_error(self, indent)
    }
}

impl SyntaxDisplay for SyntaxTree {
    open spec fn lines(&self, indent: nat) -> Seq<LineView> {
        self.root.lines(indent)
    }

    open spec fn depth(&self) -> nat {
        self.root.depth()
    }

    fn fmt(&self, indent: usize) -> (lines: Vec<SyntaxDisplayLine>) {
        self.root.fmt(indent)
    }
}

/// The table of lines of an input, as one scan from left to right records
/// it: for each line where it starts and how many scalars it holds, its
/// newline included. What follows the last newline is a line of its own, also
/// where it is empty.
pub open spec fn line_table(input: Seq<char>) -> Seq<(usize, usize)> {
    scan_lines(input, 0, 0)
}

/// The lines from `line_start` on, where the scan has come to `at`.
pub open spec fn scan_lines(input: Seq<char>, line_start: nat, at: nat) -> Seq<(usize, usize)>
    decreases input.len() - at,
{
    if at >= input.len() {
        seq![(line_start as usize, (input.len() - line_start) as usize)]
    } else if input[at as int] == '\n' {
        seq![(line_start as usize, (at + 1 - line_start) as usize)] + scan_lines(
            input,
            at + 1,
            at + 1,
        )
    } else {
        scan_lines(input, line_start, at + 1)
    }
}

/// The first line of the table that reaches beyond `index`, or the number of
/// lines where none does.
pub open spec fn line_index(table: Seq<(usize, usize)>, index: int) -> int
    decreases table.len(),
{
    if table.len() == 0 {
        0
    } else if index < table.first().0 + table.first().1 {
        0
    } else {
        1 + line_index(table.drop_first(), index)
    }
}

/// The position of the scalar at `index`: its line, and how far behind the
/// line's start it stands. Beyond the last line, line and column are 0.
pub open spec fn position_in(table: Seq<(usize, usize)>, index: usize) -> InputPosition {
    let line = line_index(table, index as int);
    if line < table.len() {
        InputPosition { index, line: line as usize, column: (index - table[line].0) as usize }
    } else {
        InputPosition { index, line: 0, column: 0 }
    }
}

/// Each line starts where the one before it ends, and the first at 0.
pub open spec fn contiguous(table: Seq<(usize, usize)>, from: int) -> bool
    decreases table.len(),
{
    if table.len() == 0 {
        true
    } else {
        &&& table.first().0 == from
        &&& from + table.first().1 <= usize::MAX
        &&& contiguous(table.drop_first(), from + table.first().1)
    }
}

proof fn lemma_contiguous_push(table: Seq<(usize, usize)>, from: int, start: usize, len: usize)
    requires
        contiguous(table, from),
        start + len <= usize::MAX,
        table.len() == 0 ==> start == from,
        table.len() > 0 ==> start == table.last().0 + table.last().1,
    ensures
        contiguous(table.push((start, len)), from),
    decreases table.len(),
{
    let longer = table.push((start, len));
    if table.len() == 0 {
        assert(longer.drop_first() =~= Seq::empty());
        assert(contiguous(longer.drop_first(), from + len));
    } else {
        let rest = table.drop_first();
        assert(longer.drop_first() =~= rest.push((start, len)));
        if rest.len() > 0 {
            assert(rest.last() == table.last());
        }
        lemma_contiguous_push(rest, from + table.first().1, start, len);
    }
}

proof fn lemma_scan_lines_split(input: Seq<char>, line_start: nat, at: nat)
    requires
        at < input.len(),
        input[at as int] == '\n',
    ensures
        scan_lines(input, line_start, at) == seq![
            (line_start as usize, (at + 1 - line_start) as usize),
        ] + scan_lines(input, at + 1, at + 1),
{
}

/// Answers, for an input, where each of its scalars stands.
#[derive(Debug, PartialEq)]
pub struct InputPositionCounter {
    pub(crate) lines: Vec<(usize, usize)>,
}

impl View for InputPositionCounter {
    type V = Seq<(usize, usize)>;

    closed spec fn view(&self) -> Seq<(usize, usize)> {
        self.lines@
    }
}

impl InputPositionCounter {
    #[verifier::type_invariant]
    closed spec fn wf(self) -> bool {
        contiguous(self.lines@, 0)
    }

    /// The counter of an input that is given by its scalars.
    pub fn from_scalars(input: &Vec<char>) -> (counter: InputPositionCounter)
        ensures
            counter@ == line_table(input@),
    {
        let mut lines: Vec<(usize, usize)> = Vec::new();
        let mut latest_line_start: usize = 0;
        let mut i: usize = 0;
        while i < input.len()
            invariant
                i <= input.len(),
                latest_line_start <= i,
                contiguous(lines@, 0),
                lines@.len() == 0 ==> latest_line_start == 0,
                lines@.len() > 0 ==> latest_line_start == lines@.last().0 + lines@.last().1,
                line_table(input@) == lines@ + scan_lines(
                    input@,
                    latest_line_start as nat,
                    i as nat,
                ),
            decreases input.len() - i,
        {
            if input[i] == '\n' {
                let new_line_start = i + 1;
                proof {
                    lemma_scan_lines_split(input@, latest_line_start as nat, i as nat);
                    lemma_contiguous_push(
                        lines@,
                        0,
                        latest_line_start,
                        (new_line_start - latest_line_start) as usize,
                    );
                    assert(lines@.push(
                        (latest_line_start, (new_line_start - latest_line_start) as usize),
                    ) + scan_lines(input@, new_line_start as nat, new_line_start as nat)
                        =~= lines@ + scan_lines(input@, latest_line_start as nat, i as nat));
                }
                lines.push((latest_line_start, new_line_start - latest_line_start));
                latest_line_start = new_line_start;
            }
            i += 1;
        }
        proof {
            lemma_contiguous_push(
                lines@,
                0,
                latest_line_start,
                (input.len() - latest_line_start) as usize,
            );
            assert(lines@.push((latest_line_start, (input.len() - latest_line_start) as usize))
                =~= lines@ + scan_lines(input@, latest_line_start as nat, i as nat));
        }
        lines.push((latest_line_start, input.len() - latest_line_start));
        InputPositionCounter { lines }
    }

    /// The position of the scalar at `index`.
    pub fn get_position(&self, index: usize) -> (position: InputPosition)
        ensures
            position == position_in(self@, index),
    {
        proof {
            use_type_invariant(self);
        }
        let ghost table = self.lines@;
        let mut line: usize = 0;
        let mut from: Ghost<int> = Ghost(0);
        proof {
            assert(table.skip(0) =~= table);
        }
        while line < self.lines.len()
            invariant
                line <= self.lines.len(),
                table == self.lines@,
                contiguous(table.skip(line as int), from@),
                0 <= from@ <= index,
                line_index(table, index as int) == line + line_index(
                    table.skip(line as int),
                    index as int,
                ),
            decreases self.lines.len() - line,
        {
            let (each_line_start, each_line_len) = self.lines[line];
            proof {
                let rest = table.skip(line as int);
                assert(rest.first() == table[line as int]);
                assert(rest.drop_first() =~= table.skip(line + 1));
            }
            if index < each_line_start + each_line_len {
                return InputPosition { index, line, column: index - each_line_start };
            }
            proof {
                from@ = from@ + each_line_len;
            }
            line += 1;
        }
        InputPosition { index, line: 0, column: 0 }
    }
}

impl Clone for InputPositionCounter {
    fn clone(&self) -> (copy: InputPositionCounter)
        ensures
            copy@ == self@,
    {
        proof {
            use_type_invariant(self);
        }
        let mut lines: Vec<(usize, usize)> = Vec::new();
        let mut k: usize = 0;
        while k < self.lines.len()
            invariant
                k <= self.lines.len(),
                lines@ == self.lines@.take(k as int),
            decreases self.lines.len() - k,
        {
            lines.push(self.lines[k]);
            assert(lines@ =~= self.lines@.take(k + 1));
            k += 1;
        }
        assert(lines@ =~= self.lines@);
        InputPositionCounter { lines }
    }
}

impl From<&str> for InputPositionCounter {
    fn from(input: &str) -> (counter: InputPositionCounter)
        ensures
            counter@ == line_table(input@),
    {
        let scalars = to_scalars(input);
        InputPositionCounter::from_scalars(&scalars)
    }
}

impl FromSpecImpl<&str> for InputPositionCounter {
    open spec fn obeys_from_spec() -> bool {
        false
    }

    open spec fn from_spec(input: &str) -> InputPositionCounter {
        arbitrary()
    }
}

} // verus!
