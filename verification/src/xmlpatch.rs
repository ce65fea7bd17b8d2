//! Patching an XML document in place: walk a path down from the root,
//! creating what is missing, and make sure the element it ends at has
//! certain children, recognised by a key read from each child.
//!
//! The document is held as a plain tree of elements; `xmltext` reads and
//! writes it as XML text.

use vstd::prelude::*;

use crate::text::{
    chars_eq, chars_of, decimal, decimal_chars, join_first, joined, push_chars, push_str,
    split_at_char, split_chars, str_eq, string_of, views,
};
use crate::xmlpath::{
    attrs_view, match_by_of, parse_match_by, parse_path, path_of, step_views, AttrsView,
    MatchPath, PathError, PathFault, PathStep, StepView,
};

verus! {

/// One node of a document.
#[derive(Debug, PartialEq, Eq)]
pub enum XmlNode {
    Element(XmlElement),
    Comment(String),
    CData(String),
    Text(String),
    ProcessingInstruction(String, Option<String>),
}

/// An element: its name, attributes (each name once) and children.
#[derive(Debug, PartialEq, Eq)]
pub struct XmlElement {
    pub prefix: Option<String>,
    pub namespace: Option<String>,
    /// Namespace declarations in scope, prefix and URI, if the element
    /// carries any.
    pub namespaces: Option<Vec<(String, String)>>,
    pub name: String,
    pub attributes: Vec<(String, String)>,
    pub children: Vec<XmlNode>,
}

/// A document node as a value.
pub enum TreeNode {
    Element(XmlTree),
    Comment(Seq<char>),
    CData(Seq<char>),
    Text(Seq<char>),
    ProcessingInstruction(Seq<char>, Option<Seq<char>>),
}

/// An element as a value: what `XmlElement` holds, field by field.
pub struct XmlTree {
    pub prefix: Option<Seq<char>>,
    pub namespace: Option<Seq<char>>,
    pub namespaces: Option<AttrsView>,
    pub name: Seq<char>,
    pub attributes: AttrsView,
    pub children: Seq<TreeNode>,
}

pub open spec fn text_of(o: Option<String>) -> Option<Seq<char>> {
    match o {
        Some(s) => Some(s@),
        None => None,
    }
}

pub open spec fn tree_of(e: XmlElement) -> XmlTree
    decreases e,
{
    XmlTree {
        prefix: text_of(e.prefix),
        namespace: text_of(e.namespace),
        namespaces: match e.namespaces {
            Some(ns) => Some(attrs_view(ns@)),
            None => None,
        },
        name: e.name@,
        attributes: attrs_view(e.attributes@),
        children: trees_of(e.children@),
    }
}

pub open spec fn trees_of(cs: Seq<XmlNode>) -> Seq<TreeNode>
    decreases cs,
{
    if cs.len() == 0 {
        Seq::empty()
    } else {
        seq![node_tree(cs[0])] + trees_of(cs.drop_first())
    }
}

pub open spec fn node_tree(n: XmlNode) -> TreeNode
    decreases n,
{
    match n {
        XmlNode::Element(e) => TreeNode::Element(tree_of(e)),
        XmlNode::Comment(t) => TreeNode::Comment(t@),
        XmlNode::CData(t) => TreeNode::CData(t@),
        XmlNode::Text(t) => TreeNode::Text(t@),
        XmlNode::ProcessingInstruction(a, b) => TreeNode::ProcessingInstruction(a@, text_of(b)),
    }
}

impl View for XmlElement {
    type V = XmlTree;

    open spec fn view(&self) -> XmlTree {
        tree_of(*self)
    }
}

/// The trees of nodes, one for one.
pub proof fn lemma_trees_of(cs: Seq<XmlNode>)
    ensures
        trees_of(cs).len() == cs.len(),
        forall|j: int| 0 <= j < cs.len() ==> #[trigger] trees_of(cs)[j] == node_tree(cs[j]),
    decreases cs.len(),
{
    if cs.len() > 0 {
        lemma_trees_of(cs.drop_first());
        assert forall|j: int| 0 <= j < cs.len() implies #[trigger] trees_of(cs)[j] == node_tree(cs[j]) by {
            if j > 0 {
                assert(cs.drop_first()[j - 1] == cs[j]);
            }
        }
    }
}

/// The value of the attribute named `k`, if the element has one.
pub open spec fn attr_of(attrs: AttrsView, k: Seq<char>) -> Option<Seq<char>>
    decreases attrs.len(),
{
    if attrs.len() == 0 {
        None
    } else if attrs[0].0 == k {
        Some(attrs[0].1)
    } else {
        attr_of(attrs.drop_first(), k)
    }
}

/// An element satisfies a step: the tag is its name and every attribute
/// the step asks for has the value asked for.
pub open spec fn step_holds(e: XmlElement, step: StepView) -> bool {
    &&& e.name@ == step.tag
    &&& forall|i: int|
        0 <= i < step.attrs.len() ==> attr_of(attrs_view(e.attributes@), #[trigger] step.attrs[i].0)
            == Some(step.attrs[i].1)
}

pub open spec fn node_matches(n: XmlNode, step: StepView) -> bool {
    match n {
        XmlNode::Element(e) => step_holds(e, step),
        _ => false,
    }
}

/// The first child element that satisfies a step.
pub open spec fn first_matching(cs: Seq<XmlNode>, step: StepView) -> Option<int>
    decreases cs.len(),
{
    if cs.len() == 0 {
        None
    } else if node_matches(cs[0], step) {
        Some(0)
    } else {
        match first_matching(cs.drop_first(), step) {
            Some(i) => Some(i + 1),
            None => None,
        }
    }
}

proof fn lemma_first_matching(cs: Seq<XmlNode>, step: StepView)
    ensures
        first_matching(cs, step) matches Some(i) ==> 0 <= i < cs.len() && node_matches(cs[i], step),
    decreases cs.len(),
{
    if cs.len() > 0 && !node_matches(cs[0], step) {
        lemma_first_matching(cs.drop_first(), step);
    }
}

pub open spec fn element_of(n: XmlNode) -> XmlElement {
    match n {
        XmlNode::Element(e) => e,
        _ => arbitrary(),
    }
}

/// The key read from an element: follow the steps through first matching
/// children, then take the attribute.
pub open spec fn key_of(e: XmlElement, steps: Seq<StepView>, attribute: Seq<char>) -> Option<
    Seq<char>,
>
    decreases steps.len(),
{
    if steps.len() == 0 {
        attr_of(attrs_view(e.attributes@), attribute)
    } else {
        match first_matching(e.children@, steps[0]) {
            None => None,
            Some(i) => key_of(element_of(e.children@[i]), steps.drop_first(), attribute),
        }
    }
}

/// A child element already carries this key.
pub open spec fn key_present(
    existing: Seq<XmlNode>,
    steps: Seq<StepView>,
    attribute: Seq<char>,
    k: Option<Seq<char>>,
) -> bool {
    &&& k is Some
    &&& exists|i: int|
        0 <= i < existing.len() && #[trigger] existing[i] is Element && key_of(
            element_of(existing[i]),
            steps,
            attribute,
        ) == k
}

/// The fragments that are added: those whose key is missing, or that no
/// existing child carries, in order.
pub open spec fn kept(
    existing: Seq<XmlNode>,
    steps: Seq<StepView>,
    attribute: Seq<char>,
    frags: Seq<XmlElement>,
) -> Seq<XmlNode>
    decreases frags.len(),
{
    if frags.len() == 0 {
        Seq::empty()
    } else {
        let rest = kept(existing, steps, attribute, frags.drop_last());
        let f = frags.last();
        if key_present(existing, steps, attribute, key_of(f, steps, attribute)) {
            rest
        } else {
            rest.push(XmlNode::Element(f))
        }
    }
}

/// Two elements that differ at most in their children.
pub open spec fn same_head(a: XmlElement, b: XmlElement) -> bool {
    &&& a.prefix == b.prefix
    &&& a.namespace == b.namespace
    &&& a.namespaces == b.namespaces
    &&& a.name == b.name
    &&& a.attributes == b.attributes
}

/// An attribute list with `(k, v)` put in: the value replaced where the
/// name is there, else added at the end.
pub open spec fn put_attr(list: AttrsView, k: Seq<char>, v: Seq<char>) -> AttrsView
    decreases list.len(),
{
    if list.len() == 0 {
        seq![(k, v)]
    } else if list[0].0 == k {
        list.update(0, (k, v))
    } else {
        seq![list[0]] + put_attr(list.drop_first(), k, v)
    }
}

/// The attributes of an element made for a step: each asked-for
/// attribute put in turn.
pub open spec fn step_attributes(attrs: AttrsView) -> AttrsView
    decreases attrs.len(),
{
    if attrs.len() == 0 {
        Seq::empty()
    } else {
        put_attr(step_attributes(attrs.drop_last()), attrs.last().0, attrs.last().1)
    }
}

/// An element made for a step, before anything is put under it.
pub open spec fn fresh_head(e: XmlElement, step: StepView) -> bool {
    &&& e.prefix is None
    &&& e.namespace is None
    &&& e.namespaces is None
    &&& e.name@ == step.tag
    &&& attrs_view(e.attributes@) == step_attributes(step.attrs)
}

/// `after` is `before` with the path walked (each step taking the first
/// child that satisfies it, or a new one at the end) and the fragments
/// added to the children of where it ends.
pub open spec fn grown(
    before: Seq<XmlNode>,
    after: Seq<XmlNode>,
    steps: Seq<StepView>,
    key_steps: Seq<StepView>,
    attribute: Seq<char>,
    frags: Seq<XmlElement>,
) -> bool
    decreases steps.len(),
{
    if steps.len() == 0 {
        after == before + kept(before, key_steps, attribute, frags)
    } else {
        match first_matching(before, steps[0]) {
            Some(i) => {
                &&& after.len() == before.len()
                &&& forall|j: int| 0 <= j < before.len() && j != i ==> after[j] == before[j]
                &&& after[i] is Element
                &&& same_head(element_of(before[i]), element_of(after[i]))
                &&& grown(
                    element_of(before[i]).children@,
                    element_of(after[i]).children@,
                    steps.drop_first(),
                    key_steps,
                    attribute,
                    frags,
                )
            },
            None => {
                &&& after.len() == before.len() + 1
                &&& after.take(before.len() as int) == before
                &&& after.last() is Element
                &&& fresh_head(element_of(after.last()), steps[0])
                &&& grown(
                    Seq::empty(),
                    element_of(after.last()).children@,
                    steps.drop_first(),
                    key_steps,
                    attribute,
                    frags,
                )
            },
        }
    }
}

/// The value of an attribute, looked up by name.
pub fn attribute<'a>(attrs: &'a Vec<(String, String)>, k: &str) -> (r: Option<&'a String>)
    ensures
        match r {
            Some(v) => attr_of(attrs_view(attrs@), k@) == Some(v@),
            None => attr_of(attrs_view(attrs@), k@) is None,
        },
{
    let ghost all = attrs_view(attrs@);
    let mut i: usize = 0;
    assert(all.skip(0) =~= all);
    while i < attrs.len()
        invariant
            i <= attrs@.len(),
            all == attrs_view(attrs@),
            attr_of(all, k@) == attr_of(all.skip(i as int), k@),
        decreases attrs.len() - i,
    {
        assert(all.skip(i as int)[0] == (attrs@[i as int].0@, attrs@[i as int].1@));
        if str_eq(attrs[i].0.as_str(), k) {
            return Some(&attrs[i].1);
        }
        assert(all.skip(i as int).drop_first() =~= all.skip(i + 1));
        i = i + 1;
    }
    None
}

/// Whether an element satisfies a path step.
pub fn step_matches(e: &XmlElement, step: &PathStep) -> (r: bool)
    ensures
        r == step_holds(*e, step@),
{
    if !str_eq(e.name.as_str(), step.tag.as_str()) {
        return false;
    }
    let ghost sa = attrs_view(step.attrs@);
    let mut i: usize = 0;
    while i < step.attrs.len()
        invariant
            i <= step.attrs@.len(),
            sa == attrs_view(step.attrs@),
            e.name@ == step.tag@,
            forall|j: int|
                0 <= j < i ==> attr_of(attrs_view(e.attributes@), #[trigger] sa[j].0) == Some(
                    sa[j].1,
                ),
        decreases step.attrs.len() - i,
    {
        let (k, v) = &step.attrs[i];
        assert(sa[i as int] == (k@, v@));
        assert(step@.attrs == sa);
        match attribute(&e.attributes, k.as_str()) {
            Some(found) => {
                if !str_eq(found.as_str(), v.as_str()) {
                    assert(attr_of(attrs_view(e.attributes@), step@.attrs[i as int].0) != Some(
                        step@.attrs[i as int].1,
                    ));
                    return false;
                }
            },
            None => {
                assert(attr_of(attrs_view(e.attributes@), step@.attrs[i as int].0) != Some(
                    step@.attrs[i as int].1,
                ));
                return false;
            },
        }
        i = i + 1;
    }
    true
}

/// The first child element that satisfies a step.
pub fn find_child(children: &Vec<XmlNode>, step: &PathStep) -> (r: Option<usize>)
    ensures
        match r {
            Some(i) => first_matching(children@, step@) == Some(i as int),
            None => first_matching(children@, step@) is None,
        },
{
    let ghost cs = children@;
    let mut i: usize = 0;
    assert(cs.skip(0) =~= cs);
    while i < children.len()
        invariant
            i <= cs.len(),
            cs == children@,
            first_matching(cs, step@) == match first_matching(cs.skip(i as int), step@) {
                Some(j) => Some(j + i),
                None => None,
            },
        decreases children.len() - i,
    {
        assert(cs.skip(i as int)[0] == cs[i as int]);
        let hit = match &children[i] {
            XmlNode::Element(e) => step_matches(e, step),
            _ => false,
        };
        if hit {
            return Some(i);
        }
        assert(cs.skip(i as int).drop_first() =~= cs.skip(i + 1));
        i = i + 1;
    }
    None
}

/// Reads an element's key: through the first child matching each step,
/// then the attribute.
pub fn eval_match(e: &XmlElement, path: &MatchPath) -> (r: Option<String>)
    ensures
        match r {
            Some(k) => key_of(*e, step_views(path.steps@), path.attribute@) == Some(k@),
            None => key_of(*e, step_views(path.steps@), path.attribute@) is None,
        },
{
    let ghost all = step_views(path.steps@);
    let mut cur = e;
    let mut i: usize = 0;
    assert(all.skip(0) =~= all);
    while i < path.steps.len()
        invariant
            i <= path.steps@.len(),
            all == step_views(path.steps@),
            key_of(*e, all, path.attribute@) == key_of(*cur, all.skip(i as int), path.attribute@),
        decreases path.steps.len() - i,
    {
        assert(all.skip(i as int)[0] == path.steps@[i as int]@);
        assert(all.skip(i as int).drop_first() =~= all.skip(i + 1));
        match find_child(&cur.children, &path.steps[i]) {
            None => {
                return None;
            },
            Some(j) => {
                proof {
                    lemma_first_matching(cur.children@, path.steps@[i as int]@);
                }
                match &cur.children[j] {
                    XmlNode::Element(child) => {
                        cur = child;
                    },
                    _ => {
                        return None;
                    },
                }
            },
        }
        i = i + 1;
    }
    match attribute(&cur.attributes, path.attribute.as_str()) {
        Some(v) => Some(string_of(&chars_of(v.as_str()))),
        None => None,
    }
}

/// Puts `(k, v)` into an attribute list.
fn put_attribute(list: &mut Vec<(String, String)>, k: &String, v: &String)
    ensures
        attrs_view(final(list)@) == put_attr(attrs_view(old(list)@), k@, v@),
{
    let ghost start = attrs_view(list@);
    let mut i: usize = 0;
    while i < list.len()
        invariant
            i <= list@.len(),
            start == attrs_view(old(list)@),
            list@ == old(list)@,
            forall|j: int| 0 <= j < i ==> (#[trigger] start[j]).0 != k@,
        decreases list.len() - i,
    {
        assert(start[i as int] == (list@[i as int].0@, list@[i as int].1@));
        if str_eq(list[i].0.as_str(), k.as_str()) {
            proof {
                lemma_put_at(start, k@, v@, i as int);
            }
            let pair = (string_of(&chars_of(k.as_str())), string_of(&chars_of(v.as_str())));
            list.set(i, pair);
            assert(attrs_view(list@) =~= start.update(i as int, (k@, v@)));
            return;
        }
        i = i + 1;
    }
    proof {
        lemma_put_end(start, k@, v@);
    }
    list.push((string_of(&chars_of(k.as_str())), string_of(&chars_of(v.as_str()))));
    assert(attrs_view(list@) =~= start.push((k@, v@)));
}

proof fn lemma_put_at(list: AttrsView, k: Seq<char>, v: Seq<char>, i: int)
    requires
        0 <= i < list.len(),
        list[i].0 == k,
        forall|j: int| 0 <= j < i ==> (#[trigger] list[j]).0 != k,
    ensures
        put_attr(list, k, v) == list.update(i, (k, v)),
    decreases i,
{
    if i > 0 {
        lemma_put_at(list.drop_first(), k, v, i - 1);
        assert(seq![list[0]] + list.drop_first().update(i - 1, (k, v)) =~= list.update(i, (k, v)));
    }
}

proof fn lemma_put_end(list: AttrsView, k: Seq<char>, v: Seq<char>)
    requires
        forall|j: int| 0 <= j < list.len() ==> (#[trigger] list[j]).0 != k,
    ensures
        put_attr(list, k, v) == list.push((k, v)),
    decreases list.len(),
{
    if list.len() > 0 {
        lemma_put_end(list.drop_first(), k, v);
        assert(seq![list[0]] + list.drop_first().push((k, v)) =~= list.push((k, v)));
    } else {
        assert(seq![(k, v)] =~= list.push((k, v)));
    }
}

/// An element for a step: its tag, and the attributes it asks for.
pub fn new_element(step: &PathStep) -> (e: XmlElement)
    ensures
        fresh_head(e, step@),
        e.children@.len() == 0,
{
    let ghost sa = attrs_view(step.attrs@);
    let mut attributes: Vec<(String, String)> = Vec::new();
    let mut i: usize = 0;
    while i < step.attrs.len()
        invariant
            i <= step.attrs@.len(),
            sa == attrs_view(step.attrs@),
            attrs_view(attributes@) == step_attributes(sa.take(i as int)),
        decreases step.attrs.len() - i,
    {
        assert(sa.take(i + 1).drop_last() =~= sa.take(i as int));
        assert(sa.take(i + 1).last() == (step.attrs@[i as int].0@, step.attrs@[i as int].1@));
        put_attribute(&mut attributes, &step.attrs[i].0, &step.attrs[i].1);
        i = i + 1;
    }
    assert(sa.take(i as int) =~= sa);
    XmlElement {
        prefix: None,
        namespace: None,
        namespaces: None,
        name: string_of(&chars_of(step.tag.as_str())),
        attributes,
        children: Vec::new(),
    }
}

/// Adds to the children the fragments whose key no existing child
/// carries; a fragment without a key is always added.
fn add_fragments(children: &mut Vec<XmlNode>, key_path: &MatchPath, fragments: Vec<XmlElement>)
    ensures
        final(children)@ == old(children)@ + kept(
            old(children)@,
            step_views(key_path.steps@),
            key_path.attribute@,
            fragments@,
        ),
{
    let ghost ks = step_views(key_path.steps@);
    let ghost at = key_path.attribute@;
    let ghost all = fragments@;
    let mut additions: Vec<XmlNode> = Vec::new();
    let mut rest = fragments;
    let n = rest.len();
    let mut i: usize = 0;
    while i < n
        invariant
            i <= n,
            n == all.len(),
            rest@ == all.skip(i as int),
            ks == step_views(key_path.steps@),
            at == key_path.attribute@,
            additions@ == kept(children@, ks, at, all.take(i as int)),
        decreases n - i,
    {
        assert(all.take(i + 1).drop_last() =~= all.take(i as int));
        assert(all.take(i + 1).last() == all[i as int]);
        let f = rest.remove(0);
        assert(f == all[i as int]);
        assert(rest@ =~= all.skip(i + 1));
        let key = eval_match(&f, key_path);
        let present = match &key {
            Some(k) => has_key(children, key_path, k),
            None => false,
        };
        if !present {
            additions.push(XmlNode::Element(f));
        }
        i = i + 1;
    }
    assert(all.take(i as int) =~= all);
    children.append(&mut additions);
}

/// Whether some child element carries the key `k`.
fn has_key(children: &Vec<XmlNode>, key_path: &MatchPath, k: &String) -> (r: bool)
    ensures
        r == key_present(
            children@,
            step_views(key_path.steps@),
            key_path.attribute@,
            Some(k@),
        ),
{
    let ghost ks = step_views(key_path.steps@);
    let mut i: usize = 0;
    while i < children.len()
        invariant
            i <= children@.len(),
            ks == step_views(key_path.steps@),
            forall|j: int|
                0 <= j < i && #[trigger] children@[j] is Element ==> key_of(
                    element_of(children@[j]),
                    ks,
                    key_path.attribute@,
                ) != Some(k@),
        decreases children.len() - i,
    {
        match &children[i] {
            XmlNode::Element(e) => {
                match eval_match(e, key_path) {
                    Some(found) => {
                        if str_eq(found.as_str(), k.as_str()) {
                            assert(children@[i as int] is Element);
                            return true;
                        }
                    },
                    None => {},
                }
            },
            _ => {},
        }
        i = i + 1;
    }
    false
}


/// Walks the path from `steps[i]` on below `cur`, creating what is
/// missing, and adds the fragments where it ends.
fn descend(
    cur: &mut XmlElement,
    steps: &Vec<PathStep>,
    i: usize,
    key_path: &MatchPath,
    fragments: Vec<XmlElement>,
)
    requires
        i <= steps@.len(),
    ensures
        same_head(*old(cur), *final(cur)),
        grown(
            old(cur).children@,
            final(cur).children@,
            step_views(steps@).skip(i as int),
            step_views(key_path.steps@),
            key_path.attribute@,
            fragments@,
        ),
    decreases steps@.len() - i,
{
    let ghost path = step_views(steps@).skip(i as int);
    if i == steps.len() {
        assert(path.len() == 0);
        add_fragments(&mut cur.children, key_path, fragments);
        return;
    }
    assert(path[0] == steps@[i as int]@);
    assert(path.drop_first() =~= step_views(steps@).skip(i + 1));
    let ghost before = cur.children@;
    match find_child(&cur.children, &steps[i]) {
        Some(j) => {
            proof {
                lemma_first_matching(cur.children@, steps@[i as int]@);
            }
            let node = cur.children.remove(j);
            match node {
                XmlNode::Element(mut e) => {
                    let ghost was = e;
                    descend(&mut e, steps, i + 1, key_path, fragments);
                    cur.children.insert(j, XmlNode::Element(e));
                    assert(element_of(before[j as int]) == was);
                    assert(forall|k: int|
                        0 <= k < before.len() && k != j ==> cur.children@[k] == before[k]);
                },
                other => {
                    cur.children.insert(j, other);
                },
            }
        },
        None => {
            let mut e = new_element(&steps[i]);
            let ghost fresh = e;
            descend(&mut e, steps, i + 1, key_path, fragments);
            assert(fresh.children@ =~= Seq::<XmlNode>::empty());
            cur.children.push(XmlNode::Element(e));
            assert(cur.children@.take(before.len() as int) =~= before);
        },
    }
}

/// Why a set of children could not be ensured.
#[derive(Debug, Clone, PartialEq, Eq)]
pub enum EnsureError {
    /// The parent path does not read.
    BadPath(PathError),
    /// The parent path has no steps.
    EmptyPath,
    /// The path starts at another element than the document's root.
    RootMismatch { path_root: String, document_root: String },
    /// The root does not have the attributes the first step asks for.
    RootPredicates { document_root: String },
    /// The match-by does not read.
    BadMatchBy(PathError),
}

pub enum EnsureFault {
    BadPath(crate::xmlpath::PathFault),
    EmptyPath,
    RootMismatch(Seq<char>, Seq<char>),
    RootPredicates(Seq<char>),
    BadMatchBy(crate::xmlpath::PathFault),
}

impl View for EnsureError {
    type V = EnsureFault;

    open spec fn view(&self) -> EnsureFault {
        match self {
            EnsureError::BadPath(e) => EnsureFault::BadPath(e@),
            EnsureError::EmptyPath => EnsureFault::EmptyPath,
            EnsureError::RootMismatch { path_root, document_root } => EnsureFault::RootMismatch(
                path_root@,
                document_root@,
            ),
            EnsureError::RootPredicates { document_root } => EnsureFault::RootPredicates(
                document_root@,
            ),
            EnsureError::BadMatchBy(e) => EnsureFault::BadMatchBy(e@),
        }
    }
}

/// What stops ensuring children under `parent`, keyed by `match_by`, in
/// the order it is checked: the path, its root, then the match-by.
pub open spec fn ensure_fault(root: XmlElement, parent: Seq<char>, match_by: Seq<char>) -> Option<
    EnsureFault,
> {
    match path_of(parent) {
        Err(e) => Some(EnsureFault::BadPath(e)),
        Ok(path) => if path.len() == 0 {
            Some(EnsureFault::EmptyPath)
        } else if path[0].tag != root.name@ {
            Some(EnsureFault::RootMismatch(path[0].tag, root.name@))
        } else if !step_holds(root, path[0]) {
            Some(EnsureFault::RootPredicates(root.name@))
        } else {
            match match_by_of(match_by) {
                Err(e) => Some(EnsureFault::BadMatchBy(e)),
                Ok(_) => None,
            }
        },
    }
}

/// `after` is `before` with the children ensured: nothing stopped it, the
/// root kept its head, and below it the path was walked and the
/// fragments added.
pub open spec fn ensured(
    before: XmlElement,
    after: XmlElement,
    parent: Seq<char>,
    match_by: Seq<char>,
    frags: Seq<XmlElement>,
) -> bool {
    &&& ensure_fault(before, parent, match_by) is None
    &&& same_head(before, after)
    &&& path_of(parent) matches Ok(path) && match_by_of(match_by) matches Ok(key) && grown(
        before.children@,
        after.children@,
        path.drop_first(),
        key.0,
        key.1,
        frags,
    )
}

/// The path and the key, read and checked against the root, or what stops
/// ensuring children there.
fn prepare(root: &XmlElement, parent: &str, match_by: &str) -> (r: Result<
    (Vec<PathStep>, MatchPath),
    EnsureError,
>)
    ensures
        match r {
            Ok((path, key_path)) => {
                &&& ensure_fault(*root, parent@, match_by@) is None
                &&& path@.len() >= 1
                &&& path_of(parent@) == Ok::<Seq<StepView>, PathFault>(step_views(path@))
                &&& match_by_of(match_by@) == Ok::<(Seq<StepView>, Seq<char>), PathFault>(
                    (step_views(key_path.steps@), key_path.attribute@),
                )
            },
            Err(e) => ensure_fault(*root, parent@, match_by@) == Some(e@),
        },
{
    let path = match parse_path(parent) {
        Ok(p) => p,
        Err(e) => {
            return Err(EnsureError::BadPath(e));
        },
    };
    if path.len() == 0 {
        return Err(EnsureError::EmptyPath);
    }
    assert(step_views(path@)[0] == path@[0]@);
    if !str_eq(root.name.as_str(), path[0].tag.as_str()) {
        return Err(
            EnsureError::RootMismatch {
                path_root: string_of(&chars_of(path[0].tag.as_str())),
                document_root: string_of(&chars_of(root.name.as_str())),
            },
        );
    }
    if !step_matches(root, &path[0]) {
        return Err(
            EnsureError::RootPredicates { document_root: string_of(&chars_of(root.name.as_str())) },
        );
    }
    let key_path = match parse_match_by(match_by) {
        Ok(k) => k,
        Err(e) => {
            return Err(EnsureError::BadMatchBy(e));
        },
    };
    Ok((path, key_path))
}

/// Checks that children can be ensured under `parent` on this root, keyed
/// by `match_by`: the path and the key read, and the path starts at the
/// root; else what stops it, in the order `ensure_fault` gives.
pub fn ensure_ready(root: &XmlElement, parent: &str, match_by: &str) -> (r: Result<(), EnsureError>)
    ensures
        match r {
            Ok(()) => ensure_fault(*root, parent@, match_by@) is None,
            Err(e) => ensure_fault(*root, parent@, match_by@) == Some(e@),
        },
{
    match prepare(root, parent, match_by) {
        Ok(_) => Ok(()),
        Err(e) => Err(e),
    }
}

/// Makes sure the element at `parent` (created where missing) has each
/// fragment as a child, unless a child with the same key, read by
/// `match_by`, is already there; a fragment without a key is always
/// added. The path's first step must be the root itself.
pub fn apply_ensure_children(
    root: &mut XmlElement,
    parent: &str,
    match_by: &str,
    fragments: Vec<XmlElement>,
) -> (r: Result<(), EnsureError>)
    ensures
        match r {
            Ok(()) => ensured(*old(root), *final(root), parent@, match_by@, fragments@),
            Err(e) => ensure_fault(*old(root), parent@, match_by@) == Some(e@) && *final(root)
                == *old(root),
        },
{
    let (path, key_path) = match prepare(root, parent, match_by) {
        Ok(p) => p,
        Err(e) => {
            return Err(e);
        },
    };
    descend(root, &path, 1, &key_path, fragments);
    assert(step_views(path@).skip(1) =~= step_views(path@).drop_first());
    Ok(())
}


/// Walking the path finds every step already there, and no fragment is
/// missing where it ends.
pub open spec fn settled(
    cs: Seq<XmlNode>,
    steps: Seq<StepView>,
    key_steps: Seq<StepView>,
    attribute: Seq<char>,
    frags: Seq<XmlElement>,
) -> bool
    decreases steps.len(),
{
    if steps.len() == 0 {
        kept(cs, key_steps, attribute, frags).len() == 0
    } else {
        match first_matching(cs, steps[0]) {
            Some(i) => settled(
                element_of(cs[i]).children@,
                steps.drop_first(),
                key_steps,
                attribute,
                frags,
            ),
            None => false,
        }
    }
}

/// No attribute is asked for twice with different values.
pub open spec fn consistent(attrs: AttrsView) -> bool {
    forall|i: int, j: int|
        0 <= i < attrs.len() && 0 <= j < attrs.len() && (#[trigger] attrs[i]).0 == (
        #[trigger] attrs[j]).0 ==> attrs[i].1 == attrs[j].1
}

proof fn lemma_put_attr(list: AttrsView, k: Seq<char>, v: Seq<char>, q: Seq<char>)
    ensures
        attr_of(put_attr(list, k, v), q) == if q == k {
            Some(v)
        } else {
            attr_of(list, q)
        },
    decreases list.len(),
{
    reveal_with_fuel(attr_of, 2);
    if list.len() > 0 && list[0].0 != k {
        lemma_put_attr(list.drop_first(), k, v, q);
        assert((seq![list[0]] + put_attr(list.drop_first(), k, v)).drop_first() =~= put_attr(
            list.drop_first(),
            k,
            v,
        ));
        assert((seq![list[0]] + put_attr(list.drop_first(), k, v))[0] == list[0]);
    } else if list.len() > 0 {
        assert(list.update(0, (k, v)).drop_first() =~= list.drop_first());
        assert(list.update(0, (k, v))[0] == (k, v));
    } else {
        assert(seq![(k, v)].drop_first() =~= Seq::<(Seq<char>, Seq<char>)>::empty());
        assert(seq![(k, v)][0] == (k, v));
    }
}

proof fn lemma_step_attributes(attrs: AttrsView, i: int)
    requires
        consistent(attrs),
        0 <= i < attrs.len(),
    ensures
        attr_of(step_attributes(attrs), attrs[i].0) == Some(attrs[i].1),
    decreases attrs.len(),
{
    let last = attrs.last();
    lemma_put_attr(step_attributes(attrs.drop_last()), last.0, last.1, attrs[i].0);
    if attrs[i].0 != last.0 {
        assert(attrs.drop_last()[i] == attrs[i]);
        lemma_step_attributes(attrs.drop_last(), i);
    } else {
        assert(attrs[attrs.len() - 1] == last);
    }
}

/// An element made for a consistent step satisfies it.
proof fn lemma_fresh_holds(e: XmlElement, step: StepView)
    requires
        fresh_head(e, step),
        consistent(step.attrs),
    ensures
        step_holds(e, step),
{
    assert forall|i: int| 0 <= i < step.attrs.len() implies attr_of(
        attrs_view(e.attributes@),
        #[trigger] step.attrs[i].0,
    ) == Some(step.attrs[i].1) by {
        lemma_step_attributes(step.attrs, i);
    }
}

/// Changing nodes without changing which of them match keeps the first
/// match.
proof fn lemma_first_matching_same(a: Seq<XmlNode>, b: Seq<XmlNode>, step: StepView)
    requires
        a.len() == b.len(),
        forall|j: int| 0 <= j < a.len() ==> node_matches(#[trigger] a[j], step) == node_matches(
            b[j],
            step,
        ),
    ensures
        first_matching(a, step) == first_matching(b, step),
    decreases a.len(),
{
    if a.len() > 0 {
        assert(node_matches(a[0], step) == node_matches(b[0], step));
        lemma_first_matching_same(a.drop_first(), b.drop_first(), step);
    }
}

/// The first match in a sequence with no match, then a matching node.
proof fn lemma_first_matching_end(a: Seq<XmlNode>, n: XmlNode, step: StepView)
    requires
        first_matching(a, step) is None,
        node_matches(n, step),
    ensures
        first_matching(a.push(n), step) == Some(a.len() as int),
    decreases a.len(),
{
    if a.len() > 0 {
        assert(a.push(n).drop_first() =~= a.drop_first().push(n));
        lemma_first_matching_end(a.drop_first(), n, step);
    } else {
        assert(a.push(n)[0] == n);
    }
}

/// A key present among some nodes is present among more.
proof fn lemma_present_grows(
    a: Seq<XmlNode>,
    extra: Seq<XmlNode>,
    ks: Seq<StepView>,
    at: Seq<char>,
    k: Option<Seq<char>>,
)
    requires
        key_present(a, ks, at, k),
    ensures
        key_present(a + extra, ks, at, k),
{
    let i = choose|i: int|
        0 <= i < a.len() && #[trigger] a[i] is Element && key_of(element_of(a[i]), ks, at) == k;
    assert((a + extra)[i] == a[i]);
}

/// After the fragments are added, each one's key is there, if it has one.
proof fn lemma_kept_covers(
    c: Seq<XmlNode>,
    ks: Seq<StepView>,
    at: Seq<char>,
    frags: Seq<XmlElement>,
    i: int,
)
    requires
        0 <= i < frags.len(),
        key_of(frags[i], ks, at) is Some,
    ensures
        key_present(c + kept(c, ks, at, frags), ks, at, key_of(frags[i], ks, at)),
    decreases frags.len(),
{
    let rest = kept(c, ks, at, frags.drop_last());
    let f = frags.last();
    if i < frags.len() - 1 {
        assert(frags.drop_last()[i] == frags[i]);
        lemma_kept_covers(c, ks, at, frags.drop_last(), i);
        if !key_present(c, ks, at, key_of(f, ks, at)) {
            lemma_present_grows(c + rest, seq![XmlNode::Element(f)], ks, at, key_of(frags[i], ks, at));
            assert(c + rest + seq![XmlNode::Element(f)] =~= c + rest.push(XmlNode::Element(f)));
        }
    } else if key_present(c, ks, at, key_of(f, ks, at)) {
        lemma_present_grows(c, kept(c, ks, at, frags), ks, at, key_of(f, ks, at));
    } else {
        let all = c + rest.push(XmlNode::Element(f));
        assert(all[all.len() - 1] == XmlNode::Element(f));
        assert(element_of(all[all.len() - 1]) == f);
    }
}

/// When every fragment is already present, none is added.
proof fn lemma_kept_empty(c: Seq<XmlNode>, ks: Seq<StepView>, at: Seq<char>, frags: Seq<XmlElement>)
    requires
        forall|i: int| 0 <= i < frags.len() ==> key_present(c, ks, at, key_of(#[trigger] frags[i], ks, at)),
    ensures
        kept(c, ks, at, frags).len() == 0,
    decreases frags.len(),
{
    if frags.len() > 0 {
        assert(frags[frags.len() - 1] == frags.last());
        assert forall|i: int| 0 <= i < frags.drop_last().len() implies key_present(
            c,
            ks,
            at,
            key_of(#[trigger] frags.drop_last()[i], ks, at),
        ) by {
            assert(frags.drop_last()[i] == frags[i]);
        }
        lemma_kept_empty(c, ks, at, frags.drop_last());
    }
}

/// Ensuring children settles the document: once done, walking the same
/// path finds every step already there and every fragment present. This
/// holds when every fragment has a key and no step asks for one attribute
/// with two values.
pub proof fn law_ensure_settles(
    before: Seq<XmlNode>,
    after: Seq<XmlNode>,
    steps: Seq<StepView>,
    key_steps: Seq<StepView>,
    attribute: Seq<char>,
    frags: Seq<XmlElement>,
)
    requires
        grown(before, after, steps, key_steps, attribute, frags),
        forall|i: int| 0 <= i < frags.len() ==> key_of(#[trigger] frags[i], key_steps, attribute) is Some,
        forall|i: int| 0 <= i < steps.len() ==> consistent(#[trigger] steps[i].attrs),
    ensures
        settled(after, steps, key_steps, attribute, frags),
    decreases steps.len(),
{
    if steps.len() == 0 {
        assert forall|i: int| 0 <= i < frags.len() implies key_present(
            after,
            key_steps,
            attribute,
            key_of(#[trigger] frags[i], key_steps, attribute),
        ) by {
            lemma_kept_covers(before, key_steps, attribute, frags, i);
        }
        lemma_kept_empty(after, key_steps, attribute, frags);
    } else {
        assert forall|i: int| 0 <= i < steps.drop_first().len() implies consistent(
            #[trigger] steps.drop_first()[i].attrs,
        ) by {
            assert(steps.drop_first()[i] == steps[i + 1]);
        }
        match first_matching(before, steps[0]) {
            Some(i) => {
                lemma_first_matching(before, steps[0]);
                assert forall|j: int| 0 <= j < before.len() implies node_matches(
                    #[trigger] before[j],
                    steps[0],
                ) == node_matches(after[j], steps[0]) by {
                    if j == i {
                        assert(before[j] is Element);
                    }
                }
                lemma_first_matching_same(before, after, steps[0]);
                law_ensure_settles(
                    element_of(before[i]).children@,
                    element_of(after[i]).children@,
                    steps.drop_first(),
                    key_steps,
                    attribute,
                    frags,
                );
            },
            None => {
                let last = after.last();
                assert(consistent(steps[0].attrs));
                lemma_fresh_holds(element_of(last), steps[0]);
                assert(after =~= before.push(last));
                lemma_first_matching_end(before, last, steps[0]);
                law_ensure_settles(
                    Seq::empty(),
                    element_of(last).children@,
                    steps.drop_first(),
                    key_steps,
                    attribute,
                    frags,
                );
            },
        }
    }
}


/// Growing a settled document by the same path and fragments leaves it
/// as it was.
proof fn lemma_settled_stays(
    cs: Seq<XmlNode>,
    again: Seq<XmlNode>,
    steps: Seq<StepView>,
    key_steps: Seq<StepView>,
    attribute: Seq<char>,
    frags: Seq<XmlElement>,
)
    requires
        settled(cs, steps, key_steps, attribute, frags),
        grown(cs, again, steps, key_steps, attribute, frags),
    ensures
        trees_of(again) == trees_of(cs),
    decreases steps.len(),
{
    if steps.len() == 0 {
        assert(again =~= cs);
    } else {
        let i = first_matching(cs, steps[0]).unwrap();
        lemma_first_matching(cs, steps[0]);
        lemma_settled_stays(
            element_of(cs[i]).children@,
            element_of(again[i]).children@,
            steps.drop_first(),
            key_steps,
            attribute,
            frags,
        );
        assert(node_tree(again[i]) == node_tree(cs[i]));
        lemma_trees_of(cs);
        lemma_trees_of(again);
        assert(trees_of(again) =~= trees_of(cs));
    }
}

/// Ensuring the same children twice: the second time leaves the document
/// as the first left it. This holds when every fragment has a key and no
/// step asks for one attribute with two values.
pub proof fn law_ensure_is_idempotent(
    before: Seq<XmlNode>,
    after: Seq<XmlNode>,
    again: Seq<XmlNode>,
    steps: Seq<StepView>,
    key_steps: Seq<StepView>,
    attribute: Seq<char>,
    frags: Seq<XmlElement>,
)
    requires
        grown(before, after, steps, key_steps, attribute, frags),
        grown(after, again, steps, key_steps, attribute, frags),
        forall|i: int| 0 <= i < frags.len() ==> key_of(#[trigger] frags[i], key_steps, attribute) is Some,
        forall|i: int| 0 <= i < steps.len() ==> consistent(#[trigger] steps[i].attrs),
    ensures
        trees_of(again) == trees_of(after),
{
    law_ensure_settles(before, after, steps, key_steps, attribute, frags);
    lemma_settled_stays(after, again, steps, key_steps, attribute, frags);
}

/// Every fragment has a key under `match_by`.
pub open spec fn all_keyed(frags: Seq<XmlElement>, match_by: Seq<char>) -> bool {
    match_by_of(match_by) matches Ok(key) && forall|i: int|
        0 <= i < frags.len() ==> key_of(#[trigger] frags[i], key.0, key.1) is Some
}

/// No step of the path asks for one attribute with two values.
pub open spec fn path_consistent(parent: Seq<char>) -> bool {
    path_of(parent) matches Ok(path) && forall|i: int|
        0 <= i < path.len() ==> consistent(#[trigger] path[i].attrs)
}

/// Ensuring children on a root that it has already patched leaves the
/// document unchanged, when every fragment has a key and no step asks for
/// one attribute with two values.
pub proof fn law_ensure_children_twice(
    first: XmlElement,
    once: XmlElement,
    twice: XmlElement,
    parent: Seq<char>,
    match_by: Seq<char>,
    frags: Seq<XmlElement>,
)
    requires
        ensured(first, once, parent, match_by, frags),
        ensured(once, twice, parent, match_by, frags),
        all_keyed(frags, match_by),
        path_consistent(parent),
    ensures
        twice@ == once@,
{
    let path = path_of(parent)->Ok_0;
    let key = match_by_of(match_by)->Ok_0;
    assert forall|i: int| 0 <= i < path.drop_first().len() implies consistent(
        #[trigger] path.drop_first()[i].attrs,
    ) by {
        assert(path.drop_first()[i] == path[i + 1]);
    }
    law_ensure_is_idempotent(
        first.children@,
        once.children@,
        twice.children@,
        path.drop_first(),
        key.0,
        key.1,
        frags,
    );
}

// ---- patching a project -----------------------------------------------

/// The non-empty pieces of a path between its slashes, leaving out `.`.
pub open spec fn named_parts(pieces: Seq<Seq<char>>) -> Seq<Seq<char>>
    decreases pieces.len(),
{
    if pieces.len() == 0 {
        Seq::empty()
    } else {
        let rest = named_parts(pieces.drop_last());
        let p = pieces.last();
        if p.len() == 0 || p == seq!['.'] {
            rest
        } else {
            rest.push(p)
        }
    }
}

/// A path's components: whether it starts at the root, and its names.
pub open spec fn path_parts(p: Seq<char>) -> (bool, Seq<Seq<char>>) {
    (p.len() > 0 && p[0] == '/', named_parts(split_at_char(p, '/')))
}

/// Whether `p` lies at or below `base`, component by component.
pub open spec fn path_under(p: Seq<char>, base: Seq<char>) -> bool {
    let (pa, pn) = path_parts(p);
    let (ba, bn) = path_parts(base);
    &&& pa == ba
    &&& bn.len() <= pn.len()
    &&& pn.take(bn.len() as int) == bn
}

pub(crate) fn parts_of(p: &str) -> (r: Vec<Vec<char>>)
    ensures
        views(r@) == path_parts(p@).1,
{
    let cs = chars_of(p);
    let pieces = split_chars(&cs, '/');
    let ghost all = views(pieces@);
    let mut out: Vec<Vec<char>> = Vec::new();
    let mut i: usize = 0;
    let dot = ['.'];
    assert(dot@ =~= seq!['.']);
    while i < pieces.len()
        invariant
            i <= pieces@.len(),
            all == views(pieces@),
            all == split_at_char(p@, '/'),
            dot@ == seq!['.'],
            views(out@) == named_parts(all.take(i as int)),
        decreases pieces.len() - i,
    {
        assert(all.take(i + 1).drop_last() =~= all.take(i as int));
        assert(all.take(i + 1).last() == pieces@[i as int]@);
        if pieces[i].len() > 0 && !chars_eq(&pieces[i], &dot) {
            let piece = crate::text::slice_vec(&pieces[i], 0, pieces[i].len());
            assert(piece@ =~= pieces@[i as int]@);
            let ghost before = out@;
            out.push(piece);
            assert(views(out@) =~= views(before).push(piece@));
        }
        i = i + 1;
    }
    assert(all.take(i as int) =~= all);
    out
}

/// Whether `p` lies at or below `base`, component by component, as
/// `Path::starts_with` has it.
pub fn path_starts_with(p: &str, base: &str) -> (r: bool)
    ensures
        r == path_under(p@, base@),
{
    let pc = chars_of(p);
    let bc = chars_of(base);
    let p_root = pc.len() > 0 && pc[0] == '/';
    let b_root = bc.len() > 0 && bc[0] == '/';
    if p_root != b_root {
        return false;
    }
    let pn = parts_of(p);
    let bn = parts_of(base);
    assert(views(pn@).len() == pn@.len() && views(bn@).len() == bn@.len());
    if bn.len() > pn.len() {
        return false;
    }
    let mut i: usize = 0;
    while i < bn.len()
        invariant
            i <= bn@.len(),
            bn@.len() <= pn@.len(),
            views(pn@) == path_parts(p@).1,
            views(bn@) == path_parts(base@).1,
            path_parts(p@).0 == path_parts(base@).0,
            forall|j: int| 0 <= j < i ==> pn@[j]@ == bn@[j]@,
        decreases bn.len() - i,
    {
        if !chars_eq(&pn[i], &bn[i]) {
            assert(views(pn@)[i as int] == pn@[i as int]@);
            assert(views(bn@)[i as int] == bn@[i as int]@);
            assert(views(pn@).take(views(bn@).len() as int)[i as int] != views(bn@)[i as int]);
            return false;
        }
        i = i + 1;
    }
    assert(views(pn@).take(views(bn@).len() as int) =~= views(bn@));
    true
}

/// Whether the project lies under any of the given directories.
pub fn under_any(project: &str, prefixes: &Vec<String>) -> (r: bool)
    ensures
        r == exists|i: int| 0 <= i < prefixes@.len() && path_under(project@, #[trigger] prefixes@[i]@),
{
    let mut i: usize = 0;
    while i < prefixes.len()
        invariant
            i <= prefixes@.len(),
            forall|j: int| 0 <= j < i ==> !path_under(project@, #[trigger] prefixes@[j]@),
        decreases prefixes.len() - i,
    {
        if path_starts_with(project, prefixes[i].as_str()) {
            return true;
        }
        i = i + 1;
    }
    false
}

/// How a patch went, or why it was left alone.
#[derive(Debug, Clone, PartialEq, Eq)]
pub enum PatchResult {
    Applied,
    AlreadyClean,
    Skipped(String),
}

/// What applying a patch comes to, once the new text is known.
#[derive(Debug, Clone, Copy, PartialEq, Eq, Structural)]
pub enum PatchAction {
    /// The file already reads as the patch would leave it.
    Clean,
    /// A dry run: it would be written.
    WouldUpdate,
    /// Write it; `created` when there was no file before.
    Write { created: bool },
}

/// The text a patch starts from: the file as it is, else the template
/// for a missing file, else nothing, and the patch is skipped.
pub fn starting_text(original: Option<&str>, template: Option<&str>) -> (r: Option<String>)
    ensures
        match original {
            Some(t) => r matches Some(s) && s@ == t@,
            None => match template {
                Some(t) => r matches Some(s) && s@ == t@,
                None => r is None,
            },
        },
{
    match original {
        Some(t) => Some(string_of(&chars_of(t))),
        None => match template {
            Some(t) => Some(string_of(&chars_of(t))),
            None => None,
        },
    }
}

/// Decides what to do with the patched text: nothing when it equals the
/// file as it was, a report on a dry run, else a write.
pub fn patch_action(original: Option<&str>, new_text: &str, dry_run: bool) -> (r: PatchAction)
    ensures
        r == if original matches Some(t) && t@ == new_text@ {
            PatchAction::Clean
        } else if dry_run {
            PatchAction::WouldUpdate
        } else {
            PatchAction::Write { created: original is None }
        },
{
    let unchanged = match original {
        Some(t) => str_eq(t, new_text),
        None => false,
    };
    if unchanged {
        PatchAction::Clean
    } else if dry_run {
        PatchAction::WouldUpdate
    } else {
        PatchAction::Write { created: original.is_none() }
    }
}

/// Why a patch was skipped: the project is under none of its directories.
pub open spec fn not_under_text(prefixes: Seq<Seq<char>>) -> Seq<char> {
    "project is not under any of: "@ + joined(prefixes, ", "@)
}

pub fn not_under_reason(prefixes: &Vec<String>) -> (r: String)
    ensures
        r@ == not_under_text(crate::statement::string_views(prefixes@)),
{
    let mut parts: Vec<Vec<char>> = Vec::new();
    let mut i: usize = 0;
    while i < prefixes.len()
        invariant
            i <= prefixes@.len(),
            views(parts@) =~= crate::statement::string_views(prefixes@.take(i as int)),
        decreases prefixes.len() - i,
    {
        let ghost before = parts@;
        parts.push(chars_of(prefixes[i].as_str()));
        assert(views(parts@) =~= views(before).push(prefixes@[i as int]@));
        assert(prefixes@.take(i + 1) =~= prefixes@.take(i as int).push(prefixes@[i as int]));
        i = i + 1;
    }
    assert(prefixes@.take(i as int) =~= prefixes@);
    let mut out: Vec<char> = Vec::new();
    push_str(&mut out, "project is not under any of: ");
    let joined_parts = join_first(&parts, parts.len(), ", ");
    assert(views(parts@).take(parts@.len() as int) =~= views(parts@));
    push_chars(&mut out, &joined_parts);
    string_of(&out)
}

/// Why a patch was skipped: its file is missing and there is no template.
pub open spec fn missing_text(target: Seq<char>) -> Seq<char> {
    target + " does not exist and no create-if-missing template was provided"@
}

pub fn missing_reason(target: &str) -> (r: String)
    ensures
        r@ == missing_text(target@),
{
    let mut out = chars_of(target);
    push_str(&mut out, " does not exist and no create-if-missing template was provided");
    string_of(&out)
}

/// How many patches counted as applied (clean ones too) and how many
/// were skipped.
pub open spec fn patch_counts(results: Seq<PatchResult>) -> (nat, nat)
    decreases results.len(),
{
    if results.len() == 0 {
        (0, 0)
    } else {
        let (a, s) = patch_counts(results.drop_last());
        match results.last() {
            PatchResult::Skipped(_) => (a, s + 1),
            _ => (a + 1, s),
        }
    }
}

pub fn count_patches(results: &Vec<PatchResult>) -> (r: (usize, usize))
    ensures
        r.0 == patch_counts(results@).0,
        r.1 == patch_counts(results@).1,
{
    let mut applied: usize = 0;
    let mut skipped: usize = 0;
    let mut i: usize = 0;
    while i < results.len()
        invariant
            i <= results@.len(),
            applied == patch_counts(results@.take(i as int)).0,
            skipped == patch_counts(results@.take(i as int)).1,
            applied + skipped == i,
        decreases results.len() - i,
    {
        assert(results@.take(i + 1).drop_last() =~= results@.take(i as int));
        assert(results@.take(i + 1).last() == results@[i as int]);
        match &results[i] {
            PatchResult::Skipped(_) => {
                skipped = skipped + 1;
            },
            _ => {
                applied = applied + 1;
            },
        }
        i = i + 1;
    }
    assert(results@.take(i as int) =~= results@);
    (applied, skipped)
}

/// The closing line: how many applied and skipped, and whether it was a
/// dry run.
pub open spec fn summary_text(applied: nat, skipped: nat, dry_run: bool) -> Seq<char> {
    "==> "@ + decimal(applied) + " patch(es) applied, "@ + decimal(skipped) + " skipped"@ + if dry_run {
        " (dry run)"@
    } else {
        Seq::empty()
    }
}

pub fn summary_line(applied: usize, skipped: usize, dry_run: bool) -> (r: String)
    ensures
        r@ == summary_text(applied as nat, skipped as nat, dry_run),
{
    let mut out: Vec<char> = Vec::new();
    push_str(&mut out, "==> ");
    push_chars(&mut out, &decimal_chars(applied as u64));
    push_str(&mut out, " patch(es) applied, ");
    push_chars(&mut out, &decimal_chars(skipped as u64));
    push_str(&mut out, " skipped");
    if dry_run {
        push_str(&mut out, " (dry run)");
    }
    string_of(&out)
}

} // verus!
