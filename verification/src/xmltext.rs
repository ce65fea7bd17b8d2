//! A document as XML text: read with `xmltree`, patched as a tree, and
//! written back the way project files are laid out.

use vstd::prelude::*;

use crate::statement::string_views;
use crate::text::{chars_of, string_of};
use crate::xmlpatch::{
    apply_ensure_children, ensure_fault, ensure_ready, ensured, EnsureError, EnsureFault, XmlElement, XmlNode,
    XmlTree,
};

verus! {

#[verifier::external_type_specification]
#[verifier::external_body]
pub struct ExElement(xmltree::Element);

#[verifier::external_type_specification]
#[verifier::external_body]
pub struct ExXmlNode(xmltree::XMLNode);

/// What `xmltree::Element::parse` makes of a text: the tree it reads, or
/// the message of the error it stops on.
pub uninterp spec fn xml_parsed(text: Seq<char>) -> Result<XmlTree, Seq<char>>;

/// The text that `xmltree::Element::write_with_config` writes for a tree
/// (indented by two spaces, empty tags padded, with an XML declaration),
/// if it writes one in UTF-8.
pub uninterp spec fn xml_emitted(t: XmlTree) -> Option<Seq<char>>;

/// Moves an element that `xmltree` read into the library's element, field
/// by field; it states nothing and is called only by `parse_xml`.
#[verifier::external_body]
fn element_from(e: xmltree::Element) -> XmlElement {
    XmlElement {
        prefix: e.prefix,
        namespace: e.namespace,
        namespaces: e.namespaces.map(|ns| ns.0.into_iter().collect()),
        name: e.name,
        attributes: e.attributes.into_iter().collect(),
        children: e.children.into_iter().map(node_from).collect(),
    }
}

/// A node that `xmltree` read, variant for variant.
#[verifier::external_body]
fn node_from(n: xmltree::XMLNode) -> XmlNode {
    match n {
        xmltree::XMLNode::Element(e) => XmlNode::Element(element_from(e)),
        xmltree::XMLNode::Comment(t) => XmlNode::Comment(t),
        xmltree::XMLNode::CData(t) => XmlNode::CData(t),
        xmltree::XMLNode::Text(t) => XmlNode::Text(t),
        xmltree::XMLNode::ProcessingInstruction(a, b) => XmlNode::ProcessingInstruction(a, b),
    }
}

/// The library's element as an `xmltree` element, field by field; it
/// states nothing and is called only by `emit_xml`.
#[verifier::external_body]
fn element_to(e: &XmlElement) -> xmltree::Element {
    let mut out = xmltree::Element::new(&e.name);
    out.prefix = e.prefix.clone();
    out.namespace = e.namespace.clone();
    out.namespaces = e.namespaces.as_ref().map(|ns| xmltree::Namespace(ns.iter().cloned().collect()));
    out.attributes = e.attributes.iter().cloned().collect();
    out.children = e.children.iter().map(node_to).collect();
    out
}

/// A node as an `xmltree` node, variant for variant.
#[verifier::external_body]
fn node_to(n: &XmlNode) -> xmltree::XMLNode {
    match n {
        XmlNode::Element(e) => xmltree::XMLNode::Element(element_to(e)),
        XmlNode::Comment(t) => xmltree::XMLNode::Comment(t.clone()),
        XmlNode::CData(t) => xmltree::XMLNode::CData(t.clone()),
        XmlNode::Text(t) => xmltree::XMLNode::Text(t.clone()),
        XmlNode::ProcessingInstruction(a, b) => xmltree::XMLNode::ProcessingInstruction(a.clone(), b.clone()),
    }
}

/// Reads a document with `xmltree::Element::parse`. The claim: the tree
/// or the error message is the one named `xml_parsed` of the text.
#[verifier::external_body]
fn parse_xml(text: &str) -> (r: Result<XmlElement, String>)
    ensures
        match r {
            Ok(e) => xml_parsed(text@) == Ok::<XmlTree, Seq<char>>(e@),
            Err(m) => xml_parsed(text@) == Err::<XmlTree, Seq<char>>(m@),
        },
{
    match xmltree::Element::parse(text.as_bytes()) {
        Ok(e) => Ok(element_from(e)),
        Err(e) => Err(e.to_string()),
    }
}

/// Writes a document with `xmltree::Element::write_with_config`, then
/// reads the bytes as UTF-8. The claim: the text is the one named
/// `xml_emitted` of the tree, or none where that is none.
#[verifier::external_body]
fn emit_xml(e: &XmlElement) -> (r: Option<String>)
    ensures
        match r {
            Some(s) => xml_emitted(e@) == Some(s@),
            None => xml_emitted(e@) is None,
        },
{
    let config = xmltree::EmitterConfig::new()
        .perform_indent(true)
        .indent_string("  ")
        .pad_self_closing(true)
        .write_document_declaration(true);
    let mut buf: Vec<u8> = Vec::new();
    match element_to(e).write_with_config(&mut buf, config) {
        Ok(()) => String::from_utf8(buf).ok(),
        Err(_) => None,
    }
}

/// One ensure-children entry of a patch: the path of the parent, the key
/// children are matched by, and the fragments to have there.
#[derive(Debug, Clone, PartialEq, Eq)]
pub struct EnsureSpec {
    pub parent: String,
    pub match_by: String,
    pub fragments: Vec<String>,
}

pub struct EnsureSpecView {
    pub parent: Seq<char>,
    pub match_by: Seq<char>,
    pub fragments: Seq<Seq<char>>,
}

impl View for EnsureSpec {
    type V = EnsureSpecView;

    open spec fn view(&self) -> EnsureSpecView {
        EnsureSpecView {
            parent: self.parent@,
            match_by: self.match_by@,
            fragments: string_views(self.fragments@),
        }
    }
}

pub open spec fn spec_views(v: Seq<EnsureSpec>) -> Seq<EnsureSpecView> {
    v.map_values(|s: EnsureSpec| s@)
}

/// Why a file could not be patched.
#[derive(Debug, Clone, PartialEq, Eq)]
pub enum PatchError {
    /// The file (or its template) does not read as XML; `cause` is the
    /// reader's message.
    BadXml { cause: String },
    /// A fragment does not read as XML.
    BadFragment { fragment: String, cause: String },
    /// Ensuring the children failed.
    Ensure(EnsureError),
    /// The patched document could not be written as text.
    BadOutput,
}

pub enum PatchFault {
    BadXml(Seq<char>),
    BadFragment(Seq<char>, Seq<char>),
    Ensure(EnsureFault),
    BadOutput,
}

impl View for PatchError {
    type V = PatchFault;

    open spec fn view(&self) -> PatchFault {
        match self {
            PatchError::BadXml { cause } => PatchFault::BadXml(cause@),
            PatchError::BadFragment { fragment, cause } => PatchFault::BadFragment(
                fragment@,
                cause@,
            ),
            PatchError::Ensure(e) => PatchFault::Ensure(e@),
            PatchError::BadOutput => PatchFault::BadOutput,
        }
    }
}

/// The first fragment that does not read as XML, with the reader's
/// message.
pub open spec fn bad_fragment(frags: Seq<Seq<char>>) -> Option<(Seq<char>, Seq<char>)>
    decreases frags.len(),
{
    if frags.len() == 0 {
        None
    } else {
        match xml_parsed(frags[0]) {
            Err(m) => Some((frags[0], m)),
            Ok(_) => bad_fragment(frags.drop_first()),
        }
    }
}

/// `elems` are the fragments, read.
pub open spec fn parsed_all(frags: Seq<Seq<char>>, elems: Seq<XmlElement>) -> bool {
    &&& elems.len() == frags.len()
    &&& forall|i: int|
        0 <= i < frags.len() ==> xml_parsed(#[trigger] frags[i]) == Ok::<XmlTree, Seq<char>>(
            elems[i]@,
        )
}

/// Where ensuring `specs` in turn on `cur` leads: the text written for the
/// final document, or what stopped it (for each entry in order: what stops
/// the ensuring, then its first fragment that does not read).
pub open spec fn ensures_lead(
    cur: XmlElement,
    specs: Seq<EnsureSpecView>,
    out: Result<Seq<char>, PatchFault>,
) -> bool
    decreases specs.len(),
{
    if specs.len() == 0 {
        out == match xml_emitted(cur@) {
            Some(s) => Ok::<Seq<char>, PatchFault>(s),
            None => Err(PatchFault::BadOutput),
        }
    } else {
        let sp = specs[0];
        match ensure_fault(cur, sp.parent, sp.match_by) {
            Some(f) => out == Err::<Seq<char>, PatchFault>(PatchFault::Ensure(f)),
            None => match bad_fragment(sp.fragments) {
                Some((f, m)) => out == Err::<Seq<char>, PatchFault>(PatchFault::BadFragment(f, m)),
                None => exists|frags: Seq<XmlElement>, next: XmlElement|
                    #![trigger ensured(cur, next, sp.parent, sp.match_by, frags)]
                    {
                        &&& parsed_all(sp.fragments, frags)
                        &&& ensured(cur, next, sp.parent, sp.match_by, frags)
                        &&& ensures_lead(next, specs.drop_first(), out)
                    },
            },
        }
    }
}

/// Where patching the text `text` leads: it must read as XML, then the
/// entries are ensured on the document read.
pub open spec fn text_outcome(
    text: Seq<char>,
    specs: Seq<EnsureSpecView>,
    out: Result<Seq<char>, PatchFault>,
) -> bool {
    match xml_parsed(text) {
        Err(m) => out == Err::<Seq<char>, PatchFault>(PatchFault::BadXml(m)),
        Ok(tree) => exists|root: XmlElement|
            #![trigger ensures_lead(root, specs, out)]
            root@ == tree && ensures_lead(root, specs, out),
    }
}

pub open spec fn str_view(o: Option<&str>) -> Option<Seq<char>> {
    match o {
        Some(t) => Some(t@),
        None => None,
    }
}

/// The fragments read in order, or the first that does not read.
fn parse_fragments(frags: &Vec<String>) -> (r: Result<Vec<XmlElement>, (String, String)>)
    ensures
        match r {
            Ok(v) => bad_fragment(string_views(frags@)) is None && parsed_all(
                string_views(frags@),
                v@,
            ),
            Err((f, m)) => bad_fragment(string_views(frags@)) == Some((f@, m@)),
        },
{
    let ghost ts = string_views(frags@);
    let mut out: Vec<XmlElement> = Vec::new();
    let mut j: usize = 0;
    assert(ts.skip(0) =~= ts);
    while j < frags.len()
        invariant
            j <= frags@.len(),
            ts == string_views(frags@),
            bad_fragment(ts) == bad_fragment(ts.skip(j as int)),
            out@.len() == j,
            forall|k: int|
                0 <= k < j ==> xml_parsed(#[trigger] ts[k]) == Ok::<XmlTree, Seq<char>>(out@[k]@),
        decreases frags.len() - j,
    {
        assert(ts.skip(j as int).drop_first() =~= ts.skip(j + 1));
        assert(ts.skip(j as int)[0] == ts[j as int]);
        assert(ts[j as int] == frags@[j as int]@);
        match parse_xml(frags[j].as_str()) {
            Ok(e) => {
                out.push(e);
            },
            Err(cause) => {
                return Err((string_of(&chars_of(frags[j].as_str())), cause));
            },
        }
        j = j + 1;
    }
    assert(ts.skip(j as int) =~= Seq::<Seq<char>>::empty());
    Ok(out)
}

/// The text a patch writes back: the file as it is (else the template for
/// a missing file, else nothing), read as XML, each ensure-children entry
/// applied in turn, written out again.
pub fn patched_text(original: Option<&str>, template: Option<&str>, specs: &Vec<EnsureSpec>) -> (r:
    Result<Option<String>, PatchError>)
    ensures
        match (if original is Some { str_view(original) } else { str_view(template) }) {
            None => r matches Ok(None),
            Some(t) => match r {
                Ok(Some(s)) => text_outcome(t, spec_views(specs@), Ok(s@)),
                Ok(None) => false,
                Err(e) => text_outcome(t, spec_views(specs@), Err(e@)),
            },
        },
{
    let start = match crate::xmlpatch::starting_text(original, template) {
        Some(t) => t,
        None => {
            return Ok(None);
        },
    };
    let ghost views = spec_views(specs@);
    let mut root = match parse_xml(start.as_str()) {
        Ok(e) => e,
        Err(cause) => {
            return Err(PatchError::BadXml { cause });
        },
    };
    let ghost root0 = root;
    let mut i: usize = 0;
    assert(views.skip(0) =~= views);
    while i < specs.len()
        invariant
            i <= specs@.len(),
            views == spec_views(specs@),
            xml_parsed(start@) == Ok::<XmlTree, Seq<char>>(root0@),
            (if original is Some { str_view(original) } else { str_view(template) }) == Some(start@),
            forall|out: Result<Seq<char>, PatchFault>|
                #[trigger] ensures_lead(root, views.skip(i as int), out) ==> ensures_lead(
                    root0,
                    views,
                    out,
                ),
        decreases specs.len() - i,
    {
        let ghost spv = views[i as int];
        assert(spv == specs@[i as int]@);
        let ghost before = root;
        assert(views.skip(i as int)[0] == spv);
        assert(views.skip(i as int).drop_first() =~= views.skip(i + 1));
        match ensure_ready(&root, specs[i].parent.as_str(), specs[i].match_by.as_str()) {
            Ok(()) => {},
            Err(e) => {
                assert(ensures_lead(root, views.skip(i as int), Err(PatchFault::Ensure(e@))));
                assert(ensures_lead(root0, views, Err(PatchFault::Ensure(e@))));
                assert(text_outcome(start@, views, Err(PatchFault::Ensure(e@))));
                return Err(PatchError::Ensure(e));
            },
        }
        let frags = match parse_fragments(&specs[i].fragments) {
            Ok(f) => f,
            Err((fragment, cause)) => {
                let ghost out = Err::<Seq<char>, PatchFault>(
                    PatchFault::BadFragment(fragment@, cause@),
                );
                assert(ensures_lead(root, views.skip(i as int), out));
                assert(ensures_lead(root0, views, out));
                assert(text_outcome(start@, views, out));
                return Err(PatchError::BadFragment { fragment, cause });
            },
        };
        let ghost fv = frags@;
        match apply_ensure_children(
            &mut root,
            specs[i].parent.as_str(),
            specs[i].match_by.as_str(),
            frags,
        ) {
            Ok(()) => {
                assert forall|out: Result<Seq<char>, PatchFault>|
                    #[trigger] ensures_lead(root, views.skip(i + 1), out) implies ensures_lead(
                    root0,
                    views,
                    out,
                ) by {
                    assert(ensured(before, root, spv.parent, spv.match_by, fv));
                    assert(ensures_lead(before, views.skip(i as int), out));
                }
            },
            Err(e) => {
                return Err(PatchError::Ensure(e));
            },
        }
        i = i + 1;
    }
    assert(views.skip(i as int) =~= Seq::<EnsureSpecView>::empty());
    match emit_xml(&root) {
        Some(s) => {
            assert(ensures_lead(root, views.skip(i as int), Ok(s@)));
            assert(ensures_lead(root0, views, Ok(s@)));
            Ok(Some(s))
        },
        None => {
            assert(ensures_lead(root, views.skip(i as int), Err(PatchFault::BadOutput)));
            assert(ensures_lead(root0, views, Err(PatchFault::BadOutput)));
            Err(PatchError::BadOutput)
        },
    }
}

} // verus!
