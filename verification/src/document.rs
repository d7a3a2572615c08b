//! SVG scaffolding: layers and A4 documents, built with the `svg` crate.
use vstd::prelude::*;
use vstd::string::StringExecFns;
use svg::node::element::{Group, SVG};

verus! {

#[verifier::external_type_specification]
#[verifier::external_body]
pub struct ExGroup(Group);

#[verifier::external_type_specification]
#[verifier::external_body]
pub struct ExSvg(SVG);

/// An empty attribute map.
pub open spec fn no_attributes() -> Map<Seq<char>, Seq<char>> {
    Map::empty()
}

/// The attributes of a group element, by name.
pub uninterp spec fn group_attributes(g: Group) -> Map<Seq<char>, Seq<char>>;

/// The number of child nodes of a group element.
pub uninterp spec fn group_children(g: Group) -> nat;

/// The attributes of an `svg` document element, by name.
pub uninterp spec fn document_attributes(d: SVG) -> Map<Seq<char>, Seq<char>>;

/// The number of child nodes of an `svg` document element.
pub uninterp spec fn document_children(d: SVG) -> nat;

/// `svg::node::element::Group::new`: an element with no attribute and no
/// child.
#[verifier::external_body]
fn new_group() -> (g: Group)
    ensures
        group_attributes(g) == no_attributes(),
        group_children(g) == 0,
{
    Group::new()
}

/// `svg::node::element::Group::set` with a text value: inserts the attribute
/// `name` with the text `value` into the element's attribute map (replacing an
/// earlier value of that name) and leaves the children alone.
#[verifier::external_body]
fn group_set(g: Group, name: &str, value: &str) -> (r: Group)
    ensures
        group_attributes(r) == group_attributes(g).insert(name@, value@),
        group_children(r) == group_children(g),
{
    g.set(name, value)
}

/// The attributes of a fresh `svg` element: its namespace only.
pub open spec fn svg_namespace() -> Map<Seq<char>, Seq<char>> {
    no_attributes().insert("xmlns"@, "http://www.w3.org/2000/svg"@)
}

/// `svg::node::element::SVG::new` (the crate's `Document`): an element whose
/// only attribute is the SVG namespace `xmlns`, and with no child.
#[verifier::external_body]
fn new_document() -> (d: SVG)
    ensures
        document_attributes(d) == svg_namespace(),
        document_children(d) == 0,
{
    SVG::new()
}

/// `svg::node::element::SVG::set` with a text value: inserts the attribute
/// `name` with the text `value` into the element's attribute map (replacing an
/// earlier value of that name) and leaves the children alone.
#[verifier::external_body]
fn document_set(d: SVG, name: &str, value: &str) -> (r: SVG)
    ensures
        document_attributes(r) == document_attributes(d).insert(name@, value@),
        document_children(r) == document_children(d),
{
    d.set(name, value)
}

/// An empty Inkscape layer group labelled `id`.
pub fn layer(id: &str) -> (g: Group)
    ensures
        group_attributes(g) == no_attributes().insert("inkscape:groupmode"@, "layer"@).insert(
            "inkscape:label"@,
            id@,
        ),
        group_children(g) == 0,
{
    let g = new_group();
    let g = group_set(g, "inkscape:groupmode", "layer");
    group_set(g, "inkscape:label", id)
}

/// The attributes of an empty A4 document whose view box is `view_box`, of
/// size `width` by `height`, with background colour `bg`.
pub open spec fn a4_attributes(view_box: Seq<char>, width: Seq<char>, height: Seq<char>, bg: Seq<char>) -> Map<Seq<char>, Seq<char>> {
    svg_namespace().insert("xmlns:inkscape"@, "http://www.inkscape.org/namespaces/inkscape"@).insert(
        "viewBox"@,
        view_box,
    ).insert("width"@, width).insert("height"@, height).insert("style"@, "background:"@ + bg)
}

/// An empty A4 document in portrait orientation (210mm by 297mm, in
/// millimetre units), with background colour `bg`.
pub fn base_a4_portrait(bg: &str) -> (d: SVG)
    ensures
        document_attributes(d) == a4_attributes("0 0 210 297"@, "210mm"@, "297mm"@, bg@),
        document_children(d) == 0,
{
    let mut style = String::from_str("background:");
    style.append(bg);
    let d = new_document();
    let d = document_set(d, "xmlns:inkscape", "http://www.inkscape.org/namespaces/inkscape");
    let d = document_set(d, "viewBox", "0 0 210 297");
    let d = document_set(d, "width", "210mm");
    let d = document_set(d, "height", "297mm");
    document_set(d, "style", style.as_str())
}

/// An empty A4 document in landscape orientation (297mm by 210mm, in
/// millimetre units), with background colour `bg`.
pub fn base_a4_landscape(bg: &str) -> (d: SVG)
    ensures
        document_attributes(d) == a4_attributes("0 0 297 210"@, "297mm"@, "210mm"@, bg@),
        document_children(d) == 0,
{
    let mut style = String::from_str("background:");
    style.append(bg);
    let d = new_document();
    let d = document_set(d, "xmlns:inkscape", "http://www.inkscape.org/namespaces/inkscape");
    let d = document_set(d, "viewBox", "0 0 297 210");
    let d = document_set(d, "width", "297mm");
    let d = document_set(d, "height", "210mm");
    document_set(d, "style", style.as_str())
}

} // verus!
