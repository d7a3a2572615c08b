use gre::document::{base_a4_landscape, base_a4_portrait, layer};

#[test]
fn layer_is_labelled_inkscape_layer() {
    let g = layer("signature");
    assert_eq!(g.to_string(), r#"<g inkscape:groupmode="layer" inkscape:label="signature"/>"#);
}

#[test]
fn base_a4_portrait_attributes() {
    let d = base_a4_portrait("white");
    assert_eq!(
        d.to_string(),
        r#"<svg height="297mm" style="background:white" viewBox="0 0 210 297" width="210mm" xmlns="http://www.w3.org/2000/svg" xmlns:inkscape="http://www.inkscape.org/namespaces/inkscape"/>"#
    );
}

#[test]
fn base_a4_landscape_attributes() {
    let d = base_a4_landscape("#123");
    assert_eq!(
        d.to_string(),
        r##"<svg height="210mm" style="background:#123" viewBox="0 0 297 210" width="297mm" xmlns="http://www.w3.org/2000/svg" xmlns:inkscape="http://www.inkscape.org/namespaces/inkscape"/>"##
    );
}

#[test]
fn base_a4_view_box_matches_tuple_form() {
    let from_tuple = svg::Document::new().set("viewBox", (0, 0, 210, 297));
    assert!(from_tuple.to_string().contains(r#"viewBox="0 0 210 297""#));
}
