use azul_core::css::CssProperty;
use azul_core::css_parser::StyleParseError;
use azul_core::css_parser::parse_css;

#[test]
fn parses_a_simple_sheet() {
    let text = b"button.primary#main { color: 255; width: 100; }".to_vec();
    let (css, diags) = parse_css(&text);
    assert_eq!(diags.len(), 0);
    assert_eq!(css.rules.len(), 1);
    let r = &css.rules[0];
    assert_eq!(r.selector.tag, Some(b"button".to_vec()));
    assert_eq!(r.selector.classes, vec![b"primary".to_vec()]);
    assert_eq!(r.selector.id_attr, Some(b"main".to_vec()));
    // 100 for the id, 10 for the class, 1 for the tag
    assert_eq!(r.specificity, 111);
    assert_eq!(r.declarations.len(), 2);
    assert_eq!(r.declarations[0].property, CssProperty::Color);
    assert_eq!(r.declarations[0].value, 255);
    assert_eq!(r.declarations[1].property, CssProperty::Width);
    assert_eq!(r.declarations[1].value, 100);
}

#[test]
fn specificity_of_plain_forms() {
    let text = b"* { margin: 1; } p { margin: 2; } .c { margin: 3; } #i { margin: 4; }".to_vec();
    let (css, diags) = parse_css(&text);
    assert_eq!(diags.len(), 0);
    assert_eq!(css.rules.len(), 4);
    assert_eq!(css.rules[0].specificity, 0);
    assert_eq!(css.rules[1].specificity, 1);
    assert_eq!(css.rules[2].specificity, 10);
    assert_eq!(css.rules[3].specificity, 100);
    assert!(css.rules[0].selector.tag.is_none());
    assert!(css.rules[2].selector.tag.is_none());
    assert_eq!(css.rules[2].selector.classes, vec![b"c".to_vec()]);
}

#[test]
fn negative_values_parse() {
    let text = b"p { z-index: -3; }".to_vec();
    let (css, diags) = parse_css(&text);
    assert_eq!(diags.len(), 0);
    assert_eq!(css.rules[0].declarations[0].property, CssProperty::ZIndex);
    assert_eq!(css.rules[0].declarations[0].value, -3);
}

#[test]
fn bad_selector_drops_rule_and_continues() {
    // two ids in one selector is malformed; the later rule still parses
    let text = b"a#b#c { color: 1; } p { color: 2; }".to_vec();
    let (css, diags) = parse_css(&text);
    assert_eq!(css.rules.len(), 1);
    assert_eq!(css.rules[0].selector.tag, Some(b"p".to_vec()));
    assert_eq!(diags, vec![StyleParseError::BadSelector]);
}

#[test]
fn empty_class_is_a_bad_selector() {
    let text = b"a..b { color: 1; }".to_vec();
    let (css, diags) = parse_css(&text);
    assert_eq!(css.rules.len(), 0);
    assert_eq!(diags, vec![StyleParseError::BadSelector]);
}

#[test]
fn bad_declaration_drops_itself_only() {
    let text = b"p { colour: 1; width: 7; height: oops; }".to_vec();
    let (css, diags) = parse_css(&text);
    assert_eq!(css.rules.len(), 1);
    assert_eq!(css.rules[0].declarations.len(), 1);
    assert_eq!(css.rules[0].declarations[0].property, CssProperty::Width);
    assert_eq!(css.rules[0].declarations[0].value, 7);
    assert_eq!(
        diags,
        vec![StyleParseError::BadDeclaration, StyleParseError::BadDeclaration]
    );
}

#[test]
fn unclosed_block_is_diagnosed() {
    let text = b"p { color: 1; } q { width: 2".to_vec();
    let (css, diags) = parse_css(&text);
    assert_eq!(css.rules.len(), 1);
    assert_eq!(diags, vec![StyleParseError::UnclosedBlock]);
}

#[test]
fn too_long_number_is_a_bad_declaration() {
    let text = b"p { width: 1234567890123456789012345; }".to_vec();
    let (css, diags) = parse_css(&text);
    assert_eq!(css.rules.len(), 1);
    assert_eq!(css.rules[0].declarations.len(), 0);
    assert_eq!(diags, vec![StyleParseError::BadDeclaration]);
}

#[test]
fn empty_sheet_parses_to_nothing() {
    let text = b"   \n  ".to_vec();
    let (css, diags) = parse_css(&text);
    assert_eq!(css.rules.len(), 0);
    assert_eq!(diags.len(), 0);
}
