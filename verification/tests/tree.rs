use vmf_parser_nom::ast::{Block, Property, Vmf};
use vmf_parser_nom::parse;
use vmf_parser_nom::text::Text;

#[test]
fn document_is_a_root_block_without_properties() {
    let vmf_owned = parse::<String, ()>("block1{}block2{}block3{}").unwrap();
    assert_eq!(vmf_owned.inner.name, "root");
    assert_eq!(vmf_owned.inner.name, Vmf::<String>::ROOT_NAME);
    assert_eq!(vmf_owned.inner.props, vec![]);
    assert!(!vmf_owned.inner.blocks.is_empty());
    let block: &Block<String> = &vmf_owned;
    assert_eq!(vmf_owned.inner, *block);
}

#[test]
fn new_document_holds_the_blocks() {
    let document: Vmf<&str> = Vmf::new(vec![Block::new("a", vec![], vec![])]);
    assert_eq!(document.inner.name, "root");
    assert!(document.inner.props.is_empty());
    assert_eq!(document.inner.blocks, vec![Block::new("a", vec![], vec![])]);
}

#[test]
fn default_document_is_empty() {
    let document: Vmf<String> = Vmf::default();
    assert_eq!(document.inner.name, "root");
    assert!(document.inner.props.is_empty());
    assert!(document.inner.blocks.is_empty());
}

#[test]
fn root_gives_the_inner_block() {
    let mut document: Vmf<&str> = Vmf::new(vec![Block::new("a", vec![], vec![])]);
    assert_eq!(document.root().blocks.len(), 1);
    document.root_mut().blocks.push(Block::new("b", vec![Property::new("k", "v")], vec![]));
    assert_eq!(document.root().blocks.len(), 2);
    assert_eq!(document.to_string(), "a\n{\n}\nb\n{\n\t\"k\" \"v\"\n}");
    let by_ref: &Block<&str> = document.as_ref();
    assert_eq!(by_ref.blocks.len(), 2);
    document.as_mut().blocks.pop();
    assert_eq!(document.blocks.len(), 1);
    document.blocks.clear();
    assert_eq!(document.to_string(), "");
    let inner: Block<&str> = Block::from(document);
    assert_eq!(inner, Block::new("root", vec![], vec![]));
}

#[test]
fn iter_children_gives_one_level() {
    let document = parse::<&str, ()>("a{b{c{}} d{}}").unwrap();
    let top: Vec<&str> = document.iter_children().iter().map(|b| b.name).collect();
    assert_eq!(top, vec!["a"]);
    let below: Vec<&str> = document.blocks[0].iter_children().iter().map(|b| b.name).collect();
    assert_eq!(below, vec!["b", "d"]);
}

#[test]
fn new_block_and_property_hold_what_they_are_given() {
    let prop = Property::new("k", "v");
    assert_eq!(prop.key, "k");
    assert_eq!(prop.value, "v");
    let block = Block::new("a", vec![prop], vec![Block::new("b", vec![], vec![])]);
    assert_eq!(block.name, "a");
    assert_eq!(block.props, vec![Property::new("k", "v")]);
    assert_eq!(block.blocks, vec![Block::new("b", vec![], vec![])]);
}

#[test]
fn clones_are_equal() {
    let document = parse::<String, ()>("a{\"k\" \"v\" b{}} c{}").unwrap();
    assert_eq!(document.clone(), document);
    assert_eq!(document.blocks[0].clone(), document.blocks[0]);
    assert_eq!(document.blocks[0].duplicate(), document.blocks[0]);
    assert_eq!(document.blocks[0].props[0].duplicate(), document.blocks[0].props[0]);
    let borrowed = parse::<&str, ()>("a{\"k\" \"v\" b{}} c{}").unwrap();
    assert_eq!(borrowed.clone(), borrowed);
}

#[test]
fn text_is_borrowed_or_copied() {
    let input = String::from("abc");
    let borrowed: &str = Text::from_slice(&input);
    let owned: String = Text::from_slice(&input);
    assert_eq!(borrowed, "abc");
    assert_eq!(owned, "abc");
    assert_eq!(borrowed.as_ptr(), input.as_ptr());
    assert_ne!(owned.as_ptr(), input.as_ptr());
    assert_eq!(Text::as_str(&borrowed), "abc");
    assert_eq!(Text::as_str(&owned), "abc");
    assert_eq!(Text::duplicate(&borrowed), "abc");
    assert_eq!(Text::duplicate(&owned), "abc");
}

#[test]
fn same_as_compares_the_trees_not_the_texts() {
    let borrowed = parse::<&str, ()>("a{\"k\" \"v\" b{}} c{}").unwrap();
    let owned = parse::<String, ()>("a { \"k\"   \"v\" b { } } // x\n c { }").unwrap();
    assert!(borrowed.same_as(&owned));
    assert!(borrowed.same_as(&borrowed));
    for other in [
        "a{\"k\" \"v\" b{}}",
        "a{\"k\" \"v\" b{}} d{}",
        "a{\"k\" \"w\" b{}} c{}",
        "a{\"l\" \"v\" b{}} c{}",
        "a{\"k\" \"v\"} c{}",
        "a{b{}} c{}",
        "a{\"k\" \"v\" b{} \"k\" \"v\"} c{}",
        "a{\"k\" \"v\" b{b{}}} c{}",
        "a{\"k\" \"v\" bb{}} c{}",
    ] {
        let different = parse::<String, ()>(other).unwrap();
        assert!(!borrowed.same_as(&different), "{other}");
        assert!(!different.same_as(&borrowed), "{other}");
    }
    assert!(Property::new("k", "v").same_as(&Property::new("k".to_string(), "v".to_string())));
    assert!(!Property::new("k", "v").same_as(&Property::new("k", "")));
    assert!(!Property::new("k", "v").same_as(&Property::new("", "v")));
}
