use vmf_parser_nom::ast::{Block, Property, Vmf};
use vmf_parser_nom::display::PadAdapter;
use vmf_parser_nom::new_ids::IdState;
use vmf_parser_nom::parse;
use vmf_parser_nom::parsers::block;

fn sample() -> Vmf<&'static str> {
    Vmf::new(vec![
        Block::new(
            "world",
            vec![Property::new("id", "1"), Property::new("skyname", "sky_day01_01")],
            vec![Block::new(
                "solid",
                vec![Property::new("id", "2")],
                vec![
                    Block::new("side", vec![Property::new("plane", "(0 0 0) (1 0 0) (1 1 0)")], vec![]),
                    Block::new("side", vec![Property::new("", "")], vec![]),
                ],
            )],
        ),
        Block::new("cameras", vec![], vec![]),
    ])
}

const SAMPLE_TEXT: &str = "world
{
\t\"id\" \"1\"
\t\"skyname\" \"sky_day01_01\"
\tsolid
\t{
\t\t\"id\" \"2\"
\t\tside
\t\t{
\t\t\t\"plane\" \"(0 0 0) (1 0 0) (1 1 0)\"
\t\t}
\t\tside
\t\t{
\t\t\t\"\" \"\"
\t\t}
\t}
}
cameras
{
}";

#[test]
fn canonical_text_is_exact() {
    assert_eq!(sample().to_string(), SAMPLE_TEXT);
}

#[test]
fn round_trip_gives_the_document_back() {
    let text = sample().to_string();
    let read = parse::<&str, ()>(&text).unwrap();
    assert_eq!(read, sample());
    assert_eq!(read.to_string(), text);
}

#[test]
fn comments_and_whitespace_leave_no_trace() {
    let input = "// head\n\n  world{\"id\"\"1\" // tail\n\t\t\"skyname\"\r\n\"sky_day01_01\"
        solid { \"id\" \"2\" side{ \"plane\" \"(0 0 0) (1 0 0) (1 1 0)\" } //x
        side{\"\"\"\"}}}cameras\n\n{//\n}\n\n// end";
    let read = parse::<&str, ()>(input).unwrap();
    assert_eq!(read, sample());
    let text = read.to_string();
    assert_eq!(text, SAMPLE_TEXT);
    assert_eq!(parse::<&str, ()>(&text).unwrap(), read);
}

#[test]
fn line_feed_in_a_value_is_followed_by_the_padding() {
    let read = parse::<&str, ()>("a{\"k\" \"x\ny\" b{\"k\" \"x\ny\"}}").unwrap();
    let text = read.to_string();
    assert_eq!(text, "a\n{\n\t\"k\" \"x\n\ty\"\n\tb\n\t{\n\t\t\"k\" \"x\n\t\ty\"\n\t}\n}");
    let again = parse::<&str, ()>(&text).unwrap();
    assert_eq!(again.inner.blocks[0].props[0].value, "x\n\ty");
    assert_ne!(again, read);
}

#[test]
fn block_that_ends_with_the_input_is_accepted() {
    let read = parse::<&str, ()>("a{\"k\" \"v\" b{\"l\" \"w\" ").unwrap();
    let expected = Vmf::new(vec![Block::new(
        "a",
        vec![Property::new("k", "v")],
        vec![Block::new("b", vec![Property::new("l", "w")], vec![])],
    )]);
    assert_eq!(read, expected);
}

#[test]
fn canonical_text_without_its_last_brace_is_read_alike() {
    let whole = Block::new(
        "a",
        vec![Property::new("k", "v")],
        vec![Block::new("b", vec![], vec![])],
    );
    let text = whole.to_string();
    let cut = &text[..text.len() - 1];
    assert_eq!(block::<&str, ()>(cut), Ok(("", whole)));
}

#[test]
fn document_that_ends_before_its_last_brace_is_read_alike() {
    let text = sample().to_string();
    assert!(text.ends_with("cameras\n{\n}"));
    let cut = &text[..text.len() - 1];
    assert_eq!(parse::<&str, ()>(cut), Ok(sample()));
    assert_eq!(parse::<String, ()>(cut).unwrap().to_string(), text);
}

#[test]
fn block_without_anything_after_the_opening_brace_is_accepted() {
    assert_eq!(block::<&str, ()>("a{"), Ok(("", Block::new("a", vec![], vec![]))));
}

#[test]
fn duplicate_keys_are_kept_in_order() {
    let read = parse::<&str, ()>("a{\"k\" \"1\" \"k\" \"2\" \"k\" \"1\"}").unwrap();
    assert_eq!(
        read.inner.blocks[0].props,
        vec![Property::new("k", "1"), Property::new("k", "2"), Property::new("k", "1")]
    );
    assert_eq!(read.to_string(), "a\n{\n\t\"k\" \"1\"\n\t\"k\" \"2\"\n\t\"k\" \"1\"\n}");
}

#[test]
fn duplicate_blocks_are_kept_in_order() {
    let read = parse::<&str, ()>("a{b{\"n\" \"1\"} b{\"n\" \"2\"}} a{}").unwrap();
    assert_eq!(read.inner.blocks.len(), 2);
    assert_eq!(read.inner.blocks[0].blocks[0].props[0].value, "1");
    assert_eq!(read.inner.blocks[0].blocks[1].props[0].value, "2");
}

#[test]
fn new_ids_count_each_class_over_the_whole_document() {
    let input = "world{\"id\" \"9\"} world{} solid{\"id\" \"x\" \"a\" \"b\" side{\"id\" \"42\"} side{}} \
                 solid{} entity{\"id\" \"7\" \"id\" \"8\"} entity{entity{}}";
    let read = parse::<&str, ()>(input).unwrap();
    let expected = "world
{
\t\"id\" \"1\"
}
world
{
\t\"id\" \"2\"
}
solid
{
\t\"id\" \"1\"
\t\"a\" \"b\"
\tside
\t{
\t\t\"id\" \"1\"
\t}
\tside
\t{
\t\t\"id\" \"2\"
\t}
}
solid
{
\t\"id\" \"2\"
}
entity
{
\t\"id\" \"1\"
}
entity
{
\t\"id\" \"2\"
\tentity
\t{
\t\t\"id\" \"3\"
\t}
}";
    assert_eq!(read.to_string_new_ids(), expected);
}

#[test]
fn new_ids_count_on_from_the_state_in_the_order_of_the_text() {
    let read = parse::<&str, ()>("side{} brush{side{} solid{side{}} side{}} side{}").unwrap();
    let mut state = IdState::default();
    let mut out = String::new();
    for _ in 0..3 {
        read.inner.blocks[0].fmt_new_ids(&mut out, &mut state).unwrap();
        out.push('\n');
    }
    read.inner.blocks[1].fmt_new_ids(&mut out, &mut state).unwrap();
    let again = parse::<&str, ()>(&out).unwrap();
    let brush = &again.inner.blocks[3];
    assert_eq!(again.inner.blocks[2].props, vec![Property::new("id", "3")]);
    assert!(brush.props.is_empty());
    assert_eq!(brush.blocks[0].props, vec![Property::new("id", "4")]);
    assert_eq!(brush.blocks[1].props, vec![Property::new("id", "1")]);
    assert_eq!(brush.blocks[1].blocks[0].props, vec![Property::new("id", "5")]);
    assert_eq!(brush.blocks[2].props, vec![Property::new("id", "6")]);
}

#[test]
fn new_ids_start_from_one_in_each_rendering() {
    let read = parse::<&str, ()>("entity{} entity{}").unwrap();
    let first = read.to_string_new_ids();
    let second = read.to_string_new_ids();
    assert_eq!(first, second);
    assert_eq!(first, "entity\n{\n\t\"id\" \"1\"\n}\nentity\n{\n\t\"id\" \"2\"\n}");
}

#[test]
fn new_ids_are_written_in_decimal() {
    let mut text = String::new();
    for _ in 0..120 {
        text.push_str("side{}");
    }
    let read = parse::<&str, ()>(&text).unwrap();
    let rendered = read.to_string_new_ids();
    let again = parse::<&str, ()>(&rendered).unwrap();
    assert_eq!(again.inner.blocks[8].props, vec![Property::new("id", "9")]);
    assert_eq!(again.inner.blocks[9].props, vec![Property::new("id", "10")]);
    assert_eq!(again.inner.blocks[99].props, vec![Property::new("id", "100")]);
    assert_eq!(again.inner.blocks[108].props, vec![Property::new("id", "109")]);
    assert_eq!(again.inner.blocks[119].props, vec![Property::new("id", "120")]);
}

#[test]
fn unrecognized_class_keeps_its_id() {
    let read = parse::<&str, ()>("brush{\"id\" \"77\" \"a\" \"b\"}").unwrap();
    assert_eq!(read.to_string_new_ids(), "brush\n{\n\t\"id\" \"77\"\n\t\"a\" \"b\"\n}");
    assert_eq!(read.to_string_new_ids(), read.to_string());
}

#[test]
fn unrecognized_class_uses_up_no_id() {
    let read = parse::<&str, ()>("brush{\"id\" \"77\" side{\"id\" \"5\"}} side{}").unwrap();
    assert_eq!(
        read.to_string_new_ids(),
        "brush\n{\n\t\"id\" \"77\"\n\tside\n\t{\n\t\t\"id\" \"1\"\n\t}\n}\nside\n{\n\t\"id\" \"2\"\n}"
    );
}

#[test]
fn the_root_is_given_no_id() {
    let read = parse::<&str, ()>("root{root{}}").unwrap();
    assert_eq!(read.to_string_new_ids(), "root\n{\n\troot\n\t{\n\t}\n}");
}

#[test]
fn fmt_new_ids_counts_on_from_the_state() {
    let world: Block<&str> = Block::new("world", vec![Property::new("id", "old")], vec![]);
    let mut state = IdState::default();
    let mut out = String::new();
    world.fmt_new_ids(&mut out, &mut state).unwrap();
    out.push('\n');
    world.fmt_new_ids(&mut out, &mut state).unwrap();
    assert_eq!(out, "world\n{\n\t\"id\" \"1\"\n}\nworld\n{\n\t\"id\" \"2\"\n}");
    let mut fresh = IdState::default();
    let mut other = String::new();
    world.fmt_new_ids(&mut other, &mut fresh).unwrap();
    assert_eq!(other, "world\n{\n\t\"id\" \"1\"\n}");
    assert_ne!(state, fresh);
    world.fmt_new_ids(&mut other, &mut fresh).unwrap();
    assert_eq!(state, fresh);
}

#[test]
fn state_after_a_block_is_what_rendering_leaves() {
    let read = parse::<&str, ()>("solid{side{} side{} brush{side{}}} world{}").unwrap();
    let solid = &read.inner.blocks[0];
    let mut rendered = IdState::default();
    let mut sink = String::new();
    solid.fmt_new_ids(&mut sink, &mut rendered).unwrap();
    assert_eq!(IdState::default().after(solid), Some(rendered.clone()));
    assert_ne!(IdState::default().after(&read.inner.blocks[1]), Some(rendered));
    assert!(read.new_ids_fit());
}

#[test]
fn borrowed_and_owned_text_give_the_same_tree() {
    let input = "a { \"k\" \"v\" b { \"l\" \"w\" } } // c\n c {}";
    let borrowed = parse::<&str, ()>(input).unwrap();
    let owned = parse::<String, ()>(input).unwrap();
    assert!(borrowed.same_as(&owned));
    assert!(owned.same_as(&borrowed));
    assert_eq!(borrowed.to_string(), owned.to_string());
    assert_eq!(borrowed.to_string_new_ids(), owned.to_string_new_ids());
    assert_eq!(borrowed.inner.name, owned.inner.name);
    assert_eq!(borrowed.inner.blocks.len(), owned.inner.blocks.len());
    assert_eq!(borrowed.inner.blocks[0].name, owned.inner.blocks[0].name);
    assert_eq!(borrowed.inner.blocks[0].props[0].key, owned.inner.blocks[0].props[0].key);
    assert_eq!(borrowed.inner.blocks[0].props[0].value, owned.inner.blocks[0].props[0].value);
    assert_eq!(borrowed.inner.blocks[0].blocks[0].name, owned.inner.blocks[0].blocks[0].name);
    assert_eq!(borrowed.inner.blocks[1].name, owned.inner.blocks[1].name);
    let copied = Vmf::new(vec![
        Block::new(
            "a".to_string(),
            vec![Property::new("k".to_string(), "v".to_string())],
            vec![Block::new(
                "b".to_string(),
                vec![Property::new("l".to_string(), "w".to_string())],
                vec![],
            )],
        ),
        Block::new("c".to_string(), vec![], vec![]),
    ]);
    assert_eq!(owned, copied);
}

#[test]
fn pad_adapter_pads_each_line_when_it_begins() {
    let mut out = String::from("> ");
    let mut adapter = PadAdapter::new(&mut out, "\t\t");
    adapter.write_str("a\nb\n\nc\n").unwrap();
    assert!(adapter.on_newline);
    assert_eq!(out, "> a\n\t\tb\n\t\t\n\t\tc\n");
    let mut plain = String::new();
    let mut adapter = PadAdapter::new(&mut plain, "\t");
    adapter.write_str("no line feed").unwrap();
    assert!(!adapter.on_newline);
    assert_eq!(plain, "no line feed");
    let mut empty = String::new();
    let mut adapter = PadAdapter::new(&mut empty, "\t");
    adapter.write_str("").unwrap();
    assert!(!adapter.on_newline);
    assert_eq!(empty, "");
}

#[test]
fn pad_adapter_holds_the_padding_back_after_a_line_feed() {
    let mut out = String::new();
    let mut adapter = PadAdapter::new(&mut out, "\t");
    adapter.write_str("a\n").unwrap();
    assert!(adapter.on_newline);
    adapter.write_str("").unwrap();
    assert!(adapter.on_newline);
    assert_eq!(out, "a\n");
    let mut adapter = PadAdapter::new(&mut out, "\t");
    adapter.on_newline = true;
    adapter.write_str("b").unwrap();
    assert!(!adapter.on_newline);
    adapter.write_str("c\n\n").unwrap();
    adapter.write_str("\nd").unwrap();
    assert_eq!(out, "a\n\tbc\n\t\n\t\n\td");
}

#[test]
fn pad_adapter_for_the_inside_holds_back_what_the_outer_one_does() {
    let mut out = String::new();
    let mut outer = PadAdapter::new(&mut out, "-");
    outer.write_str("a\n").unwrap();
    let at_line_start = {
        let mut inner = outer.inside("-+");
        assert!(inner.on_newline);
        inner.write_str("b\nc\n").unwrap();
        inner.on_newline
    };
    outer.on_newline = at_line_start;
    outer.write_str("d").unwrap();
    assert_eq!(out, "a\n-+b\n-+c\n-d");
}

#[test]
fn property_is_rendered_between_quotes() {
    assert_eq!(Property::new("k", "v").to_string(), "\"k\" \"v\"");
    assert_eq!(Property::new("", "").to_string(), "\"\" \"\"");
    let mut out = String::from("x");
    Property::new("a b", "c").fmt(&mut out).unwrap();
    assert_eq!(out, "x\"a b\" \"c\"");
}

#[test]
fn block_is_rendered_with_tabs() {
    let nested: Block<&str> = Block::new(
        "a",
        vec![],
        vec![Block::new("b", vec![], vec![Block::new("c", vec![Property::new("k", "v")], vec![])])],
    );
    assert_eq!(
        nested.to_string(),
        "a\n{\n\tb\n\t{\n\t\tc\n\t\t{\n\t\t\t\"k\" \"v\"\n\t\t}\n\t}\n}"
    );
    let mut out = String::from("// ");
    nested.blocks[0].blocks[0].fmt(&mut out).unwrap();
    assert_eq!(out, "// c\n{\n\t\"k\" \"v\"\n}");
}

#[test]
fn document_without_blocks_is_rendered_as_nothing() {
    let empty: Vmf<&str> = Vmf::new(vec![]);
    assert_eq!(empty.to_string(), "");
    assert_eq!(empty.to_string_new_ids(), "");
}

#[test]
fn fmt_writes_either_form() {
    let read = parse::<&str, ()>("side{\"id\" \"5\"}").unwrap();
    let mut plain = String::from("[");
    read.fmt(&mut plain, false).unwrap();
    assert_eq!(plain, "[side\n{\n\t\"id\" \"5\"\n}");
    let mut renumbered = String::from("[");
    read.fmt(&mut renumbered, true).unwrap();
    assert_eq!(renumbered, "[side\n{\n\t\"id\" \"1\"\n}");
}
