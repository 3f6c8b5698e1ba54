use vmf_parser_nom::ast::{Block, Property};
use vmf_parser_nom::parse;
use vmf_parser_nom::parsers::{block, property};
use vmf_parser_nom::VerboseError;

const INPUT: &str = "ClassName_1
{
\t\"Property_1\" \"Value_1\"
\t\"Property_2\" \"Value_2\"
\tClassName_2
\t{
\t\t\"Property_1\" \"Value_1\"
\t}
\tClassName_3
\t{
\t}
}";
const INPUT_NO_WHITE: &str = "ClassName_1{\"Property_1\"\"Value_1\"\"Property_2\"\"Value_2\"ClassName_2{\"Property_1\"\"Value_1\"}ClassName_3{}}";

#[test]
fn block_test() {
    assert!(block::<&str, VerboseError<_>>("{").is_err());
    assert!(block::<&str, VerboseError<_>>("}").is_err());
    assert!(block::<&str, VerboseError<_>>("").is_err());
    let input = r#"
    // This is a comment.
    //

ClassName_1 {
        "Property_1"

  "Value_1"

        "Property_2""Value_2"""""
        ClassName_2
        {
            "Property_1" "Value_1"
        }
        ClassName_3{}
            //uh accepts missing closing brace thats kinda bad
                    
            //another comment, preceded by tabs
 }     
        
                "#;
    let truth = Block::new(
        "ClassName_1",
        vec![
            Property::new("Property_1", "Value_1"),
            Property::new("Property_2", "Value_2"),
            Property::new("", ""),
        ],
        vec![
            Block::new("ClassName_2", vec![Property::new("Property_1", "Value_1")], vec![]),
            Block::new("ClassName_3", vec![], vec![]),
        ],
    );
    let (i, output) = block::<&str, VerboseError<_>>(input).unwrap();
    println!("{}", output.to_string());
    println!("result input {i:?}");
    assert_eq!(truth, output);
    assert!(i.is_empty());
}

#[test]
fn prop() {
    let input = r#"        "Property_1" "Value_1"
        "Property_2" "Value_2"
        ClassName_2
        {
            "Property_1" "Value_1"
        }
        ClassName_3
        {
        }"#;
    let truth = Property::new("Property_1", "Value_1");
    let (i, output) = property::<&str, VerboseError<_>>(input).unwrap();
    println!("result input {i:?}");
    assert_eq!(truth, output);
    assert!(!i.is_empty());
}

#[test]
fn display() {
    let vmf = parse::<&str, VerboseError<_>>(INPUT).unwrap();
    let output = vmf.to_string();

    let vmf_no_white = parse::<&str, VerboseError<_>>(INPUT_NO_WHITE).unwrap();
    let output_no_white = vmf_no_white.to_string();

    assert_eq!(INPUT, output);
    assert_eq!(INPUT, output_no_white);
    assert_eq!(output, output_no_white);
}

#[test]
fn nested_blocks_are_read_to_any_depth() {
    let depth = 200;
    let mut text = String::new();
    for level in 0..depth {
        text.push_str(&format!("b{level} {{ \"depth\" \"{level}\" "));
    }
    for _ in 0..depth {
        text.push('}');
    }
    let read = parse::<&str, ()>(&text).unwrap();
    let mut block = &read.inner.blocks[0];
    for level in 0..depth {
        assert_eq!(block.name, format!("b{level}"));
        assert_eq!(block.props.len(), 1);
        assert_eq!(block.props[0].value, format!("{level}"));
        if level + 1 < depth {
            assert_eq!(block.blocks.len(), 1);
            block = &block.blocks[0];
        } else {
            assert!(block.blocks.is_empty());
        }
    }
    let rendered = read.to_string();
    assert_eq!(parse::<&str, ()>(&rendered).unwrap(), read);
}

#[test]
fn items_of_a_body_come_in_any_order() {
    let (rest, read) = block::<&str, ()>("a{ b{} \"k\" \"v\" // c\n c{} \"l\" \"w\" }x").unwrap();
    assert_eq!(rest, "x");
    assert_eq!(
        read,
        Block::new(
            "a",
            vec![Property::new("k", "v"), Property::new("l", "w")],
            vec![Block::new("b", vec![], vec![]), Block::new("c", vec![], vec![])],
        )
    );
}

#[test]
fn comments_stand_wherever_whitespace_may() {
    assert!(block::<&str, ()>("//1\n\t//2\r\n a //not here\n{}").is_err());
    let (rest, read) = block::<&str, ()>("//1\n\t//2\r\n a{//3\n\"k\"\"v\"//4\n//5\n}//6").unwrap();
    assert_eq!(rest, "//6");
    assert_eq!(read, Block::new("a", vec![Property::new("k", "v")], vec![]));
}

#[test]
fn closing_brace_takes_the_whitespace_after_it() {
    let (rest, _) = block::<&str, ()>("a{} \r\n\t b{}").unwrap();
    assert_eq!(rest, "b{}");
}

#[test]
fn a_comment_between_key_and_value_is_no_whitespace() {
    assert!(property::<&str, ()>("\"k\" // c\n \"v\"").is_err());
    assert!(block::<&str, ()>("a{ \"k\" // c\n \"v\" }").is_err());
}
