use vmf_parser_nom::parse;

const INPUT_ID: &str = r#"world {}
world{ "id" "O_O two worlds incredibly rare/dumb but supported" }
solid { 
    "id" "not a number"
    side { "id" "42" }
    side { "id" "420" }
    side { "id" "69" }
}
solid { "id" "infinity" }
entity {}
entity { entity {} }
"#;

#[test]
fn alternate() {
    let truth_str = r#"world { "id" "1" }
world{ "id" "2" }
solid { 
    "id" "1"
    side { "id" "1" }
    side { "id" "2" }
    side { "id" "3" }
}
solid { "id" "2" }
entity { "id" "1" }
entity { "id" "2" entity { "id" "3" } }
"#;
    let truth = parse::<&str, ()>(truth_str).unwrap();
    let input = parse::<&str, ()>(INPUT_ID).unwrap();
    let output_str = input.to_string_new_ids();
    let output = parse::<&str, ()>(&output_str).unwrap();

    println!("{output_str}");
    assert_eq!(truth, output);
}
