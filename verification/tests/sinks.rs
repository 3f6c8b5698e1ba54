use std::fmt;

use vmf_parser_nom::display::{PadAdapter, TextSink};
use vmf_parser_nom::new_ids::IdState;
use vmf_parser_nom::parse;

/// A sink that takes a number of writes, and fails from then on.
struct Limited {
    text: String,
    left: usize,
}

impl TextSink for Limited {
    fn write_str(&mut self, s: &str) -> fmt::Result {
        if self.left == 0 {
            return Err(fmt::Error);
        }
        self.left -= 1;
        self.text.push_str(s);
        Ok(())
    }
}

const INPUT: &str = "world{\"k\" \"a\nb\" solid{side{} side{}}} entity{}";

#[test]
fn a_sink_that_takes_all_gets_the_whole_text() {
    let read = parse::<&str, ()>(INPUT).unwrap();
    let mut sink = Limited { text: String::from("> "), left: usize::MAX };
    assert_eq!(read.fmt(&mut sink, false), Ok(()));
    assert_eq!(sink.text, format!("> {}", read.to_string()));
    let mut sink = Limited { text: String::new(), left: usize::MAX };
    assert_eq!(read.fmt(&mut sink, true), Ok(()));
    assert_eq!(sink.text, read.to_string_new_ids());
    let mut sink = Limited { text: String::new(), left: usize::MAX };
    assert_eq!(read.blocks[0].fmt(&mut sink), Ok(()));
    assert_eq!(sink.text, read.blocks[0].to_string());
    let mut sink = Limited { text: String::new(), left: usize::MAX };
    assert_eq!(read.blocks[0].props[0].fmt(&mut sink), Ok(()));
    assert_eq!(sink.text, "\"k\" \"a\nb\"");
}

#[test]
fn a_sink_that_fails_ends_the_rendering_there() {
    let read = parse::<&str, ()>(INPUT).unwrap();
    let whole = read.to_string();
    let first_with_new_ids = {
        let mut text = String::new();
        read.blocks[0].fmt_new_ids(&mut text, &mut IdState::default()).unwrap();
        text
    };
    let mut complete = 0;
    for writes in 0..200 {
        let mut sink = Limited { text: String::new(), left: writes };
        let result = read.fmt(&mut sink, false);
        assert!(whole.starts_with(&sink.text));
        if result.is_ok() {
            assert_eq!(sink.text, whole);
            complete += 1;
        } else {
            assert_eq!(sink.left, 0);
            assert_ne!(sink.text, whole);
        }
        let mut sink = Limited { text: String::new(), left: writes };
        let result = read.blocks[0].fmt_new_ids(&mut sink, &mut IdState::default());
        assert!(first_with_new_ids.starts_with(&sink.text));
        if result.is_ok() {
            assert_eq!(sink.text, first_with_new_ids);
        } else {
            assert_eq!(sink.left, 0);
            assert_ne!(sink.text, first_with_new_ids);
        }
    }
    assert!(complete > 0 && complete < 200);
}

#[test]
fn pad_adapter_ends_where_the_sink_fails() {
    let mut sink = Limited { text: String::new(), left: 2 };
    let mut adapter = PadAdapter::new(&mut sink, "\t");
    assert_eq!(adapter.write_str("a\nb\nc"), Err(fmt::Error));
    assert_eq!(sink.text, "a\n");
}

#[test]
fn nothing_is_written_where_there_is_nothing_to_write() {
    let mut sink = Limited { text: String::new(), left: 0 };
    let mut adapter = PadAdapter::new(&mut sink, "\t");
    assert_eq!(adapter.write_str(""), Ok(()));
    let mut sink = Limited { text: String::new(), left: 2 };
    let mut adapter = PadAdapter::new(&mut sink, "");
    adapter.on_newline = true;
    assert_eq!(adapter.write_str("a\n"), Ok(()));
    assert_eq!(sink.text, "a\n");
}

#[test]
fn pad_adapter_pads_what_is_written_through_it() {
    let mut out = String::from("x");
    let mut adapter = PadAdapter::new(&mut out, "--");
    adapter.write_str("a\nb").unwrap();
    adapter.write_str("\nc\n").unwrap();
    adapter.write_str("").unwrap();
    assert!(adapter.on_newline);
    adapter.write_str("d").unwrap();
    assert_eq!(out, "xa\n--b\n--c\n--d");
    let mut sink = Limited { text: String::new(), left: 1 };
    let mut adapter = PadAdapter::new(&mut sink, "\t");
    assert_eq!(adapter.write_str("a\nb"), Err(fmt::Error));
    assert_eq!(sink.text, "a");
}

#[test]
fn ids_given_before_the_sink_fails_stay_given() {
    let read = parse::<&str, ()>("solid{side{} brush{side{}} side{}}").unwrap();
    let solid = &read.inner.blocks[0];
    let whole = IdState::default().after(solid).unwrap();
    let mut seen = vec![IdState::default()];
    for writes in 0..60 {
        let mut sink = Limited { text: String::new(), left: writes };
        let mut state = IdState::default();
        let result = solid.fmt_new_ids(&mut sink, &mut state);
        if result.is_ok() {
            assert_eq!(state, whole);
        }
        if !seen.contains(&state) {
            seen.push(state);
        }
    }
    assert_eq!(seen.last(), Some(&whole));
    assert_eq!(seen.len(), 5);
    let brush = parse::<&str, ()>("brush{\"id\" \"7\" cordon{}}").unwrap();
    for writes in 0..20 {
        let mut sink = Limited { text: String::new(), left: writes };
        let mut state = whole.clone();
        let _ = brush.inner.blocks[0].fmt_new_ids(&mut sink, &mut state);
        assert_eq!(state, whole);
    }
}
