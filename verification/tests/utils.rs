use perg::utils::read_lines;
use std::io::BufRead;

fn lines(expected: Vec<Option<&str>>) -> Vec<Option<String>> {
    expected
        .into_iter()
        .map(|line| line.map(|text| text.to_owned()))
        .collect()
}

#[test]
fn read_lines_of_nothing() {
    assert_eq!(read_lines(b""), lines(vec![]));
}

#[test]
fn read_lines_without_a_line_end() {
    assert_eq!(read_lines(b"one"), lines(vec![Some("one")]));
}

#[test]
fn read_lines_strips_the_line_end() {
    assert_eq!(read_lines(b"one\n"), lines(vec![Some("one")]));
    assert_eq!(
        read_lines(b"one\ntwo\nthree"),
        lines(vec![Some("one"), Some("two"), Some("three")])
    );
}

#[test]
fn read_lines_keeps_empty_lines() {
    assert_eq!(read_lines(b"\n"), lines(vec![Some("")]));
    assert_eq!(
        read_lines(b"one\n\ntwo\n\n"),
        lines(vec![Some("one"), Some(""), Some("two"), Some("")])
    );
}

#[test]
fn read_lines_strips_a_return_before_the_line_end() {
    assert_eq!(
        read_lines(b"one\r\ntwo\r\n"),
        lines(vec![Some("one"), Some("two")])
    );
    assert_eq!(read_lines(b"\r\n"), lines(vec![Some("")]));
    assert_eq!(read_lines(b"one\r\r\n"), lines(vec![Some("one\r")]));
}

#[test]
fn read_lines_keeps_a_return_elsewhere() {
    assert_eq!(read_lines(b"one\r"), lines(vec![Some("one\r")]));
    assert_eq!(read_lines(b"o\rne\n"), lines(vec![Some("o\rne")]));
}

#[test]
fn read_lines_decodes_text() {
    assert_eq!(
        read_lines("caf\u{e9} \u{2192}\n\u{1f600}".as_bytes()),
        lines(vec![Some("caf\u{e9} \u{2192}"), Some("\u{1f600}")])
    );
}

#[test]
fn read_lines_keeps_the_place_of_a_line_that_is_no_text() {
    assert_eq!(
        read_lines(b"one\n\xff\xfe\nthree\n"),
        lines(vec![Some("one"), None, Some("three")])
    );
    assert_eq!(read_lines(b"\xc3"), lines(vec![None]));
    assert_eq!(read_lines(b"\xc3\n\xa9"), lines(vec![None, None]));
}

#[test]
fn read_lines_agrees_with_the_lines_of_a_reader() {
    let inputs: [&[u8]; 8] = [
        b"",
        b"\n",
        b"a",
        b"a\n",
        b"a\r\nb\r",
        b"\r\n\r\n",
        b"a\n\nb\n\n\n",
        b"Lorem ipsum\ndolor sit amet\n",
    ];
    for input in inputs {
        let expected: Vec<Option<String>> = input.lines().map(|line| line.ok()).collect();
        assert_eq!(read_lines(input), expected);
    }
}
