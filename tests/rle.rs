use rusty_life::grid::GridCoord;
use rusty_life::rle::{
    decode_lines, load_rle, parse_data, parse_header, parse_line, parse_trimmed, rle_cells, Inject,
    RLELine, RLEToken, RleError,
};
use std::collections::HashMap;

struct TestData {
    pub injects: usize,
    pub coords: HashMap<GridCoord, bool>,
}

impl TestData {
    pub fn new() -> Self {
        TestData {
            injects: 0,
            coords: HashMap::new(),
        }
    }
}

impl Inject for TestData {
    fn inject(&mut self, coord: GridCoord, alive: bool) -> Result<(), RleError> {
        self.injects += 1;
        if alive {
            self.coords.insert(coord, alive);
        }

        Ok(())
    }
}

fn lines(text: &[&str]) -> Vec<String> {
    text.iter().map(|l| l.to_string()).collect()
}

#[test]
fn load_single() -> Result<(), RleError> {
    let mut data = TestData::new();
    load_rle(&lines(&["x = 1, y = 1", "o!"]), &mut data, true)?;

    let hm = data.coords;

    assert_eq!(data.injects, 1);
    assert_eq!(hm.len(), 1);
    assert_eq!(
        *hm.get(&GridCoord::Valid(0, 0)).expect("Missing cell"),
        true
    );

    Ok(())
}

#[test]
fn glider_with_blanks() {
    let cells = rle_cells(&lines(&["x = 3, y = 3", "bob$2bo$3o!"]), false).unwrap();
    let v = |x, y, a| (GridCoord::Valid(x, y), a);
    assert_eq!(
        cells,
        vec![
            v(-1, -1, false),
            v(0, -1, true),
            v(1, -1, false),
            v(-1, 0, false),
            v(0, 0, false),
            v(1, 0, true),
            v(-1, 1, true),
            v(0, 1, true),
            v(1, 1, true),
        ]
    );
}

#[test]
fn glider_skipping_blanks() {
    let text = lines(&[
        "#N Glider",
        "  #C a comment ",
        " x = 3, y = 3, rule = B3/S23 ",
        "bo$2bo$3o!",
    ]);
    let cells = rle_cells(&text, true).unwrap();
    let v = |x, y| (GridCoord::Valid(x, y), true);
    assert_eq!(cells, vec![v(0, -1), v(1, 0), v(-1, 1), v(0, 1), v(1, 1)]);
}

#[test]
fn blank_rows_and_short_lines_are_filled() {
    // a run of `$` yields whole dead rows; a short row is padded to the width
    let cells = rle_cells(&lines(&["x = 2, y = 3", "o2$o!"]), false).unwrap();
    let v = |x, y, a| (GridCoord::Valid(x, y), a);
    assert_eq!(
        cells,
        vec![
            v(-1, -1, true),
            v(0, -1, false),
            v(-1, 0, false),
            v(0, 0, false),
            v(-1, 1, true),
            v(0, 1, false),
        ]
    );
}

#[test]
fn loader_errors() {
    let err = |t: &[&str]| rle_cells(&lines(t), true).unwrap_err();
    assert_eq!(err(&[]), RleError::UnexpectedEof);
    assert_eq!(err(&["#only a comment"]), RleError::UnexpectedEof);
    assert_eq!(err(&["o!"]), RleError::MissingHeader);
    assert_eq!(err(&["x = 1, y = 1", "#late"]), RleError::CommentInData);
    assert_eq!(err(&["x = 1, y = 1", "x = 1, y = 1"]), RleError::HeaderInData);
    assert_eq!(err(&["x = 2, y = 3", "oo!"]), RleError::TooFewLines);
    assert_eq!(err(&["x = 1, y = 1", "o q!"]), RleError::MalformedData(' '));
    assert_eq!(err(&["x = 1, y = 1", "99999999999o!"]), RleError::InvalidRunLength);
    assert_eq!(err(&["x=1;y=1", "o!"]), RleError::InvalidHeader);
    assert_eq!(err(&["x = 9223372036854775808, y = 1", "o!"]), RleError::TooLarge);
    assert_eq!(
        err(&["x = 99999999999999999999999, y = 1", "o!"]),
        RleError::InvalidHeader
    );
    // the first bad line decides, even before the header is checked
    assert_eq!(err(&["o!", "x = 1, y = 1", "z"]), RleError::MalformedData('z'));
}

#[test]
fn nothing_is_injected_on_error() {
    let mut data = TestData::new();
    let r = load_rle(&lines(&["x = 1, y = 2", "o!"]), &mut data, false);
    assert_eq!(r, Err(RleError::TooFewLines));
    assert_eq!(data.injects, 0);
}

struct Refuser {
    calls: usize,
}

impl Inject for Refuser {
    fn inject(&mut self, _coord: GridCoord, _alive: bool) -> Result<(), RleError> {
        self.calls += 1;
        Err(RleError::TooLarge)
    }
}

#[test]
fn a_refusing_receiver_stops_the_load() {
    let mut sink = Refuser { calls: 0 };
    let r = load_rle(&lines(&["x = 3, y = 1", "3o!"]), &mut sink, true);
    assert_eq!(r, Err(RleError::TooLarge));
    assert_eq!(sink.calls, 1);
}

#[test]
fn header_forms() {
    assert!(matches!(parse_header("x = 10, y = 20"), Ok(RLELine::Header(10, 20))));
    assert!(matches!(parse_header("x=3,y=4, rule = B3/S23"), Ok(RLELine::Header(3, 4))));
    assert!(matches!(parse_header("x = 10 y = 20"), Err(RleError::InvalidHeader)));
    assert!(matches!(parse_header("x = , y = 2"), Err(RleError::InvalidHeader)));
    assert!(matches!(parse_header("x = 1, y = 2\nmore"), Err(RleError::InvalidHeader)));
}

#[test]
fn data_tokens() {
    match parse_data("3o2b$12$!o") {
        Ok(RLELine::Data(tokens)) => assert_eq!(
            tokens,
            vec![
                RLEToken::Alive(3),
                RLEToken::Dead(2),
                RLEToken::EOL(1),
                RLEToken::EOL(12),
                RLEToken::EOF,
                RLEToken::Alive(1),
            ]
        ),
        other => panic!("unexpected {:?}", other),
    }
    // a count before `!` carries over to the next run
    match parse_data("4!o") {
        Ok(RLELine::Data(tokens)) => assert_eq!(tokens, vec![RLEToken::EOF, RLEToken::Alive(4)]),
        other => panic!("unexpected {:?}", other),
    }
    assert!(matches!(parse_data("4294967295o"), Ok(RLELine::Data(_))));
    assert!(matches!(parse_data("4294967296o"), Err(RleError::InvalidRunLength)));
}

#[test]
fn lines_are_trimmed() {
    assert!(matches!(parse_line("  x = 1, y = 2  "), Ok(RLELine::Header(1, 2))));
    assert!(matches!(parse_line("\t#comment"), Ok(RLELine::Comment)));
    assert!(matches!(parse_line("  o! \r"), Ok(RLELine::Data(_))));
    assert!(matches!(parse_trimmed("  o!"), Err(RleError::MalformedData(' '))));
    assert!(matches!(parse_line(""), Ok(RLELine::Data(ref t)) if t.is_empty()));
}

#[test]
fn decoding_parsed_lines() {
    let parsed = vec![
        RLELine::Comment,
        RLELine::Header(1, 1),
        RLELine::Data(vec![RLEToken::EOL(0), RLEToken::Alive(2), RLEToken::EOF]),
    ];
    let cells = decode_lines(&parsed, true).unwrap();
    assert_eq!(
        cells,
        vec![(GridCoord::Valid(0, 1), true), (GridCoord::Valid(1, 1), true)]
    );
}

#[test]
fn load_enormous() -> Result<(), RleError> {
    let mut text = vec!["#N a large striped pattern".to_string(), "x = 1000, y = 1000".to_string()];
    for row in 0..1000 {
        let end = if row == 999 { "!" } else { "$" };
        text.push(format!("500o500b{}", end));
    }
    let mut data = TestData::new();
    load_rle(&text, &mut data, true)?;
    assert_eq!(data.injects, 500_000);
    assert_eq!(data.coords.len(), 500_000);
    assert!(data.coords.contains_key(&GridCoord::Valid(-500, -500)));
    assert!(data.coords.contains_key(&GridCoord::Valid(-1, 499)));
    assert!(!data.coords.contains_key(&GridCoord::Valid(0, 0)));
    Ok(())
}

#[test]
fn data_must_end_with_bang() {
    let mut data = TestData::new();
    let r = load_rle(&lines(&["x = 2, y = 1", "2o"]), &mut data, true);
    assert_eq!(r, Err(RleError::PrematureEnd));
    assert_eq!(data.injects, 0);
    assert_eq!(
        rle_cells(&lines(&["x = 1, y = 1"]), false).unwrap_err(),
        RleError::PrematureEnd
    );
}

#[test]
fn decoding_stops_at_the_first_bang() {
    let text = lines(&["x = 1, y = 1", "o!3o", "#trailing notes", "x = 9, y = 9", "zzz!"]);
    let cells = rle_cells(&text, true);
    // the bad line after the end still fails to parse, as every line is parsed first
    assert_eq!(cells, Err(RleError::MalformedData('z')));
    let text = lines(&["x = 1, y = 1", "o!3o", "#trailing notes", "x = 9, y = 9", "5b!"]);
    assert_eq!(rle_cells(&text, true).unwrap(), vec![(GridCoord::Valid(0, 0), true)]);
}

#[test]
fn empty_pattern_loads_without_calls() {
    let mut data = TestData::new();
    assert_eq!(load_rle(&lines(&["x = 3, y = 1", "3b!"]), &mut data, true), Ok(()));
    assert_eq!(data.injects, 0);
}

#[test]
fn unicode_whitespace_is_trimmed() {
    assert!(matches!(parse_line("\u{3000}x = 1, y = 1\u{a0}"), Ok(RLELine::Header(1, 1))));
    assert!(matches!(parse_line("\u{2003}o!\u{85}"), Ok(RLELine::Data(_))));
}
