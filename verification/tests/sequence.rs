use instrument_repl::instrument::ParsedResponse;
use instrument_repl::parser::ResponseParser;

#[test]
fn empty_buffer_is_exhausted_at_once() {
    let mut parser = ResponseParser::new(b"");
    assert_eq!(parser.next(), None);
    assert_eq!(parser.next(), None);
    assert_eq!(parser.remaining(), b"");
}

#[test]
fn nul_led_buffer_is_exhausted_and_stays_so() {
    let mut parser = ResponseParser::new(b"\0TSP>TSP?");
    for _ in 0..4 {
        assert_eq!(parser.next(), None);
        assert_eq!(parser.remaining(), b"\0TSP>TSP?");
    }
}

#[test]
fn nul_behind_a_token_ends_the_sequence() {
    let mut parser = ResponseParser::new(b"TSP>\0TSP?");
    assert_eq!(parser.next(), Some(ParsedResponse::Prompt));
    assert_eq!(parser.remaining(), b"\0TSP?");
    assert_eq!(parser.next(), None);
    assert_eq!(parser.next(), None);
    assert_eq!(parser.remaining(), b"\0TSP?");
}

#[test]
fn new_copies_the_bytes() {
    let source = vec![0x54u8, 0x53, 0x50, 0x3e];
    let parser = ResponseParser::new(&source);
    assert_eq!(parser.remaining(), source.as_slice());
}

#[test]
fn from_takes_the_vector_as_the_buffer() {
    let mut parser = ResponseParser::from(b">>>>TSP?".to_vec());
    assert_eq!(parser.remaining(), b">>>>TSP?");
    assert_eq!(parser.next(), Some(ParsedResponse::ProgressIndicator));
    assert_eq!(parser.next(), Some(ParsedResponse::PromptWithError));
    assert_eq!(parser.next(), None);
}

#[test]
fn pull_trims_ascii_whitespace_off_the_remainder() {
    let mut parser = ResponseParser::new(b"TSP> \t\r\n\x0cTSP?");
    assert_eq!(parser.next(), Some(ParsedResponse::Prompt));
    assert_eq!(parser.remaining(), b"TSP?");
}

#[test]
fn pull_does_not_trim_the_initial_buffer() {
    let parser = ResponseParser::new(b"  TSP>");
    assert_eq!(parser.remaining(), b"  TSP>");
}

#[test]
fn each_pull_shortens_the_buffer() {
    let mut parser = ResponseParser::new(b"abc#0123456ERM> x \nTSP>tail");
    let mut left = parser.remaining().len();
    while parser.next().is_some() {
        assert!(parser.remaining().len() < left);
        left = parser.remaining().len();
    }
    assert_eq!(left, 0);
}

#[test]
fn two_prompts_back_to_back() {
    let mut parser = ResponseParser::new(b"TSP>TSP?");
    assert_eq!(
        parser.drain(),
        vec![ParsedResponse::Prompt, ParsedResponse::PromptWithError]
    );
    assert_eq!(parser.next(), None);
}

#[test]
fn newline_between_prompts_is_skipped() {
    let mut parser = ResponseParser::new(b"TSP>\nTSP?");
    assert_eq!(
        parser.drain(),
        vec![ParsedResponse::Prompt, ParsedResponse::PromptWithError]
    );
}

#[test]
fn error_dump_with_one_entry() {
    let mut parser = ResponseParser::new(b"ERM>START\nERM>An Error Message\nERM>DONE");
    assert_eq!(
        parser.drain(),
        vec![
            ParsedResponse::TspErrorStart,
            ParsedResponse::TspError("An Error Message".to_string()),
            ParsedResponse::TspErrorEnd,
        ]
    );
}

#[test]
fn prompt_takes_four_bytes_of_a_longer_run() {
    let mut parser = ResponseParser::new(b">>>>\n>>>>\nTSP>>>>>\n>>>>");
    assert_eq!(
        parser.drain(),
        vec![
            ParsedResponse::ProgressIndicator,
            ParsedResponse::ProgressIndicator,
            ParsedResponse::Prompt,
            ParsedResponse::ProgressIndicator,
            ParsedResponse::ProgressIndicator,
        ]
    );
}

#[test]
fn data_between_prompts() {
    let mut parser = ResponseParser::new(b"TSP>\nSome data\nTSP?");
    assert_eq!(
        parser.drain(),
        vec![
            ParsedResponse::Prompt,
            ParsedResponse::Data(b"Some data\n".to_vec()),
            ParsedResponse::PromptWithError,
        ]
    );
}

#[test]
fn binary_block_before_error_entries() {
    let mut parser = ResponseParser::new(b"#0\x01\x02\xfe\xff binary ERM>An Error Message\nERM>DONE");
    assert_eq!(
        parser.drain(),
        vec![
            ParsedResponse::BinaryData(b"\x01\x02\xfe\xff binary ".to_vec()),
            ParsedResponse::TspError("An Error Message".to_string()),
            ParsedResponse::TspErrorEnd,
        ]
    );
}

#[test]
fn drain_leaves_a_terminal_buffer() {
    let mut parser = ResponseParser::new(b"TSP>\n\0rest");
    assert_eq!(parser.drain(), vec![ParsedResponse::Prompt]);
    assert_eq!(parser.remaining(), b"\0rest");
    assert_eq!(parser.drain(), Vec::<ParsedResponse>::new());
}

#[test]
fn drain_yields_no_more_tokens_than_bytes() {
    let input = b"a#0b#0c#0d#0e>>>>TSP>TSP?ERM>";
    let mut parser = ResponseParser::new(input);
    let tokens = parser.drain();
    assert!(tokens.len() <= input.len());
    assert_eq!(parser.remaining(), b"");
}

#[test]
fn frames_put_together_are_the_buffer() {
    // Delimiter, payload and skipped whitespace of each pull, in pull order.
    let input = b"TSP>\nSome data\nERM> msg \n#0\x00\x01\x02>>>> \tTSP?";
    let mut parser = ResponseParser::new(input);
    let mut rebuilt: Vec<u8> = Vec::new();
    loop {
        let before = parser.remaining().to_vec();
        let Some(token) = parser.next() else {
            break;
        };
        let after = parser.remaining().len();
        let frame = &before[..before.len() - after];
        let (delimiter, payload): (&[u8], Vec<u8>) = match &token {
            ParsedResponse::Data(bytes) => (b"", bytes.clone()),
            ParsedResponse::BinaryData(bytes) => (b"#0", bytes.clone()),
            ParsedResponse::TspError(_) => (b"ERM>", b" msg \n".to_vec()),
            ParsedResponse::Prompt => (b"TSP>", Vec::new()),
            ParsedResponse::PromptWithError => (b"TSP?", Vec::new()),
            ParsedResponse::ProgressIndicator => (b">>>>", Vec::new()),
            ParsedResponse::TspErrorStart => (b"ERM>START", Vec::new()),
            ParsedResponse::TspErrorEnd => (b"ERM>DONE", Vec::new()),
        };
        assert!(frame.starts_with(delimiter));
        assert!(frame[delimiter.len()..].starts_with(&payload));
        assert!(frame[delimiter.len() + payload.len()..]
            .iter()
            .all(|b| b.is_ascii_whitespace()));
        rebuilt.extend_from_slice(frame);
    }
    rebuilt.extend_from_slice(parser.remaining());
    assert_eq!(rebuilt, input.to_vec());
}
