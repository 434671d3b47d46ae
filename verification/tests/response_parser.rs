use instrument_repl::instrument::ParsedResponse;
use instrument_repl::parser::ResponseParser;

#[test]
fn instrument_response_parser_prompt_remainder() {
    let test = b"TSP>TSP?";
    let mut parser = ResponseParser::new(test);

    assert_eq!(parser.next(), Some(ParsedResponse::Prompt));
    assert_eq!(parser.next(), Some(ParsedResponse::PromptWithError));
    assert_eq!(parser.next(), None);
}

#[test]
fn instrument_response_parser_prompt_whitespace() {
    let test = b"TSP>\nTSP?";
    let mut parser = ResponseParser::new(test);

    assert_eq!(parser.next(), Some(ParsedResponse::Prompt));
    assert_eq!(parser.next(), Some(ParsedResponse::PromptWithError));
    assert_eq!(parser.next(), None);
}

#[test]
fn instrument_response_parser_errors() {
    let test = b"ERM>START\nERM>An Error Message\nERM>DONE";
    let mut parser = ResponseParser::new(test);

    assert_eq!(parser.next(), Some(ParsedResponse::TspErrorStart));
    assert_eq!(
        parser.next(),
        Some(ParsedResponse::TspError("An Error Message".to_string()))
    );
    assert_eq!(parser.next(), Some(ParsedResponse::TspErrorEnd));
    assert_eq!(parser.next(), None);
}

#[test]
fn instrument_response_parser_binary_data() {
    let test =
        b"#0`~1!2@3#4$5%6^7&8*9(0)-_=\t+qQwWeE}[]\\|<,.>/?ERM>An Error Message\nERM>DONE";
    let mut parser = ResponseParser::new(test);

    assert_eq!(
        parser.next(),
        Some(ParsedResponse::BinaryData(
            b"`~1!2@3#4$5%6^7&8*9(0)-_=\t+qQwWeE}[]\\|<,.>/?".to_vec()
        ))
    );
    assert_eq!(
        parser.next(),
        Some(ParsedResponse::TspError("An Error Message".to_string()))
    );
    assert_eq!(parser.next(), Some(ParsedResponse::TspErrorEnd));
    assert_eq!(parser.next(), None);
}

#[test]
fn instrument_response_parser_progress_indicator() {
    let test = b">>>>\n>>>>\nTSP>>>>>\n>>>>";
    let mut parser = ResponseParser::new(test);

    assert_eq!(parser.next(), Some(ParsedResponse::ProgressIndicator));
    assert_eq!(parser.next(), Some(ParsedResponse::ProgressIndicator));
    assert_eq!(parser.next(), Some(ParsedResponse::Prompt));
    assert_eq!(parser.next(), Some(ParsedResponse::ProgressIndicator));
    assert_eq!(parser.next(), Some(ParsedResponse::ProgressIndicator));
    assert_eq!(parser.next(), None);
}

#[test]
fn instrument_response_parser_data() {
    let test = b"TSP>\nSome data from the instrument\nMaybe across multiple lines\nTSP?";
    let mut parser = ResponseParser::new(test);

    assert_eq!(parser.next(), Some(ParsedResponse::Prompt));
    assert_eq!(
        parser.next(),
        Some(ParsedResponse::Data(
            b"Some data from the instrument\nMaybe across multiple lines\n".to_vec()
        ))
    );
    assert_eq!(parser.next(), Some(ParsedResponse::PromptWithError));
    assert_eq!(parser.next(), None);
}

#[test]
fn instrument_response_parser_tuple_types() {
    let test = b"TSP>\nSome data from the instrument\nMaybe across multiple lines \nTSP?ERM> Some Error Message!!!! #0`~!@#$%^&*()-_=+[]}\\|;:'\",<.>/?";
    let mut parser = ResponseParser::new(test);

    assert_eq!(parser.next(), Some(ParsedResponse::Prompt));
    assert_eq!(
        parser.next(),
        Some(ParsedResponse::Data(
            b"Some data from the instrument\nMaybe across multiple lines \n".to_vec()
        ))
    );
    assert_eq!(parser.next(), Some(ParsedResponse::PromptWithError));
    assert_eq!(
        parser.next(),
        Some(ParsedResponse::TspError(
            "Some Error Message!!!!".to_string()
        ))
    );
    assert_eq!(
        parser.next(),
        Some(ParsedResponse::BinaryData(
            b"`~!@#$%^&*()-_=+[]}\\|;:'\",<.>/?".to_vec()
        ))
    );
    assert_eq!(parser.next(), None);
}
