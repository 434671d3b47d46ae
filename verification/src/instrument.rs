//! The token classifier: what the next token of a response buffer is, and
//! what is left of the buffer behind it.

use crate::markers::{
    find_first_of, first_occurrence, is_first_occurrence, leading_marker,
    lemma_first_occurrence, needles_of, occurs_at, occurs_nowhere, protocol_markers, Marker,
};
use crate::text::{
    debug_list, debug_text, lemma_text_keeps_ascii, text_of, text_view, trim, trim_of, trim_start,
    trim_start_of,
};
use vstd::prelude::*;
use vstd::slice::{slice_subrange, slice_to_vec};
use vstd::string::StringExecFns;

verus! {

/// One classified unit of the instrument's response stream.
#[derive(Debug, Clone, PartialEq, Eq)]
pub enum ParsedResponse {
    /// The instrument is ready and no error is pending.
    Prompt,
    /// The instrument is ready and errors wait in its error queue.
    PromptWithError,
    /// An error dump begins.
    TspErrorStart,
    /// One entry of an error dump: its message, without surrounding
    /// whitespace.
    TspError(String),
    /// An error dump ends.
    TspErrorEnd,
    /// Free-form output, as raw bytes.
    Data(Vec<u8>),
    /// An embedded binary block, as raw bytes.
    BinaryData(Vec<u8>),
    /// The instrument reports that a long operation is in progress.
    ProgressIndicator,
}

/// The mathematical value of a `ParsedResponse`.
pub enum Token {
    Prompt,
    PromptWithError,
    TspErrorStart,
    TspError(Seq<char>),
    TspErrorEnd,
    Data(Seq<u8>),
    BinaryData(Seq<u8>),
    ProgressIndicator,
}

impl View for ParsedResponse {
    type V = Token;

    open spec fn view(&self) -> Token {
        match self {
            ParsedResponse::Prompt => Token::Prompt,
            ParsedResponse::PromptWithError => Token::PromptWithError,
            ParsedResponse::TspErrorStart => Token::TspErrorStart,
            ParsedResponse::TspError(message) => Token::TspError(message@),
            ParsedResponse::TspErrorEnd => Token::TspErrorEnd,
            ParsedResponse::Data(bytes) => Token::Data(bytes@),
            ParsedResponse::BinaryData(bytes) => Token::BinaryData(bytes@),
            ParsedResponse::ProgressIndicator => Token::ProgressIndicator,
        }
    }
}

/// The line of text that describes `token` to a reader.
pub open spec fn description_of(token: Token) -> Seq<char> {
    match token {
        Token::Prompt => "prompt"@,
        Token::PromptWithError => "prompt with error"@,
        Token::TspErrorStart => "start of error dump"@,
        Token::TspError(message) => "error item: \""@ + message + "\""@,
        Token::TspErrorEnd => "end of error dump"@,
        Token::Data(bytes) => "textual data: \""@ + debug_list(bytes) + "\""@,
        Token::BinaryData(bytes) => "binary data: \""@ + debug_list(bytes) + "\""@,
        Token::ProgressIndicator => "progress indicator"@,
    }
}

/// A buffer from which nothing more is parsed: it is empty or begins with a
/// NUL byte.
pub open spec fn is_terminal(input: Seq<u8>) -> bool {
    input.len() == 0 || input[0] == 0
}

/// What stands behind the first `n` bytes of `input`; empty where `input`
/// has no more than `n` bytes.
pub open spec fn after(input: Seq<u8>, n: int) -> Seq<u8> {
    if 0 <= n < input.len() {
        input.skip(n)
    } else {
        Seq::empty()
    }
}

/// The offset of the earliest protocol marker in `bytes`.
pub open spec fn next_marker(bytes: Seq<u8>) -> Option<int> {
    first_occurrence(bytes, protocol_markers())
}

/// `bytes` divided at its earliest marker: what stands before the marker,
/// and the rest from the marker on. Without a marker all of `bytes` stands
/// before and nothing is left.
pub open spec fn cut_at_marker(bytes: Seq<u8>) -> (Seq<u8>, Seq<u8>) {
    match next_marker(bytes) {
        Some(p) => (bytes.take(p), bytes.skip(p)),
        None => (bytes, Seq::empty()),
    }
}

/// Payload and remainder of `input` for a token that `lead` introduces;
/// `None` stands for free-form data.
///
/// Offsets count from the start of `input` itself, by the marker's width,
/// also where the text view found the marker only behind whitespace.
pub open spec fn split_of(lead: Option<Marker>, input: Seq<u8>) -> (Seq<u8>, Seq<u8>) {
    match lead {
        None => cut_at_marker(input),
        Some(Marker::ErrorItem) => cut_at_marker(after(input, 4)),
        Some(Marker::Binary) => if input.len() > 4 {
            cut_at_marker(after(input, 2))
        } else {
            (Seq::empty(), Seq::empty())
        },
        Some(marker) => (Seq::empty(), after(input, marker.width())),
    }
}

/// The token that `lead` introduces, given its payload bytes.
pub open spec fn token_of(lead: Option<Marker>, payload: Seq<u8>) -> Token {
    match lead {
        None => Token::Data(payload),
        Some(Marker::Prompt) => Token::Prompt,
        Some(Marker::PromptWithError) => Token::PromptWithError,
        Some(Marker::ErrorStart) => Token::TspErrorStart,
        Some(Marker::ErrorEnd) => Token::TspErrorEnd,
        Some(Marker::ErrorItem) => Token::TspError(trim_of(text_of(payload))),
        Some(Marker::Progress) => Token::ProgressIndicator,
        Some(Marker::Binary) => Token::BinaryData(payload),
    }
}

/// The marker that introduces the next token of `input`: the one with which
/// the text view of `input`, without its leading whitespace, begins.
pub open spec fn lead_of(input: Seq<u8>) -> Option<Marker> {
    leading_marker(trim_start_of(text_of(input)))
}

/// Token and remainder of `input` once its lead is known.
pub open spec fn parse_as(lead: Option<Marker>, input: Seq<u8>) -> (Token, Seq<u8>) {
    (token_of(lead, split_of(lead, input).0), split_of(lead, input).1)
}

/// The next token of `input` and the bytes left behind it; `None` where
/// `input` is terminal.
pub open spec fn parse_of(input: Seq<u8>) -> Option<(Token, Seq<u8>)> {
    if is_terminal(input) {
        None
    } else {
        Some(parse_as(lead_of(input), input))
    }
}

/// The mathematical value of what a classification step returns.
pub open spec fn outcome(parsed: Option<(ParsedResponse, Vec<u8>)>) -> Option<(Token, Seq<u8>)> {
    match parsed {
        Some((token, rest)) => Some((token@, rest@)),
        None => None,
    }
}

/// Whether `token` belongs to an error dump.
pub open spec fn is_error_token(token: Token) -> bool {
    token is TspErrorStart || token is TspError || token is TspErrorEnd
}

/// The lead that the first bytes of `input` settle by themselves, whatever
/// follows them: a marker at the very start of `input`. The bare `ERM>` is
/// settled where the byte behind it is ASCII and begins neither `START` nor
/// `DONE`.
pub open spec fn settled_lead(input: Seq<u8>) -> Option<Marker> {
    if Marker::Prompt.bytes().is_prefix_of(input) {
        Some(Marker::Prompt)
    } else if Marker::PromptWithError.bytes().is_prefix_of(input) {
        Some(Marker::PromptWithError)
    } else if Marker::ErrorStart.bytes().is_prefix_of(input) {
        Some(Marker::ErrorStart)
    } else if Marker::ErrorEnd.bytes().is_prefix_of(input) {
        Some(Marker::ErrorEnd)
    } else if Marker::ErrorItem.bytes().is_prefix_of(input) && input.len() > 4 && input[4] < 0x80
        && input[4] != 0x53 && input[4] != 0x44 {
        Some(Marker::ErrorItem)
    } else if Marker::Progress.bytes().is_prefix_of(input) {
        Some(Marker::Progress)
    } else if Marker::Binary.bytes().is_prefix_of(input) {
        Some(Marker::Binary)
    } else {
        None
    }
}

/// A buffer that begins with a marker's bytes has that marker at the head of
/// its text view, and no whitespace before it. Its lead is then a marker,
/// and the one that the first bytes settle, where they settle one.
pub proof fn lemma_marker_led(input: Seq<u8>, marker: Marker)
    requires
        marker.bytes().is_prefix_of(input),
    ensures
        marker.text().is_prefix_of(text_of(input)),
        trim_start_of(text_of(input)) == text_of(input),
        lead_of(input) is Some,
        settled_lead(input) is Some ==> lead_of(input) == settled_lead(input),
        marker == Marker::ErrorItem ==> {
            ||| lead_of(input) == Some(Marker::ErrorStart)
            ||| lead_of(input) == Some(Marker::ErrorEnd)
            ||| lead_of(input) == Some(Marker::ErrorItem)
        },
{
    marker.lemma_bytes();
    lemma_text_keeps_ascii(input, marker.width());
    match settled_lead(input) {
        Some(Marker::ErrorItem) => {
            lemma_text_keeps_ascii(input, 5);
        },
        Some(settled) => {
            settled.lemma_bytes();
            lemma_text_keeps_ascii(input, settled.width());
        },
        None => {},
    }
    // The markers part at their first character, `TSP>` and `TSP?` at their
    // fourth, `ERM>START` and `ERM>DONE` at their fifth; so do their bytes.
    assert(Marker::Prompt.text()[0] == 'T' && Marker::Prompt.text()[3] == '>');
    assert(Marker::PromptWithError.text()[0] == 'T' && Marker::PromptWithError.text()[3] == '?');
    assert(Marker::ErrorStart.text()[0] == 'E' && Marker::ErrorStart.text()[4] == 'S');
    assert(Marker::ErrorEnd.text()[0] == 'E' && Marker::ErrorEnd.text()[4] == 'D');
    assert(Marker::ErrorItem.text()[0] == 'E');
    assert(Marker::Progress.text()[0] == '>');
    assert(Marker::Binary.text()[0] == '#');
    assert(Marker::Prompt.bytes()[0] == 0x54 && Marker::Prompt.bytes()[3] == 0x3e);
    assert(Marker::PromptWithError.bytes()[0] == 0x54 && Marker::PromptWithError.bytes()[3]
        == 0x3f);
    assert(Marker::ErrorStart.bytes()[0] == 0x45 && Marker::ErrorStart.bytes()[4] == 0x53);
    assert(Marker::ErrorEnd.bytes()[0] == 0x45 && Marker::ErrorEnd.bytes()[4] == 0x44);
    assert(Marker::ErrorItem.bytes()[0] == 0x45);
    assert(Marker::Progress.bytes()[0] == 0x3e);
    assert(Marker::Binary.bytes()[0] == 0x23);
}

/// A marker at the very start of a buffer decides the token, whatever
/// follows it. In particular a buffer that begins with `ERM>START` or
/// `ERM>DONE` opens or closes an error dump and is never taken for an
/// error entry.
pub proof fn lemma_settled_lead(input: Seq<u8>)
    ensures
        settled_lead(input) matches Some(marker) ==> parse_of(input) == Some(
            parse_as(Some(marker), input),
        ),
        Marker::ErrorStart.bytes().is_prefix_of(input) ==> parse_of(input) == Some(
            (Token::TspErrorStart, after(input, 9)),
        ),
        Marker::ErrorEnd.bytes().is_prefix_of(input) ==> parse_of(input) == Some(
            (Token::TspErrorEnd, after(input, 8)),
        ),
        Marker::ErrorItem.bytes().is_prefix_of(input) ==> (parse_of(input) matches Some(found)
            && is_error_token(found.0)),
{
    match settled_lead(input) {
        Some(marker) => {
            marker.lemma_bytes();
            lemma_marker_led(input, marker);
        },
        None => {},
    }
    if Marker::ErrorItem.bytes().is_prefix_of(input) {
        lemma_marker_led(input, Marker::ErrorItem);
    }
}

/// The marker whose bytes stand at index `k` of the scanner's marker set.
pub open spec fn marker_at(k: int) -> Marker {
    if k == 0 {
        Marker::Prompt
    } else if k == 1 {
        Marker::PromptWithError
    } else if k == 2 {
        Marker::ErrorStart
    } else if k == 3 {
        Marker::ErrorEnd
    } else if k == 4 {
        Marker::ErrorItem
    } else if k == 5 {
        Marker::Progress
    } else {
        Marker::Binary
    }
}

/// The remainder of a split is never longer than the input, and shorter
/// unless the input is empty or is free-form data with a marker at its very
/// start.
pub proof fn lemma_split_shrinks(lead: Option<Marker>, input: Seq<u8>)
    ensures
        split_of(lead, input).1.len() <= input.len(),
        split_of(lead, input).0.len() <= input.len(),
        input.len() > 0 && !(lead is None && next_marker(input) == Some(0int)) ==> split_of(
            lead,
            input,
        ).1.len() < input.len(),
{
    lemma_first_occurrence(input, protocol_markers());
    lemma_first_occurrence(after(input, 4), protocol_markers());
    lemma_first_occurrence(after(input, 2), protocol_markers());
}

/// A classification step leaves fewer bytes than it was given.
pub proof fn lemma_parse_shrinks(input: Seq<u8>)
    ensures
        parse_of(input) matches Some(found) ==> found.1.len() < input.len(),
{
    if !is_terminal(input) {
        let lead = lead_of(input);
        lemma_split_shrinks(lead, input);
        if lead is None && next_marker(input) == Some(0int) {
            lemma_first_occurrence(input, protocol_markers());
            let k = choose|k: int|
                0 <= k < protocol_markers().len() && occurs_at(input, protocol_markers()[k], 0);
            let marker = marker_at(k);
            lemma_marker_led(input, marker);
        }
    }
}

impl ParsedResponse {
    /// A line of text that describes the token to a reader: its kind, and
    /// its payload between double quotes, bytes as a list of numbers.
    pub fn description(&self) -> (text: String)
        ensures
            text@ == description_of(self@),
    {
        match self {
            Self::Prompt => "prompt".to_owned(),
            Self::PromptWithError => "prompt with error".to_owned(),
            Self::TspErrorStart => "start of error dump".to_owned(),
            Self::TspError(message) => {
                let mut text = "error item: \"".to_owned();
                text.append(message.as_str());
                text.append("\"");
                text
            },
            Self::TspErrorEnd => "end of error dump".to_owned(),
            Self::Data(bytes) => {
                let mut text = "textual data: \"".to_owned();
                text.append(debug_text(bytes).as_str());
                text.append("\"");
                text
            },
            Self::BinaryData(bytes) => {
                let mut text = "binary data: \"".to_owned();
                text.append(debug_text(bytes).as_str());
                text.append("\"");
                text
            },
            Self::ProgressIndicator => "progress indicator".to_owned(),
        }
    }

    /// The offset of the earliest protocol marker in `input`, whichever
    /// marker it is; `None` where `input` holds none.
    #[must_use]
    pub fn find_next(input: &[u8]) -> (found: Option<usize>)
        ensures
            match found {
                Some(p) => {
                    &&& p < input@.len()
                    &&& is_first_occurrence(input@, protocol_markers(), p as int)
                    &&& next_marker(input@) == Some(p as int)
                },
                None => {
                    &&& occurs_nowhere(input@, protocol_markers())
                    &&& next_marker(input@) is None
                },
            },
    {
        let search: Vec<Vec<u8>> = vec![
            Marker::Prompt.to_vec(),
            Marker::PromptWithError.to_vec(),
            Marker::ErrorStart.to_vec(),
            Marker::ErrorEnd.to_vec(),
            Marker::ErrorItem.to_vec(),
            Marker::Progress.to_vec(),
            Marker::Binary.to_vec(),
        ];
        let list = search.as_slice();
        assert(needles_of(list@) =~= protocol_markers());
        find_first_of(input, list)
    }

    /// Divides `bytes` at its earliest marker.
    pub fn cut(bytes: &[u8]) -> (parts: (Vec<u8>, Vec<u8>))
        ensures
            (parts.0@, parts.1@) == cut_at_marker(bytes@),
    {
        match Self::find_next(bytes) {
            Some(next_token) => {
                let head = slice_subrange(bytes, 0, next_token);
                let tail = slice_subrange(bytes, next_token, bytes.len());
                (slice_to_vec(head), slice_to_vec(tail))
            },
            None => (slice_to_vec(bytes), Vec::new()),
        }
    }

    /// Payload and remainder of `input` for a token that `lead` introduces;
    /// `None` stands for free-form data.
    pub fn split(lead: Option<Marker>, input: &[u8]) -> (parts: (Vec<u8>, Vec<u8>))
        ensures
            (parts.0@, parts.1@) == split_of(lead, input@),
    {
        match lead {
            None => Self::cut(input),
            Some(Marker::ErrorItem) => {
                if input.len() > 4 {
                    Self::cut(slice_subrange(input, 4, input.len()))
                } else {
                    proof {
                        lemma_first_occurrence(Seq::<u8>::empty(), protocol_markers());
                    }
                    (Vec::new(), Vec::new())
                }
            },
            Some(Marker::Binary) => {
                if input.len() > 4 {
                    let window = slice_subrange(input, 2, input.len());
                    match Self::find_next(window) {
                        Some(found) => {
                            let shifted: usize = match found.checked_add(2) {
                                Some(sum) => sum,
                                None => input.len() - 1,
                            };
                            let next_token: usize = if shifted < 2 {
                                2
                            } else if shifted > input.len() - 1 {
                                input.len() - 1
                            } else {
                                shifted
                            };
                            // The clamp never bites: a marker that lies in the
                            // window ends inside the buffer.
                            assert(next_token == found + 2);
                            let head = slice_subrange(input, 2, next_token);
                            let tail = slice_subrange(input, next_token, input.len());
                            assert(head@ =~= window@.take(found as int));
                            assert(tail@ =~= window@.skip(found as int));
                            (slice_to_vec(head), slice_to_vec(tail))
                        },
                        None => (slice_to_vec(window), Vec::new()),
                    }
                } else {
                    (Vec::new(), Vec::new())
                }
            },
            Some(marker) => {
                let width = marker.len();
                if input.len() > width {
                    (Vec::new(), slice_to_vec(slice_subrange(input, width, input.len())))
                } else {
                    (Vec::new(), Vec::new())
                }
            },
        }
    }

    /// The message of an error entry: the text view of its payload without
    /// surrounding whitespace.
    pub fn error_message(payload: &[u8]) -> (message: String)
        ensures
            message@ == trim_of(text_of(payload@)),
    {
        let text = text_view(payload);
        trim(text.as_str()).to_owned()
    }

    /// The token that `lead` introduces, around its payload; `None` stands
    /// for free-form data. An error entry carries its message, the other
    /// marker tokens carry nothing.
    pub fn from_payload(lead: Option<Marker>, payload: Vec<u8>) -> (token: Self)
        ensures
            token@ == token_of(lead, payload@),
    {
        match lead {
            None => ParsedResponse::Data(payload),
            Some(Marker::Prompt) => ParsedResponse::Prompt,
            Some(Marker::PromptWithError) => ParsedResponse::PromptWithError,
            Some(Marker::ErrorStart) => ParsedResponse::TspErrorStart,
            Some(Marker::ErrorEnd) => ParsedResponse::TspErrorEnd,
            Some(Marker::ErrorItem) => ParsedResponse::TspError(
                Self::error_message(payload.as_slice()),
            ),
            Some(Marker::Progress) => ParsedResponse::ProgressIndicator,
            Some(Marker::Binary) => ParsedResponse::BinaryData(payload),
        }
    }

    /// Classifies the head of `input`: the next token, and the bytes that
    /// are left behind it.
    ///
    /// Returns `None` exactly where `input` is empty or begins with a NUL
    /// byte. Otherwise the text view of `input`, without its leading
    /// whitespace, is tested for the markers in their order of priority; the
    /// token is cut from `input` itself.
    ///
    /// A successful step leaves fewer bytes than it was given. Where `input`
    /// begins with a marker's bytes, that marker decides the token whatever
    /// follows it, and the longer `ERM>START` and `ERM>DONE` win over the
    /// bare `ERM>`.
    #[must_use]
    pub fn parse_next(input: &Vec<u8>) -> (parsed: Option<(Self, Vec<u8>)>)
        ensures
            outcome(parsed) == parse_of(input@),
            parsed is None <==> is_terminal(input@),
            parsed matches Some((_, rest)) ==> rest@.len() < input@.len(),
            settled_lead(input@) matches Some(marker) ==> outcome(parsed) == Some(
                parse_as(Some(marker), input@),
            ),
            Marker::ErrorItem.bytes().is_prefix_of(input@) ==> (outcome(parsed) matches Some(found)
                && is_error_token(found.0)),
    {
        if input.len() == 0 || input[0] == 0u8 {
            return None;
        }
        let text = text_view(input.as_slice());
        let lead = Marker::leading(trim_start(text.as_str()));
        let (payload, rest) = Self::split(lead, input.as_slice());
        proof {
            lemma_settled_lead(input@);
            lemma_parse_shrinks(input@);
        }
        Some((Self::from_payload(lead, payload), rest))
    }
}

} // verus!
