//! The tokenizing sequence: one owned buffer from which tokens are pulled
//! until nothing is left to parse.

use crate::instrument::{
    is_terminal, lemma_parse_shrinks, parse_as, parse_of, settled_lead, ParsedResponse, Token,
};
use crate::text::{lemma_trim_ascii_start, trim_ascii_start, trim_ascii_start_of};
use vstd::prelude::*;
use vstd::slice::slice_to_vec;

verus! {

/// The token that a pull on `buffer` yields; `None` where `buffer` is
/// terminal.
pub open spec fn next_token(buffer: Seq<u8>) -> Option<Token> {
    match parse_of(buffer) {
        Some((token, _)) => Some(token),
        None => None,
    }
}

/// The buffer that a pull on `buffer` leaves: the remainder behind the token
/// without its leading ASCII whitespace. A terminal buffer stays as it is.
pub open spec fn next_state(buffer: Seq<u8>) -> Seq<u8> {
    match parse_of(buffer) {
        Some((_, rest)) => trim_ascii_start_of(rest),
        None => buffer,
    }
}

/// A pull yields a token exactly where the buffer is not terminal, and then
/// leaves a shorter buffer.
pub proof fn lemma_pull_shrinks(buffer: Seq<u8>)
    ensures
        next_token(buffer) is None <==> is_terminal(buffer),
        !is_terminal(buffer) ==> next_state(buffer).len() < buffer.len(),
{
    lemma_parse_shrinks(buffer);
    if !is_terminal(buffer) {
        lemma_trim_ascii_start(parse_of(buffer).unwrap().1);
    }
}

/// The tokens that a sequence on `buffer` yields until it is exhausted, in
/// pull order.
pub open spec fn tokens_of(buffer: Seq<u8>) -> Seq<Token>
    decreases buffer.len(),
{
    match next_token(buffer) {
        Some(token) => {
            proof {
                lemma_pull_shrinks(buffer);
            }
            seq![token] + tokens_of(next_state(buffer))
        },
        None => Seq::empty(),
    }
}

/// The terminal buffer on which a sequence on `buffer` is exhausted.
pub open spec fn final_state(buffer: Seq<u8>) -> Seq<u8>
    decreases buffer.len(),
{
    if is_terminal(buffer) {
        buffer
    } else {
        proof {
            lemma_pull_shrinks(buffer);
        }
        final_state(next_state(buffer))
    }
}

/// The buffer after `n` pulls that began on `buffer`.
pub open spec fn state_after(buffer: Seq<u8>, n: nat) -> Seq<u8>
    decreases n,
{
    if n == 0 {
        buffer
    } else {
        next_state(state_after(buffer, (n - 1) as nat))
    }
}

/// The mathematical values of a list of tokens.
pub open spec fn token_views(tokens: Seq<ParsedResponse>) -> Seq<Token> {
    tokens.map_values(|token: ParsedResponse| token@)
}

/// A single-pass producer of tokens from one buffer.
pub struct ResponseParser {
    data: Vec<u8>,
}

impl View for ResponseParser {
    type V = Seq<u8>;

    /// The bytes that are still to be parsed.
    closed spec fn view(&self) -> Seq<u8> {
        self.data@
    }
}

impl ResponseParser {
    /// A sequence over a copy of `data`.
    pub fn new(data: &[u8]) -> (parser: Self)
        ensures
            parser@ == data@,
    {
        Self { data: slice_to_vec(data) }
    }

    /// The bytes that are still to be parsed.
    pub fn remaining(&self) -> (bytes: &[u8])
        ensures
            bytes@ == self@,
    {
        self.data.as_slice()
    }

    /// Pulls the next token.
    ///
    /// Yields nothing exactly where the buffer is empty or begins with a NUL
    /// byte, and then leaves the buffer as it is, so that every later pull
    /// yields nothing either. Otherwise the buffer becomes the remainder
    /// behind the token, without its leading ASCII whitespace, and is shorter
    /// than before. A marker at the very start of the buffer decides the
    /// token.
    pub fn next(&mut self) -> (token: Option<ParsedResponse>)
        ensures
            match token {
                Some(found) => next_token(old(self)@) == Some(found@),
                None => next_token(old(self)@) is None,
            },
            final(self)@ == next_state(old(self)@),
            token is None <==> is_terminal(old(self)@),
            token is None ==> final(self)@ == old(self)@,
            token is Some ==> final(self)@.len() < old(self)@.len(),
            settled_lead(old(self)@) matches Some(marker) ==> parse_of(old(self)@) == Some(
                parse_as(Some(marker), old(self)@),
            ),
    {
        proof {
            lemma_pull_shrinks(self@);
        }
        let Some((ret, remainder)) = ParsedResponse::parse_next(&self.data) else {
            return None;
        };
        let remainder = slice_to_vec(trim_ascii_start(remainder.as_slice()));
        self.data = remainder;
        Some(ret)
    }

    /// Pulls until the sequence is exhausted, and returns the tokens in the
    /// order in which they were pulled.
    ///
    /// The sequence is finite: it holds no more tokens than the buffer had
    /// bytes. The buffer that is left is terminal.
    pub fn drain(&mut self) -> (tokens: Vec<ParsedResponse>)
        ensures
            token_views(tokens@) == tokens_of(old(self)@),
            tokens@.len() <= old(self)@.len(),
            final(self)@ == final_state(old(self)@),
            is_terminal(final(self)@),
    {
        let ghost start = self@;
        let mut tokens: Vec<ParsedResponse> = Vec::new();
        assert(token_views(tokens@) + tokens_of(self@) =~= tokens_of(start));
        loop
            invariant_except_break
                token_views(tokens@) + tokens_of(self@) == tokens_of(start),
                final_state(self@) == final_state(start),
                tokens@.len() + self@.len() <= start.len(),
            ensures
                token_views(tokens@) == tokens_of(start),
                tokens@.len() <= start.len(),
                self@ == final_state(start),
                is_terminal(self@),
            decreases self@.len(),
        {
            let ghost before = self@;
            let ghost pulled = token_views(tokens@);
            proof {
                lemma_pull_shrinks(before);
            }
            match self.next() {
                Some(token) => {
                    tokens.push(token);
                    assert(token_views(tokens@) =~= pulled + seq![token@]);
                    assert(token_views(tokens@) + tokens_of(self@) =~= pulled + tokens_of(before));
                },
                None => {
                    assert(pulled + tokens_of(before) =~= pulled);
                    break ;
                },
            }
        }
        tokens
    }
}

impl From<Vec<u8>> for ResponseParser {
    /// A sequence over `data` itself.
    fn from(data: Vec<u8>) -> (parser: Self)
        ensures
            parser@ == data@,
    {
        Self { data }
    }
}

impl vstd::std_specs::convert::FromSpecImpl<Vec<u8>> for ResponseParser {
    open spec fn obeys_from_spec() -> bool {
        true
    }

    closed spec fn from_spec(data: Vec<u8>) -> Self {
        ResponseParser { data }
    }
}

} // verus!
