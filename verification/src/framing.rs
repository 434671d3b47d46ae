//! What holds of every run of the tokenizing sequence: an exhausted
//! sequence stays exhausted, a run is finite, and the bytes that its pulls
//! consume, put together in order, are the buffer that the run began on.

use crate::instrument::{after, is_terminal, lead_of, split_of, Token};
use crate::markers::{lemma_first_occurrence, protocol_markers, Marker};
use crate::parser::{
    final_state, lemma_pull_shrinks, next_state, next_token, state_after, tokens_of,
};
use crate::text::{ascii_indent, is_ascii_whitespace, lemma_trim_ascii_start, trim_ascii_start_of};
use vstd::prelude::*;

verus! {

/// The bytes at the head of `input` that a token with this lead takes as
/// its delimiter: as many as the marker is wide, or all of `input` where it
/// is shorter. Free-form data has no delimiter.
pub open spec fn delimiter_of(lead: Option<Marker>, input: Seq<u8>) -> Seq<u8> {
    match lead {
        Some(marker) => if marker.width() <= input.len() {
            input.take(marker.width())
        } else {
            input
        },
        None => Seq::empty(),
    }
}

/// The one split that lets bytes fall: a binary block of three or four
/// bytes in all is taken as an empty block with nothing behind it.
pub open spec fn drops_bytes(lead: Option<Marker>, input: Seq<u8>) -> bool {
    lead == Some(Marker::Binary) && 2 < input.len() <= 4
}

/// Delimiter, payload and remainder of a split are disjoint stretches of the
/// input that follow each other without a gap: put together they are the
/// input.
pub proof fn lemma_split_frames(lead: Option<Marker>, input: Seq<u8>)
    requires
        !drops_bytes(lead, input),
    ensures
        delimiter_of(lead, input) + split_of(lead, input).0 + split_of(lead, input).1 == input,
{
    lemma_first_occurrence(input, protocol_markers());
    lemma_first_occurrence(after(input, 4), protocol_markers());
    lemma_first_occurrence(after(input, 2), protocol_markers());
    assert(delimiter_of(lead, input) + split_of(lead, input).0 + split_of(lead, input).1
        =~= input);
}

/// The delimiter of a buffer that begins with a marker is that marker.
pub proof fn lemma_delimiter_is_marker(marker: Marker, input: Seq<u8>)
    requires
        marker.bytes().is_prefix_of(input),
    ensures
        delimiter_of(Some(marker), input) == marker.bytes(),
{
    marker.lemma_bytes();
    assert(delimiter_of(Some(marker), input) =~= marker.bytes());
}

/// Whether the pull on `buffer` lets bytes fall.
pub open spec fn pull_drops_bytes(buffer: Seq<u8>) -> bool {
    !is_terminal(buffer) && drops_bytes(lead_of(buffer), buffer)
}

/// The whitespace that a pull on `buffer` takes off the head of the
/// remainder.
pub open spec fn skipped_of(buffer: Seq<u8>) -> Seq<u8> {
    let rest = split_of(lead_of(buffer), buffer).1;
    rest.take(ascii_indent(rest) as int)
}

/// The bytes that a pull on `buffer` consumes: the delimiter, the payload,
/// and the whitespace behind them. A pull on a terminal buffer consumes
/// nothing.
pub open spec fn frame_of(buffer: Seq<u8>) -> Seq<u8> {
    if is_terminal(buffer) {
        Seq::empty()
    } else {
        delimiter_of(lead_of(buffer), buffer) + split_of(lead_of(buffer), buffer).0 + skipped_of(
            buffer,
        )
    }
}

/// The bytes that a run on `buffer` consumes until it is exhausted: the
/// frames of its pulls, in pull order.
pub open spec fn frames_of(buffer: Seq<u8>) -> Seq<u8>
    decreases buffer.len(),
{
    if is_terminal(buffer) {
        Seq::empty()
    } else {
        proof {
            lemma_pull_shrinks(buffer);
        }
        frame_of(buffer) + frames_of(next_state(buffer))
    }
}

/// Whether some pull of the run on `buffer` lets bytes fall.
pub open spec fn run_drops_bytes(buffer: Seq<u8>) -> bool
    decreases buffer.len(),
{
    if is_terminal(buffer) {
        false
    } else {
        proof {
            lemma_pull_shrinks(buffer);
        }
        pull_drops_bytes(buffer) || run_drops_bytes(next_state(buffer))
    }
}

/// The payload that a yielded token carries is the payload stretch of its
/// frame: the bytes themselves for data and binary data, nothing for the
/// tokens that are a marker alone. An error entry carries the text of that
/// stretch.
pub proof fn lemma_payload_is_yielded(buffer: Seq<u8>)
    requires
        !is_terminal(buffer),
    ensures
        match next_token(buffer) {
            Some(Token::Data(bytes)) => bytes == split_of(lead_of(buffer), buffer).0,
            Some(Token::BinaryData(bytes)) => bytes == split_of(lead_of(buffer), buffer).0,
            Some(Token::TspError(_)) => lead_of(buffer) == Some(Marker::ErrorItem),
            Some(_) => split_of(lead_of(buffer), buffer).0.len() == 0,
            None => false,
        },
{
}

/// What a pull skips between two tokens is ASCII whitespace and nothing
/// else.
pub proof fn lemma_skipped_is_whitespace(buffer: Seq<u8>)
    ensures
        forall|i: int|
            0 <= i < skipped_of(buffer).len() ==> is_ascii_whitespace(
                #[trigger] skipped_of(buffer)[i],
            ),
{
    let rest = split_of(lead_of(buffer), buffer).1;
    lemma_trim_ascii_start(rest);
}

/// One pull: the bytes it consumes and the buffer it leaves are the buffer
/// it was made on.
pub proof fn lemma_pull_frames(buffer: Seq<u8>)
    requires
        !pull_drops_bytes(buffer),
    ensures
        frame_of(buffer) + next_state(buffer) == buffer,
{
    if !is_terminal(buffer) {
        let lead = lead_of(buffer);
        let rest = split_of(lead, buffer).1;
        lemma_split_frames(lead, buffer);
        lemma_trim_ascii_start(rest);
        assert(skipped_of(buffer) + trim_ascii_start_of(rest) =~= rest);
        assert(frame_of(buffer) + next_state(buffer) =~= delimiter_of(lead, buffer) + split_of(
            lead,
            buffer,
        ).0 + rest);
    } else {
        assert(frame_of(buffer) + next_state(buffer) =~= buffer);
    }
}

/// A whole run: the frames of its pulls, in pull order, followed by the
/// terminal buffer that it ends on, are the buffer that it began on. It
/// holds of every run in which no pull lets bytes fall.
pub proof fn lemma_run_frames(buffer: Seq<u8>)
    requires
        !run_drops_bytes(buffer),
    ensures
        frames_of(buffer) + final_state(buffer) == buffer,
    decreases buffer.len(),
{
    if is_terminal(buffer) {
        assert(frames_of(buffer) + final_state(buffer) =~= buffer);
    } else {
        lemma_pull_shrinks(buffer);
        lemma_pull_frames(buffer);
        lemma_run_frames(next_state(buffer));
        assert(frames_of(buffer) + final_state(buffer) =~= frame_of(buffer) + (frames_of(
            next_state(buffer),
        ) + final_state(next_state(buffer))));
    }
}

/// A run is finite and ends on a terminal buffer: it yields no more tokens
/// than the buffer has bytes, and its last state is reached after as many
/// pulls as it yields tokens.
pub proof fn lemma_run_is_finite(buffer: Seq<u8>)
    ensures
        tokens_of(buffer).len() <= buffer.len(),
        is_terminal(final_state(buffer)),
        final_state(buffer) == state_after(buffer, tokens_of(buffer).len()),
    decreases buffer.len(),
{
    if !is_terminal(buffer) {
        lemma_pull_shrinks(buffer);
        let next = next_state(buffer);
        lemma_run_is_finite(next);
        lemma_state_after_shift(buffer, tokens_of(next).len());
    }
}

/// `n` pulls behind one pull are `n + 1` pulls.
pub proof fn lemma_state_after_shift(buffer: Seq<u8>, n: nat)
    ensures
        state_after(next_state(buffer), n) == state_after(buffer, n + 1),
    decreases n,
{
    assert(state_after(buffer, n + 1) == next_state(state_after(buffer, n)));
    if n > 0 {
        lemma_state_after_shift(buffer, (n - 1) as nat);
    } else {
        assert(state_after(buffer, 0) == buffer);
    }
}

/// A sequence on a terminal buffer never yields a token, however often it
/// is pulled, and its buffer never changes.
pub proof fn lemma_terminal_stays(buffer: Seq<u8>, n: nat)
    requires
        is_terminal(buffer),
    ensures
        state_after(buffer, n) == buffer,
        next_token(state_after(buffer, n)) is None,
        tokens_of(buffer).len() == 0,
        final_state(buffer) == buffer,
    decreases n,
{
    if n > 0 {
        lemma_terminal_stays(buffer, (n - 1) as nat);
    }
}

/// Once a pull has yielded nothing, no later pull yields a token.
pub proof fn lemma_exhausted_stays(buffer: Seq<u8>, i: nat, j: nat)
    requires
        next_token(state_after(buffer, i)) is None,
        i <= j,
    ensures
        next_token(state_after(buffer, j)) is None,
        state_after(buffer, j) == state_after(buffer, i),
    decreases j,
{
    if i < j {
        lemma_exhausted_stays(buffer, i, (j - 1) as nat);
    }
}

} // verus!
