//! Text and whitespace: the lossy text view of a byte buffer, trimming of
//! text, and trimming of bytes.
//!
//! The functions marked `external_body` are the calls into the standard
//! library that this crate rests on without proof. Each one's comment says
//! what is taken on trust.

use vstd::prelude::*;
use vstd::slice::slice_subrange;

verus! {

/// Whether `c` has the Unicode property `White_Space`.
pub open spec fn is_whitespace(c: char) -> bool {
    let u = c as u32;
    ||| 0x0009 <= u <= 0x000d
    ||| u == 0x0020
    ||| u == 0x0085
    ||| u == 0x00a0
    ||| u == 0x1680
    ||| 0x2000 <= u <= 0x200a
    ||| u == 0x2028
    ||| u == 0x2029
    ||| u == 0x202f
    ||| u == 0x205f
    ||| u == 0x3000
}

/// Whether `c` has the Unicode property `White_Space`: `is_whitespace` as
/// code that runs, so that the list can be held against
/// `char::is_whitespace`.
pub fn char_is_whitespace(c: char) -> (ws: bool)
    ensures
        ws == is_whitespace(c),
{
    let u: u32 = c as u32;
    (0x0009 <= u && u <= 0x000d) || u == 0x0020 || u == 0x0085 || u == 0x00a0 || u == 0x1680
        || (0x2000 <= u && u <= 0x200a) || u == 0x2028 || u == 0x2029 || u == 0x202f
        || u == 0x205f || u == 0x3000
}

/// `text` without its leading whitespace.
pub open spec fn trim_start_of(text: Seq<char>) -> Seq<char>
    decreases text.len(),
{
    if text.len() > 0 && is_whitespace(text.first()) {
        trim_start_of(text.drop_first())
    } else {
        text
    }
}

/// `text` without its trailing whitespace.
pub open spec fn trim_end_of(text: Seq<char>) -> Seq<char>
    decreases text.len(),
{
    if text.len() > 0 && is_whitespace(text.last()) {
        trim_end_of(text.drop_last())
    } else {
        text
    }
}

/// `text` without its leading and trailing whitespace.
pub open spec fn trim_of(text: Seq<char>) -> Seq<char> {
    trim_end_of(trim_start_of(text))
}

/// Every byte is below 0x80.
pub open spec fn is_ascii(bytes: Seq<u8>) -> bool {
    forall|i: int| 0 <= i < bytes.len() ==> #[trigger] bytes[i] < 0x80
}

/// The characters that the bytes stand for, one for one. Meant for ASCII.
pub open spec fn ascii_text(bytes: Seq<u8>) -> Seq<char> {
    Seq::new(bytes.len(), |i: int| bytes[i] as char)
}

/// The number of ASCII bytes at the head of `bytes`.
pub open spec fn ascii_run(bytes: Seq<u8>) -> nat
    decreases bytes.len(),
{
    if bytes.len() > 0 && bytes.first() < 0x80 {
        1 + ascii_run(bytes.drop_first())
    } else {
        0
    }
}

/// The longest run of ASCII bytes at the head of `bytes`.
pub open spec fn ascii_head(bytes: Seq<u8>) -> Seq<u8> {
    bytes.take(ascii_run(bytes) as int)
}

/// The ASCII head is a prefix of the bytes, it is ASCII, and no ASCII prefix
/// is longer.
pub proof fn lemma_ascii_head(bytes: Seq<u8>)
    ensures
        ascii_run(bytes) <= bytes.len(),
        is_ascii(ascii_head(bytes)),
        forall|n: int|
            0 <= n <= bytes.len() && is_ascii(#[trigger] bytes.take(n)) ==> n <= ascii_run(bytes),
    decreases bytes.len(),
{
    if bytes.len() > 0 && bytes.first() < 0x80 {
        let tail = bytes.drop_first();
        lemma_ascii_head(tail);
        assert forall|i: int| 0 <= i < ascii_head(bytes).len() implies #[trigger] ascii_head(
            bytes,
        )[i] < 0x80 by {
            if i > 0 {
                assert(ascii_head(bytes)[i] == ascii_head(tail)[i - 1]);
            }
        }
        assert forall|n: int| 0 <= n <= bytes.len() && is_ascii(#[trigger] bytes.take(n)) implies n
            <= ascii_run(bytes) by {
            if n > 0 {
                assert forall|i: int| 0 <= i < n - 1 implies #[trigger] tail.take(n - 1)[i]
                    < 0x80 by {
                    assert(tail.take(n - 1)[i] == bytes.take(n)[i + 1]);
                }
                assert(is_ascii(tail.take(n - 1)));
            }
        }
    } else {
        assert forall|n: int| 0 <= n <= bytes.len() && is_ascii(#[trigger] bytes.take(n)) implies n
            <= ascii_run(bytes) by {
            if n > 0 {
                assert(bytes.take(n)[0] == bytes.first());
            }
        }
    }
}

/// The text that lossy UTF-8 decoding makes of `bytes`: well-formed
/// sequences become their characters, each ill-formed one becomes U+FFFD.
///
/// This names the result of `String::from_utf8_lossy`; the decoding itself is
/// not restated here.
pub uninterp spec fn utf8_lossy(bytes: Seq<u8>) -> Seq<char>;

/// The text view of `bytes`: the ASCII head as it stands, then what lossy
/// decoding gives behind it.
///
/// Lossy decoding keeps the ASCII head, so this is the decoded text itself,
/// written so that its head can be read off the bytes.
pub open spec fn text_of(bytes: Seq<u8>) -> Seq<char> {
    ascii_text(ascii_head(bytes)) + utf8_lossy(bytes).skip(ascii_run(bytes) as int)
}

/// Calls `String::from_utf8_lossy`.
///
/// Trusted: the result is a function of the bytes alone (`utf8_lossy`), and
/// it begins with the ASCII head of the bytes, since each ASCII byte is a
/// complete well-formed sequence whatever follows it.
#[verifier::external_body]
pub(crate) fn lossy_text(bytes: &[u8]) -> (text: String)
    ensures
        text@ == utf8_lossy(bytes@),
        ascii_text(ascii_head(bytes@)).is_prefix_of(text@),
{
    String::from_utf8_lossy(bytes).into_owned()
}

/// The text view of `bytes`.
pub fn text_view(bytes: &[u8]) -> (text: String)
    ensures
        text@ == text_of(bytes@),
{
    let text = lossy_text(bytes);
    proof {
        lemma_ascii_head(bytes@);
        assert(text@ =~= text_of(bytes@));
    }
    text
}

/// The text view begins with every ASCII prefix of the bytes, read as text.
pub proof fn lemma_text_keeps_ascii(bytes: Seq<u8>, n: int)
    requires
        0 <= n <= bytes.len(),
        is_ascii(bytes.take(n)),
    ensures
        n <= text_of(bytes).len(),
        forall|i: int| 0 <= i < n ==> #[trigger] text_of(bytes)[i] == bytes[i] as char,
{
    lemma_ascii_head(bytes);
    assert(n <= ascii_run(bytes));
}

/// Calls `str::trim_start`.
///
/// Trusted: the result is the text without its leading characters of the
/// Unicode property `White_Space`.
#[verifier::external_body]
pub(crate) fn trim_start<'a>(text: &'a str) -> (rest: &'a str)
    ensures
        rest@ == trim_start_of(text@),
{
    text.trim_start()
}

/// Calls `str::trim`.
///
/// Trusted: the result is the text without its leading and trailing
/// characters of the Unicode property `White_Space`.
#[verifier::external_body]
pub(crate) fn trim<'a>(text: &'a str) -> (rest: &'a str)
    ensures
        rest@ == trim_of(text@),
{
    text.trim()
}

/// Calls `str::starts_with` with a string pattern.
///
/// Trusted: the result says whether `prefix` is a prefix of `text`.
#[verifier::external_body]
pub(crate) fn starts_with(text: &str, prefix: &str) -> (hit: bool)
    ensures
        hit == prefix@.is_prefix_of(text@),
{
    text.starts_with(prefix)
}

/// The text that `Debug` formatting makes of a list of bytes.
///
/// This names the result of formatting a `Vec<u8>` with `{:?}`; the layout
/// is the standard library's and is not restated here.
pub uninterp spec fn debug_list(bytes: Seq<u8>) -> Seq<char>;

/// Calls `format!` with `{:?}`, that is the `Debug` impl of `Vec<u8>`.
///
/// Trusted: the result is a function of the bytes alone (`debug_list`).
#[verifier::external_body]
pub(crate) fn debug_text(bytes: &Vec<u8>) -> (text: String)
    ensures
        text@ == debug_list(bytes@),
{
    format!("{bytes:?}")
}

/// Whether `b` is an ASCII whitespace byte: space, tab, line feed, form feed
/// or carriage return.
pub open spec fn is_ascii_whitespace(b: u8) -> bool {
    b == 0x20 || b == 0x09 || b == 0x0a || b == 0x0c || b == 0x0d
}

/// `bytes` without its leading ASCII whitespace.
pub open spec fn trim_ascii_start_of(bytes: Seq<u8>) -> Seq<u8>
    decreases bytes.len(),
{
    if bytes.len() > 0 && is_ascii_whitespace(bytes.first()) {
        trim_ascii_start_of(bytes.drop_first())
    } else {
        bytes
    }
}

/// The number of ASCII whitespace bytes at the head of `bytes`.
pub open spec fn ascii_indent(bytes: Seq<u8>) -> nat
    decreases bytes.len(),
{
    if bytes.len() > 0 && is_ascii_whitespace(bytes.first()) {
        1 + ascii_indent(bytes.drop_first())
    } else {
        0
    }
}

/// Trimming takes exactly the indent off the head: what it removes is
/// whitespace, and what it leaves does not begin with whitespace.
pub proof fn lemma_trim_ascii_start(bytes: Seq<u8>)
    ensures
        ascii_indent(bytes) <= bytes.len(),
        trim_ascii_start_of(bytes) == bytes.skip(ascii_indent(bytes) as int),
        forall|i: int| 0 <= i < ascii_indent(bytes) ==> is_ascii_whitespace(#[trigger] bytes[i]),
        trim_ascii_start_of(bytes).len() > 0 ==> !is_ascii_whitespace(
            trim_ascii_start_of(bytes).first(),
        ),
    decreases bytes.len(),
{
    if bytes.len() > 0 && is_ascii_whitespace(bytes.first()) {
        let tail = bytes.drop_first();
        lemma_trim_ascii_start(tail);
        let n = ascii_indent(tail);
        assert(tail.skip(n as int) =~= bytes.skip(n as int + 1));
        assert forall|i: int| 0 <= i < ascii_indent(bytes) implies is_ascii_whitespace(
            #[trigger] bytes[i],
        ) by {
            if i > 0 {
                assert(bytes[i] == tail[i - 1]);
            }
        }
    } else {
        assert(bytes.skip(0) =~= bytes);
    }
}

/// Whether `b` is an ASCII whitespace byte.
pub fn byte_is_ascii_whitespace(b: u8) -> (ws: bool)
    ensures
        ws == is_ascii_whitespace(b),
{
    b == 0x20 || b == 0x09 || b == 0x0a || b == 0x0c || b == 0x0d
}

/// `bytes` without its leading ASCII whitespace.
pub fn trim_ascii_start(bytes: &[u8]) -> (rest: &[u8])
    ensures
        rest@ == trim_ascii_start_of(bytes@),
{
    let mut i: usize = 0;
    assert(bytes@.skip(0) =~= bytes@);
    while i < bytes.len() && byte_is_ascii_whitespace(bytes[i])
        invariant
            i <= bytes@.len(),
            trim_ascii_start_of(bytes@) == trim_ascii_start_of(bytes@.skip(i as int)),
        decreases bytes@.len() - i,
    {
        proof {
            let here = bytes@.skip(i as int);
            assert(here.first() == bytes@[i as int]);
            assert(here.drop_first() =~= bytes@.skip(i + 1));
        }
        i += 1;
    }
    proof {
        let here = bytes@.skip(i as int);
        if i < bytes@.len() {
            assert(here.first() == bytes@[i as int]);
        }
        assert(here =~= bytes@.subrange(i as int, bytes@.len() as int));
    }
    slice_subrange(bytes, i, bytes.len())
}

} // verus!
