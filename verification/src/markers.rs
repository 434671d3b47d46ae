//! The protocol's marker sequences and the search for the earliest one.

use crate::text::{ascii_text, starts_with};
use vstd::prelude::*;

verus! {

/// The literal byte sequences with which the instrument introduces or
/// delimits a token.
#[derive(Clone, Copy, Debug, PartialEq, Eq, Structural)]
pub enum Marker {
    /// `TSP>`: ready, no error pending.
    Prompt,
    /// `TSP?`: ready, errors wait in the error queue.
    PromptWithError,
    /// `ERM>START`: an error dump begins.
    ErrorStart,
    /// `ERM>DONE`: an error dump ends.
    ErrorEnd,
    /// `ERM>`: one entry of an error dump.
    ErrorItem,
    /// `>>>>`: a long operation is in progress.
    Progress,
    /// `#0`: a binary block follows.
    Binary,
}

impl Marker {
    /// The bytes of the marker as they stand on the wire.
    pub open spec fn bytes(self) -> Seq<u8> {
        match self {
            Marker::Prompt => seq![0x54u8, 0x53u8, 0x50u8, 0x3eu8],
            Marker::PromptWithError => seq![0x54u8, 0x53u8, 0x50u8, 0x3fu8],
            Marker::ErrorStart => seq![
                0x45u8,
                0x52u8,
                0x4du8,
                0x3eu8,
                0x53u8,
                0x54u8,
                0x41u8,
                0x52u8,
                0x54u8,
            ],
            Marker::ErrorEnd => seq![
                0x45u8,
                0x52u8,
                0x4du8,
                0x3eu8,
                0x44u8,
                0x4fu8,
                0x4eu8,
                0x45u8,
            ],
            Marker::ErrorItem => seq![0x45u8, 0x52u8, 0x4du8, 0x3eu8],
            Marker::Progress => seq![0x3eu8, 0x3eu8, 0x3eu8, 0x3eu8],
            Marker::Binary => seq![0x23u8, 0x30u8],
        }
    }

    /// How many bytes the marker takes.
    pub open spec fn width(self) -> int {
        match self {
            Marker::ErrorStart => 9,
            Marker::ErrorEnd => 8,
            Marker::Binary => 2,
            _ => 4,
        }
    }

    /// `width` is the length of `bytes`, and every marker byte is ASCII.
    pub proof fn lemma_bytes(self)
        ensures
            self.bytes().len() == self.width(),
            0 < self.width() <= 9,
            forall|i: int| 0 <= i < self.width() ==> 0x20 < #[trigger] self.bytes()[i] < 0x80,
    {
    }

    /// The marker's length in bytes.
    pub fn len(self) -> (n: usize)
        ensures
            n == self.width(),
            n == self.bytes().len(),
    {
        match self {
            Marker::ErrorStart => 9,
            Marker::ErrorEnd => 8,
            Marker::Binary => 2,
            _ => 4,
        }
    }

    /// The marker as text: its bytes read as ASCII characters.
    pub open spec fn text(self) -> Seq<char> {
        ascii_text(self.bytes())
    }

    /// The marker as a string.
    pub fn as_str(self) -> (s: &'static str)
        ensures
            s@ == self.text(),
    {
        let s = match self {
            Marker::Prompt => {
                proof {
                    reveal_strlit("TSP>");
                }
                "TSP>"
            },
            Marker::PromptWithError => {
                proof {
                    reveal_strlit("TSP?");
                }
                "TSP?"
            },
            Marker::ErrorStart => {
                proof {
                    reveal_strlit("ERM>START");
                }
                "ERM>START"
            },
            Marker::ErrorEnd => {
                proof {
                    reveal_strlit("ERM>DONE");
                }
                "ERM>DONE"
            },
            Marker::ErrorItem => {
                proof {
                    reveal_strlit("ERM>");
                }
                "ERM>"
            },
            Marker::Progress => {
                proof {
                    reveal_strlit(">>>>");
                }
                ">>>>"
            },
            Marker::Binary => {
                proof {
                    reveal_strlit("#0");
                }
                "#0"
            },
        };
        assert(s@ =~= self.text());
        s
    }

    /// The marker with which `text` begins, where the markers are tried in
    /// their fixed order of priority: a marker that extends another one is
    /// tried before it.
    pub fn leading(text: &str) -> (lead: Option<Marker>)
        ensures
            lead == leading_marker(text@),
    {
        if starts_with(text, Marker::Prompt.as_str()) {
            Some(Marker::Prompt)
        } else if starts_with(text, Marker::PromptWithError.as_str()) {
            Some(Marker::PromptWithError)
        } else if starts_with(text, Marker::ErrorStart.as_str()) {
            Some(Marker::ErrorStart)
        } else if starts_with(text, Marker::ErrorEnd.as_str()) {
            Some(Marker::ErrorEnd)
        } else if starts_with(text, Marker::ErrorItem.as_str()) {
            Some(Marker::ErrorItem)
        } else if starts_with(text, Marker::Progress.as_str()) {
            Some(Marker::Progress)
        } else if starts_with(text, Marker::Binary.as_str()) {
            Some(Marker::Binary)
        } else {
            None
        }
    }

    /// The marker as an owned byte vector.
    pub fn to_vec(self) -> (v: Vec<u8>)
        ensures
            v@ == self.bytes(),
    {
        let v: Vec<u8> = match self {
            Marker::Prompt => vec![0x54, 0x53, 0x50, 0x3e],
            Marker::PromptWithError => vec![0x54, 0x53, 0x50, 0x3f],
            Marker::ErrorStart => vec![0x45, 0x52, 0x4d, 0x3e, 0x53, 0x54, 0x41, 0x52, 0x54],
            Marker::ErrorEnd => vec![0x45, 0x52, 0x4d, 0x3e, 0x44, 0x4f, 0x4e, 0x45],
            Marker::ErrorItem => vec![0x45, 0x52, 0x4d, 0x3e],
            Marker::Progress => vec![0x3e, 0x3e, 0x3e, 0x3e],
            Marker::Binary => vec![0x23, 0x30],
        };
        assert(v@ =~= self.bytes());
        v
    }
}

/// The marker with which `text` begins, by priority: `TSP>`, `TSP?`,
/// `ERM>START`, `ERM>DONE`, `ERM>`, `>>>>`, `#0`. `None` where it begins
/// with none of them.
pub open spec fn leading_marker(text: Seq<char>) -> Option<Marker> {
    if Marker::Prompt.text().is_prefix_of(text) {
        Some(Marker::Prompt)
    } else if Marker::PromptWithError.text().is_prefix_of(text) {
        Some(Marker::PromptWithError)
    } else if Marker::ErrorStart.text().is_prefix_of(text) {
        Some(Marker::ErrorStart)
    } else if Marker::ErrorEnd.text().is_prefix_of(text) {
        Some(Marker::ErrorEnd)
    } else if Marker::ErrorItem.text().is_prefix_of(text) {
        Some(Marker::ErrorItem)
    } else if Marker::Progress.text().is_prefix_of(text) {
        Some(Marker::Progress)
    } else if Marker::Binary.text().is_prefix_of(text) {
        Some(Marker::Binary)
    } else {
        None
    }
}

/// The marker set that the scanner looks for. Its order carries no priority:
/// the scan reports the earliest offset, whichever marker stands there.
pub open spec fn protocol_markers() -> Seq<Seq<u8>> {
    seq![
        Marker::Prompt.bytes(),
        Marker::PromptWithError.bytes(),
        Marker::ErrorStart.bytes(),
        Marker::ErrorEnd.bytes(),
        Marker::ErrorItem.bytes(),
        Marker::Progress.bytes(),
        Marker::Binary.bytes(),
    ]
}

/// `needle` lies in `haystack` as a contiguous run that starts at `at`.
pub open spec fn occurs_at(haystack: Seq<u8>, needle: Seq<u8>, at: int) -> bool {
    &&& 0 <= at
    &&& at + needle.len() <= haystack.len()
    &&& haystack.subrange(at, at + needle.len()) == needle
}

/// Some needle of the list lies in `haystack` at offset `at`.
pub open spec fn any_occurs_at(haystack: Seq<u8>, needles: Seq<Seq<u8>>, at: int) -> bool {
    exists|k: int| 0 <= k < needles.len() && #[trigger] occurs_at(haystack, needles[k], at)
}

/// `at` is the least offset at which a needle of the list lies in `haystack`.
pub open spec fn is_first_occurrence(haystack: Seq<u8>, needles: Seq<Seq<u8>>, at: int) -> bool {
    &&& any_occurs_at(haystack, needles, at)
    &&& forall|q: int| q < at ==> !any_occurs_at(haystack, needles, q)
}

/// No needle of the list lies anywhere in `haystack`.
pub open spec fn occurs_nowhere(haystack: Seq<u8>, needles: Seq<Seq<u8>>) -> bool {
    forall|q: int| !any_occurs_at(haystack, needles, q)
}

/// The least offset at which a needle of the list lies in `haystack`, if one
/// lies there at all.
pub open spec fn first_occurrence(haystack: Seq<u8>, needles: Seq<Seq<u8>>) -> Option<int> {
    if exists|p: int| is_first_occurrence(haystack, needles, p) {
        Some(choose|p: int| is_first_occurrence(haystack, needles, p))
    } else {
        None
    }
}

/// A least offset, once found, is the value of `first_occurrence`.
pub proof fn lemma_first_occurrence_is(haystack: Seq<u8>, needles: Seq<Seq<u8>>, at: int)
    requires
        is_first_occurrence(haystack, needles, at),
    ensures
        first_occurrence(haystack, needles) == Some(at),
{
    let p = choose|p: int| is_first_occurrence(haystack, needles, p);
    assert(is_first_occurrence(haystack, needles, p));
    if p < at {
        assert(!any_occurs_at(haystack, needles, p));
    }
    if at < p {
        assert(!any_occurs_at(haystack, needles, at));
    }
}

/// Where no needle occurs, `first_occurrence` is `None`.
pub proof fn lemma_first_occurrence_none(haystack: Seq<u8>, needles: Seq<Seq<u8>>)
    requires
        occurs_nowhere(haystack, needles),
    ensures
        first_occurrence(haystack, needles) is None,
{
    if exists|p: int| is_first_occurrence(haystack, needles, p) {
        let p = choose|p: int| is_first_occurrence(haystack, needles, p);
        assert(any_occurs_at(haystack, needles, p));
    }
}

/// What `first_occurrence` reports: a least offset inside the haystack, or
/// that no needle occurs at all.
pub proof fn lemma_first_occurrence(haystack: Seq<u8>, needles: Seq<Seq<u8>>)
    ensures
        match first_occurrence(haystack, needles) {
            Some(p) => is_first_occurrence(haystack, needles, p) && 0 <= p <= haystack.len(),
            None => occurs_nowhere(haystack, needles),
        },
{
    if exists|p: int| is_first_occurrence(haystack, needles, p) {
        let p = choose|p: int| is_first_occurrence(haystack, needles, p);
        assert(is_first_occurrence(haystack, needles, p));
        let k = choose|k: int| 0 <= k < needles.len() && occurs_at(haystack, needles[k], p);
        assert(occurs_at(haystack, needles[k], p));
    } else {
        assert forall|q: int| !any_occurs_at(haystack, needles, q) by {
            if any_occurs_at(haystack, needles, q) {
                lemma_least_exists(haystack, needles, q, q);
            }
        }
    }
}

/// Below an offset at which a needle occurs there is a least such offset.
proof fn lemma_least_exists(haystack: Seq<u8>, needles: Seq<Seq<u8>>, at: int, bound: int)
    requires
        any_occurs_at(haystack, needles, at),
        0 <= bound <= at,
        forall|q: int| bound <= q < at ==> !any_occurs_at(haystack, needles, q),
    ensures
        exists|p: int| is_first_occurrence(haystack, needles, p),
    decreases bound,
{
    if bound == 0 {
        assert forall|q: int| q < at implies !any_occurs_at(haystack, needles, q) by {
            if q < 0 && any_occurs_at(haystack, needles, q) {
                let k = choose|k: int| 0 <= k < needles.len() && occurs_at(haystack, needles[k], q);
                assert(occurs_at(haystack, needles[k], q));
            }
        }
        assert(is_first_occurrence(haystack, needles, at));
    } else if any_occurs_at(haystack, needles, bound - 1) {
        lemma_least_exists(haystack, needles, bound - 1, bound - 1);
    } else {
        lemma_least_exists(haystack, needles, at, bound - 1);
    }
}

/// The byte sequences that a list of markers holds.
pub open spec fn needles_of(search: Seq<Vec<u8>>) -> Seq<Seq<u8>> {
    search.map_values(|marker: Vec<u8>| marker@)
}

/// Whether `needle` lies in `haystack` at offset `at`.
pub fn matches_at(haystack: &[u8], needle: &[u8], at: usize) -> (hit: bool)
    ensures
        hit == occurs_at(haystack@, needle@, at as int),
{
    if at > haystack.len() || needle.len() > haystack.len() - at {
        return false;
    }
    let mut i: usize = 0;
    while i < needle.len()
        invariant
            at + needle.len() <= haystack.len(),
            i <= needle.len(),
            forall|j: int| 0 <= j < i ==> haystack@[at + j] == needle@[j],
        decreases needle.len() - i,
    {
        if haystack[at + i] != needle[i] {
            proof {
                let window = haystack@.subrange(at as int, at + needle.len());
                assert(window[i as int] == haystack@[at + i]);
            }
            return false;
        }
        i += 1;
    }
    assert(haystack@.subrange(at as int, at + needle.len()) =~= needle@);
    true
}

/// The lowest offset at which `needle` lies in `haystack`.
///
/// A haystack shorter than the needle holds no occurrence.
pub fn first_position(haystack: &[u8], needle: &[u8]) -> (found: Option<usize>)
    requires
        needle@.len() > 0,
    ensures
        match found {
            Some(p) => {
                &&& p < haystack@.len()
                &&& occurs_at(haystack@, needle@, p as int)
                &&& forall|q: int| q < p ==> !occurs_at(haystack@, needle@, q)
            },
            None => forall|q: int| !occurs_at(haystack@, needle@, q),
        },
{
    if needle.len() > haystack.len() {
        return None;
    }
    let last: usize = haystack.len() - needle.len();
    let mut at: usize = 0;
    while at <= last
        invariant
            last == haystack@.len() - needle@.len(),
            last < usize::MAX,
            needle@.len() > 0,
            at <= last + 1,
            forall|q: int| q < at ==> !occurs_at(haystack@, needle@, q),
        decreases last + 1 - at,
    {
        if matches_at(haystack, needle, at) {
            return Some(at);
        }
        at += 1;
    }
    None
}

/// The earliest offset at which any of the markers in `search` lies in
/// `input`; `None` if none of them occurs.
///
/// Which marker stands at the offset plays no part, nor does the order of
/// `search`. Empty markers must not be passed.
pub fn find_first_of(input: &[u8], search: &[Vec<u8>]) -> (found: Option<usize>)
    requires
        forall|k: int| 0 <= k < search@.len() ==> (#[trigger] search@[k])@.len() > 0,
    ensures
        match found {
            Some(p) => {
                &&& p < input@.len()
                &&& is_first_occurrence(input@, needles_of(search@), p as int)
                &&& first_occurrence(input@, needles_of(search@)) == Some(p as int)
            },
            None => {
                &&& occurs_nowhere(input@, needles_of(search@))
                &&& first_occurrence(input@, needles_of(search@)) is None
            },
        },
{
    let ghost needles = needles_of(search@);
    let mut lowest_pos: usize = input.len();
    let mut k: usize = 0;
    while k < search.len()
        invariant
            k <= search@.len(),
            needles == needles_of(search@),
            needles.len() == search@.len(),
            forall|j: int| 0 <= j < needles.len() ==> #[trigger] needles[j] == search@[j]@,
            forall|j: int| 0 <= j < search@.len() ==> (#[trigger] search@[j])@.len() > 0,
            lowest_pos <= input@.len(),
            lowest_pos < input@.len() ==> exists|j: int|
                0 <= j < k && #[trigger] occurs_at(input@, needles[j], lowest_pos as int),
            forall|q: int, j: int|
                q < lowest_pos && 0 <= j < k ==> !#[trigger] occurs_at(input@, needles[j], q),
        decreases search@.len() - k,
    {
        let temp: usize = match first_position(input, search[k].as_slice()) {
            Some(x) => x,
            None => lowest_pos,
        };
        if temp < lowest_pos {
            assert(occurs_at(input@, needles[k as int], temp as int));
            lowest_pos = temp;
        }
        k += 1;
    }
    if lowest_pos < input.len() {
        proof {
            let j = choose|j: int|
                0 <= j < k && #[trigger] occurs_at(input@, needles[j], lowest_pos as int);
            assert(occurs_at(input@, needles[j], lowest_pos as int));
            assert(any_occurs_at(input@, needles, lowest_pos as int));
            lemma_first_occurrence_is(input@, needles, lowest_pos as int);
        }
        Some(lowest_pos)
    } else {
        proof {
            assert forall|q: int| !any_occurs_at(input@, needles, q) by {
                if any_occurs_at(input@, needles, q) {
                    let j = choose|j: int|
                        0 <= j < needles.len() && occurs_at(input@, needles[j], q);
                    assert(occurs_at(input@, needles[j], q));
                    assert(needles[j].len() > 0);
                }
            }
            lemma_first_occurrence_none(input@, needles);
        }
        None
    }
}

} // verus!
