//! Field decoding: how the text of a roster cell becomes a value.

use vstd::prelude::*;
use vstd::string::StrSliceExecFns;
use vstd::string::StringExecFns;
use crate::model::Location;
use crate::model::Technique;
use crate::text::Rank;
use crate::text::compare_text;

verus! {

/// `pattern` stands in `text` from place `at` on.
pub open spec fn occurs_at(pattern: Seq<char>, text: Seq<char>, at: int) -> bool {
    &&& 0 <= at
    &&& at + pattern.len() <= text.len()
    &&& text.subrange(at, at + pattern.len()) == pattern
}

/// `pattern` stands somewhere in `text`.
pub open spec fn occurs_in(pattern: Seq<char>, text: Seq<char>) -> bool {
    exists|at: int| occurs_at(pattern, text, at)
}

/// `str::contains` with a string as the pattern: whether the pattern stands
/// somewhere in the text.
#[verifier::external_body]
fn contains_text(text: &str, pattern: &str) -> (found: bool)
    ensures
        found == occurs_in(pattern@, text@),
{
    text.contains(pattern)
}

impl Technique {
    /// The words by which a technique is named in a roster cell.
    pub open spec fn spec_keyword(self) -> Seq<char> {
        match self {
            Technique::DigitalTwoDimensional => "2D digitale"@,
            Technique::TraditionalTwoDimensional => "2D traditionnel"@,
            Technique::ThreeDimensional => "3D"@,
            Technique::Rostrum => "banc-titre"@,
            Technique::StopMotion => "Stop-motion"@,
            Technique::Free => "Libre"@,
        }
    }

    /// The words by which a technique is named in a roster cell.
    pub fn keyword(self) -> (words: &'static str)
        ensures
            words@ == self.spec_keyword(),
    {
        match self {
            Technique::DigitalTwoDimensional => "2D digitale",
            Technique::TraditionalTwoDimensional => "2D traditionnel",
            Technique::ThreeDimensional => "3D",
            Technique::Rostrum => "banc-titre",
            Technique::StopMotion => "Stop-motion",
            Technique::Free => "Libre",
        }
    }

    /// The techniques in the order in which a cell is searched for them.
    pub open spec fn spec_all() -> Seq<Technique> {
        seq![
            Technique::DigitalTwoDimensional,
            Technique::TraditionalTwoDimensional,
            Technique::ThreeDimensional,
            Technique::Rostrum,
            Technique::StopMotion,
            Technique::Free,
        ]
    }

    /// The techniques in the order in which a cell is searched for them.
    pub fn all() -> (order: [Technique; 6])
        ensures
            order@ == Technique::spec_all(),
    {
        let order = [
            Technique::DigitalTwoDimensional,
            Technique::TraditionalTwoDimensional,
            Technique::ThreeDimensional,
            Technique::Rostrum,
            Technique::StopMotion,
            Technique::Free,
        ];
        assert(order@ =~= Technique::spec_all());
        order
    }
}

/// The techniques among the first `n` of the search order that a cell names.
pub open spec fn decoded_upto(text: Seq<char>, n: int) -> Seq<Technique>
    decreases n,
{
    if n <= 0 {
        Seq::empty()
    } else {
        let technique = Technique::spec_all()[n - 1];
        if occurs_in(technique.spec_keyword(), text) {
            decoded_upto(text, n - 1).push(technique)
        } else {
            decoded_upto(text, n - 1)
        }
    }
}

/// The techniques that a cell names: each one whose words stand in the
/// cell, in the search order.
pub open spec fn spec_decode_techniques(text: Seq<char>) -> Seq<Technique> {
    decoded_upto(text, 6)
}

/// Decodes the techniques that a roster cell names.
pub fn decode_techniques(text: &str) -> (techniques: Vec<Technique>)
    ensures
        techniques@ == spec_decode_techniques(text@),
{
    let order = Technique::all();
    let mut techniques: Vec<Technique> = Vec::new();
    let mut n: usize = 0;
    while n < 6
        invariant
            n <= 6,
            order@ == Technique::spec_all(),
            techniques@ == decoded_upto(text@, n as int),
        decreases 6 - n,
    {
        let technique = order[n];
        if contains_text(text, technique.keyword()) {
            techniques.push(technique);
        }
        n += 1;
    }
    techniques
}

/// What decoding gives does not depend on where in the cell the words
/// stand: a technique is decoded exactly when its words stand in the cell,
/// and the decoded techniques follow the search order, none twice.
pub proof fn lemma_decode_techniques(text: Seq<char>)
    ensures
        forall|t: Technique|
            spec_decode_techniques(text).contains(t) <==> occurs_in(t.spec_keyword(), text),
        forall|i: int, j: int|
            0 <= i < j < spec_decode_techniques(text).len() ==> spec_decode_techniques(
                text,
            )[i].spec_code() < spec_decode_techniques(text)[j].spec_code(),
{
    lemma_decoded_upto(text, 6);
    assert forall|t: Technique|
        spec_decode_techniques(text).contains(t) <==> occurs_in(t.spec_keyword(), text) by {
        assert(Technique::spec_all()[t.spec_code() as int] == t);
    }
}

/// What `decoded_upto` holds: the named techniques below place `n`, rising.
proof fn lemma_decoded_upto(text: Seq<char>, n: int)
    requires
        0 <= n <= 6,
    ensures
        forall|i: int|
            0 <= i < decoded_upto(text, n).len() ==> {
                let t = #[trigger] decoded_upto(text, n)[i];
                t.spec_code() < n && occurs_in(t.spec_keyword(), text)
            },
        forall|i: int, j: int|
            0 <= i < j < decoded_upto(text, n).len() ==> decoded_upto(text, n)[i].spec_code()
                < decoded_upto(text, n)[j].spec_code(),
        forall|k: int|
            0 <= k < n && occurs_in(Technique::spec_all()[k].spec_keyword(), text)
                ==> decoded_upto(text, n).contains(#[trigger] Technique::spec_all()[k]),
    decreases n,
{
    if n > 0 {
        lemma_decoded_upto(text, n - 1);
        let before = decoded_upto(text, n - 1);
        let now = decoded_upto(text, n);
        let technique = Technique::spec_all()[n - 1];
        assert(technique.spec_code() == n - 1);
        assert forall|k: int|
            0 <= k < n && occurs_in(
                Technique::spec_all()[k].spec_keyword(),
                text,
            ) implies now.contains(#[trigger] Technique::spec_all()[k]) by {
            if k < n - 1 {
                let t = Technique::spec_all()[k];
                assert(before.contains(t));
                let i = choose|i: int| 0 <= i < before.len() && before[i] == t;
                assert(now[i] == t);
            } else {
                assert(now[before.len() as int] == technique);
            }
        }
    }
}

/// Whether a character is white space, as `char::is_whitespace` tells.
pub uninterp spec fn white_space(c: char) -> bool;

/// `char::is_whitespace`: the answer is a property of the character alone,
/// here called `white_space`.
pub assume_specification[ char::is_whitespace ](c: char) -> (blank: bool)
    ensures
        blank == white_space(c),
;

/// The number of white-space characters that a text begins with.
pub open spec fn leading_blanks(text: Seq<char>) -> int
    decreases text.len(),
{
    if text.len() > 0 && white_space(text[0]) {
        1 + leading_blanks(text.drop_first())
    } else {
        0
    }
}

/// The place just after the last character of a text that is not white
/// space, and zero where there is none.
pub open spec fn ink_end(text: Seq<char>) -> int
    decreases text.len(),
{
    if text.len() == 0 {
        0
    } else if white_space(text.last()) {
        ink_end(text.drop_last())
    } else {
        text.len() as int
    }
}

/// A text without the white space that it begins and ends with.
pub open spec fn spec_trim(text: Seq<char>) -> Seq<char> {
    if leading_blanks(text) < ink_end(text) {
        text.subrange(leading_blanks(text), ink_end(text))
    } else {
        Seq::empty()
    }
}

/// What the two ends of a trimmed text are: all before the first is white
/// space and the first is not; all from the second on is white space and what
/// stands just before it is not.
pub proof fn lemma_trim_ends(text: Seq<char>)
    ensures
        0 <= leading_blanks(text) <= text.len(),
        0 <= ink_end(text) <= text.len(),
        forall|j: int| 0 <= j < leading_blanks(text) ==> white_space(#[trigger] text[j]),
        leading_blanks(text) < text.len() ==> !white_space(text[leading_blanks(text)]),
        forall|j: int| ink_end(text) <= j < text.len() ==> white_space(#[trigger] text[j]),
        0 < ink_end(text) ==> !white_space(text[ink_end(text) - 1]),
        leading_blanks(text) < text.len() <==> 0 < ink_end(text),
        leading_blanks(text) < text.len() ==> leading_blanks(text) < ink_end(text),
    decreases text.len(),
{
    if text.len() > 0 {
        let tail = text.drop_first();
        let front = text.drop_last();
        lemma_trim_ends(tail);
        lemma_trim_ends(front);
        if white_space(text[0]) {
            assert forall|j: int| 0 <= j < leading_blanks(text) implies white_space(
                #[trigger] text[j],
            ) by {
                if j > 0 {
                    assert(tail[j - 1] == text[j]);
                }
            }
            if leading_blanks(text) < text.len() {
                assert(tail[leading_blanks(tail)] == text[leading_blanks(text)]);
            }
        }
        if white_space(text.last()) {
            assert forall|j: int| ink_end(text) <= j < text.len() implies white_space(
                #[trigger] text[j],
            ) by {
                if j < text.len() - 1 {
                    assert(front[j] == text[j]);
                }
            }
            if 0 < ink_end(text) {
                assert(front[ink_end(front) - 1] == text[ink_end(text) - 1]);
            }
        }
        let a = leading_blanks(text);
        let b = ink_end(text);
        if a < text.len() && b <= a {
            assert(white_space(text[a]));
        }
        if a == text.len() && 0 < b {
            assert(white_space(text[b - 1]));
        }
    }
}

/// One more character at the end of a text: the white space it begins with
/// grows only where the text was all white space and the character is too.
proof fn lemma_leading_blanks_push(text: Seq<char>, c: char)
    ensures
        0 <= leading_blanks(text) <= text.len(),
        leading_blanks(text.push(c)) == if leading_blanks(text) < text.len() {
            leading_blanks(text)
        } else if white_space(c) {
            text.len() as int + 1
        } else {
            text.len() as int
        },
    decreases text.len(),
{
    let more = text.push(c);
    if text.len() == 0 {
        assert(more.drop_first() =~= Seq::<char>::empty());
        assert(leading_blanks(more.drop_first()) == 0);
        assert(leading_blanks(text) == 0);
    } else {
        lemma_leading_blanks_push(text.drop_first(), c);
        assert(more.drop_first() =~= text.drop_first().push(c));
        assert(more[0] == text[0]);
    }
}

/// Strips the white space that a roster cell begins and ends with.
pub fn trim_field(text: &str) -> (trimmed: String)
    ensures
        trimmed@ == spec_trim(text@),
{
    let length = text.unicode_len();
    let mut start: usize = 0;
    let mut end: usize = 0;
    let mut i: usize = 0;
    for c in it: text.chars()
        invariant
            i == it.index(),
            it.seq() == text@,
            i <= length == text@.len(),
            start == leading_blanks(text@.take(i as int)),
            end == ink_end(text@.take(i as int)),
    {
        proof {
            assert(text@.take(i + 1) =~= text@.take(i as int).push(c));
            assert(text@.take(i + 1).drop_last() =~= text@.take(i as int));
            lemma_leading_blanks_push(text@.take(i as int), c);
        }
        if c.is_whitespace() {
            if start == i {
                start = i + 1;
            }
        } else {
            end = i + 1;
        }
        i += 1;
    }
    proof {
        assert(text@.take(i as int) =~= text@);
        lemma_trim_ends(text@);
    }
    if start < end {
        String::from_str(text.substring_char(start, end))
    } else {
        String::new()
    }
}

impl Location {
    /// The location that a label of the roster stands for.
    pub open spec fn spec_from_label(label: Seq<char>) -> Option<Location> {
        if label == "Présentiel"@ {
            Some(Location::OnSite)
        } else if label == "En ligne"@ {
            Some(Location::Remote)
        } else {
            None
        }
    }

    /// Decodes the location that a roster cell holds. The cell must hold one
    /// of the two labels to the letter.
    pub fn from_label(label: &str) -> (location: Option<Location>)
        ensures
            location == Location::spec_from_label(label@),
    {
        if compare_text(label, "Présentiel") == Rank::Same {
            Some(Location::OnSite)
        } else if compare_text(label, "En ligne") == Rank::Same {
            Some(Location::Remote)
        } else {
            None
        }
    }
}

} // verus!
