//! What Unicode says of characters, as the standard library reports it.
//!
//! The tables behind these take pages, so beyond ASCII the results are named
//! rather than stated. The logic that uses them takes a result as an argument and
//! is exact about what it makes of it.

use vstd::prelude::*;

use crate::text;

verus! {

/// Whether Unicode calls `c` alphabetic or numeric.
pub uninterp spec fn unicode_alphanumeric(c: char) -> bool;

/// Whether Unicode calls `c` alphabetic.
pub uninterp spec fn unicode_alphabetic(c: char) -> bool;

/// The lowercase mapping of one character, which may be several.
pub uninterp spec fn unicode_lowercase(c: char) -> Seq<char>;

/// The lowercase form of a whole text, where a character's mapping may depend
/// on what stands around it.
pub uninterp spec fn unicode_lower_text(s: Seq<char>) -> Seq<char>;

/// A character of ASCII.
pub open spec fn is_ascii(c: char) -> bool {
    c as u32 <= 0x7f
}

/// A text of nothing but ASCII.
pub open spec fn all_ascii(s: Seq<char>) -> bool {
    forall|i: int| 0 <= i < s.len() ==> is_ascii(#[trigger] s[i])
}

/// Whether `c` is a letter or a number: in ASCII, a letter or a digit.
pub open spec fn alphanumeric(c: char) -> bool {
    if is_ascii(c) {
        text::is_alnum(c)
    } else {
        unicode_alphanumeric(c)
    }
}

/// Whether `c` is a letter.
pub open spec fn alphabetic(c: char) -> bool {
    if is_ascii(c) {
        text::is_letter(c)
    } else {
        unicode_alphabetic(c)
    }
}

/// The lowercase mapping of one character: in ASCII, a single one.
pub open spec fn lowercase(c: char) -> Seq<char> {
    if is_ascii(c) {
        seq![text::lower_char(c)]
    } else {
        unicode_lowercase(c)
    }
}

/// The lowercase form of a whole text: in ASCII, that of each character.
pub open spec fn lower_text(s: Seq<char>) -> Seq<char> {
    if all_ascii(s) {
        text::lower(s)
    } else {
        unicode_lower_text(s)
    }
}

/// `char::is_alphanumeric` depends on the character alone; what it says is
/// named. Of ASCII it says yes to the letters and the digits, and to nothing
/// else.
pub assume_specification[ char::is_alphanumeric ](c: char) -> (r: bool)
    ensures
        r == unicode_alphanumeric(c),
        is_ascii(c) ==> r == text::is_alnum(c),
;

/// `char::is_alphabetic` depends on the character alone; what it says is named.
/// Of ASCII it says yes to the letters, and to nothing else.
pub assume_specification[ char::is_alphabetic ](c: char) -> (r: bool)
    ensures
        r == unicode_alphabetic(c),
        is_ascii(c) ==> r == text::is_letter(c),
;

/// `str::to_lowercase` depends on the text alone; what it gives is named. In a
/// text of nothing but ASCII, the capitals are lowered and the rest is kept.
pub assume_specification[ str::to_lowercase ](s: &str) -> (r: String)
    ensures
        r@ == unicode_lower_text(s@),
        all_ascii(s@) ==> r@ == text::lower(s@),
;

/// `char::to_lowercase`, with its iterator collected: the mapping depends on the
/// character alone, and is named. A capital of ASCII is mapped to its small
/// letter, every other character of ASCII to itself.
#[verifier::external_body]
pub(crate) fn char_lowercase(c: char) -> (r: Vec<char>)
    ensures
        r@ == unicode_lowercase(c),
        is_ascii(c) ==> r@ == seq![text::lower_char(c)],
{
    c.to_lowercase().collect()
}

} // verus!
