use vstd::prelude::*;
use vstd::string::*;

verus! {

/// Whether a character counts as numeric in the Unicode sense: the
/// Nd, Nl and No general categories.
pub uninterp spec fn is_numeric_char(c: char) -> bool;

/// Relies on `char::is_numeric`: true exactly for characters of the
/// numeric Unicode general categories, a property of the character
/// alone.
#[verifier::external_body]
fn char_is_numeric(c: char) -> (r: bool)
    ensures
        r == is_numeric_char(c),
{
    c.is_numeric()
}

/// Whether a directory name has the shape of a date folder: exactly
/// eight numeric characters.
#[verifier::loop_isolation(false)]
pub fn is_date_directory(name: &str) -> (r: bool)
    ensures
        r == (name@.len() == 8 && forall|i: int|
            0 <= i < name@.len() ==> is_numeric_char(#[trigger] name@[i])),
{
    let n = name.unicode_len();
    if n != 8 {
        return false;
    }
    let mut i: usize = 0;
    while i < n
        invariant
            0 <= i <= n,
            n == name@.len(),
            forall|j: int| 0 <= j < i ==> is_numeric_char(#[trigger] name@[j]),
        decreases n - i,
    {
        if !char_is_numeric(name.get_char(i)) {
            return false;
        }
        i = i + 1;
    }
    true
}

} // verus!
