//! Ticker sanitizing for the storage side of the system: instrument
//! tickers such as `SOL/USDC` become identifiers fit for per-instrument
//! storage object names.

use vstd::prelude::*;

use crate::codec::{push_char, str_chars};

verus! {

/// Whether a character counts as alphanumeric, as the Unicode tables
/// have it. Named for `char::is_alphanumeric`, whose result depends on
/// the character alone.
pub uninterp spec fn is_alphanumeric_char(c: char) -> bool;

/// Relies on char::is_alphanumeric: whether a character is alphanumeric
/// depends on the character alone.
pub assume_specification[ char::is_alphanumeric ](c: char) -> (r: bool)
    ensures
        r == is_alphanumeric_char(c),
;

/// The lowercase form of a text, as Unicode has it. Named for
/// `str::to_lowercase`, whose result depends on the characters alone.
pub uninterp spec fn lowercase_of(s: Seq<char>) -> Seq<char>;

/// Relies on str::to_lowercase: the result depends on the characters
/// alone, and an empty text stays empty.
#[verifier::external_body]
fn to_lowercase(s: &str) -> (r: String)
    ensures
        r@ == lowercase_of(s@),
        s@.len() == 0 ==> r@.len() == 0,
{
    s.to_lowercase()
}

/// The ticker with every character that is neither alphanumeric nor an
/// underscore replaced by an underscore.
pub open spec fn underscored(s: Seq<char>) -> Seq<char> {
    s.map_values(
        |c: char|
            if is_alphanumeric_char(c) || c == '_' {
                c
            } else {
                '_'
            },
    )
}

/// Sanitize an instrument ticker for use in storage object names: every
/// character outside alphanumerics and underscore becomes an
/// underscore, and the whole is lowercased.
pub fn sanitize_ticker(ticker: &str) -> (r: String)
    ensures
        r@ == lowercase_of(underscored(ticker@)),
{
    let chars = str_chars(ticker);
    let n = chars.len();
    let mut replaced = String::new();
    let mut i: usize = 0;
    while i < n
        invariant
            i <= n,
            n == ticker@.len(),
            chars@ == ticker@,
            replaced@ =~= underscored(ticker@).take(i as int),
        decreases n - i,
    {
        let c = chars[i];
        if c.is_alphanumeric() || c == '_' {
            push_char(&mut replaced, c);
        } else {
            push_char(&mut replaced, '_');
        }
        proof {
            assert(replaced@ =~= underscored(ticker@).take(i + 1));
        }
        i += 1;
    }
    proof {
        assert(replaced@ =~= underscored(ticker@));
    }
    to_lowercase(replaced.as_str())
}

} // verus!
