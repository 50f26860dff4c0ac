//! Name filtering for export: matching template names against a
//! user-supplied regular expression.
//!
//! The expression language itself lives in the `regex` crate; this
//! module states only that compiling depends on the pattern text alone
//! and matching on the pattern and the subject text alone.

use vstd::prelude::*;
use crate::errors::TplError;

verus! {

/// Whether `regex::Regex::new` accepts `pattern`.
pub uninterp spec fn regex_valid(pattern: Seq<char>) -> bool;

/// Whether the compiled `pattern` matches somewhere inside `text`.
pub uninterp spec fn regex_is_match(pattern: Seq<char>, text: Seq<char>) -> bool;

/// Declares `regex::Error`, the error `regex::Regex::new` reports for
/// a pattern it does not accept; it is carried opaquely and mapped to
/// `InvalidPattern`.
#[verifier::external_type_specification]
#[verifier::external_body]
pub struct ExRegexError(regex::Error);

/// Relies on `regex::Regex::new` and `regex::Regex::is_match`:
/// compiling succeeds for exactly the patterns the crate accepts, a
/// function of the pattern text alone, and whether the compiled
/// pattern matches a text is a function of pattern and text alone.
#[verifier::external_body]
fn regex_match(pattern: &str, text: &str) -> (r: Result<bool, regex::Error>)
    ensures
        r is Ok <==> regex_valid(pattern@),
        r matches Ok(b) ==> b == regex_is_match(pattern@, text@),
{
    match regex::Regex::new(pattern) {
        Ok(re) => Ok(re.is_match(text)),
        Err(e) => Err(e),
    }
}

/// The names among `ns` from index `i` on that the pattern matches,
/// in order.
pub open spec fn matching_names(pattern: Seq<char>, ns: Seq<Seq<char>>, i: int) -> Seq<Seq<char>>
    decreases ns.len() - i,
{
    if i < 0 || i >= ns.len() {
        seq![]
    } else if regex_is_match(pattern, ns[i]) {
        seq![ns[i]] + matching_names(pattern, ns, i + 1)
    } else {
        matching_names(pattern, ns, i + 1)
    }
}

/// The template names that `pattern` selects for export, in listing
/// order.  Reports `InvalidPattern` exactly when the pattern does not
/// compile; an empty selection is not an error.
pub fn select_templates(pattern: &String, names: &Vec<String>) -> (r: Result<
    Vec<String>,
    TplError,
>)
    ensures
        match r {
            Ok(sel) => regex_valid(pattern@) && sel@.map_values(|s: String| s@)
                == matching_names(pattern@, names@.map_values(|s: String| s@), 0),
            Err(e) => e == TplError::InvalidPattern && !regex_valid(pattern@),
        },
{
    let probe = String::new();
    if let Err(_) = regex_match(pattern.as_str(), probe.as_str()) {
        return Err(TplError::InvalidPattern);
    }
    let ghost ns = names@.map_values(|s: String| s@);
    let mut sel: Vec<String> = Vec::new();
    proof {
        assert(sel@.map_values(|s: String| s@) =~= Seq::<Seq<char>>::empty());
        assert(Seq::<Seq<char>>::empty() + matching_names(pattern@, ns, 0) =~= matching_names(
            pattern@,
            ns,
            0,
        ));
    }
    let mut i: usize = 0;
    while i < names.len()
        invariant
            i <= names@.len(),
            regex_valid(pattern@),
            ns == names@.map_values(|s: String| s@),
            ns.len() == names@.len(),
            matching_names(pattern@, ns, 0) == sel@.map_values(|s: String| s@)
                + matching_names(pattern@, ns, i as int),
        decreases names@.len() - i,
    {
        let matched = match regex_match(pattern.as_str(), names[i].as_str()) {
            Ok(b) => b,
            Err(_) => {
                proof {
                    assert(false);
                }
                false
            },
        };
        proof {
            assert(ns[i as int] == names@[i as int]@);
        }
        if matched {
            let ghost prev = sel@;
            sel.push(names[i].clone());
            proof {
                assert(sel@.map_values(|s: String| s@) =~= prev.map_values(|s: String| s@).push(
                    ns[i as int],
                ));
                assert(prev.map_values(|s: String| s@) + (seq![ns[i as int]] + matching_names(
                    pattern@,
                    ns,
                    i as int + 1,
                )) =~= sel@.map_values(|s: String| s@) + matching_names(
                    pattern@,
                    ns,
                    i as int + 1,
                ));
            }
        }
        i = i + 1;
    }
    proof {
        assert(matching_names(pattern@, ns, 0) =~= sel@.map_values(|s: String| s@));
    }
    Ok(sel)
}

} // verus!
