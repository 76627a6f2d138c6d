//! Helpers for icy HTTP headers: interpreting header values. Fetching the
//! headers themselves is transport work and stays outside this library.

use vstd::prelude::*;

use crate::text::{
    chars_vec, eq_chars, lower_chars, lower_seq, split_chars, split_on, string_from_chars,
    trim_ascii_chars, trim_ascii_spec, views_of,
};

verus! {

/// Trait for requesting icy metadata from an HTTP request builder.
pub trait RequestIcyMetadata: Sized {
    /// Appends the `Icy-MetaData` header to the request's header map.
    fn request_icy_metadata(self) -> Self;
}

/// Whether a header value counts as true: `1`, or `true` or `yes` in any
/// ASCII case.
pub open spec fn str_to_bool_spec(s: Seq<char>) -> bool {
    s == seq!['1'] || lower_seq(s) == seq!['t', 'r', 'u', 'e'] || lower_seq(s) == seq![
        'y',
        'e',
        's',
    ]
}

/// Interprets a header value as a boolean: `1` is the typical true value,
/// but `true` and `yes` are accepted too, without regard to ASCII case.
pub fn str_to_bool(val: &str) -> (r: bool)
    ensures
        r == str_to_bool_spec(val@),
{
    let v = chars_vec(val);
    let low = lower_chars(&v);
    let one: Vec<char> = vec!['1'];
    let tru: Vec<char> = vec!['t', 'r', 'u', 'e'];
    let yes: Vec<char> = vec!['y', 'e', 's'];
    proof {
        assert(one@ =~= seq!['1']);
        assert(tru@ =~= seq!['t', 'r', 'u', 'e']);
        assert(yes@ =~= seq!['y', 'e', 's']);
    }
    if eq_chars(&v, &one) {
        return true;
    }
    if eq_chars(&low, &tru) || eq_chars(&low, &yes) {
        return true;
    }
    false
}

/// The comma-separated elements of `s`, each trimmed of ASCII white space.
pub open spec fn comma_separated_spec(s: Seq<char>) -> Seq<Seq<char>> {
    split_on(s, ',').map_values(|x: Seq<char>| trim_ascii_spec(x))
}

/// The views of a string vector.
pub open spec fn string_views(r: Seq<String>) -> Seq<Seq<char>> {
    r.map_values(|s: String| s@)
}

/// Splits a comma-separated header value into its elements, each trimmed of
/// ASCII white space.
pub fn comma_separated(val: String) -> (r: Vec<String>)
    ensures
        string_views(r@) == comma_separated_spec(val@),
{
    let v = chars_vec(val.as_str());
    let parts = split_chars(&v, ',');
    let n = parts.len();
    let mut r: Vec<String> = Vec::new();
    let mut j: usize = 0;
    while j < n
        invariant
            n == parts@.len(),
            j <= n,
            views_of(parts@) == split_on(val@, ','),
            string_views(r@) == comma_separated_spec(val@).take(j as int),
        decreases n - j,
    {
        let trimmed = trim_ascii_chars(&parts[j]);
        let ghost pre_r = r@;
        r.push(string_from_chars(&trimmed));
        j += 1;
        proof {
            assert(string_views(r@) =~= string_views(pre_r).push(trimmed@));
            assert(views_of(parts@)[j - 1] == parts@[j - 1]@);
            assert(split_on(val@, ',')[j - 1] == parts@[j - 1]@);
            assert(comma_separated_spec(val@).len() == split_on(val@, ',').len());
            assert(comma_separated_spec(val@)[j - 1] == trim_ascii_spec(split_on(val@, ',')[j - 1]));
            assert(string_views(r@) =~= comma_separated_spec(val@).take(j as int));
        }
    }
    proof {
        assert(comma_separated_spec(val@).take(n as int) =~= comma_separated_spec(val@));
    }
    r
}

} // verus!
