//! The delimited-record parser: `Key='Value';Key2='Value2';...` text blobs
//! are turned into an ordered key/value mapping, with flags for malformed
//! elements and for values that lack their surrounding quotes.

use vstd::prelude::*;

use crate::text::{
    find_char, first_index_of, split_chars, split_on, string_from_chars, subvec, trim_chars,
    trim_spec, views_of,
};

verus! {

/// Model of one parsed `key=value` element.
pub ghost struct KvModel {
    pub key: Seq<char>,
    pub value: Seq<char>,
    pub missing_quotes: bool,
}

/// What parsing one element of a delimited record yields: `None` for an
/// element without `=`; otherwise the trimmed key and value, the value
/// stripped of matching surrounding single quotes, with a flag when those
/// quotes were absent.
pub open spec fn parse_kv_spec(seg: Seq<char>) -> Option<KvModel> {
    let i = first_index_of(seg, '=');
    if i == seg.len() {
        None
    } else {
        let key = trim_spec(seg.take(i));
        let raw = trim_spec(seg.skip(i + 1));
        if raw.len() > 1 && raw[0] == '\'' && raw.last() == '\'' {
            Some(KvModel { key, value: raw.subrange(1, raw.len() - 1), missing_quotes: false })
        } else {
            Some(KvModel { key, value: raw, missing_quotes: true })
        }
    }
}

/// The index of the first entry of `m` with key `k`, or `m.len()` if absent.
pub open spec fn assoc_key_index(m: Seq<(Seq<char>, Seq<char>)>, k: Seq<char>) -> int
    decreases m.len(),
{
    if m.len() == 0 {
        0
    } else if m[0].0 == k {
        0
    } else {
        1 + assoc_key_index(m.drop_first(), k)
    }
}

/// Whether `m` holds an entry with key `k`.
pub open spec fn assoc_has_key(m: Seq<(Seq<char>, Seq<char>)>, k: Seq<char>) -> bool {
    assoc_key_index(m, k) < m.len()
}

/// `m` with `k` bound to `v`: an existing entry for `k` is overwritten in
/// place, a new key is appended at the end.
pub open spec fn assoc_set(m: Seq<(Seq<char>, Seq<char>)>, k: Seq<char>, v: Seq<char>) -> Seq<
    (Seq<char>, Seq<char>),
> {
    if assoc_has_key(m, k) {
        m.update(assoc_key_index(m, k), (k, v))
    } else {
        m.push((k, v))
    }
}

proof fn lemma_assoc_index_from_scan(m: Seq<(Seq<char>, Seq<char>)>, k: Seq<char>, j: int)
    requires
        0 <= j <= m.len(),
        forall|t: int| 0 <= t < j ==> m[t].0 != k,
        j < m.len() ==> m[j].0 == k,
    ensures
        assoc_key_index(m, k) == j,
    decreases j,
{
    if j > 0 {
        lemma_assoc_index_from_scan(m.drop_first(), k, j - 1);
    }
}

/// Model of a parsed delimited record.
pub ghost struct ParseModel {
    /// The key/value entries, in order of first appearance; keys unique,
    /// a later duplicate key overwriting the earlier value.
    pub map: Seq<(Seq<char>, Seq<char>)>,
    /// Whether some element lacked the `key=value` shape.
    pub errors: bool,
    /// Whether some value lacked its surrounding quotes.
    pub missing: bool,
}

/// Folding the parsed elements of `segs`, in order, into a record model.
pub open spec fn parse_segments(segs: Seq<Seq<char>>) -> ParseModel
    decreases segs.len(),
{
    if segs.len() == 0 {
        ParseModel { map: Seq::empty(), errors: false, missing: false }
    } else {
        let prev = parse_segments(segs.drop_last());
        match parse_kv_spec(segs.last()) {
            Some(kv) => ParseModel {
                map: assoc_set(prev.map, kv.key, kv.value),
                errors: prev.errors,
                missing: prev.missing || kv.missing_quotes,
            },
            None => ParseModel { map: prev.map, errors: true, missing: prev.missing },
        }
    }
}

/// What parsing a whole delimited record yields: the input is trimmed,
/// split on `;`, and each element parsed in order.
pub open spec fn parse_delimited_spec(s: Seq<char>) -> ParseModel {
    parse_segments(split_on(trim_spec(s), ';'))
}

/// The views of an exec key/value vector.
pub open spec fn kv_views(m: Seq<(String, String)>) -> Seq<(Seq<char>, Seq<char>)> {
    m.map_values(|p: (String, String)| (p.0@, p.1@))
}

/// The outcome of parsing a delimited record.
pub struct ParseResult {
    /// The key/value entries, in order of first appearance, keys unique.
    pub map: Vec<(String, String)>,
    /// Whether some element lacked the `key=value` shape.
    pub errors_found: bool,
    /// Whether some value lacked its surrounding quotes.
    pub missing_quotes_found: bool,
}

/// Binds `key` to `value` in the ordered key/value vector `m`.
fn assoc_insert(m: &mut Vec<(String, String)>, key: String, value: String)
    ensures
        kv_views(final (m)@) == assoc_set(kv_views(old(m)@), key@, value@),
{
    let n = m.len();
    let mut j: usize = 0;
    while j < n
        invariant
            n == m@.len(),
            j <= n,
            m@ == old(m)@,
            forall|t: int| 0 <= t < j ==> kv_views(m@)[t].0 != key@,
        decreases n - j,
    {
        if m[j].0 == key {
            proof {
                lemma_assoc_index_from_scan(kv_views(m@), key@, j as int);
            }
            let ghost old_m = m@;
            m.set(j, (key, value));
            proof {
                assert(kv_views(m@) =~= assoc_set(kv_views(old_m), key@, value@));
            }
            return ;
        }
        j += 1;
    }
    proof {
        lemma_assoc_index_from_scan(kv_views(m@), key@, n as int);
    }
    let ghost old_m = m@;
    m.push((key, value));
    proof {
        assert(kv_views(m@) =~= assoc_set(kv_views(old_m), key@, value@));
    }
}

/// Parses one `key=value` element: the key and value around the first `=`,
/// both trimmed, matching surrounding single quotes stripped from the value;
/// the boolean flags a value that lacked those quotes. An element without
/// `=` yields `None`.
pub fn parse_key_value(seg: &Vec<char>) -> (r: (Option<(String, String)>, bool))
    ensures
        match (parse_kv_spec(seg@), r.0) {
            (Some(kv), Some(p)) => p.0@ == kv.key && p.1@ == kv.value && r.1 == kv.missing_quotes,
            (None, None) => r.1 == false,
            _ => false,
        },
{
    let n = seg.len();
    let i = find_char(seg, '=');
    if i == n {
        return (None, false);
    }
    let key = trim_chars(&subvec(seg, 0, i));
    let raw = trim_chars(&subvec(seg, i + 1, n));
    proof {
        assert(seg@.subrange(0, i as int) =~= seg@.take(i as int));
        assert(seg@.subrange(i + 1, n as int) =~= seg@.skip(i + 1));
    }
    let rn = raw.len();
    if rn > 1 && raw[0] == '\'' && raw[rn - 1] == '\'' {
        let value = subvec(&raw, 1, rn - 1);
        (Some((string_from_chars(&key), string_from_chars(&value))), false)
    } else {
        (Some((string_from_chars(&key), string_from_chars(&raw))), true)
    }
}

/// Parses a whole delimited record given as characters.
pub fn parse_delimited_chars(v: &Vec<char>) -> (r: ParseResult)
    ensures
        ({
            let pm = parse_delimited_spec(v@);
            kv_views(r.map@) == pm.map && r.errors_found == pm.errors && r.missing_quotes_found
                == pm.missing
        }),
{
    let trimmed = trim_chars(v);
    let segs = split_chars(&trimmed, ';');
    let ghost model_segs = views_of(segs@);
    let n = segs.len();
    let mut map: Vec<(String, String)> = Vec::new();
    let mut errors_found = false;
    let mut missing_quotes_found = false;
    let mut i: usize = 0;
    proof {
        assert(model_segs.take(0) =~= Seq::<Seq<char>>::empty());
    }
    while i < n
        invariant
            n == segs@.len(),
            i <= n,
            model_segs == views_of(segs@),
            ({
                let pm = parse_segments(model_segs.take(i as int));
                kv_views(map@) == pm.map && errors_found == pm.errors && missing_quotes_found
                    == pm.missing
            }),
        decreases n - i,
    {
        proof {
            assert(model_segs.take(i + 1).drop_last() =~= model_segs.take(i as int));
            assert(model_segs.take(i + 1).last() == model_segs[i as int]);
            assert(model_segs[i as int] == segs@[i as int]@);
        }
        let (kv, missing) = parse_key_value(&segs[i]);
        match kv {
            Some(p) => {
                assoc_insert(&mut map, p.0, p.1);
                if missing {
                    missing_quotes_found = true;
                }
            },
            None => {
                errors_found = true;
            },
        }
        i += 1;
    }
    proof {
        assert(model_segs.take(n as int) =~= model_segs);
    }
    ParseResult { map, errors_found, missing_quotes_found }
}

/// Parses a whole delimited record: the input is trimmed, split on `;`,
/// and each element parsed in order by [`parse_key_value`].
pub fn parse_delimited_string(s: &str) -> (r: ParseResult)
    ensures
        ({
            let pm = parse_delimited_spec(s@);
            kv_views(r.map@) == pm.map && r.errors_found == pm.errors && r.missing_quotes_found
                == pm.missing
        }),
{
    let v = crate::text::chars_vec(s);
    parse_delimited_chars(&v)
}

/// What extracting a value from a recovered raw segment yields: a single
/// trailing `;` is dropped, then the segment is parsed as `key=value`.
pub open spec fn parse_value_spec(seg: Seq<char>) -> Option<Seq<char>> {
    let s1 = if seg.len() > 0 && seg.last() == ';' {
        seg.drop_last()
    } else {
        seg
    };
    match parse_kv_spec(s1) {
        Some(kv) => Some(kv.value),
        None => None,
    }
}

/// Extracts the value of a raw `key='value'` segment, dropping a single
/// trailing `;` first; `None` if the segment has no `=`.
pub fn parse_value_chars(seg: &Vec<char>) -> (r: Option<String>)
    ensures
        match (parse_value_spec(seg@), r) {
            (Some(v), Some(s)) => s@ == v,
            (None, None) => true,
            _ => false,
        },
{
    let n = seg.len();
    let stripped: Vec<char> = if n > 0 && seg[n - 1] == ';' {
        let s1 = subvec(seg, 0, n - 1);
        proof {
            assert(seg@.subrange(0, n - 1) =~= seg@.drop_last());
        }
        s1
    } else {
        subvec(seg, 0, n)
    };
    proof {
        assert(seg@.subrange(0, n as int) =~= seg@);
    }
    let (kv, _) = parse_key_value(&stripped);
    match kv {
        Some(p) => Some(p.1),
        None => None,
    }
}

/// Extracts the value of a raw `key='value'` segment of `s`, dropping a
/// single trailing `;` first; `None` if the segment has no `=`.
pub fn parse_value_if_valid(s: &str) -> (r: Option<String>)
    ensures
        match (parse_value_spec(s@), r) {
            (Some(v), Some(out)) => out@ == v,
            (None, None) => true,
            _ => false,
        },
{
    let v = crate::text::chars_vec(s);
    parse_value_chars(&v)
}

} // verus!
