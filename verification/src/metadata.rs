//! The metadata decoder: a parsed delimited record becomes a structured
//! value with a title, a url and any other fields, with a recovery
//! heuristic for records whose values hold unescaped `;`, `=` or `'`
//! characters.

use vstd::prelude::*;

use crate::error::EmptyMetadataError;
use crate::parse::{
    kv_views, parse_delimited_chars, parse_delimited_spec, parse_value_chars, parse_value_spec,
    ParseModel,
};
use crate::text::{
    chars_vec, count_char, count_char_in, eq_chars, find_sub, find_sub_in, lower_chars, lower_seq,
    string_from_chars, subvec,
};

verus! {

/// Model of a decoded metadata record.
pub ghost struct MetaModel {
    /// The title of the currently playing track, from `StreamTitle`.
    pub title: Option<Seq<char>>,
    /// A URL associated with the stream, from `StreamUrl`.
    pub url: Option<Seq<char>>,
    /// Any other fields, in order of first appearance.
    pub custom: Seq<(Seq<char>, Seq<char>)>,
}

/// The reserved key naming the track title, lower-cased.
pub open spec fn title_key() -> Seq<char> {
    seq!['s', 't', 'r', 'e', 'a', 'm', 't', 'i', 't', 'l', 'e']
}

/// The reserved key naming the stream url, lower-cased.
pub open spec fn url_key() -> Seq<char> {
    seq!['s', 't', 'r', 'e', 'a', 'm', 'u', 'r', 'l']
}

/// The raw-text marker at which a title field starts.
pub open spec fn title_marker() -> Seq<char> {
    title_key().push('=')
}

/// The raw-text marker at which a url field starts.
pub open spec fn url_marker() -> Seq<char> {
    url_key().push('=')
}

/// The value of the last entry of `m` whose key, lower-cased, is `k`.
pub open spec fn value_of_key(m: Seq<(Seq<char>, Seq<char>)>, k: Seq<char>) -> Option<Seq<char>>
    decreases m.len(),
{
    if m.len() == 0 {
        None
    } else if lower_seq(m.last().0) == k {
        Some(m.last().1)
    } else {
        value_of_key(m.drop_last(), k)
    }
}

/// Whether an entry belongs to the custom fields: its key is neither
/// reserved key.
pub open spec fn is_custom_entry(e: (Seq<char>, Seq<char>)) -> bool {
    lower_seq(e.0) != title_key() && lower_seq(e.0) != url_key()
}

/// The entries of `m` that belong to the custom fields, in order.
pub open spec fn custom_of_map(m: Seq<(Seq<char>, Seq<char>)>) -> Seq<(Seq<char>, Seq<char>)>
    decreases m.len(),
{
    if m.len() == 0 {
        Seq::empty()
    } else {
        custom_of_map(m.drop_last()) + if is_custom_entry(m.last()) {
            seq![m.last()]
        } else {
            Seq::<(Seq<char>, Seq<char>)>::empty()
        }
    }
}

/// The record obtained from the parsed mapping alone, before any recovery.
pub open spec fn naive_model(pm: ParseModel) -> MetaModel {
    MetaModel {
        title: value_of_key(pm.map, title_key()),
        url: value_of_key(pm.map, url_key()),
        custom: custom_of_map(pm.map),
    }
}

/// Whether the recovery heuristic runs: some element was malformed or some
/// stray key was found, and either the raw text holds more `;` than the
/// parse produced fields, or some value lacked its quotes.
pub open spec fn needs_recovery(s: Seq<char>, pm: ParseModel) -> bool {
    (pm.errors || custom_of_map(pm.map).len() > 0) && (count_char(s, ';') > pm.map.len()
        || pm.missing)
}

/// The record after recovery: the raw text, lower-cased, is scanned for the
/// two reserved markers; each found field is re-extracted from the raw text,
/// running from its marker up to the start of the other marker, or to the
/// end of the text. Custom fields are never touched.
pub open spec fn recovered_model(s: Seq<char>, naive: MetaModel) -> MetaModel {
    let low = lower_seq(s);
    let ti = find_sub(low, title_marker());
    let ui = find_sub(low, url_marker());
    match (ti, ui) {
        (Some(t), Some(u)) => if t < u {
            MetaModel {
                title: parse_value_spec(s.subrange(t, u)),
                url: parse_value_spec(s.skip(u)),
                custom: naive.custom,
            }
        } else {
            MetaModel {
                title: parse_value_spec(s.skip(t)),
                url: parse_value_spec(s.subrange(u, t)),
                custom: naive.custom,
            }
        },
        (Some(t), None) => MetaModel {
            title: parse_value_spec(s.skip(t)),
            url: naive.url,
            custom: naive.custom,
        },
        (None, Some(u)) => MetaModel {
            title: naive.title,
            url: parse_value_spec(s.skip(u)),
            custom: naive.custom,
        },
        (None, None) => naive,
    }
}

/// What decoding the record text `s` yields: `None` when the parsed mapping
/// is empty (the "empty metadata" failure), otherwise the naive record,
/// after recovery where [`needs_recovery`] holds.
pub open spec fn decode_spec(s: Seq<char>) -> Option<MetaModel> {
    let pm = parse_delimited_spec(s);
    if pm.map.len() == 0 {
        None
    } else {
        let naive = naive_model(pm);
        if needs_recovery(s, pm) {
            Some(recovered_model(s, naive))
        } else {
            Some(naive)
        }
    }
}

/// Metadata contained within a stream.
#[derive(Debug, Clone, PartialEq, Eq)]
pub struct IcyMetadata {
    stream_title: Option<String>,
    stream_url: Option<String>,
    custom: Vec<(String, String)>,
}

/// The model of an exec metadata record.
pub closed spec fn md_model(m: IcyMetadata) -> MetaModel {
    MetaModel {
        title: match m.stream_title {
            Some(s) => Some(s@),
            None => None,
        },
        url: match m.stream_url {
            Some(s) => Some(s@),
            None => None,
        },
        custom: kv_views(m.custom@),
    }
}

impl core::default::Default for IcyMetadata {
    /// The empty record: no title, no url, no custom fields.
    fn default() -> (r: Self)
        ensures
            md_model(r) == (MetaModel {
                title: None::<Seq<char>>,
                url: None::<Seq<char>>,
                custom: Seq::<(Seq<char>, Seq<char>)>::empty(),
            }),
    {
        let r = IcyMetadata { stream_title: None, stream_url: None, custom: Vec::new() };
        proof {
            assert(kv_views(r.custom@) =~= Seq::<(Seq<char>, Seq<char>)>::empty());
        }
        r
    }
}

impl IcyMetadata {
    /// The title of the currently playing track.
    /// Maps to the `StreamTitle` metadata value.
    pub fn stream_title(&self) -> (r: Option<&str>)
        ensures
            match (r, md_model(*self).title) {
                (Some(s), Some(t)) => s@ == t,
                (None, None) => true,
                _ => false,
            },
    {
        match &self.stream_title {
            Some(s) => Some(s.as_str()),
            None => None,
        }
    }

    /// This could be an album art URL, an image URL for the stream itself,
    /// or some other information. Maps to the `StreamUrl` metadata value.
    pub fn stream_url(&self) -> (r: Option<&str>)
        ensures
            match (r, md_model(*self).url) {
                (Some(s), Some(t)) => s@ == t,
                (None, None) => true,
                _ => false,
            },
    {
        match &self.stream_url {
            Some(s) => Some(s.as_str()),
            None => None,
        }
    }

    /// Any additional fields found in the metadata, in order of first
    /// appearance, keys unique.
    pub fn custom_fields(&self) -> (r: &Vec<(String, String)>)
        ensures
            kv_views(r@) == md_model(*self).custom,
    {
        &self.custom
    }

    /// Decodes a metadata record given as characters.
    pub fn parse_chars(v: &Vec<char>) -> (r: Result<IcyMetadata, EmptyMetadataError>)
        ensures
            match r {
                Ok(md) => decode_spec(v@) == Some(md_model(md)),
                Err(e) => decode_spec(v@) == None::<MetaModel> && e.0@ == v@,
            },
    {
        let pr = parse_delimited_chars(v);
        let ghost pm = parse_delimited_spec(v@);
        if pr.map.len() == 0 {
            return Err(EmptyMetadataError(string_from_chars(v)));
        }
        let title_pat: Vec<char> = vec!['s', 't', 'r', 'e', 'a', 'm', 't', 'i', 't', 'l', 'e'];
        let url_pat: Vec<char> = vec!['s', 't', 'r', 'e', 'a', 'm', 'u', 'r', 'l'];
        proof {
            assert(title_pat@ =~= title_key());
            assert(url_pat@ =~= url_key());
        }
        let mut stream_title: Option<String> = None;
        let mut stream_url: Option<String> = None;
        let mut custom: Vec<(String, String)> = Vec::new();
        let ghost mm = pm.map;
        let n = pr.map.len();
        let mut i: usize = 0;
        proof {
            assert(mm.take(0) =~= Seq::<(Seq<char>, Seq<char>)>::empty());
            assert(kv_views(custom@) =~= Seq::<(Seq<char>, Seq<char>)>::empty());
        }
        while i < n
            invariant
                n == pr.map@.len(),
                i <= n,
                kv_views(pr.map@) == mm,
                title_pat@ == title_key(),
                url_pat@ == url_key(),
                match (stream_title, value_of_key(mm.take(i as int), title_key())) {
                    (Some(a), Some(b)) => a@ == b,
                    (None, None) => true,
                    _ => false,
                },
                match (stream_url, value_of_key(mm.take(i as int), url_key())) {
                    (Some(a), Some(b)) => a@ == b,
                    (None, None) => true,
                    _ => false,
                },
                kv_views(custom@) == custom_of_map(mm.take(i as int)),
            decreases n - i,
        {
            proof {
                assert(mm.take(i + 1).drop_last() =~= mm.take(i as int));
                assert(mm.take(i + 1).last() == mm[i as int]);
                assert(mm[i as int] == (pr.map@[i as int].0@, pr.map@[i as int].1@));
            }
            let key_chars = chars_vec(pr.map[i].0.as_str());
            let low_key = lower_chars(&key_chars);
            let value = pr.map[i].1.clone();
            if eq_chars(&low_key, &title_pat) {
                stream_title = Some(value);
            } else if eq_chars(&low_key, &url_pat) {
                stream_url = Some(value);
            } else {
                let key = pr.map[i].0.clone();
                let ghost old_custom = kv_views(custom@);
                custom.push((key, value));
                proof {
                    assert(kv_views(custom@) =~= old_custom + seq![mm[i as int]]);
                }
            }
            proof {
                assert(kv_views(custom@) =~= custom_of_map(mm.take(i + 1)));
            }
            i += 1;
        }
        proof {
            assert(mm.take(n as int) =~= mm);
        }
        let stray_values_found = custom.len() > 0;
        let mut md = IcyMetadata { stream_title, stream_url, custom };
        if pr.errors_found || stray_values_found {
            let semis = count_char_in(v, ';');
            if semis > n || pr.missing_quotes_found {
                handle_unescaped_values_chars(v, &mut md, &title_pat, &url_pat);
                return Ok(md);
            }
        }
        proof {
            assert(!needs_recovery(v@, pm));
        }
        Ok(md)
    }

    /// Decodes a metadata record: the text is parsed as a delimited record;
    /// an empty mapping is the "empty metadata" failure, carrying the text;
    /// otherwise `StreamTitle` and `StreamUrl` entries (keys matched without
    /// regard to ASCII case) fill the title and url, any other entry joins
    /// the custom fields, and ambiguous quoting is repaired by re-scanning
    /// the raw text for the two reserved markers.
    pub fn parse_metadata(s: &str) -> (r: Result<IcyMetadata, EmptyMetadataError>)
        ensures
            match r {
                Ok(md) => decode_spec(s@) == Some(md_model(md)),
                Err(e) => decode_spec(s@) == None::<MetaModel> && e.0@ == s@,
            },
    {
        let v = chars_vec(s);
        Self::parse_chars(&v)
    }
}

impl core::str::FromStr for IcyMetadata {
    type Err = EmptyMetadataError;

    fn from_str(s: &str) -> Result<Self, Self::Err> {
        IcyMetadata::parse_metadata(s)
    }
}

/// Re-extracts the title and url fields from the raw text `v` when the
/// naive parse is suspect: each reserved marker found in the lower-cased
/// text starts that field's raw segment, which runs to the start of the
/// other marker or to the end of the text.
fn handle_unescaped_values_chars(
    v: &Vec<char>,
    md: &mut IcyMetadata,
    title_pat: &Vec<char>,
    url_pat: &Vec<char>,
)
    requires
        title_pat@ == title_key(),
        url_pat@ == url_key(),
    ensures
        md_model(*final (md)) == recovered_model(v@, md_model(*old(md))),
{
    let low = lower_chars(v);
    let mut tm: Vec<char> = Vec::new();
    let mut um: Vec<char> = Vec::new();
    let mut k: usize = 0;
    while k < title_pat.len()
        invariant
            k <= title_pat@.len(),
            tm@ == title_pat@.take(k as int),
        decreases title_pat@.len() - k,
    {
        tm.push(title_pat[k]);
        k += 1;
        proof {
            assert(tm@ =~= title_pat@.take(k as int));
        }
    }
    tm.push('=');
    let mut k2: usize = 0;
    while k2 < url_pat.len()
        invariant
            k2 <= url_pat@.len(),
            um@ == url_pat@.take(k2 as int),
        decreases url_pat@.len() - k2,
    {
        um.push(url_pat[k2]);
        k2 += 1;
        proof {
            assert(um@ =~= url_pat@.take(k2 as int));
        }
    }
    um.push('=');
    proof {
        assert(title_pat@.take(title_pat@.len() as int) =~= title_pat@);
        assert(url_pat@.take(url_pat@.len() as int) =~= url_pat@);
        assert(tm@ =~= title_marker());
        assert(um@ =~= url_marker());
    }
    let ti = find_sub_in(&low, &tm);
    let ui = find_sub_in(&low, &um);
    let n = v.len();
    proof {
        assert(low@.len() == v@.len());
        crate::text::lemma_find_sub_char(low@, tm@);
        crate::text::lemma_find_sub_char(low@, um@);
    }
    match (ti, ui) {
        (Some(t), Some(u)) => {
            if t < u {
                let title_seg = subvec(v, t, u);
                let url_seg = subvec(v, u, n);
                proof {
                    assert(v@.subrange(u as int, n as int) =~= v@.skip(u as int));
                }
                md.stream_title = parse_value_chars(&title_seg);
                md.stream_url = parse_value_chars(&url_seg);
            } else {
                let title_seg = subvec(v, t, n);
                let url_seg = subvec(v, u, t);
                proof {
                    assert(v@.subrange(t as int, n as int) =~= v@.skip(t as int));
                }
                md.stream_title = parse_value_chars(&title_seg);
                md.stream_url = parse_value_chars(&url_seg);
            }
        },
        (Some(t), None) => {
            let title_seg = subvec(v, t, n);
            proof {
                assert(v@.subrange(t as int, n as int) =~= v@.skip(t as int));
            }
            md.stream_title = parse_value_chars(&title_seg);
        },
        (None, Some(u)) => {
            let url_seg = subvec(v, u, n);
            proof {
                assert(v@.subrange(u as int, n as int) =~= v@.skip(u as int));
            }
            md.stream_url = parse_value_chars(&url_seg);
        },
        (None, None) => {},
    }
}

} // verus!
