//! Character-level utilities shared by the metadata parser: whitespace
//! trimming, ASCII case folding, splitting and substring search, all
//! specified over `Seq<char>`.

use vstd::prelude::*;

verus! {

/// Whether `c` has the Unicode `White_Space` property, the set that
/// `str::trim` removes.
pub open spec fn is_ws_char(c: char) -> bool {
    let u = c as u32;
    u == 32 || (9 <= u && u <= 13) || u == 0x85 || u == 0xA0 || u == 0x1680 || (0x2000 <= u && u
        <= 0x200A) || u == 0x2028 || u == 0x2029 || u == 0x202F || u == 0x205F || u == 0x3000
}

/// Exec test for [`is_ws_char`].
pub fn is_ws(c: char) -> (r: bool)
    ensures
        r == is_ws_char(c),
{
    let u = c as u32;
    u == 32 || (9 <= u && u <= 13) || u == 0x85 || u == 0xA0 || u == 0x1680 || (0x2000 <= u && u
        <= 0x200A) || u == 0x2028 || u == 0x2029 || u == 0x202F || u == 0x205F || u == 0x3000
}

/// ASCII lower-casing of one character; other characters are unchanged.
pub open spec fn lower_char(c: char) -> char {
    if c == 'A' {
        'a'
    } else if c == 'B' {
        'b'
    } else if c == 'C' {
        'c'
    } else if c == 'D' {
        'd'
    } else if c == 'E' {
        'e'
    } else if c == 'F' {
        'f'
    } else if c == 'G' {
        'g'
    } else if c == 'H' {
        'h'
    } else if c == 'I' {
        'i'
    } else if c == 'J' {
        'j'
    } else if c == 'K' {
        'k'
    } else if c == 'L' {
        'l'
    } else if c == 'M' {
        'm'
    } else if c == 'N' {
        'n'
    } else if c == 'O' {
        'o'
    } else if c == 'P' {
        'p'
    } else if c == 'Q' {
        'q'
    } else if c == 'R' {
        'r'
    } else if c == 'S' {
        's'
    } else if c == 'T' {
        't'
    } else if c == 'U' {
        'u'
    } else if c == 'V' {
        'v'
    } else if c == 'W' {
        'w'
    } else if c == 'X' {
        'x'
    } else if c == 'Y' {
        'y'
    } else if c == 'Z' {
        'z'
    } else {
        c
    }
}

/// ASCII lower-casing of a character sequence.
pub open spec fn lower_seq(s: Seq<char>) -> Seq<char> {
    s.map_values(|c: char| lower_char(c))
}

/// Exec ASCII lower-casing of one character.
pub fn to_lower(c: char) -> (r: char)
    ensures
        r == lower_char(c),
{
    match c {
        'A' => 'a',
        'B' => 'b',
        'C' => 'c',
        'D' => 'd',
        'E' => 'e',
        'F' => 'f',
        'G' => 'g',
        'H' => 'h',
        'I' => 'i',
        'J' => 'j',
        'K' => 'k',
        'L' => 'l',
        'M' => 'm',
        'N' => 'n',
        'O' => 'o',
        'P' => 'p',
        'Q' => 'q',
        'R' => 'r',
        'S' => 's',
        'T' => 't',
        'U' => 'u',
        'V' => 'v',
        'W' => 'w',
        'X' => 'x',
        'Y' => 'y',
        'Z' => 'z',
        other => other,
    }
}

/// The characters of `s`, as a vector.
pub fn chars_vec(s: &str) -> (v: Vec<char>)
    ensures
        v@ == s@,
{
    let n = s.unicode_len();
    let mut v: Vec<char> = Vec::new();
    let mut i: usize = 0;
    while i < n
        invariant
            n == s@.len(),
            i <= n,
            v@ == s@.take(i as int),
        decreases n - i,
    {
        v.push(s.get_char(i));
        i += 1;
        proof {
            assert(v@ =~= s@.take(i as int));
        }
    }
    proof {
        assert(v@ =~= s@);
    }
    v
}

/// Relies on `String::push`: appends the character to the string.
#[verifier::external_body]
fn push_char(s: &mut String, c: char)
    ensures
        final (s)@ == old(s)@.push(c),
{
    s.push(c)
}

/// A `String` holding exactly the characters of `v`.
pub fn string_from_chars(v: &Vec<char>) -> (s: String)
    ensures
        s@ == v@,
{
    let mut s = String::new();
    let mut i: usize = 0;
    while i < v.len()
        invariant
            i <= v@.len(),
            s@ == v@.take(i as int),
        decreases v@.len() - i,
    {
        push_char(&mut s, v[i]);
        i += 1;
        proof {
            assert(s@ =~= v@.take(i as int));
        }
    }
    proof {
        assert(s@ =~= v@);
    }
    s
}

/// `s` without leading white space.
pub open spec fn trim_front(s: Seq<char>) -> Seq<char>
    decreases s.len(),
{
    if s.len() > 0 && is_ws_char(s[0]) {
        trim_front(s.drop_first())
    } else {
        s
    }
}

/// `s` without trailing white space.
pub open spec fn trim_back(s: Seq<char>) -> Seq<char>
    decreases s.len(),
{
    if s.len() > 0 && is_ws_char(s.last()) {
        trim_back(s.drop_last())
    } else {
        s
    }
}

/// `s` without leading and trailing white space, as `str::trim` yields it.
pub open spec fn trim_spec(s: Seq<char>) -> Seq<char> {
    trim_back(trim_front(s))
}

proof fn lemma_trim_front_skip(s: Seq<char>, k: int)
    requires
        0 <= k <= s.len(),
        forall|j: int| 0 <= j < k ==> is_ws_char(s[j]),
        k < s.len() ==> !is_ws_char(s[k]),
    ensures
        trim_front(s) == s.skip(k),
    decreases k,
{
    if k == 0 {
        assert(s.skip(0) =~= s);
    } else {
        assert(is_ws_char(s[0]));
        lemma_trim_front_skip(s.drop_first(), k - 1);
        assert(s.drop_first().skip(k - 1) =~= s.skip(k));
    }
}

proof fn lemma_trim_back_take(s: Seq<char>, k: int)
    requires
        0 <= k <= s.len(),
        forall|j: int| k <= j < s.len() ==> is_ws_char(s[j]),
        k > 0 ==> !is_ws_char(s[k - 1]),
    ensures
        trim_back(s) == s.take(k),
    decreases s.len() - k,
{
    if k == s.len() {
        assert(s.take(k) =~= s);
        if s.len() > 0 {
            assert(!is_ws_char(s.last()));
        }
    } else {
        assert(is_ws_char(s.last()));
        lemma_trim_back_take(s.drop_last(), k);
        assert(s.drop_last().take(k) =~= s.take(k));
    }
}

/// Exec trimming of a character vector, as `str::trim` performs it.
pub fn trim_chars(v: &Vec<char>) -> (r: Vec<char>)
    ensures
        r@ == trim_spec(v@),
{
    let n = v.len();
    let mut b: usize = 0;
    while b < n && is_ws(v[b])
        invariant
            n == v@.len(),
            b <= n,
            forall|j: int| 0 <= j < b ==> is_ws_char(v@[j]),
        decreases n - b,
    {
        b += 1;
    }
    let mut e: usize = n;
    while e > b && is_ws(v[e - 1])
        invariant
            n == v@.len(),
            b <= e <= n,
            forall|j: int| e <= j < n ==> is_ws_char(v@[j]),
        decreases e,
    {
        e -= 1;
    }
    proof {
        lemma_trim_front_skip(v@, b as int);
        lemma_trim_back_take(v@.skip(b as int), e - b);
    }
    let mut r: Vec<char> = Vec::new();
    let mut i: usize = b;
    while i < e
        invariant
            b <= i <= e <= v@.len(),
            r@ == v@.subrange(b as int, i as int),
        decreases e - i,
    {
        r.push(v[i]);
        i += 1;
        proof {
            assert(r@ =~= v@.subrange(b as int, i as int));
        }
    }
    proof {
        assert(r@ =~= v@.skip(b as int).take(e - b));
    }
    r
}

/// Exec ASCII lower-casing of a character vector.
pub fn lower_chars(v: &Vec<char>) -> (r: Vec<char>)
    ensures
        r@ == lower_seq(v@),
{
    let mut r: Vec<char> = Vec::new();
    let mut i: usize = 0;
    while i < v.len()
        invariant
            i <= v@.len(),
            r@ == lower_seq(v@.take(i as int)),
        decreases v@.len() - i,
    {
        r.push(to_lower(v[i]));
        i += 1;
        proof {
            assert(r@ =~= lower_seq(v@.take(i as int)));
        }
    }
    proof {
        assert(r@ =~= lower_seq(v@));
    }
    r
}

/// The index of the first occurrence of `d` in `s`, or `s.len()` if absent.
pub open spec fn first_index_of(s: Seq<char>, d: char) -> int
    decreases s.len(),
{
    if s.len() == 0 {
        0
    } else if s[0] == d {
        0
    } else {
        1 + first_index_of(s.drop_first(), d)
    }
}

proof fn lemma_first_index_from_scan(s: Seq<char>, d: char, k: int)
    requires
        0 <= k <= s.len(),
        forall|j: int| 0 <= j < k ==> s[j] != d,
        k < s.len() ==> s[k] == d,
    ensures
        first_index_of(s, d) == k,
    decreases k,
{
    if k == 0 {
    } else {
        lemma_first_index_from_scan(s.drop_first(), d, k - 1);
    }
}

/// Exec search for the first occurrence of `d` in `v`.
pub fn find_char(v: &Vec<char>, d: char) -> (r: usize)
    ensures
        r as int == first_index_of(v@, d),
        r <= v@.len(),
{
    let n = v.len();
    let mut i: usize = 0;
    while i < n
        invariant
            n == v@.len(),
            i <= n,
            forall|j: int| 0 <= j < i ==> v@[j] != d,
        decreases n - i,
    {
        if v[i] == d {
            proof {
                lemma_first_index_from_scan(v@, d, i as int);
            }
            return i;
        }
        i += 1;
    }
    proof {
        lemma_first_index_from_scan(v@, d, n as int);
    }
    n
}

/// The number of occurrences of `c` in `s`.
pub open spec fn count_char(s: Seq<char>, c: char) -> int
    decreases s.len(),
{
    if s.len() == 0 {
        0
    } else {
        count_char(s.drop_last(), c) + if s.last() == c {
            1int
        } else {
            0int
        }
    }
}

/// Exec count of the occurrences of `c` in `v`.
pub fn count_char_in(v: &Vec<char>, c: char) -> (r: usize)
    ensures
        r as int == count_char(v@, c),
{
    let mut r: usize = 0;
    let mut i: usize = 0;
    while i < v.len()
        invariant
            i <= v@.len(),
            r as int == count_char(v@.take(i as int), c),
            r <= i,
        decreases v@.len() - i,
    {
        proof {
            assert(v@.take(i + 1).drop_last() =~= v@.take(i as int));
            assert(v@.take(i + 1).last() == v@[i as int]);
        }
        if v[i] == c {
            r += 1;
        }
        i += 1;
    }
    proof {
        assert(v@.take(v@.len() as int) =~= v@);
    }
    r
}

/// The segments of `s` between occurrences of `d`, as `str::split` yields
/// them: `n` separators give `n + 1` segments, empty ones included.
pub open spec fn split_on(s: Seq<char>, d: char) -> Seq<Seq<char>>
    decreases s.len(),
{
    if s.len() == 0 {
        seq![Seq::<char>::empty()]
    } else if s[0] == d {
        seq![Seq::<char>::empty()] + split_on(s.drop_first(), d)
    } else {
        let rest = split_on(s.drop_first(), d);
        seq![seq![s[0]] + rest[0]] + rest.drop_first()
    }
}

proof fn lemma_split_on_len(s: Seq<char>, d: char)
    ensures
        split_on(s, d).len() >= 1,
    decreases s.len(),
{
    if s.len() > 0 {
        lemma_split_on_len(s.drop_first(), d);
    }
}

/// The views of a sequence of character vectors.
pub open spec fn views_of(r: Seq<Vec<char>>) -> Seq<Seq<char>> {
    r.map_values(|x: Vec<char>| x@)
}

/// Exec splitting of a character vector on the separator `d`.
pub fn split_chars(v: &Vec<char>, d: char) -> (r: Vec<Vec<char>>)
    ensures
        views_of(r@) == split_on(v@, d),
{
    let n = v.len();
    let mut done: Vec<Vec<char>> = Vec::new();
    let mut cur: Vec<char> = Vec::new();
    let mut i: usize = 0;
    proof {
        lemma_split_on_len(v@, d);
        assert(v@.skip(0) =~= v@);
        assert(views_of(done@) =~= Seq::<Seq<char>>::empty());
        assert(cur@ + split_on(v@, d)[0] =~= split_on(v@, d)[0]);
        assert(split_on(v@, d) =~= Seq::<Seq<char>>::empty() + seq![split_on(v@, d)[0]] + split_on(
            v@,
            d,
        ).drop_first());
    }
    while i < n
        invariant
            n == v@.len(),
            i <= n,
            split_on(v@.skip(i as int), d).len() >= 1,
            split_on(v@, d) == views_of(done@) + seq![cur@ + split_on(v@.skip(i as int), d)[0]]
                + split_on(v@.skip(i as int), d).drop_first(),
        decreases n - i,
    {
        let ghost rest = v@.skip(i as int);
        let ghost rest2 = v@.skip(i + 1);
        let ghost old_done = done@;
        let ghost old_cur = cur@;
        proof {
            assert(rest.len() > 0);
            assert(rest[0] == v@[i as int]);
            assert(rest.drop_first() =~= rest2);
            lemma_split_on_len(rest2, d);
        }
        if v[i] == d {
            let finished = cur;
            cur = Vec::new();
            done.push(finished);
            proof {
                assert(split_on(rest, d) == seq![Seq::<char>::empty()] + split_on(rest2, d));
                assert(split_on(rest, d)[0] =~= Seq::<char>::empty());
                assert(split_on(rest, d).drop_first() =~= split_on(rest2, d));
                assert(old_cur + Seq::<char>::empty() =~= old_cur);
                assert(split_on(rest2, d) =~= seq![split_on(rest2, d)[0]] + split_on(
                    rest2,
                    d,
                ).drop_first());
                assert(views_of(done@) =~= views_of(old_done).push(old_cur));
                assert(cur@ + split_on(rest2, d)[0] =~= split_on(rest2, d)[0]);
                assert(split_on(v@, d) =~= views_of(done@) + seq![cur@ + split_on(rest2, d)[0]]
                    + split_on(rest2, d).drop_first());
            }
        } else {
            let c = v[i];
            cur.push(c);
            proof {
                let r2 = split_on(rest2, d);
                assert(split_on(rest, d) == seq![seq![rest[0]] + r2[0]] + r2.drop_first());
                assert(split_on(rest, d)[0] == seq![rest[0]] + r2[0]);
                assert(split_on(rest, d).drop_first() =~= r2.drop_first());
                assert(cur@ + r2[0] =~= old_cur + (seq![c] + r2[0]));
                assert(split_on(v@, d) =~= views_of(done@) + seq![cur@ + split_on(rest2, d)[0]]
                    + split_on(rest2, d).drop_first());
            }
        }
        i += 1;
    }
    let ghost old_done = done@;
    let ghost old_cur = cur@;
    proof {
        let rest = v@.skip(n as int);
        assert(rest =~= Seq::<char>::empty());
        assert(split_on(rest, d) == seq![Seq::<char>::empty()]);
        assert(old_cur + Seq::<char>::empty() =~= old_cur);
        assert(split_on(rest, d).drop_first() =~= Seq::<Seq<char>>::empty());
    }
    done.push(cur);
    proof {
        assert(views_of(done@) =~= views_of(old_done).push(old_cur));
        assert(views_of(done@) =~= split_on(v@, d));
    }
    done
}

/// Whether `pat` occurs in `s` starting at index `i`.
pub open spec fn contains_at(s: Seq<char>, i: int, pat: Seq<char>) -> bool {
    0 <= i && i + pat.len() <= s.len() && s.subrange(i, i + pat.len()) == pat
}

/// The first index at which `pat` occurs in `s`, as `str::find` yields it.
pub open spec fn find_sub(s: Seq<char>, pat: Seq<char>) -> Option<int>
    decreases s.len(),
{
    if pat.len() == 0 {
        Some(0)
    } else if s.len() < pat.len() {
        None
    } else if s.take(pat.len() as int) == pat {
        Some(0)
    } else {
        match find_sub(s.drop_first(), pat) {
            Some(i) => Some(i + 1),
            None => None,
        }
    }
}

proof fn lemma_contains_at_shift(s: Seq<char>, j: int, pat: Seq<char>)
    requires
        s.len() > 0,
        j >= 0,
    ensures
        contains_at(s.drop_first(), j, pat) <==> contains_at(s, j + 1, pat),
{
    if 0 <= j && j + pat.len() <= s.drop_first().len() {
        assert(s.drop_first().subrange(j, j + pat.len()) =~= s.subrange(j + 1, j + 1 + pat.len()));
    }
}

pub proof fn lemma_find_sub_char(s: Seq<char>, pat: Seq<char>)
    ensures
        match find_sub(s, pat) {
            Some(i) => contains_at(s, i, pat) && forall|j: int|
                0 <= j < i ==> !contains_at(s, j, pat),
            None => forall|j: int| !contains_at(s, j, pat),
        },
    decreases s.len(),
{
    if pat.len() == 0 {
        assert(s.subrange(0, 0) =~= pat);
    } else if s.len() < pat.len() {
        assert forall|j: int| !contains_at(s, j, pat) by {}
    } else if s.take(pat.len() as int) == pat {
        assert(s.subrange(0, pat.len() as int) =~= s.take(pat.len() as int));
    } else {
        lemma_find_sub_char(s.drop_first(), pat);
        assert(s.subrange(0, pat.len() as int) =~= s.take(pat.len() as int));
        match find_sub(s.drop_first(), pat) {
            Some(i) => {
                lemma_contains_at_shift(s, i, pat);
                assert forall|j: int| 0 <= j < i + 1 implies !contains_at(s, j, pat) by {
                    if j > 0 {
                        lemma_contains_at_shift(s, j - 1, pat);
                    }
                }
            },
            None => {
                assert forall|j: int| !contains_at(s, j, pat) by {
                    if j > 0 {
                        lemma_contains_at_shift(s, j - 1, pat);
                    }
                }
            },
        }
    }
}

proof fn lemma_find_sub_from_scan(s: Seq<char>, pat: Seq<char>, k: int)
    requires
        contains_at(s, k, pat),
        forall|j: int| 0 <= j < k ==> !contains_at(s, j, pat),
    ensures
        find_sub(s, pat) == Some(k),
{
    lemma_find_sub_char(s, pat);
    match find_sub(s, pat) {
        Some(i) => {
            if i < k {
                assert(!contains_at(s, i, pat));
            } else if i > k {
                assert(!contains_at(s, k, pat));
            }
        },
        None => {
            assert(!contains_at(s, k, pat));
        },
    }
}

proof fn lemma_find_sub_from_no_scan(s: Seq<char>, pat: Seq<char>)
    requires
        forall|j: int| 0 <= j ==> !contains_at(s, j, pat),
    ensures
        find_sub(s, pat) == None::<int>,
{
    lemma_find_sub_char(s, pat);
    match find_sub(s, pat) {
        Some(i) => {
            assert(!contains_at(s, i, pat));
        },
        None => {},
    }
}

/// Whether `pat` occurs in `v` starting at index `i`, tested by characters.
fn matches_at(v: &Vec<char>, i: usize, pat: &Vec<char>) -> (r: bool)
    requires
        i + pat@.len() <= v@.len(),
    ensures
        r == contains_at(v@, i as int, pat@),
{
    let m = pat.len();
    let vn = v.len();
    let mut j: usize = 0;
    while j < m
        invariant
            m == pat@.len(),
            vn == v@.len(),
            i + m <= vn,
            j <= m,
            forall|t: int| 0 <= t < j ==> v@[i + t] == pat@[t],
        decreases m - j,
    {
        if v[i + j] != pat[j] {
            proof {
                assert(v@.subrange(i as int, i + pat@.len())[j as int] == v@[i + j]);
            }
            return false;
        }
        j += 1;
    }
    proof {
        assert(v@.subrange(i as int, i + pat@.len()) =~= pat@);
    }
    true
}

/// Exec search for the first occurrence of `pat` in `v`.
pub fn find_sub_in(v: &Vec<char>, pat: &Vec<char>) -> (r: Option<usize>)
    ensures
        match r {
            Some(i) => find_sub(v@, pat@) == Some(i as int),
            None => find_sub(v@, pat@) == None::<int>,
        },
{
    let n = v.len();
    let m = pat.len();
    if m == 0 {
        proof {
            assert(v@.subrange(0, 0) =~= pat@);
            lemma_find_sub_from_scan(v@, pat@, 0);
        }
        return Some(0);
    }
    if m > n {
        proof {
            lemma_find_sub_from_no_scan(v@, pat@);
        }
        return None;
    }
    let mut i: usize = 0;
    while i <= n - m
        invariant
            n == v@.len(),
            m == pat@.len(),
            0 < m <= n,
            i as int <= n - m + 1,
            forall|j: int| 0 <= j < i ==> !contains_at(v@, j, pat@),
        decreases n - i,
    {
        if matches_at(v, i, pat) {
            proof {
                lemma_find_sub_from_scan(v@, pat@, i as int);
            }
            return Some(i);
        }
        i += 1;
    }
    proof {
        assert forall|j: int| 0 <= j implies !contains_at(v@, j, pat@) by {
            if j <= n - m {
                assert(!contains_at(v@, j, pat@));
            }
        }
        lemma_find_sub_from_no_scan(v@, pat@);
    }
    None
}

/// Whether `c` is ASCII white space, the set that `str::trim_ascii`
/// removes.
pub open spec fn is_ascii_ws_char(c: char) -> bool {
    c == ' ' || c == '\t' || c == '\n' || c == '\u{c}' || c == '\r'
}

/// Exec test for [`is_ascii_ws_char`].
pub fn is_ascii_ws(c: char) -> (r: bool)
    ensures
        r == is_ascii_ws_char(c),
{
    c == ' ' || c == '\t' || c == '\n' || c == '\u{c}' || c == '\r'
}

/// `s` without leading ASCII white space.
pub open spec fn trim_ascii_front(s: Seq<char>) -> Seq<char>
    decreases s.len(),
{
    if s.len() > 0 && is_ascii_ws_char(s[0]) {
        trim_ascii_front(s.drop_first())
    } else {
        s
    }
}

/// `s` without trailing ASCII white space.
pub open spec fn trim_ascii_back(s: Seq<char>) -> Seq<char>
    decreases s.len(),
{
    if s.len() > 0 && is_ascii_ws_char(s.last()) {
        trim_ascii_back(s.drop_last())
    } else {
        s
    }
}

/// `s` without leading and trailing ASCII white space, as `str::trim_ascii`
/// yields it.
pub open spec fn trim_ascii_spec(s: Seq<char>) -> Seq<char> {
    trim_ascii_back(trim_ascii_front(s))
}

proof fn lemma_trim_ascii_front_skip(s: Seq<char>, k: int)
    requires
        0 <= k <= s.len(),
        forall|j: int| 0 <= j < k ==> is_ascii_ws_char(s[j]),
        k < s.len() ==> !is_ascii_ws_char(s[k]),
    ensures
        trim_ascii_front(s) == s.skip(k),
    decreases k,
{
    if k == 0 {
        assert(s.skip(0) =~= s);
    } else {
        assert(is_ascii_ws_char(s[0]));
        lemma_trim_ascii_front_skip(s.drop_first(), k - 1);
        assert(s.drop_first().skip(k - 1) =~= s.skip(k));
    }
}

proof fn lemma_trim_ascii_back_take(s: Seq<char>, k: int)
    requires
        0 <= k <= s.len(),
        forall|j: int| k <= j < s.len() ==> is_ascii_ws_char(s[j]),
        k > 0 ==> !is_ascii_ws_char(s[k - 1]),
    ensures
        trim_ascii_back(s) == s.take(k),
    decreases s.len() - k,
{
    if k == s.len() {
        assert(s.take(k) =~= s);
        if s.len() > 0 {
            assert(!is_ascii_ws_char(s.last()));
        }
    } else {
        assert(is_ascii_ws_char(s.last()));
        lemma_trim_ascii_back_take(s.drop_last(), k);
        assert(s.drop_last().take(k) =~= s.take(k));
    }
}

/// Exec ASCII trimming of a character vector, as `str::trim_ascii`
/// performs it.
pub fn trim_ascii_chars(v: &Vec<char>) -> (r: Vec<char>)
    ensures
        r@ == trim_ascii_spec(v@),
{
    let n = v.len();
    let mut b: usize = 0;
    while b < n && is_ascii_ws(v[b])
        invariant
            n == v@.len(),
            b <= n,
            forall|j: int| 0 <= j < b ==> is_ascii_ws_char(v@[j]),
        decreases n - b,
    {
        b += 1;
    }
    let mut e: usize = n;
    while e > b && is_ascii_ws(v[e - 1])
        invariant
            n == v@.len(),
            b <= e <= n,
            forall|j: int| e <= j < n ==> is_ascii_ws_char(v@[j]),
        decreases e,
    {
        e -= 1;
    }
    proof {
        lemma_trim_ascii_front_skip(v@, b as int);
        lemma_trim_ascii_back_take(v@.skip(b as int), e - b);
    }
    let r = subvec(v, b, e);
    proof {
        assert(r@ =~= v@.skip(b as int).take(e - b));
    }
    r
}

/// `s` without trailing NUL characters, the padding of a metadata frame.
pub open spec fn trim_nuls(s: Seq<char>) -> Seq<char>
    decreases s.len(),
{
    if s.len() > 0 && s.last() == '\0' {
        trim_nuls(s.drop_last())
    } else {
        s
    }
}

proof fn lemma_trim_nuls_take(s: Seq<char>, k: int)
    requires
        0 <= k <= s.len(),
        forall|j: int| k <= j < s.len() ==> s[j] == '\0',
        k > 0 ==> s[k - 1] != '\0',
    ensures
        trim_nuls(s) == s.take(k),
    decreases s.len() - k,
{
    if k == s.len() {
        assert(s.take(k) =~= s);
    } else {
        assert(s.last() == '\0');
        lemma_trim_nuls_take(s.drop_last(), k);
        assert(s.drop_last().take(k) =~= s.take(k));
    }
}

/// Exec trimming of trailing NUL characters.
pub fn trim_nul_chars(v: &Vec<char>) -> (r: Vec<char>)
    ensures
        r@ == trim_nuls(v@),
{
    let n = v.len();
    let mut e: usize = n;
    while e > 0 && v[e - 1] == '\0'
        invariant
            n == v@.len(),
            e <= n,
            forall|j: int| e <= j < n ==> v@[j] == '\0',
        decreases e,
    {
        e -= 1;
    }
    proof {
        lemma_trim_nuls_take(v@, e as int);
    }
    let r = subvec(v, 0, e);
    proof {
        assert(v@.subrange(0, e as int) =~= v@.take(e as int));
    }
    r
}

/// Whether two character vectors hold the same characters.
pub fn eq_chars(a: &Vec<char>, b: &Vec<char>) -> (r: bool)
    ensures
        r == (a@ == b@),
{
    if a.len() != b.len() {
        return false;
    }
    let n = a.len();
    let mut i: usize = 0;
    while i < n
        invariant
            n == a@.len(),
            n == b@.len(),
            i <= n,
            forall|j: int| 0 <= j < i ==> a@[j] == b@[j],
        decreases n - i,
    {
        if a[i] != b[i] {
            return false;
        }
        i += 1;
    }
    proof {
        assert(a@ =~= b@);
    }
    true
}

/// The characters of `v` from `from` (inclusive) to `to` (exclusive).
pub fn subvec(v: &Vec<char>, from: usize, to: usize) -> (r: Vec<char>)
    requires
        from <= to <= v@.len(),
    ensures
        r@ == v@.subrange(from as int, to as int),
{
    let mut r: Vec<char> = Vec::new();
    let mut i: usize = from;
    while i < to
        invariant
            from <= i <= to <= v@.len(),
            r@ == v@.subrange(from as int, i as int),
        decreases to - i,
    {
        r.push(v[i]);
        i += 1;
        proof {
            assert(r@ =~= v@.subrange(from as int, i as int));
        }
    }
    r
}

} // verus!
