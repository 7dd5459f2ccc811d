//! Character-level text utilities: Unicode white space, trimming, substring
//! search, tag extraction, identifier sanitising, joining and decimal
//! rendering. Every function works on the `Seq<char>` view of its strings.
use vstd::prelude::*;
use vstd::string::*;

verus! {

/// The Unicode `White_Space` property, which `char::is_whitespace` tests.
pub open spec fn is_white_space(c: char) -> bool {
    let n = c as int;
    ||| 9 <= n <= 13
    ||| n == 32
    ||| n == 0x85
    ||| n == 0xA0
    ||| n == 0x1680
    ||| 0x2000 <= n <= 0x200A
    ||| n == 0x2028
    ||| n == 0x2029
    ||| n == 0x202F
    ||| n == 0x205F
    ||| n == 0x3000
}

/// `s` with its leading white space removed.
pub open spec fn trim_start(s: Seq<char>) -> Seq<char>
    decreases s.len(),
{
    if s.len() > 0 && is_white_space(s[0]) {
        trim_start(s.drop_first())
    } else {
        s
    }
}

/// `s` with its trailing white space removed.
pub open spec fn trim_end(s: Seq<char>) -> Seq<char>
    decreases s.len(),
{
    if s.len() > 0 && is_white_space(s.last()) {
        trim_end(s.drop_last())
    } else {
        s
    }
}

/// `s` with white space removed at both ends, as `str::trim` does.
pub open spec fn trim(s: Seq<char>) -> Seq<char> {
    trim_end(trim_start(s))
}

/// `s` is empty or made of white space only.
pub open spec fn is_blank(s: Seq<char>) -> bool {
    trim(s).len() == 0
}

/// `pat` occurs in `s` at position `i`.
pub open spec fn occurs_at(s: Seq<char>, pat: Seq<char>, i: int) -> bool {
    &&& 0 <= i
    &&& i + pat.len() <= s.len()
    &&& s.subrange(i, i + pat.len()) == pat
}

/// `i` is the position of the first occurrence of `pat` in `s`.
pub open spec fn is_first_occurrence(s: Seq<char>, pat: Seq<char>, i: int) -> bool {
    &&& occurs_at(s, pat, i)
    &&& forall|j: int| 0 <= j < i ==> !occurs_at(s, pat, j)
}

/// The position of the first occurrence of `pat` in `s`, as `str::find` gives it
/// (counted in characters).
pub open spec fn first_occurrence(s: Seq<char>, pat: Seq<char>) -> Option<int> {
    if exists|i: int| occurs_at(s, pat, i) {
        Some(choose|i: int| is_first_occurrence(s, pat, i))
    } else {
        None
    }
}

/// The opening tag `<tag>`.
pub open spec fn open_tag(tag: Seq<char>) -> Seq<char> {
    "<"@ + tag + ">"@
}

/// The closing tag `</tag>`.
pub open spec fn close_tag(tag: Seq<char>) -> Seq<char> {
    "</"@ + tag + ">"@
}

/// The trimmed text between the first `<tag>` in `content` and the first
/// `</tag>` after it; `None` when either is missing.
pub open spec fn tag_text(content: Seq<char>, tag: Seq<char>) -> Option<Seq<char>> {
    match first_occurrence(content, open_tag(tag)) {
        None => None,
        Some(start) => {
            let rest = content.subrange(start + open_tag(tag).len(), content.len() as int);
            match first_occurrence(rest, close_tag(tag)) {
                None => None,
                Some(end) => Some(trim(rest.subrange(0, end))),
            }
        },
    }
}

/// The text inside `<final_answer>`, or else the whole content trimmed.
pub open spec fn final_answer_text(content: Seq<char>) -> Seq<char> {
    match tag_text(content, "final_answer"@) {
        Some(answer) => answer,
        None => trim(content),
    }
}

/// A reply that holds `<final_answer>` and then `</final_answer>` gives the
/// trimmed text between the first opening tag and the first closing tag after
/// it, whatever text comes before the opening tag or after the closing one.
pub proof fn law_final_answer_unwrapped(pre: Seq<char>, x: Seq<char>, post: Seq<char>)
    requires
        forall|k: int|
            0 <= k < pre.len() ==> !occurs_at(
                pre + open_tag("final_answer"@) + x + close_tag("final_answer"@) + post,
                open_tag("final_answer"@),
                k,
            ),
        forall|k: int|
            0 <= k < x.len() ==> !occurs_at(x + close_tag("final_answer"@) + post, close_tag("final_answer"@), k),
    ensures
        final_answer_text(pre + open_tag("final_answer"@) + x + close_tag("final_answer"@) + post) == trim(x),
{
    let open = open_tag("final_answer"@);
    let close = close_tag("final_answer"@);
    let c = pre + open + x + close + post;
    let p = pre.len() as int;
    assert(c.subrange(p, p + open.len()) =~= open);
    assert(is_first_occurrence(c, open, p));
    lemma_first_occurrence_unique(c, open, p);
    let rest = c.subrange(p + open.len(), c.len() as int);
    assert(rest =~= x + close + post);
    let q = x.len() as int;
    assert(rest.subrange(q, q + close.len()) =~= close);
    assert(is_first_occurrence(rest, close, q));
    lemma_first_occurrence_unique(rest, close, q);
    assert(rest.subrange(0, q) =~= x);
}

/// A reply with no `<final_answer>` tag gives the whole reply, trimmed.
pub proof fn law_final_answer_untagged(content: Seq<char>)
    requires
        forall|k: int| !occurs_at(content, open_tag("final_answer"@), k),
    ensures
        final_answer_text(content) == trim(content),
{
}

/// An ASCII letter or digit.
pub open spec fn is_ascii_alphanumeric(c: char) -> bool {
    ||| ('0' <= c && c <= '9')
    ||| ('a' <= c && c <= 'z')
    ||| ('A' <= c && c <= 'Z')
}

/// `s` with every character that is not an ASCII letter or digit replaced by `_`.
pub open spec fn sanitize_id(s: Seq<char>) -> Seq<char> {
    s.map_values(|c: char| if is_ascii_alphanumeric(c) { c } else { '_' })
}

/// A sanitized id is as long as the id, holds only ASCII letters, digits and
/// `_`, and keeps every ASCII letter and digit of the id where it stood.
pub proof fn law_sanitize_id(s: Seq<char>)
    ensures
        sanitize_id(s).len() == s.len(),
        forall|i: int|
            0 <= i < s.len() ==> is_ascii_alphanumeric(#[trigger] sanitize_id(s)[i]) || sanitize_id(s)[i]
                == '_',
        forall|i: int| 0 <= i < s.len() && is_ascii_alphanumeric(s[i]) ==> #[trigger] sanitize_id(s)[i] == s[i],
{
}

/// The items joined with `sep` between each two neighbours.
pub open spec fn join(items: Seq<Seq<char>>, sep: Seq<char>) -> Seq<char>
    decreases items.len(),
{
    if items.len() == 0 {
        Seq::empty()
    } else if items.len() == 1 {
        items[0]
    } else {
        join(items.drop_last(), sep) + sep + items.last()
    }
}

/// The decimal digit for `d < 10`.
pub open spec fn digit_char(d: nat) -> char {
    if d == 0 {
        '0'
    } else if d == 1 {
        '1'
    } else if d == 2 {
        '2'
    } else if d == 3 {
        '3'
    } else if d == 4 {
        '4'
    } else if d == 5 {
        '5'
    } else if d == 6 {
        '6'
    } else if d == 7 {
        '7'
    } else if d == 8 {
        '8'
    } else {
        '9'
    }
}

/// The decimal representation of `n`, without leading zeros.
pub open spec fn decimal(n: nat) -> Seq<char>
    decreases n,
{
    if n < 10 {
        seq![digit_char(n)]
    } else {
        decimal(n / 10).push(digit_char(n % 10))
    }
}

/// The view of an optional string.
pub open spec fn opt_view(o: Option<String>) -> Option<Seq<char>> {
    match o {
        Some(s) => Some(s@),
        None => None,
    }
}

/// The views of a sequence of strings.
pub open spec fn strings_view(v: Seq<String>) -> Seq<Seq<char>> {
    v.map_values(|s: String| s@)
}

/// A duplicate of an optional string.
pub fn clone_opt(o: &Option<String>) -> (r: Option<String>)
    ensures
        opt_view(r) == opt_view(*o),
{
    match o {
        Some(s) => Some(s.clone()),
        None => None,
    }
}

/// The optional string as a string slice.
pub fn opt_as_str(o: &Option<String>) -> (r: Option<&str>)
    ensures
        r is Some == o is Some,
        r matches Some(t) ==> opt_view(*o) == Some(t@),
{
    match o {
        Some(s) => Some(s.as_str()),
        None => None,
    }
}

/// A duplicate of a vector of strings.
pub fn clone_strings(v: &Vec<String>) -> (r: Vec<String>)
    ensures
        strings_view(r@) == strings_view(v@),
        r@.len() == v@.len(),
{
    let mut r: Vec<String> = Vec::new();
    let mut i: usize = 0;
    while i < v.len()
        invariant
            i <= v.len(),
            r@.len() == i,
            forall|k: int| 0 <= k < i ==> #[trigger] r@[k]@ == v@[k]@,
        decreases v.len() - i,
    {
        r.push(v[i].clone());
        i = i + 1;
    }
    assert(strings_view(r@) =~= strings_view(v@));
    r
}

/// Whether two strings have the same characters.
pub fn str_equal(a: &str, b: &str) -> (r: bool)
    ensures
        r == (a@ == b@),
{
    let x = owned(a);
    let y = owned(b);
    x == y
}

/// Appends one character by `String::push`, which vstd does not specify; the
/// contract claims what its documentation says: the character is added at the
/// end and nothing else changes.
#[verifier::external_body]
pub(crate) fn push_char(s: &mut String, c: char)
    ensures
        final(s)@ == old(s)@.push(c),
{
    s.push(c);
}

/// Appends a string slice.
pub fn push_str(s: &mut String, t: &str)
    ensures
        final(s)@ == old(s)@ + t@,
{
    s.append(t);
}

/// An owned duplicate of a string slice.
pub fn owned(t: &str) -> (s: String)
    ensures
        s@ == t@,
{
    t.to_string()
}

/// The characters of a string slice.
pub fn chars_of(s: &str) -> (v: Vec<char>)
    ensures
        v@ == s@,
{
    let mut v: Vec<char> = Vec::new();
    for c in it: s.chars()
        invariant
            v@ == it.seq().take(it.index() as int),
            it.seq() == s@,
    {
        v.push(c);
    }
    v
}

/// The string of the characters `v[lo..hi]`.
pub fn string_from_range(v: &Vec<char>, lo: usize, hi: usize) -> (s: String)
    requires
        lo <= hi <= v.len(),
    ensures
        s@ == v@.subrange(lo as int, hi as int),
{
    let mut s = String::new();
    let mut i: usize = lo;
    while i < hi
        invariant
            lo <= i <= hi <= v.len(),
            s@ == v@.subrange(lo as int, i as int),
        decreases hi - i,
    {
        push_char(&mut s, v[i]);
        assert(v@.subrange(lo as int, i as int).push(v@[i as int]) =~= v@.subrange(
            lo as int,
            i + 1,
        ));
        i = i + 1;
    }
    s
}

/// Whether `c` has the Unicode `White_Space` property.
pub fn char_is_white_space(c: char) -> (b: bool)
    ensures
        b == is_white_space(c),
{
    let n = c as u32;
    (9 <= n && n <= 13) || n == 32 || n == 0x85 || n == 0xA0 || n == 0x1680 || (0x2000 <= n && n
        <= 0x200A) || n == 0x2028 || n == 0x2029 || n == 0x202F || n == 0x205F || n == 0x3000
}

proof fn lemma_trim_start_skip(s: Seq<char>, i: int)
    requires
        0 <= i < s.len(),
        is_white_space(s[i]),
    ensures
        trim_start(s.subrange(i, s.len() as int)) == trim_start(s.subrange(i + 1, s.len() as int)),
{
    assert(s.subrange(i, s.len() as int).drop_first() =~= s.subrange(i + 1, s.len() as int));
}

proof fn lemma_trim_end_skip(s: Seq<char>, lo: int, hi: int)
    requires
        0 <= lo < hi <= s.len(),
        is_white_space(s[hi - 1]),
    ensures
        trim_end(s.subrange(lo, hi)) == trim_end(s.subrange(lo, hi - 1)),
{
    assert(s.subrange(lo, hi).drop_last() =~= s.subrange(lo, hi - 1));
}

/// The bounds `(lo, hi)` of the trimmed part of `v`.
fn trim_bounds(v: &Vec<char>) -> (r: (usize, usize))
    ensures
        r.0 <= r.1 <= v.len(),
        v@.subrange(r.0 as int, r.1 as int) == trim(v@),
{
    let n = v.len();
    let mut lo: usize = 0;
    assert(v@.subrange(0, n as int) =~= v@);
    while lo < n && char_is_white_space(v[lo])
        invariant
            lo <= n == v.len(),
            trim_start(v@) == trim_start(v@.subrange(lo as int, n as int)),
        decreases n - lo,
    {
        proof {
            lemma_trim_start_skip(v@, lo as int);
        }
        lo = lo + 1;
    }
    let ghost t = v@.subrange(lo as int, n as int);
    assert(trim_start(v@) == t);
    let mut hi: usize = n;
    while hi > lo && char_is_white_space(v[hi - 1])
        invariant
            lo <= hi <= n == v.len(),
            trim_end(t) == trim_end(v@.subrange(lo as int, hi as int)),
            t == v@.subrange(lo as int, n as int),
        decreases hi - lo,
    {
        proof {
            lemma_trim_end_skip(v@, lo as int, hi as int);
        }
        hi = hi - 1;
    }
    (lo, hi)
}

/// `s` with leading and trailing white space removed (`str::trim`).
pub fn trim_str(s: &str) -> (r: String)
    ensures
        r@ == trim(s@),
{
    let v = chars_of(s);
    let (lo, hi) = trim_bounds(&v);
    string_from_range(&v, lo, hi)
}

/// Whether `s` is empty or white space only (`s.trim().is_empty()`).
pub fn str_is_blank(s: &str) -> (b: bool)
    ensures
        b == is_blank(s@),
{
    let v = chars_of(s);
    let (lo, hi) = trim_bounds(&v);
    lo == hi
}

/// Whether `pat` occurs in `hay` at position `i`.
fn occurs_at_exec(hay: &Vec<char>, pat: &Vec<char>, i: usize) -> (b: bool)
    requires
        i + pat.len() <= hay.len(),
    ensures
        b == occurs_at(hay@, pat@, i as int),
{
    let m = pat.len();
    let mut k: usize = 0;
    while k < m
        invariant
            k <= m == pat.len(),
            i + m <= hay.len(),
            forall|j: int| 0 <= j < k ==> hay@[i + j] == pat@[j],
        decreases m - k,
    {
        if hay[i + k] != pat[k] {
            assert(hay@.subrange(i as int, i + m)[k as int] != pat@[k as int]);
            return false;
        }
        k = k + 1;
    }
    assert(hay@.subrange(i as int, i + m) =~= pat@);
    true
}

proof fn lemma_first_occurrence_unique(s: Seq<char>, pat: Seq<char>, i: int)
    requires
        is_first_occurrence(s, pat, i),
    ensures
        first_occurrence(s, pat) == Some(i),
{
    let c = choose|k: int| is_first_occurrence(s, pat, k);
    assert(is_first_occurrence(s, pat, c));
    if c < i {
        assert(!occurs_at(s, pat, c));
    } else if i < c {
        assert(!occurs_at(s, pat, i));
    }
}

/// The first position at which `pat` occurs in `hay`.
pub fn find_first(hay: &Vec<char>, pat: &Vec<char>) -> (r: Option<usize>)
    ensures
        r matches Some(i) ==> first_occurrence(hay@, pat@) == Some(i as int) && is_first_occurrence(
            hay@,
            pat@,
            i as int,
        ),
        r is None ==> first_occurrence(hay@, pat@) is None,
{
    let n = hay.len();
    let m = pat.len();
    if m > n {
        assert(forall|j: int| !occurs_at(hay@, pat@, j));
        return None;
    }
    if m == 0 {
        assert(hay@.subrange(0, 0) =~= pat@);
        proof {
            lemma_first_occurrence_unique(hay@, pat@, 0);
        }
        return Some(0);
    }
    let mut i: usize = 0;
    while i <= n - m
        invariant
            0 < m <= n,
            i <= n - m + 1,
            n == hay.len(),
            m == pat.len(),
            forall|j: int| 0 <= j < i ==> !occurs_at(hay@, pat@, j),
        decreases n - m + 1 - i,
    {
        if occurs_at_exec(hay, pat, i) {
            proof {
                lemma_first_occurrence_unique(hay@, pat@, i as int);
            }
            return Some(i);
        }
        i = i + 1;
    }
    assert(forall|j: int| !occurs_at(hay@, pat@, j));
    None
}

/// The trimmed text between the first `<tag>` in `content` and the first
/// `</tag>` that follows it.
pub fn extract_tag(content: &str, tag: &str) -> (r: Option<String>)
    ensures
        r matches Some(t) ==> tag_text(content@, tag@) == Some(t@),
        r is None ==> tag_text(content@, tag@) is None,
{
    let mut open = owned("<");
    push_str(&mut open, tag);
    push_str(&mut open, ">");
    let mut close = owned("</");
    push_str(&mut close, tag);
    push_str(&mut close, ">");
    let hay = chars_of(content);
    let open_v = chars_of(open.as_str());
    let close_v = chars_of(close.as_str());
    match find_first(&hay, &open_v) {
        None => None,
        Some(start) => {
            assert(occurs_at(hay@, open_v@, start as int));
            let open_len = open_v.len();
            assert(start + open_len <= hay.len());
            let from = start + open_len;
            let rest_s = string_from_range(&hay, from, hay.len());
            let rest = chars_of(rest_s.as_str());
            match find_first(&rest, &close_v) {
                None => None,
                Some(end) => {
                    let inner = string_from_range(&rest, 0, end);
                    Some(trim_str(inner.as_str()))
                },
            }
        },
    }
}

/// The text inside `<final_answer>`, or else the whole content trimmed.
pub fn unwrap_final_answer(content: &str) -> (r: String)
    ensures
        r@ == final_answer_text(content@),
{
    match extract_tag(content, "final_answer") {
        Some(answer) => answer,
        None => trim_str(content),
    }
}

/// Whether `c` is an ASCII letter or digit.
pub fn char_is_ascii_alphanumeric(c: char) -> (b: bool)
    ensures
        b == is_ascii_alphanumeric(c),
{
    ('0' <= c && c <= '9') || ('a' <= c && c <= 'z') || ('A' <= c && c <= 'Z')
}

/// `s` with every character that is not an ASCII letter or digit replaced by `_`.
pub fn sanitize_node_id(s: &str) -> (r: String)
    ensures
        r@ == sanitize_id(s@),
{
    let v = chars_of(s);
    let mut out = String::new();
    let mut i: usize = 0;
    while i < v.len()
        invariant
            i <= v.len(),
            v@ == s@,
            out@ == sanitize_id(v@.take(i as int)),
        decreases v.len() - i,
    {
        let c = v[i];
        let d = if char_is_ascii_alphanumeric(c) {
            c
        } else {
            '_'
        };
        push_char(&mut out, d);
        assert(sanitize_id(v@.take(i + 1)) =~= sanitize_id(v@.take(i as int)).push(d));
        i = i + 1;
    }
    assert(v@.take(v.len() as int) =~= v@);
    out
}

proof fn lemma_join_push(items: Seq<Seq<char>>, sep: Seq<char>, x: Seq<char>)
    requires
        items.len() > 0,
    ensures
        join(items.push(x), sep) == join(items, sep) + sep + x,
{
    assert(items.push(x).drop_last() =~= items);
}

/// The strings of `items` joined with `sep`.
pub fn join_strings(items: &Vec<String>, sep: &str) -> (r: String)
    ensures
        r@ == join(items@.map_values(|t: String| t@), sep@),
{
    let ghost views = items@.map_values(|t: String| t@);
    let mut out = String::new();
    let mut i: usize = 0;
    while i < items.len()
        invariant
            i <= items.len(),
            views == items@.map_values(|t: String| t@),
            out@ == join(views.take(i as int), sep@),
        decreases items.len() - i,
    {
        if i > 0 {
            push_str(&mut out, sep);
            proof {
                lemma_join_push(views.take(i as int), sep@, views[i as int]);
                assert(views.take(i as int).push(views[i as int]) =~= views.take(i + 1));
            }
        } else {
            assert(views.take(1) =~= seq![views[0]]);
        }
        push_str(&mut out, items[i].as_str());
        i = i + 1;
    }
    assert(views.take(items.len() as int) =~= views);
    out
}

/// The decimal digit for `d < 10`.
fn digit(d: usize) -> (c: char)
    requires
        d < 10,
    ensures
        c == digit_char(d as nat),
{
    if d == 0 {
        '0'
    } else if d == 1 {
        '1'
    } else if d == 2 {
        '2'
    } else if d == 3 {
        '3'
    } else if d == 4 {
        '4'
    } else if d == 5 {
        '5'
    } else if d == 6 {
        '6'
    } else if d == 7 {
        '7'
    } else if d == 8 {
        '8'
    } else {
        '9'
    }
}

/// The decimal representation of `n` (`usize::to_string`).
pub fn decimal_string(n: usize) -> (s: String)
    ensures
        s@ == decimal(n as nat),
    decreases n,
{
    if n < 10 {
        let mut s = String::new();
        push_char(&mut s, digit(n));
        assert(s@ =~= seq![digit_char(n as nat)]);
        s
    } else {
        let mut s = decimal_string(n / 10);
        push_char(&mut s, digit(n % 10));
        s
    }
}

/// `a` comes before `b` in the order of `String`: lexicographic by code point.
pub open spec fn lex_lt(a: Seq<char>, b: Seq<char>) -> bool
    decreases a.len(),
{
    if a.len() == 0 {
        b.len() > 0
    } else if b.len() == 0 {
        false
    } else if a[0] != b[0] {
        a[0] < b[0]
    } else {
        lex_lt(a.drop_first(), b.drop_first())
    }
}

/// Every string of `s` comes before the next one.
pub open spec fn strictly_sorted(s: Seq<Seq<char>>) -> bool {
    forall|i: int, j: int| 0 <= i < j < s.len() ==> lex_lt(#[trigger] s[i], #[trigger] s[j])
}

pub proof fn lemma_lex_irreflexive(a: Seq<char>)
    ensures
        !lex_lt(a, a),
    decreases a.len(),
{
    if a.len() > 0 {
        lemma_lex_irreflexive(a.drop_first());
    }
}

pub proof fn lemma_lex_total(a: Seq<char>, b: Seq<char>)
    ensures
        a == b || lex_lt(a, b) || lex_lt(b, a),
        !(lex_lt(a, b) && lex_lt(b, a)),
    decreases a.len(),
{
    if a.len() > 0 && b.len() > 0 && a[0] == b[0] {
        lemma_lex_total(a.drop_first(), b.drop_first());
        if a.drop_first() == b.drop_first() {
            assert(a =~= seq![a[0]] + a.drop_first());
            assert(b =~= seq![b[0]] + b.drop_first());
        }
    } else if a.len() == 0 && b.len() == 0 {
        assert(a =~= b);
    }
}

pub proof fn lemma_lex_transitive(a: Seq<char>, b: Seq<char>, c: Seq<char>)
    requires
        lex_lt(a, b),
        lex_lt(b, c),
    ensures
        lex_lt(a, c),
    decreases a.len(),
{
    if a.len() > 0 && b.len() > 0 && c.len() > 0 && a[0] == b[0] && b[0] == c[0] {
        lemma_lex_transitive(a.drop_first(), b.drop_first(), c.drop_first());
    }
}

/// Whether `a[i..]` comes before `b[i..]`.
fn lex_lt_from(a: &Vec<char>, b: &Vec<char>, i: usize) -> (r: bool)
    requires
        i <= a.len(),
        i <= b.len(),
    ensures
        r == lex_lt(a@.skip(i as int), b@.skip(i as int)),
    decreases a.len() - i,
{
    if i == a.len() {
        i < b.len()
    } else if i == b.len() {
        false
    } else if a[i] != b[i] {
        a[i] < b[i]
    } else {
        assert(a@.skip(i as int).drop_first() =~= a@.skip(i + 1));
        assert(b@.skip(i as int).drop_first() =~= b@.skip(i + 1));
        lex_lt_from(a, b, i + 1)
    }
}

/// Whether `a` comes before `b` in the order of `String`.
pub fn str_lt(a: &str, b: &str) -> (r: bool)
    ensures
        r == lex_lt(a@, b@),
{
    let va = chars_of(a);
    let vb = chars_of(b);
    assert(va@.skip(0) =~= va@);
    assert(vb@.skip(0) =~= vb@);
    lex_lt_from(&va, &vb, 0)
}

/// Where `x` belongs in the sorted `keys`, and whether it is there already.
pub fn sorted_slot(keys: &Vec<String>, x: &str) -> (r: (usize, bool))
    requires
        strictly_sorted(strings_view(keys@)),
    ensures
        r.0 <= keys@.len(),
        forall|i: int| 0 <= i < r.0 ==> lex_lt(#[trigger] keys@[i]@, x@),
        r.1 ==> r.0 < keys@.len() && keys@[r.0 as int]@ == x@,
        !r.1 ==> forall|i: int| r.0 <= i < keys@.len() ==> lex_lt(x@, #[trigger] keys@[i]@),
        r.1 <==> strings_view(keys@).contains(x@),
{
    let ghost ks = strings_view(keys@);
    let mut i: usize = 0;
    while i < keys.len() && str_lt(keys[i].as_str(), x)
        invariant
            i <= keys@.len(),
            ks == strings_view(keys@),
            strictly_sorted(ks),
            forall|j: int| 0 <= j < i ==> lex_lt(#[trigger] keys@[j]@, x@),
        decreases keys.len() - i,
    {
        i = i + 1;
    }
    if i < keys.len() {
        proof {
            lemma_lex_total(keys@[i as int]@, x@);
        }
        if str_equal(keys[i].as_str(), x) {
            assert(ks[i as int] == x@);
            return (i, true);
        }
        assert forall|j: int| i <= j < keys@.len() implies lex_lt(x@, #[trigger] keys@[j]@) by {
            if j > i {
                assert(lex_lt(ks[i as int], ks[j]));
                lemma_lex_transitive(x@, keys@[i as int]@, keys@[j]@);
            }
        }
    }
    assert(!ks.contains(x@)) by {
        if ks.contains(x@) {
            let j = choose|j: int| 0 <= j < ks.len() && ks[j] == x@;
            if j < i {
                lemma_lex_irreflexive(x@);
            } else {
                lemma_lex_irreflexive(x@);
            }
        }
    }
    (i, false)
}

/// Adds `x` to the sorted `keys` unless it is there already.
pub fn insert_sorted(keys: &mut Vec<String>, x: &str)
    requires
        strictly_sorted(strings_view(old(keys)@)),
    ensures
        strictly_sorted(strings_view(final(keys)@)),
        strings_view(final(keys)@).to_set() == strings_view(old(keys)@).to_set().insert(x@),
{
    let ghost ks = strings_view(keys@);
    let (p, found) = sorted_slot(keys, x);
    if !found {
        keys.insert(p, owned(x));
        let ghost nks = strings_view(keys@);
        assert(nks =~= ks.take(p as int).push(x@) + ks.skip(p as int));
        assert forall|i: int, j: int| 0 <= i < j < nks.len() implies lex_lt(
            #[trigger] nks[i],
            #[trigger] nks[j],
        ) by {
            if j < p {
                assert(nks[i] == ks[i] && nks[j] == ks[j]);
            } else if j == p {
                assert(nks[i] == ks[i]);
            } else if i < p {
                assert(nks[i] == ks[i] && nks[j] == ks[j - 1]);
                assert(lex_lt(ks[i], x@));
                assert(lex_lt(x@, ks[j - 1]));
                lemma_lex_transitive(ks[i], x@, ks[j - 1]);
            } else if i == p {
                assert(nks[j] == ks[j - 1]);
            } else {
                assert(nks[i] == ks[i - 1] && nks[j] == ks[j - 1]);
            }
        }
        assert(nks.to_set() =~= ks.to_set().insert(x@)) by {
            assert forall|y: Seq<char>| nks.to_set().contains(y) implies ks.to_set().insert(x@).contains(y) by {
                let j = choose|j: int| 0 <= j < nks.len() && nks[j] == y;
                if j < p {
                    assert(ks[j] == y);
                } else if j > p {
                    assert(ks[j - 1] == y);
                }
            }
            assert forall|y: Seq<char>| ks.to_set().insert(x@).contains(y) implies nks.to_set().contains(y) by {
                if y == x@ {
                    assert(nks[p as int] == y);
                } else {
                    let j = choose|j: int| 0 <= j < ks.len() && ks[j] == y;
                    if j < p {
                        assert(nks[j] == y);
                    } else {
                        assert(nks[j + 1] == y);
                    }
                }
            }
        }
    } else {
        assert(ks.to_set().insert(x@) =~= ks.to_set());
    }
}

/// `x` put into `s`, whose keys are in the order of `String`: in place of the
/// item with the same key, or else where its key belongs.
pub open spec fn keyed_insert<T>(s: Seq<T>, key: spec_fn(T) -> Seq<char>, x: T) -> Seq<T>
    decreases s.len(),
{
    if s.len() == 0 {
        seq![x]
    } else if key(s[0]) == key(x) {
        seq![x] + s.drop_first()
    } else if lex_lt(key(x), key(s[0])) {
        seq![x] + s
    } else {
        seq![s[0]] + keyed_insert(s.drop_first(), key, x)
    }
}

/// Putting `x` into a sequence kept in key order replaces the item with the
/// same key, or adds `x` where there is none, and keeps every other item: the
/// keys stay in order, each once. So a context entry, an agent or a step added
/// under a key is what is then found under it.
pub proof fn law_keyed_insert<T>(s: Seq<T>, key: spec_fn(T) -> Seq<char>, x: T)
    requires
        strictly_sorted(s.map_values(key)),
    ensures
        strictly_sorted(keyed_insert(s, key, x).map_values(key)),
        keyed_insert(s, key, x).contains(x),
        forall|y: T| s.contains(y) && key(y) != key(x) ==> #[trigger] keyed_insert(s, key, x).contains(y),
        forall|z: T| #[trigger] keyed_insert(s, key, x).contains(z) ==> z == x || (s.contains(z) && key(z) != key(x)),
    decreases s.len(),
{
    let r = keyed_insert(s, key, x);
    let ks = s.map_values(key);
    lemma_lex_irreflexive(key(x));
    if s.len() == 0 {
        assert(r[0] == x);
        assert forall|z: T| #[trigger] r.contains(z) implies z == x || (s.contains(z) && key(z) != key(x)) by {
            let i = choose|i: int| 0 <= i < r.len() && r[i] == z;
            assert(i == 0);
        }
    } else if key(s[0]) == key(x) {
        let t = s.drop_first();
        assert(r =~= seq![x] + t);
        assert(r.map_values(key) =~= ks);
        assert(r[0] == x);
        assert forall|y: T| s.contains(y) && key(y) != key(x) implies #[trigger] r.contains(y) by {
            let i = choose|i: int| 0 <= i < s.len() && s[i] == y;
            assert(i != 0);
            assert(r[i] == y);
        }
        assert forall|z: T| #[trigger] r.contains(z) implies z == x || (s.contains(z) && key(z) != key(x)) by {
            let i = choose|i: int| 0 <= i < r.len() && r[i] == z;
            if i > 0 {
                assert(s[i] == z);
                assert(lex_lt(ks[0], ks[i]));
            }
        }
    } else if lex_lt(key(x), key(s[0])) {
        assert(r =~= seq![x] + s);
        let rk = r.map_values(key);
        assert forall|i: int, j: int| 0 <= i < j < rk.len() implies lex_lt(#[trigger] rk[i], #[trigger] rk[j]) by {
            if i == 0 {
                if j > 1 {
                    assert(lex_lt(ks[0], ks[j - 1]));
                    lemma_lex_transitive(key(x), ks[0], ks[j - 1]);
                }
            } else {
                assert(rk[i] == ks[i - 1] && rk[j] == ks[j - 1]);
            }
        }
        assert(r[0] == x);
        assert forall|y: T| s.contains(y) && key(y) != key(x) implies #[trigger] r.contains(y) by {
            let i = choose|i: int| 0 <= i < s.len() && s[i] == y;
            assert(r[i + 1] == y);
        }
        assert forall|z: T| #[trigger] r.contains(z) implies z == x || (s.contains(z) && key(z) != key(x)) by {
            let i = choose|i: int| 0 <= i < r.len() && r[i] == z;
            if i > 0 {
                assert(s[i - 1] == z);
                if i > 1 {
                    assert(lex_lt(ks[0], ks[i - 1]));
                    lemma_lex_transitive(key(x), ks[0], ks[i - 1]);
                }
                lemma_lex_total(key(x), key(z));
            }
        }
    } else {
        let t = s.drop_first();
        assert(t.map_values(key) =~= ks.drop_first());
        law_keyed_insert(t, key, x);
        let rt = keyed_insert(t, key, x);
        assert(r =~= seq![s[0]] + rt);
        lemma_lex_total(key(x), key(s[0]));
        assert(lex_lt(key(s[0]), key(x)));
        let rk = r.map_values(key);
        let rtk = rt.map_values(key);
        assert forall|i: int, j: int| 0 <= i < j < rk.len() implies lex_lt(#[trigger] rk[i], #[trigger] rk[j]) by {
            assert(rk.len() == rt.len() + 1);
            if i == 0 {
                let z = rt[j - 1];
                assert(rt.contains(z));
                assert(rk[j] == key(z));
                if z != x {
                    let m = choose|m: int| 0 <= m < t.len() && t[m] == z;
                    assert(ks[m + 1] == key(z));
                    assert(lex_lt(ks[0], ks[m + 1]));
                }
            } else {
                assert(rk[i] == rtk[i - 1] && rk[j] == rtk[j - 1]);
            }
        }
        assert(rt.contains(x));
        let ix = choose|i: int| 0 <= i < rt.len() && rt[i] == x;
        assert(r[ix + 1] == x);
        assert forall|y: T| s.contains(y) && key(y) != key(x) implies #[trigger] r.contains(y) by {
            let i = choose|i: int| 0 <= i < s.len() && s[i] == y;
            if i == 0 {
                assert(r[0] == y);
            } else {
                assert(t[i - 1] == y);
                assert(t.contains(y));
                assert(rt.contains(y));
                let m = choose|m: int| 0 <= m < rt.len() && rt[m] == y;
                assert(r[m + 1] == y);
            }
        }
        assert forall|z: T| #[trigger] r.contains(z) implies z == x || (s.contains(z) && key(z) != key(x)) by {
            let i = choose|i: int| 0 <= i < r.len() && r[i] == z;
            if i == 0 {
                assert(s[0] == z);
            } else {
                assert(rt[i - 1] == z);
                assert(rt.contains(z));
                if z != x {
                    let m = choose|m: int| 0 <= m < t.len() && t[m] == z;
                    assert(s[m + 1] == z);
                }
            }
        }
    }
}

/// Putting `x` at the slot that the sorted keys give is the keyed insertion.
pub proof fn lemma_keyed_insert_at<T>(s: Seq<T>, key: spec_fn(T) -> Seq<char>, x: T, p: int, found: bool)
    requires
        0 <= p <= s.len(),
        forall|i: int| 0 <= i < p ==> lex_lt(#[trigger] key(s[i]), key(x)),
        found ==> p < s.len() && key(s[p]) == key(x),
        !found ==> forall|i: int| p <= i < s.len() ==> lex_lt(key(x), #[trigger] key(s[i])),
    ensures
        keyed_insert(s, key, x) == if found {
            s.update(p, x)
        } else {
            s.insert(p, x)
        },
    decreases s.len(),
{
    if p == 0 {
        if found {
            assert(seq![x] + s.drop_first() =~= s.update(0, x));
        } else if s.len() == 0 {
            assert(seq![x] =~= s.insert(0, x));
        } else {
            assert(key(s[0]) != key(x)) by {
                lemma_lex_irreflexive(key(x));
            }
            assert(seq![x] + s =~= s.insert(0, x));
        }
    } else {
        assert(lex_lt(key(s[0]), key(x)));
        lemma_lex_total(key(s[0]), key(x));
        lemma_lex_irreflexive(key(x));
        let t = s.drop_first();
        assert forall|i: int| 0 <= i < p - 1 implies lex_lt(#[trigger] key(t[i]), key(x)) by {
            assert(t[i] == s[i + 1]);
        }
        assert forall|i: int| p - 1 <= i < t.len() && !found implies lex_lt(key(x), #[trigger] key(t[i])) by {
            assert(t[i] == s[i + 1]);
        }
        lemma_keyed_insert_at(t, key, x, p - 1, found);
        if found {
            assert(seq![s[0]] + t.update(p - 1, x) =~= s.update(p, x));
        } else {
            assert(seq![s[0]] + t.insert(p - 1, x) =~= s.insert(p, x));
        }
    }
}

/// The items of `s` joined into one sequence.
pub open spec fn concat_all(s: Seq<Seq<char>>) -> Seq<char>
    decreases s.len(),
{
    if s.len() == 0 {
        Seq::empty()
    } else {
        concat_all(s.drop_last()) + s.last()
    }
}

/// The keys of a list of pairs, in their order.
pub fn pair_keys(v: &Vec<(String, String)>) -> (r: Vec<String>)
    ensures
        strings_view(r@) == pairs_view(v@).map_values(|p: (Seq<char>, Seq<char>)| p.0),
{
    let mut r: Vec<String> = Vec::new();
    let mut i: usize = 0;
    while i < v.len()
        invariant
            i <= v.len(),
            r@.len() == i,
            forall|k: int| 0 <= k < i ==> #[trigger] r@[k]@ == v@[k].0@,
        decreases v.len() - i,
    {
        r.push(v[i].0.clone());
        i = i + 1;
    }
    assert(strings_view(r@) =~= pairs_view(v@).map_values(|p: (Seq<char>, Seq<char>)| p.0));
    r
}

/// The views of a list of pairs of strings.
pub open spec fn pairs_view(v: Seq<(String, String)>) -> Seq<(Seq<char>, Seq<char>)> {
    v.map_values(|p: (String, String)| (p.0@, p.1@))
}

/// The keys of the pairs are in the order of `String`, each once.
pub open spec fn pairs_sorted(v: Seq<(Seq<char>, Seq<char>)>) -> bool {
    strictly_sorted(v.map_values(|p: (Seq<char>, Seq<char>)| p.0))
}

/// Puts `(key, value)` into the pairs, whose keys are in the order of
/// `String`: in place of the pair with that key, or where the key belongs.
pub fn insert_pair(v: &mut Vec<(String, String)>, key: &str, value: &str)
    requires
        pairs_sorted(pairs_view(old(v)@)),
    ensures
        pairs_sorted(pairs_view(final(v)@)),
        pairs_view(final(v)@) == keyed_insert(
            pairs_view(old(v)@),
            |p: (Seq<char>, Seq<char>)| p.0,
            (key@, value@),
        ),
{
    let ghost pv = pairs_view(v@);
    let ghost kf = |p: (Seq<char>, Seq<char>)| p.0;
    let keys = pair_keys(v);
    let ghost ks = strings_view(keys@);
    assert(ks =~= pv.map_values(kf));
    let (p, found) = sorted_slot(&keys, key);
    proof {
        assert forall|i: int| 0 <= i < p implies lex_lt(#[trigger] kf(pv[i]), kf((key@, value@))) by {
            assert(ks[i] == kf(pv[i]));
        }
        assert forall|i: int| p <= i < pv.len() && !found implies lex_lt(
            kf((key@, value@)),
            #[trigger] kf(pv[i]),
        ) by {
            assert(ks[i] == kf(pv[i]));
        }
        if found {
            assert(ks[p as int] == kf(pv[p as int]));
        }
        lemma_keyed_insert_at(pv, kf, (key@, value@), p as int, found);
    }
    if found {
        v.set(p, (owned(key), owned(value)));
        assert(pairs_view(v@) =~= pv.update(p as int, (key@, value@)));
    } else {
        v.insert(p, (owned(key), owned(value)));
        assert(pairs_view(v@) =~= pv.insert(p as int, (key@, value@)));
    }
    let ghost nv = pairs_view(v@);
    let ghost nks = nv.map_values(kf);
    assert forall|i: int, j: int| 0 <= i < j < nks.len() implies lex_lt(
        #[trigger] nks[i],
        #[trigger] nks[j],
    ) by {
        if found {
            assert(nks[i] == ks[i] || i == p);
            if i == p {
                assert(nks[i] == ks[p as int]);
            }
            if j == p {
                assert(nks[j] == ks[p as int]);
            }
            assert(nks[i] == ks[i] && nks[j] == ks[j]);
        } else {
            if j < p {
                assert(nks[i] == ks[i] && nks[j] == ks[j]);
            } else if j == p {
                assert(nks[i] == ks[i]);
            } else if i < p {
                assert(nks[i] == ks[i] && nks[j] == ks[j - 1]);
                lemma_lex_transitive(ks[i], key@, ks[j - 1]);
            } else if i == p {
                assert(nks[j] == ks[j - 1]);
            } else {
                assert(nks[i] == ks[i - 1] && nks[j] == ks[j - 1]);
            }
        }
    }
}

} // verus!
