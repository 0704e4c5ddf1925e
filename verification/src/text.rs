//! Character-level text model shared by every parser: Unicode
//! whitespace, trimming, UTF-8 byte lengths, searching, splitting,
//! joining and replacing over `Seq<char>`.
use vstd::prelude::*;
use vstd::string::*;
use vstd::utf8::*;

verus! {

/// `String::push` appends one character to the end of the string.
pub assume_specification[ String::push ](s: &mut String, ch: char)
    ensures
        final(s)@ == old(s)@.push(ch),
;

// ---------------------------------------------------------------------
// Whitespace (Unicode `White_Space`, as `char::is_whitespace` defines it)
// ---------------------------------------------------------------------

/// The Unicode `White_Space` property.
pub open spec fn is_ws(c: char) -> bool {
    let u = c as u32;
    ||| 0x9 <= u <= 0xd
    ||| u == 0x20
    ||| u == 0x85
    ||| u == 0xa0
    ||| u == 0x1680
    ||| 0x2000 <= u <= 0x200a
    ||| u == 0x2028
    ||| u == 0x2029
    ||| u == 0x202f
    ||| u == 0x205f
    ||| u == 0x3000
}

/// `char::is_whitespace`.
pub fn is_whitespace(c: char) -> (b: bool)
    ensures
        b == is_ws(c),
{
    let u = c as u32;
    (0x9 <= u && u <= 0xd) || u == 0x20 || u == 0x85 || u == 0xa0 || u == 0x1680 || (0x2000 <= u
        && u <= 0x200a) || u == 0x2028 || u == 0x2029 || u == 0x202f || u == 0x205f || u == 0x3000
}

/// First index in `[i, hi)` whose character is not whitespace, or `hi`.
pub open spec fn skip_ws(s: Seq<char>, i: int, hi: int) -> int
    decreases hi - i,
{
    if i < hi && is_ws(s[i]) {
        skip_ws(s, i + 1, hi)
    } else {
        i
    }
}

/// Scanning back from `j` (down to `lo`), the end of the last
/// non-whitespace character, or `lo`.
pub open spec fn skip_ws_back(s: Seq<char>, lo: int, j: int) -> int
    decreases j - lo,
{
    if lo < j && is_ws(s[j - 1]) {
        skip_ws_back(s, lo, j - 1)
    } else {
        j
    }
}

/// `str::trim_start`.
pub open spec fn trim_start(s: Seq<char>) -> Seq<char> {
    s.subrange(skip_ws(s, 0, s.len() as int), s.len() as int)
}

/// `str::trim_end`.
pub open spec fn trim_end(s: Seq<char>) -> Seq<char> {
    s.subrange(0, skip_ws_back(s, 0, s.len() as int))
}

/// `str::trim`.
pub open spec fn trim(s: Seq<char>) -> Seq<char> {
    trim_end(trim_start(s))
}

/// True when `s` holds only whitespace (so `trim(s)` is empty).
pub open spec fn is_blank(s: Seq<char>) -> bool {
    forall|k: int| 0 <= k < s.len() ==> is_ws(#[trigger] s[k])
}

pub proof fn lemma_skip_ws_bounds(s: Seq<char>, i: int, hi: int)
    requires
        i <= hi,
    ensures
        i <= skip_ws(s, i, hi) <= hi,
        forall|k: int| i <= k < skip_ws(s, i, hi) ==> is_ws(#[trigger] s[k]),
        skip_ws(s, i, hi) < hi ==> !is_ws(s[skip_ws(s, i, hi)]),
    decreases hi - i,
{
    if i < hi && is_ws(s[i]) {
        lemma_skip_ws_bounds(s, i + 1, hi);
    }
}

pub proof fn lemma_skip_ws_back_bounds(s: Seq<char>, lo: int, j: int)
    requires
        lo <= j,
    ensures
        lo <= skip_ws_back(s, lo, j) <= j,
        forall|k: int| skip_ws_back(s, lo, j) <= k < j ==> is_ws(#[trigger] s[k]),
        skip_ws_back(s, lo, j) > lo ==> !is_ws(s[skip_ws_back(s, lo, j) - 1]),
    decreases j - lo,
{
    if lo < j && is_ws(s[j - 1]) {
        lemma_skip_ws_back_bounds(s, lo, j - 1);
    }
}

/// `skip_ws` over a window of `s` is `skip_ws` over `s`, shifted.
pub proof fn lemma_skip_ws_shift(s: Seq<char>, lo: int, hi: int, i: int, j: int)
    requires
        0 <= lo <= hi <= s.len(),
        0 <= i <= j <= hi - lo,
    ensures
        skip_ws(s.subrange(lo, hi), i, j) == skip_ws(s, lo + i, lo + j) - lo,
    decreases j - i,
{
    if i < j {
        assert(s.subrange(lo, hi)[i] == s[lo + i]);
        lemma_skip_ws_shift(s, lo, hi, i + 1, j);
    }
}

pub proof fn lemma_skip_ws_back_shift(s: Seq<char>, lo: int, hi: int, i: int, j: int)
    requires
        0 <= lo <= hi <= s.len(),
        0 <= i <= j <= hi - lo,
    ensures
        skip_ws_back(s.subrange(lo, hi), i, j) == skip_ws_back(s, lo + i, lo + j) - lo,
    decreases j - i,
{
    if i < j {
        assert(s.subrange(lo, hi)[j - 1] == s[lo + j - 1]);
        lemma_skip_ws_back_shift(s, lo, hi, i, j - 1);
    }
}

/// The trim of a window `[lo, hi)` of `s`, as bounds into `s`.
pub proof fn lemma_trim_window(s: Seq<char>, lo: int, hi: int)
    requires
        0 <= lo <= hi <= s.len(),
    ensures
        ({
            let a = skip_ws(s, lo, hi);
            let b = skip_ws_back(s, a, hi);
            &&& lo <= a <= b <= hi
            &&& trim(s.subrange(lo, hi)) == s.subrange(a, b)
            &&& trim_start(s.subrange(lo, hi)) == s.subrange(a, hi)
        }),
{
    let w = s.subrange(lo, hi);
    let a = skip_ws(s, lo, hi);
    lemma_skip_ws_bounds(s, lo, hi);
    lemma_skip_ws_shift(s, lo, hi, 0, hi - lo);
    let ts = trim_start(w);
    assert(ts == s.subrange(a, hi));
    lemma_skip_ws_back_shift(s, a, hi, 0, hi - a);
    lemma_skip_ws_back_bounds(s, a, hi);
    assert(s.subrange(a, hi).subrange(0, skip_ws_back(s, a, hi) - a) == s.subrange(
        a,
        skip_ws_back(s, a, hi),
    ));
}

/// `trim(s)` is empty exactly when `s` is all whitespace.
pub proof fn lemma_trim_empty_iff_blank(s: Seq<char>)
    ensures
        (trim(s).len() == 0) == is_blank(s),
{
    lemma_trim_window(s, 0, s.len() as int);
    assert(s.subrange(0, s.len() as int) == s);
    lemma_skip_ws_bounds(s, 0, s.len() as int);
    let a = skip_ws(s, 0, s.len() as int);
    lemma_skip_ws_back_bounds(s, a, s.len() as int);
}

/// A sequence that starts and ends with non-whitespace is its own trim.
pub proof fn lemma_trim_fixed(s: Seq<char>)
    requires
        s.len() > 0,
        !is_ws(s[0]),
        !is_ws(s[s.len() - 1]),
    ensures
        trim(s) == s,
        trim_start(s) == s,
{
    assert(skip_ws(s, 0, s.len() as int) == 0);
    assert(s.subrange(0, s.len() as int) == s);
    assert(skip_ws_back(s, 0, s.len() as int) == s.len());
}

/// Index of the first non-whitespace character in `[i, hi)`, or `hi`.
pub fn skip_whitespace(v: &Vec<char>, i: usize, hi: usize) -> (r: usize)
    requires
        i <= hi <= v.len(),
    ensures
        r == skip_ws(v@, i as int, hi as int),
        i <= r <= hi,
{
    proof {
        lemma_skip_ws_bounds(v@, i as int, hi as int);
    }
    let mut k = i;
    while k < hi && is_whitespace(v[k])
        invariant
            i <= k <= hi <= v.len(),
            skip_ws(v@, k as int, hi as int) == skip_ws(v@, i as int, hi as int),
        decreases hi - k,
    {
        k += 1;
    }
    k
}

/// Scanning back from `j` to `lo`: the end of the last non-whitespace
/// character, or `lo`.
pub fn skip_whitespace_back(v: &Vec<char>, lo: usize, j: usize) -> (r: usize)
    requires
        lo <= j <= v.len(),
    ensures
        r == skip_ws_back(v@, lo as int, j as int),
        lo <= r <= j,
{
    proof {
        lemma_skip_ws_back_bounds(v@, lo as int, j as int);
    }
    let mut k = j;
    while k > lo && is_whitespace(v[k - 1])
        invariant
            lo <= k <= j <= v.len(),
            skip_ws_back(v@, lo as int, k as int) == skip_ws_back(v@, lo as int, j as int),
        decreases k,
    {
        k -= 1;
    }
    k
}

/// Bounds `(a, b)` in `v` of the trim of the window `[lo, hi)`.
pub fn trim_window(v: &Vec<char>, lo: usize, hi: usize) -> (r: (usize, usize))
    requires
        lo <= hi <= v.len(),
    ensures
        lo <= r.0 <= r.1 <= hi,
        v@.subrange(r.0 as int, r.1 as int) == trim(v@.subrange(lo as int, hi as int)),
        v@.subrange(r.0 as int, hi as int) == trim_start(v@.subrange(lo as int, hi as int)),
{
    let a = skip_whitespace(v, lo, hi);
    let b = skip_whitespace_back(v, a, hi);
    proof {
        lemma_trim_window(v@, lo as int, hi as int);
    }
    (a, b)
}

// ---------------------------------------------------------------------
// UTF-8 byte lengths (what `str::len` counts)
// ---------------------------------------------------------------------

/// Number of bytes in the UTF-8 encoding of `c`.
pub open spec fn char_width(c: char) -> nat {
    let u = c as u32;
    if u <= 0x7f {
        1
    } else if u <= 0x7ff {
        2
    } else if u <= 0xffff {
        3
    } else {
        4
    }
}

/// Number of bytes in the UTF-8 encoding of `s`.
pub open spec fn byte_len(s: Seq<char>) -> nat
    decreases s.len(),
{
    if s.len() == 0 {
        0
    } else {
        byte_len(s.drop_last()) + char_width(s.last())
    }
}

pub proof fn lemma_byte_len_concat(a: Seq<char>, b: Seq<char>)
    ensures
        byte_len(a + b) == byte_len(a) + byte_len(b),
    decreases b.len(),
{
    if b.len() == 0 {
        assert(a + b == a);
    } else {
        lemma_byte_len_concat(a, b.drop_last());
        assert((a + b).drop_last() == a + b.drop_last());
        assert((a + b).last() == b.last());
    }
}

pub proof fn lemma_byte_len_bounds(s: Seq<char>)
    ensures
        s.len() <= byte_len(s) <= 4 * s.len(),
    decreases s.len(),
{
    if s.len() > 0 {
        lemma_byte_len_bounds(s.drop_last());
    }
}

/// Byte length of a window grows with the window.
pub proof fn lemma_byte_len_split(s: Seq<char>, i: int, j: int, k: int)
    requires
        0 <= i <= j <= k <= s.len(),
    ensures
        byte_len(s.subrange(i, k)) == byte_len(s.subrange(i, j)) + byte_len(s.subrange(j, k)),
{
    assert(s.subrange(i, k) == s.subrange(i, j) + s.subrange(j, k));
    lemma_byte_len_concat(s.subrange(i, j), s.subrange(j, k));
}

/// `byte_len` agrees with vstd's UTF-8 encoder, so it is what `str::len`
/// returns.
pub proof fn lemma_byte_len_is_utf8_len(s: Seq<char>)
    ensures
        byte_len(s) == encode_utf8(s).len(),
    decreases s.len(),
{
    if s.len() > 0 {
        lemma_byte_len_is_utf8_len(s.drop_first());
        char_is_scalar(s[0]);
        let u = s[0] as u32;
        assert(encode_scalar(u).len() == char_width(s[0]));
        assert(encode_utf8(s).len() == encode_scalar(u).len() + encode_utf8(s.drop_first()).len());
        assert(byte_len(seq![s[0]]) == char_width(s[0])) by {
            assert(seq![s[0]].drop_last() =~= Seq::<char>::empty());
            assert(byte_len(Seq::<char>::empty()) == 0);
            assert(seq![s[0]].last() == s[0]);
        }
        assert(s == seq![s[0]] + s.drop_first());
        lemma_byte_len_concat(seq![s[0]], s.drop_first());
        assert(seq![s[0]].drop_last() =~= Seq::<char>::empty());
    }
}

/// UTF-8 width of one character (`char::len_utf8`).
pub fn utf8_width(c: char) -> (w: usize)
    ensures
        w == char_width(c),
{
    let u = c as u32;
    if u <= 0x7f {
        1
    } else if u <= 0x7ff {
        2
    } else if u <= 0xffff {
        3
    } else {
        4
    }
}

/// UTF-8 byte length of the window `[lo, hi)` of `v`.
pub fn window_byte_len(v: &Vec<char>, lo: usize, hi: usize) -> (n: usize)
    requires
        lo <= hi <= v.len(),
        byte_len(v@.subrange(lo as int, hi as int)) <= usize::MAX,
    ensures
        n == byte_len(v@.subrange(lo as int, hi as int)),
{
    let mut n: usize = 0;
    let mut k = lo;
    while k < hi
        invariant
            lo <= k <= hi <= v.len(),
            n == byte_len(v@.subrange(lo as int, k as int)),
            byte_len(v@.subrange(lo as int, hi as int)) <= usize::MAX,
        decreases hi - k,
    {
        proof {
            lemma_byte_len_split(v@, lo as int, k + 1, hi as int);
            assert(v@.subrange(lo as int, k + 1).drop_last() == v@.subrange(lo as int, k as int));
        }
        n = n + utf8_width(v[k]);
        k += 1;
    }
    n
}

/// UTF-8 byte length of the window `[lo, hi)` of `v`, or `None` when it
/// does not fit in a `usize`.
pub fn checked_window_byte_len(v: &Vec<char>, lo: usize, hi: usize) -> (n: Option<usize>)
    requires
        lo <= hi <= v.len(),
    ensures
        n matches Some(k) ==> k == byte_len(v@.subrange(lo as int, hi as int)),
        n is None ==> byte_len(v@.subrange(lo as int, hi as int)) > usize::MAX,
{
    let mut n: usize = 0;
    let mut k = lo;
    while k < hi
        invariant
            lo <= k <= hi <= v.len(),
            n == byte_len(v@.subrange(lo as int, k as int)),
        decreases hi - k,
    {
        proof {
            lemma_byte_len_split(v@, lo as int, k + 1, hi as int);
            lemma_byte_len_split(v@, lo as int, k as int, k + 1);
            assert(v@.subrange(lo as int, k + 1).drop_last() == v@.subrange(lo as int, k as int));
        }
        let w = utf8_width(v[k]);
        if n > usize::MAX - w {
            proof {
                lemma_byte_len_split(v@, lo as int, k + 1, hi as int);
            }
            return None;
        }
        n = n + w;
        k += 1;
    }
    Some(n)
}

// ---------------------------------------------------------------------
// Conversions between `str`/`String` and `Vec<char>`
// ---------------------------------------------------------------------

/// The characters of `s`, in order.
pub fn chars_of(s: &str) -> (v: Vec<char>)
    ensures
        v@ == s@,
{
    let mut v: Vec<char> = Vec::new();
    for c in it: s.chars()
        invariant
            v@ == it.seq().take(it.index() as int),
    {
        v.push(c);
    }
    v
}

#[verifier::external_type_specification]
#[verifier::external_body]
pub struct ExUtf8Error(std::str::Utf8Error);

/// Calls `std::str::from_utf8`, which succeeds exactly when `raw` is valid
/// UTF-8 and then yields the text those bytes encode; the characters are
/// returned in order.
#[verifier::external_body]
pub(crate) fn utf8_chars(raw: &[u8]) -> (r: Result<Vec<char>, std::str::Utf8Error>)
    ensures
        (r is Ok) == valid_utf8(raw@),
        r matches Ok(v) ==> v@ == decode_utf8(raw@),
{
    std::str::from_utf8(raw).map(|s| s.chars().collect())
}

/// Decoded UTF-8 has the byte length of the bytes it came from.
pub proof fn lemma_decoded_byte_len(raw: Seq<u8>)
    requires
        valid_utf8(raw),
    ensures
        byte_len(decode_utf8(raw)) == raw.len(),
{
    decode_utf8_encode_utf8(raw);
    lemma_byte_len_is_utf8_len(decode_utf8(raw));
}

/// A `String` holding the window `[lo, hi)` of `v`.
pub fn string_of_window(v: &Vec<char>, lo: usize, hi: usize) -> (s: String)
    requires
        lo <= hi <= v.len(),
    ensures
        s@ == v@.subrange(lo as int, hi as int),
{
    let mut s = String::new();
    let mut i: usize = lo;
    while i < hi
        invariant
            lo <= i <= hi <= v.len(),
            s@ == v@.subrange(lo as int, i as int),
        decreases hi - i,
    {
        s.push(v[i]);
        i += 1;
        assert(v@.subrange(lo as int, i as int) == v@.subrange(lo as int, i - 1).push(v@[i - 1]));
    }
    s
}

/// A `String` holding exactly the characters of `v`.
pub fn string_of(v: &Vec<char>) -> (s: String)
    ensures
        s@ == v@,
{
    let s = string_of_window(v, 0, v.len());
    assert(v@.subrange(0, v@.len() as int) == v@);
    s
}

/// Appends the window `[lo, hi)` of `src` to `dst`.
pub fn extend_window(dst: &mut Vec<char>, src: &Vec<char>, lo: usize, hi: usize)
    requires
        lo <= hi <= src.len(),
    ensures
        final(dst)@ == old(dst)@ + src@.subrange(lo as int, hi as int),
{
    let mut i = lo;
    while i < hi
        invariant
            lo <= i <= hi <= src.len(),
            dst@ == old(dst)@ + src@.subrange(lo as int, i as int),
        decreases hi - i,
    {
        dst.push(src[i]);
        i += 1;
        assert(src@.subrange(lo as int, i as int) == src@.subrange(lo as int, i - 1).push(
            src@[i - 1],
        ));
    }
}

/// Appends all of `src` to `dst`.
pub fn extend_all(dst: &mut Vec<char>, src: &Vec<char>)
    ensures
        final(dst)@ == old(dst)@ + src@,
{
    extend_window(dst, src, 0, src.len());
    assert(src@.subrange(0, src@.len() as int) == src@);
}

/// Whether `a` and `b` hold the same characters.
pub fn chars_eq(a: &Vec<char>, b: &Vec<char>) -> (r: bool)
    ensures
        r == (a@ == b@),
{
    if a.len() != b.len() {
        return false;
    }
    let mut i: usize = 0;
    while i < a.len()
        invariant
            a.len() == b.len(),
            i <= a.len(),
            forall|k: int| 0 <= k < i ==> a@[k] == b@[k],
        decreases a.len() - i,
    {
        if a[i] != b[i] {
            return false;
        }
        i += 1;
    }
    assert(a@ =~= b@);
    true
}

/// Whether the characters of `v` are exactly those of `lit`.
pub fn eq_lit(v: &Vec<char>, lit: &str) -> (b: bool)
    ensures
        b == (v@ == lit@),
{
    let l = chars_of(lit);
    chars_eq(v, &l)
}

/// Appends the characters of `s` to `dst`.
pub fn extend_str(dst: &mut Vec<char>, s: &str)
    ensures
        final(dst)@ == old(dst)@ + s@,
{
    let v = chars_of(s);
    extend_all(dst, &v);
}

// ---------------------------------------------------------------------
// Lowercasing (`str::to_lowercase`)
// ---------------------------------------------------------------------

/// What `str::to_lowercase` returns for a string with characters `s`.
pub uninterp spec fn lowercase(s: Seq<char>) -> Seq<char>;

/// Calls `str::to_lowercase` (Unicode lowercase mapping) on the characters
/// of `v`. The result is a function of `v`'s characters alone; its exact
/// value (the Unicode case tables) is not stated.
#[verifier::external_body]
pub(crate) fn to_lowercase(v: &Vec<char>) -> (r: Vec<char>)
    ensures
        r@ == lowercase(v@),
{
    let s: String = v.iter().collect();
    s.to_lowercase().chars().collect()
}

// ---------------------------------------------------------------------
// Matching
// ---------------------------------------------------------------------

/// `p` occurs in `s` at index `i`.
pub open spec fn occurs_at(s: Seq<char>, p: Seq<char>, i: int) -> bool {
    0 <= i && i + p.len() <= s.len() && s.subrange(i, i + p.len()) == p
}

/// `str::starts_with`.
pub open spec fn starts_with(s: Seq<char>, p: Seq<char>) -> bool {
    occurs_at(s, p, 0)
}

/// `str::ends_with`.
pub open spec fn ends_with(s: Seq<char>, p: Seq<char>) -> bool {
    p.len() <= s.len() && occurs_at(s, p, s.len() - p.len())
}

/// Whether `p` occurs in `v` at index `i`.
pub fn occurs_at_exec(v: &Vec<char>, p: &Vec<char>, i: usize) -> (b: bool)
    ensures
        b == occurs_at(v@, p@, i as int),
{
    if i > v.len() || p.len() > v.len() - i {
        return false;
    }
    let mut k: usize = 0;
    while k < p.len()
        invariant
            i + p.len() <= v.len(),
            k <= p.len(),
            forall|m: int| 0 <= m < k ==> v@[i + m] == p@[m],
        decreases p.len() - k,
    {
        if v[i + k] != p[k] {
            assert(v@.subrange(i as int, i + p.len())[k as int] != p@[k as int]);
            return false;
        }
        k += 1;
    }
    assert(v@.subrange(i as int, i + p.len()) =~= p@);
    true
}

/// `str::starts_with` over character vectors.
pub fn starts_with_exec(v: &Vec<char>, p: &Vec<char>) -> (b: bool)
    ensures
        b == starts_with(v@, p@),
{
    occurs_at_exec(v, p, 0)
}

/// `str::ends_with` over character vectors.
pub fn ends_with_exec(v: &Vec<char>, p: &Vec<char>) -> (b: bool)
    ensures
        b == ends_with(v@, p@),
{
    if p.len() > v.len() {
        false
    } else {
        occurs_at_exec(v, p, v.len() - p.len())
    }
}

/// First index `>= i` at which `p` occurs in `s` (`str::find` from `i`).
pub open spec fn find_from(s: Seq<char>, p: Seq<char>, i: int) -> Option<int>
    decreases s.len() + 1 - i,
{
    if i < 0 || i + p.len() > s.len() {
        None
    } else if occurs_at(s, p, i) {
        Some(i)
    } else {
        find_from(s, p, i + 1)
    }
}

pub proof fn lemma_find_from(s: Seq<char>, p: Seq<char>, i: int)
    requires
        0 <= i,
    ensures
        find_from(s, p, i) matches Some(j) ==> i <= j && j + p.len() <= s.len() && occurs_at(
            s,
            p,
            j,
        ) && forall|k: int| i <= k < j ==> !occurs_at(s, p, k),
        find_from(s, p, i) is None ==> forall|k: int| i <= k ==> !occurs_at(s, p, k),
    decreases s.len() + 1 - i,
{
    if i + p.len() > s.len() {
    } else if occurs_at(s, p, i) {
    } else {
        lemma_find_from(s, p, i + 1);
    }
}

/// `str::find` starting at index `i`.
pub fn find_exec(v: &Vec<char>, p: &Vec<char>, i: usize) -> (r: Option<usize>)
    ensures
        r matches Some(j) ==> find_from(v@, p@, i as int) == Some(j as int),
        r matches Some(j) ==> i <= j && j + p@.len() <= v@.len() && occurs_at(v@, p@, j as int),
        r is None ==> find_from(v@, p@, i as int) is None,
{
    if i > v.len() || p.len() > v.len() - i {
        return None;
    }
    let mut k = i;
    loop
        invariant
            i <= k <= v.len(),
            find_from(v@, p@, k as int) == find_from(v@, p@, i as int),
        decreases v.len() - k,
    {
        if p.len() > v.len() - k {
            return None;
        }
        if occurs_at_exec(v, p, k) {
            return Some(k);
        }
        if k == v.len() {
            assert(find_from(v@, p@, k + 1) is None);
            return None;
        }
        k += 1;
    }
}

/// First index `>= i` holding `c`.
pub fn find_char(v: &Vec<char>, c: char, i: usize) -> (r: Option<usize>)
    ensures
        r matches Some(j) ==> i <= j < v.len() && v@[j as int] == c && forall|k: int|
            i <= k < j ==> v@[k] != c,
        r is None ==> forall|k: int| i <= k < v.len() ==> v@[k] != c,
{
    let mut k = i;
    while k < v.len()
        invariant
            i <= k,
            forall|m: int| i <= m < k && m < v.len() ==> v@[m] != c,
        decreases v.len() - k,
    {
        if v[k] == c {
            return Some(k);
        }
        k += 1;
    }
    None
}

// ---------------------------------------------------------------------
// Replacing (`str::replace`)
// ---------------------------------------------------------------------

/// `str::replace(s, p, r)`: every non-overlapping occurrence of `p`,
/// scanning left to right, replaced by `r`.
pub open spec fn replace(s: Seq<char>, p: Seq<char>, r: Seq<char>) -> Seq<char>
    recommends
        p.len() > 0,
    decreases s.len(),
{
    if s.len() == 0 || p.len() == 0 {
        s
    } else if starts_with(s, p) {
        r + replace(s.subrange(p.len() as int, s.len() as int), p, r)
    } else {
        seq![s[0]] + replace(s.drop_first(), p, r)
    }
}

/// `replace` of the suffix from `i`, as a function of the position.
pub open spec fn replace_from(s: Seq<char>, p: Seq<char>, r: Seq<char>, i: int) -> Seq<char> {
    replace(s.subrange(i, s.len() as int), p, r)
}

pub proof fn lemma_replace_step(s: Seq<char>, p: Seq<char>, r: Seq<char>, i: int)
    requires
        0 <= i < s.len(),
        p.len() > 0,
    ensures
        occurs_at(s, p, i) ==> replace_from(s, p, r, i) == r + replace_from(
            s,
            p,
            r,
            i + p.len(),
        ),
        !occurs_at(s, p, i) ==> replace_from(s, p, r, i) == seq![s[i]] + replace_from(
            s,
            p,
            r,
            i + 1,
        ),
{
    let t = s.subrange(i, s.len() as int);
    if occurs_at(s, p, i) {
        assert(t.subrange(0, p.len() as int) == s.subrange(i, i + p.len()));
        assert(t.subrange(p.len() as int, t.len() as int) == s.subrange(
            i + p.len(),
            s.len() as int,
        ));
    } else {
        if starts_with(t, p) {
            assert(t.subrange(0, p.len() as int) == s.subrange(i, i + p.len()));
        }
        assert(t.drop_first() == s.subrange(i + 1, s.len() as int));
    }
}

/// `str::replace` over character vectors.
pub fn replace_exec(v: &Vec<char>, p: &Vec<char>, r: &Vec<char>) -> (out: Vec<char>)
    requires
        p.len() > 0,
    ensures
        out@ == replace(v@, p@, r@),
{
    let mut out: Vec<char> = Vec::new();
    let mut i: usize = 0;
    assert(v@.subrange(0, v@.len() as int) == v@);
    while i < v.len()
        invariant
            i <= v.len(),
            p.len() > 0,
            out@ + replace_from(v@, p@, r@, i as int) == replace(v@, p@, r@),
        decreases v.len() - i,
    {
        proof {
            lemma_replace_step(v@, p@, r@, i as int);
        }
        if occurs_at_exec(v, p, i) {
            extend_all(&mut out, r);
            i = i + p.len();
        } else {
            out.push(v[i]);
            i = i + 1;
        }
    }
    assert(v@.subrange(v@.len() as int, v@.len() as int) =~= Seq::<char>::empty());
    out
}

/// Replaces every occurrence of literal `p` by literal `r`.
pub fn replace_str(v: &Vec<char>, p: &str, r: &str) -> (out: Vec<char>)
    requires
        p@.len() > 0,
    ensures
        out@ == replace(v@, p@, r@),
{
    let pv = chars_of(p);
    let rv = chars_of(r);
    replace_exec(v, &pv, &rv)
}

// ---------------------------------------------------------------------
// Splitting on whitespace and joining
// ---------------------------------------------------------------------

/// State of `split_whitespace` after a prefix: words finished so far and
/// the word being read.
pub open spec fn words_state(s: Seq<char>, n: int) -> (Seq<Seq<char>>, Seq<char>)
    decreases n,
{
    if n <= 0 {
        (seq![], seq![])
    } else {
        let (done, cur) = words_state(s, n - 1);
        if is_ws(s[n - 1]) {
            if cur.len() > 0 {
                (done.push(cur), seq![])
            } else {
                (done, cur)
            }
        } else {
            (done, cur.push(s[n - 1]))
        }
    }
}

/// `str::split_whitespace`: the maximal runs of non-whitespace
/// characters, in order.
pub open spec fn words(s: Seq<char>) -> Seq<Seq<char>> {
    let (done, cur) = words_state(s, s.len() as int);
    if cur.len() > 0 {
        done.push(cur)
    } else {
        done
    }
}

/// `str::split_whitespace`.
pub fn split_whitespace(v: &Vec<char>) -> (ws: Vec<Vec<char>>)
    ensures
        ws@.map_values(|w: Vec<char>| w@) == words(v@),
{
    let mut done: Vec<Vec<char>> = Vec::new();
    let mut cur: Vec<char> = Vec::new();
    let mut i: usize = 0;
    while i < v.len()
        invariant
            i <= v.len(),
            (done@.map_values(|w: Vec<char>| w@), cur@) == words_state(v@, i as int),
        decreases v.len() - i,
    {
        let c = v[i];
        if is_whitespace(c) {
            if cur.len() > 0 {
                let ghost before = done@;
                let w = cur;
                cur = Vec::new();
                done.push(w);
                assert(done@.map_values(|w: Vec<char>| w@) =~= before.map_values(
                    |w: Vec<char>| w@,
                ).push(w@));
            }
        } else {
            cur.push(c);
        }
        i += 1;
    }
    if cur.len() > 0 {
        let ghost before = done@;
        let ghost cw = cur@;
        done.push(cur);
        assert(done@.map_values(|w: Vec<char>| w@) =~= before.map_values(|w: Vec<char>| w@).push(
            cw,
        ));
    }
    done
}

/// `parts.join(sep)`.
pub open spec fn join(parts: Seq<Seq<char>>, sep: Seq<char>) -> Seq<char>
    decreases parts.len(),
{
    if parts.len() == 0 {
        seq![]
    } else if parts.len() == 1 {
        parts[0]
    } else {
        join(parts.drop_last(), sep) + sep + parts.last()
    }
}

/// `parts.join(sep)` over character vectors.
pub fn join_exec(parts: &Vec<Vec<char>>, sep: &Vec<char>) -> (out: Vec<char>)
    ensures
        out@ == join(parts@.map_values(|w: Vec<char>| w@), sep@),
{
    let ghost ps = parts@.map_values(|w: Vec<char>| w@);
    let mut out: Vec<char> = Vec::new();
    let mut i: usize = 0;
    while i < parts.len()
        invariant
            i <= parts.len(),
            ps == parts@.map_values(|w: Vec<char>| w@),
            out@ == join(ps.take(i as int), sep@),
        decreases parts.len() - i,
    {
        if i > 0 {
            extend_all(&mut out, sep);
        }
        extend_all(&mut out, &parts[i]);
        proof {
            assert(ps.take(i + 1).drop_last() == ps.take(i as int));
            assert(ps.take(i + 1).last() == parts@[i as int]@);
            if i == 0 {
                assert(ps.take(1) == seq![ps[0]]);
            }
        }
        i += 1;
    }
    assert(ps.take(parts.len() as int) == ps);
    out
}


// ---------------------------------------------------------------------
// Stripping a repeated character (`trim_start_matches(c)` and
// `trim_end_matches(c)` for a single character)
// ---------------------------------------------------------------------

/// First index `>= i` whose character is not `c`, or `s.len()`.
pub open spec fn skip_char(s: Seq<char>, c: char, i: int) -> int
    decreases s.len() - i,
{
    if 0 <= i < s.len() && s[i] == c {
        skip_char(s, c, i + 1)
    } else {
        i
    }
}

/// Scanning back from `j`: the end of the last character that is not `c`,
/// or 0.
pub open spec fn back_char(s: Seq<char>, c: char, j: int) -> int
    decreases j,
{
    if 0 < j <= s.len() && s[j - 1] == c {
        back_char(s, c, j - 1)
    } else {
        j
    }
}

/// `s.trim_start_matches(c)`.
pub open spec fn strip_leading(s: Seq<char>, c: char) -> Seq<char> {
    s.subrange(skip_char(s, c, 0), s.len() as int)
}

/// `s.trim_end_matches(c)`.
pub open spec fn strip_trailing(s: Seq<char>, c: char) -> Seq<char> {
    s.subrange(0, back_char(s, c, s.len() as int))
}

pub proof fn lemma_skip_char_bounds(s: Seq<char>, c: char, i: int)
    requires
        0 <= i <= s.len(),
    ensures
        i <= skip_char(s, c, i) <= s.len(),
    decreases s.len() - i,
{
    if i < s.len() && s[i] == c {
        lemma_skip_char_bounds(s, c, i + 1);
    }
}

pub proof fn lemma_back_char_bounds(s: Seq<char>, c: char, j: int)
    requires
        0 <= j <= s.len(),
    ensures
        0 <= back_char(s, c, j) <= j,
    decreases j,
{
    if 0 < j && s[j - 1] == c {
        lemma_back_char_bounds(s, c, j - 1);
    }
}

/// `trim_start_matches(c)`, as the index where the kept part starts.
pub fn skip_char_exec(v: &Vec<char>, c: char, i: usize) -> (r: usize)
    requires
        i <= v.len(),
    ensures
        r == skip_char(v@, c, i as int),
        i <= r <= v.len(),
{
    proof {
        lemma_skip_char_bounds(v@, c, i as int);
    }
    let mut k = i;
    while k < v.len() && v[k] == c
        invariant
            i <= k <= v.len(),
            skip_char(v@, c, k as int) == skip_char(v@, c, i as int),
        decreases v.len() - k,
    {
        k += 1;
    }
    k
}

/// `trim_end_matches(c)`, as the index where the kept part ends.
pub fn back_char_exec(v: &Vec<char>, c: char, j: usize) -> (r: usize)
    requires
        j <= v.len(),
    ensures
        r == back_char(v@, c, j as int),
        r <= j,
{
    proof {
        lemma_back_char_bounds(v@, c, j as int);
    }
    let mut k = j;
    while k > 0 && v[k - 1] == c
        invariant
            k <= j <= v.len(),
            back_char(v@, c, k as int) == back_char(v@, c, j as int),
        decreases k,
    {
        k -= 1;
    }
    k
}

/// A new vector holding the window `[lo, hi)` of `v`.
pub fn copy_window(v: &Vec<char>, lo: usize, hi: usize) -> (w: Vec<char>)
    requires
        lo <= hi <= v.len(),
    ensures
        w@ == v@.subrange(lo as int, hi as int),
{
    let mut w: Vec<char> = Vec::new();
    extend_window(&mut w, v, lo, hi);
    w
}

/// Whether `v` is all whitespace.
pub fn is_blank_exec(v: &Vec<char>) -> (b: bool)
    ensures
        b == is_blank(v@),
{
    let a = skip_whitespace(v, 0, v.len());
    proof {
        lemma_skip_ws_bounds(v@, 0, v@.len() as int);
    }
    a == v.len()
}

} // verus!
