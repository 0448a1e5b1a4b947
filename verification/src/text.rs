//! Character and string helpers shared by the library's modules.
//!
//! Strings are reasoned about through their `Seq<char>` view.  Most helpers
//! work on `Vec<char>` buffers and turn them back into a `String` at the end.

use vstd::prelude::*;

verus! {

// ── character classes ──────────────────────────────────────────────────────

/// ASCII letter or digit (`char::is_ascii_alphanumeric`).
pub open spec fn is_ascii_alnum_spec(c: char) -> bool {
    ('0' <= c && c <= '9') || ('a' <= c && c <= 'z') || ('A' <= c && c <= 'Z')
}

pub fn is_ascii_alnum(c: char) -> (r: bool)
    ensures
        r == is_ascii_alnum_spec(c),
{
    ('0' <= c && c <= '9') || ('a' <= c && c <= 'z') || ('A' <= c && c <= 'Z')
}

/// Unicode `White_Space` (the set `char::is_whitespace` documents).
pub open spec fn is_ws_spec(c: char) -> bool {
    ||| ('\u{9}' <= c && c <= '\u{d}')
    ||| c == ' '
    ||| c == '\u{85}'
    ||| c == '\u{a0}'
    ||| c == '\u{1680}'
    ||| ('\u{2000}' <= c && c <= '\u{200a}')
    ||| c == '\u{2028}'
    ||| c == '\u{2029}'
    ||| c == '\u{202f}'
    ||| c == '\u{205f}'
    ||| c == '\u{3000}'
}

pub fn is_ws(c: char) -> (r: bool)
    ensures
        r == is_ws_spec(c),
{
    ('\u{9}' <= c && c <= '\u{d}') || c == ' ' || c == '\u{85}' || c == '\u{a0}' || c
        == '\u{1680}' || ('\u{2000}' <= c && c <= '\u{200a}') || c == '\u{2028}' || c
        == '\u{2029}' || c == '\u{202f}' || c == '\u{205f}' || c == '\u{3000}'
}

/// ASCII upper-case letter mapped to lower case; every other char unchanged.
pub open spec fn ascii_lower_spec(c: char) -> char {
    if 'A' <= c && c <= 'Z' {
        ((c as u32) + 32) as char
    } else {
        c
    }
}

/// ASCII lower-case letter mapped to upper case; every other char unchanged.
pub open spec fn ascii_upper_spec(c: char) -> char {
    if 'a' <= c && c <= 'z' {
        ((c as u32) - 32) as char
    } else {
        c
    }
}

pub fn ascii_upper(c: char) -> (r: char)
    ensures
        r == ascii_upper_spec(c),
{
    if 'a' <= c && c <= 'z' {
        let u: u32 = (c as u32) - 32;
        assert(0x41 <= u <= 0x5a);
        char_from_ascii(u)
    } else {
        c
    }
}

/// The char with an ASCII code point.
fn char_from_ascii(u: u32) -> (c: char)
    requires
        u < 128,
    ensures
        c == u as char,
        c as u32 == u,
{
    let b: u8 = u as u8;
    b as char
}

/// The char of a decimal digit.
pub open spec fn digit_char(d: int) -> char {
    (('0' as u32) + d) as char
}

// ── sequences of chars ─────────────────────────────────────────────────────

/// `s` begins with `p`.
pub open spec fn has_prefix(s: Seq<char>, p: Seq<char>) -> bool {
    p.len() <= s.len() && s.subrange(0, p.len() as int) == p
}

/// `s` ends with `p`.
pub open spec fn has_suffix(s: Seq<char>, p: Seq<char>) -> bool {
    p.len() <= s.len() && s.subrange(s.len() - p.len(), s.len() as int) == p
}

/// `p` occurs in `s` starting at index `i`.
pub open spec fn occurs_at(s: Seq<char>, p: Seq<char>, i: int) -> bool {
    0 <= i && i + p.len() <= s.len() && s.subrange(i, i + p.len()) == p
}

/// `p` occurs somewhere in `s` (`str::contains`).
pub open spec fn contains_seq(s: Seq<char>, p: Seq<char>) -> bool {
    exists|i: int| occurs_at(s, p, i)
}

/// Number of leading chars of `s` that are whitespace.
pub open spec fn lead_ws(s: Seq<char>) -> nat
    decreases s.len(),
{
    if s.len() > 0 && is_ws_spec(s[0]) {
        1 + lead_ws(s.drop_first())
    } else {
        0
    }
}

/// Number of trailing chars of `s` that are whitespace.
pub open spec fn trail_ws(s: Seq<char>) -> nat
    decreases s.len(),
{
    if s.len() > 0 && is_ws_spec(s.last()) {
        1 + trail_ws(s.drop_last())
    } else {
        0
    }
}

/// `str::trim`: drop leading and trailing whitespace.
pub open spec fn trim_spec(s: Seq<char>) -> Seq<char> {
    let a = s.skip(lead_ws(s) as int);
    a.take(a.len() - trail_ws(a))
}

pub proof fn lemma_lead_ws(s: Seq<char>)
    ensures
        lead_ws(s) <= s.len(),
        forall|k: int| 0 <= k < lead_ws(s) ==> is_ws_spec(#[trigger] s[k]),
        lead_ws(s) < s.len() ==> !is_ws_spec(s[lead_ws(s) as int]),
    decreases s.len(),
{
    if s.len() > 0 && is_ws_spec(s[0]) {
        lemma_lead_ws(s.drop_first());
        assert forall|k: int| 0 <= k < lead_ws(s) implies is_ws_spec(#[trigger] s[k]) by {
            if k > 0 {
                assert(s[k] == s.drop_first()[k - 1]);
            }
        }
    }
}

pub proof fn lemma_trail_ws(s: Seq<char>)
    ensures
        trail_ws(s) <= s.len(),
        forall|k: int| s.len() - trail_ws(s) <= k < s.len() ==> is_ws_spec(#[trigger] s[k]),
        trail_ws(s) < s.len() ==> !is_ws_spec(s[s.len() - trail_ws(s) - 1]),
    decreases s.len(),
{
    if s.len() > 0 && is_ws_spec(s.last()) {
        lemma_trail_ws(s.drop_last());
        assert forall|k: int| s.len() - trail_ws(s) <= k < s.len() implies is_ws_spec(
            #[trigger] s[k],
        ) by {
            if k < s.len() - 1 {
                assert(s[k] == s.drop_last()[k]);
            }
        }
    }
}

/// Count of leading whitespace, computed.
pub fn count_lead_ws(s: &Vec<char>) -> (n: usize)
    ensures
        n == lead_ws(s@),
{
    let mut i: usize = 0;
    proof {
        lemma_lead_ws(s@);
    }
    while i < s.len() && is_ws(s[i])
        invariant
            i <= s.len(),
            forall|k: int| 0 <= k < i ==> is_ws_spec(#[trigger] s@[k]),
        decreases s.len() - i,
    {
        i = i + 1;
    }
    proof {
        lemma_lead_ws(s@);
        lemma_lead_ws_exact(s@, i as int);
    }
    i
}

proof fn lemma_lead_ws_exact(s: Seq<char>, i: int)
    requires
        0 <= i <= s.len(),
        forall|k: int| 0 <= k < i ==> is_ws_spec(#[trigger] s[k]),
        i == s.len() || !is_ws_spec(s[i]),
    ensures
        lead_ws(s) == i,
    decreases i,
{
    if i > 0 {
        let t = s.drop_first();
        assert forall|k: int| 0 <= k < i - 1 implies is_ws_spec(#[trigger] t[k]) by {
            assert(t[k] == s[k + 1]);
        }
        if i - 1 < t.len() {
            assert(t[i - 1] == s[i]);
        }
        lemma_lead_ws_exact(t, i - 1);
    }
}

proof fn lemma_trail_ws_exact(s: Seq<char>, j: int)
    requires
        0 <= j <= s.len(),
        forall|k: int| j <= k < s.len() ==> is_ws_spec(#[trigger] s[k]),
        j == 0 || !is_ws_spec(s[j - 1]),
    ensures
        trail_ws(s) == s.len() - j,
    decreases s.len() - j,
{
    if j < s.len() {
        let t = s.drop_last();
        assert forall|k: int| j <= k < t.len() implies is_ws_spec(#[trigger] t[k]) by {
            assert(t[k] == s[k]);
        }
        if j > 0 {
            assert(t[j - 1] == s[j - 1]);
        }
        lemma_trail_ws_exact(t, j);
    }
}

/// Copy of `s[lo..hi]`.
pub fn slice_chars(s: &Vec<char>, lo: usize, hi: usize) -> (r: Vec<char>)
    requires
        lo <= hi <= s.len(),
    ensures
        r@ == s@.subrange(lo as int, hi as int),
{
    let mut r: Vec<char> = Vec::new();
    let mut i = lo;
    while i < hi
        invariant
            lo <= i <= hi <= s.len(),
            r@ == s@.subrange(lo as int, i as int),
        decreases hi - i,
    {
        r.push(s[i]);
        i = i + 1;
        assert(r@ == s@.subrange(lo as int, i as int));
    }
    r
}

/// `str::trim` on a char buffer.
pub fn trim_chars(s: &Vec<char>) -> (r: Vec<char>)
    ensures
        r@ == trim_spec(s@),
{
    let a = count_lead_ws(s);
    let mut j = s.len();
    proof {
        lemma_lead_ws(s@);
    }
    while j > a && is_ws(s[j - 1])
        invariant
            a <= j <= s.len(),
            a == lead_ws(s@),
            forall|k: int| j <= k < s.len() ==> is_ws_spec(#[trigger] s@[k]),
        decreases j,
    {
        j = j - 1;
    }
    proof {
        let t = s@.skip(a as int);
        assert forall|k: int| j - a <= k < t.len() implies is_ws_spec(#[trigger] t[k]) by {
            assert(t[k] == s@[k + a]);
        }
        if j > a {
            assert(t[j - a - 1] == s@[j - 1]);
        }
        lemma_trail_ws_exact(t, j - a);
        assert(t.take(t.len() - trail_ws(t)) == s@.subrange(a as int, j as int));
    }
    slice_chars(s, a, j)
}

/// Does `s[i..]` start with `p`?
pub fn matches_at(s: &Vec<char>, p: &Vec<char>, i: usize) -> (r: bool)
    ensures
        r == occurs_at(s@, p@, i as int),
{
    if i > s.len() || p.len() > s.len() - i {
        return false;
    }
    let mut k: usize = 0;
    while k < p.len()
        invariant
            i + p.len() <= s.len(),
            k <= p.len(),
            forall|t: int| 0 <= t < k ==> s@[i + t] == p@[t],
        decreases p.len() - k,
    {
        if s[i + k] != p[k] {
            assert(s@.subrange(i as int, i + p.len())[k as int] != p@[k as int]);
            return false;
        }
        k = k + 1;
    }
    assert(s@.subrange(i as int, i + p.len()) == p@);
    true
}

/// `str::contains` on char buffers.
pub fn contains_chars(s: &Vec<char>, p: &Vec<char>) -> (r: bool)
    ensures
        r == contains_seq(s@, p@),
{
    let mut i: usize = 0;
    loop
        invariant
            i <= s.len(),
            forall|t: int| 0 <= t < i ==> !occurs_at(s@, p@, t),
        ensures
            forall|t: int| 0 <= t <= s.len() ==> !occurs_at(s@, p@, t),
        decreases s.len() - i,
    {
        if matches_at(s, p, i) {
            return true;
        }
        if i == s.len() {
            break;
        }
        i = i + 1;
    }
    assert forall|t: int| !occurs_at(s@, p@, t) by {
        if t > s@.len() {
            assert(!(t + p@.len() <= s@.len()));
        }
    }
    false
}

/// Does `s` start with `p`?
pub fn starts_with_chars(s: &Vec<char>, p: &Vec<char>) -> (r: bool)
    ensures
        r == has_prefix(s@, p@),
{
    matches_at(s, p, 0)
}

/// Does `s` end with `p`?
pub fn ends_with_chars(s: &Vec<char>, p: &Vec<char>) -> (r: bool)
    ensures
        r == has_suffix(s@, p@),
{
    if p.len() > s.len() {
        false
    } else {
        matches_at(s, p, s.len() - p.len())
    }
}

/// `a == b` on char buffers.
pub fn chars_eq(a: &Vec<char>, b: &Vec<char>) -> (r: bool)
    ensures
        r == (a@ == b@),
{
    if a.len() != b.len() {
        return false;
    }
    let mut i: usize = 0;
    while i < a.len()
        invariant
            a.len() == b.len(),
            i <= a.len(),
            forall|k: int| 0 <= k < i ==> a@[k] == b@[k],
        decreases a.len() - i,
    {
        if a[i] != b[i] {
            return false;
        }
        i = i + 1;
    }
    assert(a@ == b@);
    true
}

/// Append all of `src` to `dst`.
pub fn push_all(dst: &mut Vec<char>, src: &Vec<char>)
    ensures
        final(dst)@ == old(dst)@ + src@,
{
    let mut i: usize = 0;
    while i < src.len()
        invariant
            i <= src.len(),
            dst@ == old(dst)@ + src@.subrange(0, i as int),
        decreases src.len() - i,
    {
        dst.push(src[i]);
        i = i + 1;
        assert(src@.subrange(0, i as int) == src@.subrange(0, i - 1) + seq![src@[i - 1]]);
    }
    assert(src@.subrange(0, src@.len() as int) == src@);
}

// ── conversions between `String` and char buffers ─────────────────────────

/// The chars of a string slice, in order.
pub fn to_chars(s: &str) -> (v: Vec<char>)
    ensures
        v@ == s@,
{
    let mut v: Vec<char> = Vec::new();
    for c in it: s.chars()
        invariant
            v@ == it.seq().take(it.index() as int),
            it.seq() == s@,
    {
        v.push(c);
    }
    v
}

/// `s` equals the literal `lit`.
pub fn is_lit(s: &Vec<char>, lit: &str) -> (r: bool)
    ensures
        r == (s@ == lit@),
{
    let l = to_chars(lit);
    chars_eq(s, &l)
}

/// `s` begins with the literal `lit`.
pub fn starts_with_lit(s: &Vec<char>, lit: &str) -> (r: bool)
    ensures
        r == has_prefix(s@, lit@),
{
    let l = to_chars(lit);
    starts_with_chars(s, &l)
}

/// `s` ends with the literal `lit`.
pub fn ends_with_lit(s: &Vec<char>, lit: &str) -> (r: bool)
    ensures
        r == has_suffix(s@, lit@),
{
    let l = to_chars(lit);
    ends_with_chars(s, &l)
}

/// The literal `lit` occurs in `s`.
pub fn contains_lit(s: &Vec<char>, lit: &str) -> (r: bool)
    ensures
        r == contains_seq(s@, lit@),
{
    let l = to_chars(lit);
    contains_chars(s, &l)
}

/// Appends the chars of the literal `lit` to `dst`.
pub fn push_lit(dst: &mut Vec<char>, lit: &str)
    ensures
        final(dst)@ == old(dst)@ + lit@,
{
    let l = to_chars(lit);
    push_all(dst, &l);
}

/// A `String` holding exactly the chars of `v` (`String: FromIterator<char>`).
#[verifier::external_body]
pub(crate) fn from_chars(v: &Vec<char>) -> (s: String)
    ensures
        s@ == v@,
{
    v.iter().collect()
}

// ── numbers ───────────────────────────────────────────────────────────────

/// Decimal digits of a natural number, most significant first, no leading zeros
/// (`"0"` for zero).
pub open spec fn nat_digits(n: nat) -> Seq<char>
    decreases n,
{
    if n < 10 {
        seq![digit_char(n as int)]
    } else {
        nat_digits(n / 10) + seq![digit_char((n % 10) as int)]
    }
}

/// Decimal text of an integer, as `i64::to_string` prints it.
pub open spec fn int_text(n: int) -> Seq<char> {
    if n < 0 {
        seq!['-'] + nat_digits((-n) as nat)
    } else {
        nat_digits(n as nat)
    }
}

proof fn lemma_digits_nonempty(n: nat)
    ensures
        nat_digits(n).len() >= 1,
    decreases n,
{
    if n >= 10 {
        lemma_digits_nonempty(n / 10);
    }
}

/// Decimal digits of `n` as a char buffer.
pub fn u64_digits(n: u64) -> (v: Vec<char>)
    ensures
        v@ == nat_digits(n as nat),
    decreases n,
{
    if n < 10 {
        let d: u32 = n as u32;
        let c = char_from_ascii(48 + d);
        let mut v = Vec::new();
        v.push(c);
        v
    } else {
        let mut v = u64_digits(n / 10);
        let d: u32 = (n % 10) as u32;
        let c = char_from_ascii(48 + d);
        v.push(c);
        v
    }
}

/// `i64::to_string` as a char buffer.
pub fn i64_text(n: i64) -> (v: Vec<char>)
    ensures
        v@ == int_text(n as int),
{
    if n < 0 {
        let m: u64 = if n == i64::MIN {
            9223372036854775808u64
        } else {
            (-n) as u64
        };
        let d = u64_digits(m);
        let mut v = Vec::new();
        v.push('-');
        push_all(&mut v, &d);
        v
    } else {
        u64_digits(n as u64)
    }
}

/// `usize::to_string` as a char buffer.
pub fn usize_text(n: usize) -> (v: Vec<char>)
    ensures
        v@ == nat_digits(n as nat),
{
    u64_digits(n as u64)
}

} // verus!

verus! {

// ── case mapping (std) ────────────────────────────────────────────────────

/// What `str::to_lowercase` returns for a string (Unicode `Lowercase` mapping).
pub uninterp spec fn spec_to_lowercase(s: Seq<char>) -> Seq<char>;

/// All chars are ASCII.
pub open spec fn all_ascii(s: Seq<char>) -> bool {
    forall|k: int| 0 <= k < s.len() ==> (#[trigger] s[k]) < '\u{80}'
}

/// `str::to_lowercase`. Its result depends on the chars alone; on an ASCII string
/// it lowers `A`..`Z` and keeps every other char, as the std documentation
/// describes for ASCII. Nothing is stated of the Unicode mapping beyond that.
#[verifier::external_body]
pub(crate) fn lowercase_chars(v: &Vec<char>) -> (r: Vec<char>)
    ensures
        r@ == spec_to_lowercase(v@),
        all_ascii(v@) ==> r@ == v@.map_values(|c: char| ascii_lower_spec(c)),
{
    let s: String = v.iter().collect();
    s.to_lowercase().chars().collect()
}

} // verus!

verus! {

// ── words (`str::split_whitespace`) ───────────────────────────────────────

/// Number of leading chars of `s` that are not whitespace.
pub open spec fn lead_word(s: Seq<char>) -> nat
    decreases s.len(),
{
    if s.len() > 0 && !is_ws_spec(s[0]) {
        1 + lead_word(s.drop_first())
    } else {
        0
    }
}

/// Number of trailing chars of `s` that are not whitespace.
pub open spec fn trail_word(s: Seq<char>) -> nat
    decreases s.len(),
{
    if s.len() > 0 && !is_ws_spec(s.last()) {
        1 + trail_word(s.drop_last())
    } else {
        0
    }
}

/// The first whitespace-separated word of `s` (empty if there is none).
pub open spec fn first_word(s: Seq<char>) -> Seq<char> {
    let t = s.skip(lead_ws(s) as int);
    t.take(lead_word(t) as int)
}

/// The last whitespace-separated word of `s` (empty if there is none).
pub open spec fn last_word(s: Seq<char>) -> Seq<char> {
    let t = s.take(s.len() - trail_ws(s));
    t.skip(t.len() - trail_word(t))
}

proof fn lemma_lead_word(s: Seq<char>)
    ensures
        lead_word(s) <= s.len(),
        forall|k: int| 0 <= k < lead_word(s) ==> !is_ws_spec(#[trigger] s[k]),
        lead_word(s) < s.len() ==> is_ws_spec(s[lead_word(s) as int]),
    decreases s.len(),
{
    if s.len() > 0 && !is_ws_spec(s[0]) {
        lemma_lead_word(s.drop_first());
        assert forall|k: int| 0 <= k < lead_word(s) implies !is_ws_spec(#[trigger] s[k]) by {
            if k > 0 {
                assert(s[k] == s.drop_first()[k - 1]);
            }
        }
    }
}

proof fn lemma_lead_word_exact(s: Seq<char>, i: int)
    requires
        0 <= i <= s.len(),
        forall|k: int| 0 <= k < i ==> !is_ws_spec(#[trigger] s[k]),
        i == s.len() || is_ws_spec(s[i]),
    ensures
        lead_word(s) == i,
    decreases i,
{
    if i > 0 {
        let t = s.drop_first();
        assert forall|k: int| 0 <= k < i - 1 implies !is_ws_spec(#[trigger] t[k]) by {
            assert(t[k] == s[k + 1]);
        }
        if i - 1 < t.len() {
            assert(t[i - 1] == s[i]);
        }
        lemma_lead_word_exact(t, i - 1);
    }
}

proof fn lemma_trail_word_exact(s: Seq<char>, j: int)
    requires
        0 <= j <= s.len(),
        forall|k: int| j <= k < s.len() ==> !is_ws_spec(#[trigger] s[k]),
        j == 0 || is_ws_spec(s[j - 1]),
    ensures
        trail_word(s) == s.len() - j,
    decreases s.len() - j,
{
    if j < s.len() {
        let t = s.drop_last();
        assert forall|k: int| j <= k < t.len() implies !is_ws_spec(#[trigger] t[k]) by {
            assert(t[k] == s[k]);
        }
        if j > 0 {
            assert(t[j - 1] == s[j - 1]);
        }
        lemma_trail_word_exact(t, j);
    }
}

/// The first word of `s`.
pub fn first_word_chars(s: &Vec<char>) -> (w: Vec<char>)
    ensures
        w@ == first_word(s@),
{
    let a = count_lead_ws(s);
    proof {
        lemma_lead_ws(s@);
    }
    let mut j = a;
    while j < s.len() && !is_ws(s[j])
        invariant
            a <= j <= s.len(),
            forall|k: int| a <= k < j ==> !is_ws_spec(#[trigger] s@[k]),
        decreases s.len() - j,
    {
        j = j + 1;
    }
    proof {
        let t = s@.skip(a as int);
        assert forall|k: int| 0 <= k < j - a implies !is_ws_spec(#[trigger] t[k]) by {
            assert(t[k] == s@[k + a]);
        }
        if j < s.len() {
            assert(t[j - a] == s@[j as int]);
        }
        lemma_lead_word_exact(t, j - a);
        assert(t.take(j - a) == s@.subrange(a as int, j as int));
    }
    slice_chars(s, a, j)
}

/// The last word of `s`.
pub fn last_word_chars(s: &Vec<char>) -> (w: Vec<char>)
    ensures
        w@ == last_word(s@),
{
    let mut e = s.len();
    while e > 0 && is_ws(s[e - 1])
        invariant
            e <= s.len(),
            forall|k: int| e <= k < s.len() ==> is_ws_spec(#[trigger] s@[k]),
        decreases e,
    {
        e = e - 1;
    }
    proof {
        lemma_trail_ws_exact(s@, e as int);
    }
    let mut b = e;
    while b > 0 && !is_ws(s[b - 1])
        invariant
            b <= e <= s.len(),
            forall|k: int| b <= k < e ==> !is_ws_spec(#[trigger] s@[k]),
        decreases b,
    {
        b = b - 1;
    }
    proof {
        let t = s@.take(e as int);
        assert forall|k: int| b <= k < t.len() implies !is_ws_spec(#[trigger] t[k]) by {
            assert(t[k] == s@[k]);
        }
        if b > 0 {
            assert(t[b - 1] == s@[b - 1]);
        }
        lemma_trail_word_exact(t, b as int);
        assert(t.skip(b as int) == s@.subrange(b as int, e as int));
    }
    slice_chars(s, b, e)
}

} // verus!

verus! {

/// `parts` joined with `sep` between consecutive parts (`[T]::join`).
pub open spec fn join_spec(parts: Seq<Seq<char>>, sep: Seq<char>) -> Seq<char>
    decreases parts.len(),
{
    if parts.len() == 0 {
        seq![]
    } else if parts.len() == 1 {
        parts[0]
    } else {
        join_spec(parts.drop_last(), sep) + sep + parts.last()
    }
}

/// Joins char buffers with a separator.
pub fn join_chars(parts: &Vec<Vec<char>>, sep: &Vec<char>) -> (r: Vec<char>)
    ensures
        r@ == join_spec(parts@.map_values(|p: Vec<char>| p@), sep@),
{
    let ghost ps = parts@.map_values(|p: Vec<char>| p@);
    let mut r: Vec<char> = Vec::new();
    let mut i: usize = 0;
    while i < parts.len()
        invariant
            i <= parts.len(),
            ps == parts@.map_values(|p: Vec<char>| p@),
            r@ == join_spec(ps.take(i as int), sep@),
        decreases parts.len() - i,
    {
        proof {
            assert(ps.take(i + 1).drop_last() == ps.take(i as int));
            assert(ps.take(i + 1).last() == parts@[i as int]@);
        }
        if i > 0 {
            push_all(&mut r, sep);
        } else {
            assert(ps.take(1)[0] == parts@[0]@);
        }
        push_all(&mut r, &parts[i]);
        i = i + 1;
    }
    assert(ps.take(parts.len() as int) == ps);
    r
}

/// `s` followed by spaces up to `width` chars (`format!("{:<width$}", s)`).
pub open spec fn pad_right(s: Seq<char>, width: nat) -> Seq<char> {
    if s.len() < width {
        s + Seq::new((width - s.len()) as nat, |i: int| ' ')
    } else {
        s
    }
}

pub fn pad_right_chars(s: &Vec<char>, width: usize) -> (r: Vec<char>)
    ensures
        r@ == pad_right(s@, width as nat),
{
    let mut r: Vec<char> = Vec::new();
    push_all(&mut r, s);
    while r.len() < width
        invariant
            s@.len() <= r@.len() <= if s@.len() < width { width as int } else { s@.len() as int },
            r@.subrange(0, s@.len() as int) == s@,
            forall|k: int| s@.len() <= k < r@.len() ==> r@[k] == ' ',
        decreases width - r.len(),
    {
        r.push(' ');
    }
    proof {
        if s@.len() < width {
            assert(r@ =~= s@ + Seq::new((width - s@.len()) as nat, |i: int| ' '));
        } else {
            assert(r@ =~= s@);
        }
    }
    r
}

} // verus!

verus! {

// ── integers from text (`str::parse::<i64>`) ─────────────────────────────

/// `c` is an ASCII digit.
pub open spec fn is_digit_spec(c: char) -> bool {
    '0' <= c && c <= '9'
}

/// Every char is an ASCII digit.
pub open spec fn all_digits(s: Seq<char>) -> bool {
    forall|k: int| 0 <= k < s.len() ==> is_digit_spec(#[trigger] s[k])
}

/// Value of a string of decimal digits.
pub open spec fn digits_value(s: Seq<char>) -> int
    decreases s.len(),
{
    if s.len() == 0 {
        0
    } else {
        10 * digits_value(s.drop_last()) + ((s.last() as u32) - ('0' as u32))
    }
}

/// What `str::parse::<i64>` gives: an optional `+`/`-` sign, then one or more
/// ASCII digits, and the value must fit in `i64`; anything else is an error.
pub open spec fn parse_i64_spec(s: Seq<char>) -> Option<i64> {
    let neg = s.len() > 0 && s[0] == '-';
    let signed = s.len() > 0 && (s[0] == '-' || s[0] == '+');
    let body = if signed {
        s.drop_first()
    } else {
        s
    };
    if body.len() == 0 || !all_digits(body) {
        None
    } else {
        let v = if neg {
            -digits_value(body)
        } else {
            digits_value(body)
        };
        if i64::MIN <= v <= i64::MAX {
            Some(v as i64)
        } else {
            None
        }
    }
}

proof fn lemma_digits_nonneg(s: Seq<char>)
    requires
        forall|k: int| 0 <= k < s.len() ==> is_digit_spec(#[trigger] s[k]),
    ensures
        digits_value(s) >= 0,
    decreases s.len(),
{
    if s.len() > 0 {
        lemma_digits_nonneg(s.drop_last());
    }
}

/// Parses a decimal `i64` the way `str::parse::<i64>` does.
pub fn parse_i64(s: &Vec<char>) -> (r: Option<i64>)
    ensures
        r == parse_i64_spec(s@),
{
    let limit: i128 = 9223372036854775809;  // 2^63 + 1
    let neg = s.len() > 0 && s[0] == '-';
    let signed = s.len() > 0 && (s[0] == '-' || s[0] == '+');
    let start: usize = if signed {
        1
    } else {
        0
    };
    let ghost body = if signed {
        s@.drop_first()
    } else {
        s@
    };
    if start == s.len() {
        return None;
    }
    let mut acc: i128 = 0;
    let mut i = start;
    while i < s.len()
        invariant
            start <= i <= s.len(),
            limit == 9223372036854775809,
            signed == (s@.len() > 0 && (s@[0] == '-' || s@[0] == '+')),
            neg == (s@.len() > 0 && s@[0] == '-'),
            start == (if signed { 1usize } else { 0usize }),
            body == (if signed { s@.drop_first() } else { s@ }),
            body == s@.subrange(start as int, s@.len() as int),
            forall|k: int| start <= k < i ==> is_digit_spec(#[trigger] s@[k]),
            0 <= acc <= limit,
            acc == if digits_value(s@.subrange(start as int, i as int)) < limit {
                digits_value(s@.subrange(start as int, i as int))
            } else {
                limit as int
            },
        decreases s.len() - i,
    {
        let c = s[i];
        if !('0' <= c && c <= '9') {
            proof {
                assert(body[i - start] == c);
                assert(!is_digit_spec(body[(i - start) as int]));
                assert(!all_digits(body));
            }
            return None;
        }
        let d: i128 = ((c as u32) - 48) as i128;
        proof {
            let pre = s@.subrange(start as int, i as int);
            let nxt = s@.subrange(start as int, i + 1);
            assert(nxt.drop_last() == pre);
            assert(nxt.last() == c);
            assert forall|k: int| 0 <= k < pre.len() implies is_digit_spec(#[trigger] pre[k]) by {
                assert(pre[k] == s@[start + k]);
            }
            lemma_digits_nonneg(pre);
        }
        let next: i128 = 10 * acc + d;
        acc = if next < limit {
            next
        } else {
            limit
        };
        i = i + 1;
    }
    proof {
        assert(s@.subrange(start as int, s@.len() as int) == body);
        assert forall|k: int| 0 <= k < body.len() implies is_digit_spec(#[trigger] body[k]) by {
            assert(body[k] == s@[start + k]);
        }
        lemma_digits_nonneg(body);
    }
    if neg {
        if acc <= 9223372036854775808 {
            let v: i128 = -acc;
            Some(v as i64)
        } else {
            None
        }
    } else {
        if acc <= 9223372036854775807 {
            Some(acc as i64)
        } else {
            None
        }
    }
}

} // verus!

verus! {

/// Number of trailing ASCII digits of `s`.
pub open spec fn trail_digits(s: Seq<char>) -> nat
    decreases s.len(),
{
    if s.len() > 0 && is_digit_spec(s.last()) {
        1 + trail_digits(s.drop_last())
    } else {
        0
    }
}

proof fn lemma_trail_digits_exact(s: Seq<char>, j: int)
    requires
        0 <= j <= s.len(),
        forall|k: int| j <= k < s.len() ==> is_digit_spec(#[trigger] s[k]),
        j == 0 || !is_digit_spec(s[j - 1]),
    ensures
        trail_digits(s) == s.len() - j,
    decreases s.len() - j,
{
    if j < s.len() {
        let t = s.drop_last();
        assert forall|k: int| j <= k < t.len() implies is_digit_spec(#[trigger] t[k]) by {
            assert(t[k] == s[k]);
        }
        if j > 0 {
            assert(t[j - 1] == s[j - 1]);
        }
        lemma_trail_digits_exact(t, j);
    }
}

/// Count of trailing ASCII digits.
pub fn count_trail_digits(s: &Vec<char>) -> (n: usize)
    ensures
        n == trail_digits(s@),
        n <= s.len(),
{
    let mut j = s.len();
    while j > 0 && '0' <= s[j - 1] && s[j - 1] <= '9'
        invariant
            j <= s.len(),
            forall|k: int| j <= k < s.len() ==> is_digit_spec(#[trigger] s@[k]),
        decreases j,
    {
        j = j - 1;
    }
    proof {
        lemma_trail_digits_exact(s@, j as int);
    }
    s.len() - j
}

} // verus!

verus! {

// ── `str::split_whitespace` ───────────────────────────────────────────────

/// End of the word that starts at `i`: the first index at or after `i` holding
/// whitespace, or the length.
pub open spec fn word_end(s: Seq<char>, i: int) -> int
    decreases s.len() - i,
{
    if i >= s.len() || i < 0 || is_ws_spec(s[i]) {
        i
    } else {
        word_end(s, i + 1)
    }
}

pub proof fn lemma_word_end(s: Seq<char>, i: int)
    requires
        0 <= i <= s.len(),
    ensures
        i <= word_end(s, i) <= s.len(),
        forall|k: int| i <= k < word_end(s, i) ==> !is_ws_spec(#[trigger] s[k]),
        word_end(s, i) < s.len() ==> is_ws_spec(s[word_end(s, i)]),
        i < s.len() && !is_ws_spec(s[i]) ==> word_end(s, i) > i,
    decreases s.len() - i,
{
    if i < s.len() && !is_ws_spec(s[i]) {
        lemma_word_end(s, i + 1);
    }
}

/// The words of `s[i..]`, in order.
pub open spec fn words_from(s: Seq<char>, i: int) -> Seq<Seq<char>>
    decreases s.len() - i,
{
    if i < 0 || i >= s.len() {
        Seq::empty()
    } else if is_ws_spec(s[i]) {
        words_from(s, i + 1)
    } else {
        let e = word_end(s, i);
        proof {
            lemma_word_end(s, i);
        }
        seq![s.subrange(i, e)] + words_from(s, e)
    }
}

/// The words of `s`: its maximal runs of non-whitespace chars, in order.
pub open spec fn words(s: Seq<char>) -> Seq<Seq<char>> {
    words_from(s, 0)
}

/// `str::split_whitespace`, collected.
pub fn split_whitespace(s: &str) -> (r: Vec<String>)
    ensures
        crate::models::strings_view(r@) == words(s@),
{
    let c = to_chars(s);
    let n = c.len();
    let mut out: Vec<String> = Vec::new();
    let mut i: usize = 0;
    while i < n
        invariant
            n == c.len(),
            i <= n,
            crate::models::strings_view(out@) + words_from(c@, i as int) == words(c@),
        decreases n - i,
    {
        if is_ws(c[i]) {
            i = i + 1;
        } else {
            proof {
                lemma_word_end(c@, i as int);
            }
            let mut j = i;
            while j < n && !is_ws(c[j])
                invariant
                    n == c.len(),
                    i <= j <= n,
                    word_end(c@, i as int) == word_end(c@, j as int),
                decreases n - j,
            {
                j = j + 1;
            }
            let w = slice_chars(&c, i, j);
            let ghost before = crate::models::strings_view(out@);
            out.push(from_chars(&w));
            proof {
                assert(crate::models::strings_view(out@) == before.push(c@.subrange(i as int, j as int)));
                assert(words_from(c@, i as int) == seq![c@.subrange(i as int, j as int)] + words_from(c@, j as int));
                assert(before.push(c@.subrange(i as int, j as int)) + words_from(c@, j as int) =~= before + (seq![c@.subrange(i as int, j as int)] + words_from(c@, j as int)));
            }
            i = j;
        }
    }
    proof {
        assert(crate::models::strings_view(out@) + words_from(c@, n as int) =~= crate::models::strings_view(out@));
    }
    out
}

/// Number of chars of `s`.
pub fn char_count(s: &str) -> (n: usize)
    ensures
        n == s@.len(),
{
    to_chars(s).len()
}

} // verus!

verus! {

/// `s` right-aligned in `width` columns (`format!("{:>width$}")`): spaces before
/// it up to the width, nothing when it is already as wide.
pub open spec fn pad_left(s: Seq<char>, width: nat) -> Seq<char> {
    if s.len() < width {
        Seq::new((width - s.len()) as nat, |i: int| ' ') + s
    } else {
        s
    }
}

/// `s` right-aligned in `width` columns.
pub fn pad_left_chars(s: &Vec<char>, width: usize) -> (r: Vec<char>)
    ensures
        r@ == pad_left(s@, width as nat),
{
    let mut r: Vec<char> = Vec::new();
    let mut k: usize = s.len();
    while k < width
        invariant
            s.len() <= k <= if s.len() < width { width as int } else { s.len() as int },
            r@.len() == k - s.len(),
            forall|j: int| 0 <= j < r@.len() ==> r@[j] == ' ',
        decreases width - k,
    {
        r.push(' ');
        k = k + 1;
    }
    push_all(&mut r, s);
    proof {
        if s@.len() < width {
            assert(r@ =~= Seq::new((width - s@.len()) as nat, |i: int| ' ') + s@);
        } else {
            assert(r@ =~= s@);
        }
    }
    r
}

} // verus!
