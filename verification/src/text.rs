//! Character-level text utilities shared by the library: decimal and hex
//! rendering, whitespace trimming, substring search, string building.
use vstd::prelude::*;

verus! {

broadcast use vstd::string::group_string_axioms;

/// Appends one character to a string (`String::push`).
#[verifier::external_body]
pub(crate) fn push_char(s: &mut String, c: char)
    ensures
        final(s)@ == old(s)@.push(c),
{
    s.push(c);
}

/// Appends a string slice to a string.
pub(crate) fn push_str(s: &mut String, t: &str)
    ensures
        final(s)@ == old(s)@ + t@,
{
    s.append(t);
}

/// A string holding exactly the given characters.
pub fn string_of(cs: &Vec<char>) -> (s: String)
    ensures
        s@ == cs@,
{
    let mut s = String::new();
    let mut i: usize = 0;
    while i < cs.len()
        invariant
            i <= cs.len(),
            s@ == cs@.take(i as int),
        decreases cs.len() - i,
    {
        push_char(&mut s, cs[i]);
        i = i + 1;
        assert(cs@.take(i as int) == cs@.take(i - 1).push(cs@[i - 1]));
    }
    assert(cs@.take(cs.len() as int) == cs@);
    s
}

/// A string holding the characters of `s`.
pub fn to_string(s: &str) -> (r: String)
    ensures
        r@ == s@,
{
    String::from_str(s)
}

/// Whether two string slices hold the same characters.
pub fn str_eq(a: &str, b: &str) -> (r: bool)
    ensures
        r == (a@ == b@),
{
    let x = to_string(a);
    let y = to_string(b);
    x == y
}

/// The characters of a string slice, in order.
pub fn chars_of(s: &str) -> (v: Vec<char>)
    ensures
        v@ == s@,
{
    let mut v: Vec<char> = Vec::new();
    for c in it: s.chars()
        invariant
            v@ == it.seq().take(it.index()),
            it.seq() == s@,
    {
        v.push(c);
    }
    v
}

// ── Decimal and hexadecimal rendering ──

/// The ASCII digit for a value below sixteen (lower-case for 10..15).
pub open spec fn digit_char(d: nat) -> char {
    if d < 10 {
        (('0' as nat) + d) as char
    } else {
        (('a' as nat) + (d - 10)) as char
    }
}

/// The digits of `n` in base `b`, most significant first, without leading zeros
/// (zero renders as a single `0`).
pub open spec fn radix_digits(n: nat, b: nat) -> Seq<char>
    recommends
        2 <= b <= 16,
    decreases n,
{
    if b < 2 || n < b {
        seq![digit_char(n)]
    } else {
        proof {
            assert(n / b < n) by (nonlinear_arith)
                requires
                    b >= 2,
                    n >= b,
            ;
        }
        radix_digits(n / b, b).push(digit_char(n % b))
    }
}

/// Decimal rendering of a natural number, as `{}` formats an unsigned integer.
pub open spec fn dec(n: nat) -> Seq<char> {
    radix_digits(n, 10)
}

/// Lower-case hexadecimal rendering, as `{:x}` formats an unsigned integer.
pub open spec fn hex(n: nat) -> Seq<char> {
    radix_digits(n, 16)
}

fn digit_of(d: u64) -> (c: char)
    requires
        d < 16,
    ensures
        c == digit_char(d as nat),
{
    if d < 10 {
        let v: u8 = (48 + d) as u8;
        v as char
    } else {
        let v: u8 = (97 + (d - 10)) as u8;
        v as char
    }
}

/// Renders `n` in base `base` (2 to 16).
pub fn u64_radix(n: u64, base: u64) -> (s: String)
    requires
        2 <= base <= 16,
    ensures
        s@ == radix_digits(n as nat, base as nat),
{
    // Collect digits least significant first, then reverse.
    let mut rev: Vec<char> = Vec::new();
    let mut m: u64 = n;
    while m >= base
        invariant
            2 <= base <= 16,
            radix_digits(n as nat, base as nat) == radix_digits(m as nat, base as nat) + rev@.reverse(),
        decreases m,
    {
        let d = m % base;
        let c = digit_of(d);
        proof {
            assert(radix_digits(m as nat, base as nat) == radix_digits((m / base) as nat, base as nat).push(c));
            assert(rev@.push(c).reverse() == seq![c] + rev@.reverse());
        }
        rev.push(c);
        m = m / base;
    }
    let c = digit_of(m);
    rev.push(c);
    assert(rev@.reverse() == seq![c] + rev@.drop_last().reverse());
    let mut out: Vec<char> = Vec::new();
    let mut i: usize = rev.len();
    while i > 0
        invariant
            i <= rev.len(),
            out@ == rev@.reverse().take(rev.len() - i),
        decreases i,
    {
        i = i - 1;
        out.push(rev[i]);
        assert(rev@.reverse().take(rev.len() - i) == rev@.reverse().take(rev.len() - i - 1).push(rev@[i as int]));
    }
    assert(rev@.reverse().take(rev.len() as int) == rev@.reverse());
    string_of(&out)
}

/// Decimal rendering of `n`.
pub fn dec_string(n: u64) -> (s: String)
    ensures
        s@ == dec(n as nat),
{
    u64_radix(n, 10)
}

/// Lower-case hexadecimal rendering of `n`.
pub fn hex_string(n: u64) -> (s: String)
    ensures
        s@ == hex(n as nat),
{
    u64_radix(n, 16)
}

} // verus!

verus! {

// ── Whitespace ──

/// Unicode `White_Space`, the property that `char::is_whitespace` tests.
pub open spec fn is_ws(c: char) -> bool {
    let v = c as u32;
    (0x9 <= v && v <= 0xd) || v == 0x20 || v == 0x85 || v == 0xa0 || v == 0x1680 || (0x2000
        <= v && v <= 0x200a) || v == 0x2028 || v == 0x2029 || v == 0x202f || v == 0x205f || v
        == 0x3000
}

/// Whether `c` is Unicode whitespace.
pub fn is_whitespace(c: char) -> (b: bool)
    ensures
        b == is_ws(c),
{
    let v = c as u32;
    (0x9 <= v && v <= 0xd) || v == 0x20 || v == 0x85 || v == 0xa0 || v == 0x1680 || (0x2000
        <= v && v <= 0x200a) || v == 0x2028 || v == 0x2029 || v == 0x202f || v == 0x205f || v
        == 0x3000
}

/// Number of whitespace characters at the start of `s`.
pub open spec fn lead_ws(s: Seq<char>) -> nat
    decreases s.len(),
{
    if s.len() == 0 {
        0
    } else if is_ws(s[0]) {
        1 + lead_ws(s.drop_first())
    } else {
        0
    }
}

/// Number of whitespace characters at the end of `s`.
pub open spec fn trail_ws(s: Seq<char>) -> nat
    decreases s.len(),
{
    if s.len() == 0 {
        0
    } else if is_ws(s.last()) {
        1 + trail_ws(s.drop_last())
    } else {
        0
    }
}

/// `str::trim_start`.
pub open spec fn trim_start(s: Seq<char>) -> Seq<char> {
    s.skip(lead_ws(s) as int)
}

/// `str::trim_end`.
pub open spec fn trim_end(s: Seq<char>) -> Seq<char> {
    s.take(s.len() - trail_ws(s))
}

/// `str::trim`: both ends.
pub open spec fn trim(s: Seq<char>) -> Seq<char> {
    trim_end(trim_start(s))
}

pub proof fn lemma_lead_ws_bound(s: Seq<char>)
    ensures
        lead_ws(s) <= s.len(),
    decreases s.len(),
{
    if s.len() > 0 && is_ws(s[0]) {
        lemma_lead_ws_bound(s.drop_first());
    }
}

pub proof fn lemma_trail_ws_bound(s: Seq<char>)
    ensures
        trail_ws(s) <= s.len(),
    decreases s.len(),
{
    if s.len() > 0 && is_ws(s.last()) {
        lemma_trail_ws_bound(s.drop_last());
    }
}

/// First index at or after `lo` (and before `hi`) that is not whitespace.
pub fn skip_ws_forward(cs: &Vec<char>, lo: usize, hi: usize) -> (k: usize)
    requires
        lo <= hi <= cs.len(),
    ensures
        k == lo + lead_ws(cs@.subrange(lo as int, hi as int)),
        lo <= k <= hi,
{
    let mut i = lo;
    while i < hi && is_whitespace(cs[i])
        invariant
            lo <= i <= hi <= cs.len(),
            lead_ws(cs@.subrange(lo as int, hi as int)) == (i - lo) + lead_ws(
                cs@.subrange(i as int, hi as int),
            ),
        decreases hi - i,
    {
        assert(cs@.subrange(i as int, hi as int).drop_first() == cs@.subrange(i + 1, hi as int));
        i = i + 1;
    }
    proof {
        if i < hi {
            assert(!is_ws(cs@.subrange(i as int, hi as int)[0]));
        }
    }
    i
}

/// One past the last index before `hi` (and not before `lo`) that is not whitespace.
pub fn skip_ws_backward(cs: &Vec<char>, lo: usize, hi: usize) -> (k: usize)
    requires
        lo <= hi <= cs.len(),
    ensures
        k == hi - trail_ws(cs@.subrange(lo as int, hi as int)),
        lo <= k <= hi,
{
    let mut j = hi;
    while j > lo && is_whitespace(cs[j - 1])
        invariant
            lo <= j <= hi <= cs.len(),
            trail_ws(cs@.subrange(lo as int, hi as int)) == (hi - j) + trail_ws(
                cs@.subrange(lo as int, j as int),
            ),
        decreases j - lo,
    {
        assert(cs@.subrange(lo as int, j as int).drop_last() == cs@.subrange(lo as int, j - 1));
        j = j - 1;
    }
    proof {
        if j > lo {
            assert(!is_ws(cs@.subrange(lo as int, j as int).last()));
        }
    }
    j
}

/// Bounds of `trim(cs[lo..hi])` inside `cs`.
pub fn trim_range(cs: &Vec<char>, lo: usize, hi: usize) -> (r: (usize, usize))
    requires
        lo <= hi <= cs.len(),
    ensures
        lo <= r.0 <= r.1 <= hi,
        cs@.subrange(r.0 as int, r.1 as int) == trim(cs@.subrange(lo as int, hi as int)),
{
    let a = skip_ws_forward(cs, lo, hi);
    let b = skip_ws_backward(cs, a, hi);
    proof {
        let s = cs@.subrange(lo as int, hi as int);
        assert(trim_start(s) == cs@.subrange(a as int, hi as int));
        lemma_trail_ws_bound(cs@.subrange(a as int, hi as int));
        assert(trim_end(trim_start(s)) == cs@.subrange(a as int, b as int));
    }
    (a, b)
}

/// A string holding `cs[lo..hi]`.
pub fn string_of_range(cs: &Vec<char>, lo: usize, hi: usize) -> (s: String)
    requires
        lo <= hi <= cs.len(),
    ensures
        s@ == cs@.subrange(lo as int, hi as int),
{
    let mut s = String::new();
    let mut i = lo;
    while i < hi
        invariant
            lo <= i <= hi <= cs.len(),
            s@ == cs@.subrange(lo as int, i as int),
        decreases hi - i,
    {
        push_char(&mut s, cs[i]);
        assert(cs@.subrange(lo as int, i + 1) == cs@.subrange(lo as int, i as int).push(cs@[i as int]));
        i = i + 1;
    }
    s
}

/// `s.trim().to_string()`.
pub fn trimmed(s: &str) -> (r: String)
    ensures
        r@ == trim(s@),
{
    let cs = chars_of(s);
    let (a, b) = trim_range(&cs, 0, cs.len());
    assert(cs@.subrange(0, cs@.len() as int) == cs@);
    string_of_range(&cs, a, b)
}

// ── Substring search ──

/// `pat` occurs in `s` starting at `i`.
pub open spec fn occurs_at(s: Seq<char>, pat: Seq<char>, i: int) -> bool {
    0 <= i && i + pat.len() <= s.len() && s.subrange(i, i + pat.len()) == pat
}

/// `str::find`, counted in characters: the first position where `pat` occurs.
pub open spec fn find(s: Seq<char>, pat: Seq<char>) -> Option<int>
    decreases s.len(),
{
    if s.len() < pat.len() {
        None
    } else if s.take(pat.len() as int) == pat {
        Some(0)
    } else if s.len() == 0 {
        None
    } else {
        match find(s.drop_first(), pat) {
            Some(k) => Some(k + 1),
            None => None,
        }
    }
}

/// `str::contains` for a string pattern.
pub open spec fn contains(s: Seq<char>, pat: Seq<char>) -> bool {
    find(s, pat) is Some
}

pub proof fn lemma_find_correct(s: Seq<char>, pat: Seq<char>)
    ensures
        find(s, pat) matches Some(k) ==> occurs_at(s, pat, k) && forall|j: int|
            0 <= j < k ==> !occurs_at(s, pat, j),
        find(s, pat) is None ==> forall|j: int| !occurs_at(s, pat, j),
    decreases s.len(),
{
    if s.len() < pat.len() {
    } else if s.take(pat.len() as int) == pat {
        assert(s.subrange(0, pat.len() as int) == s.take(pat.len() as int));
    } else if s.len() == 0 {
        assert(s.take(pat.len() as int) =~= pat);
    } else {
        let t = s.drop_first();
        lemma_find_correct(t, pat);
        assert(!occurs_at(s, pat, 0)) by {
            assert(s.subrange(0, pat.len() as int) == s.take(pat.len() as int));
        }
        assert forall|j: int| 1 <= j implies occurs_at(s, pat, j) == occurs_at(t, pat, j - 1) by {
            if j + pat.len() <= s.len() {
                assert(t.subrange(j - 1, j - 1 + pat.len()) == s.subrange(j, j + pat.len()));
            }
        }
        match find(t, pat) {
            Some(k) => {
                assert(occurs_at(s, pat, k + 1));
                assert forall|j: int| 0 <= j < k + 1 implies !occurs_at(s, pat, j) by {
                    if j >= 1 {
                        assert(!occurs_at(t, pat, j - 1));
                    }
                }
            },
            None => {
                assert forall|j: int| !occurs_at(s, pat, j) by {
                    if j >= 1 {
                        assert(!occurs_at(t, pat, j - 1));
                    }
                }
            },
        }
    }
}

/// Whether `pat` occurs in `cs[lo..hi]` at offset `k` (absolute index `k`).
fn matches_at(cs: &Vec<char>, hi: usize, k: usize, pat: &Vec<char>) -> (b: bool)
    requires
        k <= hi <= cs.len(),
    ensures
        b == (k + pat.len() <= hi && cs@.subrange(k as int, k + pat.len()) == pat@),
{
    if pat.len() > hi - k {
        return false;
    }
    let mut i: usize = 0;
    while i < pat.len()
        invariant
            k + pat.len() <= hi <= cs.len(),
            i <= pat.len(),
            forall|j: int| 0 <= j < i ==> cs@[k + j] == pat@[j],
        decreases pat.len() - i,
    {
        if cs[k + i] != pat[i] {
            assert(cs@.subrange(k as int, k + pat.len())[i as int] != pat@[i as int]);
            return false;
        }
        i = i + 1;
    }
    assert(cs@.subrange(k as int, k + pat.len()) =~= pat@);
    true
}

/// First position at or after `lo` where `pat` occurs inside `cs[lo..hi]`.
pub fn find_in(cs: &Vec<char>, lo: usize, hi: usize, pat: &Vec<char>) -> (r: Option<usize>)
    requires
        lo <= hi <= cs.len(),
    ensures
        match find(cs@.subrange(lo as int, hi as int), pat@) {
            Some(k) => r == Some((lo + k) as usize),
            None => r is None,
        },
{
    let ghost s = cs@.subrange(lo as int, hi as int);
    let mut k = lo;
    while k <= hi
        invariant
            lo <= k <= hi + 1,
            hi <= cs.len(),
            s == cs@.subrange(lo as int, hi as int),
            k <= hi ==> find(s, pat@) == match find(cs@.subrange(k as int, hi as int), pat@) {
                Some(j) => Some(j + (k - lo)),
                None => None,
            },
            k > hi ==> find(s, pat@) is None,
        decreases hi + 1 - k,
    {
        let ghost t = cs@.subrange(k as int, hi as int);
        if matches_at(cs, hi, k, pat) {
            assert(t.take(pat@.len() as int) == pat@) by {
                assert(t.take(pat@.len() as int) == cs@.subrange(k as int, k + pat@.len()));
            }
            return Some(k);
        }
        proof {
            if t.len() >= pat@.len() {
                assert(t.take(pat@.len() as int) == cs@.subrange(k as int, k + pat@.len()));
            }
            if k < hi {
                assert(t.drop_first() == cs@.subrange(k + 1, hi as int));
            }
        }
        if k == hi {
            return None;
        }
        k = k + 1;
    }
    None
}

/// Position of the first occurrence of `pat` in `s`, in characters.
pub fn find_str(s: &str, pat: &str) -> (r: Option<usize>)
    ensures
        match find(s@, pat@) {
            Some(k) => r == Some(k as usize),
            None => r is None,
        },
{
    let cs = chars_of(s);
    let ps = chars_of(pat);
    assert(cs@.subrange(0, cs@.len() as int) == cs@);
    find_in(&cs, 0, cs.len(), &ps)
}

/// `str::contains` for a string pattern.
pub fn contains_str(s: &str, pat: &str) -> (b: bool)
    ensures
        b == contains(s@, pat@),
{
    find_str(s, pat).is_some()
}

/// `str::starts_with` for a string pattern.
pub fn starts_with(s: &str, pat: &str) -> (b: bool)
    ensures
        b == pat@.is_prefix_of(s@),
{
    let cs = chars_of(s);
    let ps = chars_of(pat);
    let b = matches_at(&cs, cs.len(), 0, &ps);
    proof {
        if b {
            assert forall|i: int| 0 <= i < ps@.len() implies ps@[i] == cs@[i] by {
                assert(cs@.subrange(0, ps@.len() as int)[i] == cs@[i]);
            }
        } else if ps@.is_prefix_of(cs@) {
            assert(cs@.subrange(0, ps@.len() as int) =~= ps@);
        }
    }
    b
}

// ── UTF-8 byte length ──

/// Number of bytes UTF-8 uses for a character.
pub open spec fn char_width(c: char) -> nat {
    if (c as u32) < 0x80 {
        1
    } else if (c as u32) < 0x800 {
        2
    } else if (c as u32) < 0x10000 {
        3
    } else {
        4
    }
}

/// Number of bytes of the UTF-8 encoding of `s` (`str::len`).
pub open spec fn utf8_len(s: Seq<char>) -> nat
    decreases s.len(),
{
    if s.len() == 0 {
        0
    } else {
        utf8_len(s.drop_last()) + char_width(s.last())
    }
}

pub proof fn lemma_utf8_len_bound(s: Seq<char>)
    ensures
        utf8_len(s) <= 4 * s.len(),
    decreases s.len(),
{
    if s.len() > 0 {
        lemma_utf8_len_bound(s.drop_last());
    }
}

/// The byte length of a string slice (`str::len`), wide enough never to overflow.
pub fn byte_len(s: &str) -> (n: u128)
    ensures
        n == utf8_len(s@),
        n <= 4 * usize::MAX,
{
    let count = s.unicode_len();
    let mut n: u128 = 0;
    for c in it: s.chars()
        invariant
            it.seq() == s@,
            count == s@.len(),
            n == utf8_len(it.seq().take(it.index())),
    {
        proof {
            lemma_utf8_len_bound(it.seq().take(it.index()));
            assert(it.seq().take(it.index() + 1).drop_last() =~= it.seq().take(it.index()));
        }
        let code = c as u32;
        let w: u128 = if code < 0x80 {
            1
        } else if code < 0x800 {
            2
        } else if code < 0x10000 {
            3
        } else {
            4
        };
        n = n + w;
    }
    proof {
        assert(s@.take(s@.len() as int) =~= s@);
        lemma_utf8_len_bound(s@);
    }
    n
}

// ── Ordering ──

/// Lexicographic order by code point, the order `str`'s `cmp` uses
/// (UTF-8 byte order and code point order agree).
pub open spec fn lex_le(a: Seq<char>, b: Seq<char>) -> bool
    decreases a.len(),
{
    if a.len() == 0 {
        true
    } else if b.len() == 0 {
        false
    } else if (a[0] as u32) < (b[0] as u32) {
        true
    } else if (a[0] as u32) > (b[0] as u32) {
        false
    } else {
        lex_le(a.drop_first(), b.drop_first())
    }
}

/// `a <= b` for strings.
pub fn str_le(a: &str, b: &str) -> (r: bool)
    ensures
        r == lex_le(a@, b@),
{
    let x = chars_of(a);
    let y = chars_of(b);
    let mut i: usize = 0;
    assert(x@.skip(0) =~= x@);
    assert(y@.skip(0) =~= y@);
    while i < x.len() && i < y.len()
        invariant
            x@ == a@,
            y@ == b@,
            i <= x.len(),
            i <= y.len(),
            lex_le(x@, y@) == lex_le(x@.skip(i as int), y@.skip(i as int)),
        decreases x.len() - i,
    {
        let c = x[i] as u32;
        let d = y[i] as u32;
        assert(x@.skip(i as int)[0] == x@[i as int]);
        assert(y@.skip(i as int)[0] == y@[i as int]);
        if c < d {
            return true;
        }
        if c > d {
            return false;
        }
        assert(x@.skip(i as int).drop_first() =~= x@.skip(i + 1));
        assert(y@.skip(i as int).drop_first() =~= y@.skip(i + 1));
        i = i + 1;
    }
    i == x.len()
}

// ── Splitting ──

/// Position of the first occurrence of `c` in `s`.
pub open spec fn char_index(s: Seq<char>, c: char) -> Option<int>
    decreases s.len(),
{
    if s.len() == 0 {
        None
    } else if s[0] == c {
        Some(0)
    } else {
        match char_index(s.drop_first(), c) {
            Some(k) => Some(k + 1),
            None => None,
        }
    }
}

pub proof fn lemma_char_index(s: Seq<char>, c: char)
    ensures
        match char_index(s, c) {
            Some(k) => 0 <= k < s.len() && s[k] == c && forall|j: int| 0 <= j < k ==> s[j] != c,
            None => forall|j: int| 0 <= j < s.len() ==> s[j] != c,
        },
    decreases s.len(),
{
    if s.len() > 0 && s[0] != c {
        lemma_char_index(s.drop_first(), c);
        match char_index(s.drop_first(), c) {
            Some(k) => {
                assert forall|j: int| 0 <= j < k + 1 implies s[j] != c by {
                    if j > 0 {
                        assert(s[j] == s.drop_first()[j - 1]);
                    }
                }
            },
            None => {
                assert forall|j: int| 0 <= j < s.len() implies s[j] != c by {
                    if j > 0 {
                        assert(s[j] == s.drop_first()[j - 1]);
                    }
                }
            },
        }
    }
}

/// First position at or after `from` where `c` occurs in `cs`.
pub fn index_of_char(cs: &Vec<char>, from: usize, c: char) -> (r: Option<usize>)
    requires
        from <= cs.len(),
    ensures
        match char_index(cs@.skip(from as int), c) {
            Some(k) => r == Some((from + k) as usize),
            None => r is None,
        },
{
    let mut i = from;
    while i < cs.len()
        invariant
            from <= i <= cs.len(),
            forall|j: int| from <= j < i ==> cs@[j] != c,
        decreases cs.len() - i,
    {
        if cs[i] == c {
            proof {
                let t = cs@.skip(from as int);
                lemma_char_index(t, c);
                match char_index(t, c) {
                    Some(k) => {
                        assert(t[i - from] == c);
                        assert(k == i - from) by {
                            if k < i - from {
                                assert(t[k] == cs@[from + k]);
                            }
                        }
                    },
                    None => {
                        assert(t[i - from] == c);
                    },
                }
            }
            return Some(i);
        }
        i = i + 1;
    }
    proof {
        let t = cs@.skip(from as int);
        lemma_char_index(t, c);
        match char_index(t, c) {
            Some(k) => {
                assert(t[k] == cs@[from + k]);
            },
            None => {},
        }
    }
    None
}

/// A line without its carriage return, as `str::lines` strips it.
pub open spec fn strip_cr(t: Seq<char>) -> Seq<char> {
    if t.len() > 0 && t.last() == '\r' {
        t.drop_last()
    } else {
        t
    }
}

/// The lines of `s` (`str::lines`): split after each `\n`, which is dropped
/// together with a `\r` before it; no empty line after a final `\n`.
pub open spec fn lines(s: Seq<char>) -> Seq<Seq<char>>
    decreases s.len(),
{
    if s.len() == 0 {
        Seq::empty()
    } else {
        match char_index(s, '\n') {
            Some(k) => {
                proof {
                    lemma_char_index(s, '\n');
                }
                seq![strip_cr(s.take(k))] + lines(s.skip(k + 1))
            },
            None => seq![s],
        }
    }
}

/// `s.lines()`, each line as a string.
pub fn split_lines(s: &str) -> (r: Vec<String>)
    ensures
        strs_view(r@) == lines(s@),
{
    let cs = chars_of(s);
    let n = cs.len();
    let mut out: Vec<String> = Vec::new();
    let mut i: usize = 0;
    assert(cs@.skip(0) =~= cs@);
    assert(strs_view(out@) + lines(cs@) =~= lines(cs@));
    while i < n
        invariant
            n == cs.len(),
            cs@ == s@,
            i <= n,
            strs_view(out@) + lines(cs@.skip(i as int)) == lines(cs@),
        decreases n - i,
    {
        let ghost rest = cs@.skip(i as int);
        let ghost before = strs_view(out@);
        match index_of_char(&cs, i, '\n') {
            Some(k) => {
                proof {
                    lemma_char_index(rest, '\n');
                }
                let end = if k > i && cs[k - 1] == '\r' {
                    k - 1
                } else {
                    k
                };
                let line = string_of_range(&cs, i, end);
                out.push(line);
                proof {
                    lemma_char_index(rest, '\n');
                    assert(rest.take(k - i) =~= cs@.subrange(i as int, k as int));
                    assert(strip_cr(rest.take(k - i)) =~= cs@.subrange(i as int, end as int));
                    assert(rest.skip(k - i + 1) =~= cs@.skip(k + 1));
                    assert(strs_view(out@) =~= before.push(cs@.subrange(i as int, end as int)));
                    assert(lines(rest) == seq![strip_cr(rest.take(k - i))] + lines(rest.skip(k - i + 1)));
                    assert(before + lines(rest) =~= strs_view(out@) + lines(cs@.skip(k + 1)));
                }
                i = k + 1;
            },
            None => {
                let line = string_of_range(&cs, i, n);
                out.push(line);
                proof {
                    assert(rest =~= cs@.subrange(i as int, n as int));
                    assert(strs_view(out@) =~= before.push(rest));
                    assert(cs@.skip(n as int) =~= Seq::<char>::empty());
                    assert(before + lines(rest) =~= strs_view(out@) + lines(cs@.skip(n as int)));
                }
                i = n;
            },
        }
    }
    proof {
        assert(cs@.skip(n as int) =~= Seq::<char>::empty());
        assert(strs_view(out@) + Seq::<Seq<char>>::empty() =~= strs_view(out@));
    }
    out
}

/// Length of the run of non-whitespace characters at the start of `s`.
pub open spec fn word_len(s: Seq<char>) -> nat
    decreases s.len(),
{
    if s.len() == 0 || is_ws(s[0]) {
        0
    } else {
        1 + word_len(s.drop_first())
    }
}

/// The whitespace-separated words of `s` (`str::split_whitespace`).
pub open spec fn words(s: Seq<char>) -> Seq<Seq<char>>
    decreases s.len(),
{
    if s.len() == 0 {
        Seq::empty()
    } else if is_ws(s[0]) {
        words(s.drop_first())
    } else {
        let k = word_len(s);
        proof {
            lemma_word_len(s);
        }
        seq![s.take(k as int)] + words(s.skip(k as int))
    }
}

pub proof fn lemma_word_len(s: Seq<char>)
    ensures
        word_len(s) <= s.len(),
        s.len() > 0 && !is_ws(s[0]) ==> word_len(s) >= 1,
        forall|j: int| 0 <= j < word_len(s) ==> !is_ws(s[j]),
        word_len(s) < s.len() ==> is_ws(s[word_len(s) as int]),
    decreases s.len(),
{
    if s.len() > 0 && !is_ws(s[0]) {
        lemma_word_len(s.drop_first());
        assert forall|j: int| 0 <= j < word_len(s) implies !is_ws(s[j]) by {
            if j > 0 {
                assert(s[j] == s.drop_first()[j - 1]);
            }
        }
        if word_len(s) < s.len() {
            assert(s[word_len(s) as int] == s.drop_first()[word_len(s) - 1]);
        }
    }
}

/// The word length at `i` in terms of positions: the first whitespace at or after `i`.
proof fn lemma_word_len_at(s: Seq<char>, i: int, j: int)
    requires
        0 <= i <= j <= s.len(),
        forall|k: int| i <= k < j ==> !is_ws(s[k]),
        j == s.len() || is_ws(s[j]),
    ensures
        word_len(s.skip(i)) == j - i,
    decreases j - i,
{
    if i < j {
        lemma_word_len_at(s, i + 1, j);
        assert(s.skip(i).drop_first() =~= s.skip(i + 1));
    } else {
        if j < s.len() {
            assert(s.skip(i)[0] == s[j]);
        }
    }
}

/// `s.split_whitespace()`, each word as a string.
pub fn split_words(s: &str) -> (r: Vec<String>)
    ensures
        strs_view(r@) == words(s@),
{
    let cs = chars_of(s);
    let n = cs.len();
    let mut out: Vec<String> = Vec::new();
    let mut i: usize = 0;
    assert(cs@.skip(0) =~= cs@);
    assert(strs_view(out@) + words(cs@) =~= words(cs@));
    while i < n
        invariant
            n == cs.len(),
            cs@ == s@,
            i <= n,
            strs_view(out@) + words(cs@.skip(i as int)) == words(cs@),
        decreases n - i,
    {
        let ghost rest = cs@.skip(i as int);
        let ghost before = strs_view(out@);
        if is_whitespace(cs[i]) {
            assert(rest[0] == cs@[i as int]);
            assert(rest.drop_first() =~= cs@.skip(i + 1));
            i = i + 1;
        } else {
            let mut j = i + 1;
            while j < n && !is_whitespace(cs[j])
                invariant
                    n == cs.len(),
                    i < j <= n,
                    forall|k: int| i <= k < j ==> !is_ws(cs@[k]),
                decreases n - j,
            {
                j = j + 1;
            }
            let w = string_of_range(&cs, i, j);
            out.push(w);
            proof {
                lemma_word_len_at(cs@, i as int, j as int);
                assert(rest[0] == cs@[i as int]);
                assert(rest.take(j - i) =~= cs@.subrange(i as int, j as int));
                assert(rest.skip(j - i) =~= cs@.skip(j as int));
                assert(strs_view(out@) =~= before.push(cs@.subrange(i as int, j as int)));
                assert(before + words(rest) =~= strs_view(out@) + words(cs@.skip(j as int)));
            }
            i = j;
        }
    }
    proof {
        assert(cs@.skip(n as int) =~= Seq::<char>::empty());
        assert(strs_view(out@) + Seq::<Seq<char>>::empty() =~= strs_view(out@));
    }
    out
}

// ── Small string operations ──

/// `str::trim_start` as a string.
pub fn trim_start_string(s: &str) -> (r: String)
    ensures
        r@ == trim_start(s@),
{
    let cs = chars_of(s);
    let a = skip_ws_forward(&cs, 0, cs.len());
    assert(cs@.subrange(0, cs@.len() as int) == cs@);
    string_of_range(&cs, a, cs.len())
}

/// `s` without all copies of `c` at its end (`str::trim_end_matches` for a char).
pub open spec fn trim_end_char(s: Seq<char>, c: char) -> Seq<char>
    decreases s.len(),
{
    if s.len() > 0 && s.last() == c {
        trim_end_char(s.drop_last(), c)
    } else {
        s
    }
}

/// `s.trim_end_matches(c)`.
pub fn trim_end_matches_char(s: &str, c: char) -> (r: String)
    ensures
        r@ == trim_end_char(s@, c),
{
    let cs = chars_of(s);
    let mut k = cs.len();
    assert(cs@.take(k as int) =~= cs@);
    while k > 0 && cs[k - 1] == c
        invariant
            k <= cs.len(),
            trim_end_char(cs@, c) == trim_end_char(cs@.take(k as int), c),
        decreases k,
    {
        assert(cs@.take(k as int).drop_last() =~= cs@.take(k - 1));
        k = k - 1;
    }
    assert(cs@.subrange(0, k as int) =~= cs@.take(k as int));
    string_of_range(&cs, 0, k)
}

/// What precedes the first `c` in `s`, or all of `s` (`s.split(c).next()`).
pub open spec fn before_char(s: Seq<char>, c: char) -> Seq<char> {
    match char_index(s, c) {
        Some(k) => s.take(k),
        None => s,
    }
}

/// `s.split(c).next().unwrap()`.
pub fn before_char_string(s: &str, c: char) -> (r: String)
    ensures
        r@ == before_char(s@, c),
{
    let cs = chars_of(s);
    proof {
        assert(cs@.skip(0) =~= cs@);
        lemma_char_index(cs@, c);
    }
    match index_of_char(&cs, 0, c) {
        Some(k) => {
            assert(cs@.subrange(0, k as int) =~= cs@.take(k as int));
            string_of_range(&cs, 0, k)
        },
        None => {
            assert(cs@.subrange(0, cs.len() as int) =~= cs@);
            string_of_range(&cs, 0, cs.len())
        },
    }
}

/// `s` after the prefix `p`, if it starts with it (`str::strip_prefix`).
pub open spec fn after_prefix(s: Seq<char>, p: Seq<char>) -> Option<Seq<char>> {
    if p.is_prefix_of(s) {
        Some(s.skip(p.len() as int))
    } else {
        None
    }
}

/// `s.strip_prefix(p)` as a string.
pub fn strip_prefix_string(s: &str, p: &str) -> (r: Option<String>)
    ensures
        match after_prefix(s@, p@) {
            Some(t) => r matches Some(x) && x@ == t,
            None => r is None,
        },
{
    if starts_with(s, p) {
        let cs = chars_of(s);
        let n = p.unicode_len();
        assert(cs@.subrange(n as int, cs.len() as int) =~= cs@.skip(n as int));
        Some(string_of_range(&cs, n, cs.len()))
    } else {
        None
    }
}

/// The first whitespace-separated word of `s`.
pub open spec fn first_word(s: Seq<char>) -> Option<Seq<char>> {
    if words(s).len() > 0 {
        Some(words(s)[0])
    } else {
        None
    }
}

/// `s.split_whitespace().next()`.
pub fn first_word_string(s: &str) -> (r: Option<String>)
    ensures
        match first_word(s@) {
            Some(w) => r matches Some(x) && x@ == w,
            None => r is None,
        },
{
    let mut ws = split_words(s);
    if ws.len() > 0 {
        let w = ws.remove(0);
        Some(w)
    } else {
        None
    }
}

// ── Joining ──

/// The parts written one after another with `sep` between neighbours (`[..].join(sep)`).
pub open spec fn join(parts: Seq<Seq<char>>, sep: Seq<char>) -> Seq<char>
    decreases parts.len(),
{
    if parts.len() == 0 {
        Seq::empty()
    } else if parts.len() == 1 {
        parts[0]
    } else {
        join(parts.drop_last(), sep) + sep + parts.last()
    }
}

/// Model of a list of strings.
pub open spec fn strs_view(v: Seq<String>) -> Seq<Seq<char>> {
    v.map_values(|s: String| s@)
}

/// `parts.join(sep)`.
pub fn join_strings(parts: &Vec<String>, sep: &str) -> (r: String)
    ensures
        r@ == join(strs_view(parts@), sep@),
{
    let mut r = String::new();
    let mut i: usize = 0;
    while i < parts.len()
        invariant
            i <= parts.len(),
            r@ == join(strs_view(parts@).take(i as int), sep@),
        decreases parts.len() - i,
    {
        let ghost pre = strs_view(parts@).take(i as int);
        if i > 0 {
            push_str(&mut r, sep);
        }
        push_str(&mut r, parts[i].as_str());
        proof {
            let next = strs_view(parts@).take(i + 1);
            assert(next.drop_last() =~= pre);
            assert(next.last() == parts@[i as int]@);
            if i == 0 {
                assert(r@ =~= next[0]);
            }
        }
        i = i + 1;
    }
    assert(strs_view(parts@).take(parts.len() as int) =~= strs_view(parts@));
    r
}

// ── Case folding ──

/// What `str::to_lowercase` returns for the given characters (Unicode case mapping).
pub uninterp spec fn lowercase(s: Seq<char>) -> Seq<char>;

/// `str::to_lowercase`: the Unicode lower case of the text.
#[verifier::external_body]
pub(crate) fn to_lowercase(s: &str) -> (r: String)
    ensures
        r@ == lowercase(s@),
{
    s.to_lowercase()
}

} // verus!
