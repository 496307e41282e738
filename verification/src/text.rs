//! Character-level text helpers shared by the entity-lump and command-line
//! parsers: Unicode whitespace, trimming, splitting, and the number syntaxes
//! accepted by `f32::from_str` and `u32::from_str`.
use vstd::prelude::*;

verus! {

broadcast use vstd::string::group_string_axioms;

/// The Unicode `White_Space` property, which `char::is_whitespace` tests.
pub open spec fn is_ws(c: char) -> bool {
    let u = c as u32;
    ||| 0x09 <= u <= 0x0D
    ||| u == 0x20
    ||| u == 0x85
    ||| u == 0xA0
    ||| u == 0x1680
    ||| 0x2000 <= u <= 0x200A
    ||| u == 0x2028
    ||| u == 0x2029
    ||| u == 0x202F
    ||| u == 0x205F
    ||| u == 0x3000
}

/// `char::is_whitespace`.
pub fn is_whitespace(c: char) -> (b: bool)
    ensures
        b == is_ws(c),
{
    let u = c as u32;
    (0x09 <= u && u <= 0x0D) || u == 0x20 || u == 0x85 || u == 0xA0 || u == 0x1680 || (0x2000 <= u
        && u <= 0x200A) || u == 0x2028 || u == 0x2029 || u == 0x202F || u == 0x205F || u == 0x3000
}

/// `s` without its leading and trailing whitespace (what `str::trim` returns).
pub open spec fn trimmed(s: Seq<char>) -> Seq<char>
    decreases s.len(),
{
    if s.len() > 0 && is_ws(s.first()) {
        trimmed(s.drop_first())
    } else if s.len() > 0 && is_ws(s.last()) {
        trimmed(s.drop_last())
    } else {
        s
    }
}

/// The characters of a string slice.
pub fn chars_of(s: &str) -> (out: Vec<char>)
    ensures
        out@ == s@,
{
    let mut out: Vec<char> = Vec::new();
    for c in it: s.chars()
        invariant
            out@ == it.seq().take(it.index() as int),
    {
        out.push(c);
    }
    assert(out@ =~= s@);
    out
}

/// Bounds `(a, b)` such that `s[a..b]` is `s[lo..hi]` trimmed.
pub fn trim_range(s: &Vec<char>, lo: usize, hi: usize) -> (r: (usize, usize))
    requires
        lo <= hi <= s@.len(),
    ensures
        lo <= r.0 <= r.1 <= hi,
        s@.subrange(r.0 as int, r.1 as int) == trimmed(s@.subrange(lo as int, hi as int)),
{
    let mut a = lo;
    while a < hi && is_whitespace(s[a])
        invariant
            lo <= a <= hi <= s@.len(),
            trimmed(s@.subrange(lo as int, hi as int)) == trimmed(s@.subrange(a as int, hi as int)),
        decreases hi - a,
    {
        assert(s@.subrange(a as int, hi as int).drop_first() =~= s@.subrange(a + 1, hi as int));
        a = a + 1;
    }
    let mut b = hi;
    while b > a && is_whitespace(s[b - 1])
        invariant
            lo <= a <= b <= hi <= s@.len(),
            a < b ==> !is_ws(s@[a as int]),
            trimmed(s@.subrange(lo as int, hi as int)) == trimmed(s@.subrange(a as int, b as int)),
        decreases b - a,
    {
        let ghost t = s@.subrange(a as int, b as int);
        assert(t.first() == s@[a as int]);
        assert(t.drop_last() =~= s@.subrange(a as int, b - 1));
        b = b - 1;
    }
    proof {
        let t = s@.subrange(a as int, b as int);
        if t.len() > 0 {
            assert(t.first() == s@[a as int]);
            assert(t.last() == s@[b - 1]);
        }
    }
    (a, b)
}

/// An ASCII decimal digit.
pub open spec fn is_digit(c: char) -> bool {
    '0' <= c <= '9'
}

/// ASCII lowercase of one character.
pub open spec fn ascii_lower(c: char) -> char {
    if 'A' <= c <= 'Z' {
        ((c as u32) + 32) as char
    } else {
        c
    }
}

/// Case-insensitive (ASCII) match of `s` against the lowercase `word`.
pub open spec fn eq_ignore_case(s: Seq<char>, word: Seq<char>) -> bool {
    s.len() == word.len() && forall|i: int| 0 <= i < s.len() ==> ascii_lower(#[trigger] s[i]) == word[i]
}

/// Length of the run of digits in `s` starting at `i`.
pub open spec fn digit_run(s: Seq<char>, i: int) -> nat
    decreases s.len() - i,
{
    if 0 <= i < s.len() && is_digit(s[i]) {
        1 + digit_run(s, i + 1)
    } else {
        0
    }
}

/// `+` or `-`.
pub open spec fn is_sign(c: char) -> bool {
    c == '+' || c == '-'
}

/// `Sign? Digit+`
pub open spec fn is_signed_digits(u: Seq<char>, i: int) -> bool {
    let j = if i < u.len() && is_sign(u[i]) { i + 1 } else { i };
    digit_run(u, j) > 0 && j + digit_run(u, j) == u.len()
}

/// `Exp?` over the suffix of `s` from `i`, with `Exp ::= 'e' Sign? Digit+`.
pub open spec fn is_opt_exponent(s: Seq<char>, i: int) -> bool {
    i == s.len() || (i < s.len() && ascii_lower(s[i]) == 'e' && is_signed_digits(s, i + 1))
}

/// `Number ::= ( Digit+ | Digit+ '.' Digit* | Digit* '.' Digit+ ) Exp?` over the
/// suffix of `s` from `i`.
pub open spec fn is_decimal(s: Seq<char>, i: int) -> bool {
    let int_len = digit_run(s, i);
    let dot = i + int_len;
    if dot < s.len() && s[dot] == '.' {
        let frac_len = digit_run(s, dot + 1);
        (int_len > 0 || frac_len > 0) && is_opt_exponent(s, dot + 1 + frac_len)
    } else {
        int_len > 0 && is_opt_exponent(s, dot)
    }
}

/// The text that `f32::from_str` accepts, per its documented grammar
/// (ASCII case-insensitive):
/// `Float ::= Sign? ( 'inf' | 'infinity' | 'nan' | Number )`.
pub open spec fn is_float_text(s: Seq<char>) -> bool {
    let i: int = if s.len() > 0 && is_sign(s[0]) { 1 } else { 0 };
    let body = s.skip(i);
    ||| eq_ignore_case(body, seq!['i', 'n', 'f'])
    ||| eq_ignore_case(body, seq!['i', 'n', 'f', 'i', 'n', 'i', 't', 'y'])
    ||| eq_ignore_case(body, seq!['n', 'a', 'n'])
    ||| is_decimal(s, i)
}

fn lower_char(c: char) -> (r: char)
    ensures
        r == ascii_lower(c),
{
    if 'A' <= c && c <= 'Z' {
        let u: u8 = c as u8 + 32;
        u as char
    } else {
        c
    }
}

/// Whether `s[lo..hi]`, ASCII-lowercased, equals the lowercase `word`.
pub fn matches_word(s: &Vec<char>, lo: usize, hi: usize, word: &[char]) -> (b: bool)
    requires
        lo <= hi <= s@.len(),
    ensures
        b == eq_ignore_case(s@.subrange(lo as int, hi as int), word@),
{
    if hi - lo != word.len() {
        return false;
    }
    let mut k: usize = 0;
    while k < word.len()
        invariant
            hi - lo == word@.len(),
            lo <= hi <= s@.len(),
            k <= word@.len(),
            forall|m: int| 0 <= m < k ==> ascii_lower(s@[lo + m]) == word@[m],
        decreases word@.len() - k,
    {
        if lower_char(s[lo + k]) != word[k] {
            assert(ascii_lower(s@.subrange(lo as int, hi as int)[k as int]) != word@[k as int]);
            return false;
        }
        k = k + 1;
    }
    assert forall|m: int| 0 <= m < word@.len() implies ascii_lower(#[trigger] s@.subrange(lo as int, hi as int)[m]) == word@[m] by {
        assert(s@.subrange(lo as int, hi as int)[m] == s@[lo + m]);
    }
    true
}

/// End of the digit run starting at `i` (bounded by `hi`).
fn scan_digits(s: &Vec<char>, i: usize, hi: usize) -> (j: usize)
    requires
        i <= hi == s@.len(),
    ensures
        j == i + digit_run(s@, i as int),
        j <= hi,
{
    let mut j = i;
    while j < hi && '0' <= s[j] && s[j] <= '9'
        invariant
            i <= j <= hi == s@.len(),
            digit_run(s@, i as int) == (j - i) + digit_run(s@, j as int),
        decreases hi - j,
    {
        j = j + 1;
    }
    j
}

fn signed_digits(s: &Vec<char>, i: usize) -> (b: bool)
    requires
        i <= s@.len(),
    ensures
        b == is_signed_digits(s@, i as int),
{
    let n = s.len();
    let j = if i < n && (s[i] == '+' || s[i] == '-') { i + 1 } else { i };
    let e = scan_digits(s, j, n);
    e > j && e == n
}

fn opt_exponent(s: &Vec<char>, i: usize) -> (b: bool)
    requires
        i <= s@.len(),
    ensures
        b == is_opt_exponent(s@, i as int),
{
    if i == s.len() {
        return true;
    }
    lower_char(s[i]) == 'e' && signed_digits(s, i + 1)
}

/// Whether `f32::from_str` accepts the whole of `s`.
pub fn float_text(s: &Vec<char>) -> (b: bool)
    ensures
        b == is_float_text(s@),
{
    let n = s.len();
    let i: usize = if n > 0 && (s[0] == '+' || s[0] == '-') { 1 } else { 0 };
    assert(s@.skip(i as int) =~= s@.subrange(i as int, n as int));
    if matches_word(s, i, n, &['i', 'n', 'f']) || matches_word(s, i, n, &['i', 'n', 'f', 'i', 'n', 'i', 't', 'y'])
        || matches_word(s, i, n, &['n', 'a', 'n']) {
        return true;
    }
    let dot = scan_digits(s, i, n);
    if dot < n && s[dot] == '.' {
        let end = scan_digits(s, dot + 1, n);
        (dot > i || end > dot + 1) && opt_exponent(s, end)
    } else {
        dot > i && opt_exponent(s, dot)
    }
}

/// A non-empty run of ASCII decimal digits.
pub open spec fn all_digits(s: Seq<char>) -> bool {
    forall|i: int| 0 <= i < s.len() ==> is_digit(#[trigger] s[i])
}

/// Value of a string of decimal digits.
pub open spec fn decimal_value(s: Seq<char>) -> nat
    decreases s.len(),
{
    if s.len() == 0 {
        0
    } else {
        decimal_value(s.drop_last()) * 10 + ((s.last() as u32) - ('0' as u32)) as nat
    }
}

/// What `u32::from_str` returns: an optional `+`, then one or more decimal
/// digits whose value fits in a `u32`.
pub open spec fn parse_u32_spec(s: Seq<char>) -> Option<u32> {
    let body = if s.len() > 0 && s[0] == '+' { s.skip(1) } else { s };
    if body.len() > 0 && all_digits(body) && decimal_value(body) <= u32::MAX {
        Some(decimal_value(body) as u32)
    } else {
        None
    }
}

proof fn lemma_decimal_prefix_le(s: Seq<char>, k: int)
    requires
        0 <= k <= s.len(),
        all_digits(s),
    ensures
        decimal_value(s.take(k)) <= decimal_value(s),
    decreases s.len() - k,
{
    if k < s.len() {
        lemma_decimal_prefix_le(s, k + 1);
        assert(s.take(k + 1).drop_last() =~= s.take(k));
        assert(is_digit(s[k]));
    } else {
        assert(s.take(k) =~= s);
    }
}

/// `u32::from_str` on `s[lo..hi]`.
pub fn parse_u32(s: &Vec<char>, lo: usize, hi: usize) -> (r: Option<u32>)
    requires
        lo <= hi <= s@.len(),
    ensures
        r == parse_u32_spec(s@.subrange(lo as int, hi as int)),
{
    let ghost t = s@.subrange(lo as int, hi as int);
    let start = if lo < hi && s[lo] == '+' { lo + 1 } else { lo };
    let ghost body = s@.subrange(start as int, hi as int);
    assert(body =~= (if t.len() > 0 && t[0] == '+' { t.skip(1) } else { t }));
    if start == hi {
        return None;
    }
    let mut v: u32 = 0;
    let mut k: usize = start;
    while k < hi
        invariant
            start <= k <= hi <= s@.len(),
            body == s@.subrange(start as int, hi as int),
            t == s@.subrange(lo as int, hi as int),
            body == (if t.len() > 0 && t[0] == '+' { t.skip(1) } else { t }),
            all_digits(s@.subrange(start as int, k as int)),
            v as nat == decimal_value(s@.subrange(start as int, k as int)),
        decreases hi - k,
    {
        let c = s[k];
        let ghost pre = s@.subrange(start as int, k + 1);
        assert(pre.drop_last() =~= s@.subrange(start as int, k as int));
        assert(pre.last() == c);
        if !('0' <= c && c <= '9') {
            assert(!is_digit(body[k - start]));
            assert(!all_digits(body));
            return None;
        }
        let d: u32 = (c as u32) - ('0' as u32);
        assert(d <= 9);
        if v > (u32::MAX - d) / 10 {
            proof {
                assert(decimal_value(pre) > u32::MAX) by (nonlinear_arith)
                    requires
                        decimal_value(pre) == v * 10 + d,
                        v > (u32::MAX - d) / 10,
                        d <= 9;
                assert forall|m: int| 0 <= m < body.len() implies is_digit(#[trigger] body[m]) || !all_digits(body) by {}
                if all_digits(body) {
                    assert(body.take(k + 1 - start) =~= pre);
                    lemma_decimal_prefix_le(body, k + 1 - start);
                    assert(decimal_value(body) > u32::MAX);
                }
            }
            return None;
        }
        v = v * 10 + d;
        k = k + 1;
    }
    assert(s@.subrange(start as int, k as int) =~= body);
    Some(v)
}

/// Splitting `s` at every `sep`, as `str::split` does: always at least one piece.
pub open spec fn split_on(s: Seq<char>, sep: char) -> Seq<Seq<char>>
    decreases s.len(),
{
    if s.len() == 0 {
        seq![Seq::empty()]
    } else {
        let r = split_on(s.drop_last(), sep);
        if s.last() == sep {
            r.push(Seq::empty())
        } else {
            r.update(r.len() - 1, r.last().push(s.last()))
        }
    }
}

proof fn lemma_split_nonempty(s: Seq<char>, sep: char)
    ensures
        split_on(s, sep).len() >= 1,
    decreases s.len(),
{
    if s.len() > 0 {
        lemma_split_nonempty(s.drop_last(), sep);
    }
}

/// The pieces that index ranges cut out of `s`.
pub open spec fn range_pieces(s: Seq<char>, ranges: Seq<(usize, usize)>) -> Seq<Seq<char>> {
    ranges.map_values(|r: (usize, usize)| s.subrange(r.0 as int, r.1 as int))
}

/// Every range is ordered and lies within `lo..hi`.
pub open spec fn ranges_within(ranges: Seq<(usize, usize)>, lo: int, hi: int) -> bool {
    forall|k: int| 0 <= k < ranges.len() ==> lo <= (#[trigger] ranges[k]).0 <= ranges[k].1 <= hi
}

/// Index ranges of the pieces of `s[lo..hi]` split at `sep`.
pub fn split_ranges(s: &Vec<char>, lo: usize, hi: usize, sep: char) -> (r: Vec<(usize, usize)>)
    requires
        lo <= hi <= s@.len(),
    ensures
        range_pieces(s@, r@) == split_on(s@.subrange(lo as int, hi as int), sep),
        ranges_within(r@, lo as int, hi as int),
        r@.len() >= 1,
{
    let mut r: Vec<(usize, usize)> = Vec::new();
    let mut piece_start = lo;
    let mut k = lo;
    assert(s@.subrange(lo as int, lo as int) =~= Seq::<char>::empty());
    while k < hi
        invariant
            lo <= piece_start <= k <= hi <= s@.len(),
            ranges_within(r@, lo as int, k as int),
            range_pieces(s@, r@).push(s@.subrange(piece_start as int, k as int)) == split_on(
                s@.subrange(lo as int, k as int),
                sep,
            ),
        decreases hi - k,
    {
        let ghost before = range_pieces(s@, r@);
        let ghost t = s@.subrange(lo as int, k + 1);
        assert(t.drop_last() =~= s@.subrange(lo as int, k as int));
        assert(t.last() == s@[k as int]);
        proof {
            lemma_split_nonempty(t.drop_last(), sep);
        }
        if s[k] == sep {
            r.push((piece_start, k));
            assert(range_pieces(s@, r@) =~= before.push(s@.subrange(piece_start as int, k as int)));
            piece_start = k + 1;
            assert(s@.subrange(piece_start as int, k + 1) =~= Seq::<char>::empty());
        } else {
            assert(s@.subrange(piece_start as int, k + 1) =~= s@.subrange(piece_start as int, k as int).push(s@[k as int]));
        }
        k = k + 1;
    }
    let ghost before = range_pieces(s@, r@);
    r.push((piece_start, hi));
    assert(range_pieces(s@, r@) =~= before.push(s@.subrange(piece_start as int, hi as int)));
    r
}

/// First index of `c` in `s[lo..hi]`.
pub fn find_char(s: &Vec<char>, lo: usize, hi: usize, c: char) -> (r: Option<usize>)
    requires
        lo <= hi <= s@.len(),
    ensures
        r matches Some(i) ==> lo <= i < hi && s@[i as int] == c && forall|m: int| lo <= m < i ==> s@[m] != c,
        r is None ==> forall|m: int| lo <= m < hi ==> s@[m] != c,
{
    let mut k = lo;
    while k < hi
        invariant
            lo <= k <= hi <= s@.len(),
            forall|m: int| lo <= m < k ==> s@[m] != c,
        decreases hi - k,
    {
        if s[k] == c {
            return Some(k);
        }
        k = k + 1;
    }
    None
}

/// A `String` holding exactly the given characters (`String::from_iter`).
#[verifier::external_body]
pub(crate) fn string_from_chars(cs: &[char]) -> (s: String)
    ensures
        s@ == cs@,
{
    String::from_iter(cs.iter())
}

/// The characters `s[lo..hi]` as a fresh vector.
pub fn slice_of(s: &Vec<char>, lo: usize, hi: usize) -> (out: Vec<char>)
    requires
        lo <= hi <= s@.len(),
    ensures
        out@ == s@.subrange(lo as int, hi as int),
{
    let mut out: Vec<char> = Vec::new();
    let mut k = lo;
    while k < hi
        invariant
            lo <= k <= hi <= s@.len(),
            out@ == s@.subrange(lo as int, k as int),
        decreases hi - k,
    {
        out.push(s[k]);
        k = k + 1;
        assert(out@ =~= s@.subrange(lo as int, k as int));
    }
    out
}

/// Whether two character vectors hold the same text.
pub fn same_text(a: &Vec<char>, b: &Vec<char>) -> (r: bool)
    ensures
        r == (a@ == b@),
{
    if a.len() != b.len() {
        return false;
    }
    let mut k: usize = 0;
    while k < a.len()
        invariant
            a@.len() == b@.len(),
            k <= a@.len(),
            forall|m: int| 0 <= m < k ==> a@[m] == b@[m],
        decreases a@.len() - k,
    {
        if a[k] != b[k] {
            return false;
        }
        k = k + 1;
    }
    assert(a@ =~= b@);
    true
}

} // verus!
