//! The GoldSrc entity lump: plain-text blocks of `"key" "value"` lines between
//! braces. Camera waypoints come from the `origin` of spawn points, bomb sites and
//! hostages; the `wad` key of `worldspawn` names the texture WADs.
use vstd::prelude::*;
use crate::text::{
    chars_of, is_ws, is_float_text, float_text, find_char, is_whitespace, range_pieces, ranges_within,
    slice_of, split_on, split_ranges, string_from_chars, trim_range, trimmed,
};

verus! {

broadcast use vstd::string::group_string_axioms;

// ---------------------------------------------------------------------------
// Lines of the form `"key" "value"`.
// ---------------------------------------------------------------------------

/// Index of the first `c` in `s`.
pub open spec fn first_index_of(s: Seq<char>, c: char) -> Option<int> {
    if exists|i: int| 0 <= i < s.len() && s[i] == c {
        Some(choose|i: int| 0 <= i < s.len() && s[i] == c && forall|m: int| 0 <= m < i ==> s[m] != c)
    } else {
        None
    }
}

proof fn lemma_first_index_of(s: Seq<char>, c: char, i: int)
    requires
        0 <= i < s.len(),
        s[i] == c,
        forall|m: int| 0 <= m < i ==> s[m] != c,
    ensures
        first_index_of(s, c) == Some(i),
{
    assert(exists|j: int| 0 <= j < s.len() && s[j] == c && forall|m: int| 0 <= m < j ==> s[m] != c);
    let j = choose|j: int| 0 <= j < s.len() && s[j] == c && forall|m: int| 0 <= m < j ==> s[m] != c;
    if j < i {
        assert(s[j] != c);
    } else if i < j {
        assert(s[i] != c);
    }
}

/// `s` without its leading and trailing double quotes (`trim_matches('"')`).
pub open spec fn strip_quotes(s: Seq<char>) -> Seq<char>
    decreases s.len(),
{
    if s.len() > 0 && s.first() == '"' {
        strip_quotes(s.drop_first())
    } else if s.len() > 0 && s.last() == '"' {
        strip_quotes(s.drop_last())
    } else {
        s
    }
}

/// A line's key and the text after the key's closing quote: the trimmed line must
/// start with `"`, and the key runs to the next `"`.
pub open spec fn line_entry(line: Seq<char>) -> Option<(Seq<char>, Seq<char>)> {
    let t = trimmed(line);
    if t.len() > 0 && t[0] == '"' {
        let rest = t.skip(1);
        match first_index_of(rest, '"') {
            Some(k) => Some((rest.take(k), rest.skip(k + 1))),
            None => None,
        }
    } else {
        None
    }
}

/// The value that follows a key: trimmed, then stripped of quotes.
pub open spec fn entry_value(after_key: Seq<char>) -> Seq<char> {
    strip_quotes(trimmed(after_key))
}

/// Lines of a block. (`str::lines` also drops a `'\r'` before each `'\n'` and a
/// final empty line; both vanish anyway once each line is trimmed.)
pub open spec fn block_lines(block: Seq<char>) -> Seq<Seq<char>> {
    split_on(block, '\n')
}

/// Value of the first line whose key is `key`.
pub open spec fn find_value(lines: Seq<Seq<char>>, key: Seq<char>) -> Option<Seq<char>>
    decreases lines.len(),
{
    if lines.len() == 0 {
        None
    } else {
        match line_entry(lines[0]) {
            Some((k, a)) => if k == key {
                Some(entry_value(a))
            } else {
                find_value(lines.drop_first(), key)
            },
            None => find_value(lines.drop_first(), key),
        }
    }
}

/// Value of the last line whose key is `key`.
pub open spec fn last_value(lines: Seq<Seq<char>>, key: Seq<char>) -> Option<Seq<char>>
    decreases lines.len(),
{
    if lines.len() == 0 {
        None
    } else {
        match line_entry(lines.last()) {
            Some((k, a)) => if k == key {
                Some(entry_value(a))
            } else {
                last_value(lines.drop_last(), key)
            },
            None => last_value(lines.drop_last(), key),
        }
    }
}

fn strip_quotes_range(s: &Vec<char>, lo: usize, hi: usize) -> (r: (usize, usize))
    requires
        lo <= hi <= s@.len(),
    ensures
        lo <= r.0 <= r.1 <= hi,
        s@.subrange(r.0 as int, r.1 as int) == strip_quotes(s@.subrange(lo as int, hi as int)),
{
    let mut a = lo;
    while a < hi && s[a] == '"'
        invariant
            lo <= a <= hi <= s@.len(),
            strip_quotes(s@.subrange(lo as int, hi as int)) == strip_quotes(s@.subrange(a as int, hi as int)),
        decreases hi - a,
    {
        proof {
            let t = s@.subrange(a as int, hi as int);
            assert(t.first() == '"');
            assert(t.drop_first() =~= s@.subrange(a + 1, hi as int));
            assert(strip_quotes(t) == strip_quotes(t.drop_first()));
        }
        a = a + 1;
    }
    let mut b = hi;
    while b > a && s[b - 1] == '"'
        invariant
            lo <= a <= b <= hi <= s@.len(),
            a < b ==> s@[a as int] != '"',
            strip_quotes(s@.subrange(lo as int, hi as int)) == strip_quotes(s@.subrange(a as int, b as int)),
        decreases b - a,
    {
        proof {
            let t = s@.subrange(a as int, b as int);
            assert(t.first() != '"');
            assert(t.last() == '"');
            assert(t.drop_last() =~= s@.subrange(a as int, b - 1));
            assert(strip_quotes(t) == strip_quotes(t.drop_last()));
        }
        b = b - 1;
    }
    proof {
        let t = s@.subrange(a as int, b as int);
        if t.len() > 0 {
            assert(t.first() == s@[a as int]);
            assert(t.last() == s@[b - 1]);
        }
        assert(strip_quotes(t) == t);
    }
    (a, b)
}

/// Key range and after-key range of the line `s[lo..hi]`.
#[verifier::rlimit(100)]
fn line_entry_range(s: &Vec<char>, lo: usize, hi: usize) -> (r: Option<(usize, usize, usize, usize)>)
    requires
        lo <= hi <= s@.len(),
    ensures
        match line_entry(s@.subrange(lo as int, hi as int)) {
            Some((k, a)) => r matches Some(q) && lo <= q.0 <= q.1 <= hi && lo <= q.2 <= q.3 <= hi
                && s@.subrange(q.0 as int, q.1 as int) == k && s@.subrange(q.2 as int, q.3 as int) == a,
            None => r is None,
        },
{
    let (a, b) = trim_range(s, lo, hi);
    let ghost t = s@.subrange(a as int, b as int);
    if a < b && s[a] == '"' {
        assert(t[0] == s@[a as int]);
        let ghost rest = t.skip(1);
        assert(rest =~= s@.subrange(a + 1, b as int));
        match find_char(s, a + 1, b, '"') {
            Some(q) => {
                let k = q - (a + 1);
                assert forall|m: int| 0 <= m < k implies rest[m] != '"' by {
                    assert(rest[m] == s@[a + 1 + m]);
                }
                proof {
                    lemma_first_index_of(rest, '"', k as int);
                }
                assert(rest.take(k as int) =~= s@.subrange(a + 1, q as int));
                assert(rest.skip(k + 1) =~= s@.subrange(q + 1, b as int));
                Some((a + 1, q, q + 1, b))
            },
            None => {
                assert forall|m: int| 0 <= m < rest.len() implies rest[m] != '"' by {
                    assert(rest[m] == s@[a + 1 + m]);
                }
                None
            },
        }
    } else {
        None
    }
}

pub(crate) fn range_is(s: &Vec<char>, lo: usize, hi: usize, w: &[char]) -> (b: bool)
    requires
        lo <= hi <= s@.len(),
    ensures
        b == (s@.subrange(lo as int, hi as int) == w@),
{
    if hi - lo != w.len() {
        return false;
    }
    let mut k: usize = 0;
    while k < w.len()
        invariant
            lo <= hi <= s@.len(),
            hi - lo == w@.len(),
            k <= w@.len(),
            forall|m: int| 0 <= m < k ==> s@[lo + m] == w@[m],
        decreases w@.len() - k,
    {
        if s[lo + k] != w[k] {
            assert(s@.subrange(lo as int, hi as int)[k as int] != w@[k as int]);
            return false;
        }
        k = k + 1;
    }
    assert(s@.subrange(lo as int, hi as int) =~= w@);
    true
}

/// Value range of the first line (among `lines`, ranges into `s`) whose key is `key`.
fn find_value_range(s: &Vec<char>, lines: &Vec<(usize, usize)>, key: &[char]) -> (r: Option<(usize, usize)>)
    requires
        ranges_within(lines@, 0, s@.len() as int),
    ensures
        match find_value(range_pieces(s@, lines@), key@) {
            Some(v) => r matches Some(q) && q.0 <= q.1 <= s@.len() && s@.subrange(q.0 as int, q.1 as int) == v,
            None => r is None,
        },
{
    let ghost pieces = range_pieces(s@, lines@);
    assert(pieces.skip(0) =~= pieces);
    let mut k: usize = 0;
    while k < lines.len()
        invariant
            ranges_within(lines@, 0, s@.len() as int),
            pieces == range_pieces(s@, lines@),
            k <= lines@.len(),
            find_value(pieces, key@) == find_value(pieces.skip(k as int), key@),
        decreases lines@.len() - k,
    {
        let ghost rest = pieces.skip(k as int);
        assert(rest[0] == pieces[k as int]);
        assert(rest.drop_first() =~= pieces.skip(k + 1));
        let (lo, hi) = lines[k];
        match line_entry_range(s, lo, hi) {
            Some((k0, k1, a0, a1)) => {
                if range_is(s, k0, k1, key) {
                    let (t0, t1) = trim_range(s, a0, a1);
                    let (v0, v1) = strip_quotes_range(s, t0, t1);
                    return Some((v0, v1));
                }
            },
            None => {},
        }
        k = k + 1;
    }
    None
}

/// The value of the first `"key" "value"` line of a block whose key is `key`:
/// the rest of the line trimmed and stripped of quotes.
pub fn parse_value(block: &str, key: &str) -> (r: Option<String>)
    ensures
        match find_value(block_lines(block@), key@) {
            Some(v) => r matches Some(t) && t@ == v,
            None => r is None,
        },
{
    let s = chars_of(block);
    let n = s.len();
    assert(s@.subrange(0, n as int) =~= s@);
    let lines = split_ranges(&s, 0, n, '\n');
    let k = chars_of(key);
    match find_value_range(&s, &lines, k.as_slice()) {
        Some((a, b)) => Some(string_of_range(&s, a, b)),
        None => None,
    }
}


/// Value range of the last line whose key is `key`, and whether some line has key
/// `flag_key` with value `flag_value`.
pub(crate) fn scan_block(
    s: &Vec<char>,
    lines: &Vec<(usize, usize)>,
    key: &[char],
    flag_key: &[char],
    flag_value: &[char],
) -> (r: (Option<(usize, usize)>, bool))
    requires
        ranges_within(lines@, 0, s@.len() as int),
    ensures
        match last_value(range_pieces(s@, lines@), key@) {
            Some(v) => r.0 matches Some(q) && q.0 <= q.1 <= s@.len() && s@.subrange(q.0 as int, q.1 as int) == v,
            None => r.0 is None,
        },
        r.1 == has_entry(range_pieces(s@, lines@), flag_key@, flag_value@),
{
    let ghost pieces = range_pieces(s@, lines@);
    let mut found: Option<(usize, usize)> = None;
    let mut flagged = false;
    let mut k: usize = 0;
    while k < lines.len()
        invariant
            ranges_within(lines@, 0, s@.len() as int),
            pieces == range_pieces(s@, lines@),
            k <= lines@.len(),
            match last_value(pieces.take(k as int), key@) {
                Some(v) => found matches Some(q) && q.0 <= q.1 <= s@.len() && s@.subrange(q.0 as int, q.1 as int) == v,
                None => found is None,
            },
            flagged == has_entry(pieces.take(k as int), flag_key@, flag_value@),
        decreases lines@.len() - k,
    {
        let ghost pre = pieces.take(k + 1);
        assert(pre.drop_last() =~= pieces.take(k as int));
        assert(pre.last() == pieces[k as int]);
        let (lo, hi) = lines[k];
        match line_entry_range(s, lo, hi) {
            Some((k0, k1, a0, a1)) => {
                let (t0, t1) = trim_range(s, a0, a1);
                let (v0, v1) = strip_quotes_range(s, t0, t1);
                if range_is(s, k0, k1, key) {
                    found = Some((v0, v1));
                }
                if range_is(s, k0, k1, flag_key) && range_is(s, v0, v1, flag_value) {
                    flagged = true;
                }
            },
            None => {},
        }
        k = k + 1;
    }
    assert(pieces.take(lines@.len() as int) =~= pieces);
    (found, flagged)
}

/// Some line has key `key` and value `value`.
pub open spec fn has_entry(lines: Seq<Seq<char>>, key: Seq<char>, value: Seq<char>) -> bool
    decreases lines.len(),
{
    if lines.len() == 0 {
        false
    } else {
        has_entry(lines.drop_last(), key, value) || match line_entry(lines.last()) {
            Some((k, a)) => k == key && entry_value(a) == value,
            None => false,
        }
    }
}

// ---------------------------------------------------------------------------
// Whitespace-separated tokens.
// ---------------------------------------------------------------------------

/// Length of the run of non-whitespace characters at the start of `s`.
pub open spec fn token_len(s: Seq<char>) -> nat
    decreases s.len(),
{
    if s.len() > 0 && !is_ws(s[0]) {
        1 + token_len(s.drop_first())
    } else {
        0
    }
}

/// A token is never longer than the text it starts.
pub proof fn lemma_token_len_bound(s: Seq<char>)
    ensures
        token_len(s) <= s.len(),
        s.len() > 0 && !is_ws(s[0]) ==> token_len(s) >= 1,
    decreases s.len(),
{
    if s.len() > 0 && !is_ws(s[0]) {
        lemma_token_len_bound(s.drop_first());
    }
}

/// The maximal runs of non-whitespace characters, in order (`str::split_whitespace`).
pub open spec fn ws_tokens(s: Seq<char>) -> Seq<Seq<char>>
    decreases s.len(),
{
    if s.len() == 0 {
        Seq::empty()
    } else if is_ws(s[0]) {
        ws_tokens(s.drop_first())
    } else {
        let k = token_len(s);
        proof {
            lemma_token_len_bound(s);
        }
        seq![s.take(k as int)] + ws_tokens(s.skip(k as int))
    }
}

/// Index ranges of the whitespace-separated tokens of `s[lo..hi]`.
fn token_ranges(s: &Vec<char>, lo: usize, hi: usize) -> (r: Vec<(usize, usize)>)
    requires
        lo <= hi <= s@.len(),
    ensures
        range_pieces(s@, r@) == ws_tokens(s@.subrange(lo as int, hi as int)),
        ranges_within(r@, lo as int, hi as int),
{
    let mut r: Vec<(usize, usize)> = Vec::new();
    let mut i = lo;
    assert(range_pieces(s@, r@) + ws_tokens(s@.subrange(i as int, hi as int)) =~= ws_tokens(s@.subrange(lo as int, hi as int)));
    while i < hi
        invariant
            lo <= i <= hi <= s@.len(),
            ranges_within(r@, lo as int, i as int),
            range_pieces(s@, r@) + ws_tokens(s@.subrange(i as int, hi as int)) == ws_tokens(
                s@.subrange(lo as int, hi as int),
            ),
        decreases hi - i,
    {
        let ghost t = s@.subrange(i as int, hi as int);
        assert(t[0] == s@[i as int]);
        if is_whitespace(s[i]) {
            assert(t.drop_first() =~= s@.subrange(i + 1, hi as int));
            i = i + 1;
        } else {
            let mut j = i + 1;
            assert(t.drop_first() =~= s@.subrange(i + 1, hi as int));
            while j < hi && !is_whitespace(s[j])
                invariant
                    i < j <= hi <= s@.len(),
                    t == s@.subrange(i as int, hi as int),
                    token_len(t) == (j - i) + token_len(s@.subrange(j as int, hi as int)),
                decreases hi - j,
            {
                let ghost u = s@.subrange(j as int, hi as int);
                assert(u[0] == s@[j as int]);
                assert(u.drop_first() =~= s@.subrange(j + 1, hi as int));
                j = j + 1;
            }
            proof {
                let u = s@.subrange(j as int, hi as int);
                if u.len() > 0 {
                    assert(u[0] == s@[j as int]);
                }
                assert(token_len(u) == 0);
                assert(t.take((j - i) as int) =~= s@.subrange(i as int, j as int));
                assert(t.skip((j - i) as int) =~= u);
            }
            let ghost before = range_pieces(s@, r@);
            r.push((i, j));
            assert(range_pieces(s@, r@) =~= before.push(s@.subrange(i as int, j as int)));
            assert(before + ws_tokens(t) =~= range_pieces(s@, r@) + ws_tokens(s@.subrange(j as int, hi as int)));
            i = j;
        }
    }
    assert(ws_tokens(s@.subrange(i as int, hi as int)) =~= Seq::<Seq<char>>::empty());
    assert(range_pieces(s@, r@) + Seq::<Seq<char>>::empty() =~= range_pieces(s@, r@));
    r
}

// ---------------------------------------------------------------------------
// Waypoints.
// ---------------------------------------------------------------------------

/// The text of one origin: three coordinates in `f32` syntax.
#[derive(Debug)]
pub struct OriginText {
    pub x: String,
    pub y: String,
    pub z: String,
}

impl View for OriginText {
    type V = (Seq<char>, Seq<char>, Seq<char>);

    open spec fn view(&self) -> (Seq<char>, Seq<char>, Seq<char>) {
        (self.x@, self.y@, self.z@)
    }
}

/// Classnames whose `origin` becomes a camera waypoint.
pub open spec fn is_waypoint_class(c: Seq<char>) -> bool {
    ||| c == seq!['i', 'n', 'f', 'o', '_', 'p', 'l', 'a', 'y', 'e', 'r', '_', 's', 't', 'a', 'r', 't']
    ||| c == seq![
        'i', 'n', 'f', 'o', '_', 'p', 'l', 'a', 'y', 'e', 'r', '_', 'd', 'e', 'a', 't', 'h', 'm', 'a', 't', 'c', 'h'
    ]
    ||| c == seq!['f', 'u', 'n', 'c', '_', 'b', 'o', 'm', 'b', 's', 'i', 't', 'e']
    ||| c == seq!['h', 'o', 's', 't', 'a', 'g', 'e', '_', 'e', 'n', 't', 'i', 't', 'y']
}

/// The `classname` key.
pub open spec fn classname_key() -> Seq<char> {
    seq!['c', 'l', 'a', 's', 's', 'n', 'a', 'm', 'e']
}

/// The `origin` key.
pub open spec fn origin_key() -> Seq<char> {
    seq!['o', 'r', 'i', 'g', 'i', 'n']
}

/// The first three tokens of an origin value, when they are all numbers (later
/// tokens are ignored).
pub open spec fn origin_tokens(value: Seq<char>) -> Option<(Seq<char>, Seq<char>, Seq<char>)> {
    let t = ws_tokens(value);
    if t.len() >= 3 && is_float_text(t[0]) && is_float_text(t[1]) && is_float_text(t[2]) {
        Some((t[0], t[1], t[2]))
    } else {
        None
    }
}

/// The waypoint of one brace-delimited block, if it has one.
pub open spec fn block_waypoint(block: Seq<char>) -> Option<(Seq<char>, Seq<char>, Seq<char>)> {
    let b = trimmed(block);
    if b.len() == 0 {
        None
    } else {
        let lines = block_lines(b);
        let class = match find_value(lines, classname_key()) {
            Some(c) => c,
            None => Seq::empty(),
        };
        if !is_waypoint_class(class) {
            None
        } else {
            match find_value(lines, origin_key()) {
                Some(o) => origin_tokens(o),
                None => None,
            }
        }
    }
}

/// Waypoints of the blocks (the lump split at `{`), in order.
pub open spec fn blocks_waypoints(blocks: Seq<Seq<char>>) -> Seq<(Seq<char>, Seq<char>, Seq<char>)>
    decreases blocks.len(),
{
    if blocks.len() == 0 {
        Seq::empty()
    } else {
        let r = blocks_waypoints(blocks.drop_last());
        match block_waypoint(blocks.last()) {
            Some(w) => r.push(w),
            None => r,
        }
    }
}

/// Waypoint origins of the whole entity lump.
pub open spec fn lump_waypoints(lump: Seq<char>) -> Seq<(Seq<char>, Seq<char>, Seq<char>)> {
    blocks_waypoints(split_on(lump, '{'))
}

/// A `String` holding `s[lo..hi]`.
pub(crate) fn string_of_range(s: &Vec<char>, lo: usize, hi: usize) -> (r: String)
    requires
        lo <= hi <= s@.len(),
    ensures
        r@ == s@.subrange(lo as int, hi as int),
{
    let piece = slice_of(s, lo, hi);
    string_from_chars(piece.as_slice())
}

fn number_token(s: &Vec<char>, lo: usize, hi: usize) -> (r: Option<String>)
    requires
        lo <= hi <= s@.len(),
    ensures
        match r {
            Some(t) => t@ == s@.subrange(lo as int, hi as int) && is_float_text(t@),
            None => !is_float_text(s@.subrange(lo as int, hi as int)),
        },
{
    let piece = string_of_range(s, lo, hi);
    let cs = chars_of(piece.as_str());
    if float_text(&cs) {
        Some(piece)
    } else {
        None
    }
}

fn origin_of(s: &Vec<char>, lo: usize, hi: usize) -> (r: Option<OriginText>)
    requires
        lo <= hi <= s@.len(),
    ensures
        match origin_tokens(s@.subrange(lo as int, hi as int)) {
            Some(w) => r matches Some(o) && o@ == w,
            None => r is None,
        },
{
    let toks = token_ranges(s, lo, hi);
    let ghost t = range_pieces(s@, toks@);
    if toks.len() < 3 {
        return None;
    }
    let (a0, b0) = toks[0];
    let (a1, b1) = toks[1];
    let (a2, b2) = toks[2];
    assert(t[0] == s@.subrange(a0 as int, b0 as int));
    assert(t[1] == s@.subrange(a1 as int, b1 as int));
    assert(t[2] == s@.subrange(a2 as int, b2 as int));
    let x = match number_token(s, a0, b0) {
        Some(x) => x,
        None => {
            return None;
        },
    };
    let y = match number_token(s, a1, b1) {
        Some(y) => y,
        None => {
            return None;
        },
    };
    let z = match number_token(s, a2, b2) {
        Some(z) => z,
        None => {
            return None;
        },
    };
    Some(OriginText { x, y, z })
}

fn block_waypoint_of(s: &Vec<char>, lo: usize, hi: usize) -> (r: Option<OriginText>)
    requires
        lo <= hi <= s@.len(),
    ensures
        match block_waypoint(s@.subrange(lo as int, hi as int)) {
            Some(w) => r matches Some(o) && o@ == w,
            None => r is None,
        },
{
    let (a, b) = trim_range(s, lo, hi);
    if a == b {
        assert(s@.subrange(a as int, b as int).len() == 0);
        return None;
    }
    let lines = split_ranges(s, a, b, '\n');
    let class = find_value_range(s, &lines, &['c', 'l', 'a', 's', 's', 'n', 'a', 'm', 'e']);
    let is_waypoint = match class {
        Some((c0, c1)) => {
            range_is(s, c0, c1, &['i', 'n', 'f', 'o', '_', 'p', 'l', 'a', 'y', 'e', 'r', '_', 's', 't', 'a', 'r', 't'])
                || range_is(
                s,
                c0,
                c1,
                &['i', 'n', 'f', 'o', '_', 'p', 'l', 'a', 'y', 'e', 'r', '_', 'd', 'e', 'a', 't', 'h', 'm', 'a', 't', 'c', 'h'],
            ) || range_is(s, c0, c1, &['f', 'u', 'n', 'c', '_', 'b', 'o', 'm', 'b', 's', 'i', 't', 'e'])
                || range_is(s, c0, c1, &['h', 'o', 's', 't', 'a', 'g', 'e', '_', 'e', 'n', 't', 'i', 't', 'y'])
        },
        None => false,
    };
    proof {
        let lv = block_lines(trimmed(s@.subrange(lo as int, hi as int)));
        assert(range_pieces(s@, lines@) == lv);
        let cv = match find_value(lv, classname_key()) {
            Some(c) => c,
            None => Seq::empty(),
        };
        match class {
            Some((c0, c1)) => {
                assert(s@.subrange(c0 as int, c1 as int) == cv);
            },
            None => {
                assert(cv.len() == 0);
            },
        }
        assert(is_waypoint == is_waypoint_class(cv));
    }
    if !is_waypoint {
        return None;
    }
    match find_value_range(s, &lines, &['o', 'r', 'i', 'g', 'i', 'n']) {
        Some((o0, o1)) => origin_of(s, o0, o1),
        None => None,
    }
}

/// Parse the entity lump and return the `origin` text of every entity whose
/// classname is `info_player_start`, `info_player_deathmatch`, `func_bombsite` or
/// `hostage_entity` and whose origin is three numbers, in lump order. Fewer than
/// four such origins cannot carry the Catmull-Rom spline: the count is returned
/// as the error.
pub fn extract_waypoints(entity_lump: &str) -> (r: Result<Vec<OriginText>, usize>)
    ensures
        ({
            let w = lump_waypoints(entity_lump@);
            if w.len() < 4 {
                r == Err::<Vec<OriginText>, usize>(w.len() as usize)
            } else {
                r matches Ok(v) && v@.map_values(|o: OriginText| o@) == w
            }
        }),
{
    let s = chars_of(entity_lump);
    let n = s.len();
    assert(s@.subrange(0, n as int) =~= s@);
    let blocks = split_ranges(&s, 0, n, '{');
    let ghost bs = range_pieces(s@, blocks@);
    let mut out: Vec<OriginText> = Vec::new();
    let mut k: usize = 0;
    while k < blocks.len()
        invariant
            n == s@.len(),
            s@ == entity_lump@,
            bs == range_pieces(s@, blocks@),
            bs == split_on(s@, '{'),
            ranges_within(blocks@, 0, n as int),
            k <= blocks@.len(),
            out@.map_values(|o: OriginText| o@) == blocks_waypoints(bs.take(k as int)),
        decreases blocks@.len() - k,
    {
        let ghost pre = bs.take(k + 1);
        assert(pre.drop_last() =~= bs.take(k as int));
        assert(pre.last() == bs[k as int]);
        let (lo, hi) = blocks[k];
        let ghost before = out@.map_values(|o: OriginText| o@);
        match block_waypoint_of(&s, lo, hi) {
            Some(w) => {
                let ghost wv = w@;
                out.push(w);
                assert(out@.map_values(|o: OriginText| o@) =~= before.push(wv));
            },
            None => {},
        }
        k = k + 1;
    }
    assert(bs.take(blocks@.len() as int) =~= bs);
    if out.len() < 4 {
        return Err(out.len());
    }
    Ok(out)
}

} // verus!
