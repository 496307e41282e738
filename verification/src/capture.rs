//! Pixel readback post-processing and JSON text helpers for frame capture.
use vstd::prelude::*;
use crate::text::{chars_of, string_from_chars};

verus! {

/// Byte at row `row`, column `col` of a padded readback buffer.
pub open spec fn padded_byte(padded: Seq<u8>, row: int, col: int, padded_bpr: int) -> u8 {
    padded[row * padded_bpr + col]
}

/// The tightly packed image that `strip_padding` produces: row `r` holds the first
/// `width * 4` bytes of padded row `r`.
pub open spec fn stripped(padded: Seq<u8>, width: nat, height: nat, padded_bpr: nat) -> Seq<u8> {
    Seq::new(
        width * 4 * height,
        |i: int| padded[(i / (width * 4) as int) * padded_bpr + i % (width * 4) as int],
    )
}

/// Strip the per-row alignment padding from raw texture readback data, returning
/// tightly packed RGBA bytes (`width * 4 * height` of them).
pub fn strip_padding(padded: &[u8], width: u32, height: u32, padded_bpr: u32) -> (out: Vec<u8>)
    requires
        width * 4 <= u32::MAX,
        height == 0 || (height - 1) * padded_bpr + width * 4 <= padded@.len(),
        width * 4 * height <= usize::MAX,
    ensures
        out@ == stripped(padded@, width as nat, height as nat, padded_bpr as nat),
{
    let unpadded_bpr: usize = (width * 4) as usize;
    let pbr: usize = padded_bpr as usize;
    let h: usize = height as usize;
    let plen: usize = padded.len();
    let mut out: Vec<u8> = Vec::new();
    let mut row: usize = 0;
    while row < h
        invariant
            unpadded_bpr == width * 4,
            pbr == padded_bpr,
            h == height,
            row <= h,
            plen == padded@.len(),
            h == 0 || (h - 1) * pbr + unpadded_bpr <= padded@.len(),
            unpadded_bpr * h <= usize::MAX,
            out@.len() == row * unpadded_bpr,
            forall|i: int|
                0 <= i < out@.len() ==> #[trigger] out@[i] == padded@[(i / unpadded_bpr as int) * pbr + i % unpadded_bpr as int],
        decreases h - row,
    {
        proof {
            assert(row * pbr <= (h - 1) * pbr) by (nonlinear_arith)
                requires row < h;
            assert(row * unpadded_bpr + unpadded_bpr <= h * unpadded_bpr) by (nonlinear_arith)
                requires row < h;
        }
        let src_start: usize = row * pbr;
        let mut col: usize = 0;
        while col < unpadded_bpr
            invariant
                row < h,
                src_start == row * pbr,
                src_start + unpadded_bpr <= plen,
                plen == padded@.len(),
                row * unpadded_bpr + unpadded_bpr <= usize::MAX,
                col <= unpadded_bpr,
                out@.len() == row * unpadded_bpr + col,
                forall|i: int|
                    0 <= i < out@.len() ==> #[trigger] out@[i] == padded@[(i / unpadded_bpr as int) * pbr + i % unpadded_bpr as int],
            decreases unpadded_bpr - col,
        {
            let b = padded[src_start + col];
            let ghost k: int = out@.len() as int;
            proof {
                assert(k / unpadded_bpr as int == row as int && k % unpadded_bpr as int == col as int) by (nonlinear_arith)
                    requires k == row * unpadded_bpr + col, col < unpadded_bpr, 0 <= row;
            }
            out.push(b);
            col = col + 1;
        }
        proof {
            assert(row * unpadded_bpr + unpadded_bpr == (row + 1) * unpadded_bpr) by (nonlinear_arith);
        }
        row = row + 1;
    }
    proof {
        assert(out@.len() == width * 4 * height) by (nonlinear_arith)
            requires out@.len() == row * unpadded_bpr, row == h, unpadded_bpr == width * 4, h == height;
    }
    assert(out@ =~= stripped(padded@, width as nat, height as nat, padded_bpr as nat));
    out
}

/// With no padding (`padded_bpr == width * 4`) stripping gives back the
/// buffer unchanged.
pub proof fn law_strip_without_padding(padded: Seq<u8>, width: nat, height: nat)
    requires
        width > 0,
        padded.len() == width * 4 * height,
    ensures
        stripped(padded, width, height, width * 4) == padded,
{
    let w4 = (width * 4) as int;
    assert forall|i: int| 0 <= i < padded.len() implies #[trigger] stripped(padded, width, height, width * 4)[i] == padded[i] by {
        vstd::arithmetic::div_mod::lemma_fundamental_div_mod(i, w4);
        assert((i / w4) * w4 == w4 * (i / w4)) by (nonlinear_arith);
    }
    assert(stripped(padded, width, height, width * 4) =~= padded);
}

/// Bytes per row of a readback buffer: `width * 4` rounded up to the 256-byte
/// row alignment that the GPU copy requires.
pub fn padded_bytes_per_row(width: u32) -> (bpr: u32)
    requires
        width * 4 + 255 <= u32::MAX,
    ensures
        bpr == ((width * 4 + 255) / 256) * 256,
        bpr % 256 == 0,
        width * 4 <= bpr < width * 4 + 256,
{
    let unpadded = width * 4;
    let t = unpadded + 255;
    let bpr = t & !255u32;
    assert(bpr == (t / 256) * 256) by (bit_vector)
        requires
            bpr == t & !255u32;
    bpr
}

/// Text escaped for a JSON string literal: each backslash and each double
/// quote gets a backslash in front.
pub open spec fn escape_char(c: char) -> Seq<char> {
    if c == '\\' {
        seq!['\\', '\\']
    } else if c == '"' {
        seq!['\\', '"']
    } else {
        seq![c]
    }
}

/// `s` with every character escaped by [`escape_char`].
pub open spec fn json_escaped(s: Seq<char>) -> Seq<char>
    decreases s.len(),
{
    if s.len() == 0 {
        Seq::empty()
    } else {
        json_escaped(s.drop_last()) + escape_char(s.last())
    }
}

/// Escape backslashes and double quotes for a JSON string literal.
pub fn json_escape(s: &str) -> (r: String)
    ensures
        r@ == json_escaped(s@),
{
    let cs = chars_of(s);
    let mut out: Vec<char> = Vec::new();
    let mut k: usize = 0;
    while k < cs.len()
        invariant
            k <= cs@.len(),
            out@ == json_escaped(cs@.take(k as int)),
        decreases cs@.len() - k,
    {
        let c = cs[k];
        if c == '\\' {
            out.push('\\');
            out.push('\\');
        } else if c == '"' {
            out.push('\\');
            out.push('"');
        } else {
            out.push(c);
        }
        assert(cs@.take(k + 1).drop_last() =~= cs@.take(k as int));
        k = k + 1;
        assert(out@ =~= json_escaped(cs@.take(k as int)));
    }
    assert(cs@.take(cs@.len() as int) =~= cs@);
    string_from_chars(out.as_slice())
}

/// `{"error": "<msg>"}` with the message escaped.
pub open spec fn error_json(msg: Seq<char>) -> Seq<char> {
    seq!['{', '"', 'e', 'r', 'r', 'o', 'r', '"', ':', ' ', '"'] + json_escaped(msg) + seq!['"', '}']
}

/// The JSON line reporting a fatal error.
pub fn error_json_line(msg: &str) -> (line: String)
    ensures
        line@ == error_json(msg@),
{
    let escaped = json_escape(msg);
    let mut out: Vec<char> = Vec::new();
    out.push('{');
    out.push('"');
    out.push('e');
    out.push('r');
    out.push('r');
    out.push('o');
    out.push('r');
    out.push('"');
    out.push(':');
    out.push(' ');
    out.push('"');
    let ecs = chars_of(escaped.as_str());
    let ghost head = out@;
    let mut k: usize = 0;
    while k < ecs.len()
        invariant
            k <= ecs@.len(),
            out@ == head + ecs@.take(k as int),
        decreases ecs@.len() - k,
    {
        out.push(ecs[k]);
        k = k + 1;
        assert(out@ =~= head + ecs@.take(k as int));
    }
    out.push('"');
    out.push('}');
    assert(ecs@.take(ecs@.len() as int) =~= ecs@);
    assert(out@ =~= error_json(msg@));
    string_from_chars(out.as_slice())
}

/// The character of a decimal digit.
pub open spec fn digit_char(d: int) -> char {
    seq!['0', '1', '2', '3', '4', '5', '6', '7', '8', '9'][d]
}

/// Decimal digits of `n`, most significant first, without leading zeros.
pub open spec fn decimal(n: nat) -> Seq<char>
    decreases n,
{
    if n < 10 {
        seq![digit_char(n as int)]
    } else {
        decimal(n / 10) + seq![digit_char((n % 10) as int)]
    }
}

/// `d` padded on the left with zeros to at least `w` characters.
pub open spec fn zero_padded(d: Seq<char>, w: nat) -> Seq<char> {
    if d.len() < w {
        Seq::new((w - d.len()) as nat, |i: int| '0') + d
    } else {
        d
    }
}

/// `frame_NNNN.png`: the frame number in decimal, at least four digits.
pub open spec fn frame_name(n: nat) -> Seq<char> {
    seq!['f', 'r', 'a', 'm', 'e', '_'] + zero_padded(decimal(n), 4) + seq!['.', 'p', 'n', 'g']
}

proof fn lemma_decimal_len(n: nat)
    ensures
        decimal(n).len() >= 1,
        n < 10 ==> decimal(n).len() == 1,
        n < 100 ==> decimal(n).len() <= 2,
        n < 1000 ==> decimal(n).len() <= 3,
        n < 10000 ==> decimal(n).len() <= 4,
    decreases n,
{
    if n >= 10 {
        lemma_decimal_len(n / 10);
    }
}

pub(crate) fn decimal_chars(n: u64) -> (out: Vec<char>)
    ensures
        out@ == decimal(n as nat),
    decreases n,
{
    let table = ['0', '1', '2', '3', '4', '5', '6', '7', '8', '9'];
    assert(table@ == seq!['0', '1', '2', '3', '4', '5', '6', '7', '8', '9']);
    if n < 10 {
        let mut v: Vec<char> = Vec::new();
        v.push(table[n as usize]);
        assert(v@ =~= decimal(n as nat));
        v
    } else {
        let mut v = decimal_chars(n / 10);
        v.push(table[(n % 10) as usize]);
        assert(v@ =~= decimal(n as nat));
        v
    }
}

/// The file name of a captured frame, `frame_{n:04}.png`.
pub fn frame_file_name(n: u32) -> (name: String)
    ensures
        name@ == frame_name(n as nat),
{
    let digits = decimal_chars(n as u64);
    proof {
        lemma_decimal_len(n as nat);
    }
    let mut out: Vec<char> = Vec::new();
    out.push('f');
    out.push('r');
    out.push('a');
    out.push('m');
    out.push('e');
    out.push('_');
    let ghost head = out@;
    let mut pad: usize = 0;
    let want: usize = if digits.len() < 4 { 4 - digits.len() } else { 0 };
    while pad < want
        invariant
            want <= 4,
            pad <= want,
            out@ == head + Seq::new(pad as nat, |i: int| '0'),
        decreases want - pad,
    {
        out.push('0');
        pad = pad + 1;
        assert(out@ =~= head + Seq::new(pad as nat, |i: int| '0'));
    }
    let ghost mid = out@;
    let mut k: usize = 0;
    while k < digits.len()
        invariant
            k <= digits@.len(),
            out@ == mid + digits@.take(k as int),
        decreases digits@.len() - k,
    {
        out.push(digits[k]);
        k = k + 1;
        assert(out@ =~= mid + digits@.take(k as int));
    }
    out.push('.');
    out.push('p');
    out.push('n');
    out.push('g');
    assert(digits@.take(digits@.len() as int) =~= digits@);
    assert(out@ =~= frame_name(n as nat));
    string_from_chars(out.as_slice())
}

/// The value of a decimal digit character.
pub open spec fn digit_value(c: char) -> int {
    if '0' <= c && c <= '9' {
        c as int - '0' as int
    } else {
        0
    }
}

/// The number a string of decimal digits spells.
pub open spec fn digits_value(s: Seq<char>) -> int
    decreases s.len(),
{
    if s.len() == 0 {
        0
    } else {
        digits_value(s.drop_last()) * 10 + digit_value(s.last())
    }
}

proof fn lemma_digit_char_value(d: int)
    requires
        0 <= d < 10,
    ensures
        digit_value(digit_char(d)) == d,
{
    let t = seq!['0', '1', '2', '3', '4', '5', '6', '7', '8', '9'];
    assert(digit_char(d) == t[d]);
    if d == 0 {
    } else if d == 1 {
    } else if d == 2 {
    } else if d == 3 {
    } else if d == 4 {
    } else if d == 5 {
    } else if d == 6 {
    } else if d == 7 {
    } else if d == 8 {
    } else {
    }
}

proof fn lemma_decimal_value(n: nat)
    ensures
        digits_value(decimal(n)) == n,
    decreases n,
{
    let d = decimal(n);
    if n < 10 {
        lemma_digit_char_value(n as int);
        assert(d == seq![digit_char(n as int)]);
        assert(d.drop_last() =~= Seq::<char>::empty());
        assert(d.last() == digit_char(n as int));
        assert(digits_value(d) == digits_value(d.drop_last()) * 10 + digit_value(d.last()));
    } else {
        lemma_decimal_value(n / 10);
        lemma_digit_char_value((n % 10) as int);
        assert(d == decimal(n / 10) + seq![digit_char((n % 10) as int)]);
        assert(d.drop_last() =~= decimal(n / 10));
        assert(d.last() == digit_char((n % 10) as int));
        assert(digits_value(d) == digits_value(d.drop_last()) * 10 + digit_value(d.last()));
        assert(n == (n / 10) * 10 + n % 10);
    }
}

proof fn lemma_leading_zeros(k: nat, d: Seq<char>)
    ensures
        digits_value(Seq::new(k, |i: int| '0') + d) == digits_value(d),
    decreases d.len(), k,
{
    let z = Seq::new(k, |i: int| '0');
    if d.len() == 0 {
        assert(z + d =~= z);
        if k > 0 {
            lemma_leading_zeros((k - 1) as nat, d);
            assert(z.drop_last() =~= Seq::new((k - 1) as nat, |i: int| '0'));
            assert(Seq::new((k - 1) as nat, |i: int| '0') + d =~= Seq::new((k - 1) as nat, |i: int| '0'));
        }
    } else {
        lemma_leading_zeros(k, d.drop_last());
        assert((z + d).drop_last() =~= z + d.drop_last());
    }
}

/// Different frames get different file names, so no capture overwrites
/// another.
pub proof fn law_frame_names_distinct(n: nat, m: nat)
    requires
        n != m,
    ensures
        frame_name(n) != frame_name(m),
{
    let a = zero_padded(decimal(n), 4);
    let b = zero_padded(decimal(m), 4);
    lemma_decimal_value(n);
    lemma_decimal_value(m);
    if decimal(n).len() < 4 {
        lemma_leading_zeros((4 - decimal(n).len()) as nat, decimal(n));
    }
    if decimal(m).len() < 4 {
        lemma_leading_zeros((4 - decimal(m).len()) as nat, decimal(m));
    }
    assert(digits_value(a) == n);
    assert(digits_value(b) == m);
    if frame_name(n) == frame_name(m) {
        let fa = frame_name(n);
        assert(fa.subrange(6, fa.len() - 4) =~= a);
        assert(frame_name(m).subrange(6, frame_name(m).len() - 4) =~= b);
        assert(a == b);
    }
}

/// Why the capture's frame parameters were refused.
#[derive(Clone, Copy, Debug, PartialEq, Eq, Structural)]
pub enum FrameParamError {
    /// `--frame-count` was zero.
    ZeroFrameCount,
    /// `--frame-step` was zero.
    ZeroFrameStep,
}

/// The text reported for a frame parameter error.
pub open spec fn frame_param_message(e: FrameParamError) -> Seq<char> {
    match e {
        FrameParamError::ZeroFrameCount => seq![
            'f', 'r', 'a', 'm', 'e', '-', 'c', 'o', 'u', 'n', 't', ' ', 'm', 'u', 's', 't', ' ', 'b', 'e', ' ',
            'a', 't', ' ', 'l', 'e', 'a', 's', 't', ' ', '1',
        ],
        FrameParamError::ZeroFrameStep => seq![
            'f', 'r', 'a', 'm', 'e', '-', 's', 't', 'e', 'p', ' ', 'm', 'u', 's', 't', ' ', 'b', 'e', ' ', 'a',
            't', ' ', 'l', 'e', 'a', 's', 't', ' ', '1',
        ],
    }
}

impl FrameParamError {
    /// The message reported for this error.
    pub fn message(&self) -> (m: String)
        ensures
            m@ == frame_param_message(*self),
    {
        match self {
            FrameParamError::ZeroFrameCount => string_from_chars(
                &[
                    'f', 'r', 'a', 'm', 'e', '-', 'c', 'o', 'u', 'n', 't', ' ', 'm', 'u', 's', 't', ' ', 'b', 'e',
                    ' ', 'a', 't', ' ', 'l', 'e', 'a', 's', 't', ' ', '1',
                ],
            ),
            FrameParamError::ZeroFrameStep => string_from_chars(
                &[
                    'f', 'r', 'a', 'm', 'e', '-', 's', 't', 'e', 'p', ' ', 'm', 'u', 's', 't', ' ', 'b', 'e', ' ',
                    'a', 't', ' ', 'l', 'e', 'a', 's', 't', ' ', '1',
                ],
            ),
        }
    }
}

/// Check the frame parameters of a capture run: at least one frame, and a
/// step of at least one tick between frames. The count is checked first.
pub fn check_frame_params(frame_count: u32, frame_step: u32) -> (r: Result<(), FrameParamError>)
    ensures
        frame_count == 0 ==> r == Err::<(), FrameParamError>(FrameParamError::ZeroFrameCount),
        frame_count > 0 && frame_step == 0 ==> r == Err::<(), FrameParamError>(FrameParamError::ZeroFrameStep),
        frame_count > 0 && frame_step > 0 ==> r is Ok,
{
    if frame_count == 0 {
        Err(FrameParamError::ZeroFrameCount)
    } else if frame_step == 0 {
        Err(FrameParamError::ZeroFrameStep)
    } else {
        Ok(())
    }
}

} // verus!
