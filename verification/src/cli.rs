//! Command-line flags of the headless capture mode.
//!
//! Coordinates given with `--camera-pos` and `--camera-angle` are checked against
//! the `f32` number syntax and kept as text; converting them to floats is left to
//! the caller.
use vstd::prelude::*;
use crate::capture::{decimal, decimal_chars};
use crate::maplist::push_chars;
use crate::text::{
    chars_of, find_char, float_text, is_float_text, parse_u32, parse_u32_spec, range_pieces, ranges_within,
    slice_of, split_on, split_ranges, string_from_chars, trim_range, trimmed,
};

verus! {

/// A flag that takes a value.
#[derive(Debug, Clone, Copy, PartialEq, Eq, Structural)]
pub enum Flag {
    Output,
    CameraPos,
    CameraAngle,
    FrameCount,
    FrameStep,
    Resolution,
    MapName,
}

/// Options of the headless capture mode.
#[derive(Debug)]
pub struct HeadlessArgs {
    pub walkthrough: bool,
    pub output_dir: String,
    /// Three coordinates, each in `f32` syntax, surrounding whitespace removed.
    pub camera_pos: Option<Vec<String>>,
    /// Yaw and pitch in degrees, each in `f32` syntax, surrounding whitespace removed.
    pub camera_angle_deg: Option<Vec<String>>,
    pub frame_count: u32,
    pub frame_step: u32,
    pub width: u32,
    pub height: u32,
    pub map: Option<String>,
}

/// Why the flags were refused.
#[derive(Debug)]
pub enum ArgError {
    /// The flag was the last argument.
    MissingValue(Flag),
    /// A comma-separated piece (as written) is not a number.
    InvalidFloat { flag: Flag, part: String },
    /// The value has the wrong number of comma-separated pieces.
    WrongCount { flag: Flag, count: usize },
    /// `--frame-count` or `--frame-step` is not a `u32`.
    InvalidNumber(Flag),
    /// `--resolution` has no `x`.
    ResolutionFormat,
    InvalidWidth,
    InvalidHeight,
    UnknownFlag(String),
}

/// Mathematical view of [`HeadlessArgs`].
pub struct HeadlessArgsSpec {
    pub walkthrough: bool,
    pub output_dir: Seq<char>,
    pub camera_pos: Option<Seq<Seq<char>>>,
    pub camera_angle_deg: Option<Seq<Seq<char>>>,
    pub frame_count: u32,
    pub frame_step: u32,
    pub width: u32,
    pub height: u32,
    pub map: Option<Seq<char>>,
}

/// Mathematical view of [`ArgError`].
pub enum ArgErrorSpec {
    MissingValue(Flag),
    InvalidFloat { flag: Flag, part: Seq<char> },
    WrongCount { flag: Flag, count: usize },
    InvalidNumber(Flag),
    ResolutionFormat,
    InvalidWidth,
    InvalidHeight,
    UnknownFlag(Seq<char>),
}

/// The texts of a sequence of strings.
pub open spec fn strings_view(v: Seq<String>) -> Seq<Seq<char>> {
    v.map_values(|s: String| s@)
}

/// The texts of an optional list of strings.
pub open spec fn opt_strings_view(v: Option<Vec<String>>) -> Option<Seq<Seq<char>>> {
    match v {
        Some(p) => Some(strings_view(p@)),
        None => None,
    }
}

/// The text of an optional string.
pub open spec fn opt_string_view(v: Option<String>) -> Option<Seq<char>> {
    match v {
        Some(s) => Some(s@),
        None => None,
    }
}

impl View for HeadlessArgs {
    type V = HeadlessArgsSpec;

    open spec fn view(&self) -> HeadlessArgsSpec {
        HeadlessArgsSpec {
            walkthrough: self.walkthrough,
            output_dir: self.output_dir@,
            camera_pos: opt_strings_view(self.camera_pos),
            camera_angle_deg: opt_strings_view(self.camera_angle_deg),
            frame_count: self.frame_count,
            frame_step: self.frame_step,
            width: self.width,
            height: self.height,
            map: opt_string_view(self.map),
        }
    }
}

impl View for ArgError {
    type V = ArgErrorSpec;

    open spec fn view(&self) -> ArgErrorSpec {
        match self {
            ArgError::MissingValue(f) => ArgErrorSpec::MissingValue(*f),
            ArgError::InvalidFloat { flag, part } => ArgErrorSpec::InvalidFloat { flag: *flag, part: part@ },
            ArgError::WrongCount { flag, count } => ArgErrorSpec::WrongCount { flag: *flag, count: *count },
            ArgError::InvalidNumber(f) => ArgErrorSpec::InvalidNumber(*f),
            ArgError::ResolutionFormat => ArgErrorSpec::ResolutionFormat,
            ArgError::InvalidWidth => ArgErrorSpec::InvalidWidth,
            ArgError::InvalidHeight => ArgErrorSpec::InvalidHeight,
            ArgError::UnknownFlag(s) => ArgErrorSpec::UnknownFlag(s@),
        }
    }
}

/// Defaults: single frame, 60-frame step, 1920x1080, output to `./captures/`.
pub open spec fn default_args_spec() -> HeadlessArgsSpec {
    HeadlessArgsSpec {
        walkthrough: false,
        output_dir: seq!['.', '/', 'c', 'a', 'p', 't', 'u', 'r', 'e', 's', '/'],
        camera_pos: None,
        camera_angle_deg: None,
        frame_count: 1,
        frame_step: 60,
        width: 1920,
        height: 1080,
        map: None,
    }
}

/// The spelling of the `--walkthrough` switch.
pub open spec fn walkthrough_text() -> Seq<char> {
    seq!['-', '-', 'w', 'a', 'l', 'k', 't', 'h', 'r', 'o', 'u', 'g', 'h']
}

/// The spelling of a flag that takes a value.
pub open spec fn flag_text(f: Flag) -> Seq<char> {
    match f {
        Flag::Output => seq!['-', '-', 'o', 'u', 't', 'p', 'u', 't'],
        Flag::CameraPos => seq!['-', '-', 'c', 'a', 'm', 'e', 'r', 'a', '-', 'p', 'o', 's'],
        Flag::CameraAngle => seq!['-', '-', 'c', 'a', 'm', 'e', 'r', 'a', '-', 'a', 'n', 'g', 'l', 'e'],
        Flag::FrameCount => seq!['-', '-', 'f', 'r', 'a', 'm', 'e', '-', 'c', 'o', 'u', 'n', 't'],
        Flag::FrameStep => seq!['-', '-', 'f', 'r', 'a', 'm', 'e', '-', 's', 't', 'e', 'p'],
        Flag::Resolution => seq!['-', '-', 'r', 'e', 's', 'o', 'l', 'u', 't', 'i', 'o', 'n'],
        Flag::MapName => seq!['-', '-', 'm', 'a', 'p'],
    }
}

/// First piece (from index `k` on) whose trimmed text is not a number.
pub open spec fn first_bad_float(parts: Seq<Seq<char>>, k: int) -> Option<int>
    decreases parts.len() - k,
{
    if k < 0 || k >= parts.len() {
        None
    } else if !is_float_text(trimmed(parts[k])) {
        Some(k)
    } else {
        first_bad_float(parts, k + 1)
    }
}

/// A comma-separated list of `expected` numbers: every piece is checked first, in
/// order, then the count.
pub open spec fn spec_coords(v: Seq<char>, flag: Flag, expected: nat) -> Result<Seq<Seq<char>>, ArgErrorSpec> {
    let parts = split_on(v, ',');
    match first_bad_float(parts, 0) {
        Some(k) => Err(ArgErrorSpec::InvalidFloat { flag, part: parts[k] }),
        None => if parts.len() != expected {
            Err(ArgErrorSpec::WrongCount { flag, count: parts.len() as usize })
        } else {
            Ok(parts.map_values(|p: Seq<char>| trimmed(p)))
        },
    }
}

/// `WxH`: split at the first `x`; both sides are `u32`s (not trimmed).
pub open spec fn spec_resolution(v: Seq<char>) -> Result<(u32, u32), ArgErrorSpec> {
    if forall|m: int| 0 <= m < v.len() ==> v[m] != 'x' {
        Err(ArgErrorSpec::ResolutionFormat)
    } else {
        let i = choose|i: int| 0 <= i < v.len() && v[i] == 'x' && forall|m: int| 0 <= m < i ==> v[m] != 'x';
        match parse_u32_spec(v.take(i)) {
            None => Err(ArgErrorSpec::InvalidWidth),
            Some(w) => match parse_u32_spec(v.skip(i + 1)) {
                None => Err(ArgErrorSpec::InvalidHeight),
                Some(h) => Ok((w, h)),
            },
        }
    }
}

/// Flags from position `i` on, applied left to right to `acc`; a later flag
/// overrides an earlier one, and the first problem ends the scan.
pub open spec fn spec_parse_args(args: Seq<Seq<char>>, i: int, acc: HeadlessArgsSpec) -> Result<HeadlessArgsSpec, ArgErrorSpec>
    decreases args.len() - i,
{
    if i < 0 || i >= args.len() {
        Ok(acc)
    } else {
        let a = args[i];
        let has_value = i + 1 < args.len();
        if a == walkthrough_text() {
            spec_parse_args(args, i + 1, HeadlessArgsSpec { walkthrough: true, ..acc })
        } else if a == flag_text(Flag::Output) {
            if !has_value {
                Err(ArgErrorSpec::MissingValue(Flag::Output))
            } else {
                spec_parse_args(args, i + 2, HeadlessArgsSpec { output_dir: args[i + 1], ..acc })
            }
        } else if a == flag_text(Flag::CameraPos) {
            if !has_value {
                Err(ArgErrorSpec::MissingValue(Flag::CameraPos))
            } else {
                match spec_coords(args[i + 1], Flag::CameraPos, 3) {
                    Err(e) => Err(e),
                    Ok(p) => spec_parse_args(args, i + 2, HeadlessArgsSpec { camera_pos: Some(p), ..acc }),
                }
            }
        } else if a == flag_text(Flag::CameraAngle) {
            if !has_value {
                Err(ArgErrorSpec::MissingValue(Flag::CameraAngle))
            } else {
                match spec_coords(args[i + 1], Flag::CameraAngle, 2) {
                    Err(e) => Err(e),
                    Ok(p) => spec_parse_args(args, i + 2, HeadlessArgsSpec { camera_angle_deg: Some(p), ..acc }),
                }
            }
        } else if a == flag_text(Flag::FrameCount) {
            if !has_value {
                Err(ArgErrorSpec::MissingValue(Flag::FrameCount))
            } else {
                match parse_u32_spec(args[i + 1]) {
                    None => Err(ArgErrorSpec::InvalidNumber(Flag::FrameCount)),
                    Some(n) => spec_parse_args(args, i + 2, HeadlessArgsSpec { frame_count: n, ..acc }),
                }
            }
        } else if a == flag_text(Flag::FrameStep) {
            if !has_value {
                Err(ArgErrorSpec::MissingValue(Flag::FrameStep))
            } else {
                match parse_u32_spec(args[i + 1]) {
                    None => Err(ArgErrorSpec::InvalidNumber(Flag::FrameStep)),
                    Some(n) => spec_parse_args(args, i + 2, HeadlessArgsSpec { frame_step: n, ..acc }),
                }
            }
        } else if a == flag_text(Flag::Resolution) {
            if !has_value {
                Err(ArgErrorSpec::MissingValue(Flag::Resolution))
            } else {
                match spec_resolution(args[i + 1]) {
                    Err(e) => Err(e),
                    Ok((w, h)) => spec_parse_args(args, i + 2, HeadlessArgsSpec { width: w, height: h, ..acc }),
                }
            }
        } else if a == flag_text(Flag::MapName) {
            if !has_value {
                Err(ArgErrorSpec::MissingValue(Flag::MapName))
            } else {
                spec_parse_args(args, i + 2, HeadlessArgsSpec { map: Some(args[i + 1]), ..acc })
            }
        } else {
            Err(ArgErrorSpec::UnknownFlag(a))
        }
    }
}

fn same_chars(a: &Vec<char>, w: &[char]) -> (b: bool)
    ensures
        b == (a@ == w@),
{
    if a.len() != w.len() {
        return false;
    }
    let mut k: usize = 0;
    while k < w.len()
        invariant
            a@.len() == w@.len(),
            k <= w@.len(),
            forall|m: int| 0 <= m < k ==> a@[m] == w@[m],
        decreases w@.len() - k,
    {
        if a[k] != w[k] {
            return false;
        }
        k = k + 1;
    }
    assert(a@ =~= w@);
    true
}

fn flag_matches(a: &Vec<char>, f: Flag) -> (b: bool)
    ensures
        b == (a@ == flag_text(f)),
{
    match f {
        Flag::Output => same_chars(a, &['-', '-', 'o', 'u', 't', 'p', 'u', 't']),
        Flag::CameraPos => same_chars(a, &['-', '-', 'c', 'a', 'm', 'e', 'r', 'a', '-', 'p', 'o', 's']),
        Flag::CameraAngle => same_chars(
            a,
            &['-', '-', 'c', 'a', 'm', 'e', 'r', 'a', '-', 'a', 'n', 'g', 'l', 'e'],
        ),
        Flag::FrameCount => same_chars(a, &['-', '-', 'f', 'r', 'a', 'm', 'e', '-', 'c', 'o', 'u', 'n', 't']),
        Flag::FrameStep => same_chars(a, &['-', '-', 'f', 'r', 'a', 'm', 'e', '-', 's', 't', 'e', 'p']),
        Flag::Resolution => same_chars(a, &['-', '-', 'r', 'e', 's', 'o', 'l', 'u', 't', 'i', 'o', 'n']),
        Flag::MapName => same_chars(a, &['-', '-', 'm', 'a', 'p']),
    }
}

/// Check and split a comma-separated coordinate list of `expected` numbers.
pub fn parse_coords(value: &String, flag: Flag, expected: usize) -> (r: Result<Vec<String>, ArgError>)
    ensures
        match spec_coords(value@, flag, expected as nat) {
            Ok(p) => r matches Ok(v) && strings_view(v@) == p,
            Err(e) => r matches Err(e2) && e2@ == e,
        },
{
    let cs = chars_of(value.as_str());
    let n = cs.len();
    assert(cs@.subrange(0, n as int) =~= cs@);
    let ranges = split_ranges(&cs, 0, n, ',');
    let ghost parts = split_on(cs@, ',');
    let mut out: Vec<String> = Vec::new();
    let mut k: usize = 0;
    while k < ranges.len()
        invariant
            n == cs@.len(),
            cs@ == value@,
            parts == split_on(cs@, ','),
            range_pieces(cs@, ranges@) == parts,
            ranges_within(ranges@, 0, n as int),
            k <= ranges@.len(),
            first_bad_float(parts, 0) == first_bad_float(parts, k as int),
            strings_view(out@) == parts.take(k as int).map_values(|p: Seq<char>| trimmed(p)),
        decreases ranges@.len() - k,
    {
        let (lo, hi) = ranges[k];
        assert(parts[k as int] == cs@.subrange(lo as int, hi as int));
        let (a, b) = trim_range(&cs, lo, hi);
        let tv_chars = slice_of(&cs, a, b);
        let ghost tv = tv_chars@;
        if !float_text(&tv_chars) {
            let raw_chars = slice_of(&cs, lo, hi);
            let raw = string_from_chars(raw_chars.as_slice());
            return Err(ArgError::InvalidFloat { flag, part: raw });
        }
        let piece = string_from_chars(tv_chars.as_slice());
        let ghost before = strings_view(out@);
        out.push(piece);
        assert(strings_view(out@) =~= before.push(tv));
        assert(parts.take(k + 1).map_values(|p: Seq<char>| trimmed(p)) =~= parts.take(k as int).map_values(
            |p: Seq<char>| trimmed(p),
        ).push(trimmed(parts[k as int])));
        k = k + 1;
    }
    assert(parts.take(parts.len() as int) =~= parts);
    if ranges.len() != expected {
        return Err(ArgError::WrongCount { flag, count: ranges.len() });
    }
    Ok(out)
}

/// `WxH` as two `u32`s.
pub fn parse_resolution(value: &String) -> (r: Result<(u32, u32), ArgError>)
    ensures
        match spec_resolution(value@) {
            Ok(wh) => r matches Ok(v) && v == wh,
            Err(e) => r matches Err(e2) && e2@ == e,
        },
{
    let cs = chars_of(value.as_str());
    let n = cs.len();
    match find_char(&cs, 0, n, 'x') {
        None => Err(ArgError::ResolutionFormat),
        Some(i) => {
            let ghost v = cs@;
            assert(0 <= i < v.len() && v[i as int] == 'x' && forall|m: int| 0 <= m < i ==> v[m] != 'x');
            let ghost j = choose|j: int| 0 <= j < v.len() && v[j] == 'x' && forall|m: int| 0 <= m < j ==> v[m] != 'x';
            assert(j == i) by {
                if j < i {
                    assert(v[j] != 'x');
                } else if i < j {
                    assert(v[i as int] != 'x');
                }
            }
            assert(cs@.subrange(0, i as int) =~= v.take(i as int));
            assert(cs@.subrange(i + 1, n as int) =~= v.skip(i + 1));
            let w = match parse_u32(&cs, 0, i) {
                Some(w) => w,
                None => {
                    return Err(ArgError::InvalidWidth);
                },
            };
            let h = match parse_u32(&cs, i + 1, n) {
                Some(h) => h,
                None => {
                    return Err(ArgError::InvalidHeight);
                },
            };
            Ok((w, h))
        },
    }
}

/// Parse the headless-mode flags (`--walkthrough`, `--output DIR`,
/// `--camera-pos X,Y,Z`, `--camera-angle YAW,PITCH`, `--frame-count N`,
/// `--frame-step N`, `--resolution WxH`, `--map NAME`). Range checks on the
/// frame count and step are left to the capture run.
pub fn parse_headless_args(args: &Vec<String>) -> (r: Result<HeadlessArgs, ArgError>)
    ensures
        match spec_parse_args(strings_view(args@), 0, default_args_spec()) {
            Ok(a) => r matches Ok(v) && v@ == a,
            Err(e) => r matches Err(e2) && e2@ == e,
        },
{
    let ghost av = strings_view(args@);
    let mut result = HeadlessArgs {
        walkthrough: false,
        output_dir: string_from_chars(&['.', '/', 'c', 'a', 'p', 't', 'u', 'r', 'e', 's', '/']),
        camera_pos: None,
        camera_angle_deg: None,
        frame_count: 1,
        frame_step: 60,
        width: 1920,
        height: 1080,
        map: None,
    };
    assert(result@ == default_args_spec());
    let n = args.len();
    let mut i: usize = 0;
    while i < n
        invariant
            n == args@.len(),
            av == strings_view(args@),
            i <= n,
            spec_parse_args(av, 0, default_args_spec()) == spec_parse_args(av, i as int, result@),
        decreases n - i,
    {
        let a = chars_of(args[i].as_str());
        assert(a@ == av[i as int]);
        let has_value = i + 1 < n;
        if same_chars(&a, &['-', '-', 'w', 'a', 'l', 'k', 't', 'h', 'r', 'o', 'u', 'g', 'h']) {
            result.walkthrough = true;
            i = i + 1;
        } else if flag_matches(&a, Flag::Output) {
            if !has_value {
                return Err(ArgError::MissingValue(Flag::Output));
            }
            result.output_dir = args[i + 1].clone();
            i = i + 2;
        } else if flag_matches(&a, Flag::CameraPos) {
            if !has_value {
                return Err(ArgError::MissingValue(Flag::CameraPos));
            }
            let p = parse_coords(&args[i + 1], Flag::CameraPos, 3)?;
            result.camera_pos = Some(p);
            i = i + 2;
        } else if flag_matches(&a, Flag::CameraAngle) {
            if !has_value {
                return Err(ArgError::MissingValue(Flag::CameraAngle));
            }
            let p = parse_coords(&args[i + 1], Flag::CameraAngle, 2)?;
            result.camera_angle_deg = Some(p);
            i = i + 2;
        } else if flag_matches(&a, Flag::FrameCount) {
            if !has_value {
                return Err(ArgError::MissingValue(Flag::FrameCount));
            }
            let v = chars_of(args[i + 1].as_str());
            assert(v@.subrange(0, v@.len() as int) =~= v@);
            match parse_u32(&v, 0, v.len()) {
                Some(k) => result.frame_count = k,
                None => {
                    return Err(ArgError::InvalidNumber(Flag::FrameCount));
                },
            }
            i = i + 2;
        } else if flag_matches(&a, Flag::FrameStep) {
            if !has_value {
                return Err(ArgError::MissingValue(Flag::FrameStep));
            }
            let v = chars_of(args[i + 1].as_str());
            assert(v@.subrange(0, v@.len() as int) =~= v@);
            match parse_u32(&v, 0, v.len()) {
                Some(k) => result.frame_step = k,
                None => {
                    return Err(ArgError::InvalidNumber(Flag::FrameStep));
                },
            }
            i = i + 2;
        } else if flag_matches(&a, Flag::Resolution) {
            if !has_value {
                return Err(ArgError::MissingValue(Flag::Resolution));
            }
            let (w, h) = parse_resolution(&args[i + 1])?;
            result.width = w;
            result.height = h;
            i = i + 2;
        } else if flag_matches(&a, Flag::MapName) {
            if !has_value {
                return Err(ArgError::MissingValue(Flag::MapName));
            }
            result.map = Some(args[i + 1].clone());
            i = i + 2;
        } else {
            return Err(ArgError::UnknownFlag(args[i].clone()));
        }
    }
    Ok(result)
}

// ---------------------------------------------------------------------------
// Messages.
// ---------------------------------------------------------------------------

/// The message for a flag given without its value.
pub open spec fn missing_value_text(f: Flag) -> Seq<char> {
    match f {
        Flag::Output => seq!['-', '-', 'o', 'u', 't', 'p', 'u', 't', ' ', 'r', 'e', 'q', 'u', 'i', 'r', 'e', 's', ' ', 'a', ' ', 'd', 'i', 'r', 'e', 'c', 't', 'o', 'r', 'y', ' ', 'p', 'a', 't', 'h'],
        Flag::CameraPos => seq!['-', '-', 'c', 'a', 'm', 'e', 'r', 'a', '-', 'p', 'o', 's', ' ', 'r', 'e', 'q', 'u', 'i', 'r', 'e', 's', ' ', 'x', ',', 'y', ',', 'z'],
        Flag::CameraAngle => seq!['-', '-', 'c', 'a', 'm', 'e', 'r', 'a', '-', 'a', 'n', 'g', 'l', 'e', ' ', 'r', 'e', 'q', 'u', 'i', 'r', 'e', 's', ' ', 'y', 'a', 'w', ',', 'p', 'i', 't', 'c', 'h', ' ', '(', 'd', 'e', 'g', 'r', 'e', 'e', 's', ')'],
        Flag::FrameCount => seq!['-', '-', 'f', 'r', 'a', 'm', 'e', '-', 'c', 'o', 'u', 'n', 't', ' ', 'r', 'e', 'q', 'u', 'i', 'r', 'e', 's', ' ', 'a', ' ', 'v', 'a', 'l', 'u', 'e'],
        Flag::FrameStep => seq!['-', '-', 'f', 'r', 'a', 'm', 'e', '-', 's', 't', 'e', 'p', ' ', 'r', 'e', 'q', 'u', 'i', 'r', 'e', 's', ' ', 'a', ' ', 'v', 'a', 'l', 'u', 'e'],
        Flag::Resolution => seq!['-', '-', 'r', 'e', 's', 'o', 'l', 'u', 't', 'i', 'o', 'n', ' ', 'r', 'e', 'q', 'u', 'i', 'r', 'e', 's', ' ', 'W', 'x', 'H', ' ', '(', 'e', '.', 'g', '.', ' ', '1', '9', '2', '0', 'x', '1', '0', '8', '0', ')'],
        Flag::MapName => seq!['-', '-', 'm', 'a', 'p', ' ', 'r', 'e', 'q', 'u', 'i', 'r', 'e', 's', ' ', 'a', ' ', 'm', 'a', 'p', ' ', 'n', 'a', 'm', 'e'],
    }
}

/// How many comma-separated values a coordinate flag takes.
pub open spec fn coordinate_count(f: Flag) -> nat {
    if f == Flag::CameraPos {
        3
    } else {
        2
    }
}

/// The message shown for a refused command line.
pub open spec fn arg_error_text(e: ArgErrorSpec) -> Seq<char> {
    match e {
        ArgErrorSpec::MissingValue(f) => missing_value_text(f),
        ArgErrorSpec::InvalidFloat { flag, part } => seq!['i', 'n', 'v', 'a', 'l', 'i', 'd', ' ', 'f', 'l', 'o', 'a', 't', ' ', 'i', 'n', ' '] + flag_text(flag) + seq![':', ' ', '\''] + part + seq!['\''],
        ArgErrorSpec::WrongCount { flag, count } => flag_text(flag) + seq![' ', 'r', 'e', 'q', 'u', 'i', 'r', 'e', 's', ' ', 'e', 'x', 'a', 'c', 't', 'l', 'y', ' '] + decimal(coordinate_count(flag)) + seq![' ', 'c', 'o', 'm', 'm', 'a', '-', 's', 'e', 'p', 'a', 'r', 'a', 't', 'e', 'd', ' ', 'v', 'a', 'l', 'u', 'e', 's', ',', ' ', 'g', 'o', 't', ' '] + decimal(count as nat),
        ArgErrorSpec::InvalidNumber(f) => flag_text(f) + if f == Flag::FrameStep {
            seq![' ', 'm', 'u', 's', 't', ' ', 'b', 'e', ' ', 'a', ' ', 'p', 'o', 's', 'i', 't', 'i', 'v', 'e', ' ', 'i', 'n', 't', 'e', 'g', 'e', 'r']
        } else {
            seq![' ', 'm', 'u', 's', 't', ' ', 'b', 'e', ' ', 'a', ' ', 'n', 'o', 'n', '-', 'n', 'e', 'g', 'a', 't', 'i', 'v', 'e', ' ', 'i', 'n', 't', 'e', 'g', 'e', 'r']
        },
        ArgErrorSpec::ResolutionFormat => seq!['-', '-', 'r', 'e', 's', 'o', 'l', 'u', 't', 'i', 'o', 'n', ' ', 'm', 'u', 's', 't', ' ', 'b', 'e', ' ', 'W', 'x', 'H', ' ', 'f', 'o', 'r', 'm', 'a', 't', ' ', '(', 'e', '.', 'g', '.', ' ', '1', '9', '2', '0', 'x', '1', '0', '8', '0', ')'],
        ArgErrorSpec::InvalidWidth => seq!['i', 'n', 'v', 'a', 'l', 'i', 'd', ' ', 'w', 'i', 'd', 't', 'h', ' ', 'i', 'n', ' ', '-', '-', 'r', 'e', 's', 'o', 'l', 'u', 't', 'i', 'o', 'n'],
        ArgErrorSpec::InvalidHeight => seq!['i', 'n', 'v', 'a', 'l', 'i', 'd', ' ', 'h', 'e', 'i', 'g', 'h', 't', ' ', 'i', 'n', ' ', '-', '-', 'r', 'e', 's', 'o', 'l', 'u', 't', 'i', 'o', 'n'],
        ArgErrorSpec::UnknownFlag(s) => seq!['u', 'n', 'k', 'n', 'o', 'w', 'n', ' ', 'f', 'l', 'a', 'g', ':', ' ', '\''] + s + seq!['\''],
    }
}

/// The characters of a flag as written on the command line.
fn flag_chars(f: Flag) -> (r: &'static [char])
    ensures
        r@ == flag_text(f),
{
    match f {
        Flag::Output => &['-', '-', 'o', 'u', 't', 'p', 'u', 't'],
        Flag::CameraPos => &['-', '-', 'c', 'a', 'm', 'e', 'r', 'a', '-', 'p', 'o', 's'],
        Flag::CameraAngle => &['-', '-', 'c', 'a', 'm', 'e', 'r', 'a', '-', 'a', 'n', 'g', 'l', 'e'],
        Flag::FrameCount => &['-', '-', 'f', 'r', 'a', 'm', 'e', '-', 'c', 'o', 'u', 'n', 't'],
        Flag::FrameStep => &['-', '-', 'f', 'r', 'a', 'm', 'e', '-', 's', 't', 'e', 'p'],
        Flag::Resolution => &['-', '-', 'r', 'e', 's', 'o', 'l', 'u', 't', 'i', 'o', 'n'],
        Flag::MapName => &['-', '-', 'm', 'a', 'p'],
    }
}

fn missing_value_chars(f: Flag) -> (r: &'static [char])
    ensures
        r@ == missing_value_text(f),
{
    match f {
        Flag::Output => &['-', '-', 'o', 'u', 't', 'p', 'u', 't', ' ', 'r', 'e', 'q', 'u', 'i', 'r', 'e', 's', ' ', 'a', ' ', 'd', 'i', 'r', 'e', 'c', 't', 'o', 'r', 'y', ' ', 'p', 'a', 't', 'h'],
        Flag::CameraPos => &['-', '-', 'c', 'a', 'm', 'e', 'r', 'a', '-', 'p', 'o', 's', ' ', 'r', 'e', 'q', 'u', 'i', 'r', 'e', 's', ' ', 'x', ',', 'y', ',', 'z'],
        Flag::CameraAngle => &['-', '-', 'c', 'a', 'm', 'e', 'r', 'a', '-', 'a', 'n', 'g', 'l', 'e', ' ', 'r', 'e', 'q', 'u', 'i', 'r', 'e', 's', ' ', 'y', 'a', 'w', ',', 'p', 'i', 't', 'c', 'h', ' ', '(', 'd', 'e', 'g', 'r', 'e', 'e', 's', ')'],
        Flag::FrameCount => &['-', '-', 'f', 'r', 'a', 'm', 'e', '-', 'c', 'o', 'u', 'n', 't', ' ', 'r', 'e', 'q', 'u', 'i', 'r', 'e', 's', ' ', 'a', ' ', 'v', 'a', 'l', 'u', 'e'],
        Flag::FrameStep => &['-', '-', 'f', 'r', 'a', 'm', 'e', '-', 's', 't', 'e', 'p', ' ', 'r', 'e', 'q', 'u', 'i', 'r', 'e', 's', ' ', 'a', ' ', 'v', 'a', 'l', 'u', 'e'],
        Flag::Resolution => &['-', '-', 'r', 'e', 's', 'o', 'l', 'u', 't', 'i', 'o', 'n', ' ', 'r', 'e', 'q', 'u', 'i', 'r', 'e', 's', ' ', 'W', 'x', 'H', ' ', '(', 'e', '.', 'g', '.', ' ', '1', '9', '2', '0', 'x', '1', '0', '8', '0', ')'],
        Flag::MapName => &['-', '-', 'm', 'a', 'p', ' ', 'r', 'e', 'q', 'u', 'i', 'r', 'e', 's', ' ', 'a', ' ', 'm', 'a', 'p', ' ', 'n', 'a', 'm', 'e'],
    }
}

impl ArgError {
    /// The message shown for this error.
    pub fn message(&self) -> (m: String)
        ensures
            m@ == arg_error_text(self@),
    {
        let mut out: Vec<char> = Vec::new();
        match self {
            ArgError::MissingValue(f) => {
                push_chars(&mut out, missing_value_chars(*f));
            },
            ArgError::InvalidFloat { flag, part } => {
                push_chars(&mut out, &['i', 'n', 'v', 'a', 'l', 'i', 'd', ' ', 'f', 'l', 'o', 'a', 't', ' ', 'i', 'n', ' ']);
                push_chars(&mut out, flag_chars(*flag));
                push_chars(&mut out, &[':', ' ', '\'']);
                let p = chars_of(part.as_str());
                push_chars(&mut out, p.as_slice());
                push_chars(&mut out, &['\'']);
            },
            ArgError::WrongCount { flag, count } => {
                push_chars(&mut out, flag_chars(*flag));
                push_chars(&mut out, &[' ', 'r', 'e', 'q', 'u', 'i', 'r', 'e', 's', ' ', 'e', 'x', 'a', 'c', 't', 'l', 'y', ' ']);
                let want: u64 = if *flag == Flag::CameraPos { 3 } else { 2 };
                let w = decimal_chars(want);
                push_chars(&mut out, w.as_slice());
                push_chars(&mut out, &[' ', 'c', 'o', 'm', 'm', 'a', '-', 's', 'e', 'p', 'a', 'r', 'a', 't', 'e', 'd', ' ', 'v', 'a', 'l', 'u', 'e', 's', ',', ' ', 'g', 'o', 't', ' ']);
                let c = decimal_chars(*count as u64);
                push_chars(&mut out, c.as_slice());
            },
            ArgError::InvalidNumber(f) => {
                push_chars(&mut out, flag_chars(*f));
                if *f == Flag::FrameStep {
                    push_chars(&mut out, &[' ', 'm', 'u', 's', 't', ' ', 'b', 'e', ' ', 'a', ' ', 'p', 'o', 's', 'i', 't', 'i', 'v', 'e', ' ', 'i', 'n', 't', 'e', 'g', 'e', 'r']);
                } else {
                    push_chars(&mut out, &[' ', 'm', 'u', 's', 't', ' ', 'b', 'e', ' ', 'a', ' ', 'n', 'o', 'n', '-', 'n', 'e', 'g', 'a', 't', 'i', 'v', 'e', ' ', 'i', 'n', 't', 'e', 'g', 'e', 'r']);
                }
            },
            ArgError::ResolutionFormat => {
                push_chars(&mut out, &['-', '-', 'r', 'e', 's', 'o', 'l', 'u', 't', 'i', 'o', 'n', ' ', 'm', 'u', 's', 't', ' ', 'b', 'e', ' ', 'W', 'x', 'H', ' ', 'f', 'o', 'r', 'm', 'a', 't', ' ', '(', 'e', '.', 'g', '.', ' ', '1', '9', '2', '0', 'x', '1', '0', '8', '0', ')']);
            },
            ArgError::InvalidWidth => {
                push_chars(&mut out, &['i', 'n', 'v', 'a', 'l', 'i', 'd', ' ', 'w', 'i', 'd', 't', 'h', ' ', 'i', 'n', ' ', '-', '-', 'r', 'e', 's', 'o', 'l', 'u', 't', 'i', 'o', 'n']);
            },
            ArgError::InvalidHeight => {
                push_chars(&mut out, &['i', 'n', 'v', 'a', 'l', 'i', 'd', ' ', 'h', 'e', 'i', 'g', 'h', 't', ' ', 'i', 'n', ' ', '-', '-', 'r', 'e', 's', 'o', 'l', 'u', 't', 'i', 'o', 'n']);
            },
            ArgError::UnknownFlag(s) => {
                push_chars(&mut out, &['u', 'n', 'k', 'n', 'o', 'w', 'n', ' ', 'f', 'l', 'a', 'g', ':', ' ', '\'']);
                let p = chars_of(s.as_str());
                push_chars(&mut out, p.as_slice());
                push_chars(&mut out, &['\'']);
            },
        }
        proof {
            assert(out@ =~= arg_error_text(self@));
        }
        string_from_chars(out.as_slice())
    }
}

} // verus!
