//! Colored, optionally emoji-decorated console messages, with custom hex
//! (`#RRGGBB`) colors for each message category.

use vstd::prelude::*;
use colored::{Color, Colorize};
use crate::text::{
    all_digits, dec, lemma_trim_noop, append_chars, chars_of, digit_val, string_of, trim, trim_chars,
};

verus! {

/// When to color the output.
#[derive(Debug, Clone, Copy, PartialEq, Eq, Structural)]
pub enum ColorMode {
    Auto,
    Always,
    Never,
}

/// `c` with ASCII capitals turned into small letters.
pub open spec fn ascii_lower(c: char) -> char {
    if 'A' <= c <= 'Z' {
        ((c as int) + 32) as char
    } else {
        c
    }
}

/// `str::to_ascii_lowercase`.
pub open spec fn lower(s: Seq<char>) -> Seq<char> {
    s.map_values(|c: char| ascii_lower(c))
}

/// The characters of `v` in ASCII lower case.
pub fn lower_chars(v: &Vec<char>) -> (r: Vec<char>)
    ensures
        r@ == lower(v@),
{
    let mut r: Vec<char> = Vec::new();
    let mut i: usize = 0;
    while i < v.len()
        invariant
            i <= v@.len(),
            r@ == lower(v@.take(i as int)),
        decreases v.len() - i,
    {
        let c = v[i];
        let d = if 'A' <= c && c <= 'Z' {
            ((c as u8) + 32) as char
        } else {
            c
        };
        assert(d == ascii_lower(c));
        r.push(d);
        i = i + 1;
        assert(r@ =~= lower(v@.take(i as int)));
    }
    assert(v@.take(i as int) =~= v@);
    r
}

/// Whether `v` holds exactly the characters of `lit`.
pub fn chars_eq(v: &Vec<char>, lit: &str) -> (b: bool)
    ensures
        b == (v@ == lit@),
{
    let w = chars_of(lit);
    if v.len() != w.len() {
        return false;
    }
    let mut i: usize = 0;
    while i < v.len()
        invariant
            v@.len() == w@.len(),
            w@ == lit@,
            i <= v@.len(),
            forall|k: int| 0 <= k < i ==> v@[k] == w@[k],
        decreases v.len() - i,
    {
        if v[i] != w[i] {
            return false;
        }
        i = i + 1;
    }
    assert(v@ =~= w@);
    true
}

/// The color mode that a `--color` value names, ignoring ASCII case.
pub open spec fn color_mode_named(s: Seq<char>) -> Option<ColorMode> {
    let l = lower(s);
    if l == "auto"@ {
        Some(ColorMode::Auto)
    } else if l == "always"@ {
        Some(ColorMode::Always)
    } else if l == "never"@ {
        Some(ColorMode::Never)
    } else {
        None
    }
}

/// The message for a `--color` value that names no mode.
pub open spec fn color_mode_error(s: Seq<char>) -> Seq<char> {
    "invalid value '"@ + lower(s) + "' for --color, expected auto|always|never"@
}

/// Parses a `--color` value (`auto`, `always` or `never`, in any ASCII
/// case).
pub fn parse_color_mode(s: &str) -> (r: Result<ColorMode, String>)
    ensures
        r matches Ok(m) ==> color_mode_named(s@) == Some(m),
        r matches Err(e) ==> color_mode_named(s@) is None && e@ == color_mode_error(s@),
{
    let l = lower_chars(&chars_of(s));
    if chars_eq(&l, "auto") {
        Ok(ColorMode::Auto)
    } else if chars_eq(&l, "always") {
        Ok(ColorMode::Always)
    } else if chars_eq(&l, "never") {
        Ok(ColorMode::Never)
    } else {
        let mut msg = chars_of("invalid value '");
        append_chars(&mut msg, &l);
        append_chars(&mut msg, &chars_of("' for --color, expected auto|always|never"));
        Err(string_of(&msg))
    }
}

impl std::str::FromStr for ColorMode {
    type Err = String;

    fn from_str(s: &str) -> (r: Result<Self, Self::Err>)
        ensures
            r matches Ok(m) ==> color_mode_named(s@) == Some(m),
            r matches Err(e) ==> color_mode_named(s@) is None && e@ == color_mode_error(s@),
    {
        parse_color_mode(s)
    }
}

/// Decides whether colored output should be used: `Always` and `Never` say
/// so outright; `Auto` colors only when `NO_COLOR` is unset and standard
/// output is an interactive terminal (the caller reports both facts).
pub fn should_use_color(mode: ColorMode, no_color_set: bool, stdout_is_terminal: bool) -> (b:
    bool)
    ensures
        b == match mode {
            ColorMode::Always => true,
            ColorMode::Never => false,
            ColorMode::Auto => !no_color_set && stdout_is_terminal,
        },
{
    match mode {
        ColorMode::Always => true,
        ColorMode::Never => false,
        ColorMode::Auto => !no_color_set && stdout_is_terminal,
    }
}

/// `s` with every leading `#` removed (`trim_start_matches('#')`).
pub open spec fn strip_hash(s: Seq<char>) -> Seq<char>
    decreases s.len(),
{
    if s.len() > 0 && s[0] == '#' {
        strip_hash(s.drop_first())
    } else {
        s
    }
}

/// The byte that two hex digits stand for.
pub open spec fn hex_byte(hi: char, lo: char) -> u8 {
    (digit_val(hi) * 16 + digit_val(lo)) as u8
}

/// The color that a `#RRGGBB` or `RRGGBB` string names (surrounding
/// whitespace and any leading `#` are ignored; digits in either case).
pub open spec fn hex_color(s: Seq<char>) -> Option<(u8, u8, u8)> {
    let t = strip_hash(trim(s));
    if t.len() == 6 && all_digits(t, 16) {
        Some((hex_byte(t[0], t[1]), hex_byte(t[2], t[3]), hex_byte(t[4], t[5])))
    } else {
        None
    }
}

/// The message for a string that names no hex color.
pub open spec fn hex_error(s: Seq<char>) -> Seq<char> {
    "invalid hex color '"@ + s + "', expected a format like #00FFFF"@
}

fn hex_digit_value(c: char) -> (d: u8)
    requires
        digit_val(c) < 16,
    ensures
        d == digit_val(c),
{
    if '0' <= c && c <= '9' {
        (c as u8) - 48
    } else if 'a' <= c && c <= 'f' {
        (c as u8) - 87
    } else {
        (c as u8) - 55
    }
}

/// Parses a `#RRGGBB` or `RRGGBB` hex string into an RGB triple.
pub fn parse_hex(s: &str) -> (r: Result<(u8, u8, u8), String>)
    ensures
        r matches Ok(rgb) ==> hex_color(s@) == Some(rgb),
        r matches Err(e) ==> hex_color(s@) is None && e@ == hex_error(s@),
{
    let all = chars_of(s);
    let t0 = trim_chars(&all);
    let n = t0.len();
    let mut a: usize = 0;
    assert(t0@.skip(0) =~= t0@);
    while a < n && t0[a] == '#'
        invariant
            n == t0@.len(),
            a <= n,
            strip_hash(t0@) == strip_hash(t0@.skip(a as int)),
        decreases n - a,
    {
        assert(t0@.skip(a as int).drop_first() =~= t0@.skip(a + 1));
        a = a + 1;
    }
    let t = crate::text::copy_range(&t0, a, n);
    proof {
        assert(t@ =~= t0@.skip(a as int));
        if a < n {
            assert(t0@.skip(a as int)[0] == t0@[a as int]);
        }
        assert(strip_hash(t0@) == t@);
    }
    let mut ok = t.len() == 6;
    let mut i: usize = 0;
    while ok && i < t.len()
        invariant
            i <= t@.len(),
            ok ==> t@.len() == 6,
            ok ==> forall|k: int| 0 <= k < i ==> #[trigger] digit_val(t@[k]) < 16,
            !ok ==> t@.len() != 6 || !all_digits(t@, 16),
        decreases t.len() - i,
    {
        let c = t[i];
        if !(('0' <= c && c <= '9') || ('a' <= c && c <= 'f') || ('A' <= c && c <= 'F')) {
            assert(digit_val(t@[i as int]) >= 16);
            ok = false;
        }
        i = i + 1;
    }
    if !ok {
        let mut msg = chars_of("invalid hex color '");
        append_chars(&mut msg, &all);
        append_chars(&mut msg, &chars_of("', expected a format like #00FFFF"));
        return Err(string_of(&msg));
    }
    assert(all_digits(t@, 16));
    let r = hex_digit_value(t[0]) * 16 + hex_digit_value(t[1]);
    let g = hex_digit_value(t[2]) * 16 + hex_digit_value(t[3]);
    let b = hex_digit_value(t[4]) * 16 + hex_digit_value(t[5]);
    Ok((r, g, b))
}


/// The escape sequence that starts an ANSI style (`ESC [`).
pub open spec fn csi() -> Seq<char> {
    seq!['\u{1b}', '[']
}

/// The escape sequence that resets all styling (`ESC [ 0 m`).
pub open spec fn reset() -> Seq<char> {
    seq!['\u{1b}', '[', '0', 'm']
}

/// `t` holds the reset sequence somewhere.
pub open spec fn has_reset(t: Seq<char>) -> bool {
    exists|i: int| 0 <= i && i + 4 <= t.len() && #[trigger] t.subrange(i, i + 4) == reset()
}

/// The code that `colored` picks for the true color `(r, g, b)` when the
/// terminal does not announce true-color support: the foreground code of
/// the nearest of the sixteen basic colors (`closest_color_euclidean`
/// followed by `to_fg_str`), which depends on `r`, `g` and `b` alone.
pub uninterp spec fn closest_fg_code(r: u8, g: u8, b: u8) -> Seq<char>;

/// The true-color foreground code `38;2;R;G;B`, each component in decimal.
pub open spec fn truecolor_code(r: u8, g: u8, b: u8) -> Seq<char> {
    "38;2;"@ + dec(r as nat) + ";"@ + dec(g as nat) + ";"@ + dec(b as nat)
}

/// The style sequence `ESC [ code m`.
pub open spec fn style_seq(code: Seq<char>) -> Seq<char> {
    csi() + code + seq!['m']
}

/// The foreground codes that `colored` may use for `rgb`: the exact true
/// color (when `COLORTERM` is `truecolor` or `24bit`) or the nearest basic
/// color.
pub open spec fn color_code(code: Seq<char>, rgb: (u8, u8, u8)) -> bool {
    code == truecolor_code(rgb.0, rgb.1, rgb.2) || code == closest_fg_code(rgb.0, rgb.1, rgb.2)
}

/// What painting `text` in the color `rgb` with `colored` can give: the
/// text unchanged (when `colored` decides not to color), or the text
/// between the style sequence of a code for `rgb` and the reset sequence.
/// When the text itself holds a reset sequence, `colored` re-inserts the
/// style after each one, so then only the two ends are fixed.
pub open spec fn painted(out: Seq<char>, text: Seq<char>, rgb: (u8, u8, u8)) -> bool {
    ||| out == text
    ||| out == style_seq(truecolor_code(rgb.0, rgb.1, rgb.2)) + text + reset()
    ||| out == style_seq(closest_fg_code(rgb.0, rgb.1, rgb.2)) + text + reset()
    ||| has_reset(text) && exists|code: Seq<char>|
        color_code(code, rgb) && out.len() >= style_seq(code).len() + 4 && #[trigger] out.take(
            style_seq(code).len() as int,
        ) == style_seq(code) && out.skip(out.len() - 4) == reset()
}

/// `colored`'s true-color foreground painting:
/// `text.color(Color::TrueColor { r, g, b }).to_string()`.
///
/// Trusted. `colored` decides from the environment (`CLICOLOR`,
/// `CLICOLOR_FORCE`, `NO_COLOR`, whether standard output is a terminal)
/// whether to emit escape sequences at all, and from `COLORTERM` whether
/// the color code is the exact triple `38;2;R;G;B` or the code of the
/// nearest basic color; the contract states every such outcome (see
/// `painted`). Which of them comes out is left unsaid, since it rests on
/// the environment.
#[verifier::external_body]
fn colored_truecolor(text: &str, r: u8, g: u8, b: u8) -> (out: String)
    ensures
        out@ == text@ || out@ == style_seq(truecolor_code(r, g, b)) + text@ + reset() || out@
            == style_seq(closest_fg_code(r, g, b)) + text@ + reset() || (has_reset(text@)
            && painted(out@, text@, (r, g, b))),
{
    text.color(Color::TrueColor { r, g, b }).to_string()
}

/// The colors and decorations of the console messages.
#[derive(Debug, Clone, Copy)]
pub struct Theme {
    pub success: (u8, u8, u8),
    pub error: (u8, u8, u8),
    pub warn: (u8, u8, u8),
    pub info: (u8, u8, u8),
    pub enabled: bool,
    pub emoji: bool,
}

impl Default for Theme {
    fn default() -> (t: Self)
        ensures
            t.success == (0x00u8, 0xC8u8, 0x53u8),
            t.error == (0xFFu8, 0x3Bu8, 0x30u8),
            t.warn == (0xFFu8, 0xA5u8, 0x00u8),
            t.info == (0x00u8, 0xAFu8, 0xFFu8),
            t.enabled,
            t.emoji,
    {
        Theme {
            success: (0x00, 0xC8, 0x53),  // green
            error: (0xFF, 0x3B, 0x30),  // red
            warn: (0xFF, 0xA5, 0x00),  // amber
            info: (0x00, 0xAF, 0xFF),  // cyan-blue
            enabled: true,
            emoji: true,
        }
    }
}

/// The icon before success messages when emoji are on.
pub open spec fn success_icon() -> Seq<char> {
    seq!['\u{2705}', ' ']
}

/// The icon before error messages when emoji are on.
pub open spec fn error_icon() -> Seq<char> {
    seq!['\u{274c}', ' ']
}

/// The icon before warnings when emoji are on.
pub open spec fn warn_icon() -> Seq<char> {
    seq!['\u{26a0}', '\u{fe0f}', ' ', ' ']
}

/// The icon before informational messages when emoji are on.
pub open spec fn info_icon() -> Seq<char> {
    seq!['\u{1f4c1}', ' ']
}

impl Theme {
    /// What a message looks like under this theme: the icon (when emoji
    /// are on), then the text, painted when color is enabled and unchanged
    /// otherwise.
    pub open spec fn decorated(
        &self,
        out: Seq<char>,
        icon: Seq<char>,
        text: Seq<char>,
        rgb: (u8, u8, u8),
    ) -> bool {
        let lead = if self.emoji {
            icon
        } else {
            Seq::empty()
        };
        &&& out.len() >= lead.len()
        &&& out.take(lead.len() as int) == lead
        &&& if self.enabled {
            painted(out.skip(lead.len() as int), text, rgb)
        } else {
            out.skip(lead.len() as int) == text
        }
    }

    fn paint(&self, text: &str, rgb: (u8, u8, u8)) -> (out: String)
        ensures
            self.enabled ==> painted(out@, text@, rgb),
            !self.enabled ==> out@ == text@,
    {
        if self.enabled {
            colored_truecolor(text, rgb.0, rgb.1, rgb.2)
        } else {
            string_of(&chars_of(text))
        }
    }

    fn decorate(&self, icon: &str, text: &str, rgb: (u8, u8, u8)) -> (out: String)
        ensures
            self.decorated(out@, icon@, text@, rgb),
    {
        let mut v: Vec<char> = if self.emoji {
            chars_of(icon)
        } else {
            Vec::new()
        };
        let ghost lead = v@;
        let painted_text = self.paint(text, rgb);
        append_chars(&mut v, &chars_of(painted_text.as_str()));
        assert(v@.take(lead.len() as int) =~= lead);
        assert(v@.skip(lead.len() as int) =~= painted_text@);
        string_of(&v)
    }

    /// A success message: a check-mark icon and the text in the success
    /// color.
    pub fn success(&self, text: &str) -> (out: String)
        ensures
            self.decorated(out@, success_icon(), text@, self.success),
    {
        let icon = "\u{2705} ";
        proof {
            reveal_strlit("\u{2705} ");
        }
        assert(icon@ =~= success_icon());
        self.decorate(icon, text, self.success)
    }

    /// An error message: a cross icon and the text in the error color.
    pub fn error(&self, text: &str) -> (out: String)
        ensures
            self.decorated(out@, error_icon(), text@, self.error),
    {
        let icon = "\u{274c} ";
        proof {
            reveal_strlit("\u{274c} ");
        }
        assert(icon@ =~= error_icon());
        self.decorate(icon, text, self.error)
    }

    /// A warning: a warning-sign icon and the text in the warning color.
    pub fn warn(&self, text: &str) -> (out: String)
        ensures
            self.decorated(out@, warn_icon(), text@, self.warn),
    {
        let icon = "\u{26a0}\u{fe0f}  ";
        proof {
            reveal_strlit("\u{26a0}\u{fe0f}  ");
        }
        assert(icon@ =~= warn_icon());
        self.decorate(icon, text, self.warn)
    }

    /// An informational message: a folder icon and the text in the info
    /// color.
    pub fn info(&self, text: &str) -> (out: String)
        ensures
            self.decorated(out@, info_icon(), text@, self.info),
    {
        let icon = "\u{1f4c1} ";
        proof {
            reveal_strlit("\u{1f4c1} ");
        }
        assert(icon@ =~= info_icon());
        self.decorate(icon, text, self.info)
    }
}


/// The upper-case hex digit of `n` (0 through 15).
pub open spec fn hex_digit_char(n: int) -> char {
    if n < 10 {
        (48 + n) as char
    } else {
        (55 + n) as char
    }
}

/// `RRGGBB` for the color `(r, g, b)`, in upper-case hex.
pub open spec fn hex_text(r: u8, g: u8, b: u8) -> Seq<char> {
    seq![
        hex_digit_char(r as int / 16),
        hex_digit_char(r as int % 16),
        hex_digit_char(g as int / 16),
        hex_digit_char(g as int % 16),
        hex_digit_char(b as int / 16),
        hex_digit_char(b as int % 16),
    ]
}

proof fn lemma_hex_digit(n: int)
    requires
        0 <= n < 16,
    ensures
        digit_val(hex_digit_char(n)) == n,
        !crate::text::is_ws(hex_digit_char(n)),
        hex_digit_char(n) != '#',
{
}

proof fn lemma_hex_byte(v: u8)
    ensures
        hex_byte(hex_digit_char(v as int / 16), hex_digit_char(v as int % 16)) == v,
{
    lemma_hex_digit(v as int / 16);
    lemma_hex_digit(v as int % 16);
}

/// Every color can be written as `#RRGGBB` or `RRGGBB` and read back.
pub proof fn law_hex_roundtrip(r: u8, g: u8, b: u8)
    ensures
        hex_color(seq!['#'] + hex_text(r, g, b)) == Some((r, g, b)),
        hex_color(hex_text(r, g, b)) == Some((r, g, b)),
{
    let t = hex_text(r, g, b);
    let h = seq!['#'] + t;
    lemma_hex_digit(r as int / 16);
    lemma_hex_digit(r as int % 16);
    lemma_hex_digit(g as int / 16);
    lemma_hex_digit(g as int % 16);
    lemma_hex_digit(b as int / 16);
    lemma_hex_digit(b as int % 16);
    lemma_hex_byte(r);
    lemma_hex_byte(g);
    lemma_hex_byte(b);
    lemma_trim_noop(t);
    lemma_trim_noop(h);
    assert(h.drop_first() =~= t);
    assert(strip_hash(t) == t);
    assert(all_digits(t, 16));
}

/// `--color` values are read without regard to ASCII case.
pub proof fn law_color_mode_case_insensitive(s: Seq<char>)
    ensures
        color_mode_named(lower(s)) == color_mode_named(s),
{
    assert(lower(lower(s)) =~= lower(s));
}

} // verus!
