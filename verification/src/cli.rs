//! The command-line settings, and the checks that turn their raw text into
//! a color theme and a permission mode.

use vstd::prelude::*;
use crate::color::{hex_color, hex_error, parse_hex, Theme};
use crate::text::{append_chars, chars_of, parse_radix, parse_radix_chars, string_of, copy_range};

verus! {

/// The parsed command line.
pub struct Cli {
    /// Directories to create; brace patterns, either separator.
    pub paths: Vec<String>,
    /// File of further patterns, one per line (`-` for standard input).
    pub from: Option<String>,
    /// Do not create missing parent directories.
    pub no_parents: bool,
    /// Delete an existing target first, then recreate it.
    pub force: bool,
    /// With `force`, only remove empty directories.
    pub no_recursive_remove: bool,
    /// Ask before deleting an existing path.
    pub interactive: bool,
    /// Octal permissions for new directories.
    pub mode: Option<String>,
    /// Create a `.gitkeep` file in every new directory.
    pub gitkeep: bool,
    /// Print each action.
    pub verbose: bool,
    /// Suppress all non-error output.
    pub quiet: bool,
    /// Show what would be done without changing anything.
    pub dry_run: bool,
    /// Print a summary of the counts at the end.
    pub stats: bool,
    /// Emit a JSON report.
    pub json: bool,
    /// Treat an existing target as an error.
    pub strict: bool,
    /// `auto`, `always` or `never`.
    pub color: String,
    /// Disable emoji icons.
    pub no_emoji: bool,
    /// Hex color of success messages.
    pub color_success: Option<String>,
    /// Hex color of error messages.
    pub color_error: Option<String>,
    /// Hex color of warnings.
    pub color_warn: Option<String>,
    /// Hex color of informational messages.
    pub color_info: Option<String>,
}

/// A custom color option that holds text naming no color.
pub open spec fn bad_color(h: Option<String>) -> bool {
    h matches Some(x) && hex_color(x@) is None
}

/// The color that a valid custom color option gives, `old` when the option
/// is absent.
pub open spec fn chosen_color(h: Option<String>, old: (u8, u8, u8)) -> (u8, u8, u8) {
    match h {
        Some(x) => hex_color(x@).unwrap(),
        None => old,
    }
}

/// The error message for a custom color option.
pub open spec fn color_option_error(h: Option<String>) -> Seq<char> {
    match h {
        Some(x) => hex_error(x@),
        None => Seq::empty(),
    }
}

fn apply_one(current: (u8, u8, u8), hex: &Option<String>) -> (r: Result<(u8, u8, u8), String>)
    ensures
        r matches Ok(c) ==> !bad_color(*hex) && c == chosen_color(*hex, current),
        r matches Err(e) ==> bad_color(*hex) && e@ == color_option_error(*hex),
{
    match hex {
        Some(h) => parse_hex(h.as_str()),
        None => Ok(current),
    }
}

/// Applies the custom hex colors of the command line to `theme`, in the
/// order success, error, warn, info; stops at the first invalid one and
/// returns its error, keeping the colors applied before it.
pub fn apply_custom_colors(theme: &mut Theme, cli: &Cli) -> (r: Result<(), String>)
    ensures
        final(theme).enabled == old(theme).enabled,
        final(theme).emoji == old(theme).emoji,
        r is Ok <==> !bad_color(cli.color_success) && !bad_color(cli.color_error) && !bad_color(
            cli.color_warn,
        ) && !bad_color(cli.color_info),
        final(theme).success == if !bad_color(cli.color_success) {
            chosen_color(cli.color_success, old(theme).success)
        } else {
            old(theme).success
        },
        final(theme).error == if !bad_color(cli.color_success) && !bad_color(cli.color_error) {
            chosen_color(cli.color_error, old(theme).error)
        } else {
            old(theme).error
        },
        final(theme).warn == if !bad_color(cli.color_success) && !bad_color(cli.color_error)
            && !bad_color(cli.color_warn) {
            chosen_color(cli.color_warn, old(theme).warn)
        } else {
            old(theme).warn
        },
        final(theme).info == if !bad_color(cli.color_success) && !bad_color(cli.color_error)
            && !bad_color(cli.color_warn) && !bad_color(cli.color_info) {
            chosen_color(cli.color_info, old(theme).info)
        } else {
            old(theme).info
        },
        r matches Err(e) ==> e@ == (if bad_color(cli.color_success) {
            color_option_error(cli.color_success)
        } else if bad_color(cli.color_error) {
            color_option_error(cli.color_error)
        } else if bad_color(cli.color_warn) {
            color_option_error(cli.color_warn)
        } else {
            color_option_error(cli.color_info)
        }),
{
    theme.success = apply_one(theme.success, &cli.color_success)?;
    theme.error = apply_one(theme.error, &cli.color_error)?;
    theme.warn = apply_one(theme.warn, &cli.color_warn)?;
    theme.info = apply_one(theme.info, &cli.color_info)?;
    Ok(())
}

/// `s` with every leading `0o` removed (`trim_start_matches("0o")`).
pub open spec fn strip_octal_prefix(s: Seq<char>) -> Seq<char>
    decreases s.len(),
{
    if s.len() >= 2 && s[0] == '0' && s[1] == 'o' {
        strip_octal_prefix(s.skip(2))
    } else {
        s
    }
}

/// The permission bits that a `--mode` value names: octal digits after any
/// `0o` prefixes, with an optional `+`, as `u32::from_str_radix(_, 8)`
/// reads them.
pub open spec fn octal_mode(s: Seq<char>) -> Option<int> {
    parse_radix(strip_octal_prefix(s), 8, false, 0, u32::MAX as int)
}

/// The message for a `--mode` value that is not octal.
pub open spec fn mode_error(s: Seq<char>) -> Seq<char> {
    "invalid permission mode '"@ + s + "', expected octal like 0755"@
}

/// Parses the optional `--mode` value as octal permission bits.
pub fn parse_mode(raw: Option<&str>) -> (r: Result<Option<u32>, String>)
    ensures
        raw is None ==> r == Ok::<Option<u32>, String>(None),
        raw matches Some(s) ==> match r {
            Ok(Some(m)) => octal_mode(s@) == Some(m as int),
            Ok(None) => false,
            Err(e) => octal_mode(s@) is None && e@ == mode_error(s@),
        },
{
    match raw {
        None => Ok(None),
        Some(s) => {
            let v = chars_of(s);
            let n = v.len();
            let mut a: usize = 0;
            assert(v@.skip(0) =~= v@);
            while n - a >= 2 && v[a] == '0' && v[a + 1] == 'o'
                invariant
                    n == v@.len(),
                    a <= n,
                    strip_octal_prefix(v@) == strip_octal_prefix(v@.skip(a as int)),
                decreases n - a,
            {
                assert(v@.skip(a as int).skip(2) =~= v@.skip(a + 2));
                a = a + 2;
            }
            let t = copy_range(&v, a, n);
            proof {
                assert(t@ =~= v@.skip(a as int));
                let u = v@.skip(a as int);
                if u.len() >= 2 {
                    assert(u[0] == v@[a as int] && u[1] == v@[a + 1]);
                }
                assert(strip_octal_prefix(v@) == t@);
            }
            match parse_radix_chars(&t, 8, false, 0, 0xFFFF_FFFF) {
                Some(m) => Ok(Some(m as u32)),
                None => {
                    let mut msg = chars_of("invalid permission mode '");
                    append_chars(&mut msg, &v);
                    append_chars(&mut msg, &chars_of("', expected octal like 0755"));
                    Err(string_of(&msg))
                },
            }
        },
    }
}

} // verus!
