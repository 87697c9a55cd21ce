//! Bash-style brace expansion: `{a,b,c}`, nested groups, and ranges like
//! `{1..5}`, `{01..10..2}`, `{a..e}`.
//!
//! `\` is never an escape character here: in this tool it is a path
//! separator, so `dir\{a,b}` expands like `dir/{a,b}`.

use vstd::prelude::*;
use crate::text::{
    append_chars, copy_range, dec, dec_chars, int_chars, int_to_string, parse_radix,
    parse_radix_chars, string_of, string_views, trim, trim_chars, views, chars_of,
    lemma_trim_len, lemma_trim_shape, is_ws, trim_start, trim_end, lemma_trim_start_skip,
    lemma_trim_end_take, lemma_trim_noop,
};

verus! {

/// How a character moves the brace nesting depth.
pub open spec fn delta(c: char) -> int {
    if c == '{' {
        1
    } else if c == '}' {
        -1
    } else {
        0
    }
}

/// Number of `{` minus number of `}` in `t`.
pub open spec fn balance(t: Seq<char>) -> int
    decreases t.len(),
{
    if t.len() == 0 {
        0
    } else {
        balance(t.drop_last()) + delta(t.last())
    }
}

/// The `}` at `j` closes the `{` at `i`: the depth counted from `i` first
/// returns to zero at `j`.
pub open spec fn closes(s: Seq<char>, i: int, j: int) -> bool {
    &&& 0 <= i < j < s.len()
    &&& s[i] == '{'
    &&& balance(s.subrange(i, j + 1)) == 0
    &&& forall|k: int| i < k < j ==> #[trigger] balance(s.subrange(i, k + 1)) > 0
}

pub open spec fn has_close(s: Seq<char>, i: int) -> bool {
    exists|j: int| closes(s, i, j)
}

/// `i` is the first `{` of `s` that has a matching `}`.
pub open spec fn is_outer_open(s: Seq<char>, i: int) -> bool {
    &&& 0 <= i < s.len()
    &&& s[i] == '{'
    &&& has_close(s, i)
    &&& forall|k: int| 0 <= k < i && s[k] == '{' ==> !#[trigger] has_close(s, k)
}

/// The first properly nested `{...}` pair of `s`, as the indexes of its two
/// braces; an unmatched `{` is ordinary text.
pub open spec fn outer_brace(s: Seq<char>) -> Option<(int, int)> {
    if exists|i: int| is_outer_open(s, i) {
        let i = choose|i: int| is_outer_open(s, i);
        Some((i, choose|j: int| closes(s, i, j)))
    } else {
        None
    }
}

pub proof fn lemma_closes_unique(s: Seq<char>, i: int, j1: int, j2: int)
    requires
        closes(s, i, j1),
        closes(s, i, j2),
    ensures
        j1 == j2,
{
    if j1 < j2 {
        assert(balance(s.subrange(i, j1 + 1)) > 0);
    } else if j2 < j1 {
        assert(balance(s.subrange(i, j2 + 1)) > 0);
    }
}

pub proof fn lemma_outer_open_unique(s: Seq<char>, i1: int, i2: int)
    requires
        is_outer_open(s, i1),
        is_outer_open(s, i2),
    ensures
        i1 == i2,
{
    if i1 < i2 {
        assert(!has_close(s, i1));
    } else if i2 < i1 {
        assert(!has_close(s, i2));
    }
}

proof fn lemma_balance_step(s: Seq<char>, i: int, j: int)
    requires
        0 <= i <= j < s.len(),
    ensures
        balance(s.subrange(i, j + 1)) == balance(s.subrange(i, j)) + delta(s[j]),
{
    assert(s.subrange(i, j + 1).drop_last() =~= s.subrange(i, j));
}

/// Finds the first top-level properly nested `{...}` pair; returns the
/// indexes of the opening and closing brace.
fn find_outer_brace(s: &Vec<char>) -> (r: Option<(usize, usize)>)
    ensures
        r matches Some((i, j)) ==> outer_brace(s@) == Some((i as int, j as int)),
        r is None ==> outer_brace(s@) is None,
{
    let n = s.len();
    let mut i: usize = 0;
    while i < n
        invariant
            n == s@.len(),
            i <= n,
            forall|k: int| 0 <= k < i && s@[k] == '{' ==> !#[trigger] has_close(s@, k),
        decreases n - i,
    {
        if s[i] == '{' {
            let mut depth: usize = 1;
            let mut j: usize = i + 1;
            proof {
                lemma_balance_step(s@, i as int, i as int);
                assert(s@.subrange(i as int, i as int).len() == 0);
            }
            while j < n
                invariant
                    n == s@.len(),
                    i < j <= n,
                    s@[i as int] == '{',
                    depth >= 1,
                    depth <= j - i,
                    depth == balance(s@.subrange(i as int, j as int)),
                    forall|k: int| i < k < j ==> #[trigger] balance(s@.subrange(i as int, k + 1)) > 0,
                    forall|k: int| 0 <= k < i && s@[k] == '{' ==> !#[trigger] has_close(s@, k),
                decreases n - j,
            {
                proof {
                    lemma_balance_step(s@, i as int, j as int);
                }
                if s[j] == '{' {
                    depth = depth + 1;
                } else if s[j] == '}' {
                    depth = depth - 1;
                    if depth == 0 {
                        proof {
                            assert(closes(s@, i as int, j as int));
                            assert(is_outer_open(s@, i as int));
                            let ci = choose|c: int| is_outer_open(s@, c);
                            lemma_outer_open_unique(s@, ci, i as int);
                            let cj = choose|c: int| closes(s@, i as int, c);
                            lemma_closes_unique(s@, i as int, cj, j as int);
                        }
                        return Some((i, j));
                    }
                }
                j = j + 1;
            }
            proof {
                assert forall|jj: int| !closes(s@, i as int, jj) by {
                    if closes(s@, i as int, jj) {
                        assert(balance(s@.subrange(i as int, jj + 1)) > 0);
                    }
                }
            }
        }
        i = i + 1;
    }
    proof {
        assert forall|c: int| !is_outer_open(s@, c) by {
            if is_outer_open(s@, c) {
                assert(!has_close(s@, c));
            }
        }
    }
    None
}


/// The pieces of `s` between its commas at brace depth zero (the depth
/// counted from the start of `s`), before trimming.
pub open spec fn split_raw(s: Seq<char>) -> Seq<Seq<char>>
    decreases s.len(),
{
    if s.len() == 0 {
        seq![Seq::empty()]
    } else {
        let prev = split_raw(s.drop_last());
        if s.last() == ',' && balance(s.drop_last()) == 0 {
            prev.push(Seq::empty())
        } else {
            prev.update(prev.len() - 1, prev.last().push(s.last()))
        }
    }
}

/// The top-level comma-separated pieces of `s`, each trimmed of
/// surrounding whitespace.
pub open spec fn split_top(s: Seq<char>) -> Seq<Seq<char>> {
    split_raw(s).map_values(|p: Seq<char>| trim(p))
}

pub proof fn lemma_split_raw_shape(s: Seq<char>)
    ensures
        split_raw(s).len() >= 1,
        forall|k: int| 0 <= k < split_raw(s).len() ==> #[trigger] split_raw(s)[k].len() <= s.len(),
    decreases s.len(),
{
    if s.len() > 0 {
        lemma_split_raw_shape(s.drop_last());
    }
}

/// Splits `s` on the commas at brace depth zero, trimming whitespace around
/// each piece so that `{a, b}` behaves like `{a,b}`.
fn split_top_level(s: &Vec<char>) -> (r: Vec<Vec<char>>)
    ensures
        views(r@) == split_top(s@),
{
    let n = s.len();
    let mut result: Vec<Vec<char>> = Vec::new();
    let mut depth: i128 = 0;
    let mut current: Vec<char> = Vec::new();
    let mut i: usize = 0;
    proof {
        assert(s@.take(0) =~= Seq::<char>::empty());
    }
    while i < n
        invariant
            n == s@.len(),
            i <= n,
            depth == balance(s@.take(i as int)),
            -(i as int) <= depth <= i,
            split_raw(s@.take(i as int)).len() >= 1,
            views(result@) == split_raw(s@.take(i as int)).drop_last().map_values(
                |p: Seq<char>| trim(p),
            ),
            current@ == split_raw(s@.take(i as int)).last(),
        decreases n - i,
    {
        let c = s[i];
        let ghost t = s@.take(i as int);
        let ghost t1 = s@.take(i + 1);
        proof {
            assert(t1.drop_last() =~= t);
            assert(t1.last() == c);
            lemma_split_raw_shape(t);
        }
        if c == '{' {
            depth = depth + 1;
            current.push(c);
        } else if c == '}' {
            depth = depth - 1;
            current.push(c);
        } else if c == ',' && depth == 0 {
            let ghost old_views = views(result@);
            let ghost old_cur = current@;
            let piece = trim_chars(&current);
            result.push(piece);
            current = Vec::new();
            proof {
                let prev = split_raw(t);
                assert(split_raw(t1) == prev.push(Seq::<char>::empty()));
                assert(split_raw(t1).drop_last() =~= prev);
                assert(views(result@) =~= old_views.push(trim(old_cur)));
                assert(views(result@) =~= split_raw(t1).drop_last().map_values(
                    |p: Seq<char>| trim(p),
                ));
            }
        } else {
            current.push(c);
        }
        proof {
            if !(c == ',' && depth == 0) {
                let prev = split_raw(t);
                assert(split_raw(t1) == prev.update(prev.len() - 1, prev.last().push(c)));
                assert(split_raw(t1).drop_last() =~= prev.drop_last());
                assert(views(result@) =~= split_raw(t1).drop_last().map_values(
                    |p: Seq<char>| trim(p),
                ));
            }
        }
        i = i + 1;
    }
    proof {
        assert(s@.take(n as int) =~= s@);
    }
    let ghost old_views = views(result@);
    let piece = trim_chars(&current);
    result.push(piece);
    proof {
        lemma_split_raw_shape(s@);
        let sr = split_raw(s@);
        assert(views(result@) =~= old_views.push(trim(sr.last())));
        assert(old_views == sr.drop_last().map_values(|p: Seq<char>| trim(p)));
        assert(views(result@) =~= split_top(s@));
    }
    result
}

/// `s` split at each non-overlapping `..`, scanning left to right, as
/// `str::split("..")` does.
pub open spec fn split_dots(s: Seq<char>) -> Seq<Seq<char>>
    decreases s.len(),
{
    if s.len() >= 2 && s[0] == '.' && s[1] == '.' {
        seq![Seq::empty()] + split_dots(s.skip(2))
    } else if s.len() == 0 {
        seq![Seq::empty()]
    } else {
        let r = split_dots(s.drop_first());
        r.update(0, seq![s[0]] + r[0])
    }
}

pub proof fn lemma_split_dots_len(s: Seq<char>)
    ensures
        split_dots(s).len() >= 1,
    decreases s.len(),
{
    if s.len() >= 2 && s[0] == '.' && s[1] == '.' {
        lemma_split_dots_len(s.skip(2));
    } else if s.len() > 0 {
        lemma_split_dots_len(s.drop_first());
    }
}

fn split_dots_exec(s: &Vec<char>) -> (r: Vec<Vec<char>>)
    ensures
        views(r@) == split_dots(s@),
{
    let n = s.len();
    let mut done: Vec<Vec<char>> = Vec::new();
    let mut cur: Vec<char> = Vec::new();
    let mut i: usize = 0;
    proof {
        lemma_split_dots_len(s@);
        assert(s@.skip(0) =~= s@);
        let rr = split_dots(s@);
        assert(views(done@) + seq![cur@ + rr[0]] + rr.drop_first() =~= rr);
    }
    while i < n
        invariant
            n == s@.len(),
            i <= n,
            split_dots(s@.skip(i as int)).len() >= 1,
            views(done@) + seq![cur@ + split_dots(s@.skip(i as int))[0]] + split_dots(
                s@.skip(i as int),
            ).drop_first() == split_dots(s@),
        decreases n - i,
    {
        let ghost rest = s@.skip(i as int);
        let ghost r = split_dots(rest);
        if i + 1 < n && s[i] == '.' && s[i + 1] == '.' {
            proof {
                assert(rest.skip(2) =~= s@.skip(i + 2));
                lemma_split_dots_len(s@.skip(i + 2));
            }
            let ghost r2 = split_dots(s@.skip(i + 2));
            let ghost old_done = views(done@);
            let ghost old_cur = cur@;
            done.push(cur);
            cur = Vec::new();
            i = i + 2;
            proof {
                assert(r == seq![Seq::<char>::empty()] + r2);
                assert(views(done@) =~= old_done.push(old_cur));
                assert(views(done@) + seq![cur@ + r2[0]] + r2.drop_first() =~= old_done + seq![
                    old_cur + r[0],
                ] + r.drop_first());
            }
        } else {
            proof {
                assert(rest.drop_first() =~= s@.skip(i + 1));
                lemma_split_dots_len(s@.skip(i + 1));
            }
            let ghost r1 = split_dots(s@.skip(i + 1));
            let ghost old_cur = cur@;
            cur.push(s[i]);
            i = i + 1;
            proof {
                assert(r == r1.update(0, seq![rest[0]] + r1[0]));
                assert(cur@ + r1[0] =~= old_cur + r[0]);
                assert(r1.drop_first() =~= r.drop_first());
            }
        }
    }
    proof {
        assert(s@.skip(n as int) =~= Seq::<char>::empty());
        assert(split_dots(s@.skip(n as int)) =~= seq![Seq::<char>::empty()]);
    }
    let ghost old_done = views(done@);
    let ghost old_cur = cur@;
    done.push(cur);
    proof {
        assert(views(done@) =~= old_done.push(old_cur));
        assert(old_cur + Seq::<char>::empty() =~= old_cur);
        assert(views(done@) =~= split_dots(s@));
    }
    done
}


/// What `str::parse::<i64>` accepts, and the value it gives.
pub open spec fn parse_i64(s: Seq<char>) -> Option<int> {
    parse_radix(s, 10, true, i64::MIN as int, i64::MAX as int)
}

fn parse_i64_chars(s: &Vec<char>) -> (r: Option<i64>)
    ensures
        r matches Some(v) ==> parse_i64(s@) == Some(v as int),
        r is None ==> parse_i64(s@) is None,
{
    match parse_radix_chars(s, 10, true, i64::MIN as i128, i64::MAX as i128) {
        Some(v) => Some(v as i64),
        None => None,
    }
}

/// `s` with every leading `-` removed (`trim_start_matches('-')`).
pub open spec fn strip_minus(s: Seq<char>) -> Seq<char>
    decreases s.len(),
{
    if s.len() > 0 && s[0] == '-' {
        strip_minus(s.drop_first())
    } else {
        s
    }
}

/// The zero-padding width that the start of a numeric range asks for: its
/// digit count when written with a leading zero (as in `01`), else 0.
pub open spec fn pad_width(p: Seq<char>) -> nat {
    let d = strip_minus(p);
    if d.len() > 1 && d[0] == '0' {
        d.len()
    } else {
        0
    }
}

fn pad_width_exec(p: &Vec<char>) -> (w: usize)
    ensures
        w == pad_width(p@),
{
    let n = p.len();
    let mut a: usize = 0;
    assert(p@.skip(0) =~= p@);
    while a < n && p[a] == '-'
        invariant
            n == p@.len(),
            a <= n,
            strip_minus(p@) == strip_minus(p@.skip(a as int)),
        decreases n - a,
    {
        proof {
            assert(p@.skip(a as int).drop_first() =~= p@.skip(a + 1));
        }
        a = a + 1;
    }
    proof {
        if a < n {
            assert(p@.skip(a as int)[0] == p@[a as int]);
        }
    }
    if n - a > 1 && p[a] == '0' {
        n - a
    } else {
        0
    }
}

/// `d` left-padded with zeros to at least `w` characters.
pub open spec fn zero_pad(d: Seq<char>, w: nat) -> Seq<char> {
    if d.len() >= w {
        d
    } else {
        Seq::new((w - d.len()) as nat, |k: int| '0') + d
    }
}

/// How a range value is written: `to_string` when `w` is 0, otherwise the
/// magnitude zero-padded to `w` digits after an optional `-`.
pub open spec fn padded(v: int, w: nat) -> Seq<char> {
    if w == 0 {
        int_to_string(v)
    } else if v < 0 {
        seq!['-'] + zero_pad(dec((-v) as nat), w)
    } else {
        zero_pad(dec(v as nat), w)
    }
}

fn zero_pad_exec(d: &Vec<char>, w: usize) -> (r: Vec<char>)
    ensures
        r@ == zero_pad(d@, w as nat),
{
    let mut r: Vec<char> = Vec::new();
    if d.len() < w {
        let k = w - d.len();
        let mut i: usize = 0;
        while i < k
            invariant
                i <= k,
                r@ == Seq::new(i as nat, |j: int| '0'),
            decreases k - i,
        {
            r.push('0');
            i = i + 1;
            assert(r@ =~= Seq::new(i as nat, |j: int| '0'));
        }
    }
    append_chars(&mut r, d);
    proof {
        if d@.len() >= w {
            assert(r@ =~= d@);
        }
    }
    r
}

fn format_padded(v: i64, width: usize) -> (r: Vec<char>)
    ensures
        r@ == padded(v as int, width as nat),
{
    if width == 0 {
        return int_chars(v);
    }
    if v < 0 {
        let m: i128 = -(v as i128);
        let digits = dec_chars(m as u64);
        let pad = zero_pad_exec(&digits, width);
        let mut r: Vec<char> = Vec::new();
        r.push('-');
        append_chars(&mut r, &pad);
        assert(r@ =~= seq!['-'] + pad@);
        r
    } else {
        let digits = dec_chars(v as u64);
        zero_pad_exec(&digits, width)
    }
}

/// `v, v + step, ...` up to and including `end`.
pub open spec fn range_up(v: int, end: int, step: int) -> Seq<int>
    decreases (if v <= end {
        end - v + 1
    } else {
        0
    }),
{
    if step <= 0 || v > end {
        Seq::empty()
    } else {
        seq![v] + range_up(v + step, end, step)
    }
}

/// `v, v - step, ...` down to and including `end`.
pub open spec fn range_down(v: int, end: int, step: int) -> Seq<int>
    decreases (if v >= end {
        v - end + 1
    } else {
        0
    }),
{
    if step <= 0 || v < end {
        Seq::empty()
    } else {
        seq![v] + range_down(v - step, end, step)
    }
}

/// The values of the numeric range `start..end` with a positive `step`,
/// counting up or down toward `end`.
pub open spec fn numeric_range(start: int, end: int, step: int) -> Seq<int> {
    if start <= end {
        range_up(start, end, step)
    } else {
        range_down(start, end, step)
    }
}

/// The step that a range's third piece gives: its magnitude, or 1 when it is
/// missing, unparsable or zero.
pub open spec fn step_of(parts: Seq<Seq<char>>) -> int {
    if parts.len() == 3 {
        match parse_i64(parts[2]) {
            Some(v) => if v != 0 {
                if v < 0 {
                    -v
                } else {
                    v
                }
            } else {
                1
            },
            None => 1,
        }
    } else {
        1
    }
}

pub open spec fn is_alpha(c: char) -> bool {
    ('a' <= c <= 'z') || ('A' <= c <= 'Z')
}

/// The single-character strings from code `a` to code `b`, in either
/// direction.
pub open spec fn alpha_range(a: int, b: int) -> Seq<Seq<char>> {
    if a <= b {
        Seq::new((b - a + 1) as nat, |k: int| seq![(a + k) as char])
    } else {
        Seq::new((a - b + 1) as nat, |k: int| seq![(a - k) as char])
    }
}

/// The items that the body of a `{...}` group stands for when it is a range
/// (`start..end`, `start..end..step`, or a single-letter `x..y`).
pub open spec fn range_items(body: Seq<char>) -> Option<Seq<Seq<char>>> {
    let parts = split_dots(body);
    if body.contains(',') || parts.len() < 2 || parts.len() > 3 {
        None
    } else if parse_i64(parts[0]) is Some && parse_i64(parts[1]) is Some {
        let start = parse_i64(parts[0]).unwrap();
        let end = parse_i64(parts[1]).unwrap();
        let w = pad_width(parts[0]);
        Some(
            numeric_range(start, end, step_of(parts)).map_values(|v: int| padded(v, w)),
        )
    } else if parts.len() == 2 && parts[0].len() == 1 && parts[1].len() == 1 && is_alpha(
        parts[0][0],
    ) && is_alpha(parts[1][0]) {
        Some(alpha_range(parts[0][0] as int, parts[1][0] as int))
    } else {
        None
    }
}

fn contains_comma(s: &Vec<char>) -> (b: bool)
    ensures
        b == s@.contains(','),
{
    let mut i: usize = 0;
    while i < s.len()
        invariant
            i <= s@.len(),
            forall|k: int| 0 <= k < i ==> s@[k] != ',',
        decreases s.len() - i,
    {
        if s[i] == ',' {
            return true;
        }
        i = i + 1;
    }
    false
}

fn numeric_items(start: i64, end: i64, step: i128, w: usize) -> (out: Vec<Vec<char>>)
    requires
        1 <= step <= 0x8000_0000_0000_0000,
    ensures
        views(out@) == numeric_range(start as int, end as int, step as int).map_values(
            |v: int| padded(v, w as nat),
        ),
{
    let mut out: Vec<Vec<char>> = Vec::new();
    let ghost total = numeric_range(start as int, end as int, step as int);
    let ghost mut done: Seq<int> = Seq::empty();
    let mut v: i128 = start as i128;
    if start <= end {
        while v <= end as i128
            invariant
                1 <= step <= 0x8000_0000_0000_0000,
                start <= end,
                start <= v <= end + step,
                total == range_up(start as int, end as int, step as int),
                total == done + range_up(v as int, end as int, step as int),
                views(out@) == done.map_values(|x: int| padded(x, w as nat)),
            decreases (if v <= end {
                end - v + 1
            } else {
                0
            }),
        {
            let item = format_padded(v as i64, w);
            let ghost old_views = views(out@);
            let ghost iv = item@;
            out.push(item);
            proof {
                let old_done = done;
                done = done.push(v as int);
                assert(done + range_up(v + step, end as int, step as int) =~= old_done
                    + range_up(v as int, end as int, step as int));
                assert(views(out@) =~= old_views.push(iv));
                assert(done.map_values(|x: int| padded(x, w as nat)) =~= old_done.map_values(
                    |x: int| padded(x, w as nat),
                ).push(padded(v as int, w as nat)));
            }
            v = v + step;
        }
    } else {
        while v >= end as i128
            invariant
                1 <= step <= 0x8000_0000_0000_0000,
                start > end,
                end - step <= v <= start,
                total == range_down(start as int, end as int, step as int),
                total == done + range_down(v as int, end as int, step as int),
                views(out@) == done.map_values(|x: int| padded(x, w as nat)),
            decreases (if v >= end {
                v - end + 1
            } else {
                0
            }),
        {
            let item = format_padded(v as i64, w);
            let ghost old_views = views(out@);
            let ghost iv = item@;
            out.push(item);
            proof {
                let old_done = done;
                done = done.push(v as int);
                assert(done + range_down(v - step, end as int, step as int) =~= old_done
                    + range_down(v as int, end as int, step as int));
                assert(views(out@) =~= old_views.push(iv));
                assert(done.map_values(|x: int| padded(x, w as nat)) =~= old_done.map_values(
                    |x: int| padded(x, w as nat),
                ).push(padded(v as int, w as nat)));
            }
            v = v - step;
        }
    }
    proof {
        assert(done =~= total);
    }
    out
}

fn is_ascii_alphabetic(c: char) -> (b: bool)
    ensures
        b == is_alpha(c),
{
    ('a' <= c && c <= 'z') || ('A' <= c && c <= 'Z')
}

fn alpha_items(a: char, b: char) -> (out: Vec<Vec<char>>)
    requires
        is_alpha(a),
        is_alpha(b),
    ensures
        views(out@) == alpha_range(a as int, b as int),
{
    let x: u32 = a as u32;
    let y: u32 = b as u32;
    let mut out: Vec<Vec<char>> = Vec::new();
    if x <= y {
        let mut c: u32 = x;
        while c <= y
            invariant
                x <= c <= y + 1,
                y < 128,
                x == a as int,
                y == b as int,
                views(out@) == Seq::new((c - x) as nat, |k: int| seq![(x + k) as char]),
            decreases y + 1 - c,
        {
            let mut item: Vec<char> = Vec::new();
            let ch = (c as u8) as char;
            assert(ch == (c as int) as char);
            item.push(ch);
            assert(item@ =~= seq![(x + (c - x)) as char]);
            let ghost old_views = views(out@);
            let ghost iv = item@;
            out.push(item);
            c = c + 1;
            assert(views(out@) =~= old_views.push(iv));
            assert(views(out@) =~= Seq::new((c - x) as nat, |k: int| seq![(x + k) as char]));
        }
    } else {
        let mut c: u32 = x;
        while c >= y
            invariant
                y <= x,
                y <= c + 1,
                c <= x,
                y < 128,
                x < 128,
                y >= 65,
                x == a as int,
                y == b as int,
                views(out@) == Seq::new((x - c) as nat, |k: int| seq![(x - k) as char]),
            decreases c + 1 - y,
        {
            let mut item: Vec<char> = Vec::new();
            let ch = (c as u8) as char;
            assert(ch == (c as int) as char);
            item.push(ch);
            assert(item@ =~= seq![(x - (x - c)) as char]);
            let ghost old_views = views(out@);
            let ghost iv = item@;
            out.push(item);
            assert(views(out@) =~= old_views.push(iv));
            if c == y {
                assert(views(out@) =~= Seq::new((x - c + 1) as nat, |k: int| seq![(x - k) as char]));
                return out;
            }
            c = c - 1;
            assert(views(out@) =~= Seq::new((x - c) as nat, |k: int| seq![(x - k) as char]));
        }
    }
    assert(views(out@) =~= alpha_range(a as int, b as int));
    out
}

/// Parses `body` as a range expression (`start..end`, `start..end..step`,
/// or a single-letter `x..y`) and lists its items.
fn try_parse_range(body: &Vec<char>) -> (r: Option<Vec<Vec<char>>>)
    ensures
        r matches Some(items) ==> range_items(body@) == Some(views(items@)),
        r is None ==> range_items(body@) is None,
{
    if contains_comma(body) {
        return None;
    }
    let parts = split_dots_exec(body);
    proof {
        lemma_split_dots_len(body@);
    }
    if parts.len() < 2 || parts.len() > 3 {
        return None;
    }
    let ghost ps = views(parts@);
    assert(ps[0] == parts@[0]@ && ps[1] == parts@[1]@);
    let p0 = parse_i64_chars(&parts[0]);
    let p1 = parse_i64_chars(&parts[1]);
    if let (Some(start), Some(end)) = (p0, p1) {
        let step: i128 = if parts.len() == 3 {
            assert(ps[2] == parts@[2]@);
            match parse_i64_chars(&parts[2]) {
                Some(v) => if v != 0 {
                    if v < 0 {
                        -(v as i128)
                    } else {
                        v as i128
                    }
                } else {
                    1
                },
                None => 1,
            }
        } else {
            1
        };
        let w = pad_width_exec(&parts[0]);
        assert(step == step_of(ps));
        let items = numeric_items(start, end, step, w);
        return Some(items);
    }
    if parts.len() == 2 && parts[0].len() == 1 && parts[1].len() == 1 && is_ascii_alphabetic(
        parts[0][0],
    ) && is_ascii_alphabetic(parts[1][0]) {
        let items = alpha_items(parts[0][0], parts[1][0]);
        return Some(items);
    }
    None
}


/// Every item joined with every suffix: for each item in order, the strings
/// `prefix + item + suffix` for each suffix in order.
pub open spec fn attach(prefix: Seq<char>, items: Seq<Seq<char>>, sufs: Seq<Seq<char>>) -> Seq<
    Seq<char>,
>
    decreases items.len(),
{
    if items.len() == 0 {
        Seq::empty()
    } else {
        attach(prefix, items.drop_last(), sufs) + sufs.map_values(
            |suf: Seq<char>| prefix + items.last() + suf,
        )
    }
}

/// The expansion of `s`: the first `{...}` group is replaced in turn by each
/// of its items (the values of a range, or the expansions of its
/// comma-separated pieces), each followed by every expansion of the text
/// after the group. A group with neither a comma nor a range stays as
/// literal text, and a string without a group expands to itself.
pub open spec fn spec_expand(s: Seq<char>) -> Seq<Seq<char>>
    decreases s.len(), 0nat,
{
    if let Some((o, c)) = outer_brace(s) {
        if 0 <= o < c < s.len() {
            let prefix = s.take(o);
            let body = s.subrange(o + 1, c);
            let suffix = s.skip(c + 1);
            let sufs = spec_expand(suffix);
            match range_items(body) {
                Some(items) => attach(prefix, items, sufs),
                None => {
                    let parts = split_top(body);
                    if parts.len() > 1 {
                        attach(prefix, expand_each(parts, (body.len() + 1) as nat), sufs)
                    } else {
                        sufs.map_values(
                            |suf: Seq<char>| prefix + seq!['{'] + body + seq!['}'] + suf,
                        )
                    }
                },
            }
        } else {
            seq![s]
        }
    } else {
        seq![s]
    }
}

/// The expansions of each of `parts` (all shorter than `bound`), one after
/// the other.
pub open spec fn expand_each(parts: Seq<Seq<char>>, bound: nat) -> Seq<Seq<char>>
    decreases bound, parts.len(),
{
    if parts.len() == 0 {
        Seq::empty()
    } else if parts.last().len() < bound {
        expand_each(parts.drop_last(), bound) + spec_expand(parts.last())
    } else {
        Seq::empty()
    }
}

proof fn lemma_split_top_short(s: Seq<char>)
    ensures
        forall|k: int| 0 <= k < split_top(s).len() ==> #[trigger] split_top(s)[k].len() <= s.len(),
{
    lemma_split_raw_shape(s);
    assert forall|k: int| 0 <= k < split_top(s).len() implies #[trigger] split_top(s)[k].len()
        <= s.len() by {
        lemma_trim_len(split_raw(s)[k]);
    }
}

/// `a + b + c` as a new vector.
fn concat3(a: &Vec<char>, b: &Vec<char>, c: &Vec<char>) -> (r: Vec<char>)
    ensures
        r@ == a@ + b@ + c@,
{
    let mut r: Vec<char> = Vec::new();
    append_chars(&mut r, a);
    append_chars(&mut r, b);
    append_chars(&mut r, c);
    assert(r@ =~= a@ + b@ + c@);
    r
}

fn attach_exec(prefix: &Vec<char>, items: &Vec<Vec<char>>, sufs: &Vec<Vec<char>>) -> (r: Vec<
    Vec<char>,
>)
    ensures
        views(r@) == attach(prefix@, views(items@), views(sufs@)),
{
    let ghost iv = views(items@);
    let ghost sv = views(sufs@);
    let mut out: Vec<Vec<char>> = Vec::new();
    let mut i: usize = 0;
    assert(iv.take(0) =~= Seq::<Seq<char>>::empty());
    while i < items.len()
        invariant
            i <= items@.len(),
            iv == views(items@),
            sv == views(sufs@),
            views(out@) == attach(prefix@, iv.take(i as int), sv),
        decreases items.len() - i,
    {
        let ghost base = views(out@);
        assert(iv[i as int] == items@[i as int]@);
        let mut j: usize = 0;
        assert(sv.take(0).map_values(|suf: Seq<char>| prefix@ + iv[i as int] + suf) =~= Seq::<
            Seq<char>,
        >::empty());
        while j < sufs.len()
            invariant
                i < items@.len(),
                j <= sufs@.len(),
                iv == views(items@),
                sv == views(sufs@),
                views(out@) == base + sv.take(j as int).map_values(
                    |suf: Seq<char>| prefix@ + iv[i as int] + suf,
                ),
            decreases sufs.len() - j,
        {
            let joined = concat3(prefix, &items[i], &sufs[j]);
            let ghost old_views = views(out@);
            let ghost jv = joined@;
            out.push(joined);
            proof {
                assert(sv[j as int] == sufs@[j as int]@);
                assert(views(out@) =~= old_views.push(jv));
                assert(sv.take(j + 1).map_values(|suf: Seq<char>| prefix@ + iv[i as int] + suf)
                    =~= sv.take(j as int).map_values(
                    |suf: Seq<char>| prefix@ + iv[i as int] + suf,
                ).push(prefix@ + iv[i as int] + sv[j as int]));
            }
            j = j + 1;
        }
        proof {
            assert(sv.take(j as int) =~= sv);
            let t1 = iv.take(i + 1);
            assert(t1.drop_last() =~= iv.take(i as int));
            assert(t1.last() == iv[i as int]);
        }
        i = i + 1;
    }
    assert(iv.take(i as int) =~= iv);
    out
}

fn expand_inner(s: &Vec<char>) -> (r: Vec<Vec<char>>)
    ensures
        views(r@) == spec_expand(s@),
    decreases s@.len(),
{
    match find_outer_brace(s) {
        None => {
            let mut out: Vec<Vec<char>> = Vec::new();
            out.push(copy_range(s, 0, s.len()));
            assert(s@.subrange(0, s@.len() as int) =~= s@);
            assert(views(out@) =~= seq![s@]);
            out
        },
        Some((lo, hi)) => {
            proof {
                let i = choose|i: int| is_outer_open(s@, i);
                assert(is_outer_open(s@, i));
                assert(has_close(s@, i));
                let j = choose|j: int| closes(s@, i, j);
                assert(closes(s@, i, j));
                assert(outer_brace(s@) == Some((i, j)));
                assert(lo as int == i && hi as int == j);
                assert(lo < hi && hi < s@.len());
            }
            let prefix = copy_range(s, 0, lo);
            let body = copy_range(s, lo + 1, hi);
            let n = s.len();
            let suffix = copy_range(s, hi + 1, n);
            assert(prefix@ =~= s@.take(lo as int));
            assert(suffix@ =~= s@.skip(hi + 1));
            let sufs = expand_inner(&suffix);
            match try_parse_range(&body) {
                Some(items) => attach_exec(&prefix, &items, &sufs),
                None => {
                    let parts = split_top_level(&body);
                    proof {
                        lemma_split_top_short(body@);
                    }
                    if parts.len() > 1 {
                        let ghost pv = views(parts@);
                        let ghost bound: nat = (body@.len() + 1) as nat;
                        let mut expanded: Vec<Vec<char>> = Vec::new();
                        let mut k: usize = 0;
                        assert(pv.take(0) =~= Seq::<Seq<char>>::empty());
                        while k < parts.len()
                            invariant
                                k <= parts@.len(),
                                pv == views(parts@),
                                pv == split_top(body@),
                                bound == body@.len() + 1,
                                body@.len() < s@.len(),
                                forall|m: int| 0 <= m < pv.len() ==> #[trigger] pv[m].len() <= body@.len(),
                                views(expanded@) == expand_each(pv.take(k as int), bound),
                            decreases parts.len() - k,
                        {
                            assert(pv[k as int] == parts@[k as int]@);
                            assert(pv[k as int].len() <= body@.len());
                            let mut e = expand_inner(&parts[k]);
                            let ghost old_views = views(expanded@);
                            let ghost ev = views(e@);
                            expanded.append(&mut e);
                            proof {
                                assert(views(expanded@) =~= old_views + ev);
                                let t1 = pv.take(k + 1);
                                assert(t1.drop_last() =~= pv.take(k as int));
                                assert(t1.last() == pv[k as int]);
                            }
                            k = k + 1;
                        }
                        assert(pv.take(k as int) =~= pv);
                        attach_exec(&prefix, &expanded, &sufs)
                    } else {
                        let mut out: Vec<Vec<char>> = Vec::new();
                        let mut middle: Vec<char> = Vec::new();
                        middle.push('{');
                        append_chars(&mut middle, &body);
                        middle.push('}');
                        let ghost sv = views(sufs@);
                        let ghost f = |suf: Seq<char>| prefix@ + seq!['{'] + body@ + seq!['}'] + suf;
                        let mut j: usize = 0;
                        assert(sv.take(0).map_values(f) =~= Seq::<Seq<char>>::empty());
                        while j < sufs.len()
                            invariant
                                j <= sufs@.len(),
                                sv == views(sufs@),
                                middle@ == seq!['{'] + body@ + seq!['}'],
                                f == (|suf: Seq<char>| prefix@ + seq!['{'] + body@ + seq!['}']
                                    + suf),
                                views(out@) == sv.take(j as int).map_values(f),
                            decreases sufs.len() - j,
                        {
                            let joined = concat3(&prefix, &middle, &sufs[j]);
                            let ghost old_views = views(out@);
                            let ghost jv = joined@;
                            out.push(joined);
                            proof {
                                assert(sv[j as int] == sufs@[j as int]@);
                                assert(jv =~= f(sv[j as int]));
                                assert(views(out@) =~= old_views.push(jv));
                                assert(sv.take(j + 1).map_values(f) =~= sv.take(
                                    j as int,
                                ).map_values(f).push(f(sv[j as int])));
                            }
                            j = j + 1;
                        }
                        assert(sv.take(j as int) =~= sv);
                        out
                    }
                },
            }
        },
    }
}

/// Expands every brace pattern in `input`, returning each resulting string.
/// A string with no expandable braces comes back unchanged, as the only
/// element.
pub fn expand(input: &str) -> (r: Vec<String>)
    ensures
        string_views(r@) == spec_expand(input@),
{
    let s = chars_of(input);
    let items = expand_inner(&s);
    let mut out: Vec<String> = Vec::new();
    let mut i: usize = 0;
    while i < items.len()
        invariant
            i <= items@.len(),
            string_views(out@) == views(items@).take(i as int),
        decreases items.len() - i,
    {
        let st = string_of(&items[i]);
        let ghost old_views = string_views(out@);
        out.push(st);
        assert(views(items@)[i as int] == items@[i as int]@);
        assert(string_views(out@) =~= old_views.push(items@[i as int]@));
        assert(string_views(out@) =~= views(items@).take(i + 1));
        i = i + 1;
    }
    assert(views(items@).take(i as int) =~= views(items@));
    out
}


proof fn lemma_attach_len(prefix: Seq<char>, items: Seq<Seq<char>>, sufs: Seq<Seq<char>>)
    ensures
        attach(prefix, items, sufs).len() == items.len() * sufs.len(),
    decreases items.len(),
{
    if items.len() > 0 {
        lemma_attach_len(prefix, items.drop_last(), sufs);
        let n = items.len() as int;
        let m = sufs.len() as int;
        assert((n - 1) * m + m == n * m) by (nonlinear_arith);
    }
}

proof fn lemma_range_items_nonempty(body: Seq<char>)
    ensures
        range_items(body) matches Some(items) ==> items.len() >= 1,
{
    if let Some(items) = range_items(body) {
        let parts = split_dots(body);
        if parse_i64(parts[0]) is Some && parse_i64(parts[1]) is Some {
            let start = parse_i64(parts[0]).unwrap();
            let end = parse_i64(parts[1]).unwrap();
            let step = step_of(parts);
            assert(step >= 1);
            if start <= end {
                assert(range_up(start, end, step).len() >= 1);
            } else {
                assert(range_down(start, end, step).len() >= 1);
            }
        }
    }
}

proof fn lemma_expand_nonempty(s: Seq<char>)
    ensures
        spec_expand(s).len() >= 1,
    decreases s.len(), 0nat,
{
    if let Some((o, c)) = outer_brace(s) {
        if 0 <= o < c < s.len() {
            let prefix = s.take(o);
            let body = s.subrange(o + 1, c);
            let suffix = s.skip(c + 1);
            let sufs = spec_expand(suffix);
            lemma_expand_nonempty(suffix);
            match range_items(body) {
                Some(items) => {
                    lemma_range_items_nonempty(body);
                    lemma_attach_len(prefix, items, sufs);
                    assert(items.len() * sufs.len() >= 1) by (nonlinear_arith)
                        requires
                            items.len() >= 1,
                            sufs.len() >= 1,
                    ;
                },
                None => {
                    let parts = split_top(body);
                    if parts.len() > 1 {
                        let bound = (body.len() + 1) as nat;
                        lemma_split_top_short(body);
                        lemma_expand_each_nonempty(parts, bound);
                        let ex = expand_each(parts, bound);
                        lemma_attach_len(prefix, ex, sufs);
                        assert(ex.len() * sufs.len() >= 1) by (nonlinear_arith)
                            requires
                                ex.len() >= 1,
                                sufs.len() >= 1,
                        ;
                    }
                },
            }
        }
    }
}

proof fn lemma_expand_each_nonempty(parts: Seq<Seq<char>>, bound: nat)
    requires
        parts.len() >= 1,
        forall|k: int| 0 <= k < parts.len() ==> #[trigger] parts[k].len() < bound,
    ensures
        expand_each(parts, bound).len() >= 1,
    decreases bound, parts.len(),
{
    assert(parts.last().len() < bound);
    lemma_expand_nonempty(parts.last());
}

/// Expansion never loses a pattern: every input expands to at least one
/// string.
pub proof fn law_expansion_nonempty(s: Seq<char>)
    ensures
        spec_expand(s).len() >= 1,
{
    lemma_expand_nonempty(s);
}

/// A string without any `{` comes back unchanged, as the only element.
pub proof fn law_no_braces_passthrough(s: Seq<char>)
    requires
        !s.contains('{'),
    ensures
        spec_expand(s) == seq![s],
{
    assert forall|i: int| !is_outer_open(s, i) by {
        if is_outer_open(s, i) {
            assert(s.contains(s[i]));
        }
    }
}

/// A string in which no `{` has a matching `}` comes back unchanged, as
/// the only element.
pub proof fn law_unmatched_braces_passthrough(s: Seq<char>)
    requires
        forall|i: int| 0 <= i < s.len() ==> !#[trigger] has_close(s, i),
    ensures
        spec_expand(s) == seq![s],
{
    assert forall|i: int| !is_outer_open(s, i) by {
        if is_outer_open(s, i) {
            assert(!has_close(s, i));
        }
    }
}

/// Groups multiply: when the first group of `s` is a range or a comma
/// list, `s` expands to one string per pair of an item of the group and an
/// expansion of the text after it (`a{1,2}b{x,y}` gives 2 * 2 strings).
pub proof fn law_cartesian_product(s: Seq<char>, o: int, c: int)
    requires
        outer_brace(s) == Some((o, c)),
        0 <= o < c < s.len(),
    ensures
        ({
            let body = s.subrange(o + 1, c);
            let suffix = s.skip(c + 1);
            match range_items(body) {
                Some(items) => spec_expand(s).len() == items.len() * spec_expand(suffix).len(),
                None => split_top(body).len() > 1 ==> spec_expand(s).len() == expand_each(
                    split_top(body),
                    (body.len() + 1) as nat,
                ).len() * spec_expand(suffix).len(),
            }
        }),
{
    let prefix = s.take(o);
    let body = s.subrange(o + 1, c);
    let suffix = s.skip(c + 1);
    let sufs = spec_expand(suffix);
    match range_items(body) {
        Some(items) => lemma_attach_len(prefix, items, sufs),
        None => lemma_attach_len(prefix, expand_each(split_top(body), (body.len() + 1) as nat), sufs),
    }
}

/// Zero-padding is preserved: a range value written with pad width `w`
/// has at least `w` characters.
pub proof fn law_padding_width(v: int, w: nat)
    ensures
        w > 0 ==> padded(v, w).len() >= w,
{
}


/// Spaces around the commas of a group do not matter: every piece of a
/// comma list is trimmed, so `{a, b}` lists the same pieces as `{a,b}`.
pub proof fn law_pieces_trimmed(body: Seq<char>)
    ensures
        forall|k: int|
            0 <= k < split_top(body).len() ==> {
                let p = #[trigger] split_top(body)[k];
                p.len() == 0 || (!is_ws(p[0]) && !is_ws(p.last()))
            },
{
    lemma_split_raw_shape(body);
    assert forall|k: int| 0 <= k < split_top(body).len() implies {
        let p = #[trigger] split_top(body)[k];
        p.len() == 0 || (!is_ws(p[0]) && !is_ws(p.last()))
    } by {
        lemma_trim_shape(split_raw(body)[k]);
    }
}


/// The number of commas of `s` at brace depth zero (the depth counted
/// from the start of `s`).
pub open spec fn top_commas(s: Seq<char>) -> nat
    decreases s.len(),
{
    if s.len() == 0 {
        0
    } else {
        top_commas(s.drop_last()) + if s.last() == ',' && balance(s.drop_last()) == 0 {
            1nat
        } else {
            0nat
        }
    }
}

/// The pieces `ps` joined with `,` between them.
pub open spec fn join_commas(ps: Seq<Seq<char>>) -> Seq<char>
    decreases ps.len(),
{
    if ps.len() == 0 {
        Seq::empty()
    } else if ps.len() == 1 {
        ps[0]
    } else {
        join_commas(ps.drop_last()) + seq![','] + ps.last()
    }
}

/// `t` holds no whitespace at all.
pub open spec fn ws_free(t: Seq<char>) -> bool {
    forall|i: int| 0 <= i < t.len() ==> !is_ws(#[trigger] t[i])
}

/// `t` holds no `{` and no `}`.
pub open spec fn brace_free(t: Seq<char>) -> bool {
    forall|i: int| 0 <= i < t.len() ==> #[trigger] t[i] != '{' && t[i] != '}'
}

/// `t` could be one plain item of a comma list: no brace and no comma.
pub open spec fn plain_item(t: Seq<char>) -> bool {
    brace_free(t) && !t.contains(',')
}

/// `t` is made of whitespace only.
pub open spec fn all_ws(t: Seq<char>) -> bool {
    forall|i: int| 0 <= i < t.len() ==> is_ws(#[trigger] t[i])
}

/// Each item with the whitespace `before[k]` in front of it and `after[k]`
/// behind it.
pub open spec fn spaced(
    before: Seq<Seq<char>>,
    items: Seq<Seq<char>>,
    after: Seq<Seq<char>>,
) -> Seq<Seq<char>> {
    Seq::new(items.len(), |k: int| before[k] + items[k] + after[k])
}

proof fn lemma_join_update(ps: Seq<Seq<char>>, c: char)
    requires
        ps.len() >= 1,
    ensures
        join_commas(ps.update(ps.len() - 1, ps.last().push(c))) == join_commas(ps).push(c),
{
    let qs = ps.update(ps.len() - 1, ps.last().push(c));
    if ps.len() == 1 {
        assert(qs[0] == ps[0].push(c));
    } else {
        assert(qs.drop_last() =~= ps.drop_last());
        assert(join_commas(ps.drop_last()) + seq![','] + ps.last().push(c) =~= (join_commas(
            ps.drop_last(),
        ) + seq![','] + ps.last()).push(c));
    }
}

proof fn lemma_split_raw_count_join(s: Seq<char>)
    ensures
        split_raw(s).len() == 1 + top_commas(s),
        join_commas(split_raw(s)) == s,
    decreases s.len(),
{
    lemma_split_raw_shape(s);
    if s.len() == 0 {
        assert(split_raw(s) =~= seq![Seq::<char>::empty()]);
        assert(s =~= Seq::<char>::empty());
    } else {
        let pre = s.drop_last();
        lemma_split_raw_count_join(pre);
        lemma_split_raw_shape(pre);
        let prev = split_raw(pre);
        if s.last() == ',' && balance(pre) == 0 {
            let qs = prev.push(Seq::<char>::empty());
            assert(qs.drop_last() =~= prev);
            assert(join_commas(prev) + seq![','] + Seq::<char>::empty() =~= s);
        } else {
            lemma_join_update(prev, s.last());
            assert(pre.push(s.last()) =~= s);
        }
    }
}

proof fn lemma_split_raw_ws_free(s: Seq<char>)
    requires
        ws_free(s),
    ensures
        forall|k: int| 0 <= k < split_raw(s).len() ==> ws_free(#[trigger] split_raw(s)[k]),
    decreases s.len(),
{
    lemma_split_raw_shape(s);
    if s.len() > 0 {
        let pre = s.drop_last();
        assert(ws_free(pre)) by {
            assert forall|i: int| 0 <= i < pre.len() implies !is_ws(#[trigger] pre[i]) by {
                assert(pre[i] == s[i]);
            }
        }
        lemma_split_raw_ws_free(pre);
        lemma_split_raw_shape(pre);
        let prev = split_raw(pre);
        assert(!is_ws(s[s.len() - 1]));
        assert forall|k: int| 0 <= k < split_raw(s).len() implies ws_free(
            #[trigger] split_raw(s)[k],
        ) by {
            if !(s.last() == ',' && balance(pre) == 0) && k == prev.len() - 1 {
                let t = prev.last().push(s.last());
                assert(ws_free(prev[k]));
                assert forall|i: int| 0 <= i < t.len() implies !is_ws(#[trigger] t[i]) by {
                    if i < prev.last().len() {
                        assert(t[i] == prev.last()[i]);
                    }
                }
            } else if k < prev.len() {
                assert(split_raw(s)[k] == prev[k]);
            }
        }
    }
}

proof fn lemma_trim_ws_free(t: Seq<char>)
    requires
        ws_free(t),
    ensures
        trim(t) == t,
{
    if t.len() > 0 {
        assert(!is_ws(t[0]) && !is_ws(t[t.len() - 1]));
        lemma_trim_noop(t);
    }
}

/// The top-level split of a comma list: there is one piece more than there
/// are commas at depth zero, and when `s` holds no whitespace, joining the
/// pieces with `,` gives `s` back.
pub proof fn law_split_count_and_join(s: Seq<char>)
    ensures
        split_top(s).len() == 1 + top_commas(s),
        ws_free(s) ==> join_commas(split_top(s)) == s,
{
    lemma_split_raw_count_join(s);
    if ws_free(s) {
        lemma_split_raw_ws_free(s);
        assert forall|k: int| 0 <= k < split_raw(s).len() implies #[trigger] split_top(s)[k]
            == split_raw(s)[k] by {
            lemma_trim_ws_free(split_raw(s)[k]);
        }
        assert(split_top(s) =~= split_raw(s));
    }
}

proof fn lemma_balance_concat(x: Seq<char>, y: Seq<char>)
    ensures
        balance(x + y) == balance(x) + balance(y),
    decreases y.len(),
{
    if y.len() == 0 {
        assert(x + y =~= x);
    } else {
        lemma_balance_concat(x, y.drop_last());
        assert((x + y).drop_last() =~= x + y.drop_last());
        assert((x + y).last() == y.last());
    }
}

proof fn lemma_balance_free(t: Seq<char>)
    requires
        brace_free(t),
    ensures
        balance(t) == 0,
    decreases t.len(),
{
    if t.len() > 0 {
        let pre = t.drop_last();
        assert(brace_free(pre)) by {
            assert forall|i: int| 0 <= i < pre.len() implies #[trigger] pre[i] != '{' && pre[i]
                != '}' by {
                assert(pre[i] == t[i]);
            }
        }
        lemma_balance_free(pre);
        assert(t[t.len() - 1] != '{' && t[t.len() - 1] != '}');
    }
}

proof fn lemma_balance_brace(c: char)
    ensures
        balance(seq![c]) == delta(c),
{
    assert(seq![c].drop_last() =~= Seq::<char>::empty());
    assert(balance(Seq::<char>::empty()) == 0);
    assert(seq![c].last() == c);
}

/// In `p + "{" + b + "}" + q` with no brace in `p` or `b`, the first group
/// is the one written out.
proof fn lemma_outer_brace_at(p: Seq<char>, b: Seq<char>, q: Seq<char>)
    requires
        brace_free(p),
        brace_free(b),
    ensures
        outer_brace(p + seq!['{'] + b + seq!['}'] + q) == Some(
            (p.len() as int, (p.len() + b.len() + 1) as int),
        ),
{
    let s = p + seq!['{'] + b + seq!['}'] + q;
    let o = p.len() as int;
    let c = (p.len() + b.len() + 1) as int;
    assert(s[o] == '{');
    lemma_balance_brace('{');
    lemma_balance_brace('}');
    lemma_balance_free(b);
    assert(s.subrange(o, c + 1) =~= seq!['{'] + b + seq!['}']);
    lemma_balance_concat(seq!['{'], b);
    lemma_balance_concat(seq!['{'] + b, seq!['}']);
    assert forall|k: int| o < k < c implies #[trigger] balance(s.subrange(o, k + 1)) > 0 by {
        let t = b.take(k - o);
        assert(s.subrange(o, k + 1) =~= seq!['{'] + t);
        assert(brace_free(t)) by {
            assert forall|i: int| 0 <= i < t.len() implies #[trigger] t[i] != '{' && t[i]
                != '}' by {
                assert(t[i] == b[i]);
            }
        }
        lemma_balance_free(t);
        lemma_balance_concat(seq!['{'], t);
    }
    assert(closes(s, o, c));
    assert forall|k: int| 0 <= k < o && s[k] == '{' implies !#[trigger] has_close(s, k) by {
        assert(s[k] == p[k]);
    }
    assert(is_outer_open(s, o));
    let i = choose|i: int| is_outer_open(s, i);
    lemma_outer_open_unique(s, i, o);
    let j = choose|j: int| closes(s, o, j);
    lemma_closes_unique(s, o, j, c);
}

proof fn lemma_split_raw_single(y: Seq<char>)
    requires
        !y.contains(','),
    ensures
        split_raw(y) == seq![y],
    decreases y.len(),
{
    if y.len() == 0 {
        assert(y =~= Seq::<char>::empty());
    } else {
        let pre = y.drop_last();
        assert(!pre.contains(',')) by {
            if pre.contains(',') {
                let i = choose|i: int| 0 <= i < pre.len() && pre[i] == ',';
                assert(y[i] == ',');
            }
        }
        lemma_split_raw_single(pre);
        assert(y[y.len() - 1] != ',');
        assert(pre.push(y.last()) =~= y);
    }
}

proof fn lemma_split_raw_append_piece(x: Seq<char>, y: Seq<char>)
    requires
        balance(x) == 0,
        plain_item(y),
    ensures
        split_raw(x + seq![','] + y) == split_raw(x).push(y),
    decreases y.len(),
{
    let xs = x + seq![','];
    assert(xs.drop_last() =~= x);
    assert(xs.last() == ',');
    if y.len() == 0 {
        assert(x + seq![','] + y =~= xs);
        assert(split_raw(xs) == split_raw(x).push(Seq::<char>::empty()));
        assert(y =~= Seq::<char>::empty());
    } else {
        let pre = y.drop_last();
        assert(plain_item(pre)) by {
            assert forall|i: int| 0 <= i < pre.len() implies #[trigger] pre[i] != '{' && pre[i]
                != '}' by {
                assert(pre[i] == y[i]);
            }
            if pre.contains(',') {
                let i = choose|i: int| 0 <= i < pre.len() && pre[i] == ',';
                assert(y[i] == ',');
            }
        }
        lemma_split_raw_append_piece(x, pre);
        let s = x + seq![','] + y;
        assert(s.drop_last() =~= x + seq![','] + pre);
        assert(s.last() == y[y.len() - 1]);
        assert(y[y.len() - 1] != ',');
        assert(pre.push(y.last()) =~= y);
        assert(split_raw(x).push(pre).update(split_raw(x).len() as int, pre.push(y.last()))
            =~= split_raw(x).push(y));
    }
}

proof fn lemma_join_plain(w: Seq<Seq<char>>)
    requires
        w.len() >= 1,
        forall|k: int| 0 <= k < w.len() ==> plain_item(#[trigger] w[k]),
    ensures
        split_raw(join_commas(w)) == w,
        brace_free(join_commas(w)),
    decreases w.len(),
{
    if w.len() == 1 {
        assert(plain_item(w[0]));
        lemma_split_raw_single(w[0]);
        assert(w =~= seq![w[0]]);
    } else {
        let pre = w.drop_last();
        assert forall|k: int| 0 <= k < pre.len() implies plain_item(#[trigger] pre[k]) by {
            assert(pre[k] == w[k]);
        }
        lemma_join_plain(pre);
        let x = join_commas(pre);
        let y = w.last();
        assert(plain_item(w[w.len() - 1]));
        lemma_balance_free(x);
        lemma_split_raw_append_piece(x, y);
        assert(pre.push(y) =~= w);
        let j = x + seq![','] + y;
        assert forall|i: int| 0 <= i < j.len() implies #[trigger] j[i] != '{' && j[i] != '}' by {
            if i < x.len() {
                assert(j[i] == x[i]);
            } else if i > x.len() {
                assert(j[i] == y[i - x.len() - 1]);
            }
        }
    }
}

proof fn lemma_expand_each_plain(items: Seq<Seq<char>>, bound: nat)
    requires
        forall|k: int| 0 <= k < items.len() ==> brace_free(#[trigger] items[k]) && items[k].len()
            < bound,
    ensures
        expand_each(items, bound) == items,
    decreases items.len(),
{
    if items.len() > 0 {
        let pre = items.drop_last();
        assert forall|k: int| 0 <= k < pre.len() implies brace_free(#[trigger] pre[k])
            && pre[k].len() < bound by {
            assert(pre[k] == items[k]);
        }
        lemma_expand_each_plain(pre, bound);
        let l = items.last();
        assert(brace_free(items[items.len() - 1]));
        assert(!l.contains('{')) by {
            if l.contains('{') {
                let i = choose|i: int| 0 <= i < l.len() && l[i] == '{';
                assert(l[i] != '{');
            }
        }
        law_no_braces_passthrough(l);
        assert(pre + seq![l] =~= items);
    }
}

proof fn lemma_attach_one_suffix(p: Seq<char>, items: Seq<Seq<char>>, q: Seq<char>)
    ensures
        attach(p, items, seq![q]) == Seq::new(items.len(), |k: int| p + items[k] + q),
    decreases items.len(),
{
    if items.len() > 0 {
        lemma_attach_one_suffix(p, items.drop_last(), q);
        assert(attach(p, items, seq![q]) =~= Seq::new(items.len(), |k: int| p + items[k] + q));
    } else {
        assert(attach(p, items, seq![q]) =~= Seq::new(items.len(), |k: int| p + items[k] + q));
    }
}

/// A group of plain pieces `w` (at least two) between brace-free `p` and
/// `q` expands to `p + trim(w[k]) + q` for each piece in order.
proof fn lemma_group_expand(p: Seq<char>, w: Seq<Seq<char>>, q: Seq<char>)
    requires
        brace_free(p),
        brace_free(q),
        w.len() >= 2,
        forall|k: int| 0 <= k < w.len() ==> plain_item(#[trigger] w[k]),
    ensures
        spec_expand(p + seq!['{'] + join_commas(w) + seq!['}'] + q) == Seq::new(
            w.len(),
            |k: int| p + trim(w[k]) + q,
        ),
{
    let b = join_commas(w);
    let s = p + seq!['{'] + b + seq!['}'] + q;
    lemma_join_plain(w);
    lemma_outer_brace_at(p, b, q);
    let o = p.len() as int;
    let c = (p.len() + b.len() + 1) as int;
    assert(s.take(o) =~= p);
    assert(s.subrange(o + 1, c) =~= b);
    assert(s.skip(c + 1) =~= q);
    assert(b.contains(',')) by {
        if !b.contains(',') {
            lemma_split_raw_single(b);
        }
    }
    assert(range_items(b) is None);
    let items = split_top(b);
    assert(items.len() == w.len());
    assert(!q.contains('{')) by {
        if q.contains('{') {
            let i = choose|i: int| 0 <= i < q.len() && q[i] == '{';
            assert(q[i] != '{');
        }
    }
    law_no_braces_passthrough(q);
    lemma_split_top_short(b);
    assert forall|k: int| 0 <= k < items.len() implies brace_free(#[trigger] items[k])
        && items[k].len() < b.len() + 1 by {
        assert(items[k] == trim(w[k]));
        assert(plain_item(w[k]));
        lemma_trim_brace_free(w[k]);
    }
    lemma_expand_each_plain(items, (b.len() + 1) as nat);
    lemma_attach_one_suffix(p, items, q);
    assert(Seq::new(items.len(), |k: int| p + items[k] + q) =~= Seq::new(
        w.len(),
        |k: int| p + trim(w[k]) + q,
    ));
}

proof fn lemma_trim_brace_free(t: Seq<char>)
    requires
        brace_free(t),
    ensures
        brace_free(trim(t)),
{
    lemma_trim_sub(t);
    let r = trim(t);
    let a = choose|a: int| 0 <= a <= t.len() - r.len() && #[trigger] t.subrange(a, a + r.len()) == r;
    assert forall|i: int| 0 <= i < r.len() implies #[trigger] r[i] != '{' && r[i] != '}' by {
        assert(r[i] == t[a + i]);
    }
}

/// `trim(t)` is a stretch of `t`.
proof fn lemma_trim_sub(t: Seq<char>)
    ensures
        exists|a: int| 0 <= a <= t.len() - trim(t).len() && #[trigger] t.subrange(a, a + trim(t).len()) == trim(t),
{
    lemma_trim_start_sub(t);
    let u = trim_start(t);
    let a = choose|a: int| 0 <= a <= t.len() - u.len() && #[trigger] t.subrange(a, a + u.len()) == u;
    lemma_trim_end_prefix(u);
    let r = trim(t);
    assert(r == trim_end(u));
    assert(t.subrange(a, a + r.len()) =~= u.take(r.len() as int));
}

proof fn lemma_trim_start_sub(t: Seq<char>)
    ensures
        exists|a: int| 0 <= a <= t.len() - trim_start(t).len() && #[trigger] t.subrange(
            a,
            a + trim_start(t).len(),
        ) == trim_start(t),
    decreases t.len(),
{
    if t.len() > 0 && is_ws(t[0]) {
        lemma_trim_start_sub(t.drop_first());
        let u = trim_start(t.drop_first());
        let a = choose|a: int| 0 <= a <= t.drop_first().len() - u.len() && #[trigger] t.drop_first().subrange(a, a + u.len()) == u;
        assert(t.subrange(a + 1, a + 1 + u.len()) =~= t.drop_first().subrange(a, a + u.len()));
        assert(trim_start(t) == u);
        assert(t.subrange(a + 1, a + 1 + trim_start(t).len()) == trim_start(t));
    } else {
        assert(trim_start(t) == t);
        assert(t.subrange(0, 0 + trim_start(t).len() as int) =~= trim_start(t));
    }
}

proof fn lemma_trim_end_prefix(t: Seq<char>)
    ensures
        trim_end(t).len() <= t.len(),
        trim_end(t) == t.take(trim_end(t).len() as int),
    decreases t.len(),
{
    if t.len() > 0 && is_ws(t.last()) {
        lemma_trim_end_prefix(t.drop_last());
        let r = trim_end(t.drop_last());
        assert(t.drop_last().take(r.len() as int) =~= t.take(r.len() as int));
    } else {
        assert(t.take(t.len() as int) =~= t);
    }
}

/// Whitespace around an already trimmed item goes away when it is trimmed.
proof fn lemma_trim_spaced(l: Seq<char>, a: Seq<char>, r: Seq<char>)
    requires
        all_ws(l),
        all_ws(r),
        trim(a) == a,
    ensures
        trim(l + a + r) == a,
{
    let t = l + a + r;
    assert forall|k: int| 0 <= k < l.len() implies is_ws(#[trigger] t[k]) by {
        assert(t[k] == l[k]);
    }
    lemma_trim_start_skip(t, l.len() as int);
    assert(t.skip(l.len() as int) =~= a + r);
    if a.len() > 0 {
        lemma_trim_shape(a);
        assert(!is_ws((a + r)[0]));
        assert(trim_start(a + r) == a + r);
        assert forall|k: int| a.len() <= k < (a + r).len() implies is_ws(#[trigger] (a + r)[k]) by {
            assert((a + r)[k] == r[k - a.len()]);
        }
        lemma_trim_end_take(a + r, a.len() as int);
        assert((a + r).take(a.len() as int) =~= a);
        assert(!is_ws(a[a.len() - 1]));
    } else {
        assert(a + r =~= r);
        lemma_trim_start_skip(r, r.len() as int);
        assert(r.skip(r.len() as int) =~= Seq::<char>::empty());
        assert(a =~= Seq::<char>::empty());
    }
}

/// Whitespace inside a group does not change its expansion: a comma list
/// of plain, already trimmed items (at least two) between brace-free `p`
/// and `q` expands to `p + item + q` for each item in order, whatever
/// whitespace stands right after `{`, right before `}` and on either side
/// of each comma.
pub proof fn law_whitespace_in_group_ignored(
    p: Seq<char>,
    items: Seq<Seq<char>>,
    q: Seq<char>,
    before: Seq<Seq<char>>,
    after: Seq<Seq<char>>,
)
    requires
        brace_free(p),
        brace_free(q),
        items.len() >= 2,
        before.len() == items.len(),
        after.len() == items.len(),
        forall|k: int| 0 <= k < items.len() ==> plain_item(#[trigger] items[k]) && trim(items[k]) == items[k],
        forall|k: int| 0 <= k < items.len() ==> all_ws(#[trigger] before[k]) && all_ws(after[k]),
    ensures
        spec_expand(p + seq!['{'] + join_commas(spaced(before, items, after)) + seq!['}'] + q)
            == Seq::new(items.len(), |k: int| p + items[k] + q),
        spec_expand(p + seq!['{'] + join_commas(items) + seq!['}'] + q) == Seq::new(
            items.len(),
            |k: int| p + items[k] + q,
        ),
{
    let w = spaced(before, items, after);
    assert forall|k: int| 0 <= k < w.len() implies plain_item(#[trigger] w[k]) by {
        let t = w[k];
        let l = before[k];
        let a = items[k];
        let r = after[k];
        assert(all_ws(l) && all_ws(r) && plain_item(a));
        assert(t == l + a + r);
        assert forall|i: int| 0 <= i < t.len() implies #[trigger] t[i] != '{' && t[i] != '}' && t[i] != ',' by {
            if i < l.len() {
                assert(t[i] == l[i] && is_ws(l[i]));
            } else if i < l.len() + a.len() {
                assert(t[i] == a[i - l.len()]);
                assert(a.contains(a[i - l.len()]));
            } else {
                assert(t[i] == r[i - l.len() - a.len()] && is_ws(r[i - l.len() - a.len()]));
            }
        }
        if t.contains(',') {
            let i = choose|i: int| 0 <= i < t.len() && t[i] == ',';
            assert(t[i] != ',');
        }
    }
    lemma_group_expand(p, w, q);
    assert forall|k: int| 0 <= k < w.len() implies #[trigger] trim(w[k]) == items[k] by {
        lemma_trim_spaced(before[k], items[k], after[k]);
    }
    assert(Seq::new(w.len(), |k: int| p + trim(w[k]) + q) =~= Seq::new(
        items.len(),
        |k: int| p + items[k] + q,
    ));
    lemma_group_expand(p, items, q);
    assert(Seq::new(items.len(), |k: int| p + trim(items[k]) + q) =~= Seq::new(
        items.len(),
        |k: int| p + items[k] + q,
    ));
}


proof fn lemma_range_up_closed(v: int, end: int, step: int)
    requires
        v <= end,
        step > 0,
    ensures
        range_up(v, end, step).len() >= 1,
        forall|k: int| 0 <= k < range_up(v, end, step).len() ==> #[trigger] range_up(v, end, step)[k]
            == v + k * step,
        v + (range_up(v, end, step).len() - 1) * step <= end,
        v + range_up(v, end, step).len() * step > end,
    decreases end - v,
{
    let r = range_up(v, end, step);
    if v + step > end {
        assert(range_up(v + step, end, step) =~= Seq::<int>::empty());
        assert(r =~= seq![v]);
    } else {
        lemma_range_up_closed(v + step, end, step);
        let r2 = range_up(v + step, end, step);
        assert(r == seq![v] + r2);
        let n2 = r2.len() as int;
        assert forall|k: int| 0 <= k < r.len() implies #[trigger] r[k] == v + k * step by {
            if k > 0 {
                assert(r[k] == r2[k - 1]);
                assert(v + step + (k - 1) * step == v + k * step) by (nonlinear_arith);
            }
        }
        assert(v + step + (n2 - 1) * step == v + n2 * step) by (nonlinear_arith);
        assert(v + step + n2 * step == v + (n2 + 1) * step) by (nonlinear_arith);
    }
}

proof fn lemma_range_down_closed(v: int, end: int, step: int)
    requires
        v >= end,
        step > 0,
    ensures
        range_down(v, end, step).len() >= 1,
        forall|k: int| 0 <= k < range_down(v, end, step).len() ==> #[trigger] range_down(v, end, step)[k]
            == v - k * step,
        v - (range_down(v, end, step).len() - 1) * step >= end,
        v - range_down(v, end, step).len() * step < end,
    decreases v - end,
{
    let r = range_down(v, end, step);
    if v - step < end {
        assert(range_down(v - step, end, step) =~= Seq::<int>::empty());
        assert(r =~= seq![v]);
    } else {
        lemma_range_down_closed(v - step, end, step);
        let r2 = range_down(v - step, end, step);
        assert(r == seq![v] + r2);
        let n2 = r2.len() as int;
        assert forall|k: int| 0 <= k < r.len() implies #[trigger] r[k] == v - k * step by {
            if k > 0 {
                assert(r[k] == r2[k - 1]);
                assert(v - step - (k - 1) * step == v - k * step) by (nonlinear_arith);
            }
        }
        assert(v - step - (n2 - 1) * step == v - n2 * step) by (nonlinear_arith);
        assert(v - step - n2 * step == v - (n2 + 1) * step) by (nonlinear_arith);
    }
}

/// A numeric range with a positive step counts from its start toward its
/// end by that step and stops at the last value that does not pass the end:
/// counting up, its values are exactly `start + k * step` for the `k` with
/// `start + k * step <= end` (so `{1..10..2}` gives 1, 3, 5, 7, 9 and the
/// end shows up only when the step reaches it); counting down, exactly
/// `start - k * step` for the `k` with `start - k * step >= end`.
pub proof fn law_range_steps(start: int, end: int, step: int)
    requires
        step > 0,
    ensures
        ({
            let r = numeric_range(start, end, step);
            &&& r.len() >= 1
            &&& r[0] == start
            &&& start <= end ==> {
                &&& forall|k: int| 0 <= k < r.len() ==> #[trigger] r[k] == start + k * step
                &&& start + (r.len() - 1) * step <= end
                &&& start + r.len() * step > end
            }
            &&& start > end ==> {
                &&& forall|k: int| 0 <= k < r.len() ==> #[trigger] r[k] == start - k * step
                &&& start - (r.len() - 1) * step >= end
                &&& start - r.len() * step < end
            }
        }),
{
    let r = numeric_range(start, end, step);
    if start <= end {
        lemma_range_up_closed(start, end, step);
        assert(r[0] == start + 0 * step);
    } else {
        lemma_range_down_closed(start, end, step);
        assert(r[0] == start - 0 * step);
    }
}


/// The items of a numeric range body `start..end` or `start..end..step`:
/// each value, counting from `start` toward `end` by the step's magnitude
/// (1 when it is missing or zero) and stopping at the last value that does
/// not pass `end`, written with the start's zero-padding width.
pub proof fn law_numeric_range_items(body: Seq<char>)
    requires
        range_items(body) is Some,
        parse_i64(split_dots(body)[0]) is Some,
        parse_i64(split_dots(body)[1]) is Some,
    ensures
        ({
            let parts = split_dots(body);
            let items = range_items(body).unwrap();
            let start = parse_i64(parts[0]).unwrap();
            let end = parse_i64(parts[1]).unwrap();
            let st = step_of(parts);
            let w = pad_width(parts[0]);
            &&& st >= 1
            &&& items.len() >= 1
            &&& items[0] == padded(start, w)
            &&& start <= end ==> {
                &&& forall|k: int| 0 <= k < items.len() ==> #[trigger] items[k] == padded(start + k * st, w)
                &&& start + (items.len() - 1) * st <= end
                &&& start + items.len() * st > end
            }
            &&& start > end ==> {
                &&& forall|k: int| 0 <= k < items.len() ==> #[trigger] items[k] == padded(start - k * st, w)
                &&& start - (items.len() - 1) * st >= end
                &&& start - items.len() * st < end
            }
        }),
{
    let parts = split_dots(body);
    let start = parse_i64(parts[0]).unwrap();
    let end = parse_i64(parts[1]).unwrap();
    let st = step_of(parts);
    let w = pad_width(parts[0]);
    assert(st >= 1);
    law_range_steps(start, end, st);
    let r = numeric_range(start, end, st);
    let items = range_items(body).unwrap();
    assert(items == r.map_values(|v: int| padded(v, w)));
    assert(items[0] == padded(r[0], w));
    if start <= end {
        assert forall|k: int| 0 <= k < items.len() implies #[trigger] items[k] == padded(start + k * st, w) by {
            assert(items[k] == padded(r[k], w));
        }
    } else {
        assert forall|k: int| 0 <= k < items.len() implies #[trigger] items[k] == padded(start - k * st, w) by {
            assert(items[k] == padded(r[k], w));
        }
    }
}

} // verus!
