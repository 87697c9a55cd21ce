//! Cross-platform path handling: `/` and `\` are both path separators, on
//! every platform, so a pattern written on Linux works unchanged on Windows
//! and the other way round.

use vstd::prelude::*;
use crate::text::{append_chars, chars_of, copy_range, split_char, split_chars, string_of, views};

verus! {

/// `s` with every `\` replaced by `/`.
pub open spec fn unify(s: Seq<char>) -> Seq<char> {
    s.map_values(|c: char| if c == '\\' { '/' } else { c })
}

/// The non-empty elements of `ps`, in order.
pub open spec fn non_empty(ps: Seq<Seq<char>>) -> Seq<Seq<char>>
    decreases ps.len(),
{
    if ps.len() == 0 {
        Seq::empty()
    } else if ps.last().len() > 0 {
        non_empty(ps.drop_last()).push(ps.last())
    } else {
        non_empty(ps.drop_last())
    }
}

/// The path components of `s`: its non-empty pieces between separators.
pub open spec fn components(s: Seq<char>) -> Seq<Seq<char>> {
    non_empty(split_char(unify(s), '/'))
}

/// A Windows drive prefix such as `C:`.
pub open spec fn is_drive(p: Seq<char>) -> bool {
    p.len() == 2 && (('a' <= p[0] <= 'z') || ('A' <= p[0] <= 'Z')) && p[1] == ':'
}

/// `PathBuf::push` of a relative component onto a path written with `/`:
/// a separator goes in between unless the path is empty or already ends
/// with one.
pub open spec fn path_push(buf: Seq<char>, p: Seq<char>) -> Seq<char> {
    if buf.len() == 0 || buf.last() == '/' {
        buf + p
    } else {
        buf + seq!['/'] + p
    }
}

/// `buf` with each of `parts` pushed in order.
pub open spec fn push_all(buf: Seq<char>, parts: Seq<Seq<char>>) -> Seq<char>
    decreases parts.len(),
{
    if parts.len() == 0 {
        buf
    } else {
        path_push(push_all(buf, parts.drop_last()), parts.last())
    }
}

/// The normalized form of `s`: a leading separator is kept (the path stays
/// absolute), a leading drive such as `C:` becomes `C:/`, and the remaining
/// components are joined by single `/` separators, so that repeated and
/// trailing separators disappear.
pub open spec fn normalized(s: Seq<char>) -> Seq<char> {
    let u = unify(s);
    let comps = components(s);
    let root: Seq<char> = if u.len() > 0 && u[0] == '/' {
        seq!['/']
    } else {
        Seq::empty()
    };
    if comps.len() > 0 && is_drive(comps[0]) {
        push_all(path_push(root, comps[0] + seq!['/']), comps.drop_first())
    } else {
        push_all(root, comps)
    }
}

/// Whether `s` looks absolute under Unix or Windows conventions: it starts
/// with a separator, or with a drive letter and `:`.
pub open spec fn absolute_looking(s: Seq<char>) -> bool {
    let u = unify(s);
    (u.len() > 0 && u[0] == '/') || (u.len() >= 2 && (('a' <= u[0] <= 'z') || ('A' <= u[0]
        <= 'Z')) && u[1] == ':')
}

fn unify_exec(s: &Vec<char>) -> (r: Vec<char>)
    ensures
        r@ == unify(s@),
{
    let mut r: Vec<char> = Vec::new();
    let mut i: usize = 0;
    while i < s.len()
        invariant
            i <= s@.len(),
            r@ == unify(s@.take(i as int)),
        decreases s.len() - i,
    {
        let c = s[i];
        r.push(if c == '\\' {
            '/'
        } else {
            c
        });
        i = i + 1;
        assert(r@ =~= unify(s@.take(i as int)));
    }
    assert(s@.take(i as int) =~= s@);
    r
}

/// The non-empty pieces of the already unified `u` between its `/`.
fn components_exec(u: &Vec<char>) -> (r: Vec<Vec<char>>)
    ensures
        views(r@) == non_empty(split_char(u@, '/')),
{
    let pieces = split_chars(u, '/');
    let ghost pv = views(pieces@);
    let mut r: Vec<Vec<char>> = Vec::new();
    let mut i: usize = 0;
    assert(pv.take(0) =~= Seq::<Seq<char>>::empty());
    while i < pieces.len()
        invariant
            i <= pieces@.len(),
            pv == views(pieces@),
            views(r@) == non_empty(pv.take(i as int)),
        decreases pieces.len() - i,
    {
        let ghost t1 = pv.take(i + 1);
        assert(t1.drop_last() =~= pv.take(i as int));
        assert(t1.last() == pieces@[i as int]@);
        if pieces[i].len() > 0 {
            let ghost old_r = views(r@);
            r.push(copy_range(&pieces[i], 0, pieces[i].len()));
            let ghost pc = pieces@[i as int]@;
            assert(pc.subrange(0, pc.len() as int) =~= pc);
            assert(views(r@) =~= old_r.push(pieces@[i as int]@));
        }
        i = i + 1;
    }
    assert(pv.take(i as int) =~= pv);
    r
}

/// Whether the component `s` is a Windows drive prefix such as `C:`.
fn is_windows_drive(s: &Vec<char>) -> (b: bool)
    ensures
        b == is_drive(s@),
{
    s.len() == 2 && (('a' <= s[0] && s[0] <= 'z') || ('A' <= s[0] && s[0] <= 'Z')) && s[1] == ':'
}

fn path_push_exec(buf: &mut Vec<char>, p: &Vec<char>)
    ensures
        final(buf)@ == path_push(old(buf)@, p@),
{
    if buf.len() > 0 && buf[buf.len() - 1] != '/' {
        buf.push('/');
    }
    append_chars(buf, p);
}

/// `p` starts with a Windows drive prefix: an ASCII letter and `:`.
pub open spec fn has_drive_prefix(p: Seq<char>) -> bool {
    p.len() >= 2 && (('a' <= p[0] <= 'z') || ('A' <= p[0] <= 'Z')) && p[1] == ':'
}

/// `PathBuf::push` of a separator-free component onto a path written with
/// `\`, under Windows rules: a component that starts with a drive prefix
/// replaces the whole path; after a bare drive (`C:`) no separator goes in;
/// otherwise a `\` goes in between unless the path is empty or already
/// ends with one.
pub open spec fn win_push(buf: Seq<char>, p: Seq<char>) -> Seq<char> {
    if has_drive_prefix(p) {
        p
    } else if is_drive(buf) || buf.len() == 0 || buf.last() == '\\' {
        buf + p
    } else {
        buf + seq!['\\'] + p
    }
}

/// `buf` with each of `parts` pushed in order under Windows rules.
pub open spec fn win_push_all(buf: Seq<char>, parts: Seq<Seq<char>>) -> Seq<char>
    decreases parts.len(),
{
    if parts.len() == 0 {
        buf
    } else {
        win_push(win_push_all(buf, parts.drop_last()), parts.last())
    }
}

/// The normalized form of `s` on Windows: the same components as
/// `normalized`, but built with `\` under Windows push rules. A leading
/// separator gives the root `\`; a leading drive such as `C:` gives `C:\`,
/// which replaces that root; a later component with a drive prefix
/// replaces everything before it.
pub open spec fn windows_normalized(s: Seq<char>) -> Seq<char> {
    let u = unify(s);
    let comps = components(s);
    let root: Seq<char> = if u.len() > 0 && u[0] == '/' {
        seq!['\\']
    } else {
        Seq::empty()
    };
    if comps.len() > 0 && is_drive(comps[0]) {
        win_push_all(comps[0] + seq!['\\'], comps.drop_first())
    } else {
        win_push_all(root, comps)
    }
}

/// The normalized form of `s` on a platform whose separator is `sep`: the
/// Windows form for `\`, the Unix form for `/`.
pub open spec fn native_normalized(s: Seq<char>, sep: char) -> Seq<char> {
    if sep == '\\' {
        windows_normalized(s)
    } else {
        normalized(s)
    }
}

fn has_drive_prefix_exec(p: &Vec<char>) -> (b: bool)
    ensures
        b == has_drive_prefix(p@),
{
    p.len() >= 2 && (('a' <= p[0] && p[0] <= 'z') || ('A' <= p[0] && p[0] <= 'Z')) && p[1] == ':'
}

fn win_push_exec(buf: &mut Vec<char>, p: &Vec<char>)
    ensures
        final(buf)@ == win_push(old(buf)@, p@),
{
    if has_drive_prefix_exec(p) {
        buf.clear();
    } else if !is_windows_drive(buf) && buf.len() > 0 && buf[buf.len() - 1] != '\\' {
        buf.push('\\');
    }
    append_chars(buf, p);
    proof {
        if has_drive_prefix(p@) {
            assert(final(buf)@ =~= p@);
        }
    }
}

/// std's `std::path::MAIN_SEPARATOR`: the primary separator of path
/// components on the platform the program runs on.
///
/// Trusted: std documents it as `/` on Unix and `\` on Windows, the
/// platforms this tool is built for.
#[verifier::external_body]
fn main_separator() -> (c: char)
    ensures
        c == '/' || c == '\\',
{
    std::path::MAIN_SEPARATOR
}

/// The normalized form of `input` on the platform whose separator is
/// `sep` (see `native_normalized`).
///
/// Examples with `sep` = `\`: `a/b\c` gives `a\b\c`, `C:\foo/bar` gives
/// `C:\foo\bar`, and `x/C:/y` gives `C:y`.
pub fn normalize_path_with(input: &str, sep: char) -> (r: String)
    requires
        sep == '/' || sep == '\\',
    ensures
        r@ == native_normalized(input@, sep),
{
    if sep == '\\' {
        string_of(&windows_normalized_chars(input))
    } else {
        string_of(&normalized_chars(input))
    }
}

/// Normalizes a path so that `/` and `\` are both separators, and builds
/// it with the platform's separator and path rules: the result keeps a
/// leading root and drive (`C:`), and joins the components, dropping empty
/// ones.
///
/// Examples: `a/b\c` gives `a/b/c` (`a\b\c` on Windows), `C:\foo/bar`
/// gives `C:\foo\bar` on Windows, and `/usr/local/bin` stays absolute.
pub fn normalize_path(input: &str) -> (r: String)
    ensures
        r@ == normalized(input@) || r@ == windows_normalized(input@),
{
    let sep = main_separator();
    normalize_path_with(input, sep)
}

/// The normalized form of `input` under Windows rules.
fn windows_normalized_chars(input: &str) -> (r: Vec<char>)
    ensures
        r@ == windows_normalized(input@),
{
    let s = chars_of(input);
    let u = unify_exec(&s);
    let comps = components_exec(&u);
    let ghost cv = views(comps@);
    assert(cv == components(input@));
    let mut result: Vec<char> = Vec::new();
    let mut start: usize = 0;
    if comps.len() > 0 && is_windows_drive(&comps[0]) {
        append_chars(&mut result, &comps[0]);
        result.push('\\');
        assert(cv[0] == comps@[0]@);
        assert(result@ =~= cv[0] + seq!['\\']);
        start = 1;
    } else {
        if u.len() > 0 && u[0] == '/' {
            result.push('\\');
        }
        proof {
            if cv.len() > 0 {
                assert(cv[0] == comps@[0]@);
                assert(!is_drive(cv[0]));
            }
            assert(result@ =~= (if u@.len() > 0 && u@[0] == '/' {
                seq!['\\']
            } else {
                Seq::<char>::empty()
            }));
        }
    }
    let ghost base = result@;
    let ghost rest = cv.skip(start as int);
    let mut i: usize = start;
    assert(rest.take(0) =~= Seq::<Seq<char>>::empty());
    while i < comps.len()
        invariant
            start <= i <= comps@.len(),
            cv == views(comps@),
            rest == cv.skip(start as int),
            result@ == win_push_all(base, rest.take(i - start)),
        decreases comps.len() - i,
    {
        win_push_exec(&mut result, &comps[i]);
        proof {
            let t1 = rest.take(i - start + 1);
            assert(t1.drop_last() =~= rest.take(i - start));
            assert(t1.last() == comps@[i as int]@);
        }
        i = i + 1;
    }
    proof {
        assert(rest.take(i - start) =~= rest);
        if start == 1 {
            assert(rest =~= cv.drop_first());
        } else {
            assert(rest =~= cv);
        }
    }
    result
}

/// The normalized form of `input`, written with `/`.
fn normalized_chars(input: &str) -> (r: Vec<char>)
    ensures
        r@ == normalized(input@),
{
    let s = chars_of(input);
    let u = unify_exec(&s);
    let comps = components_exec(&u);
    let ghost cv = views(comps@);
    assert(cv == components(input@));
    let mut result: Vec<char> = Vec::new();
    if u.len() > 0 && u[0] == '/' {
        result.push('/');
    }
    let ghost root = result@;
    assert(root =~= (if u@.len() > 0 && u@[0] == '/' {
        seq!['/']
    } else {
        Seq::<char>::empty()
    }));
    let mut start: usize = 0;
    if comps.len() > 0 && is_windows_drive(&comps[0]) {
        let mut drive: Vec<char> = Vec::new();
        append_chars(&mut drive, &comps[0]);
        drive.push('/');
        assert(cv[0] == comps@[0]@);
        assert(is_drive(cv[0]));
        assert(drive@ =~= cv[0] + seq!['/']);
        path_push_exec(&mut result, &drive);
        start = 1;
    } else {
        proof {
            if cv.len() > 0 {
                assert(cv[0] == comps@[0]@);
                assert(!is_drive(cv[0]));
            }
        }
    }
    let ghost base = result@;
    let ghost rest = cv.skip(start as int);
    let mut i: usize = start;
    assert(rest.take(0) =~= Seq::<Seq<char>>::empty());
    while i < comps.len()
        invariant
            start <= i <= comps@.len(),
            cv == views(comps@),
            rest == cv.skip(start as int),
            result@ == push_all(base, rest.take(i - start)),
        decreases comps.len() - i,
    {
        path_push_exec(&mut result, &comps[i]);
        proof {
            let t1 = rest.take(i - start + 1);
            assert(t1.drop_last() =~= rest.take(i - start));
            assert(t1.last() == comps@[i as int]@);
        }
        i = i + 1;
    }
    proof {
        assert(rest.take(i - start) =~= rest);
        if start == 1 {
            assert(rest =~= cv.drop_first());
        } else {
            assert(rest =~= cv);
        }
    }
    result
}

/// Returns true if `input` looks absolute under either Unix or Windows
/// conventions, independent of the host platform.
pub fn looks_absolute(input: &str) -> (b: bool)
    ensures
        b == absolute_looking(input@),
{
    let s = chars_of(input);
    let u = unify_exec(&s);
    if u.len() > 0 && u[0] == '/' {
        return true;
    }
    u.len() >= 2 && (('a' <= u[0] && u[0] <= 'z') || ('A' <= u[0] && u[0] <= 'Z')) && u[1] == ':'
}

/// Using `\` or `/` as the separator makes no difference: two inputs that
/// agree once every `\` is read as `/` normalize to the same path, under
/// Unix and under Windows rules, and look absolute alike.
pub proof fn law_separators_interchangeable(s1: Seq<char>, s2: Seq<char>)
    requires
        unify(s1) == unify(s2),
    ensures
        normalized(s1) == normalized(s2),
        windows_normalized(s1) == windows_normalized(s2),
        absolute_looking(s1) == absolute_looking(s2),
{
}

/// Replacing every `\` by `/` first changes nothing.
pub proof fn law_unified_input_normalizes_alike(s: Seq<char>)
    ensures
        normalized(unify(s)) == normalized(s),
        windows_normalized(unify(s)) == windows_normalized(s),
{
    assert(unify(unify(s)) =~= unify(s));
}


/// `p` holds no separator of either kind.
pub open spec fn separator_free(p: Seq<char>) -> bool {
    forall|i: int| 0 <= i < p.len() ==> #[trigger] p[i] != '/' && p[i] != '\\'
}

/// `r` holds no `\` and never two `/` in a row.
pub open spec fn canonical(r: Seq<char>) -> bool {
    &&& forall|i: int| 0 <= i < r.len() ==> #[trigger] r[i] != '\\'
    &&& forall|i: int| 0 <= i && i + 1 < r.len() ==> !(#[trigger] r[i] == '/' && r[i + 1] == '/')
}

proof fn lemma_split_pieces_free(u: Seq<char>)
    requires
        forall|i: int| 0 <= i < u.len() ==> #[trigger] u[i] != '\\',
    ensures
        forall|k: int| 0 <= k < split_char(u, '/').len() ==> separator_free(
            #[trigger] split_char(u, '/')[k],
        ),
    decreases u.len(),
{
    crate::text::lemma_split_char_len(u, '/');
    if u.len() > 0 {
        let pre = u.drop_last();
        assert forall|i: int| 0 <= i < pre.len() implies #[trigger] pre[i] != '\\' by {
            assert(pre[i] == u[i]);
        }
        lemma_split_pieces_free(pre);
        crate::text::lemma_split_char_len(pre, '/');
        let prev = split_char(pre, '/');
        if u.last() != '/' {
            let lp = prev.last();
            assert(separator_free(lp));
            assert(separator_free(lp.push(u.last()))) by {
                assert forall|i: int| 0 <= i < lp.push(u.last()).len() implies #[trigger] lp.push(
                    u.last(),
                )[i] != '/' && lp.push(u.last())[i] != '\\' by {
                    if i < lp.len() {
                        assert(lp.push(u.last())[i] == lp[i]);
                    }
                }
            }
        }
        assert forall|k: int| 0 <= k < split_char(u, '/').len() implies separator_free(
            #[trigger] split_char(u, '/')[k],
        ) by {
            if u.last() != '/' && k < prev.len() - 1 {
                assert(split_char(u, '/')[k] == prev[k]);
            }
            if u.last() == '/' && k < prev.len() {
                assert(split_char(u, '/')[k] == prev[k]);
            }
        }
    }
}

proof fn lemma_non_empty_free(ps: Seq<Seq<char>>)
    requires
        forall|k: int| 0 <= k < ps.len() ==> separator_free(#[trigger] ps[k]),
    ensures
        forall|k: int| 0 <= k < non_empty(ps).len() ==> separator_free(#[trigger] non_empty(ps)[k])
            && non_empty(ps)[k].len() > 0,
    decreases ps.len(),
{
    if ps.len() > 0 {
        let pre = ps.drop_last();
        assert forall|k: int| 0 <= k < pre.len() implies separator_free(#[trigger] pre[k]) by {
            assert(pre[k] == ps[k]);
        }
        lemma_non_empty_free(pre);
        assert(separator_free(ps[ps.len() - 1]));
        let r0 = non_empty(pre);
        assert forall|k: int| 0 <= k < non_empty(ps).len() implies separator_free(
            #[trigger] non_empty(ps)[k],
        ) && non_empty(ps)[k].len() > 0 by {
            if k < r0.len() {
                assert(non_empty(ps)[k] == r0[k]);
            }
        }
    }
}

proof fn lemma_push_canonical(buf: Seq<char>, p: Seq<char>)
    requires
        canonical(buf),
        p.len() > 0,
        p[0] != '/',
        canonical(p),
    ensures
        canonical(path_push(buf, p)),
        path_push(buf, p).last() == p.last(),
{
    let r = path_push(buf, p);
    if buf.len() == 0 || buf.last() == '/' {
        assert forall|i: int| 0 <= i < r.len() implies #[trigger] r[i] != '\\' by {
            if i < buf.len() {
                assert(r[i] == buf[i]);
            } else {
                assert(r[i] == p[i - buf.len()]);
            }
        }
        assert forall|i: int| 0 <= i && i + 1 < r.len() implies !(#[trigger] r[i] == '/' && r[i
            + 1] == '/') by {
            if i + 1 < buf.len() {
                assert(r[i] == buf[i] && r[i + 1] == buf[i + 1]);
            } else if i + 1 == buf.len() {
                assert(r[i + 1] == p[0]);
            } else {
                assert(r[i] == p[i - buf.len()] && r[i + 1] == p[i + 1 - buf.len()]);
            }
        }
    } else {
        assert forall|i: int| 0 <= i < r.len() implies #[trigger] r[i] != '\\' by {
            if i < buf.len() {
                assert(r[i] == buf[i]);
            } else if i > buf.len() {
                assert(r[i] == p[i - buf.len() - 1]);
            }
        }
        assert forall|i: int| 0 <= i && i + 1 < r.len() implies !(#[trigger] r[i] == '/' && r[i
            + 1] == '/') by {
            if i + 1 < buf.len() {
                assert(r[i] == buf[i] && r[i + 1] == buf[i + 1]);
            } else if i + 1 == buf.len() {
                assert(r[i] == buf.last());
            } else if i == buf.len() {
                assert(r[i + 1] == p[0]);
            } else {
                assert(r[i] == p[i - buf.len() - 1] && r[i + 1] == p[i - buf.len()]);
            }
        }
    }
}

proof fn lemma_push_all_canonical(buf: Seq<char>, parts: Seq<Seq<char>>)
    requires
        canonical(buf),
        forall|k: int| 0 <= k < parts.len() ==> separator_free(#[trigger] parts[k]) && parts[k].len()
            > 0,
    ensures
        canonical(push_all(buf, parts)),
    decreases parts.len(),
{
    if parts.len() > 0 {
        let pre = parts.drop_last();
        assert forall|k: int| 0 <= k < pre.len() implies separator_free(#[trigger] pre[k])
            && pre[k].len() > 0 by {
            assert(pre[k] == parts[k]);
        }
        lemma_push_all_canonical(buf, pre);
        let p = parts.last();
        assert(separator_free(p));
        lemma_push_canonical(push_all(buf, pre), p);
    }
}

/// Normalized paths are canonical: they use only `/` as the separator and
/// never hold an empty component (two separators in a row).
pub proof fn law_normalized_canonical(s: Seq<char>)
    ensures
        canonical(normalized(s)),
{
    let u = unify(s);
    assert forall|i: int| 0 <= i < u.len() implies #[trigger] u[i] != '\\' by {}
    lemma_split_pieces_free(u);
    lemma_non_empty_free(split_char(u, '/'));
    let comps = components(s);
    let root: Seq<char> = if u.len() > 0 && u[0] == '/' {
        seq!['/']
    } else {
        Seq::empty()
    };
    assert(canonical(root));
    if comps.len() > 0 && is_drive(comps[0]) {
        let drive = comps[0] + seq!['/'];
        assert(canonical(drive)) by {
            assert(separator_free(comps[0]));
            assert forall|i: int| 0 <= i && i + 1 < drive.len() implies !(#[trigger] drive[i]
                == '/' && drive[i + 1] == '/') by {
                assert(drive[i] == comps[0][i]);
            }
            assert forall|i: int| 0 <= i < drive.len() implies #[trigger] drive[i] != '\\' by {
                if i < comps[0].len() {
                    assert(drive[i] == comps[0][i]);
                }
            }
        }
        lemma_push_canonical(root, drive);
        let rest = comps.drop_first();
        assert forall|k: int| 0 <= k < rest.len() implies separator_free(#[trigger] rest[k])
            && rest[k].len() > 0 by {
            assert(rest[k] == comps[k + 1]);
        }
        lemma_push_all_canonical(path_push(root, drive), rest);
    } else {
        lemma_push_all_canonical(root, comps);
    }
}


/// Separators do not trail: a normalized path ends with `/` only when it is
/// the root `/` itself or ends with a bare drive (`C:/`).
pub proof fn law_no_trailing_separator(s: Seq<char>)
    ensures
        ({
            let r = normalized(s);
            r.len() > 0 && r.last() == '/' ==> r == seq!['/'] || (r.len() >= 2 && r[r.len() - 2]
                == ':')
        }),
{
    let u = unify(s);
    assert forall|i: int| 0 <= i < u.len() implies #[trigger] u[i] != '\\' by {}
    lemma_split_pieces_free(u);
    lemma_non_empty_free(split_char(u, '/'));
    let comps = components(s);
    let root: Seq<char> = if u.len() > 0 && u[0] == '/' {
        seq!['/']
    } else {
        Seq::empty()
    };
    let r = normalized(s);
    if comps.len() > 0 && is_drive(comps[0]) {
        let drive = comps[0] + seq!['/'];
        let base = path_push(root, drive);
        let rest = comps.drop_first();
        if rest.len() > 0 {
            let last = rest.last();
            assert(last == comps[comps.len() - 1]);
            assert(separator_free(last) && last.len() > 0);
            assert(r == path_push(push_all(base, rest.drop_last()), last));
            assert(r.last() == last.last());
            assert(last.last() == last[last.len() - 1]);
        } else {
            assert(r == base);
            assert(base == root + drive);
            assert(base[base.len() - 2] == drive[1]);
        }
    } else if comps.len() > 0 {
        let last = comps.last();
        assert(separator_free(last) && last.len() > 0);
        assert(r == path_push(push_all(root, comps.drop_last()), last));
        assert(r.last() == last.last());
        assert(last.last() == last[last.len() - 1]);
    } else {
        assert(r == root);
    }
}


proof fn lemma_split_concat(a: Seq<char>, b: Seq<char>)
    requires
        a.len() > 0,
        a.last() == '/',
    ensures
        split_char(a + b, '/') == split_char(a, '/').drop_last() + split_char(b, '/'),
    decreases b.len(),
{
    crate::text::lemma_split_char_len(a, '/');
    if b.len() == 0 {
        assert(a + b =~= a);
        assert(a.drop_last() + seq!['/'] =~= a);
        crate::text::lemma_split_char_len(a.drop_last(), '/');
        assert(split_char(a, '/') == split_char(a.drop_last(), '/').push(Seq::empty()));
        assert(split_char(a, '/').drop_last() + split_char(b, '/') =~= split_char(a, '/'));
    } else {
        let b1 = b.drop_last();
        lemma_split_concat(a, b1);
        crate::text::lemma_split_char_len(b1, '/');
        assert((a + b).drop_last() =~= a + b1);
        assert((a + b).last() == b.last());
        let pre = split_char(a, '/').drop_last();
        let sb1 = split_char(b1, '/');
        if b.last() == '/' {
            assert(split_char(a + b, '/') =~= (pre + sb1).push(Seq::empty()));
            assert((pre + sb1).push(Seq::empty()) =~= pre + sb1.push(Seq::empty()));
        } else {
            let c = b.last();
            let whole = pre + sb1;
            assert(whole.last() == sb1.last());
            assert(whole.update(whole.len() - 1, whole.last().push(c)) =~= pre + sb1.update(
                sb1.len() - 1,
                sb1.last().push(c),
            ));
        }
    }
}

proof fn lemma_non_empty_single(p: Seq<char>)
    ensures
        non_empty(seq![p]) == if p.len() > 0 {
            seq![p]
        } else {
            Seq::<Seq<char>>::empty()
        },
{
    let one = seq![p];
    assert(one.drop_last() =~= Seq::<Seq<char>>::empty());
    assert(one.last() == p);
    assert(non_empty(Seq::<Seq<char>>::empty()) =~= Seq::<Seq<char>>::empty());
    if p.len() > 0 {
        assert(Seq::<Seq<char>>::empty().push(p) =~= one);
    }
}

proof fn lemma_push_all_single(buf: Seq<char>, p: Seq<char>)
    ensures
        push_all(buf, seq![p]) == path_push(buf, p),
{
    let one = seq![p];
    assert(one.drop_last() =~= Seq::<Seq<char>>::empty());
    assert(one.last() == p);
    assert(push_all(buf, one.drop_last()) == buf);
}

proof fn lemma_non_empty_concat(x: Seq<Seq<char>>, y: Seq<Seq<char>>)
    ensures
        non_empty(x + y) == non_empty(x) + non_empty(y),
    decreases y.len(),
{
    if y.len() == 0 {
        assert(x + y =~= x);
        assert(non_empty(x) + non_empty(y) =~= non_empty(x));
    } else {
        lemma_non_empty_concat(x, y.drop_last());
        assert((x + y).drop_last() =~= x + y.drop_last());
        assert((x + y).last() == y.last());
        if y.last().len() > 0 {
            assert(non_empty(x) + non_empty(y.drop_last()).push(y.last()) =~= (non_empty(x)
                + non_empty(y.drop_last())).push(y.last()));
        }
    }
}

proof fn lemma_split_free(p: Seq<char>)
    requires
        separator_free(p),
    ensures
        split_char(p, '/') == seq![p],
    decreases p.len(),
{
    if p.len() > 0 {
        assert(separator_free(p.drop_last())) by {
            assert forall|i: int| 0 <= i < p.drop_last().len() implies #[trigger] p.drop_last()[i]
                != '/' && p.drop_last()[i] != '\\' by {
                assert(p.drop_last()[i] == p[i]);
            }
        }
        lemma_split_free(p.drop_last());
        assert(p[p.len() - 1] != '/');
        assert(p.drop_last().push(p.last()) =~= p);
    } else {
        assert(p =~= Seq::<char>::empty());
    }
}

/// The components of a path built by pushing separator-free components
/// onto `buf` are those of `buf` followed by the pushed ones.
proof fn lemma_push_all_components(buf: Seq<char>, parts: Seq<Seq<char>>)
    requires
        forall|k: int| 0 <= k < parts.len() ==> separator_free(#[trigger] parts[k]) && parts[k].len()
            > 0,
    ensures
        non_empty(split_char(push_all(buf, parts), '/')) == non_empty(split_char(buf, '/')) + parts,
    decreases parts.len(),
{
    if parts.len() == 0 {
        assert(non_empty(split_char(buf, '/')) + parts =~= non_empty(split_char(buf, '/')));
    } else {
        let pre = parts.drop_last();
        assert forall|k: int| 0 <= k < pre.len() implies separator_free(#[trigger] pre[k])
            && pre[k].len() > 0 by {
            assert(pre[k] == parts[k]);
        }
        lemma_push_all_components(buf, pre);
        let x = push_all(buf, pre);
        let p = parts.last();
        assert(separator_free(p) && p.len() > 0);
        lemma_split_free(p);
        let nx = non_empty(split_char(x, '/'));
        if x.len() == 0 {
            assert(x + p =~= p);
            assert(nx =~= Seq::<Seq<char>>::empty()) by {
                assert(x =~= Seq::<char>::empty());
                assert(split_char(x, '/') =~= seq![Seq::<char>::empty()]);
                lemma_non_empty_single(Seq::<char>::empty());
            }
            lemma_non_empty_single(p);
        } else {
            let a = if x.last() == '/' {
                x
            } else {
                x + seq!['/']
            };
            assert(path_push(x, p) =~= a + p);
            lemma_split_concat(a, p);
            crate::text::lemma_split_char_len(a, '/');
            lemma_non_empty_concat(split_char(a, '/').drop_last(), split_char(p, '/'));
            lemma_non_empty_single(p);
            if x.last() != '/' {
                assert(a.drop_last() =~= x);
                assert(split_char(a, '/') == split_char(x, '/').push(Seq::empty()));
                assert(split_char(a, '/').drop_last() =~= split_char(x, '/'));
            } else {
                assert(a.drop_last().push('/') =~= a);
                crate::text::lemma_split_char_len(a.drop_last(), '/');
                let sa = split_char(a, '/');
                assert(sa == split_char(a.drop_last(), '/').push(Seq::empty()));
                assert(sa.drop_last().push(sa.last()) =~= sa);
                assert(non_empty(sa) == non_empty(sa.drop_last()));
            }
        }
        assert(nx + parts =~= (nx + pre).push(p));
    }
}

proof fn lemma_push_all_prefix(buf: Seq<char>, parts: Seq<Seq<char>>)
    ensures
        push_all(buf, parts).len() >= buf.len(),
        push_all(buf, parts).take(buf.len() as int) == buf,
    decreases parts.len(),
{
    if parts.len() == 0 {
        assert(buf.take(buf.len() as int) =~= buf);
    } else {
        lemma_push_all_prefix(buf, parts.drop_last());
        let x = push_all(buf, parts.drop_last());
        let r = path_push(x, parts.last());
        assert(r.take(buf.len() as int) =~= x.take(buf.len() as int));
    }
}

proof fn lemma_push_all_first(parts: Seq<Seq<char>>)
    requires
        parts.len() > 0,
        parts[0].len() > 0,
    ensures
        push_all(Seq::empty(), parts).len() > 0,
        push_all(Seq::empty(), parts)[0] == parts[0][0],
    decreases parts.len(),
{
    if parts.len() == 1 {
        assert(parts =~= seq![parts[0]]);
        lemma_push_all_single(Seq::empty(), parts[0]);
        assert(path_push(Seq::empty(), parts[0]) =~= parts[0]);
    } else {
        let pre = parts.drop_last();
        assert(pre[0] == parts[0]);
        lemma_push_all_first(pre);
        let x = push_all(Seq::empty(), pre);
        assert(path_push(x, parts.last())[0] == x[0]);
    }
}

/// Normalizing is idempotent: a normalized path normalizes to itself.
pub proof fn law_normalize_idempotent(s: Seq<char>)
    ensures
        normalized(normalized(s)) == normalized(s),
{
    let u = unify(s);
    assert forall|i: int| 0 <= i < u.len() implies #[trigger] u[i] != '\\' by {}
    lemma_split_pieces_free(u);
    lemma_non_empty_free(split_char(u, '/'));
    let comps = components(s);
    let abs = u.len() > 0 && u[0] == '/';
    let root: Seq<char> = if abs {
        seq!['/']
    } else {
        Seq::empty()
    };
    let r = normalized(s);
    law_normalized_canonical(s);
    assert(unify(r) =~= r);
    // The components of the root alone.
    assert(non_empty(split_char(root, '/')) =~= Seq::<Seq<char>>::empty()) by {
        lemma_non_empty_single(Seq::<char>::empty());
        if abs {
            assert(root.drop_last() =~= Seq::<char>::empty());
            assert(split_char(root.drop_last(), '/') =~= seq![Seq::<char>::empty()]);
            let e = seq![Seq::<char>::empty(), Seq::<char>::empty()];
            assert(split_char(root, '/') =~= e);
            assert(e.drop_last() =~= seq![Seq::<char>::empty()]);
            assert(e.last() == Seq::<char>::empty());
            assert(non_empty(e) == non_empty(e.drop_last()));
        } else {
            assert(root =~= Seq::<char>::empty());
            assert(split_char(root, '/') =~= seq![Seq::<char>::empty()]);
        }
    }
    if comps.len() > 0 && is_drive(comps[0]) {
        let drive = comps[0] + seq!['/'];
        let base = path_push(root, drive);
        let rest = comps.drop_first();
        assert forall|k: int| 0 <= k < rest.len() implies separator_free(#[trigger] rest[k])
            && rest[k].len() > 0 by {
            assert(rest[k] == comps[k + 1]);
        }
        assert(base =~= root + drive);
        assert(separator_free(comps[0]));
        // the components of the base are the drive
        assert(non_empty(split_char(base, '/')) =~= seq![comps[0]]) by {
            let one = seq![comps[0]];
            assert forall|k: int| 0 <= k < one.len() implies separator_free(#[trigger] one[k])
                && one[k].len() > 0 by {
                assert(one[k] == comps[0]);
            }
            lemma_push_all_components(root, one);
            lemma_push_all_single(root, comps[0]);
            let rc = root + comps[0];
            assert(path_push(root, comps[0]) == rc);
            assert(Seq::<Seq<char>>::empty() + one =~= one);
            assert(non_empty(split_char(rc, '/')) == one);
            assert(base =~= rc + seq!['/']);
            assert(base.drop_last() =~= rc);
            assert(base.last() == '/');
            crate::text::lemma_split_char_len(rc, '/');
            let sb = split_char(base, '/');
            assert(sb == split_char(rc, '/').push(Seq::empty()));
            assert(sb.drop_last() =~= split_char(rc, '/'));
            assert(sb.last() == Seq::<char>::empty());
            assert(non_empty(sb) == non_empty(sb.drop_last()));
        }
        lemma_push_all_components(base, rest);
        assert(components(r) =~= seq![comps[0]] + rest);
        assert(seq![comps[0]] + rest =~= comps);
        lemma_push_all_prefix(base, rest);
        if abs {
            assert(r[0] == base[0]);
        } else {
            assert(r[0] == base[0]);
            assert(base[0] == comps[0][0]);
        }
    } else {
        lemma_push_all_components(root, comps);
        assert(components(r) =~= comps);
        lemma_push_all_prefix(root, comps);
        if !abs && comps.len() > 0 {
            assert(root =~= Seq::<char>::empty());
            lemma_push_all_first(comps);
            assert(separator_free(comps[0]));
        }
    }
}


/// `b` written with `\` in place of each `/`.
pub open spec fn win_of(b: Seq<char>) -> Seq<char> {
    b.map_values(|c: char| if c == '/' { '\\' } else { c })
}

/// A start that the Windows build can have: nothing, the root, or a drive
/// with its separator (written here with `/`).
pub open spec fn base_ok(b: Seq<char>) -> bool {
    b == Seq::<char>::empty() || b == seq!['/'] || (b.len() == 3 && is_drive(b.take(2)) && b[2]
        == '/')
}

/// The Windows build of `win_of(b)` followed by `parts` has no later
/// replacement: every part is a plain component, none but a first part
/// after an empty start has a drive prefix, and a first part is no bare
/// drive.
pub open spec fn win_shape(b: Seq<char>, parts: Seq<Seq<char>>) -> bool {
    &&& base_ok(b)
    &&& forall|k: int| 0 <= k < parts.len() ==> separator_free(#[trigger] parts[k]) && parts[k].len() > 0
    &&& forall|k: int| 0 <= k < parts.len() && (k > 0 || b.len() > 0) ==> !has_drive_prefix(#[trigger] parts[k])
    &&& parts.len() > 0 ==> !is_drive(parts[0])
}

proof fn lemma_win_shape_prefix(b: Seq<char>, parts: Seq<Seq<char>>)
    requires
        win_shape(b, parts),
        parts.len() > 0,
    ensures
        win_shape(b, parts.drop_last()),
{
    let pre = parts.drop_last();
    assert forall|k: int| 0 <= k < pre.len() implies separator_free(#[trigger] pre[k]) && pre[k].len() > 0 by {
        assert(pre[k] == parts[k]);
    }
    assert forall|k: int| 0 <= k < pre.len() && (k > 0 || b.len() > 0) implies !has_drive_prefix(#[trigger] pre[k]) by {
        assert(pre[k] == parts[k]);
    }
    if pre.len() > 0 {
        assert(pre[0] == parts[0]);
    }
}

/// Under `win_shape`, the Windows build holds no `/`, is no bare drive, and
/// reads, once `\` is taken as `/`, as the Unix build of the same pieces.
proof fn lemma_win_build_unified(b: Seq<char>, parts: Seq<Seq<char>>)
    requires
        win_shape(b, parts),
    ensures
        unify(win_push_all(win_of(b), parts)) == push_all(b, parts),
        forall|i: int| 0 <= i < win_push_all(win_of(b), parts).len() ==> #[trigger] win_push_all(win_of(b), parts)[i] != '/',
        !is_drive(win_push_all(win_of(b), parts)),
    decreases parts.len(),
{
    if parts.len() == 0 {
        assert(unify(win_of(b)) =~= b);
    } else {
        let pre = parts.drop_last();
        lemma_win_shape_prefix(b, parts);
        lemma_win_build_unified(b, pre);
        let x = win_push_all(win_of(b), pre);
        let p = parts.last();
        assert(p == parts[parts.len() - 1]);
        assert(separator_free(p) && p.len() > 0);
        let y = win_push(x, p);
        assert(y == win_push_all(win_of(b), parts));
        if has_drive_prefix(p) {
            assert(b.len() == 0 && pre.len() == 0);
            assert(win_of(b) =~= Seq::<char>::empty());
            assert(y == p);
            assert(unify(p) =~= p);
            assert(push_all(b, pre) == b);
            assert(path_push(b, p) =~= p);
            assert(parts[0] == p);
        } else {
            let ux = unify(x);
            assert(ux.len() == x.len());
            if x.len() == 0 || x.last() == '\\' {
                assert(y == x + p);
                assert(unify(y) =~= ux + p);
                if x.len() > 0 {
                    assert(ux.last() == '/');
                }
                assert(path_push(ux, p) =~= ux + p);
            } else {
                assert(y == x + seq!['\\'] + p);
                assert(unify(y) =~= ux + seq!['/'] + p);
                assert(x[x.len() - 1] != '/');
                assert(ux.last() != '/');
                assert(path_push(ux, p) =~= ux + seq!['/'] + p);
            }
            assert forall|i: int| 0 <= i < y.len() implies #[trigger] y[i] != '/' by {
                if i < x.len() {
                    assert(y[i] == x[i]);
                } else if y == x + p {
                    assert(y[i] == p[i - x.len()]);
                } else if i > x.len() {
                    assert(y[i] == p[i - x.len() - 1]);
                }
            }
            if x.len() > 0 {
                assert(y[0] == x[0]);
                if x.len() == 1 && x[0] == '\\' {
                    assert(!is_drive(y));
                }
            } else {
                assert(y =~= p);
            }
        }
    }
}

/// The start `b` alone has no component except its drive.
proof fn lemma_base_components(b: Seq<char>)
    requires
        base_ok(b),
    ensures
        b.len() == 3 ==> non_empty(split_char(b, '/')) == seq![b.take(2)],
        b.len() < 3 ==> non_empty(split_char(b, '/')) == Seq::<Seq<char>>::empty(),
{
    lemma_non_empty_single(Seq::<char>::empty());
    if b.len() == 0 {
        assert(split_char(b, '/') =~= seq![Seq::<char>::empty()]);
    } else if b.len() == 1 {
        assert(b.drop_last() =~= Seq::<char>::empty());
        assert(split_char(b.drop_last(), '/') =~= seq![Seq::<char>::empty()]);
        let e = seq![Seq::<char>::empty(), Seq::<char>::empty()];
        assert(split_char(b, '/') =~= e);
        assert(e.drop_last() =~= seq![Seq::<char>::empty()]);
        assert(e.last() == Seq::<char>::empty());
        assert(non_empty(e) == non_empty(e.drop_last()));
    } else {
        let d = b.take(2);
        assert(separator_free(d));
        lemma_split_free(d);
        lemma_non_empty_single(d);
        assert(b.drop_last() =~= d);
        crate::text::lemma_split_char_len(d, '/');
        let sb = split_char(b, '/');
        assert(sb == split_char(d, '/').push(Seq::empty()));
        assert(sb.drop_last() =~= split_char(d, '/'));
        assert(sb.last() == Seq::<char>::empty());
        assert(non_empty(sb) == non_empty(sb.drop_last()));
    }
}

/// A Windows build without a later replacement normalizes to itself.
proof fn lemma_win_build_stable(b: Seq<char>, parts: Seq<Seq<char>>)
    requires
        win_shape(b, parts),
    ensures
        windows_normalized(win_push_all(win_of(b), parts)) == win_push_all(win_of(b), parts),
{
    let x = win_push_all(win_of(b), parts);
    lemma_win_build_unified(b, parts);
    let u = push_all(b, parts);
    assert(unify(x) == u);
    lemma_push_all_components(b, parts);
    lemma_base_components(b);
    lemma_push_all_prefix(b, parts);
    let comps = components(x);
    assert(comps == non_empty(split_char(b, '/')) + parts);
    if b.len() == 3 {
        let d = b.take(2);
        assert(comps =~= seq![d] + parts);
        assert(comps[0] == d);
        assert(comps.drop_first() =~= parts);
        assert(win_of(b) =~= d + seq!['\\']);
    } else {
        assert(comps =~= parts);
        if b.len() == 1 {
            assert(u[0] == b[0]);
            assert(win_of(b) =~= seq!['\\']);
            if parts.len() > 0 {
                assert(!has_drive_prefix(parts[0]));
            }
        } else {
            assert(win_of(b) =~= Seq::<char>::empty());
            if parts.len() > 0 {
                assert(b =~= Seq::<char>::empty());
                lemma_push_all_first(parts);
                assert(separator_free(parts[0]));
                assert(parts[0][0] != '/');
            }
        }
    }
}

/// Every Windows build from an allowed start ends as a bare drive or
/// without a later replacement (`win_shape`).
proof fn lemma_win_shape_of(b0: Seq<char>, parts: Seq<Seq<char>>) -> (res: (Seq<char>, Seq<Seq<char>>))
    requires
        base_ok(b0),
        forall|k: int| 0 <= k < parts.len() ==> separator_free(#[trigger] parts[k]) && parts[k].len() > 0,
    ensures
        is_drive(win_push_all(win_of(b0), parts)) || (win_shape(res.0, res.1)
            && win_push_all(win_of(b0), parts) == win_push_all(win_of(res.0), res.1)),
    decreases parts.len(),
{
    if parts.len() == 0 {
        (b0, parts)
    } else {
        let pre = parts.drop_last();
        assert forall|k: int| 0 <= k < pre.len() implies separator_free(#[trigger] pre[k]) && pre[k].len() > 0 by {
            assert(pre[k] == parts[k]);
        }
        let prev = lemma_win_shape_of(b0, pre);
        let x = win_push_all(win_of(b0), pre);
        let p = parts.last();
        assert(p == parts[parts.len() - 1]);
        let y = win_push(x, p);
        assert(y == win_push_all(win_of(b0), parts));
        let e = Seq::<char>::empty();
        assert(win_of(e) =~= e);
        if has_drive_prefix(p) {
            assert(y == p);
            let one = seq![p];
            assert(one.drop_last() =~= Seq::<Seq<char>>::empty());
            assert(win_push_all(e, one) == win_push(e, p));
            assert(one[0] == p);
            (e, one)
        } else if is_drive(x) {
            let q = x + p;
            assert(y == q);
            let one = seq![q];
            assert(one.drop_last() =~= Seq::<Seq<char>>::empty());
            assert(has_drive_prefix(q));
            assert(win_push_all(e, one) == win_push(e, q));
            assert(separator_free(q)) by {
                assert forall|i: int| 0 <= i < q.len() implies #[trigger] q[i] != '/' && q[i] != '\\' by {
                    if i >= 2 {
                        assert(q[i] == p[i - 2]);
                    }
                }
            }
            assert(one[0] == q);
            (e, one)
        } else {
            let (b, l) = prev;
            let l2 = l.push(p);
            assert(l2.drop_last() =~= l);
            assert(l2.last() == p);
            assert forall|k: int| 0 <= k < l2.len() implies separator_free(#[trigger] l2[k]) && l2[k].len() > 0 by {
                if k < l.len() {
                    assert(l2[k] == l[k]);
                }
            }
            assert forall|k: int| 0 <= k < l2.len() && (k > 0 || b.len() > 0) implies !has_drive_prefix(#[trigger] l2[k]) by {
                if k < l.len() {
                    assert(l2[k] == l[k]);
                }
            }
            if l.len() > 0 {
                assert(l2[0] == l[0]);
            } else {
                assert(l2[0] == p);
            }
            (b, l2)
        }
    }
}

/// Normalizing under Windows rules is idempotent, except when the result
/// is a bare drive: a later drive component replaces what came before, so
/// `C:/D:` gives `D:`, which normalizes to `D:\`.
pub proof fn law_windows_normalize_idempotent(s: Seq<char>)
    requires
        !is_drive(windows_normalized(s)),
    ensures
        windows_normalized(windows_normalized(s)) == windows_normalized(s),
{
    let u = unify(s);
    assert forall|i: int| 0 <= i < u.len() implies #[trigger] u[i] != '\\' by {}
    lemma_split_pieces_free(u);
    lemma_non_empty_free(split_char(u, '/'));
    let comps = components(s);
    if comps.len() > 0 && is_drive(comps[0]) {
        let b0 = comps[0] + seq!['/'];
        assert(b0.take(2) =~= comps[0]);
        assert(win_of(b0) =~= comps[0] + seq!['\\']);
        let rest = comps.drop_first();
        assert forall|k: int| 0 <= k < rest.len() implies separator_free(#[trigger] rest[k]) && rest[k].len() > 0 by {
            assert(rest[k] == comps[k + 1]);
        }
        let (b, l) = lemma_win_shape_of(b0, rest);
        lemma_win_build_stable(b, l);
    } else {
        let b0: Seq<char> = if u.len() > 0 && u[0] == '/' {
            seq!['/']
        } else {
            Seq::empty()
        };
        assert(win_of(b0) =~= (if u.len() > 0 && u[0] == '/' {
            seq!['\\']
        } else {
            Seq::<char>::empty()
        }));
        let (b, l) = lemma_win_shape_of(b0, comps);
        lemma_win_build_stable(b, l);
    }
}

} // verus!
