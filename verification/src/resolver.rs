//! The launch-path resolver: scans the raw command-line arguments of a
//! file-association launch and extracts at most one plausible path to a
//! file with a `.json` extension (case-insensitive).
//!
//! An argument is trimmed of surrounding ASCII whitespace and double
//! quotes, flags (tokens starting with `-`) and empty tokens are
//! skipped, and the remaining candidates are classified: drive-letter
//! paths are taken as native paths before any URL parsing (a drive
//! letter followed by `:` is otherwise indistinguishable from a URL
//! scheme), obvious URLs are converted to local paths through the `url`
//! crate, and everything else is treated as a plain path. The first
//! candidate whose extension is `json`, or whose lowercase form ends in
//! `.json` and that contains a path separator or colon, wins.
//!
//! Resolution is pure: canonicalization against the live filesystem is
//! the caller's affair and is deliberately kept out of this module.

use vstd::prelude::*;

verus! {

/// ASCII whitespace stripped from the ends of a raw argument.
pub open spec fn is_space(c: char) -> bool {
    c == ' ' || c == '\t' || c == '\n' || c == '\r'
}

/// A path separator: forward slash or backslash. Both are accepted
/// everywhere so that the one resolver serves both path syntaxes.
pub open spec fn is_sep(c: char) -> bool {
    c == '/' || c == '\\'
}

/// The code point of `c`, with ASCII upper-case letters folded to
/// lower case. Extension comparison goes through this fold.
pub open spec fn lower_code(c: char) -> u32 {
    if 65 <= c as u32 && c as u32 <= 90 {
        (c as u32 + 32) as u32
    } else {
        c as u32
    }
}

/// `s` with leading ASCII whitespace removed.
pub open spec fn trim_space_front(s: Seq<char>) -> Seq<char>
    decreases s.len(),
{
    if s.len() > 0 && is_space(s[0]) {
        trim_space_front(s.drop_first())
    } else {
        s
    }
}

/// `s` with trailing ASCII whitespace removed.
pub open spec fn trim_space_back(s: Seq<char>) -> Seq<char>
    decreases s.len(),
{
    if s.len() > 0 && is_space(s.last()) {
        trim_space_back(s.drop_last())
    } else {
        s
    }
}

/// `s` with leading double-quote characters removed.
pub open spec fn trim_quote_front(s: Seq<char>) -> Seq<char>
    decreases s.len(),
{
    if s.len() > 0 && s[0] == '"' {
        trim_quote_front(s.drop_first())
    } else {
        s
    }
}

/// `s` with trailing double-quote characters removed.
pub open spec fn trim_quote_back(s: Seq<char>) -> Seq<char>
    decreases s.len(),
{
    if s.len() > 0 && s.last() == '"' {
        trim_quote_back(s.drop_last())
    } else {
        s
    }
}

/// A raw argument after cleanup: surrounding ASCII whitespace is
/// stripped first, then surrounding double quotes.
pub open spec fn spec_trim(s: Seq<char>) -> Seq<char> {
    trim_quote_back(trim_quote_front(trim_space_back(trim_space_front(s))))
}

/// Whether `c` is ASCII whitespace, as `is_space` says.
fn char_is_space(c: char) -> (r: bool)
    ensures
        r == is_space(c),
{
    c == ' ' || c == '\t' || c == '\n' || c == '\r'
}

/// Whether `c` is a path separator, as `is_sep` says.
fn char_is_sep(c: char) -> (r: bool)
    ensures
        r == is_sep(c),
{
    c == '/' || c == '\\'
}

/// The case-folded code point of `c`, as `lower_code` says.
fn char_lower_code(c: char) -> (r: u32)
    ensures
        r == lower_code(c),
{
    let u = c as u32;
    if 65 <= u && u <= 90 {
        u + 32
    } else {
        u
    }
}

/// Bounds of the cleaned-up argument inside `arg`: the characters of
/// `arg` from `b.0` (inclusive) to `b.1` (exclusive) are exactly
/// `spec_trim(arg@)`.
fn trim_bounds(arg: &str) -> (b: (usize, usize))
    ensures
        b.0 <= b.1 <= arg@.len(),
        arg@.subrange(b.0 as int, b.1 as int) == spec_trim(arg@),
{
    let n = arg.unicode_len();
    proof {
        assert(arg@.subrange(0, n as int) =~= arg@);
    }
    let mut lo: usize = 0;
    while lo < n && char_is_space(arg.get_char(lo))
        invariant
            lo <= n == arg@.len(),
            trim_space_front(arg@) == trim_space_front(arg@.subrange(lo as int, n as int)),
        decreases n - lo,
    {
        proof {
            assert(arg@.subrange(lo as int, n as int).drop_first() =~= arg@.subrange(
                lo as int + 1,
                n as int,
            ));
        }
        lo = lo + 1;
    }
    proof {
        assert(trim_space_front(arg@) == arg@.subrange(lo as int, n as int));
    }
    let mut hi: usize = n;
    while hi > lo && char_is_space(arg.get_char(hi - 1))
        invariant
            lo <= hi <= n == arg@.len(),
            trim_space_front(arg@) == arg@.subrange(lo as int, n as int),
            trim_space_back(trim_space_front(arg@)) == trim_space_back(
                arg@.subrange(lo as int, hi as int),
            ),
        decreases hi,
    {
        proof {
            assert(arg@.subrange(lo as int, hi as int).drop_last() =~= arg@.subrange(
                lo as int,
                hi as int - 1,
            ));
        }
        hi = hi - 1;
    }
    proof {
        assert(trim_space_back(trim_space_front(arg@)) == arg@.subrange(lo as int, hi as int));
    }
    let ghost t1 = arg@.subrange(lo as int, hi as int);
    let mut qlo: usize = lo;
    while qlo < hi && arg.get_char(qlo) == '"'
        invariant
            lo <= qlo <= hi <= arg@.len(),
            t1 == arg@.subrange(lo as int, hi as int),
            trim_quote_front(t1) == trim_quote_front(arg@.subrange(qlo as int, hi as int)),
        decreases hi - qlo,
    {
        proof {
            assert(arg@.subrange(qlo as int, hi as int).drop_first() =~= arg@.subrange(
                qlo as int + 1,
                hi as int,
            ));
        }
        qlo = qlo + 1;
    }
    proof {
        assert(trim_quote_front(t1) == arg@.subrange(qlo as int, hi as int));
    }
    let mut qhi: usize = hi;
    while qhi > qlo && arg.get_char(qhi - 1) == '"'
        invariant
            qlo <= qhi <= hi <= arg@.len(),
            trim_quote_front(t1) == arg@.subrange(qlo as int, hi as int),
            trim_quote_back(trim_quote_front(t1)) == trim_quote_back(
                arg@.subrange(qlo as int, qhi as int),
            ),
        decreases qhi,
    {
        proof {
            assert(arg@.subrange(qlo as int, qhi as int).drop_last() =~= arg@.subrange(
                qlo as int,
                qhi as int - 1,
            ));
        }
        qhi = qhi - 1;
    }
    proof {
        assert(spec_trim(arg@) == arg@.subrange(qlo as int, qhi as int));
    }
    (qlo, qhi)
}

/// `s` with trailing path separators removed. A path that merely ends
/// in separators still names the same file, so the extension is read
/// from this stripped form.
pub open spec fn strip_trailing_seps(s: Seq<char>) -> Seq<char>
    decreases s.len(),
{
    if s.len() > 0 && is_sep(s.last()) {
        strip_trailing_seps(s.drop_last())
    } else {
        s
    }
}

/// The file-name part of a path with no trailing separators: the
/// suffix after the last separator, or the whole of `s` when it has
/// none.
pub open spec fn file_name_part(s: Seq<char>) -> Seq<char>
    decreases s.len(),
{
    if s.len() == 0 {
        s
    } else if is_sep(s.last()) {
        Seq::empty()
    } else {
        file_name_part(s.drop_last()).push(s.last())
    }
}

/// The extension of a file name `f`: the characters after the last
/// `.`, provided that dot is not the first character (a name such as
/// `.json` is a hidden file without an extension). `None` when there
/// is no such dot.
pub open spec fn ext_of_file_name(f: Seq<char>) -> Option<Seq<char>>
    decreases f.len(),
{
    if f.len() <= 1 {
        None
    } else if f.last() == '.' {
        Some(Seq::empty())
    } else {
        match ext_of_file_name(f.drop_last()) {
            Some(e) => Some(e.push(f.last())),
            None => None,
        }
    }
}

/// The extension of the path `t`: the extension of its file name,
/// with the relative-directory names `.` and `..` carrying none.
pub open spec fn spec_extension(t: Seq<char>) -> Option<Seq<char>> {
    let f = file_name_part(strip_trailing_seps(t));
    if f == seq!['.', '.'] {
        None
    } else {
        ext_of_file_name(f)
    }
}

/// Whether `e` is the four letters of `json`, compared without regard
/// to ASCII case.
pub open spec fn seq_eq_json_ci(e: Seq<char>) -> bool {
    e.len() == 4 && lower_code(e[0]) == 'j' as u32 && lower_code(e[1]) == 's' as u32 && lower_code(
        e[2],
    ) == 'o' as u32 && lower_code(e[3]) == 'n' as u32
}

/// Whether the path `t` has extension `json`, case-insensitively.
pub open spec fn ext_is_json(t: Seq<char>) -> bool {
    match spec_extension(t) {
        Some(e) => seq_eq_json_ci(e),
        None => false,
    }
}

/// Whether the characters of `t` starting at `from` spell `json`,
/// compared without regard to ASCII case.
fn json_at(t: &str, from: usize) -> (r: bool)
    requires
        from + 4 <= t@.len(),
        t@.len() <= usize::MAX,
    ensures
        r == seq_eq_json_ci(t@.subrange(from as int, from as int + 4)),
{
    let r = char_lower_code(t.get_char(from)) == 106 && char_lower_code(t.get_char(from + 1))
        == 115 && char_lower_code(t.get_char(from + 2)) == 111 && char_lower_code(
        t.get_char(from + 3),
    ) == 110;
    proof {
        let e = t@.subrange(from as int, from as int + 4);
        assert(e[0] == t@[from as int]);
        assert(e[1] == t@[from as int + 1]);
        assert(e[2] == t@[from as int + 2]);
        assert(e[3] == t@[from as int + 3]);
        assert('j' as u32 == 106 && 's' as u32 == 115 && 'o' as u32 == 111 && 'n' as u32 == 110);
    }
    r
}

/// Whether the path held by `t` has extension `json`, as
/// `ext_is_json` says.
#[verifier::rlimit(100)]
#[verifier::spinoff_prover]
fn has_json_extension(t: &str) -> (r: bool)
    ensures
        r == ext_is_json(t@),
{
    let n = t.unicode_len();
    proof {
        assert(t@.subrange(0, n as int) =~= t@);
    }
    // Strip trailing separators.
    let mut e: usize = n;
    while e > 0 && char_is_sep(t.get_char(e - 1))
        invariant
            e <= n == t@.len(),
            strip_trailing_seps(t@) == strip_trailing_seps(t@.subrange(0, e as int)),
        decreases e,
    {
        proof {
            assert(t@.subrange(0, e as int).drop_last() =~= t@.subrange(0, e as int - 1));
        }
        e = e - 1;
    }
    let ghost u = t@.subrange(0, e as int);
    proof {
        assert(strip_trailing_seps(t@) == u);
    }
    // Find the start of the file name.
    let mut k: usize = e;
    proof {
        assert(file_name_part(u) =~= file_name_part(t@.subrange(0, k as int)) + t@.subrange(
            k as int,
            e as int,
        ));
    }
    while k > 0 && !char_is_sep(t.get_char(k - 1))
        invariant
            k <= e <= n == t@.len(),
            u == t@.subrange(0, e as int),
            strip_trailing_seps(t@) == u,
            file_name_part(u) == file_name_part(t@.subrange(0, k as int)) + t@.subrange(
                k as int,
                e as int,
            ),
        decreases k,
    {
        proof {
            let pre = t@.subrange(0, k as int);
            assert(pre.drop_last() =~= t@.subrange(0, k as int - 1));
            assert(file_name_part(pre) == file_name_part(t@.subrange(0, k as int - 1)).push(
                t@[k as int - 1],
            ));
            assert(file_name_part(t@.subrange(0, k as int - 1)).push(t@[k as int - 1])
                + t@.subrange(k as int, e as int) =~= file_name_part(
                t@.subrange(0, k as int - 1),
            ) + t@.subrange(k as int - 1, e as int));
        }
        k = k - 1;
    }
    let ghost f = file_name_part(u);
    proof {
        if k == 0 {
            assert(f =~= t@.subrange(0 as int, e as int));
        } else {
            assert(file_name_part(t@.subrange(0, k as int)) =~= Seq::<char>::empty());
            assert(f =~= t@.subrange(k as int, e as int));
        }
        assert(f == t@.subrange(k as int, e as int));
    }
    // The names `.` and `..` have no extension.
    if e - k == 2 && t.get_char(k) == '.' && t.get_char(k + 1) == '.' {
        proof {
            assert(f =~= seq!['.', '.']);
        }
        return false;
    }
    proof {
        assert(f != seq!['.', '.']) by {
            if f == seq!['.', '.'] {
                assert(f.len() == 2);
                assert(t@[k as int] == f[0] && t@[k as int + 1] == f[1]);
            }
        }
        assert(spec_extension(t@) == ext_of_file_name(f));
    }
    // Find the last dot of the file name, the dot not first.
    let mut j: usize = e;
    proof {
        assert(f.subrange(0, e - k) =~= f);
        assert(f.subrange(e - k, e - k) =~= Seq::<char>::empty());
        match ext_of_file_name(f) {
            Some(e0) => {
                assert(e0 + f.subrange(e - k, e - k) =~= e0);
            },
            None => {},
        }
    }
    while j - k > 1 && t.get_char(j - 1) != '.'
        invariant
            k <= e <= n == t@.len(),
            k <= j <= e,
            f == t@.subrange(k as int, e as int),
            ext_of_file_name(f) == match ext_of_file_name(f.subrange(0, j - k)) {
                Some(e0) => Some(e0 + f.subrange(j - k, e - k)),
                None => None::<Seq<char>>,
            },
        decreases j,
    {
        proof {
            let pre = f.subrange(0, j - k);
            assert(pre.len() >= 2);
            assert(pre.drop_last() =~= f.subrange(0, j - k - 1));
            assert(pre.last() == f[j - k - 1] == t@[j as int - 1]);
            assert(pre.last() != '.');
            match ext_of_file_name(f.subrange(0, j - k - 1)) {
                Some(e0) => {
                    assert(ext_of_file_name(pre) == Some(e0.push(pre.last())));
                    assert(e0.push(pre.last()) + f.subrange(j - k, e - k) =~= e0 + f.subrange(
                        j - k - 1,
                        e - k,
                    ));
                },
                None => {
                    assert(ext_of_file_name(pre) is None);
                },
            }
        }
        j = j - 1;
    }
    if j - k <= 1 {
        // No dot that could begin an extension: `ext_of_file_name(f)`
        // is `None`.
        proof {
            assert(f.subrange(0, j - k).len() <= 1);
            assert(ext_of_file_name(f.subrange(0, j - k)) is None);
        }
        return false;
    }
    // A dot stands at `j - 1`, with `j - 1 >= k + 1`: the extension is
    // the characters from `j` to `e`.
    proof {
        let pre = f.subrange(0, j - k);
        assert(pre.len() >= 2);
        assert(pre.last() == f[j - k - 1] == t@[j as int - 1]);
        assert(pre.last() == '.');
        assert(ext_of_file_name(pre) == Some(Seq::<char>::empty()));
        assert(Seq::<char>::empty() + f.subrange(j - k, e - k) =~= t@.subrange(j as int, e as int));
        assert(ext_of_file_name(f) == Some(t@.subrange(j as int, e as int)));
    }
    if e - j == 4 {
        let r = json_at(t, j);
        proof {
            assert(t@.subrange(j as int, j as int + 4) =~= t@.subrange(j as int, e as int));
        }
        r
    } else {
        false
    }
}

/// A token that is skipped outright: empty, or a flag starting
/// with `-`.
pub open spec fn is_flag_like(t: Seq<char>) -> bool {
    t.len() == 0 || t[0] == '-'
}

/// A drive-letter path: a single ASCII letter, `:`, then a path
/// separator, as in `C:\a.json` or `D:/a.json`. Checked before any
/// URL parsing, since such a token would otherwise read as a URL with
/// a one-letter scheme.
pub open spec fn is_drive_path(t: Seq<char>) -> bool {
    t.len() >= 3 && (('A' <= t[0] && t[0] <= 'Z') || ('a' <= t[0] && t[0] <= 'z')) && t[1] == ':'
        && is_sep(t[2])
}

/// A token that is obviously a URL: it contains `://` (which covers
/// the `file://` prefix as well). Only such tokens are handed to the
/// URL parser, so that plain paths are never misread as schemes.
pub open spec fn looks_like_url(t: Seq<char>) -> bool {
    exists|i: int| 0 <= i && i + 3 <= t.len() && #[trigger] t[i] == ':' && t[i + 1] == '/' && t[i
        + 2] == '/'
}

/// Whether `t` ends in `.json`, compared without regard to ASCII
/// case.
pub open spec fn ends_with_json_ci(t: Seq<char>) -> bool {
    t.len() >= 5 && t[t.len() - 5] == '.' && seq_eq_json_ci(t.subrange(t.len() - 4, t.len() as int))
}

/// Whether `t` contains a path separator or a colon, suggesting a
/// path rather than a bare flag value.
pub open spec fn has_path_hint(t: Seq<char>) -> bool {
    exists|i: int| 0 <= i < t.len() && (is_sep(t[i]) || t[i] == ':')
}

/// The last-resort rule for a cleaned-up token: it ends in `.json`
/// (case-insensitively) and contains a path separator or colon.
pub open spec fn spec_fallback_match(t: Seq<char>) -> bool {
    ends_with_json_ci(t) && has_path_hint(t)
}

/// The decision for one cleaned-up token by the pure rules alone,
/// URL conversion left aside: skipped when flag-like, accepted when
/// its extension is `json`, accepted by the last-resort rule
/// otherwise, else no match.
pub open spec fn spec_match_plain(t: Seq<char>) -> Option<Seq<char>> {
    if is_flag_like(t) {
        None
    } else if ext_is_json(t) {
        Some(t)
    } else if spec_fallback_match(t) {
        Some(t)
    } else {
        None
    }
}

/// The pure decision for one raw argument: clean it up, then apply
/// `spec_match_plain`.
pub open spec fn spec_arg_match(raw: Seq<char>) -> Option<Seq<char>> {
    spec_match_plain(spec_trim(raw))
}

/// The pure resolution of a whole argument list: the first argument
/// with a match wins, arguments without one are skipped.
pub open spec fn spec_resolve(args: Seq<Seq<char>>) -> Option<Seq<char>>
    decreases args.len(),
{
    if args.len() == 0 {
        None
    } else if spec_arg_match(args[0]) is Some {
        spec_arg_match(args[0])
    } else {
        spec_resolve(args.drop_first())
    }
}

/// What every path handed out by the resolver satisfies with respect
/// to the raw argument it came from: either its extension is `json`
/// (the primary rule, and the only shape a URL conversion is accepted
/// in), or it is the cleaned-up argument itself accepted by the
/// last-resort rule.
pub open spec fn spec_accepted(p: Seq<char>, raw: Seq<char>) -> bool {
    ext_is_json(p) || (p == spec_trim(raw) && spec_fallback_match(spec_trim(raw)))
}

/// Whether `t` is a drive-letter path, as `is_drive_path` says.
fn is_drive_path_exec(t: &str) -> (r: bool)
    requires
        t@.len() <= usize::MAX,
    ensures
        r == is_drive_path(t@),
{
    if t.unicode_len() < 3 {
        return false;
    }
    let c0 = t.get_char(0);
    (('A' <= c0 && c0 <= 'Z') || ('a' <= c0 && c0 <= 'z')) && t.get_char(1) == ':' && char_is_sep(
        t.get_char(2),
    )
}

/// Whether `t` contains `://`, as `looks_like_url` says.
fn looks_like_url_exec(t: &str) -> (r: bool)
    requires
        t@.len() <= usize::MAX,
    ensures
        r == looks_like_url(t@),
{
    let n = t.unicode_len();
    if n < 3 {
        return false;
    }
    let mut i: usize = 0;
    while i <= n - 3
        invariant
            n == t@.len(),
            3 <= n <= usize::MAX,
            i <= n - 2,
            forall|m: int|
                0 <= m < i ==> !(#[trigger] t@[m] == ':' && t@[m + 1] == '/' && t@[m + 2] == '/'),
        decreases n - i,
    {
        if t.get_char(i) == ':' && t.get_char(i + 1) == '/' && t.get_char(i + 2) == '/' {
            return true;
        }
        i = i + 1;
    }
    proof {
        assert(!looks_like_url(t@)) by {
            if looks_like_url(t@) {
                let w = choose|m: int|
                    0 <= m && m + 3 <= t@.len() && #[trigger] t@[m] == ':' && t@[m + 1] == '/'
                        && t@[m + 2] == '/';
                assert(w < i);
            }
        }
    }
    false
}

/// Whether `t` contains a path separator or colon, as
/// `has_path_hint` says.
fn has_path_hint_exec(t: &str) -> (r: bool)
    requires
        t@.len() <= usize::MAX,
    ensures
        r == has_path_hint(t@),
{
    let n = t.unicode_len();
    let mut i: usize = 0;
    while i < n
        invariant
            n == t@.len(),
            i <= n,
            forall|m: int| 0 <= m < i ==> !(is_sep(#[trigger] t@[m]) || t@[m] == ':'),
        decreases n - i,
    {
        let c = t.get_char(i);
        if char_is_sep(c) || c == ':' {
            return true;
        }
        i = i + 1;
    }
    false
}

/// Whether `t` ends in `.json` case-insensitively, as
/// `ends_with_json_ci` says.
fn ends_with_json_ci_exec(t: &str) -> (r: bool)
    requires
        t@.len() <= usize::MAX,
    ensures
        r == ends_with_json_ci(t@),
{
    let n = t.unicode_len();
    if n < 5 {
        return false;
    }
    t.get_char(n - 5) == '.' && json_at(t, n - 4)
}

/// A parsed URL of the `url` crate, carried opaquely between the two
/// calls below.
#[verifier::external_type_specification]
#[verifier::external_body]
pub struct ExUrl(url::Url);

/// Relies on `url::Url::parse`: parses an absolute URL from a string
/// and returns `Err` when the string is not one. Nothing further is
/// assumed of the parse; the value is only carried to
/// `url_to_file_path`.
#[verifier::external_body]
fn parse_url(t: &str) -> (r: Option<url::Url>) {
    url::Url::parse(t).ok()
}

/// Relies on `url::Url::to_file_path`: converts a `file:`-style URL
/// to a local filesystem path and returns `Err` when the URL has no
/// such path (a non-`file` scheme with a host, or an undecodable
/// path). The conversion is platform-dependent, so nothing is assumed
/// of the returned path: the caller checks it before accepting it.
#[verifier::external_body]
fn url_to_file_path(u: &url::Url) -> (r: Option<String>) {
    match u.to_file_path() {
        Ok(p) => Some(p.to_string_lossy().into_owned()),
        Err(()) => None,
    }
}

/// The decision for one raw argument. For an argument that does not
/// look like a URL the result is exactly `spec_arg_match`; for one
/// that does, the URL conversion may in addition yield a local path
/// with a `json` extension, and every returned path satisfies
/// `spec_accepted`.
pub fn resolve_arg(arg: &str) -> (r: Option<String>)
    ensures
        !looks_like_url(spec_trim(arg@)) ==> r.deep_view() == spec_arg_match(arg@),
        r is None ==> spec_arg_match(arg@) is None,
        spec_arg_match(arg@) is Some ==> r is Some,
        r matches Some(p) ==> spec_accepted(p@, arg@),
{
    let (lo, hi) = trim_bounds(arg);
    let t = arg.substring_char(lo, hi);
    proof {
        assert(t@ == spec_trim(arg@));
    }
    if t.is_empty() {
        return None;
    }
    proof {
        assert(t@.len() > 0);
    }
    if t.get_char(0) == '-' {
        return None;
    }
    let json = has_json_extension(t);
    // Drive-letter paths are accepted before URL parsing: a drive
    // letter followed by `:` would otherwise read as a URL scheme.
    if json && is_drive_path_exec(t) {
        return Some(t.to_owned());
    }
    if looks_like_url_exec(t) {
        if let Some(u) = parse_url(t) {
            if let Some(p) = url_to_file_path(&u) {
                if has_json_extension(p.as_str()) {
                    return Some(p);
                }
            }
        }
    }
    if json {
        return Some(t.to_owned());
    }
    if ends_with_json_ci_exec(t) && has_path_hint_exec(t) {
        return Some(t.to_owned());
    }
    None
}

/// Arguments without a match do not short-circuit the scan: skipping
/// any number of leading non-matching arguments leaves the resolution
/// of the list unchanged.
pub proof fn lemma_resolve_skip(args: Seq<Seq<char>>, k: int)
    requires
        0 <= k <= args.len(),
        forall|j: int| 0 <= j < k ==> spec_arg_match(#[trigger] args[j]) is None,
    ensures
        spec_resolve(args) == spec_resolve(args.subrange(k, args.len() as int)),
    decreases k,
{
    if k == 0 {
        assert(args.subrange(0, args.len() as int) =~= args);
    } else {
        let rest = args.drop_first();
        assert(rest =~= args.subrange(1, args.len() as int));
        assert(forall|j: int| 0 <= j < k - 1 ==> spec_arg_match(#[trigger] rest[j]) is None);
        lemma_resolve_skip(rest, k - 1);
        assert(rest.subrange(k - 1, rest.len() as int) =~= args.subrange(k, args.len() as int));
    }
}

/// Scans the argument list in order and returns the first plausible
/// `.json` path, or `None` when no argument yields one. For a list in
/// which no cleaned-up argument looks like a URL the result is
/// exactly `spec_resolve`; URL arguments may in addition resolve
/// through the URL-to-path conversion, and every returned path
/// satisfies `spec_accepted` for the argument it came from, all
/// earlier arguments having no pure match.
pub fn parse_json_path_from_args(args: &[String]) -> (r: Option<String>)
    ensures
        spec_resolve(args.deep_view()) is Some ==> r is Some,
        r is None ==> spec_resolve(args.deep_view()) is None,
        (forall|i: int|
            0 <= i < args.deep_view().len() ==> !looks_like_url(
                spec_trim(#[trigger] args.deep_view()[i]),
            )) ==> r.deep_view() == spec_resolve(args.deep_view()),
        r matches Some(p) ==> exists|i: int|
            0 <= i < args.deep_view().len() && #[trigger] spec_accepted(p@, args.deep_view()[i])
                && (forall|j: int|
                0 <= j < i ==> spec_arg_match(#[trigger] args.deep_view()[j]) is None),
{
    let ghost s = args.deep_view();
    let n = args.len();
    proof {
        assert(s.len() == n);
    }
    let mut k: usize = 0;
    while k < n
        invariant
            k <= n,
            n == args@.len(),
            s == args.deep_view(),
            s.len() == n,
            forall|j: int| 0 <= j < k ==> spec_arg_match(#[trigger] s[j]) is None,
        decreases n - k,
    {
        proof {
            assert(s[k as int] == args@[k as int]@);
        }
        let r = resolve_arg(args[k].as_str());
        if let Some(p) = r {
            proof {
                lemma_resolve_skip(s, k as int);
                let tail = s.subrange(k as int, s.len() as int);
                assert(tail[0] == s[k as int]);
                assert(spec_accepted(p@, s[k as int]));
                if spec_arg_match(s[k as int]) is Some {
                    assert(spec_resolve(s) is Some);
                }
                if forall|i: int|
                    0 <= i < s.len() ==> !looks_like_url(spec_trim(#[trigger] s[i])) {
                    assert(!looks_like_url(spec_trim(s[k as int])));
                    assert(Some(p).deep_view() == spec_arg_match(s[k as int]));
                    assert(spec_resolve(tail) == spec_arg_match(s[k as int]));
                }
            }
            return Some(p);
        }
        k = k + 1;
    }
    proof {
        lemma_resolve_skip(s, n as int);
        assert(s.subrange(n as int, s.len() as int).len() == 0);
    }
    None
}

/// The file-name part of a path is a suffix of it.
proof fn lemma_file_name_is_suffix(s: Seq<char>)
    ensures
        file_name_part(s).len() <= s.len(),
        file_name_part(s) == s.subrange(s.len() - file_name_part(s).len(), s.len() as int),
    decreases s.len(),
{
    if s.len() == 0 {
        assert(file_name_part(s) =~= s.subrange(0, 0));
    } else if is_sep(s.last()) {
        assert(file_name_part(s) =~= s.subrange(s.len() as int, s.len() as int));
    } else {
        let d = s.drop_last();
        lemma_file_name_is_suffix(d);
        let fl = file_name_part(d).len();
        assert(file_name_part(s) == file_name_part(d).push(s.last()));
        assert(file_name_part(d).push(s.last()) =~= s.subrange(s.len() - fl - 1, s.len() as int));
    }
}

/// An extension is a suffix of its file name, preceded by a dot.
proof fn lemma_ext_is_suffix(f: Seq<char>)
    requires
        ext_of_file_name(f) is Some,
    ensures
        ext_of_file_name(f)->Some_0.len() < f.len(),
        f[f.len() - ext_of_file_name(f)->Some_0.len() - 1] == '.',
        ext_of_file_name(f)->Some_0 == f.subrange(
            f.len() - ext_of_file_name(f)->Some_0.len(),
            f.len() as int,
        ),
    decreases f.len(),
{
    let e = ext_of_file_name(f)->Some_0;
    if f.last() == '.' {
        assert(e =~= f.subrange(f.len() as int, f.len() as int));
    } else {
        let d = f.drop_last();
        lemma_ext_is_suffix(d);
        let e0 = ext_of_file_name(d)->Some_0;
        assert(e == e0.push(f.last()));
        assert(d[d.len() - e0.len() - 1] == f[f.len() - e.len() - 1]);
        assert(e0.push(f.last()) =~= f.subrange(f.len() - e.len(), f.len() as int));
    }
}

/// A path without trailing separators whose extension is `json` ends
/// in `.json`, compared without regard to ASCII case.
pub proof fn lemma_json_ext_ends_with_json(t: Seq<char>)
    requires
        ext_is_json(t),
        strip_trailing_seps(t) == t,
    ensures
        ends_with_json_ci(t),
{
    let f = file_name_part(t);
    let e = spec_extension(t)->Some_0;
    lemma_file_name_is_suffix(t);
    lemma_ext_is_suffix(f);
    assert(e.len() == 4);
    assert(f[f.len() - 5] == '.');
    assert(t[t.len() - 5] == '.');
    assert(t.subrange(t.len() - 4, t.len() as int) =~= e);
}

/// A list in which no cleaned-up argument ends in `.json`
/// (case-insensitively), none having trailing path separators,
/// resolves to nothing: absence, not an error. Together with the
/// exactness clause of `parse_json_path_from_args` this says that
/// such a list, when none of its arguments looks like a URL, makes
/// the resolver return `None`.
pub proof fn lemma_no_json_token_no_match(args: Seq<Seq<char>>)
    requires
        forall|i: int| 0 <= i < args.len() ==> !ends_with_json_ci(spec_trim(#[trigger] args[i])),
        forall|i: int|
            0 <= i < args.len() ==> (spec_trim(#[trigger] args[i]).len() > 0 ==> !is_sep(
                spec_trim(args[i]).last(),
            )),
    ensures
        spec_resolve(args) is None,
{
    assert forall|i: int| 0 <= i < args.len() implies spec_arg_match(#[trigger] args[i]) is None by {
        let t = spec_trim(args[i]);
        assert(strip_trailing_seps(t) == t);
        if ext_is_json(t) {
            lemma_json_ext_ends_with_json(t);
        }
    }
    lemma_resolve_skip(args, args.len() as int);
    assert(args.subrange(args.len() as int, args.len() as int).len() == 0);
}

/// Extension comparison is case-insensitive in all cases: two paths
/// whose extensions differ only in ASCII case are accepted or
/// rejected alike.
pub proof fn lemma_extension_case_insensitive(t1: Seq<char>, t2: Seq<char>)
    requires
        spec_extension(t1) is Some,
        spec_extension(t2) is Some,
        spec_extension(t1)->Some_0.len() == spec_extension(t2)->Some_0.len(),
        forall|k: int|
            0 <= k < spec_extension(t1)->Some_0.len() ==> lower_code(
                #[trigger] spec_extension(t1)->Some_0[k],
            ) == lower_code(spec_extension(t2)->Some_0[k]),
    ensures
        ext_is_json(t1) == ext_is_json(t2),
{
}

} // verus!
