//! Discovered installations of the target binary: reported-version parsing,
//! candidate ranking, and the execution environment for launching one.
//!
//! The version grammar: the text a binary prints is scanned for the keyword
//! `version:` (its letters in either case), then any number of spaces, then
//! three base-10 numbers separated by `.`. Whatever follows the third
//! number — a pre-release label such as `-beta`, or anything else — is
//! ignored. A text without such a substring, or with a number too large for
//! its field, yields no version rather than an error.

use crate::path_model::{add_if_missing, dedup_path, dedup_segs, ident, path_has_dir, split_path};
use crate::path_utils::{add_to_path_if_missing, deduplicate_path};
use vstd::prelude::*;

verus! {

/// A semantic release reported by a candidate binary. Ordering is strict
/// lexicographic over `(major, minor, patch)`; a parsed pre-release label is
/// discarded, never compared.
#[derive(Clone, Copy, Debug)]
pub struct ClaudeVersion {
    pub major: u64,
    pub minor: u64,
    pub patch: u64,
}

/// Strict lexicographic order over `(major, minor, patch)`.
pub open spec fn version_lt(a: ClaudeVersion, b: ClaudeVersion) -> bool {
    ||| a.major < b.major
    ||| (a.major == b.major && a.minor < b.minor)
    ||| (a.major == b.major && a.minor == b.minor && a.patch < b.patch)
}

impl PartialEq for ClaudeVersion {
    fn eq(&self, other: &Self) -> (r: bool) {
        self.major == other.major && self.minor == other.minor && self.patch == other.patch
    }
}

impl vstd::std_specs::cmp::PartialEqSpecImpl for ClaudeVersion {
    open spec fn obeys_eq_spec() -> bool {
        true
    }

    open spec fn eq_spec(&self, other: &Self) -> bool {
        self.major == other.major && self.minor == other.minor && self.patch == other.patch
    }
}

impl PartialOrd for ClaudeVersion {
    fn partial_cmp(&self, other: &Self) -> (r: Option<core::cmp::Ordering>) {
        if self.major != other.major {
            if self.major < other.major {
                Some(core::cmp::Ordering::Less)
            } else {
                Some(core::cmp::Ordering::Greater)
            }
        } else if self.minor != other.minor {
            if self.minor < other.minor {
                Some(core::cmp::Ordering::Less)
            } else {
                Some(core::cmp::Ordering::Greater)
            }
        } else if self.patch != other.patch {
            if self.patch < other.patch {
                Some(core::cmp::Ordering::Less)
            } else {
                Some(core::cmp::Ordering::Greater)
            }
        } else {
            Some(core::cmp::Ordering::Equal)
        }
    }
}

impl vstd::std_specs::cmp::PartialOrdSpecImpl for ClaudeVersion {
    open spec fn obeys_partial_cmp_spec() -> bool {
        true
    }

    open spec fn partial_cmp_spec(&self, other: &Self) -> Option<core::cmp::Ordering> {
        if version_lt(*self, *other) {
            Some(core::cmp::Ordering::Less)
        } else if version_lt(*other, *self) {
            Some(core::cmp::Ordering::Greater)
        } else {
            Some(core::cmp::Ordering::Equal)
        }
    }
}

pub open spec fn is_digit(c: char) -> bool {
    48 <= c as u32 && c as u32 <= 57
}

pub open spec fn digit_val(c: char) -> int {
    c as u32 - 48
}

/// The keyword that announces a version in a binary's output.
pub open spec fn keyword() -> Seq<char> {
    seq!['v', 'e', 'r', 's', 'i', 'o', 'n', ':']
}

/// Folds the keyword's letters to lower case, so the keyword is matched in
/// either case; every other character is left alone.
pub open spec fn fold_letter(c: char) -> char {
    if c == 'V' {
        'v'
    } else if c == 'E' {
        'e'
    } else if c == 'R' {
        'r'
    } else if c == 'S' {
        's'
    } else if c == 'I' {
        'i'
    } else if c == 'O' {
        'o'
    } else if c == 'N' {
        'n'
    } else {
        c
    }
}

/// Whether the keyword stands at position `i` of `s`, case-folded.
pub open spec fn keyword_at(s: Seq<char>, i: int) -> bool {
    &&& 0 <= i
    &&& i + 8 <= s.len()
    &&& forall|k: int| 0 <= k < 8 ==> fold_letter(s[i + k]) == keyword()[k]
}

/// The position just past the run of spaces starting at `i`.
pub open spec fn space_end(s: Seq<char>, i: int) -> int
    decreases s.len() - i,
{
    if 0 <= i < s.len() && s[i] == ' ' {
        space_end(s, i + 1)
    } else {
        i
    }
}

/// The position just past the run of digits starting at `i`.
pub open spec fn digit_end(s: Seq<char>, i: int) -> int
    decreases s.len() - i,
{
    if 0 <= i < s.len() && is_digit(s[i]) {
        digit_end(s, i + 1)
    } else {
        i
    }
}

/// The base-10 value of a digit sequence.
pub open spec fn num_val(s: Seq<char>) -> int
    decreases s.len(),
{
    if s.len() == 0 {
        0
    } else {
        num_val(s.drop_last()) * 10 + digit_val(s.last())
    }
}

/// What a version match starting at position `i` yields: the keyword, then
/// spaces, then `major.minor.patch`, each number a nonempty digit run whose
/// value fits the field. Anything after the third number is ignored.
pub open spec fn version_at(s: Seq<char>, i: int) -> Option<(int, int, int)> {
    if !keyword_at(s, i) {
        None
    } else {
        let j0 = space_end(s, i + 8);
        let e1 = digit_end(s, j0);
        if e1 == j0 || !(e1 < s.len() && s[e1] == '.') {
            None
        } else {
            let j1 = e1 + 1;
            let e2 = digit_end(s, j1);
            if e2 == j1 || !(e2 < s.len() && s[e2] == '.') {
                None
            } else {
                let j2 = e2 + 1;
                let e3 = digit_end(s, j2);
                if e3 == j2 {
                    None
                } else {
                    let a = num_val(s.subrange(j0, e1));
                    let b = num_val(s.subrange(j1, e2));
                    let c = num_val(s.subrange(j2, e3));
                    if a <= u64::MAX && b <= u64::MAX && c <= u64::MAX {
                        Some((a, b, c))
                    } else {
                        None
                    }
                }
            }
        }
    }
}

/// The first version match at or after position `i`.
pub open spec fn scan_from(s: Seq<char>, i: int) -> Option<(int, int, int)>
    decreases s.len() - i,
{
    if i < 0 || i >= s.len() {
        None
    } else if version_at(s, i) is Some {
        version_at(s, i)
    } else {
        scan_from(s, i + 1)
    }
}

/// What parsing a whole text yields: its first version match, if any.
pub open spec fn parse_version(s: Seq<char>) -> Option<(int, int, int)> {
    scan_from(s, 0)
}

fn exec_is_digit(c: char) -> (b: bool)
    ensures
        b == is_digit(c),
{
    let u: u32 = c as u32;
    48 <= u && u <= 57
}

fn exec_fold_letter(c: char) -> (r: char)
    ensures
        r == fold_letter(c),
{
    if c == 'V' {
        'v'
    } else if c == 'E' {
        'e'
    } else if c == 'R' {
        'r'
    } else if c == 'S' {
        's'
    } else if c == 'I' {
        'i'
    } else if c == 'O' {
        'o'
    } else if c == 'N' {
        'n'
    } else {
        c
    }
}

fn keyword_char(k: usize) -> (r: char)
    requires
        k < 8,
    ensures
        r == keyword()[k as int],
{
    if k == 0 {
        'v'
    } else if k == 1 {
        'e'
    } else if k == 2 {
        'r'
    } else if k == 3 {
        's'
    } else if k == 4 {
        'i'
    } else if k == 5 {
        'o'
    } else {
        if k == 6 {
            'n'
        } else {
            ':'
        }
    }
}

fn exec_keyword_at(s: &str, i: usize) -> (b: bool)
    requires
        i + 8 <= s@.len(),
        s@.len() <= usize::MAX,
    ensures
        b == keyword_at(s@, i as int),
{
    let mut k: usize = 0;
    while k < 8
        invariant
            k <= 8,
            i + 8 <= s@.len(),
            s@.len() <= usize::MAX,
            forall|t: int| 0 <= t < k ==> fold_letter(s@[i + t]) == keyword()[t],
        decreases 8 - k,
    {
        let c = exec_fold_letter(s.get_char(i + k));
        let e = keyword_char(k);
        if c != e {
            assert(fold_letter(s@[i + k as int]) != keyword()[k as int]);
            return false;
        }
        k = k + 1;
    }
    true
}

fn skip_spaces(s: &str, i: usize) -> (r: usize)
    requires
        i <= s@.len(),
    ensures
        i <= r <= s@.len(),
        r == space_end(s@, i as int),
{
    let len = s.unicode_len();
    let mut j = i;
    while j < len && s.get_char(j) == ' '
        invariant
            i <= j <= len,
            len == s@.len(),
            space_end(s@, i as int) == space_end(s@, j as int),
        decreases len - j,
    {
        proof {
            assert(space_end(s@, j as int) == space_end(s@, j as int + 1));
        }
        j = j + 1;
    }
    j
}

proof fn lemma_digit_end_props(s: Seq<char>, i: int)
    requires
        0 <= i <= s.len(),
    ensures
        i <= digit_end(s, i) <= s.len(),
        forall|k: int| i <= k < digit_end(s, i) ==> is_digit(s[k]),
    decreases s.len() - i,
{
    if i < s.len() && is_digit(s[i]) {
        lemma_digit_end_props(s, i + 1);
    }
}

proof fn lemma_num_val_nonneg(s: Seq<char>)
    requires
        forall|k: int| 0 <= k < s.len() ==> is_digit(#[trigger] s[k]),
    ensures
        num_val(s) >= 0,
    decreases s.len(),
{
    if s.len() > 0 {
        lemma_num_val_nonneg(s.drop_last());
    }
}

/// A digit sequence's value only grows as digits are appended.
proof fn lemma_num_val_take_le(s: Seq<char>, n: int)
    requires
        forall|k: int| 0 <= k < s.len() ==> is_digit(#[trigger] s[k]),
        0 <= n <= s.len(),
    ensures
        num_val(s.take(n)) <= num_val(s),
    decreases s.len() - n,
{
    if n == s.len() {
        assert(s.take(n) =~= s);
    } else {
        lemma_num_val_take_le(s, n + 1);
        let t = s.take(n + 1);
        assert(t.drop_last() =~= s.take(n));
        assert(forall|k: int| 0 <= k < t.len() ==> is_digit(#[trigger] t[k]));
        lemma_num_val_nonneg(t.drop_last());
        assert(num_val(t) == num_val(s.take(n)) * 10 + digit_val(t.last()));
    }
}

/// Reads the digit run starting at `i`: its value and where it ends, or
/// nothing when the run is empty or its value does not fit a `u64`.
fn parse_number(s: &str, i: usize) -> (r: Option<(u64, usize)>)
    requires
        i <= s@.len(),
    ensures
        r matches Some(t) ==> i < t.1 && t.1 == digit_end(s@, i as int) && t.0 == num_val(
            s@.subrange(i as int, t.1 as int),
        ),
        r is None ==> digit_end(s@, i as int) == i || num_val(
            s@.subrange(i as int, digit_end(s@, i as int)),
        ) > u64::MAX,
{
    let len = s.unicode_len();
    let mut j = i;
    let mut acc: u64 = 0;
    assert(s@.subrange(i as int, i as int) =~= Seq::<char>::empty());
    while j < len && exec_is_digit(s.get_char(j))
        invariant
            i <= j <= len,
            len == s@.len(),
            digit_end(s@, i as int) == digit_end(s@, j as int),
            forall|k: int| i <= k < j ==> is_digit(#[trigger] s@[k]),
            acc == num_val(s@.subrange(i as int, j as int)),
        decreases len - j,
    {
        proof {
            assert(digit_end(s@, j as int) == digit_end(s@, j as int + 1));
        }
        let u: u32 = s.get_char(j) as u32;
        let d: u64 = (u - 48) as u64;
        proof {
            let t = s@.subrange(i as int, j as int + 1);
            assert(t.drop_last() =~= s@.subrange(i as int, j as int));
            assert(t.last() == s@[j as int]);
            assert(num_val(t) == acc * 10 + d);
        }
        let m = acc.checked_mul(10);
        let next = match m {
            Some(m) => m.checked_add(d),
            None => None,
        };
        match next {
            Some(v) => {
                acc = v;
            },
            None => {
                proof {
                    lemma_digit_end_props(s@, i as int);
                    lemma_digit_end_props(s@, j as int + 1);
                    let e = digit_end(s@, i as int);
                    let run = s@.subrange(i as int, e);
                    assert(j + 1 <= e);
                    assert(forall|k: int| 0 <= k < run.len() ==> is_digit(#[trigger] run[k]));
                    assert(run.take(j + 1 - i) =~= s@.subrange(i as int, j as int + 1));
                    lemma_num_val_take_le(run, j + 1 - i);
                    assert(num_val(run) > u64::MAX);
                }
                return None;
            },
        }
        j = j + 1;
    }
    if j == i {
        return None;
    }
    Some((acc, j))
}

/// Tries the version grammar at one position of the text.
fn version_match_at(s: &str, i: usize, len: usize) -> (r: Option<ClaudeVersion>)
    requires
        len == s@.len(),
        len <= usize::MAX,
        i < len,
    ensures
        r matches Some(v) ==> version_at(s@, i as int) == Some(
            (v.major as int, v.minor as int, v.patch as int),
        ),
        r is None ==> version_at(s@, i as int) is None,
{
    if len - i < 8 {
        return None;
    }
    if !exec_keyword_at(s, i) {
        return None;
    }
    let j0 = skip_spaces(s, i + 8);
    let first = parse_number(s, j0);
    let (a, e1) = match first {
        Some(t) => t,
        None => {
            return None;
        },
    };
    if e1 >= len {
        return None;
    }
    if s.get_char(e1) != '.' {
        return None;
    }
    let second = parse_number(s, e1 + 1);
    let (b, e2) = match second {
        Some(t) => t,
        None => {
            return None;
        },
    };
    if e2 >= len {
        return None;
    }
    if s.get_char(e2) != '.' {
        return None;
    }
    let third = parse_number(s, e2 + 1);
    let (c, _e3) = match third {
        Some(t) => t,
        None => {
            return None;
        },
    };
    Some(ClaudeVersion { major: a, minor: b, patch: c })
}

impl ClaudeVersion {
    /// Parses the first version a text reports, if any.
    pub fn from_str(text: &str) -> (r: Option<ClaudeVersion>)
        ensures
            r matches Some(v) ==> parse_version(text@) == Some(
                (v.major as int, v.minor as int, v.patch as int),
            ),
            r is None ==> parse_version(text@) is None,
    {
        let len = text.unicode_len();
        let mut i: usize = 0;
        while i < len
            invariant
                i <= len,
                len == text@.len(),
                scan_from(text@, 0) == scan_from(text@, i as int),
            decreases len - i,
        {
            let m = version_match_at(text, i, len);
            match m {
                Some(v) => {
                    proof {
                        assert(scan_from(text@, i as int) == version_at(text@, i as int));
                    }
                    return Some(v);
                },
                None => {
                    proof {
                        assert(scan_from(text@, i as int) == scan_from(text@, i as int + 1));
                    }
                },
            }
            i = i + 1;
        }
        None
    }
}

/// Where a discovered copy of the binary came from. Used only for
/// diagnostics and selection tie-breaks, never for correctness of
/// execution.
#[derive(Clone, Copy, Debug, PartialEq, Eq, Structural)]
pub enum InstallationType {
    /// A direct or system-wide install.
    Direct,
    /// An install under the user's own prefix.
    UserLocal,
    /// An install managed by a runtime version manager.
    VersionManager,
    /// A bundled or package-manager install.
    Bundled,
}

/// One discovered copy of the target binary: where it is, the version it
/// reported (absent when its output had none), and its provenance.
pub struct ClaudeInstallation {
    pub path: String,
    pub version: Option<ClaudeVersion>,
    pub install_type: InstallationType,
}

/// Candidate rank: a reported version outranks an absent one, and versions
/// compare lexicographically.
pub open spec fn rank_lt(a: Option<ClaudeVersion>, b: Option<ClaudeVersion>) -> bool {
    match (a, b) {
        (Option::None, Option::Some(_)) => true,
        (Option::Some(x), Option::Some(y)) => version_lt(x, y),
        _ => false,
    }
}

fn exec_rank_lt(a: &Option<ClaudeVersion>, b: &Option<ClaudeVersion>) -> (r: bool)
    ensures
        r == rank_lt(*a, *b),
{
    match (a, b) {
        (Option::None, Option::Some(_)) => true,
        (Option::Some(x), Option::Some(y)) => {
            x.major < y.major || (x.major == y.major && (x.minor < y.minor || (x.minor == y.minor
                && x.patch < y.patch)))
        },
        _ => false,
    }
}

/// Picks the installation to use: the highest reported version wins, and
/// among candidates of equal rank the earliest in discovery order wins.
/// Only an empty list yields no choice.
pub fn select_best_installation(installations: &Vec<ClaudeInstallation>) -> (r: Option<usize>)
    ensures
        (r is Some) == (installations@.len() > 0),
        r matches Some(bi) ==> (bi as int) < installations@.len() && (forall|k: int|
            0 <= k < installations@.len() ==> !rank_lt(
                installations@[bi as int].version,
                (#[trigger] installations@[k]).version,
            )) && (forall|k: int|
            0 <= k < bi as int ==> rank_lt(
                (#[trigger] installations@[k]).version,
                installations@[bi as int].version,
            )),
{
    if installations.len() == 0 {
        return None;
    }
    let mut best: usize = 0;
    let mut i: usize = 1;
    while i < installations.len()
        invariant
            best < i <= installations@.len(),
            forall|k: int|
                0 <= k < i ==> !rank_lt(
                    installations@[best as int].version,
                    (#[trigger] installations@[k]).version,
                ),
            forall|k: int|
                0 <= k < best ==> rank_lt(
                    (#[trigger] installations@[k]).version,
                    installations@[best as int].version,
                ),
        decreases installations@.len() - i,
    {
        if exec_rank_lt(&installations[best].version, &installations[i].version) {
            best = i;
        }
        i = i + 1;
    }
    Some(best)
}

/// The position of the last `'/'` in a path, or a negative value when
/// there is none.
pub open spec fn last_slash(s: Seq<char>) -> int
    decreases s.len(),
{
    if s.len() == 0 {
        -1
    } else if s.last() == '/' {
        s.len() - 1
    } else {
        last_slash(s.drop_last())
    }
}

/// The directory holding the named file: everything before the last `'/'`,
/// the root for a file directly under it, and empty for a bare file name.
pub open spec fn parent_dir(s: Seq<char>) -> Seq<char> {
    if last_slash(s) < 0 {
        Seq::empty()
    } else if last_slash(s) == 0 {
        seq!['/']
    } else {
        s.take(last_slash(s))
    }
}

/// The directory holding the named file.
pub fn containing_dir(path: &str) -> (r: String)
    ensures
        r@ == parent_dir(path@),
{
    let len = path.unicode_len();
    let mut j = len;
    assert(path@.take(len as int) =~= path@);
    while j > 0 && path.get_char(j - 1) != '/'
        invariant
            j <= len,
            len == path@.len(),
            last_slash(path@) == last_slash(path@.take(j as int)),
        decreases j,
    {
        proof {
            let t = path@.take(j as int);
            assert(t.last() == path@[j - 1]);
            assert(t.drop_last() =~= path@.take(j - 1));
        }
        j = j - 1;
    }
    if j == 0 {
        assert(last_slash(path@) < 0);
        String::new()
    } else {
        proof {
            let t = path@.take(j as int);
            assert(t.last() == path@[j - 1]);
            assert(last_slash(path@) == j - 1);
        }
        if j == 1 {
            let r = String::from_str("/");
            proof {
                reveal_strlit("/");
                assert(r@ =~= seq!['/']);
            }
            r
        } else {
            path.substring_char(0, j - 1).to_owned()
        }
    }
}

/// The search path to launch the named executable with: its containing
/// directory inserted unless already present, and the whole deduplicated,
/// so that repeated launches never grow the value.
pub open spec fn build_path_spec(exe: Seq<char>, current: Seq<char>) -> Seq<char> {
    dedup_path(add_if_missing(current, parent_dir(exe)))
}

/// Builds the search path for launching `executable_path`, starting from
/// the inherited value `current_path`.
pub fn build_search_path(executable_path: &str, current_path: &str) -> (r: String)
    ensures
        r@ == build_path_spec(executable_path@, current_path@),
{
    let dir = containing_dir(executable_path);
    let added = add_to_path_if_missing(current_path, dir.as_str());
    deduplicate_path(added.as_str())
}

proof fn lemma_last_slash_bounds(s: Seq<char>)
    ensures
        -1 <= last_slash(s) < s.len(),
    decreases s.len(),
{
    if s.len() > 0 && s.last() != '/' {
        lemma_last_slash_bounds(s.drop_last());
    }
}

/// Law: building the search path a second time for the same executable
/// changes nothing, so repeated launches never grow it. An executable path
/// holding the separator itself cannot name a search-path entry, so those
/// are left out.
pub proof fn lemma_build_path_idempotent(exe: Seq<char>, current: Seq<char>)
    requires
        !exe.contains(':'),
    ensures
        build_path_spec(exe, build_path_spec(exe, current)) == build_path_spec(exe, current),
{
    let d = parent_dir(exe);
    lemma_last_slash_bounds(exe);
    assert forall|k: int| 0 <= k < d.len() implies d[k] != ':' by {
        if last_slash(exe) >= 1 {
            assert(d[k] == exe[k]);
        }
    }
    assert(!d.contains(':'));
    let x = add_if_missing(current, d);
    let p1 = dedup_path(x);
    crate::path_utils::lemma_deduplicate_idempotent(x);
    if ident(d).len() > 0 {
        crate::path_utils::lemma_add_contains(current, d);
        crate::path_utils::lemma_dedup_preserves_dirs(x, d);
        assert(add_if_missing(p1, d) == p1);
    } else {
        let e = Seq::<char>::empty();
        let all = split_path(x);
        let ds = dedup_segs(all, Set::empty());
        crate::path_utils::lemma_dedup_path_entries(x);
        crate::path_model::lemma_dedup_segs_distinct(all, Set::empty());
        assert(ident(d) =~= e);
        if ds.len() == 0 {
            assert(p1 == e);
            assert(split_path(p1) == seq![e]);
            assert(ident(e) == ident(d));
            assert(ident(split_path(p1)[0]) == ident(d));
            assert(path_has_dir(p1, d));
            assert(add_if_missing(p1, d) == p1);
        } else {
            assert(split_path(p1) == ds);
            assert(!path_has_dir(p1, d)) by {
                if path_has_dir(p1, d) {
                    let i = choose|i: int|
                        0 <= i < split_path(p1).len() && ident(split_path(p1)[i]) == ident(d);
                    assert(ident(ds[i]).len() > 0);
                }
            }
            crate::path_model::lemma_trim_len_le(ds[0]);
            assert(ds[0].len() > 0);
            assert(p1.len() > 0);
            assert(add_if_missing(p1, d) == d + seq![':'] + p1);
            crate::path_model::lemma_split_prefix(d, p1);
            let s2 = d + seq![':'] + p1;
            assert(split_path(s2) == seq![d] + ds);
            assert((seq![d] + ds).skip(1) =~~= ds);
            assert((seq![d] + ds)[0] == d);
            assert(dedup_segs(seq![d] + ds, Set::empty()) == dedup_segs(ds, Set::empty()));
            crate::path_model::lemma_dedup_segs_stable(ds, Set::empty());
            assert(dedup_path(s2) == p1);
        }
    }
}

/// One environment variable of the process about to be launched.
pub struct EnvVar {
    pub name: String,
    pub value: String,
}

/// The name of the variable holding the search path.
pub open spec fn path_var_name() -> Seq<char> {
    seq!['P', 'A', 'T', 'H']
}

/// The inherited search path: the value of the first variable named
/// `PATH`, or empty when there is none.
pub open spec fn spec_current_search_path(env: Seq<EnvVar>) -> Seq<char>
    decreases env.len(),
{
    if env.len() == 0 {
        Seq::empty()
    } else if env[0].name@ == path_var_name() {
        env[0].value@
    } else {
        spec_current_search_path(env.skip(1))
    }
}

pub open spec fn has_path_var(env: Seq<EnvVar>) -> bool {
    exists|i: int| 0 <= i < env.len() && (#[trigger] env[i]).name@ == path_var_name()
}

fn path_var_key() -> (r: String)
    ensures
        r@ == path_var_name(),
{
    let r = String::from_str("PATH");
    proof {
        reveal_strlit("PATH");
        assert(r@ =~= path_var_name());
    }
    r
}

/// Reads the inherited search path out of an environment.
pub fn current_search_path(env: &Vec<EnvVar>) -> (r: String)
    ensures
        r@ == spec_current_search_path(env@),
{
    let key = path_var_key();
    let mut i: usize = 0;
    assert(env@.skip(0) =~= env@);
    while i < env.len()
        invariant
            i <= env@.len(),
            key@ == path_var_name(),
            spec_current_search_path(env@) == spec_current_search_path(env@.skip(i as int)),
        decreases env@.len() - i,
    {
        proof {
            assert(env@.skip(i as int)[0] == env@[i as int]);
            assert(env@.skip(i as int).skip(1) =~= env@.skip(i as int + 1));
        }
        if env[i].name == key {
            return env[i].value.clone();
        }
        i = i + 1;
    }
    String::new()
}

/// The full environment for launching one executable.
pub struct ExecutionEnvironment {
    pub executable_path: String,
    pub environment: Vec<EnvVar>,
}

/// Rewrites an environment so that its search path is exactly
/// `search_path`: every variable named `PATH` gets that value, one is
/// appended when none was there, and no other variable is altered.
pub fn environment_with_search_path(env: &Vec<EnvVar>, search_path: &str) -> (r: Vec<EnvVar>)
    ensures
        forall|i: int|
            0 <= i < env@.len() ==> (#[trigger] r@[i]).name@ == env@[i].name@,
        forall|i: int|
            0 <= i < env@.len() && env@[i].name@ != path_var_name() ==> (#[trigger] r@[i]).value@
                == env@[i].value@,
        forall|i: int|
            0 <= i < r@.len() && (#[trigger] r@[i]).name@ == path_var_name() ==> r@[i].value@
                == search_path@,
        has_path_var(env@) ==> r@.len() == env@.len(),
        !has_path_var(env@) ==> r@.len() == env@.len() + 1 && r@[env@.len() as int].name@
            == path_var_name(),
        has_path_var(r@),
{
    let key = path_var_key();
    let mut r: Vec<EnvVar> = Vec::new();
    let mut found = false;
    let mut i: usize = 0;
    while i < env.len()
        invariant
            i <= env@.len(),
            r@.len() == i,
            key@ == path_var_name(),
            found == has_path_var(env@.take(i as int)),
            forall|k: int| 0 <= k < i ==> (#[trigger] r@[k]).name@ == env@[k].name@,
            forall|k: int|
                0 <= k < i && env@[k].name@ != path_var_name() ==> (#[trigger] r@[k]).value@
                    == env@[k].value@,
            forall|k: int|
                0 <= k < i && (#[trigger] r@[k]).name@ == path_var_name() ==> r@[k].value@
                    == search_path@,
        decreases env@.len() - i,
    {
        proof {
            assert(env@.take(i as int + 1).drop_last() =~= env@.take(i as int));
            assert(env@.take(i as int + 1).last() == env@[i as int]);
            if has_path_var(env@.take(i as int)) {
                let k = choose|k: int|
                    0 <= k < env@.take(i as int).len() && (#[trigger] env@.take(i as int)[k]).name@
                        == path_var_name();
                assert(env@.take(i as int + 1)[k].name@ == path_var_name());
            }
        }
        if env[i].name == key {
            r.push(EnvVar { name: env[i].name.clone(), value: String::from_str(search_path) });
            found = true;
            proof {
                assert(env@.take(i as int + 1)[i as int].name@ == path_var_name());
            }
        } else {
            r.push(EnvVar { name: env[i].name.clone(), value: env[i].value.clone() });
            proof {
                if has_path_var(env@.take(i as int + 1)) {
                    let k = choose|k: int|
                        0 <= k < env@.take(i as int + 1).len() && (#[trigger] env@.take(
                            i as int + 1,
                        )[k]).name@ == path_var_name();
                    assert(k < i);
                    assert(env@.take(i as int)[k].name@ == path_var_name());
                }
            }
        }
        i = i + 1;
    }
    assert(env@.take(env@.len() as int) =~= env@);
    if !found {
        r.push(EnvVar { name: key, value: String::from_str(search_path) });
        assert(r@[env@.len() as int].name@ == path_var_name());
    } else {
        proof {
            let k = choose|k: int|
                0 <= k < env@.len() && (#[trigger] env@[k]).name@ == path_var_name();
            assert(r@[k].name@ == path_var_name());
        }
    }
    r
}

/// Builds what a launch needs: the executable itself and the inherited
/// environment, its search path extended with the executable's containing
/// directory and deduplicated, all other variables untouched.
pub fn build_execution_environment(executable_path: &str, env: &Vec<EnvVar>) -> (r:
    ExecutionEnvironment)
    ensures
        r.executable_path@ == executable_path@,
        forall|i: int|
            0 <= i < env@.len() ==> (#[trigger] r.environment@[i]).name@ == env@[i].name@,
        forall|i: int|
            0 <= i < env@.len() && env@[i].name@ != path_var_name() ==> (#[trigger] r.environment@[i]).value@
                == env@[i].value@,
        forall|i: int|
            0 <= i < r.environment@.len() && (#[trigger] r.environment@[i]).name@
                == path_var_name() ==> r.environment@[i].value@ == build_path_spec(
                executable_path@,
                spec_current_search_path(env@),
            ),
        has_path_var(env@) ==> r.environment@.len() == env@.len(),
        !has_path_var(env@) ==> r.environment@.len() == env@.len() + 1,
        has_path_var(r.environment@),
{
    let current = current_search_path(env);
    let new_path = build_search_path(executable_path, current.as_str());
    let environment = environment_with_search_path(env, new_path.as_str());
    ExecutionEnvironment { executable_path: executable_path.to_owned(), environment }
}

} // verus!
