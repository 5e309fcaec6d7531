//! Semantic versions of the agent: parsing, ordering and text form.

use vstd::prelude::*;
use vstd::string::StringExecFns;
use core::cmp::Ordering;
use crate::text::chars_of;
use crate::text::decimal;
use crate::text::push_decimal;
use crate::text::split_on;
use crate::text::split_text;
use crate::text::find_char;
use crate::text::first_index_of;
use crate::text::has_prefix;
use crate::text::occurs_at_index;
use crate::text::strip_bounds;
use crate::text::strip_leading;
use crate::text::strip_trailing;
use crate::text::trim_bounds;
use crate::text::trim_ws;
use crate::text::texts;
use vstd::string::StrSliceExecFns;

verus! {

/// The value of a decimal digit character.
pub open spec fn digit_value(c: char) -> nat {
    (c as u32 - '0' as u32) as nat
}

pub open spec fn is_digit(c: char) -> bool {
    '0' <= c && c <= '9'
}

/// The number spelled by decimal digits.
pub open spec fn digits_value(d: Seq<char>) -> nat
    decreases d.len(),
{
    if d.len() == 0 {
        0
    } else {
        digits_value(d.drop_last()) * 10 + digit_value(d.last())
    }
}

/// A text without its leading `+`, if it has one.
pub open spec fn unsigned_digits(t: Seq<char>) -> Seq<char> {
    if t.len() > 0 && t[0] == '+' {
        t.drop_first()
    } else {
        t
    }
}

pub open spec fn all_digits(d: Seq<char>) -> bool {
    forall|i: int| 0 <= i < d.len() ==> is_digit(#[trigger] d[i])
}

/// The `u32` that a text spells the way `str::parse::<u32>` reads it: an
/// optional `+`, then one or more decimal digits, of a value that fits.
pub open spec fn u32_of_text(t: Seq<char>) -> Option<u32> {
    let d = unsigned_digits(t);
    if d.len() == 0 || !all_digits(d) {
        None
    } else if digits_value(d) > u32::MAX {
        None
    } else {
        Some(digits_value(d) as u32)
    }
}

proof fn lemma_digits_value_grows(d: Seq<char>, k: int)
    requires
        0 <= k <= d.len(),
        forall|i: int| 0 <= i < d.len() ==> is_digit(#[trigger] d[i]),
    ensures
        digits_value(d) >= digits_value(d.subrange(0, k)),
    decreases d.len(),
{
    if k < d.len() {
        let t = d.drop_last();
        assert forall|i: int| 0 <= i < t.len() implies is_digit(#[trigger] t[i]) by {
            assert(t[i] == d[i]);
        }
        lemma_digits_value_grows(t, k);
        assert(t.subrange(0, k) =~= d.subrange(0, k));
    } else {
        assert(d.subrange(0, k) =~= d);
    }
}

/// Reads a `u32` as `u32_of_text` describes.
pub fn parse_u32(t: &str) -> (r: Option<u32>)
    ensures
        r == u32_of_text(t@),
{
    let cs = chars_of(t);
    let ghost d = unsigned_digits(t@);
    let start: usize = if cs.len() > 0 && cs[0] == '+' {
        1
    } else {
        0
    };
    assert(d =~= t@.subrange(start as int, t@.len() as int));
    if start == cs.len() {
        assert(d.len() == 0);
        return None;
    }
    let mut acc: u64 = 0;
    let mut i: usize = start;
    let mut fits = true;
    assert(d.subrange(0, 0) =~= Seq::<char>::empty());
    while i < cs.len()
        invariant
            cs@ == t@,
            d == unsigned_digits(t@),
            d =~= t@.subrange(start as int, t@.len() as int),
            start <= i <= cs@.len(),
            forall|j: int| 0 <= j < i - start ==> is_digit(#[trigger] d[j]),
            fits ==> acc as nat == digits_value(d.subrange(0, i - start)),
            fits ==> acc <= u32::MAX,
            !fits ==> digits_value(d.subrange(0, i - start)) > u32::MAX,
        decreases cs.len() - i,
    {
        let c = cs[i];
        if !('0' <= c && c <= '9') {
            assert(d[i - start] == c);
            assert(!is_digit(d[i - start]));
            assert(!all_digits(d));
            return None;
        }
        let ghost prefix = d.subrange(0, i - start + 1);
        assert(prefix.drop_last() =~= d.subrange(0, i - start));
        assert(prefix.last() == c);
        if fits {
            acc = acc * 10 + (c as u64 - '0' as u64);
            if acc > 0xffff_ffff {
                fits = false;
            }
        }
        i = i + 1;
    }
    assert(d.subrange(0, i - start) =~= d);
    if fits {
        Some(acc as u32)
    } else {
        None
    }
}

/// A version as plain values.
pub struct VersionView {
    pub major: u32,
    pub minor: u32,
    pub patch: u32,
    pub pre_release: Option<Seq<char>>,
    pub build: Option<Seq<char>>,
}

pub open spec fn opt_text(o: Option<String>) -> Option<Seq<char>> {
    match o {
        Some(s) => Some(s@),
        None => None,
    }
}

/// A semantic version: `major.minor.patch`, an optional pre-release
/// identifier and optional build metadata.
#[derive(Debug, Clone, Eq)]
pub struct Version {
    pub major: u32,
    pub minor: u32,
    pub patch: u32,
    /// Pre-release identifier, such as `beta.1`.
    pub pre_release: Option<String>,
    /// Build metadata, such as `20230101`.
    pub build: Option<String>,
}

impl View for Version {
    type V = VersionView;

    open spec fn view(&self) -> VersionView {
        VersionView {
            major: self.major,
            minor: self.minor,
            patch: self.patch,
            pre_release: opt_text(self.pre_release),
            build: opt_text(self.build),
        }
    }
}

/// Why a version text could not be read.
#[derive(Debug, Clone, Copy, PartialEq, Eq)]
pub enum VersionError {
    /// More than one `+`.
    TooManyPlus,
    /// More than one `-` before the build metadata.
    TooManyDash,
    /// Not exactly three dot-separated numbers.
    WrongComponentCount,
    InvalidMajor,
    InvalidMinor,
    InvalidPatch,
    /// No `version` line with a value was found.
    NotFound,
}

/// How `parse` reads a version text: build metadata after the first `+`,
/// a pre-release identifier after the first `-` before it, and three
/// dot-separated `u32` numbers in front.
pub open spec fn version_of_text(s: Seq<char>) -> Result<VersionView, VersionError> {
    let plus = split_on(s, '+');
    if plus.len() > 2 {
        Err(VersionError::TooManyPlus)
    } else {
        let dash = split_on(plus[0], '-');
        if dash.len() > 2 {
            Err(VersionError::TooManyDash)
        } else {
            let nums = split_on(dash[0], '.');
            if nums.len() != 3 {
                Err(VersionError::WrongComponentCount)
            } else if u32_of_text(nums[0]) is None {
                Err(VersionError::InvalidMajor)
            } else if u32_of_text(nums[1]) is None {
                Err(VersionError::InvalidMinor)
            } else if u32_of_text(nums[2]) is None {
                Err(VersionError::InvalidPatch)
            } else {
                Ok(
                    VersionView {
                        major: u32_of_text(nums[0])->0,
                        minor: u32_of_text(nums[1])->0,
                        patch: u32_of_text(nums[2])->0,
                        pre_release: if dash.len() == 2 {
                            Some(dash[1])
                        } else {
                            None
                        },
                        build: if plus.len() == 2 {
                            Some(plus[1])
                        } else {
                            None
                        },
                    },
                )
            }
        }
    }
}

/// Compares two texts character by character; a proper prefix comes
/// first.
pub open spec fn text_cmp(a: Seq<char>, b: Seq<char>) -> Ordering
    decreases a.len(),
{
    if a.len() == 0 {
        if b.len() == 0 {
            Ordering::Equal
        } else {
            Ordering::Less
        }
    } else if b.len() == 0 {
        Ordering::Greater
    } else if a[0] < b[0] {
        Ordering::Less
    } else if a[0] > b[0] {
        Ordering::Greater
    } else {
        text_cmp(a.drop_first(), b.drop_first())
    }
}

pub open spec fn num_cmp(a: u32, b: u32) -> Ordering {
    if a < b {
        Ordering::Less
    } else if a > b {
        Ordering::Greater
    } else {
        Ordering::Equal
    }
}

/// Precedence of versions: numbers first, then a release above any of its
/// pre-releases, then pre-release identifiers as text. Build metadata does
/// not count.
pub open spec fn version_cmp(a: VersionView, b: VersionView) -> Ordering {
    if a.major != b.major {
        num_cmp(a.major, b.major)
    } else if a.minor != b.minor {
        num_cmp(a.minor, b.minor)
    } else if a.patch != b.patch {
        num_cmp(a.patch, b.patch)
    } else {
        match (a.pre_release, b.pre_release) {
            (None, Some(_)) => Ordering::Greater,
            (Some(_), None) => Ordering::Less,
            (None, None) => Ordering::Equal,
            (Some(x), Some(y)) => text_cmp(x, y),
        }
    }
}

/// Versions of equal precedence: all but the build metadata agree.
pub open spec fn same_precedence(a: VersionView, b: VersionView) -> bool {
    a.major == b.major && a.minor == b.minor && a.patch == b.patch && a.pre_release == b.pre_release
}

/// Compares two texts as `text_cmp` describes.
pub fn compare_text(a: &str, b: &str) -> (r: Ordering)
    ensures
        r == text_cmp(a@, b@),
{
    let x = chars_of(a);
    let y = chars_of(b);
    let mut i: usize = 0;
    assert(a@.subrange(0, a@.len() as int) =~= a@);
    assert(b@.subrange(0, b@.len() as int) =~= b@);
    while i < x.len() && i < y.len()
        invariant
            x@ == a@,
            y@ == b@,
            i <= x@.len(),
            i <= y@.len(),
            text_cmp(a@, b@) == text_cmp(a@.subrange(i as int, a@.len() as int), b@.subrange(
                i as int,
                b@.len() as int,
            )),
        decreases x.len() - i,
    {
        let ghost sa = a@.subrange(i as int, a@.len() as int);
        let ghost sb = b@.subrange(i as int, b@.len() as int);
        assert(sa[0] == x@[i as int]);
        assert(sb[0] == y@[i as int]);
        if x[i] < y[i] {
            return Ordering::Less;
        }
        if x[i] > y[i] {
            return Ordering::Greater;
        }
        assert(sa.drop_first() =~= a@.subrange(i + 1, a@.len() as int));
        assert(sb.drop_first() =~= b@.subrange(i + 1, b@.len() as int));
        i = i + 1;
    }
    if i < x.len() {
        Ordering::Greater
    } else if i < y.len() {
        Ordering::Less
    } else {
        Ordering::Equal
    }
}

fn compare_u32(a: u32, b: u32) -> (r: Ordering)
    ensures
        r == num_cmp(a, b),
{
    if a < b {
        Ordering::Less
    } else if a > b {
        Ordering::Greater
    } else {
        Ordering::Equal
    }
}

fn same_text_option(a: &Option<String>, b: &Option<String>) -> (r: bool)
    ensures
        r == (opt_text(*a) == opt_text(*b)),
{
    match (a, b) {
        (None, None) => true,
        (Some(x), Some(y)) => *x == *y,
        _ => false,
    }
}

impl Version {
    /// A version with the given parts.
    pub fn new(
        major: u32,
        minor: u32,
        patch: u32,
        pre_release: Option<String>,
        build: Option<String>,
    ) -> (r: Self)
        ensures
            r.major == major && r.minor == minor && r.patch == patch,
            r.pre_release == pre_release && r.build == build,
    {
        Version { major, minor, patch, pre_release, build }
    }

    /// Whether the version carries a pre-release identifier.
    pub fn is_pre_release(&self) -> (r: bool)
        ensures
            r == self.pre_release is Some,
    {
        self.pre_release.is_some()
    }

    /// Whether the version carries build metadata.
    pub fn has_build_metadata(&self) -> (r: bool)
        ensures
            r == self.build is Some,
    {
        self.build.is_some()
    }

    /// Reads a version text as `version_of_text` describes.
    pub fn parse(s: &str) -> (r: Result<Version, VersionError>)
        ensures
            r is Ok <==> version_of_text(s@) is Ok,
            r is Ok ==> r->Ok_0@ == version_of_text(s@)->Ok_0,
            r is Err ==> r->Err_0 == version_of_text(s@)->Err_0,
    {
        let plus = split_text(s, '+');
        if plus.len() > 2 {
            return Err(VersionError::TooManyPlus);
        }
        proof {
            crate::text::lemma_split_on_nonempty(s@, '+');
        }
        assert(plus@[0]@ == split_on(s@, '+')[0]);
        let dash = split_text(plus[0].as_str(), '-');
        if dash.len() > 2 {
            return Err(VersionError::TooManyDash);
        }
        proof {
            crate::text::lemma_split_on_nonempty(plus@[0]@, '-');
        }
        assert(dash@[0]@ == split_on(plus@[0]@, '-')[0]);
        let nums = split_text(dash[0].as_str(), '.');
        if nums.len() != 3 {
            return Err(VersionError::WrongComponentCount);
        }
        assert(nums@[0]@ == split_on(dash@[0]@, '.')[0]);
        assert(nums@[1]@ == split_on(dash@[0]@, '.')[1]);
        assert(nums@[2]@ == split_on(dash@[0]@, '.')[2]);
        let major = match parse_u32(nums[0].as_str()) {
            Some(v) => v,
            None => return Err(VersionError::InvalidMajor),
        };
        let minor = match parse_u32(nums[1].as_str()) {
            Some(v) => v,
            None => return Err(VersionError::InvalidMinor),
        };
        let patch = match parse_u32(nums[2].as_str()) {
            Some(v) => v,
            None => return Err(VersionError::InvalidPatch),
        };
        let pre_release = if dash.len() == 2 {
            assert(dash@[1]@ == split_on(plus@[0]@, '-')[1]);
            Some(dash[1].clone())
        } else {
            None
        };
        let build = if plus.len() == 2 {
            assert(plus@[1]@ == split_on(s@, '+')[1]);
            Some(plus[1].clone())
        } else {
            None
        };
        Ok(Version { major, minor, patch, pre_release, build })
    }

    /// Precedence of `self` against `other`, as `version_cmp` describes.
    pub fn compare(&self, other: &Version) -> (r: Ordering)
        ensures
            r == version_cmp(self@, other@),
    {
        if self.major != other.major {
            return compare_u32(self.major, other.major);
        }
        if self.minor != other.minor {
            return compare_u32(self.minor, other.minor);
        }
        if self.patch != other.patch {
            return compare_u32(self.patch, other.patch);
        }
        match (&self.pre_release, &other.pre_release) {
            (None, Some(_)) => Ordering::Greater,
            (Some(_), None) => Ordering::Less,
            (None, None) => Ordering::Equal,
            (Some(a), Some(b)) => compare_text(a.as_str(), b.as_str()),
        }
    }

    /// The text form: `major.minor.patch`, then `-pre_release` and
    /// `+build` where present.
    pub fn to_string(&self) -> (r: String)
        ensures
            r@ == version_text(self@),
    {
        let mut s = String::new();
        proof {
            reveal_strlit(".");
            reveal_strlit("-");
            reveal_strlit("+");
        }
        push_decimal(&mut s, self.major as u64);
        s.append(".");
        push_decimal(&mut s, self.minor as u64);
        s.append(".");
        push_decimal(&mut s, self.patch as u64);
        let ghost core = s@;
        match &self.pre_release {
            Some(p) => {
                s.append("-");
                s.append(p.as_str());
            },
            None => {},
        }
        let ghost with_pre = s@;
        match &self.build {
            Some(b) => {
                s.append("+");
                s.append(b.as_str());
            },
            None => {},
        }
        assert(s@ =~= version_text(self@));
        s
    }
}

/// The text form of a version.
pub open spec fn version_text(v: VersionView) -> Seq<char> {
    let core = decimal(v.major as nat) + seq!['.'] + decimal(v.minor as nat) + seq!['.'] + decimal(
        v.patch as nat,
    );
    let with_pre = match v.pre_release {
        Some(p) => core + seq!['-'] + p,
        None => core,
    };
    match v.build {
        Some(b) => with_pre + seq!['+'] + b,
        None => with_pre,
    }
}

impl PartialEq for Version {
    /// Versions are equal when they have equal precedence; build metadata
    /// does not count.
    fn eq(&self, other: &Version) -> (r: bool)
        ensures
            r == same_precedence(self@, other@),
    {
        self.major == other.major && self.minor == other.minor && self.patch == other.patch
            && same_text_option(&self.pre_release, &other.pre_release)
    }
}

impl vstd::std_specs::cmp::PartialEqSpecImpl for Version {
    open spec fn obeys_eq_spec() -> bool {
        true
    }

    open spec fn eq_spec(&self, other: &Version) -> bool {
        same_precedence(self@, other@)
    }
}

impl PartialOrd for Version {
    fn partial_cmp(&self, other: &Version) -> (r: Option<Ordering>)
        ensures
            r == Some(version_cmp(self@, other@)),
    {
        Some(self.compare(other))
    }
}

impl vstd::std_specs::cmp::PartialOrdSpecImpl for Version {
    open spec fn obeys_partial_cmp_spec() -> bool {
        true
    }

    open spec fn partial_cmp_spec(&self, other: &Version) -> Option<Ordering> {
        Some(version_cmp(self@, other@))
    }
}

/// A line without the `\r` of a `\r\n` ending.
pub open spec fn strip_cr(s: Seq<char>) -> Seq<char> {
    if s.len() > 0 && s.last() == '\r' {
        s.drop_last()
    } else {
        s
    }
}

/// The lines of a text as `str::lines` yields them: split at `\n`, a `\r`
/// before the `\n` dropped, and no empty line after a final `\n`.
pub open spec fn lines_of(t: Seq<char>) -> Seq<Seq<char>> {
    let p = split_on(t, '\n');
    let n: int = if p.last().len() == 0 {
        p.len() - 1
    } else {
        p.len() as int
    };
    Seq::new(
        n as nat,
        |i: int|
            if i < p.len() - 1 {
                strip_cr(p[i])
            } else {
                p[i]
            },
    )
}

/// The value of a manifest line that, trimmed, starts with `version` and
/// holds a `=`: what follows the first `=`, trimmed, without the quotes
/// around it.
pub open spec fn version_setting(line: Seq<char>) -> Option<Seq<char>> {
    let t = trim_ws(line);
    if has_prefix(t, "version"@) && first_index_of(t, '=') is Some {
        let k = first_index_of(t, '=')->0;
        Some(strip_trailing(strip_leading(trim_ws(t.subrange(k + 1int, t.len() as int)), '"'), '"'))
    } else {
        None
    }
}

/// The value of the first line that sets the version.
pub open spec fn first_setting(lines: Seq<Seq<char>>) -> Option<Seq<char>>
    decreases lines.len(),
{
    if lines.len() == 0 {
        None
    } else {
        match version_setting(lines[0]) {
            Some(v) => Some(v),
            None => first_setting(lines.drop_first()),
        }
    }
}

/// The version that a package manifest states, read as `version_of_text`
/// describes.
pub open spec fn version_of_manifest(text: Seq<char>) -> Result<VersionView, VersionError> {
    match first_setting(lines_of(text)) {
        None => Err(VersionError::NotFound),
        Some(v) => version_of_text(v),
    }
}

/// Bounds of the value that the line `cs[0..to]` sets the version to.
fn setting_bounds(cs: &Vec<char>, to: usize) -> (r: Option<(usize, usize)>)
    requires
        to <= cs@.len(),
    ensures
        match r {
            None => version_setting(cs@.subrange(0, to as int)) is None,
            Some((x, y)) => x <= y <= to && version_setting(cs@.subrange(0, to as int)) == Some(
                cs@.subrange(x as int, y as int),
            ),
        },
{
    let (a, b) = trim_bounds(cs, 0, to);
    let ghost t = cs@.subrange(a as int, b as int);
    let key = chars_of("version");
    if b - a < key.len() || !occurs_at_index(cs, &key, a) {
        proof {
            if key@.len() <= t.len() {
                assert(t.subrange(0, key@.len() as int) =~= cs@.subrange(a as int, a + key@.len()));
            }
        }
        return None;
    }
    assert(t.subrange(0, key@.len() as int) =~= cs@.subrange(a as int, a + key@.len()));
    assert(has_prefix(t, "version"@));
    match find_char(cs, a, b, '=') {
        None => None,
        Some(k) => {
            assert(t.subrange(k - a + 1, t.len() as int) =~= cs@.subrange(k + 1, b as int));
            let (c, d) = trim_bounds(cs, k + 1, b);
            let (e, f) = strip_bounds(cs, c, d, '"');
            Some((e, f))
        },
    }
}

/// The lines of a text, as `lines_of` describes.
pub fn text_lines(text: &str) -> (r: Vec<String>)
    ensures
        texts(r@) == lines_of(text@),
{
    let pieces = split_text(text, '\n');
    proof {
        crate::text::lemma_split_on_nonempty(text@, '\n');
    }
    let ghost p = split_on(text@, '\n');
    let ghost lines = lines_of(text@);
    let np = pieces.len();
    assert(pieces@[np - 1]@ == p.last());
    let count = if pieces[np - 1].as_str().unicode_len() == 0 {
        np - 1
    } else {
        np
    };
    assert(lines.len() == count);
    let mut out: Vec<String> = Vec::new();
    let mut i: usize = 0;
    assert(texts(out@) =~= lines.subrange(0, 0));
    while i < count
        invariant
            p == split_on(text@, '\n'),
            texts(pieces@) == p,
            np == pieces@.len(),
            count <= np,
            lines == lines_of(text@),
            lines.len() == count,
            i <= count,
            texts(out@) == lines.subrange(0, i as int),
        decreases count - i,
    {
        let line = &pieces[i];
        let cs = chars_of(line.as_str());
        let ghost before = out@;
        assert(pieces@[i as int]@ == p[i as int]);
        assert(p.len() == np);
        if i < np - 1 && cs.len() > 0 && cs[cs.len() - 1] == '\r' {
            let t = String::from_str(line.as_str().substring_char(0, cs.len() - 1));
            assert(t@ =~= strip_cr(p[i as int]));
            out.push(t);
        } else {
            let t = line.clone();
            out.push(t);
        }
        assert(texts(out@) =~= texts(before).push(lines[i as int]));
        i = i + 1;
        assert(lines.subrange(0, i as int) =~= lines.subrange(0, i - 1).push(lines[i - 1]));
    }
    assert(lines.subrange(0, count as int) =~= lines);
    out
}

impl Version {
    /// The version that the package manifest `text` states, as
    /// `version_of_manifest` describes.
    pub fn from_cargo_toml(text: &str) -> (r: Result<Version, VersionError>)
        ensures
            r is Ok <==> version_of_manifest(text@) is Ok,
            r is Ok ==> r->Ok_0@ == version_of_manifest(text@)->Ok_0,
            r is Err ==> r->Err_0 == version_of_manifest(text@)->Err_0,
    {
        let lines = text_lines(text);
        let ghost ls = texts(lines@);
        let mut i: usize = 0;
        assert(ls.subrange(0, ls.len() as int) =~= ls);
        while i < lines.len()
            invariant
                ls == texts(lines@),
                ls == lines_of(text@),
                i <= lines@.len(),
                first_setting(ls) == first_setting(ls.subrange(i as int, ls.len() as int)),
            decreases lines.len() - i,
        {
            let line = &lines[i];
            let cs = chars_of(line.as_str());
            let ghost rest = ls.subrange(i as int, ls.len() as int);
            assert(rest[0] == line@);
            assert(rest.drop_first() =~= ls.subrange(i + 1, ls.len() as int));
            assert(cs@.subrange(0, cs@.len() as int) =~= line@);
            match setting_bounds(&cs, cs.len()) {
                Some((e, f)) => {
                    let value = line.as_str().substring_char(e, f);
                    return Version::parse(value);
                },
                None => {},
            }
            i = i + 1;
        }
        Err(VersionError::NotFound)
    }
}

impl core::str::FromStr for Version {
    type Err = VersionError;

    fn from_str(s: &str) -> Result<Version, VersionError> {
        Version::parse(s)
    }
}

} // verus!
