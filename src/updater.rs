//! Settings of the self-update workflow and the pieces of release data it
//! reads out of tags and download addresses.

use vstd::prelude::*;
use vstd::string::StrSliceExecFns;
use vstd::string::StringExecFns;
use crate::text::chars_of;
use crate::text::has_prefix;
use crate::text::split_on;
use crate::text::split_text;
use crate::text::str_starts_with;
use crate::text::strip_leading;
use crate::text::has_infix;
use crate::text::is_white_space;
use crate::text::str_contains;
use crate::text::texts;
use crate::text::white_space;
use crate::version::lines_of;

verus! {

/// Release channel to follow.
#[derive(Debug, Clone, PartialEq, Eq)]
pub enum UpdateChannel {
    Stable,
    Beta,
    Nightly,
    Custom(String),
}

/// The tag prefix of a channel's releases.
pub open spec fn tag_prefix_of(c: UpdateChannel) -> Seq<char> {
    match c {
        UpdateChannel::Stable => "stable"@,
        UpdateChannel::Beta => "beta"@,
        UpdateChannel::Nightly => "nightly"@,
        UpdateChannel::Custom(t) => t@,
    }
}

impl UpdateChannel {
    /// The tag prefix of this channel's releases.
    pub fn as_tag_prefix(&self) -> (r: String)
        ensures
            r@ == tag_prefix_of(*self),
    {
        match self {
            UpdateChannel::Stable => String::from_str("stable"),
            UpdateChannel::Beta => String::from_str("beta"),
            UpdateChannel::Nightly => String::from_str("nightly"),
            UpdateChannel::Custom(tag) => tag.clone(),
        }
    }
}

/// Minutes between update checks when nothing else is configured.
pub const DEFAULT_CHECK_INTERVAL_MINS: u64 = 60;

/// Backups kept when nothing else is configured.
pub const DEFAULT_MAX_BACKUPS: usize = 3;

/// Seconds a health check may take when nothing else is configured.
pub const DEFAULT_HEALTH_CHECK_TIMEOUT_SECS: u64 = 30;

/// Repository whose releases are followed when nothing else is configured.
pub const DEFAULT_REPOSITORY: &'static str = "a14a-org/node-controller-rust";

/// Settings of the update workflow.
#[derive(Debug, Clone)]
pub struct UpdateConfig {
    /// Minutes between update checks.
    pub check_interval_mins: u64,
    pub channel: UpdateChannel,
    /// Whether updates are applied, or only announced.
    pub auto_update: bool,
    /// `owner/name` of the repository whose releases are followed.
    pub repository: String,
    /// Directory for backups and downloads.
    pub update_dir: String,
    pub max_backups: usize,
    /// Commands run after a successful update.
    pub post_update_commands: Vec<String>,
    /// Seconds a health check after an update may take.
    pub health_check_timeout_secs: u64,
}

impl UpdateConfig {
    /// The default settings, keeping updates in `update_dir`.
    pub fn with_update_dir(update_dir: String) -> (r: Self)
        ensures
            r.check_interval_mins == DEFAULT_CHECK_INTERVAL_MINS,
            r.channel == UpdateChannel::Stable,
            !r.auto_update,
            r.repository@ == DEFAULT_REPOSITORY@,
            r.update_dir@ == update_dir@,
            r.max_backups == DEFAULT_MAX_BACKUPS,
            r.post_update_commands@.len() == 0,
            r.health_check_timeout_secs == DEFAULT_HEALTH_CHECK_TIMEOUT_SECS,
    {
        UpdateConfig {
            check_interval_mins: DEFAULT_CHECK_INTERVAL_MINS,
            channel: UpdateChannel::Stable,
            auto_update: false,
            repository: String::from_str(DEFAULT_REPOSITORY),
            update_dir,
            max_backups: DEFAULT_MAX_BACKUPS,
            post_update_commands: Vec::new(),
            health_check_timeout_secs: DEFAULT_HEALTH_CHECK_TIMEOUT_SECS,
        }
    }
}

/// A release found on the release server.
#[derive(Debug, Clone, PartialEq, Eq)]
pub struct GithubReleaseInfo {
    /// The release version, such as `1.2.3`.
    pub version: String,
    pub tag_name: String,
    pub name: String,
    /// Release notes.
    pub body: String,
    pub prerelease: bool,
    pub published_at: String,
    /// Download address of the binary asset.
    pub download_url: String,
    /// Size of the asset in bytes.
    pub size: u64,
    /// SHA-256 checksum of the asset, when the notes give one.
    pub sha256: Option<String>,
}

/// Why release data could not be read.
#[derive(Debug, Clone, Copy, PartialEq, Eq)]
pub enum UpdateError {
    /// The tag has the channel prefix and nothing after it.
    NoVersionInTag,
    /// The tag has neither the channel prefix nor a leading `v`.
    UnrecognizedTag,
}

/// The last `/`-separated piece of a download address: the file name.
pub open spec fn file_name_of_url(url: Seq<char>) -> Seq<char> {
    split_on(url, '/').last()
}

/// The file name at the end of a download address.
pub fn extract_filename_from_url(url: &str) -> (r: Result<String, UpdateError>)
    ensures
        r is Ok,
        r->Ok_0@ == file_name_of_url(url@),
{
    let mut pieces = split_text(url, '/');
    proof {
        crate::text::lemma_split_on_nonempty(url@, '/');
    }
    match pieces.pop() {
        Some(last) => {
            assert(last@ == file_name_of_url(url@));
            Ok(last)
        },
        None => {
            assert(false);
            Ok(String::new())
        },
    }
}

/// The version part of a release tag. With a non-empty `prefix` that the
/// tag starts with, it is the rest of the tag after the prefix and after
/// any `-`s and then any `.`s that follow it; otherwise a tag `v…` gives
/// what follows the `v`.
pub open spec fn version_of_tag(tag: Seq<char>, prefix: Seq<char>) -> Result<Seq<char>, UpdateError> {
    if prefix.len() > 0 && has_prefix(tag, prefix) {
        let rest = strip_leading(strip_leading(tag.subrange(prefix.len() as int, tag.len() as int), '-'), '.');
        if rest.len() == 0 {
            Err(UpdateError::NoVersionInTag)
        } else {
            Ok(rest)
        }
    } else if tag.len() > 1 && tag[0] == 'v' {
        Ok(tag.drop_first())
    } else {
        Err(UpdateError::UnrecognizedTag)
    }
}

/// Index of the first character of `s` at or after `from` that is not `c`.
fn skip_run(s: &Vec<char>, from: usize, c: char) -> (r: usize)
    requires
        from <= s@.len(),
    ensures
        from <= r <= s@.len(),
        s@.subrange(r as int, s@.len() as int) == strip_leading(s@.subrange(from as int, s@.len() as int), c),
{
    let mut i = from;
    while i < s.len() && s[i] == c
        invariant
            from <= i <= s@.len(),
            strip_leading(s@.subrange(from as int, s@.len() as int), c) == strip_leading(
                s@.subrange(i as int, s@.len() as int),
                c,
            ),
        decreases s.len() - i,
    {
        assert(s@.subrange(i as int, s@.len() as int).drop_first() =~= s@.subrange(i + 1, s@.len() as int));
        i = i + 1;
    }
    assert(strip_leading(s@.subrange(i as int, s@.len() as int), c) == s@.subrange(i as int, s@.len() as int));
    i
}

/// The version part of a release tag, as `version_of_tag` describes.
pub fn extract_version_from_tag(tag: &str, prefix: &str) -> (r: Result<String, UpdateError>)
    ensures
        r is Ok <==> version_of_tag(tag@, prefix@) is Ok,
        r is Ok ==> r->Ok_0@ == version_of_tag(tag@, prefix@)->Ok_0,
        r is Err ==> r->Err_0 == version_of_tag(tag@, prefix@)->Err_0,
{
    let cs = chars_of(tag);
    let plen = prefix.unicode_len();
    if plen > 0 && str_starts_with(tag, prefix) {
        let a = skip_run(&cs, plen, '-');
        let b = skip_run(&cs, a, '.');
        if b == cs.len() {
            assert(cs@.subrange(b as int, cs@.len() as int).len() == 0);
            return Err(UpdateError::NoVersionInTag);
        }
        return Ok(String::from_str(tag.substring_char(b, cs.len())));
    }
    if cs.len() > 1 && cs[0] == 'v' {
        assert(tag@.subrange(1, tag@.len() as int) =~= tag@.drop_first());
        return Ok(String::from_str(tag.substring_char(1, cs.len())));
    }
    Err(UpdateError::UnrecognizedTag)
}

/// The words of `s`: its maximal runs of characters that are not white
/// space, as `str::split_whitespace` yields them.
pub open spec fn words(s: Seq<char>) -> Seq<Seq<char>>
    decreases s.len(),
{
    if s.len() == 0 {
        Seq::empty()
    } else {
        let w = words(s.drop_last());
        if is_white_space(s.last()) {
            w
        } else if s.len() >= 2 && !is_white_space(s[s.len() - 2]) {
            w.update(w.len() - 1, w.last().push(s.last()))
        } else {
            w.push(seq![s.last()])
        }
    }
}

pub open spec fn is_hex_digit(c: char) -> bool {
    ('0' <= c && c <= '9') || ('a' <= c && c <= 'f') || ('A' <= c && c <= 'F')
}

/// A word that can be a SHA-256 checksum: 64 hex digits.
pub open spec fn is_checksum_word(w: Seq<char>) -> bool {
    w.len() == 64 && forall|i: int| 0 <= i < 64 ==> #[trigger] is_hex_digit(w[i])
}

/// The first checksum word of a list, if any.
pub open spec fn first_checksum(ws: Seq<Seq<char>>) -> Option<Seq<char>>
    decreases ws.len(),
{
    if ws.len() == 0 {
        None
    } else if is_checksum_word(ws[0]) {
        Some(ws[0])
    } else {
        first_checksum(ws.drop_first())
    }
}

/// The checksum a release-notes line gives: when its lower-cased form
/// mentions `sha256` or `checksum`, its first word of 64 hex digits.
pub open spec fn line_checksum(line: Seq<char>, lowered: Seq<char>) -> Option<Seq<char>> {
    if has_infix(lowered, "sha256"@) || has_infix(lowered, "checksum"@) {
        first_checksum(words(line))
    } else {
        None
    }
}

/// The lower-case form of a text.
pub uninterp spec fn lower_of(s: Seq<char>) -> Seq<char>;

/// The checksum given by the first line of the notes that gives one.
pub open spec fn notes_checksum(lines: Seq<Seq<char>>) -> Option<Seq<char>>
    decreases lines.len(),
{
    if lines.len() == 0 {
        None
    } else {
        match line_checksum(lines[0], lower_of(lines[0])) {
            Some(h) => Some(h),
            None => notes_checksum(lines.drop_first()),
        }
    }
}

/// Relies on `str::to_lowercase`: the result depends on the characters
/// alone.
#[verifier::external_body]
fn lowercase(s: &str) -> (r: String)
    ensures
        r@ == lower_of(s@),
{
    s.to_lowercase()
}

/// The words of a text, as `words` describes.
pub fn split_words(s: &str) -> (r: Vec<String>)
    ensures
        texts(r@) == words(s@),
{
    let cs = chars_of(s);
    let n = cs.len();
    let mut pieces: Vec<String> = Vec::new();
    let mut start: usize = 0;
    let mut in_word = false;
    let mut i: usize = 0;
    assert(texts(pieces@) =~= Seq::<Seq<char>>::empty());
    assert(s@.subrange(0, 0) =~= Seq::<char>::empty());
    while i < n
        invariant
            n == s@.len(),
            cs@ == s@,
            i <= n,
            in_word == (i > 0 && !is_white_space(s@[i - 1])),
            in_word ==> start < i && words(s@.subrange(0, i as int)) == texts(pieces@).push(
                s@.subrange(start as int, i as int),
            ),
            !in_word ==> words(s@.subrange(0, i as int)) == texts(pieces@),
        decreases n - i,
    {
        let ghost prefix = s@.subrange(0, i + 1);
        assert(prefix.drop_last() =~= s@.subrange(0, i as int));
        assert(prefix.last() == cs@[i as int]);
        if i > 0 {
            assert(prefix[i - 1] == s@[i - 1]);
        }
        let c = cs[i];
        if white_space(c) {
            if in_word {
                let ghost before = pieces@;
                pieces.push(String::from_str(s.substring_char(start, i)));
                assert(texts(pieces@) =~= texts(before).push(s@.subrange(start as int, i as int)));
            }
            in_word = false;
        } else {
            if in_word {
                assert(s@.subrange(start as int, i as int).push(c) =~= s@.subrange(start as int, i + 1));
                assert(words(prefix) =~= texts(pieces@).push(s@.subrange(start as int, i + 1)));
            } else {
                start = i;
                assert(s@.subrange(start as int, i + 1) =~= seq![c]);
            }
            in_word = true;
        }
        i = i + 1;
    }
    assert(s@.subrange(0, n as int) =~= s@);
    if in_word {
        let ghost before = pieces@;
        pieces.push(String::from_str(s.substring_char(start, n)));
        assert(texts(pieces@) =~= texts(before).push(s@.subrange(start as int, n as int)));
    }
    pieces
}

fn checksum_word(w: &str) -> (r: bool)
    ensures
        r == is_checksum_word(w@),
{
    let cs = chars_of(w);
    if cs.len() != 64 {
        return false;
    }
    let mut i: usize = 0;
    while i < 64
        invariant
            cs@ == w@,
            cs@.len() == 64,
            i <= 64,
            forall|j: int| 0 <= j < i ==> #[trigger] is_hex_digit(w@[j]),
        decreases 64 - i,
    {
        let c = cs[i];
        if !(('0' <= c && c <= '9') || ('a' <= c && c <= 'f') || ('A' <= c && c <= 'F')) {
            assert(!is_hex_digit(w@[i as int]));
            return false;
        }
        i = i + 1;
    }
    true
}

/// The checksum that a release-notes line gives, given the line and its
/// lower-cased form, as `line_checksum` describes.
pub fn sha256_in_line(line: &str, lowered: &str) -> (r: Option<String>)
    ensures
        r is Some <==> line_checksum(line@, lowered@) is Some,
        r is Some ==> r->0@ == line_checksum(line@, lowered@)->0,
{
    if !(str_contains(lowered, "sha256") || str_contains(lowered, "checksum")) {
        return None;
    }
    let ws = split_words(line);
    let ghost all = texts(ws@);
    let mut i: usize = 0;
    assert(all.subrange(0, all.len() as int) =~= all);
    while i < ws.len()
        invariant
            all == texts(ws@),
            all == words(line@),
            has_infix(lowered@, "sha256"@) || has_infix(lowered@, "checksum"@),
            i <= ws@.len(),
            first_checksum(all) == first_checksum(all.subrange(i as int, all.len() as int)),
        decreases ws.len() - i,
    {
        let ghost rest = all.subrange(i as int, all.len() as int);
        assert(rest[0] == ws@[i as int]@);
        assert(rest.drop_first() =~= all.subrange(i + 1, all.len() as int));
        if checksum_word(ws[i].as_str()) {
            return Some(ws[i].clone());
        }
        i = i + 1;
    }
    None
}

/// The SHA-256 checksum that release notes give: from the first line that
/// mentions `sha256` or `checksum` in any case and holds a word of 64 hex
/// digits, that word.
pub fn extract_sha256_from_body(body: &str) -> (r: Option<String>)
    ensures
        r is Some <==> notes_checksum(lines_of(body@)) is Some,
        r is Some ==> r->0@ == notes_checksum(lines_of(body@))->0,
{
    let lines = crate::version::text_lines(body);
    let ghost ls = texts(lines@);
    let mut i: usize = 0;
    assert(ls.subrange(0, ls.len() as int) =~= ls);
    while i < lines.len()
        invariant
            ls == texts(lines@),
            ls == lines_of(body@),
            i <= lines@.len(),
            notes_checksum(ls) == notes_checksum(ls.subrange(i as int, ls.len() as int)),
        decreases lines.len() - i,
    {
        let ghost rest = ls.subrange(i as int, ls.len() as int);
        assert(rest[0] == lines@[i as int]@);
        assert(rest.drop_first() =~= ls.subrange(i + 1, ls.len() as int));
        let lowered = lowercase(lines[i].as_str());
        match sha256_in_line(lines[i].as_str(), lowered.as_str()) {
            Some(h) => {
                return Some(h);
            },
            None => {},
        }
        i = i + 1;
    }
    None
}

} // verus!
