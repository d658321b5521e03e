//! Version information for the `px` application.

use vstd::prelude::*;
use crate::text::{all_digits, chars_of, dec, digits_value, parse_digits, push_str, push_u64, string_from};

verus! {

/// Return the application version.
pub fn version() -> (v: &'static str)
    ensures
        v@ == "0.1.0"@,
{
    "0.1.0"
}

/// Information about the git repository the application was built from.
#[derive(Debug, Clone)]
pub struct CommitInfo {
    pub short_commit_hash: String,
    pub commit_hash: String,
    pub commit_date: String,
    pub last_tag: Option<String>,
    pub commits_since_last_tag: u32,
}

/// Version information for the application itself (e.g. in `px self
/// version`).
#[derive(Debug, Clone)]
pub struct SelfVersionInfo {
    /// Name of the package (always "px").
    pub package_name: String,
    /// Version, such as "0.5.1".
    pub version: String,
    /// Information about the git commit it may have been built from;
    /// `None` if not built from a git repository or if retrieval failed.
    pub commit_info: Option<CommitInfo>,
    /// The target triple it was built for (e.g. `x86_64-unknown-linux-gnu`).
    pub target_triple: String,
}

/// `+<commits>` when there are commits since the last tag.
pub open spec fn commits_text(n: u32) -> Seq<char> {
    if n > 0 { seq!['+'] + dec(n as nat) } else { seq![] }
}

/// `<version>[+<commits>] ([<commit> <date> ]<target>)`.
pub open spec fn version_text(v: SelfVersionInfo) -> Seq<char> {
    match v.commit_info {
        Some(ci) => v.version@ + commits_text(ci.commits_since_last_tag) + seq![' ', '('] + ci.short_commit_hash@
            + seq![' '] + ci.commit_date@ + seq![' '] + v.target_triple@ + seq![')'],
        None => v.version@ + seq![' ', '('] + v.target_triple@ + seq![')'],
    }
}

/// `[+<commits>] (<commit> <date>)`.
pub open spec fn commit_text(c: CommitInfo) -> Seq<char> {
    commits_text(c.commits_since_last_tag) + seq![' ', '('] + c.short_commit_hash@ + seq![' '] + c.commit_date@
        + seq![')']
}

fn push_commits(s: &mut String, n: u32)
    ensures
        final(s)@ == old(s)@ + commits_text(n),
{
    if n > 0 {
        crate::text::push_char(s, '+');
        push_u64(s, n as u64);
        assert(final(s)@ =~= old(s)@ + commits_text(n));
    } else {
        assert(old(s)@ + commits_text(n) =~= old(s)@);
    }
}

impl CommitInfo {
    /// The commit as shown after a version: `[+<commits>] (<commit>
    /// <date>)`.
    pub fn display_text(&self) -> (s: String)
        ensures
            s@ == commit_text(*self),
    {
        let mut s = String::new();
        push_commits(&mut s, self.commits_since_last_tag);
        push_str(&mut s, " (");
        push_str(&mut s, self.short_commit_hash.as_str());
        push_str(&mut s, " ");
        push_str(&mut s, self.commit_date.as_str());
        push_str(&mut s, ")");
        proof {
            reveal_strlit(" (");
            reveal_strlit(" ");
            reveal_strlit(")");
        }
        assert(s@ =~= commit_text(*self));
        s
    }
}

impl SelfVersionInfo {
    /// Formatted version information:
    /// `<version>[+<commits>] ([<commit> <date> ]<target>)`, without the
    /// package name.
    pub fn display_text(&self) -> (s: String)
        ensures
            s@ == version_text(*self),
    {
        let mut s = string_from(self.version.as_str());
        match &self.commit_info {
            Some(ci) => {
                push_commits(&mut s, ci.commits_since_last_tag);
                push_str(&mut s, " (");
                push_str(&mut s, ci.short_commit_hash.as_str());
                push_str(&mut s, " ");
                push_str(&mut s, ci.commit_date.as_str());
                push_str(&mut s, " ");
            },
            None => {
                push_str(&mut s, " (");
            },
        }
        push_str(&mut s, self.target_triple.as_str());
        push_str(&mut s, ")");
        proof {
            reveal_strlit(" (");
            reveal_strlit(" ");
            reveal_strlit(")");
        }
        assert(s@ =~= version_text(*self));
        s
    }
}

/// What the build environment recorded about the commit and the target;
/// each commit field is absent when the build was not made from a git
/// checkout.
pub struct BuildEnv {
    pub commit_hash: Option<String>,
    pub commit_short_hash: Option<String>,
    pub commit_date: Option<String>,
    pub last_tag: Option<String>,
    pub last_tag_distance: Option<String>,
    pub target_triple: String,
}

/// `str::parse::<u32>()`: an optional `+`, then at least one digit, with a
/// value that fits in a `u32`.
pub open spec fn parse_u32_text(s: Seq<char>) -> Option<int> {
    let body = if s.len() > 0 && s[0] == '+' { s.drop_first() } else { s };
    if body.len() > 0 && all_digits(body) && digits_value(body) <= u32::MAX {
        Some(digits_value(body))
    } else {
        None
    }
}

/// The number of commits since the last tag: the text parsed as a `u32`,
/// or 0 when it is not one.
pub fn tag_distance(t: &str) -> (n: u32)
    ensures
        n == match parse_u32_text(t@) {
            Some(v) => v,
            None => 0,
        },
{
    let cs = chars_of(t);
    let lo: usize = if cs.len() > 0 && cs[0] == '+' { 1 } else { 0 };
    let ghost body = if t@.len() > 0 && t@[0] == '+' { t@.drop_first() } else { t@ };
    assert(cs@.subrange(lo as int, cs@.len() as int) =~= body);
    match parse_digits(&cs, lo, cs.len(), 0xffff_ffff) {
        Some(v) => v as u32,
        None => 0,
    }
}

/// Returns information about the application's version, from what the
/// build environment recorded.
pub fn px_self_version(env: BuildEnv) -> (v: SelfVersionInfo)
    requires
        env.commit_hash is Some ==> env.commit_short_hash is Some && env.commit_date is Some,
    ensures
        v.package_name@ == "px"@,
        v.version@ == "0.1.0"@,
        v.target_triple == env.target_triple,
        match env.commit_hash {
            None => v.commit_info is None,
            Some(h) => v.commit_info matches Some(ci) && ci.commit_hash == h && Some(ci.short_commit_hash)
                == env.commit_short_hash && Some(ci.commit_date) == env.commit_date && ci.last_tag == env.last_tag
                && ci.commits_since_last_tag == match env.last_tag_distance {
                Some(d) => match parse_u32_text(d@) {
                    Some(n) => n,
                    None => 0,
                },
                None => 0,
            },
        },
{
    let BuildEnv { commit_hash, commit_short_hash, commit_date, last_tag, last_tag_distance, target_triple } = env;
    let commit_info = match commit_hash {
        None => None,
        Some(commit_hash) => {
            let commits_since_last_tag = match &last_tag_distance {
                Some(d) => tag_distance(d.as_str()),
                None => 0,
            };
            Some(
                CommitInfo {
                    short_commit_hash: commit_short_hash.unwrap(),
                    commit_hash,
                    commit_date: commit_date.unwrap(),
                    last_tag,
                    commits_since_last_tag,
                },
            )
        },
    };
    SelfVersionInfo { package_name: string_from("px"), version: string_from(version()), commit_info, target_triple }
}

} // verus!
