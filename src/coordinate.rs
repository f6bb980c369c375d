//! Repository coordinates: an owner and a project name, validated on
//! construction, from which the archive URL and the content key derive.
use vstd::prelude::*;

verus! {

/// Characters that may appear in an owner or a project name.
pub open spec fn segment_char(c: char) -> bool {
    ('a' <= c && c <= 'z') || ('A' <= c && c <= 'Z') || ('0' <= c && c <= '9') || c == '-'
        || c == '_' || c == '.'
}

/// Positions `i` and `i + 1` of the text are both dots.
pub open spec fn double_dot_at(s: Seq<char>, i: int) -> bool {
    0 <= i && i + 1 < s.len() && s[i] == '.' && s[i + 1] == '.'
}

/// The text holds two dots in a row somewhere.
pub open spec fn has_double_dot(s: Seq<char>) -> bool {
    exists|i: int| #[trigger] double_dot_at(s, i)
}

/// An owner or project name that is safe to use as a path segment: not
/// empty, not `.`, made only of allowed characters (so no separator and no
/// NUL), and with no `..` in it.
pub open spec fn valid_segment(s: Seq<char>) -> bool {
    &&& s.len() > 0
    &&& s != "."@
    &&& forall|i: int| 0 <= i < s.len() ==> segment_char(#[trigger] s[i])
    &&& !has_double_dot(s)
}

/// The archive URL of the default branch of `owner/name`.
pub open spec fn archive_url_of(owner: Seq<char>, name: Seq<char>) -> Seq<char> {
    "https://github.com/"@ + owner + "/"@ + name + "/archive/master.zip"@
}

/// The content key `owner/name`.
pub open spec fn content_key_of(owner: Seq<char>, name: Seq<char>) -> Seq<char> {
    owner + "/"@ + name
}

/// Why a coordinate was refused.
#[derive(Debug, Clone, Copy, PartialEq, Eq, Structural)]
pub enum CoordinateError {
    InvalidOwner,
    InvalidName,
}

/// A validated repository coordinate.
#[derive(Debug)]
pub struct GithubProject {
    username: String,
    repo: String,
}

pub fn is_segment_char(c: char) -> (r: bool)
    ensures
        r == segment_char(c),
{
    ('a' <= c && c <= 'z') || ('A' <= c && c <= 'Z') || ('0' <= c && c <= '9') || c == '-'
        || c == '_' || c == '.'
}

/// Decides `valid_segment` in one pass over the characters.
pub fn is_valid_segment(s: &str) -> (r: bool)
    ensures
        r == valid_segment(s@),
{
    proof {
        reveal_strlit(".");
    }
    let n = s.unicode_len();
    if n == 0 {
        return false;
    }
    if n == 1 && s.get_char(0) == '.' {
        assert(s@ =~= "."@);
        return false;
    }
    let mut i: usize = 0;
    let mut prev_dot = false;
    while i < n
        invariant
            n == s@.len(),
            i <= n,
            forall|j: int| 0 <= j < i ==> segment_char(#[trigger] s@[j]),
            !has_double_dot(s@.take(i as int)),
            prev_dot == (i > 0 && s@[i - 1] == '.'),
        decreases n - i,
    {
        let c = s.get_char(i);
        if !is_segment_char(c) {
            return false;
        }
        if prev_dot && c == '.' {
            assert(double_dot_at(s@, i - 1));
            return false;
        }
        assert forall|k: int| !#[trigger] double_dot_at(s@.take(i + 1), k) by {
            if 0 <= k && k + 1 < i {
                assert(!double_dot_at(s@.take(i as int), k));
            }
        }
        prev_dot = c == '.';
        i = i + 1;
    }
    assert(s@.take(n as int) == s@);
    true
}

impl GithubProject {
    /// The owner, as it was validated.
    pub closed spec fn owner(&self) -> Seq<char> {
        self.username@
    }

    /// The project name, as it was validated.
    pub closed spec fn name(&self) -> Seq<char> {
        self.repo@
    }

    /// Both parts are valid segments.
    pub closed spec fn wf(&self) -> bool {
        valid_segment(self.username@) && valid_segment(self.repo@)
    }

    /// Builds a coordinate from untrusted input; both parts must be valid
    /// segments, the owner being checked first.
    pub fn new(username: &str, repo: &str) -> (r: Result<GithubProject, CoordinateError>)
        ensures
            match r {
                Ok(p) => {
                    &&& valid_segment(username@) && valid_segment(repo@)
                    &&& p.wf() && p.owner() == username@ && p.name() == repo@
                },
                Err(e) => {
                    &&& !valid_segment(username@) ==> e == CoordinateError::InvalidOwner
                    &&& valid_segment(username@) ==> e == CoordinateError::InvalidName
                    &&& !(valid_segment(username@) && valid_segment(repo@))
                },
            },
    {
        if !is_valid_segment(username) {
            return Err(CoordinateError::InvalidOwner);
        }
        if !is_valid_segment(repo) {
            return Err(CoordinateError::InvalidName);
        }
        Ok(GithubProject { username: username.to_owned(), repo: repo.to_owned() })
    }

    pub fn username(&self) -> (r: &str)
        ensures
            r@ == self.owner(),
    {
        self.username.as_str()
    }

    pub fn repo(&self) -> (r: &str)
        ensures
            r@ == self.name(),
    {
        self.repo.as_str()
    }

    /// The URL of the project's archive.
    pub fn archive_url(&self) -> (r: String)
        ensures
            r@ == archive_url_of(self.owner(), self.name()),
    {
        let mut r = String::from_str("https://github.com/");
        r.append(self.username.as_str());
        r.append("/");
        r.append(self.repo.as_str());
        r.append("/archive/master.zip");
        r
    }

    /// The key under which the project's documentation is published.
    pub fn content_key(&self) -> (r: String)
        ensures
            r@ == content_key_of(self.owner(), self.name()),
    {
        let mut r = String::from_str(self.username.as_str());
        r.append("/");
        r.append(self.repo.as_str());
        r
    }
}

/// A valid owner or name is safe inside a path: it holds no separator, no
/// NUL and no `..`, and is neither `.` nor `..`, so that a key built from
/// two of them names a directory two levels below the content root.
pub proof fn lemma_valid_segment_path_safe(s: Seq<char>)
    requires
        valid_segment(s),
    ensures
        forall|i: int| 0 <= i < s.len() ==> #[trigger] s[i] != '/' && s[i] != '\0',
        !has_double_dot(s),
        s.len() > 0,
        s != "."@,
        s != ".."@,
{
    reveal_strlit("..");
    if s == ".."@ {
        assert(double_dot_at(s, 0));
    }
    assert forall|i: int| 0 <= i < s.len() implies #[trigger] s[i] != '/' && s[i] != '\0' by {
        assert(segment_char(s[i]));
    }
}

} // verus!
