//! The packages that the tool installs and updates, and the decisions taken
//! on what their commands and downloads hand back.

use vstd::prelude::*;

use crate::parse::{captures_of, first_captures};
use crate::text::{
    ascii_case_equal, contains, contains_text, eq_ignore_ascii_case, replace_all, replaced, views,
};

verus! {

/// Where the latest release of lambdananas is described.
pub const LAMBDANANAS_RELEASE_API: &'static str =
    "https://api.github.com/repos/Epitech/lambdananas/releases/latest";

/// The download link of a lambdananas release, with `$REPLACE` standing for
/// its tag.
pub const LAMBDANANAS_RELEASE_LINK: &'static str =
    "https://github.com/Epitech/lambdananas/releases/download/$REPLACE/lambdananas";

/// The user agent sent with requests.
pub const CS2_USER_AGENT: &'static str = "cs2-haskell <https://github.com/hugoschool/cs2-haskell>";

/// Finds the tag name in a release description.
pub const TAG_PATTERN: &'static str = "tag_name\":\"(.*?)\".*";

/// The placeholder for the tag in a release link.
pub const TAG_PLACEHOLDER: &'static str = "$REPLACE";

/// What `git pull` prints when there is nothing new.
pub const UP_TO_DATE: &'static str = "Already up to date.";

#[derive(Clone, Copy, PartialEq, Eq, Structural, Debug)]
pub enum Packages {
    Cs2Haskell,
    Lambdananas,
}

/// The name of a package.
pub open spec fn package_name(p: Packages) -> Seq<char> {
    match p {
        Packages::Cs2Haskell => "cs2-haskell"@,
        Packages::Lambdananas => "lambdananas"@,
    }
}

/// The package that a name gives, up to ASCII case.
pub open spec fn package_named(s: Seq<char>) -> Option<Packages> {
    if ascii_case_equal(s, "cs2-haskell"@) {
        Some(Packages::Cs2Haskell)
    } else if ascii_case_equal(s, "lambdananas"@) {
        Some(Packages::Lambdananas)
    } else {
        None
    }
}

impl Packages {
    pub fn as_str(&self) -> (r: &'static str)
        ensures
            r@ == package_name(*self),
    {
        match *self {
            Self::Cs2Haskell => "cs2-haskell",
            Self::Lambdananas => "lambdananas",
        }
    }

    /// Reads a package name, ignoring ASCII case.
    pub fn from_str(input: &str) -> (r: Option<Packages>)
        ensures
            r == package_named(input@),
    {
        if eq_ignore_ascii_case(input, "cs2-haskell") {
            Some(Self::Cs2Haskell)
        } else if eq_ignore_ascii_case(input, "lambdananas") {
            Some(Self::Lambdananas)
        } else {
            None
        }
    }

    /// The installed files that show the package is present.
    pub fn get_packages(&self) -> (r: &'static [&'static str])
        ensures
            *self == Packages::Lambdananas ==> r@.len() == 1 && r@[0]@
                == "/usr/local/bin/lambdananas"@,
            *self == Packages::Cs2Haskell ==> r@.len() == 0,
    {
        match *self {
            Self::Lambdananas => &["/usr/local/bin/lambdananas"],
            _ => &[],
        }
    }
}

/// The download link of the release that `response` describes: the first
/// tag name in it put in place of every placeholder of `link`.
pub open spec fn release_link_for(link: Seq<char>, response: Seq<char>) -> Option<Seq<char>> {
    match captures_of(TAG_PATTERN@, response) {
        Some(c) => if c.len() >= 2 {
            Some(replaced(link, TAG_PLACEHOLDER@, c[1]))
        } else {
            None
        },
        None => None,
    }
}

/// Builds the download link of the latest release from the release
/// description; nothing when the description names no tag.
pub fn release_download_link(release_link: &str, api_response: &str) -> (r: Option<String>)
    ensures
        match release_link_for(release_link@, api_response@) {
            None => r is None,
            Some(l) => r matches Some(s) && s@ == l,
        },
{
    proof {
        reveal_strlit("$REPLACE");
    }
    match first_captures(TAG_PATTERN, api_response) {
        Some(groups) => {
            if groups.len() >= 2 {
                assert(groups@[1]@ == views(groups@)[1]);
                Some(replace_all(release_link, TAG_PLACEHOLDER, groups[1].as_str()))
            } else {
                None
            }
        },
        None => None,
    }
}

/// Whether a pull brought something new, going by what `git pull` printed.
pub fn needs_rebuild(pull_stdout: &str) -> (r: bool)
    ensures
        r == !contains_text(pull_stdout@, UP_TO_DATE@),
{
    !contains(pull_stdout, UP_TO_DATE)
}

} // verus!
