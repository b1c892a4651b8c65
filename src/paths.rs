//! Where packages are downloaded and installed.

use vstd::prelude::*;

use crate::text::{contains, contains_text};

verus! {

/// The download location of a package.
pub fn get_temp_path(package: &str) -> (r: String)
    ensures
        r@ == "/tmp/cs2-haskell-"@ + package@,
{
    let mut r = String::from_str("/tmp/cs2-haskell-");
    r.append(package);
    r
}

/// The install location of a package.
pub fn get_final_path(package: &str) -> (r: String)
    ensures
        r@ == "/usr/local/share/cs2-haskell/"@ + package@,
{
    let mut r = String::from_str("/usr/local/share/cs2-haskell/");
    r.append(package);
    r
}

/// The advice to give when the search path `path_var` does not mention
/// `directory`; nothing when it does.
pub fn path_var_warning(path_var: &str, directory: &str) -> (r: Option<String>)
    ensures
        contains_text(path_var@, directory@) ==> r is None,
        !contains_text(path_var@, directory@) ==> (r matches Some(m) && m@ == "You need to add "@
            + directory@ + " to your PATH environment variable."@),
{
    if contains(path_var, directory) {
        None
    } else {
        let mut m = String::from_str("You need to add ");
        m.append(directory);
        m.append(" to your PATH environment variable.");
        Some(m)
    }
}

} // verus!
