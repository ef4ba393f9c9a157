//! Where the sources of the configuration are found.

use vstd::prelude::*;

verus! {

/// The name under which the program is known: the directory of its user
/// configuration, and the title of its dialogs.
pub const APPLICATION: &'static str = "binfmt-dispatcher";

/// The directory of the drop-in fragments.
pub const DROP_IN_DIRECTORY: &'static str = "/usr/lib/binfmt-dispatcher.d";

/// The system-wide configuration file.
pub const SYSTEM_FILE: &'static str = "/etc/binfmt-dispatcher.toml";

/// The name of the user's configuration file, below the directory of the
/// application in the user's configuration root.
pub const USER_FILE: &'static str = "binfmt-dispatcher.toml";

/// A file name has the extension of a configuration file: it ends in
/// `.toml`, and something stands before that.
pub open spec fn has_config_extension(file_name: Seq<char>) -> bool {
    &&& file_name.len() > 5
    &&& file_name.subrange(file_name.len() - 5, file_name.len() as int) == ".toml"@
}

/// Says whether a file of the drop-in directory is a fragment, going by
/// its name; `file_name` is the name without the directory.
pub fn is_drop_in(file_name: &str) -> (fragment: bool)
    ensures
        fragment == has_config_extension(file_name@),
{
    let n = file_name.unicode_len();
    if n <= 5 {
        false
    } else {
        let tail = file_name.substring_char(n - 5, n);
        tail.to_owned() == ".toml".to_owned()
    }
}

} // verus!
