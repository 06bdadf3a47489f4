//! Registry path rules: where a named profile lives below the
//! configuration directory.  The configuration directory and the
//! platform separator are inputs here; looking them up is the caller's
//! business.

use vstd::prelude::*;

verus! {

use vstd::string::StrSliceExecFns;
use vstd::string::StringExecFns;

use crate::text::spec_ends_with;
use crate::text::str_ends_with;

/// The canonical on-disk path of a profile: the `profiles` directory
/// under the configuration directory, then the name, with the profile
/// extension appended unless the name already carries it.
pub open spec fn spec_profile_path(config_dir: Seq<char>, sep: Seq<char>, name: Seq<char>) -> Seq<
    char,
> {
    let base = config_dir + "profiles"@ + sep + name;
    if spec_ends_with(name, ".bincode"@) {
        base
    } else {
        base + ".bincode"@
    }
}

/// Resolve a profile name to its on-disk path under `config_dir`.
pub fn get_profile_path(profile_name: String, config_dir: &str, sep: &str) -> (r: String)
    ensures
        r@ == spec_profile_path(config_dir@, sep@, profile_name@),
{
    let base = String::from_str(config_dir).concat("profiles").concat(sep).concat(
        profile_name.as_str(),
    );
    if str_ends_with(profile_name.as_str(), ".bincode") {
        base
    } else {
        base.concat(".bincode")
    }
}

/// A name with the profile extension resolves to the same path as the
/// bare name: appending the extension changes nothing.
pub proof fn lemma_profile_path_extension(config_dir: Seq<char>, sep: Seq<char>, name: Seq<char>)
    requires
        !spec_ends_with(name, ".bincode"@),
    ensures
        spec_profile_path(config_dir, sep, name + ".bincode"@) == spec_profile_path(
            config_dir,
            sep,
            name,
        ),
{
    let ext = ".bincode"@;
    let withext = name + ext;
    assert(spec_ends_with(withext, ext)) by {
        assert(withext.subrange(
            withext.len() - ext.len(),
            withext.len() as int,
        ) =~= ext);
    }
    assert(config_dir + "profiles"@ + sep + withext =~= (config_dir + "profiles"@ + sep + name)
        + ext);
}

} // verus!
