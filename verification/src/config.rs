//! The configuration-type dispatch: which file under the configuration
//! directory a named configuration kind lives in.

use vstd::prelude::*;

use crate::strings::str_equal;

verus! {

/// The file name for a configuration kind: `mcp` is the server list,
/// `global` the settings file; any other kind (including the reserved
/// `hook`) has no file yet.
pub fn config_file_name(config_type: &str) -> (r: Option<&'static str>)
    ensures
        match r {
            Some(n) => (config_type@ == "mcp"@ && n@ == "mcp.json"@) || (config_type@ == "global"@
                && n@ == "settings.json"@),
            None => config_type@ != "mcp"@ && config_type@ != "global"@,
        },
{
    if str_equal(config_type, "mcp") {
        Some("mcp.json")
    } else if str_equal(config_type, "global") {
        Some("settings.json")
    } else {
        None
    }
}

} // verus!
