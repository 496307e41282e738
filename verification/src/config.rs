//! The screensaver's configuration: which maps to show and which one a run uses.
use vstd::prelude::*;
use crate::text::string_from_chars;

verus! {

/// How the maps shown are chosen.
#[derive(Clone, Copy, Debug, PartialEq, Eq, Structural)]
pub enum MapSelection {
    /// The one map named by `map`.
    Single,
    /// The maps listed in `maps`.
    List,
    /// Every map of the install.
    All,
}

/// The map used when neither the command line nor the configuration names one.
pub open spec fn default_map() -> Seq<char> {
    seq!['d', 'e', '_', 'd', 'u', 's', 't', '2']
}

/// The map a run uses: the one given on the command line, else the one in the
/// configuration, else `de_dust2`.
pub open spec fn chosen_map(cli_map: Option<Seq<char>>, cfg_map: Option<Seq<char>>) -> Seq<char> {
    match cli_map {
        Some(m) => m,
        None => match cfg_map {
            Some(m) => m,
            None => default_map(),
        },
    }
}

/// The view of an optional string.
pub open spec fn opt_view(s: Option<String>) -> Option<Seq<char>> {
    match s {
        Some(v) => Some(v@),
        None => None,
    }
}

/// Pick the map a run uses from the command-line override and the
/// configuration's `map`.
pub fn resolve_map_name(cli_map: &Option<String>, cfg_map: &Option<String>) -> (name: String)
    ensures
        name@ == chosen_map(opt_view(*cli_map), opt_view(*cfg_map)),
{
    match cli_map {
        Some(m) => m.clone(),
        None => match cfg_map {
            Some(m) => m.clone(),
            None => string_from_chars(&['d', 'e', '_', 'd', 'u', 's', 't', '2']),
        },
    }
}

} // verus!
