//! Defaults of the applet's configuration (its font size, a float, is kept
//! by the application around this library).
use vstd::prelude::*;

verus! {

/// Long lines wrap by default.
pub fn default_wrap_lines() -> (r: bool)
    ensures
        r,
{
    true
}

/// The default names of the three tabs: "Notes", "Snippets", "Scratch".
pub fn default_tab_names() -> (r: [String; 3])
    ensures
        r[0]@ == "Notes"@,
        r[1]@ == "Snippets"@,
        r[2]@ == "Scratch"@,
{
    [String::from_str("Notes"), String::from_str("Snippets"), String::from_str("Scratch")]
}

} // verus!
