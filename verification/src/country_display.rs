//! How a country is shown to the user.
use vstd::prelude::*;

verus! {

/// The names under which countries are shown. The editor shows each
/// country under the identity of its file.
#[derive(Debug, Default, Clone, Copy)]
pub struct CountryNames;

impl CountryNames {
    /// The name to show for a country: the file identity given as `fallback`.
    pub fn name<'a>(&self, identity: &str, fallback: &'a str) -> (r: &'a str)
        ensures
            r@ == fallback@,
    {
        fallback
    }
}

} // verus!
