//! Sender metadata for inbound connections: a language-preference parser,
//! a localized-name selector, and the derivation that assembles the two
//! into a compact description of a connection's origin.

pub mod langmap;
pub mod meta;
pub mod prefs;
pub mod select;
pub mod text;

use vstd::prelude::*;

verus! {

/// The fixed default language tag appended to every preference list.
pub open spec fn default_tag() -> Seq<char> {
    seq!['e', 'n']
}

} // verus!
