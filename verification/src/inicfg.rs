//! Access to the `.ini`-style mod configuration through the `ini` crate.
//!
//! The library reads only the `SCALE` section; its key/value pairs are handed
//! to verified code as plain byte strings, and everything after the lookup —
//! decimal parsing, priority of overrides — is verified in `sprites`.

use vstd::prelude::*;

use ini::Ini;
use ini::Properties;

use crate::sprites::entries_view;

verus! {

#[verifier::external_type_specification]
#[verifier::external_body]
pub struct ExIni(Ini);

#[verifier::external_type_specification]
#[verifier::external_body]
pub struct ExProperties(Properties);

/// What an `Ini` value holds: for each section name, the byte key/value
/// pairs of the first section of that name, in file order.
pub uninterp spec fn ini_sections(i: Ini) -> Map<Seq<char>, Seq<(Seq<u8>, Seq<u8>)>>;

/// What a `Properties` value holds: its key/value pairs in file order.
pub uninterp spec fn props_entries(p: Properties) -> Seq<(Seq<u8>, Seq<u8>)>;

/// What parsing INI text yields: `None` where the text does not parse, else
/// the named sections' contents. Parsing is a function of the text alone, so
/// the result can be named, though it takes pages to state.
pub uninterp spec fn sections_of(s: Seq<char>) -> Option<
    Map<Seq<char>, Seq<(Seq<u8>, Seq<u8>)>>,
>;

/// Relies on ini::Ini::load_from_str: parses INI text, deterministically in
/// the text alone; a parse error is dropped, as a missing configuration is
/// not a fault.
#[verifier::external_body]
pub fn ini_from_str(s: &str) -> (r: Option<Ini>)
    ensures
        r is Some <==> sections_of(s@) is Some,
        (r matches Some(i) ==> Some(ini_sections(i)) == sections_of(s@)),
{
    Ini::load_from_str(s).ok()
}

/// Relies on ini::Ini::section: looks a section up by its exact name.
#[verifier::external_body]
pub fn ini_section<'a>(i: &'a Ini, name: &str) -> (r: Option<&'a Properties>)
    ensures
        r is Some <==> ini_sections(*i).contains_key(name@),
        (r matches Some(p) ==> props_entries(*p) == ini_sections(*i)[name@]),
{
    i.section(Some(name))
}

/// Relies on ini::Properties::iter: yields the section's key/value pairs in
/// insertion (file) order.
#[verifier::external_body]
pub fn props_pairs(p: &Properties) -> (r: Vec<(Vec<u8>, Vec<u8>)>)
    ensures
        entries_view(r@) == props_entries(*p),
{
    p.iter().map(|(k, v)| (k.as_bytes().to_vec(), v.as_bytes().to_vec())).collect()
}

/// The `SCALE` section of parsed configuration text: `None` where the text
/// does not parse or has no such section.
pub open spec fn scale_section_of(text: Seq<char>) -> Option<Seq<(Seq<u8>, Seq<u8>)>> {
    match sections_of(text) {
        None => None,
        Some(m) => if m.contains_key("SCALE"@) {
            Some(m["SCALE"@])
        } else {
            None
        },
    }
}

/// The scale entries an optional configuration text denotes.
pub open spec fn spec_config_entries(config: Option<&str>) -> Option<Seq<(Seq<u8>, Seq<u8>)>> {
    match config {
        None => None,
        Some(text) => scale_section_of(text@),
    }
}

/// The view of an owned optional entry list.
pub open spec fn owned_entries_view(r: Option<Vec<(Vec<u8>, Vec<u8>)>>) -> Option<
    Seq<(Seq<u8>, Seq<u8>)>,
> {
    match r {
        None => None,
        Some(v) => Some(entries_view(v@)),
    }
}

/// The key/value pairs of the configuration's `SCALE` section, or `None`
/// when there is no configuration, it does not parse, or it has no such
/// section — the callers then fall back to the default scale of 1.
pub fn scale_entries(config: Option<&str>) -> (r: Option<Vec<(Vec<u8>, Vec<u8>)>>)
    ensures
        owned_entries_view(r) == spec_config_entries(config),
{
    match config {
        None => None,
        Some(text) => match ini_from_str(text) {
            None => None,
            Some(ini) => match ini_section(&ini, "SCALE") {
                None => None,
                Some(props) => Some(props_pairs(props)),
            },
        },
    }
}

} // verus!
