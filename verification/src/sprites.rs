//! Sprite identity and atlas-slot assembly: the closed set of sprite groups,
//! per-group member filename lists, caller-specified filename overrides, and
//! configuration-driven pixel-scale resolution.

use vstd::prelude::*;

use crate::fixed::Fp;
use crate::textparse::{copy_bytes, bytes_eq, parse_dec_checked, spec_parse_dec, valid_dec};

verus! {

/// The closed set of sprite groups; the first four share the main atlas,
/// `Interface` has an atlas of its own.
#[derive(Clone, Copy, Debug, PartialEq, Eq, Structural)]
pub enum SpriteGroup {
    Gostek,
    Weapon,
    Spark,
    Object,
    Interface,
}

pub open spec fn spec_groups() -> Seq<SpriteGroup> {
    seq![
        SpriteGroup::Gostek,
        SpriteGroup::Weapon,
        SpriteGroup::Spark,
        SpriteGroup::Object,
        SpriteGroup::Interface,
    ]
}

impl SpriteGroup {
    /// The group's row in the sprite table.
    pub open spec fn spec_id(self) -> int {
        match self {
            SpriteGroup::Gostek => 0,
            SpriteGroup::Weapon => 1,
            SpriteGroup::Spark => 2,
            SpriteGroup::Object => 3,
            SpriteGroup::Interface => 4,
        }
    }

    pub fn id(&self) -> (r: usize)
        ensures
            r as int == self.spec_id(),
            r < 5,
    {
        match self {
            SpriteGroup::Gostek => 0,
            SpriteGroup::Weapon => 1,
            SpriteGroup::Spark => 2,
            SpriteGroup::Object => 3,
            SpriteGroup::Interface => 4,
        }
    }

    /// All groups, in the one canonical order both assembly passes share.
    pub fn values() -> (r: Vec<SpriteGroup>)
        ensures
            r@ == spec_groups(),
    {
        let mut r: Vec<SpriteGroup> = Vec::new();
        r.push(SpriteGroup::Gostek);
        r.push(SpriteGroup::Weapon);
        r.push(SpriteGroup::Spark);
        r.push(SpriteGroup::Object);
        r.push(SpriteGroup::Interface);
        assert(r@ =~= spec_groups());
        r
    }
}

/// One sprite to pack: its resolved source filename and its pixel-to-world
/// scale.
#[derive(Clone, Debug)]
pub struct SpriteInfo {
    pub filename: Vec<u8>,
    pub scale: Fp,
}

/// The ordered member filenames of each sprite group, as the group
/// enumerations list them.
#[derive(Clone, Debug)]
pub struct SpriteLists {
    pub gostek: Vec<Vec<u8>>,
    pub weapon: Vec<Vec<u8>>,
    pub spark: Vec<Vec<u8>>,
    pub object: Vec<Vec<u8>>,
    pub interface: Vec<Vec<u8>>,
}

pub open spec fn names_view(v: Seq<Vec<u8>>) -> Seq<Seq<u8>> {
    v.map_values(|n: Vec<u8>| n@)
}

impl SpriteLists {
    pub open spec fn names(self, g: SpriteGroup) -> Seq<Seq<u8>> {
        match g {
            SpriteGroup::Gostek => names_view(self.gostek@),
            SpriteGroup::Weapon => names_view(self.weapon@),
            SpriteGroup::Spark => names_view(self.spark@),
            SpriteGroup::Object => names_view(self.object@),
            SpriteGroup::Interface => names_view(self.interface@),
        }
    }

    /// The main bucket's filenames: the four main groups, in group order.
    pub open spec fn main_names(self) -> Seq<Seq<u8>> {
        self.names(SpriteGroup::Gostek) + self.names(SpriteGroup::Weapon) + self.names(
            SpriteGroup::Spark,
        ) + self.names(SpriteGroup::Object)
    }

    /// Where a main group's handles start within the main bucket.
    pub open spec fn group_offset(self, g: SpriteGroup) -> int {
        match g {
            SpriteGroup::Gostek => 0int,
            SpriteGroup::Weapon => self.names(SpriteGroup::Gostek).len() as int,
            SpriteGroup::Spark => self.names(SpriteGroup::Gostek).len() + self.names(
                SpriteGroup::Weapon,
            ).len() as int,
            SpriteGroup::Object => self.names(SpriteGroup::Gostek).len() + self.names(
                SpriteGroup::Weapon,
            ).len() + self.names(SpriteGroup::Spark).len() as int,
            SpriteGroup::Interface => 0int,
        }
    }
}

/// The pairs of a key/value list, by view.
pub open spec fn entries_view(entries: Seq<(Vec<u8>, Vec<u8>)>) -> Seq<(Seq<u8>, Seq<u8>)> {
    entries.map_values(|e: (Vec<u8>, Vec<u8>)| (e.0@, e.1@))
}

pub open spec fn opt_entries_view(entries: Option<&Vec<(Vec<u8>, Vec<u8>)>>) -> Option<
    Seq<(Seq<u8>, Seq<u8>)>,
> {
    match entries {
        None => None,
        Some(es) => Some(entries_view(es@)),
    }
}

/// The first value bound to `key`, if any.
pub open spec fn spec_lookup(entries: Seq<(Seq<u8>, Seq<u8>)>, key: Seq<u8>) -> Option<Seq<u8>>
    decreases entries.len(),
{
    if entries.len() == 0 {
        None
    } else if entries[0].0 == key {
        Some(entries[0].1)
    } else {
        spec_lookup(entries.drop_first(), key)
    }
}

/// First-match lookup in a key/value list.
pub fn lookup_pairs(entries: &Vec<(Vec<u8>, Vec<u8>)>, key: &Vec<u8>) -> (r: Option<Vec<u8>>)
    ensures
        (r is Some <==> spec_lookup(entries_view(entries@), key@) is Some),
        (r matches Some(v) ==> spec_lookup(entries_view(entries@), key@) == Some(v@)),
{
    let ghost ev = entries_view(entries@);
    let mut j: usize = 0;
    proof {
        assert(ev.skip(0) =~= ev);
    }
    while j < entries.len()
        invariant
            0 <= j <= entries@.len(),
            ev == entries_view(entries@),
            ev.len() == entries@.len(),
            spec_lookup(ev, key@) == spec_lookup(ev.skip(j as int), key@),
        decreases entries@.len() - j,
    {
        proof {
            assert(ev.skip(j as int)[0] == ev[j as int]);
            assert(ev[j as int] == (entries@[j as int].0@, entries@[j as int].1@));
        }
        if bytes_eq(&entries[j].0, key) {
            let v = copy_bytes(&entries[j].1);
            return Some(v);
        }
        proof {
            assert(ev.skip(j as int).drop_first() =~= ev.skip(j + 1));
        }
        j += 1;
    }
    proof {
        assert(ev.skip(entries@.len() as int) =~= Seq::<(Seq<u8>, Seq<u8>)>::empty());
    }
    None
}

/// The bytes of the `DefaultScale` configuration key.
pub open spec fn default_scale_key() -> Seq<u8> {
    seq![68u8, 101u8, 102u8, 97u8, 117u8, 108u8, 116u8, 83u8, 99u8, 97u8, 108u8, 101u8]
}

fn default_scale_key_vec() -> (r: Vec<u8>)
    ensures
        r@ == default_scale_key(),
{
    let mut r: Vec<u8> = Vec::new();
    r.push(68);
    r.push(101);
    r.push(102);
    r.push(97);
    r.push(117);
    r.push(108);
    r.push(116);
    r.push(83);
    r.push(99);
    r.push(97);
    r.push(108);
    r.push(101);
    assert(r@ =~= default_scale_key());
    r
}

/// A configuration value parsed as a scale, or `d` when malformed.
pub open spec fn spec_scale_or(v: Seq<u8>, d: Fp) -> Fp {
    if valid_dec(v) {
        spec_parse_dec(v)
    } else {
        d
    }
}

fn parse_scale_or(v: &Vec<u8>, d: Fp) -> (r: Fp)
    ensures
        r == spec_scale_or(v@, d),
{
    let (p, ok) = parse_dec_checked(v);
    if ok {
        p
    } else {
        d
    }
}

/// The bucket-wide default scale: the `DefaultScale` entry if present and
/// well formed, else 1.
pub open spec fn spec_default_scale(entries: Seq<(Seq<u8>, Seq<u8>)>) -> Fp {
    match spec_lookup(entries, default_scale_key()) {
        None => Fp::spec_one(),
        Some(v) => spec_scale_or(v, Fp::spec_one()),
    }
}

/// Scale resolution priority: the per-file entry, else the bucket default,
/// else 1; with no configuration at all, always 1.
pub open spec fn spec_resolve_scale(
    entries: Option<Seq<(Seq<u8>, Seq<u8>)>>,
    name: Seq<u8>,
) -> Fp {
    match entries {
        None => Fp::spec_one(),
        Some(es) => match spec_lookup(es, name) {
            None => spec_default_scale(es),
            Some(v) => spec_scale_or(v, spec_default_scale(es)),
        },
    }
}

/// Resolves one sprite's scale from the configuration's `SCALE` entries.
pub fn resolve_scale(entries: Option<&Vec<(Vec<u8>, Vec<u8>)>>, name: &Vec<u8>) -> (r: Fp)
    ensures
        r == spec_resolve_scale(opt_entries_view(entries), name@),
{
    match entries {
        None => Fp::one(),
        Some(es) => {
            let dkey = default_scale_key_vec();
            let dflt = match lookup_pairs(es, &dkey) {
                None => Fp::one(),
                Some(v) => parse_scale_or(&v, Fp::one()),
            };
            match lookup_pairs(es, name) {
                None => dflt,
                Some(v) => parse_scale_or(&v, dflt),
            }
        },
    }
}

/// A caller-specified override replaces a filename; otherwise the filename
/// stands.
pub open spec fn spec_override(ovr: Seq<(Seq<u8>, Seq<u8>)>, name: Seq<u8>) -> Seq<u8> {
    match spec_lookup(ovr, name) {
        None => name,
        Some(v) => v,
    }
}

/// `infos` is exactly `names` with overrides applied and scales resolved, in
/// order.
pub open spec fn infos_match(
    infos: Seq<SpriteInfo>,
    names: Seq<Seq<u8>>,
    ovr: Seq<(Seq<u8>, Seq<u8>)>,
    entries: Option<Seq<(Seq<u8>, Seq<u8>)>>,
) -> bool {
    &&& infos.len() == names.len()
    &&& forall|j: int|
        0 <= j < names.len() ==> (#[trigger] infos[j]).filename@ == spec_override(ovr, names[j])
            && infos[j].scale == spec_resolve_scale(entries, spec_override(ovr, names[j]))
}

/// Builds the sprite list of one group: overrides applied, scales resolved.
pub fn build_infos(
    names: &Vec<Vec<u8>>,
    ovr: &Vec<(Vec<u8>, Vec<u8>)>,
    entries: Option<&Vec<(Vec<u8>, Vec<u8>)>>,
) -> (r: Vec<SpriteInfo>)
    ensures
        (infos_match(r@, names_view(names@), entries_view(ovr@), opt_entries_view(entries))),
{
    let mut r: Vec<SpriteInfo> = Vec::new();
    let mut j: usize = 0;
    while j < names.len()
        invariant
            0 <= j <= names@.len(),
            r@.len() == j,
            forall|k: int|
                0 <= k < j ==> (#[trigger] r@[k]).filename@ == spec_override(
                    entries_view(ovr@),
                    names_view(names@)[k],
                ) && r@[k].scale == spec_resolve_scale(
                    opt_entries_view(entries),
                    spec_override(entries_view(ovr@), names_view(names@)[k]),
                ),
        decreases names@.len() - j,
    {
        let resolved: Vec<u8> = match lookup_pairs(ovr, &names[j]) {
            None => copy_bytes(&names[j]),
            Some(v) => v,
        };
        proof {
            assert(names_view(names@)[j as int] == names@[j as int]@);
            assert(resolved@ == spec_override(entries_view(ovr@), names_view(names@)[j as int]));
        }
        let scale = resolve_scale(entries, &resolved);
        r.push(SpriteInfo { filename: resolved, scale });
        j += 1;
    }
    r
}

/// Assigns atlas slots to a packed bucket: the `i`-th submitted sprite gets
/// slot `i`, so `N` sprites always yield exactly `N` handles in input order.
pub fn pack_handles(infos: &Vec<SpriteInfo>) -> (r: Vec<usize>)
    ensures
        r@.len() == infos@.len(),
        forall|i: int| 0 <= i < infos@.len() ==> #[trigger] r@[i] == i,
{
    let mut r: Vec<usize> = Vec::new();
    let mut j: usize = 0;
    while j < infos.len()
        invariant
            0 <= j <= infos@.len(),
            r@.len() == j,
            forall|i: int| 0 <= i < j ==> #[trigger] r@[i] == i,
        decreases infos@.len() - j,
    {
        r.push(j);
        j += 1;
    }
    r
}

/// With no configuration at all, every sprite's scale resolves to 1.
pub proof fn lemma_no_config_scale_is_one(name: Seq<u8>)
    ensures
        spec_resolve_scale(None, name) == Fp::spec_one(),
{
}

} // verus!
