//! Scene composition state: the per-group sprite-handle table built once at
//! load time, and the fixed back-to-front draw order of a rendered frame.
//! Camera interpolation and the draw calls themselves are floating-point
//! work of the embedding graphics layer.

use vstd::prelude::*;

use crate::inicfg::{scale_entries, spec_config_entries, owned_entries_view};
use crate::sprites::{
    build_infos, entries_view, infos_match, opt_entries_view, pack_handles, SpriteGroup,
    SpriteInfo, SpriteLists,
};

verus! {

/// The layers of one rendered frame, back to front.
#[derive(Clone, Copy, Debug, PartialEq, Eq, Structural)]
pub enum DrawLayer {
    Background,
    PolysBack,
    SceneryBack,
    SpriteBatch,
    SceneryMid,
    PolysFront,
    SceneryFront,
    Cursor,
}

pub open spec fn spec_render_order() -> Seq<DrawLayer> {
    seq![
        DrawLayer::Background,
        DrawLayer::PolysBack,
        DrawLayer::SceneryBack,
        DrawLayer::SpriteBatch,
        DrawLayer::SceneryMid,
        DrawLayer::PolysFront,
        DrawLayer::SceneryFront,
        DrawLayer::Cursor,
    ]
}

/// The draw order of one frame is a hard contract: later layers always
/// occlude earlier ones, and the cursor overlay is drawn last.
pub fn render_order() -> (r: Vec<DrawLayer>)
    ensures
        r@ == spec_render_order(),
{
    let mut r: Vec<DrawLayer> = Vec::new();
    r.push(DrawLayer::Background);
    r.push(DrawLayer::PolysBack);
    r.push(DrawLayer::SceneryBack);
    r.push(DrawLayer::SpriteBatch);
    r.push(DrawLayer::SceneryMid);
    r.push(DrawLayer::PolysFront);
    r.push(DrawLayer::SceneryFront);
    r.push(DrawLayer::Cursor);
    assert(r@ =~= spec_render_order());
    r
}

/// The group→slot table matches a positional replay of the enumeration
/// order: each main group's row is its window of the main bucket's handles,
/// and the interface row is the whole interface bucket.
pub open spec fn table_bound(
    table: Seq<Vec<usize>>,
    lists: SpriteLists,
    mh: Seq<usize>,
    ih: Seq<usize>,
) -> bool {
    &&& table.len() == 5
    &&& table[0]@ == mh.subrange(
        lists.group_offset(SpriteGroup::Gostek),
        lists.group_offset(SpriteGroup::Gostek) + lists.names(SpriteGroup::Gostek).len(),
    )
    &&& table[1]@ == mh.subrange(
        lists.group_offset(SpriteGroup::Weapon),
        lists.group_offset(SpriteGroup::Weapon) + lists.names(SpriteGroup::Weapon).len(),
    )
    &&& table[2]@ == mh.subrange(
        lists.group_offset(SpriteGroup::Spark),
        lists.group_offset(SpriteGroup::Spark) + lists.names(SpriteGroup::Spark).len(),
    )
    &&& table[3]@ == mh.subrange(
        lists.group_offset(SpriteGroup::Object),
        lists.group_offset(SpriteGroup::Object) + lists.names(SpriteGroup::Object).len(),
    )
    &&& table[4]@ == ih
}

fn copy_range(h: &Vec<usize>, start: usize, count: usize) -> (r: Vec<usize>)
    requires
        start + count <= h@.len(),
    ensures
        r@ == h@.subrange(start as int, start + count),
{
    let hl = h.len();
    let mut r: Vec<usize> = Vec::new();
    let mut i: usize = 0;
    while i < count
        invariant
            0 <= i <= count,
            start + count <= h@.len(),
            h@.len() == hl,
            r@ == h@.subrange(start as int, start + i),
        decreases count - i,
    {
        let c = h[start + i];
        r.push(c);
        proof {
            assert(h@.subrange(start as int, start + i + 1) =~= h@.subrange(
                start as int,
                start + i,
            ).push(h@[start + i]));
        }
        i += 1;
    }
    r
}

/// Render-composition state: for each sprite group, the atlas slot of each
/// of its members, written once at load time and read-only afterwards.
#[derive(Clone, Debug)]
pub struct GameGraphics {
    pub sprites: Vec<Vec<usize>>,
}

impl GameGraphics {
    /// Fresh composition state with no sprite table yet.
    pub fn new() -> (r: GameGraphics)
        ensures
            r.sprites@.len() == 0,
    {
        GameGraphics { sprites: Vec::new() }
    }

    /// Replays the canonical group order to bind each (group, member) pair
    /// to its bucket's handle positionally. Succeeds exactly when each
    /// bucket returned one handle per submitted filename; a mismatch is a
    /// fatal configuration error and leaves the table unchanged.
    pub fn bind_handles(
        &mut self,
        lists: &SpriteLists,
        main_handles: &Vec<usize>,
        intf_handles: &Vec<usize>,
    ) -> (ok: bool)
        requires
            lists.main_names().len() <= usize::MAX,
        ensures
            ok <==> (main_handles@.len() == lists.main_names().len() && intf_handles@.len()
                == lists.names(SpriteGroup::Interface).len()),
            !ok ==> final(self).sprites == old(self).sprites,
            ok ==> table_bound(final(self).sprites@, *lists, main_handles@, intf_handles@),
    {
        let gl = lists.gostek.len();
        let wl = lists.weapon.len();
        let sl = lists.spark.len();
        let ol = lists.object.len();
        let il = lists.interface.len();
        let total = gl + wl + sl + ol;
        if main_handles.len() != total || intf_handles.len() != il {
            return false;
        }
        let mut t: Vec<Vec<usize>> = Vec::new();
        t.push(copy_range(main_handles, 0, gl));
        t.push(copy_range(main_handles, gl, wl));
        t.push(copy_range(main_handles, gl + wl, sl));
        t.push(copy_range(main_handles, gl + wl + sl, ol));
        t.push(copy_range(intf_handles, 0, il));
        proof {
            assert(lists.names(SpriteGroup::Gostek).len() == gl);
            assert(lists.names(SpriteGroup::Weapon).len() == wl);
            assert(lists.names(SpriteGroup::Spark).len() == sl);
            assert(lists.names(SpriteGroup::Object).len() == ol);
            assert(lists.names(SpriteGroup::Interface).len() == il);
            assert(t@[4]@ =~= intf_handles@);
        }
        self.sprites = t;
        true
    }

    /// Full sprite assembly: applies filename overrides, resolves scales
    /// from the configuration text, assigns each bucket's atlas slots in
    /// input order, and binds the group→slot table by replaying the same
    /// canonical enumeration order. Returns the two packed buckets (main,
    /// interface) for the graphics layer to upload.
    pub fn load_sprites(
        &mut self,
        lists: &SpriteLists,
        overrides: &Vec<(Vec<u8>, Vec<u8>)>,
        config: Option<&str>,
    ) -> (r: (Vec<SpriteInfo>, Vec<SpriteInfo>))
        requires
            lists.main_names().len() <= usize::MAX,
        ensures
            (infos_match(r.0@, lists.main_names(), entries_view(overrides@), spec_config_entries(config))),
            (infos_match(
                r.1@,
                lists.names(SpriteGroup::Interface),
                entries_view(overrides@),
                spec_config_entries(config),
            )),
            final(self).sprites@.len() == 5,
            final(self).sprites@[0]@.len() == lists.names(SpriteGroup::Gostek).len(),
            final(self).sprites@[1]@.len() == lists.names(SpriteGroup::Weapon).len(),
            final(self).sprites@[2]@.len() == lists.names(SpriteGroup::Spark).len(),
            final(self).sprites@[3]@.len() == lists.names(SpriteGroup::Object).len(),
            final(self).sprites@[4]@.len() == lists.names(SpriteGroup::Interface).len(),
            forall|j: int|
                0 <= j < lists.names(SpriteGroup::Gostek).len()
                    ==> #[trigger] final(self).sprites@[0]@[j] == lists.group_offset(SpriteGroup::Gostek) + j,
            forall|j: int|
                0 <= j < lists.names(SpriteGroup::Weapon).len()
                    ==> #[trigger] final(self).sprites@[1]@[j] == lists.group_offset(SpriteGroup::Weapon) + j,
            forall|j: int|
                0 <= j < lists.names(SpriteGroup::Spark).len()
                    ==> #[trigger] final(self).sprites@[2]@[j] == lists.group_offset(SpriteGroup::Spark) + j,
            forall|j: int|
                0 <= j < lists.names(SpriteGroup::Object).len()
                    ==> #[trigger] final(self).sprites@[3]@[j] == lists.group_offset(SpriteGroup::Object) + j,
            forall|j: int|
                0 <= j < lists.names(SpriteGroup::Interface).len()
                    ==> #[trigger] final(self).sprites@[4]@[j] == j,
    {
        let entries = scale_entries(config);
        let e_ref: Option<&Vec<(Vec<u8>, Vec<u8>)>> = match &entries {
            None => None,
            Some(v) => Some(v),
        };
        let ghost e0 = opt_entries_view(e_ref);
        proof {
            assert(opt_entries_view(e_ref) == owned_entries_view(entries));
            assert(e0 == spec_config_entries(config));
        }
        let mut main = build_infos(&lists.gostek, overrides, e_ref);
        let mut w = build_infos(&lists.weapon, overrides, e_ref);
        let mut s = build_infos(&lists.spark, overrides, e_ref);
        let mut o = build_infos(&lists.object, overrides, e_ref);
        let itf = build_infos(&lists.interface, overrides, e_ref);
        proof {
            lemma_infos_concat(
                main@,
                w@,
                lists.names(SpriteGroup::Gostek),
                lists.names(SpriteGroup::Weapon),
                entries_view(overrides@),
                e0,
            );
            lemma_infos_concat(
                main@ + w@,
                s@,
                lists.names(SpriteGroup::Gostek) + lists.names(SpriteGroup::Weapon),
                lists.names(SpriteGroup::Spark),
                entries_view(overrides@),
                e0,
            );
            lemma_infos_concat(
                main@ + w@ + s@,
                o@,
                lists.names(SpriteGroup::Gostek) + lists.names(SpriteGroup::Weapon) + lists.names(
                    SpriteGroup::Spark,
                ),
                lists.names(SpriteGroup::Object),
                entries_view(overrides@),
                e0,
            );
        }
        main.append(&mut w);
        main.append(&mut s);
        main.append(&mut o);
        proof {
            assert(infos_match(main@, lists.main_names(), entries_view(overrides@), e0));
            assert(infos_match(
                itf@,
                lists.names(SpriteGroup::Interface),
                entries_view(overrides@),
                e0,
            ));
        }
        let mh = pack_handles(&main);
        let ih = pack_handles(&itf);
        let ok = self.bind_handles(lists, &mh, &ih);
        assert(ok);
        proof {
            assert(table_bound(self.sprites@, *lists, mh@, ih@));
            let gof = lists.group_offset(SpriteGroup::Gostek);
            let wof = lists.group_offset(SpriteGroup::Weapon);
            let sof = lists.group_offset(SpriteGroup::Spark);
            let oof = lists.group_offset(SpriteGroup::Object);
            assert forall|j: int| 0 <= j < lists.names(SpriteGroup::Gostek).len() implies #[trigger]
                self.sprites@[0]@[j] == gof + j by {
                assert(self.sprites@[0]@[j] == mh@[gof + j]);
            }
            assert forall|j: int| 0 <= j < lists.names(SpriteGroup::Weapon).len() implies #[trigger]
                self.sprites@[1]@[j] == wof + j by {
                assert(self.sprites@[1]@[j] == mh@[wof + j]);
            }
            assert forall|j: int| 0 <= j < lists.names(SpriteGroup::Spark).len() implies #[trigger]
                self.sprites@[2]@[j] == sof + j by {
                assert(self.sprites@[2]@[j] == mh@[sof + j]);
            }
            assert forall|j: int| 0 <= j < lists.names(SpriteGroup::Object).len() implies #[trigger]
                self.sprites@[3]@[j] == oof + j by {
                assert(self.sprites@[3]@[j] == mh@[oof + j]);
            }
            assert forall|j: int| 0 <= j < lists.names(SpriteGroup::Interface).len()
                implies #[trigger] self.sprites@[4]@[j] == j by {
                assert(self.sprites@[4]@[j] == ih@[j]);
            }
            let rr = (main, itf);
            assert(infos_match(
                rr.0@,
                lists.main_names(),
                entries_view(overrides@),
                spec_config_entries(config),
            ));
            assert(infos_match(
                rr.1@,
                lists.names(SpriteGroup::Interface),
                entries_view(overrides@),
                spec_config_entries(config),
            ));
            assert(self.sprites@[0]@.len() == lists.names(SpriteGroup::Gostek).len());
            assert(self.sprites@[1]@.len() == lists.names(SpriteGroup::Weapon).len());
            assert(self.sprites@[2]@.len() == lists.names(SpriteGroup::Spark).len());
            assert(self.sprites@[3]@.len() == lists.names(SpriteGroup::Object).len());
            assert(self.sprites@[4]@.len() == lists.names(SpriteGroup::Interface).len());
        }
        (main, itf)
    }
}

proof fn lemma_infos_concat(
    a: Seq<SpriteInfo>,
    b: Seq<SpriteInfo>,
    na: Seq<Seq<u8>>,
    nb: Seq<Seq<u8>>,
    ovr: Seq<(Seq<u8>, Seq<u8>)>,
    e: Option<Seq<(Seq<u8>, Seq<u8>)>>,
)
    requires
        infos_match(a, na, ovr, e),
        infos_match(b, nb, ovr, e),
    ensures
        infos_match(a + b, na + nb, ovr, e),
{
    assert forall|j: int| 0 <= j < (na + nb).len() implies (#[trigger] (a + b)[j]).filename@
        == crate::sprites::spec_override(ovr, (na + nb)[j]) && (a + b)[j].scale
        == crate::sprites::spec_resolve_scale(
        e,
        crate::sprites::spec_override(ovr, (na + nb)[j]),
    ) by {
        if j < na.len() {
            assert((a + b)[j] == a[j]);
            assert((na + nb)[j] == na[j]);
        } else {
            assert((a + b)[j] == b[j - na.len()]);
            assert((na + nb)[j] == nb[j - na.len()]);
        }
    }
}

} // verus!
