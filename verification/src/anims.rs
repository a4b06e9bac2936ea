//! Skeletal animation clips: per-frame bone offsets, deterministic playback
//! counters, and the line-oriented pose-file loader with its
//! skip-on-corruption policy.

use vstd::prelude::*;

use crate::fixed::Fp;
use crate::textparse::{
    endfile_tag, is_endfile, is_nextframe, lemma_parse_dec_bounds, line_split, nextframe_tag,
    parse_dec_bytes, parse_i32_bytes, spec_parse_dec, spec_parse_i32, spec_trim, split_lines,
    trim_bytes,
};

verus! {

/// Highest usable bone slot; slot 0 is reserved and never written.
pub const MAX_POS_INDEX: usize = 20;

/// Highest usable frame slot.
pub const MAX_FRAMES_INDEX: usize = 40;

/// One bone's offset within a frame.
#[derive(Clone, Copy, Debug, PartialEq, Eq, Structural)]
pub struct BonePos {
    pub x: Fp,
    pub y: Fp,
}

/// One frame: an offset for each of the 21 bone slots (slot 0 reserved).
#[derive(Clone, Debug)]
pub struct Frames {
    pub pos: Vec<BonePos>,
}

/// A loaded animation clip with its playback counters.
#[derive(Clone, Debug)]
pub struct Animation {
    pub id: i32,
    pub num_frames: i32,
    pub speed: i32,
    pub count: i32,
    pub curr_frame: i32,
    pub looped: bool,
    pub frame: Vec<Frames>,
}

pub open spec fn zero_pos() -> BonePos {
    BonePos { x: Fp::spec_zero(), y: Fp::spec_zero() }
}

pub open spec fn zero_row() -> Seq<BonePos> {
    Seq::new(21, |i: int| zero_pos())
}

/// The raw X sample scaled by `-3 / 1.1`, kept exact as `-30 raw / 11`.
pub open spec fn xform_x(raw: Fp) -> Fp {
    Fp { num: (-30 * raw.num) as i64, den: (11 * raw.den) as i64 }
}

/// The raw Y sample scaled by `-3`.
pub open spec fn xform_y(raw: Fp) -> Fp {
    Fp { num: (-3 * raw.num) as i64, den: raw.den }
}

/// Loader state: frames already closed by a sentinel, and the frame slot
/// currently written to.
pub ghost struct LoadSt {
    pub nf: int,
    pub done: Seq<Seq<BonePos>>,
    pub cur: Seq<BonePos>,
}

pub open spec fn init_st() -> LoadSt {
    LoadSt { nf: 0, done: Seq::empty(), cur: zero_row() }
}

/// A pose is a pair of well-formed fractions.
pub open spec fn pose_wf(p: BonePos) -> bool {
    p.x.wf() && p.y.wf()
}

pub open spec fn st_wf(st: LoadSt) -> bool {
    &&& 0 <= st.nf <= 40
    &&& st.done.len() == st.nf
    &&& st.cur.len() == 21
    &&& forall|i: int| 0 <= i < st.done.len() ==> (#[trigger] st.done[i]).len() == 21
    &&& st.cur[0] == zero_pos()
    &&& forall|i: int| 0 <= i < st.done.len() ==> (#[trigger] st.done[i])[0] == zero_pos()
    &&& forall|b: int| 0 <= b < 21 ==> pose_wf(#[trigger] st.cur[b])
    &&& forall|i: int, b: int|
        0 <= i < st.done.len() && 0 <= b < 21 ==> pose_wf(#[trigger] st.done[i][b])
}

pub open spec fn line_at(lines: Seq<Seq<u8>>, i: int) -> Seq<u8> {
    if 0 <= i < lines.len() {
        lines[i]
    } else {
        Seq::empty()
    }
}

/// The lines left after a four-line bone record is consumed.
pub open spec fn after_record(lines: Seq<Seq<u8>>) -> Seq<Seq<u8>> {
    if lines.len() >= 4 {
        lines.skip(4)
    } else {
        Seq::<Seq<u8>>::empty()
    }
}

/// One pass of the loader over the remaining lines.
///
/// A trimmed `ENDFILE` line or the end of input stops the parse; `NEXTFRAME`
/// closes the current frame slot unless all 40 are used, in which case the
/// parse stops; any other line opens a four-line bone record whose slot index
/// must lie in `[1, 20]` to be written, and which is skipped otherwise.
pub open spec fn rec_step(lines: Seq<Seq<u8>>, st: LoadSt) -> LoadSt
    decreases lines.len(),
{
    if lines.len() == 0 {
        st
    } else {
        let t = spec_trim(lines[0]);
        if t == endfile_tag() {
            st
        } else if t == nextframe_tag() {
            if st.nf == 40 {
                st
            } else {
                rec_step(
                    lines.drop_first(),
                    LoadSt { nf: st.nf + 1, done: st.done.push(st.cur), cur: zero_row() },
                )
            }
        } else {
            let p = spec_parse_i32(t);
            let x = xform_x(spec_parse_dec(spec_trim(line_at(lines, 1))));
            let y = xform_y(spec_parse_dec(spec_trim(line_at(lines, 3))));
            let st2 = if 1 <= p <= 20 {
                LoadSt { cur: st.cur.update(p, BonePos { x, y }), ..st }
            } else {
                st
            };
            rec_step(after_record(lines), st2)
        }
    }
}

/// The loader state a whole input yields.
pub open spec fn spec_load(data: Seq<u8>) -> LoadSt {
    rec_step(line_split(data), init_st())
}

/// The 41 frame slots a final loader state denotes: closed frames, then the
/// open frame, then untouched zero frames.
pub open spec fn grid_of(st: LoadSt) -> Seq<Seq<BonePos>> {
    st.done + seq![st.cur] + Seq::new((40 - st.nf) as nat, |i: int| zero_row())
}

proof fn lemma_rec_step_wf(lines: Seq<Seq<u8>>, st: LoadSt)
    requires
        st_wf(st),
    ensures
        st_wf(rec_step(lines, st)),
    decreases lines.len(),
{
    if lines.len() == 0 {
    } else {
        let t = spec_trim(lines[0]);
        if t == endfile_tag() {
        } else if t == nextframe_tag() {
            if st.nf < 40 {
                let st2 = LoadSt { nf: st.nf + 1, done: st.done.push(st.cur), cur: zero_row() };
                assert(st_wf(st2));
                lemma_rec_step_wf(lines.drop_first(), st2);
            }
        } else {
            let p = spec_parse_i32(t);
            let x = xform_x(spec_parse_dec(spec_trim(line_at(lines, 1))));
            let y = xform_y(spec_parse_dec(spec_trim(line_at(lines, 3))));
            lemma_parse_dec_bounds(spec_trim(line_at(lines, 1)));
            lemma_parse_dec_bounds(spec_trim(line_at(lines, 3)));
            let st2 = if 1 <= p <= 20 {
                LoadSt { cur: st.cur.update(p, BonePos { x, y }), ..st }
            } else {
                st
            };
            assert(st_wf(st2));
            lemma_rec_step_wf(after_record(lines), st2);
        }
    }
}

/// A loaded clip never holds more than 40 frames, however many `NEXTFRAME`
/// sentinels the input contains.
pub proof fn lemma_frame_capacity(data: Seq<u8>)
    ensures
        0 <= spec_load(data).nf <= 40,
        grid_of(spec_load(data)).len() == 41,
{
    lemma_rec_step_wf(line_split(data), init_st());
}

/// Every loaded pose is a well-formed fraction: denominators stay positive,
/// whatever the input holds.
pub proof fn lemma_loaded_poses_wf(data: Seq<u8>)
    ensures
        forall|f: int, b: int|
            0 <= f < 41 && 0 <= b < 21 ==> pose_wf(#[trigger] grid_of(spec_load(data))[f][b]),
{
    lemma_rec_step_wf(line_split(data), init_st());
    let st = spec_load(data);
    assert forall|f: int, b: int|
        0 <= f < 41 && 0 <= b < 21 implies pose_wf(#[trigger] grid_of(st)[f][b]) by {
        if f < st.nf {
            assert(grid_of(st)[f] == st.done[f]);
        } else if f == st.nf {
            assert(grid_of(st)[f] == st.cur);
        } else {
            assert(grid_of(st)[f] == zero_row());
            assert(grid_of(st)[f][b] == zero_pos());
        }
    }
}

/// Bone slot 0 is reserved: no input ever writes it, in any frame.
pub proof fn lemma_reserved_slot_zero(data: Seq<u8>)
    ensures
        forall|f: int|
            0 <= f < 41 ==> #[trigger] grid_of(spec_load(data))[f][0] == zero_pos(),
{
    lemma_rec_step_wf(line_split(data), init_st());
    let st = spec_load(data);
    assert forall|f: int| 0 <= f < 41 implies #[trigger] grid_of(st)[f][0] == zero_pos() by {
        if f < st.nf {
            assert(grid_of(st)[f] == st.done[f]);
        } else if f == st.nf {
            assert(grid_of(st)[f] == st.cur);
        } else {
            assert(grid_of(st)[f] == zero_row());
        }
    }
}

/// An out-of-range bone record — a slot index below 1 or above 20, such as
/// 0 or 21 — writes into no frame slot and does not abort the parse:
/// whatever state the loader has reached and wherever in the input the
/// record stands, the state is unchanged and reading continues after the
/// record's four lines.
pub proof fn lemma_bad_record_skipped(lines: Seq<Seq<u8>>, st: LoadSt)
    requires
        lines.len() > 0,
        spec_trim(lines[0]) != endfile_tag(),
        spec_trim(lines[0]) != nextframe_tag(),
        !(1 <= spec_parse_i32(spec_trim(lines[0])) <= 20),
    ensures
        rec_step(lines, st) == rec_step(after_record(lines), st),
{
}

/// Once 40 frames are closed, a further `NEXTFRAME` sentinel stops the
/// parse: nothing past it is read and the clip keeps its 40 frames,
/// whatever state the loader has reached.
pub proof fn lemma_sentinel_at_capacity(lines: Seq<Seq<u8>>, st: LoadSt)
    requires
        lines.len() > 0,
        spec_trim(lines[0]) == nextframe_tag(),
        st.nf == 40,
    ensures
        rec_step(lines, st) == st,
{
    assert(nextframe_tag() != endfile_tag()) by {
        assert(nextframe_tag().len() == 9);
        assert(endfile_tag().len() == 7);
    }
}

fn zero_row_exec() -> (r: Vec<BonePos>)
    ensures
        r@ == zero_row(),
{
    let z = BonePos { x: Fp::zero(), y: Fp::zero() };
    let mut r: Vec<BonePos> = Vec::new();
    let mut i: usize = 0;
    while i < 21
        invariant
            0 <= i <= 21,
            z == zero_pos(),
            r@.len() == i,
            forall|k: int| 0 <= k < i ==> #[trigger] r@[k] == zero_pos(),
        decreases 21 - i,
    {
        r.push(z);
        i += 1;
    }
    assert(r@ =~= zero_row());
    r
}

pub open spec fn exec_st(nf: int, done: Seq<Frames>, cur: Seq<BonePos>) -> LoadSt {
    LoadSt { nf, done: done.map_values(|f: Frames| f.pos@), cur }
}

impl Animation {
    /// Playback counters are in their documented ranges: speed at least one
    /// tick, the tick counter strictly below it, and the current frame
    /// within `[1, num_frames]`.
    pub open spec fn wf(self) -> bool {
        &&& 1 <= self.speed
        &&& 0 <= self.count < self.speed
        &&& 1 <= self.curr_frame <= self.num_frames
        &&& self.num_frames <= 40
    }

    /// The frame the clip shows after the current one advances.
    pub open spec fn next_frame(self) -> int {
        if self.curr_frame + 1 > self.num_frames {
            if self.looped {
                1
            } else {
                self.num_frames as int
            }
        } else {
            self.curr_frame + 1
        }
    }

    /// One simulation tick of the playback state machine.
    pub open spec fn spec_advance(self) -> Animation {
        if self.count + 1 == self.speed {
            Animation { count: 0, curr_frame: self.next_frame() as i32, ..self }
        } else {
            Animation { count: (self.count + 1) as i32, ..self }
        }
    }

    /// The playback state after `n` simulation ticks.
    pub open spec fn spec_advance_n(self, n: nat) -> Animation
        decreases n,
    {
        if n == 0 {
            self
        } else {
            self.spec_advance_n((n - 1) as nat).spec_advance()
        }
    }

    /// Advances the clip by one simulation tick: the tick counter rises until
    /// it reaches `speed`, at which point it resets and the current frame
    /// steps forward, wrapping to 1 for looped clips and holding the last
    /// frame otherwise.
    pub fn do_animation(&mut self)
        requires
            old(self).wf(),
        ensures
            *final(self) == old(self).spec_advance(),
            final(self).wf(),
            final(self).frame == old(self).frame,
            final(self).num_frames == old(self).num_frames,
            old(self).count + 1 < old(self).speed ==> final(self).curr_frame == old(self).curr_frame
                && final(self).count == old(self).count + 1,
            old(self).count + 1 == old(self).speed ==> final(self).count == 0
                && final(self).curr_frame == old(self).next_frame(),
    {
        self.count += 1;
        if self.count == self.speed {
            self.count = 0;
            self.curr_frame += 1;
            if self.curr_frame > self.num_frames {
                if self.looped {
                    self.curr_frame = 1;
                } else {
                    self.curr_frame = self.num_frames;
                }
            }
        }
    }

    /// Parses a clip from the bytes of a pose file.
    ///
    /// The result mirrors `spec_load` exactly: `num_frames` counts the
    /// `NEXTFRAME` sentinels (capped at 40), corrupt records and indices are
    /// skipped without aborting, and playback starts at frame 1 with a zero
    /// tick counter.
    pub fn load_from_bytes(data: &Vec<u8>, id: i32, speed: i32, looped: bool) -> (r: Animation)
        ensures
            r.id == id,
            r.speed == speed,
            r.looped == looped,
            r.count == 0,
            r.curr_frame == 1,
            r.num_frames as int == spec_load(data@).nf,
            0 <= spec_load(data@).nf <= 40,
            r.frame@.len() == 41,
            forall|f: int|
                0 <= f < 41 ==> (#[trigger] r.frame@[f]).pos@ == grid_of(spec_load(data@))[f],
    {
        let lines = split_lines(data);
        let ghost lines_v = lines@.map_values(|l: Vec<u8>| l@);
        let ghost target = rec_step(lines_v, init_st());
        let mut done: Vec<Frames> = Vec::new();
        let mut cur: Vec<BonePos> = zero_row_exec();
        let mut nf: usize = 0;
        let mut i: usize = 0;
        proof {
            lemma_rec_step_wf(lines_v, init_st());
            assert(lines_v.skip(0) =~= lines_v);
            assert(done@.map_values(|f: Frames| f.pos@) =~= Seq::<Seq<BonePos>>::empty());
            assert(exec_st(0, done@, cur@) == init_st());
        }
        while i < lines.len()
            invariant
                0 <= i <= lines@.len(),
                lines_v == lines@.map_values(|l: Vec<u8>| l@),
                nf == done@.len(),
                nf <= 40,
                cur@.len() == 21,
                target == rec_step(lines_v.skip(i as int), exec_st(nf as int, done@, cur@)),
                target == rec_step(lines_v, init_st()),
            decreases lines@.len() - i,
        {
            let ghost st = exec_st(nf as int, done@, cur@);
            let ghost rem = lines_v.skip(i as int);
            let t = trim_bytes(&lines[i]);
            proof {
                assert(rem[0] == lines_v[i as int]);
                assert(lines_v[i as int] == lines@[i as int]@);
                assert(t@ == spec_trim(rem[0]));
            }
            if is_endfile(&t) {
                proof {
                    assert(rec_step(rem, st) == st);
                    assert(lines_v.skip(lines_v.len() as int) =~= Seq::<Seq<u8>>::empty());
                }
                i = lines.len();
            } else if is_nextframe(&t) {
                if nf == MAX_FRAMES_INDEX {
                    proof {
                        assert(rec_step(rem, st) == st);
                        assert(lines_v.skip(lines_v.len() as int) =~= Seq::<Seq<u8>>::empty());
                    }
                    i = lines.len();
                } else {
                    let ghost old_done = done@;
                    let ghost old_cur = cur@;
                    done.push(Frames { pos: cur });
                    cur = zero_row_exec();
                    nf += 1;
                    i += 1;
                    proof {
                        let st2 = LoadSt {
                            nf: st.nf + 1,
                            done: st.done.push(st.cur),
                            cur: zero_row(),
                        };
                        assert(rec_step(rem, st) == rec_step(rem.drop_first(), st2));
                        assert(done@.map_values(|f: Frames| f.pos@) =~= old_done.map_values(
                            |f: Frames| f.pos@,
                        ).push(old_cur));
                        assert(exec_st(nf as int, done@, cur@) == st2);
                        assert(rem.drop_first() =~= lines_v.skip(i as int));
                    }
                }
            } else {
                let p = parse_i32_bytes(&t);
                let x_line: Vec<u8> = if lines.len() - i > 1 {
                    trim_bytes(&lines[i + 1])
                } else {
                    Vec::new()
                };
                let y_line: Vec<u8> = if lines.len() - i > 3 {
                    trim_bytes(&lines[i + 3])
                } else {
                    Vec::new()
                };
                proof {
                    if i + 1 < lines@.len() {
                        assert(line_at(rem, 1) == lines@[i + 1]@);
                    } else {
                        assert(line_at(rem, 1) =~= Seq::<u8>::empty());
                    }
                    if i + 3 < lines@.len() {
                        assert(line_at(rem, 3) == lines@[i + 3]@);
                    } else {
                        assert(line_at(rem, 3) =~= Seq::<u8>::empty());
                    }
                    assert(x_line@ == spec_trim(line_at(rem, 1)));
                    assert(y_line@ == spec_trim(line_at(rem, 3)));
                }
                let xr = parse_dec_bytes(&x_line);
                let yr = parse_dec_bytes(&y_line);
                let bx = Fp { num: -30 * xr.num, den: 11 * xr.den };
                let by = Fp { num: -3 * yr.num, den: yr.den };
                proof {
                    assert(bx == xform_x(spec_parse_dec(spec_trim(line_at(rem, 1)))));
                    assert(by == xform_y(spec_parse_dec(spec_trim(line_at(rem, 3)))));
                }
                let ghost old_cur = cur@;
                if p >= 1 && p <= MAX_POS_INDEX as i32 {
                    let pose = BonePos { x: bx, y: by };
                    cur.set(p as usize, pose);
                }
                proof {
                    let pp = spec_parse_i32(t@);
                    let st2 = if 1 <= pp <= 20 {
                        LoadSt {
                            cur: st.cur.update(
                                pp,
                                BonePos {
                                    x: xform_x(spec_parse_dec(spec_trim(line_at(rem, 1)))),
                                    y: xform_y(spec_parse_dec(spec_trim(line_at(rem, 3)))),
                                },
                            ),
                            ..st
                        }
                    } else {
                        st
                    };
                    let rest = if rem.len() >= 4 {
                        rem.skip(4)
                    } else {
                        Seq::<Seq<u8>>::empty()
                    };
                    assert(rec_step(rem, st) == rec_step(rest, st2));
                    assert(exec_st(nf as int, done@, cur@) == st2);
                    if rem.len() >= 4 {
                        assert(rem.skip(4) =~= lines_v.skip(i + 4));
                    } else {
                        assert(lines_v.skip(lines_v.len() as int) =~= Seq::<Seq<u8>>::empty());
                    }
                }
                if lines.len() - i >= 4 {
                    i += 4;
                } else {
                    i = lines.len();
                }
            }
        }
        let ghost st_end = exec_st(nf as int, done@, cur@);
        proof {
            assert(lines_v.skip(i as int) =~= Seq::<Seq<u8>>::empty());
            assert(target == st_end);
            assert(spec_load(data@) == target);
            lemma_rec_step_wf(lines_v, init_st());
        }
        let num_frames: i32 = nf as i32;
        let mut frame: Vec<Frames> = done;
        frame.push(Frames { pos: cur });
        let ghost base = frame@;
        while frame.len() < 41
            invariant
                nf + 1 <= frame@.len() <= 41,
                base.len() == nf + 1,
                frame@.subrange(0, (nf + 1) as int) == base,
                forall|k: int|
                    nf + 1 <= k < frame@.len() ==> (#[trigger] frame@[k]).pos@ == zero_row(),
            decreases 41 - frame@.len(),
        {
            let ghost before = frame@;
            frame.push(Frames { pos: zero_row_exec() });
            proof {
                assert(frame@.subrange(0, (nf + 1) as int) =~= before.subrange(
                    0,
                    (nf + 1) as int,
                ));
            }
        }
        let r = Animation { id, num_frames, speed, count: 0, curr_frame: 1, looped, frame };
        proof {
            let st = spec_load(data@);
            assert(st == st_end);
            assert forall|f: int|
                0 <= f < 41 implies (#[trigger] r.frame@[f]).pos@ == grid_of(st)[f] by {
                if f < nf {
                    assert(r.frame@[f] == base[f]) by {
                        assert(r.frame@.subrange(0, (nf + 1) as int)[f] == r.frame@[f]);
                    }
                    assert(st.done[f] == done@.map_values(|fr: Frames| fr.pos@)[f]);
                    assert(grid_of(st)[f] == st.done[f]);
                } else if f == nf {
                    assert(r.frame@[f] == base[f]) by {
                        assert(r.frame@.subrange(0, (nf + 1) as int)[f] == r.frame@[f]);
                    }
                    assert(grid_of(st)[f] == st.cur);
                } else {
                    assert(grid_of(st)[f] == zero_row());
                }
            }
        }
        r
    }
}


proof fn lemma_advance_n_add(a: Animation, m: nat, n: nat)
    ensures
        a.spec_advance_n(m + n) == a.spec_advance_n(m).spec_advance_n(n),
    decreases n,
{
    if n > 0 {
        lemma_advance_n_add(a, m, (n - 1) as nat);
    }
}

proof fn lemma_advance_n_front(a: Animation, n: nat)
    requires
        n > 0,
    ensures
        a.spec_advance_n(n) == a.spec_advance().spec_advance_n((n - 1) as nat),
    decreases n,
{
    if n > 1 {
        lemma_advance_n_front(a, (n - 1) as nat);
        assert(a.spec_advance_n(n) == a.spec_advance_n((n - 1) as nat).spec_advance());
        assert(a.spec_advance().spec_advance_n((n - 1) as nat) == a.spec_advance().spec_advance_n(
            (n - 2) as nat,
        ).spec_advance());
    } else {
        assert(a.spec_advance_n(n) == a.spec_advance_n(0).spec_advance());
        assert(a.spec_advance_n(0) == a);
        assert(a.spec_advance().spec_advance_n(0) == a.spec_advance());
    }
}

proof fn lemma_ticks_within(a: Animation, k: nat)
    requires
        a.wf(),
        a.count == 0,
        k < a.speed,
    ensures
        a.spec_advance_n(k) == (Animation { count: k as i32, ..a }),
    decreases k,
{
    if k > 0 {
        lemma_ticks_within(a, (k - 1) as nat);
    } else {
        assert(Animation { count: 0i32, ..a } == a);
    }
}

proof fn lemma_one_period(a: Animation)
    requires
        a.wf(),
        a.count == 0,
    ensures
        a.spec_advance_n(a.speed as nat) == (Animation {
            count: 0,
            curr_frame: a.next_frame() as i32,
            ..a
        }),
{
    lemma_ticks_within(a, (a.speed - 1) as nat);
    assert(a.spec_advance_n(a.speed as nat) == a.spec_advance_n(
        (a.speed - 1) as nat,
    ).spec_advance());
}

/// The frame shown after `k` whole periods of a looped clip: the cyclic
/// successor taken `k` times.
pub open spec fn cyc_frame(a: Animation, k: nat) -> int {
    if a.curr_frame + k <= a.num_frames {
        a.curr_frame + k
    } else {
        a.curr_frame + k - a.num_frames
    }
}

proof fn lemma_cycle(a: Animation, k: nat)
    requires
        a.wf(),
        a.looped,
        a.count == 0,
        k <= a.num_frames,
    ensures
        a.spec_advance_n((k * a.speed) as nat) == (Animation {
            curr_frame: cyc_frame(a, k) as i32,
            ..a
        }),
    decreases k,
{
    if k == 0 {
        assert(Animation { curr_frame: a.curr_frame, ..a } == a);
    } else {
        lemma_cycle(a, (k - 1) as nat);
        let b = Animation { curr_frame: cyc_frame(a, (k - 1) as nat) as i32, ..a };
        assert(1 <= cyc_frame(a, (k - 1) as nat) <= a.num_frames);
        lemma_one_period(b);
        assert(((k - 1) * a.speed) >= 0) by (nonlinear_arith)
            requires
                k >= 1,
                a.speed >= 1,
        ;
        assert((k * a.speed) == ((k - 1) * a.speed) + a.speed) by (nonlinear_arith);
        lemma_advance_n_add(a, ((k - 1) * a.speed) as nat, a.speed as nat);
        assert(b.next_frame() == cyc_frame(a, k));
    }
}

/// A looped clip comes back to its starting frame with a zero tick counter
/// after exactly `speed * num_frames` ticks: one full cycle changes nothing.
pub proof fn lemma_looped_full_cycle(a: Animation)
    requires
        a.wf(),
        a.looped,
        a.count == 0,
    ensures
        a.spec_advance_n((a.speed * a.num_frames) as nat) == a,
{
    assert(a.speed * a.num_frames == (a.num_frames as nat) * a.speed) by (nonlinear_arith)
        requires
            a.num_frames >= 1,
    ;
    lemma_cycle(a, a.num_frames as nat);
    assert(cyc_frame(a, a.num_frames as nat) == a.curr_frame);
    assert(Animation { curr_frame: a.curr_frame, ..a } == a);
}

/// How many ticks a non-looped clip needs, at most, before its current
/// frame is the last one.
pub open spec fn steps_to_end(a: Animation) -> int {
    if a.curr_frame == a.num_frames {
        0
    } else {
        (a.speed - a.count) + (a.num_frames - 1 - a.curr_frame) * a.speed
    }
}

proof fn lemma_hold_at_end(a: Animation, n: nat)
    requires
        a.wf(),
        !a.looped,
        a.curr_frame == a.num_frames,
    ensures
        a.spec_advance_n(n).curr_frame == a.num_frames,
        a.spec_advance_n(n).wf(),
        a.spec_advance_n(n).num_frames == a.num_frames,
        !a.spec_advance_n(n).looped,
    decreases n,
{
    if n > 0 {
        lemma_hold_at_end(a, (n - 1) as nat);
    }
}

proof fn lemma_reach_end(a: Animation, n: nat)
    requires
        a.wf(),
        !a.looped,
        n >= steps_to_end(a),
    ensures
        a.spec_advance_n(n).curr_frame == a.num_frames,
    decreases n,
{
    if a.curr_frame == a.num_frames {
        lemma_hold_at_end(a, n);
    } else {
        assert((a.num_frames - 1 - a.curr_frame) * a.speed >= 0) by (nonlinear_arith)
            requires
                a.num_frames - 1 - a.curr_frame >= 0,
                a.speed >= 1,
        ;
        let b = a.spec_advance();
        lemma_advance_n_front(a, n);
        assert(steps_to_end(b) == steps_to_end(a) - 1) by {
            if a.count + 1 == a.speed {
                assert(a.curr_frame + 1 <= a.num_frames);
                assert(b.curr_frame == a.curr_frame + 1);
                assert(b.count == 0);
                if b.curr_frame == b.num_frames {
                    assert((a.num_frames - 1 - a.curr_frame) * a.speed == 0) by (nonlinear_arith)
                        requires
                            a.num_frames - 1 - a.curr_frame == 0,
                    ;
                    assert(steps_to_end(a) == a.speed - a.count);
                } else {
                    assert((a.num_frames - 1 - a.curr_frame) * a.speed == (a.num_frames - 2
                        - a.curr_frame) * a.speed + a.speed) by (nonlinear_arith);
                    assert(steps_to_end(b) == a.speed + (a.num_frames - 2 - a.curr_frame)
                        * a.speed);
                }
            } else {
                assert(b.count == a.count + 1 && b.curr_frame == a.curr_frame);
                assert(steps_to_end(b) == (a.speed - a.count - 1) + (a.num_frames - 1
                    - a.curr_frame) * a.speed);
            }
        }
        lemma_reach_end(b, (n - 1) as nat);
    }
}

/// Once a non-looped clip has run for `speed * num_frames` ticks or more,
/// its current frame is pinned at the last frame, however much further it
/// advances.
pub proof fn lemma_unlooped_terminal_hold(a: Animation, n: nat)
    requires
        a.wf(),
        !a.looped,
        n >= a.speed * a.num_frames,
    ensures
        a.spec_advance_n(n).curr_frame == a.num_frames,
{
    if a.curr_frame == a.num_frames {
        assert(a.speed * a.num_frames >= 0) by (nonlinear_arith)
            requires
                a.speed >= 1,
                a.num_frames >= 1,
        ;
    } else {
        assert((a.speed - a.count) + (a.num_frames - 1 - a.curr_frame) * a.speed <= a.speed
            * a.num_frames) by (nonlinear_arith)
            requires
                1 <= a.curr_frame,
                a.curr_frame < a.num_frames,
                0 <= a.count < a.speed,
                1 <= a.speed,
        ;
    }
    lemma_reach_end(a, n);
}

} // verus!
