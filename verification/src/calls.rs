//! What callers of the small shared pieces can count on, call by call: bit
//! patterns and boxes, texts, the denoiser's levers, snapshots and forests.
use crate::bits;
use crate::bits::{Bits3, BitsBox};
use crate::forest::Forest;
use crate::frd;
use crate::frd::{FrdTuning, TuningCell};
use crate::frustcap;
use crate::frustcap::{FrustArtifact, LeafQuad};
use crate::gfx::shaders::Reading;
use crate::scene::Scene;
use crate::tally;
use crate::text;
use vstd::prelude::*;

verus! {

/// Patterns without the sign bit compare as the integers that they are, those
/// with it the other way round, and what lies past infinity compares with
/// nothing.
pub proof fn comparisons_go_by_the_pattern(a: u32, b: u32, l: bool, m: bool)
    requires
        call_ensures(bits::is_lt, (a, b), l),
        call_ensures(bits::is_le, (a, b), m),
    ensures
        a <= 0x7f80_0000 && b <= 0x7f80_0000 ==> (l <==> a < b) && (m <==> a <= b),
        0x8000_0000 <= a <= 0xff80_0000 && 0x8000_0000 <= b <= 0xff80_0000 ==> (l <==> b < a) && (m
            <==> b <= a),
        0x8000_0000 <= a <= 0xff80_0000 && b <= 0x7f80_0000 ==> m && (l <==> a > 0x8000_0000 || b
            > 0),
        a <= 0x7f80_0000 && 0x8000_0000 <= b <= 0xff80_0000 ==> !l && (m <==> a == 0 && b
            == 0x8000_0000),
        a % 0x8000_0000 > 0x7f80_0000 || b % 0x8000_0000 > 0x7f80_0000 ==> !l && !m,
{
}

/// The smaller and the larger of two numbers are one of the two and bound both.
/// Of a number and what is none, a lane takes the second, the plain rule the
/// number.
pub proof fn extremes_are_one_of_the_two(
    a: u32,
    b: u32,
    lo: u32,
    hi: u32,
    least: u32,
    most: u32,
)
    requires
        call_ensures(bits::smaller, (a, b), lo),
        call_ensures(bits::larger, (a, b), hi),
        call_ensures(bits::lesser, (a, b), least),
        call_ensures(bits::greater, (a, b), most),
    ensures
        (lo == a || lo == b) && (hi == a || hi == b) && (least == a || least == b) && (most == a
            || most == b),
        !bits::is_nan(a) && !bits::is_nan(b) ==> {
            &&& bits::le(lo, a) && bits::le(lo, b) && bits::le(a, hi) && bits::le(b, hi)
            &&& bits::le(least, a) && bits::le(least, b) && bits::le(a, most) && bits::le(b, most)
        },
        bits::is_nan(a) || bits::is_nan(b) ==> lo == b && hi == b,
        bits::is_nan(a) ==> least == b && most == b,
        bits::is_nan(b) && !bits::is_nan(a) ==> least == a && most == a,
{
}

/// Boxes hold the points and the boxes that are put into them, and grow no
/// further; two of them overlap exactly where they share a point.
pub proof fn boxes_hold_what_is_put_in(
    empty: BitsBox,
    b: BitsBox,
    p: Bits3,
    g: BitsBox,
    c: BitsBox,
    m: BitsBox,
    o: bool,
    q: Bits3,
)
    requires
        call_ensures(bits::new_box, (), empty),
        call_ensures(bits::grow, (b, p), g),
        call_ensures(bits::merge, (b, c), m),
        call_ensures(bits::overlap, (b, c), o),
        bits::is_point(b.lo) && bits::is_point(b.hi) && bits::is_point(p),
        bits::is_point(c.lo) && bits::is_point(c.hi),
    ensures
        !bits::inside(q, empty),
        b == empty && bits::inside(q, g) ==> bits::same_place(q, p),
        bits::inside(p, g),
        bits::inside(q, b) ==> bits::inside(q, g),
        bits::inside(q, b) || bits::inside(q, c) ==> bits::inside(q, m),
        (g.lo.x == b.lo.x || g.lo.x == p.x) && (g.lo.y == b.lo.y || g.lo.y == p.y) && (g.lo.z
            == b.lo.z || g.lo.z == p.z),
        (g.hi.x == b.hi.x || g.hi.x == p.x) && (g.hi.y == b.hi.y || g.hi.y == p.y) && (g.hi.z
            == b.hi.z || g.hi.z == p.z),
        (m.lo.x == b.lo.x || m.lo.x == c.lo.x) && (m.lo.y == b.lo.y || m.lo.y == c.lo.y) && (m.lo.z
            == b.lo.z || m.lo.z == c.lo.z),
        (m.hi.x == b.hi.x || m.hi.x == c.hi.x) && (m.hi.y == b.hi.y || m.hi.y == c.hi.y) && (m.hi.z
            == b.hi.z || m.hi.z == c.hi.z),
        bits::inside(q, b) && bits::inside(q, c) ==> o,
        o ==> exists|p: Bits3| #[trigger] bits::inside(p, b) && bits::inside(p, c),
{
    bits::boxes_grow_to_hold(b, p, q);
    bits::merged_boxes_hold_both(b, c, q);
    bits::overlap_is_a_common_point(b, c, q);
}

/// A text holds another where it reads so; comparing is exact, or forgives the
/// case of letters.
pub proof fn texts_are_searched_and_compared(
    a: &str,
    b: &str,
    found: bool,
    equal: bool,
    loose: bool,
)
    requires
        call_ensures(text::contains, (a, b), found),
        call_ensures(text::same, (a, b), equal),
        call_ensures(text::eq_ignore_case, (a, b), loose),
    ensures
        found <==> exists|x: Seq<char>, y: Seq<char>| a@ == #[trigger] (x + b@ + y),
        equal <==> a@ == b@,
        equal ==> loose && found,
        loose <==> a@.len() == b@.len() && forall|i: int|
            0 <= i < a@.len() ==> {
                ||| #[trigger] a@[i] == b@[i]
                ||| 65 <= a@[i] as int <= 90 && b@[i] as int == a@[i] as int + 32
                ||| 65 <= b@[i] as int <= 90 && a@[i] as int == b@[i] as int + 32
            },
{
    text::what_stands_in_a_text_is_found(a@, b@);
    text::only_case_is_forgiven(a@, b@);
    if equal {
        assert(text::occurs_at(a@, b@, 0)) by {
            assert(a@.subrange(0, b@.len() as int) =~= b@);
        }
    }
}

/// A number is printed with its last digit last, the rest of it before, and no
/// leading zero; and what is printed reads back.
pub proof fn numbers_are_printed_and_read(
    before: &str,
    after: &str,
    n: u32,
    s: &mut String,
    w: String,
)
    requires
        call_ensures(text::push_dec, (s, n as u64), ()),
        call_ensures(text::with_number, (before, n as u64, after), w),
    ensures
        ({
            let d = text::dec(n as nat);
            &&& final(s)@ == old(s)@ + d
            &&& w@ == before@ + d + after@
            &&& d.len() >= 1 && d.last() as int == 48 + n % 10
            &&& n < 10 ==> d.len() == 1
            &&& n >= 10 ==> d.drop_last() == text::dec(n as nat / 10)
            &&& n > 0 ==> d[0] as int != 48
            &&& text::reads_as(d) == Some(n)
        }),
{
    text::numbers_print_digit_by_digit(n as nat);
    text::printed_numbers_read_back(n);
}

/// Reading a text one digit longer gives ten times as much and the digit, where
/// that fits; a character that is no digit spoils it.
pub proof fn readings_go_digit_by_digit(s: &str, t: &str, c: char, a: Option<u32>, b: Option<u32>)
    requires
        call_ensures(text::parse_u32, (s,), a),
        call_ensures(text::parse_u32, (t,), b),
        s@.len() > 0,
        s@[0] != '+',
        t@ == s@.push(c),
    ensures
        a is Some && 48 <= c as int <= 57 ==> {
            let more = 10 * a->0 + (c as int - 48);
            b == if more <= 0xffff_ffff {
                Some(more as u32)
            } else {
                None
            }
        },
        a is None || !(48 <= c as int <= 57) ==> b is None,
{
    text::numbers_read_digit_by_digit(s@, c);
}

/// Joining one part more puts the separator and the part behind.
pub proof fn joins_separate_neighbours(
    parts: &[&str],
    more: &[&str],
    sep: &str,
    a: String,
    b: String,
)
    requires
        call_ensures(text::join, (parts, sep), a),
        call_ensures(text::join, (more, sep), b),
        more@.len() == parts@.len() + 1,
        forall|i: int| 0 <= i < parts@.len() ==> (#[trigger] more@[i])@ == parts@[i]@,
    ensures
        parts@.len() == 0 ==> a@.len() == 0 && b@ == more@[0]@,
        parts@.len() > 0 ==> b@ == a@ + sep@ + more@.last()@,
{
    let (x, y) = (text::texts(parts@), text::texts(more@));
    assert(y =~= x.push(more@.last()@));
    text::joining_separates_neighbours(x, more@.last()@, sep@);
    if parts@.len() == 0 {
        assert(x =~= Seq::empty());
        assert(y =~= seq![more@[0]@]);
    }
}

/// The baseline scale is the height over 540 to the nearest whole, at least one;
/// a forced one stands in its place.
pub proof fn baselines_follow_the_height(rh: u32, lever: Option<u32>, s: u32, t: u32)
    requires
        call_ensures(frd::vm_baseline_scale, (rh,), s),
        call_ensures(frd::vm_scale_for, (lever, rh), t),
    ensures
        s >= 1,
        rh < 810 ==> s == 1,
        rh >= 540 ==> 2 * rh - 540 < 1080 * s <= 2 * rh + 540,
        lever matches Some(f) ==> t == f,
        lever is None ==> t == s,
{
    frd::scale_is_one_below_the_anchor(rh as int, rh as int);
    if rh >= 540 {
        frd::scale_follows_the_height(rh as int);
    }
}

/// The denoiser's variables: `off` in any case, a whole scale from one to eight, a
/// gain that is a finite number from zero up, and nothing else.
pub proof fn denoiser_variables_take_their_words(
    var: Option<&str>,
    number: Option<u32>,
    scale: (Option<u32>, Reading),
    gain: (u32, Reading),
    a: (bool, Reading),
    b: (bool, Reading),
    c: (bool, Reading),
    d: (bool, Reading),
)
    requires
        call_ensures(frd::vm_scale_lever, (var, number), scale),
        call_ensures(frd::sunpar_gain, (var, number), gain),
        call_ensures(frd::curv_enabled, (var,), a),
        call_ensures(frd::vmotion_enabled, (var,), b),
        call_ensures(frd::girelax_enabled, (var,), c),
        call_ensures(frd::antilag_enabled, (var,), d),
    ensures
        a == b && b == c && c == d,
        var is None ==> scale == (None::<u32>, Reading::Unset) && gain == (
            0x3f80_0000u32,
            Reading::Unset,
        ) && a == (true, Reading::Unset),
        var matches Some(v) ==> {
            let off = text::same_letters(v@, "off"@);
            &&& off ==> scale == (Some(1u32), Reading::Taken) && gain == (0u32, Reading::Taken) && a
                == (false, Reading::Taken)
            &&& !off ==> a == (true, Reading::Refused)
            &&& !off && number is None ==> scale == (None::<u32>, Reading::Refused) && gain == (
                0x3f80_0000u32,
                Reading::Refused,
            )
            &&& !off ==> (number matches Some(n) ==> {
                let (e, m) = (n / 0x80_0000, 0x80_0000 + n % 0x80_0000);
                &&& gain == if n < 0x7f80_0000 || n == 0x8000_0000 {
                    (n, Reading::Taken)
                } else {
                    (0x3f80_0000u32, Reading::Refused)
                }
                &&& scale.0 matches Some(s) ==> scale.1 == Reading::Taken && 1 <= s <= 8 && {
                    ||| e == 127 && m == s * 0x80_0000
                    ||| e == 128 && 2 * m == s * 0x80_0000
                    ||| e == 129 && 4 * m == s * 0x80_0000
                    ||| e == 130 && 8 * m == s * 0x80_0000
                }
                &&& scale.0 is None ==> scale.1 == Reading::Refused && forall|s: u32|
                    1 <= s <= 8 ==> !(e == 127 && m == s * 0x80_0000) && !(e == 128 && 2 * m
                        == #[trigger] (s * 0x80_0000)) && !(e == 129 && 4 * m == s * 0x80_0000) && !(
                    e == 130 && 8 * m == s * 0x80_0000)
            })
        },
{
    if let Some(v) = var {
        frd::variables_take_off_or_a_number(v, number);
        if let Some(n) = number {
            assert forall|s: u32| true implies (#[trigger] frd::whole_scale(n) == Some(s) <==> 1 <= s <= 8 && {
                let (e, m) = (n / 0x80_0000, 0x80_0000 + n % 0x80_0000);
                ||| e == 127 && m == s * 0x80_0000
                ||| e == 128 && 2 * m == s * 0x80_0000
                ||| e == 129 && 4 * m == s * 0x80_0000
                ||| e == 130 && 8 * m == s * 0x80_0000
            }) by {
                frd::scales_are_worth_their_pattern(n, s);
            }
        }
    }
}

/// The first tuning stays; before it nothing is overridden.
pub proof fn the_first_tuning_stays(
    fresh: TuningCell,
    c: &mut TuningCell,
    t: FrdTuning,
    before: FrdTuning,
    any: bool,
    now: FrdTuning,
)
    requires
        call_ensures(TuningCell::new, (), fresh),
        call_ensures(TuningCell::tuning, (&fresh,), before),
        call_ensures(TuningCell::set_tuning, (c, t), ()),
        call_ensures(TuningCell::tuning, (&*final(c),), now),
        call_ensures(FrdTuning::any, (&t,), any),
    ensures
        before.max_accum_frames is None && before.fast_frames is None && before.max_stab_frames
            is None && before.blur_radius is None && before.clamp_sigma is None
            && before.anti_firefly is None && !before.no_fp16,
        old(c).set is None ==> now == t,
        old(c).set is Some ==> Some(now) == old(c).set,
        any <==> t.max_accum_frames is Some || t.fast_frames is Some || t.max_stab_frames is Some
            || t.blur_radius is Some || t.clamp_sigma is Some || t.anti_firefly is Some || t.no_fp16,
{
}

/// A snapshot shows the tiles that start past the limit, in order, each as two
/// triangles of its own behind what was there.
pub proof fn snapshots_show_far_tiles(
    scene: &mut Scene,
    before: Scene,
    after: Scene,
    quads: &[LeafQuad],
    min_t: u32,
    a: FrustArtifact,
    i: int,
)
    requires
        before == *old(scene),
        after == *final(scene),
        call_ensures(frustcap::build, (scene, quads, min_t), a),
        before.positions@.len() + 6 * quads@.len() <= u32::MAX,
        ({
            let shown = quads@.filter(|q: LeafQuad| !bits::le(q.t_start, min_t));
            0 <= i < shown.len()
        }),
    ensures
        ({
            let shown = quads@.filter(|q: LeafQuad| !bits::le(q.t_start, min_t));
            let (v, q) = (before.positions@.len() + 6 * i, shown[i]);
            let t = before.indices@.len() + 2 * i;
            let (x, y) = (after.indices@[t]@, after.indices@[t + 1]@);
            &&& a.verts == 6 * shown.len() && a.tris == 2 * shown.len()
            &&& after.positions@.len() == before.positions@.len() + a.verts
            &&& after.indices@.len() == before.indices@.len() + a.tris
            &&& after.materials@.len() == before.materials@.len() + a.mats
            &&& x.len() == 3 && x[0] == v && x[1] == v + 1 && x[2] == v + 2
            &&& y.len() == 3 && y[0] == v + 3 && y[1] == v + 4 && y[2] == v + 5
            &&& after.positions@[v] == q.p0 && after.positions@[v + 1] == q.p1
                && after.positions@[v + 2] == q.p2
            &&& after.positions@[v + 3] == q.p0 && after.positions@[v + 4] == q.p2
                && after.positions@[v + 5] == q.p3
        }),
        after.positions@.take(before.positions@.len() as int) == before.positions@,
        after.materials@.take(before.materials@.len() as int) == before.materials@,
{
    frustcap::near_tiles_are_left_out(quads@, min_t);
    frustcap::lemma_lens(frustcap::visible(quads@, min_t));
    lemma_filter_is_shorter(quads@, |q: LeafQuad| !bits::le(q.t_start, min_t));
    frustcap::tiles_become_two_triangles(before, after, frustcap::visible(quads@, min_t), i);
}

proof fn lemma_filter_is_shorter(s: Seq<LeafQuad>, keep: spec_fn(LeafQuad) -> bool)
    ensures
        s.filter(keep).len() <= s.len(),
    decreases s.len(),
{
    reveal(Seq::filter);
    if s.len() > 0 {
        lemma_filter_is_shorter(s.drop_last(), keep);
    }
}

/// Taking a snapshot off gives back the scene that it was taken in.
pub proof fn snapshots_are_taken_off(
    scene: &mut Scene,
    before: Scene,
    quads: &[LeafQuad],
    min_t: u32,
    a: FrustArtifact,
    again: &mut Scene,
    after: Scene,
)
    requires
        before == *old(scene),
        before.normals@.len() == before.positions@.len(),
        before.texcoords@.len() == before.positions@.len(),
        before.tri_mat@.len() == before.indices@.len(),
        call_ensures(frustcap::build, (scene, quads, min_t), a),
        *old(again) == *final(scene),
        call_ensures(frustcap::clear, (again, a), ()),
        after == *final(again),
    ensures
        after.positions@ == before.positions@ && after.normals@ == before.normals@,
        after.texcoords@ == before.texcoords@ && after.indices@ == before.indices@,
        after.tri_mat@ == before.tri_mat@ && after.materials@ == before.materials@,
        after.textures == before.textures && after.sway_regions == before.sway_regions,
{
    frustcap::clear_undoes_build(
        before,
        *old(again),
        after,
        frustcap::visible(quads@, min_t),
        a,
    );
}

/// A forest starts with every member alone; joining two puts their groups
/// together and leaves the others as they were; finding changes no group.
pub proof fn forests_join_groups(
    n: u32,
    fresh: Forest,
    f: &mut Forest,
    a: u32,
    b: u32,
    g: &mut Forest,
    x: u32,
    r: u32,
    i: int,
    j: int,
)
    requires
        call_ensures(Forest::new, (n,), fresh),
        call_ensures(Forest::join, (f, a, b), ()),
        call_ensures(Forest::find, (g, x), r),
        0 <= a < old(f).roots().len(),
        0 <= b < old(f).roots().len(),
        0 <= i < old(f).roots().len(),
        0 <= j < old(f).roots().len(),
    ensures
        fresh.roots().len() == n && (0 <= i < n ==> fresh.roots()[i] == i),
        ({
            let (was, now) = (old(f).roots(), final(f).roots());
            &&& now.len() == was.len()
            &&& now[i] == now[j] <==> was[i] == was[j] || (was[i] == was[a as int] && was[j]
                == was[b as int]) || (was[i] == was[b as int] && was[j] == was[a as int])
        }),
        final(g).roots() == old(g).roots() && r == old(g).roots()[x as int],
{
}

/// A set of ids in order takes one more and stays in order.
pub proof fn ids_are_inserted_in_order(v: &mut Vec<u32>, x: u32, y: u32, w: &mut Vec<u64>, z: u64)
    requires
        call_ensures(tally::insert_sorted, (v, x), ()),
        call_ensures(tally::insert_key, (w, z), ()),
    ensures
        final(v)@.contains(x) && final(w)@.contains(z),
        final(v)@.contains(y) <==> old(v)@.contains(y) || y == x,
        forall|i: int, j: int|
            0 <= i < j < final(v)@.len() ==> #[trigger] final(v)@[i] < #[trigger] final(v)@[j],
        forall|i: int, j: int|
            0 <= i < j < final(w)@.len() ==> #[trigger] final(w)@[i] < #[trigger] final(w)@[j],
        final(w)@.len() == old(w)@.len() + 1,
{
}

} // verus!
