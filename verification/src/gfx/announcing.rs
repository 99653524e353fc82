//! Which ablation tags are announced.
use crate::gfx::shaders;
use crate::gfx::shaders::Levers;
use crate::text;
use vstd::prelude::*;

verus! {

/// The tag stands in the list.
#[verifier::opaque]
pub open spec fn lists(tags: Seq<Seq<char>>, tag: Seq<char>) -> bool {
    exists|i: int| 0 <= i < tags.len() && #[trigger] tags[i] == tag
}

proof fn lemma_none(tag: Seq<char>)
    ensures
        !lists(Seq::<Seq<char>>::empty(), tag),
{
    reveal(lists);
}

proof fn lemma_both(a: Seq<Seq<char>>, b: Seq<Seq<char>>, tag: Seq<char>)
    ensures
        lists(a + b, tag) <==> lists(a, tag) || lists(b, tag),
{
    reveal(lists);
    let all = a + b;
    if lists(a, tag) {
        let i = choose|i: int| 0 <= i < a.len() && #[trigger] a[i] == tag;
        assert(all[i] == tag);
    }
    if lists(b, tag) {
        let i = choose|i: int| 0 <= i < b.len() && #[trigger] b[i] == tag;
        assert(all[a.len() + i] == tag);
    }
    if lists(all, tag) {
        let i = choose|i: int| 0 <= i < all.len() && #[trigger] all[i] == tag;
        if i < a.len() {
            assert(a[i] == tag);
        } else {
            assert(b[i - a.len()] == tag);
        }
    }
}

proof fn lemma_one(on: bool, part: Seq<char>, tag: Seq<char>)
    ensures
        lists(shaders::part_if(on, part), tag) <==> on && tag == part,
{
    reveal(lists);
    if on {
        assert(shaders::part_if(on, part)[0] == part);
    }
}

/// The first half of the list.
#[verifier::spinoff_prover]
#[verifier::rlimit(60)]
proof fn lemma_first(l: &Levers, tag: Seq<char>)
    ensures
        lists(shaders::first_tags(l), tag) <==> text::has(l.abl@, tag) && {
            ||| tag == "sunt"@
            ||| tag == "rough"@
            ||| tag == "nogbuf"@
            ||| tag == "nopack"@
            ||| tag == "nowave"@
            ||| tag == "wavegw"@
            ||| tag == "noelcull"@
            ||| tag == "noffcode"@
            ||| tag == "noelcode"@
            ||| tag == "oldcut"@
            ||| tag == "nobatch"@
        },
{
    let s0 = Seq::<Seq<char>>::empty();
    lemma_none(tag);
    let p1 = shaders::part_if(shaders::has_tag(l, "sunt"), "sunt"@);
    let s1 = s0 + p1;
    lemma_one(shaders::has_tag(l, "sunt"), "sunt"@, tag);
    lemma_both(s0, p1, tag);
    let p2 = shaders::part_if(shaders::has_tag(l, "rough"), "rough"@);
    let s2 = s1 + p2;
    lemma_one(shaders::has_tag(l, "rough"), "rough"@, tag);
    lemma_both(s1, p2, tag);
    let p3 = shaders::part_if(shaders::has_tag(l, "nogbuf"), "nogbuf"@);
    let s3 = s2 + p3;
    lemma_one(shaders::has_tag(l, "nogbuf"), "nogbuf"@, tag);
    lemma_both(s2, p3, tag);
    let p4 = shaders::part_if(shaders::has_tag(l, "nopack"), "nopack"@);
    let s4 = s3 + p4;
    lemma_one(shaders::has_tag(l, "nopack"), "nopack"@, tag);
    lemma_both(s3, p4, tag);
    let p5 = shaders::part_if(shaders::has_tag(l, "nowave"), "nowave"@);
    let s5 = s4 + p5;
    lemma_one(shaders::has_tag(l, "nowave"), "nowave"@, tag);
    lemma_both(s4, p5, tag);
    let p6 = shaders::part_if(shaders::has_tag(l, "wavegw"), "wavegw"@);
    let s6 = s5 + p6;
    lemma_one(shaders::has_tag(l, "wavegw"), "wavegw"@, tag);
    lemma_both(s5, p6, tag);
    let p7 = shaders::part_if(shaders::has_tag(l, "noelcull"), "noelcull"@);
    let s7 = s6 + p7;
    lemma_one(shaders::has_tag(l, "noelcull"), "noelcull"@, tag);
    lemma_both(s6, p7, tag);
    let p8 = shaders::part_if(shaders::has_tag(l, "noffcode"), "noffcode"@);
    let s8 = s7 + p8;
    lemma_one(shaders::has_tag(l, "noffcode"), "noffcode"@, tag);
    lemma_both(s7, p8, tag);
    let p9 = shaders::part_if(shaders::has_tag(l, "noelcode"), "noelcode"@);
    let s9 = s8 + p9;
    lemma_one(shaders::has_tag(l, "noelcode"), "noelcode"@, tag);
    lemma_both(s8, p9, tag);
    let p10 = shaders::part_if(shaders::has_tag(l, "oldcut"), "oldcut"@);
    let s10 = s9 + p10;
    lemma_one(shaders::has_tag(l, "oldcut"), "oldcut"@, tag);
    lemma_both(s9, p10, tag);
    let p11 = shaders::part_if(shaders::has_tag(l, "nobatch"), "nobatch"@);
    let s11 = s10 + p11;
    lemma_one(shaders::has_tag(l, "nobatch"), "nobatch"@, tag);
    lemma_both(s10, p11, tag);
}

/// The second half of the list.
#[verifier::spinoff_prover]
#[verifier::rlimit(60)]
proof fn lemma_last(l: &Levers, tag: Seq<char>)
    ensures
        lists(shaders::last_tags(l), tag) <==> text::has(l.abl@, tag) && {
            ||| tag == "nocandtmin"@
            ||| tag == "noalpha"@
            ||| tag == "noheight"@
            ||| tag == "notrans"@
            ||| tag == "tzero"@
            ||| tag == "noshadow"@
            ||| tag == "noao"@
            ||| tag == "norefl"@
            ||| tag == "noglass"@
            ||| tag == "nogi"@
            ||| tag == "nosec"@
        },
{
    let s0 = Seq::<Seq<char>>::empty();
    lemma_none(tag);
    let p1 = shaders::part_if(shaders::has_tag(l, "nocandtmin"), "nocandtmin"@);
    let s1 = s0 + p1;
    lemma_one(shaders::has_tag(l, "nocandtmin"), "nocandtmin"@, tag);
    lemma_both(s0, p1, tag);
    let p2 = shaders::part_if(shaders::has_tag(l, "noalpha"), "noalpha"@);
    let s2 = s1 + p2;
    lemma_one(shaders::has_tag(l, "noalpha"), "noalpha"@, tag);
    lemma_both(s1, p2, tag);
    let p3 = shaders::part_if(shaders::has_tag(l, "noheight"), "noheight"@);
    let s3 = s2 + p3;
    lemma_one(shaders::has_tag(l, "noheight"), "noheight"@, tag);
    lemma_both(s2, p3, tag);
    let p4 = shaders::part_if(shaders::has_tag(l, "notrans"), "notrans"@);
    let s4 = s3 + p4;
    lemma_one(shaders::has_tag(l, "notrans"), "notrans"@, tag);
    lemma_both(s3, p4, tag);
    let p5 = shaders::part_if(shaders::has_tag(l, "tzero"), "tzero"@);
    let s5 = s4 + p5;
    lemma_one(shaders::has_tag(l, "tzero"), "tzero"@, tag);
    lemma_both(s4, p5, tag);
    let p6 = shaders::part_if(shaders::has_tag(l, "noshadow"), "noshadow"@);
    let s6 = s5 + p6;
    lemma_one(shaders::has_tag(l, "noshadow"), "noshadow"@, tag);
    lemma_both(s5, p6, tag);
    let p7 = shaders::part_if(shaders::has_tag(l, "noao"), "noao"@);
    let s7 = s6 + p7;
    lemma_one(shaders::has_tag(l, "noao"), "noao"@, tag);
    lemma_both(s6, p7, tag);
    let p8 = shaders::part_if(shaders::has_tag(l, "norefl"), "norefl"@);
    let s8 = s7 + p8;
    lemma_one(shaders::has_tag(l, "norefl"), "norefl"@, tag);
    lemma_both(s7, p8, tag);
    let p9 = shaders::part_if(shaders::has_tag(l, "noglass"), "noglass"@);
    let s9 = s8 + p9;
    lemma_one(shaders::has_tag(l, "noglass"), "noglass"@, tag);
    lemma_both(s8, p9, tag);
    let p10 = shaders::part_if(shaders::has_tag(l, "nogi"), "nogi"@);
    let s10 = s9 + p10;
    lemma_one(shaders::has_tag(l, "nogi"), "nogi"@, tag);
    lemma_both(s9, p10, tag);
    let p11 = shaders::part_if(shaders::has_tag(l, "nosec"), "nosec"@);
    let s11 = s10 + p11;
    lemma_one(shaders::has_tag(l, "nosec"), "nosec"@, tag);
    lemma_both(s10, p11, tag);
}

/// A tag is announced exactly where it was given and is one that the shader units
/// know.
pub proof fn known_tags_are_announced(l: &Levers, r: Option<String>, tag: Seq<char>)
    requires
        call_ensures(shaders::abl_announce, (l,), r),
    ensures
        l.abl@.len() == 0 <==> r is None,
        r is Some && shaders::matched_tags(l).len() == 0 ==> r->0@ == "(none)"@,
        r is Some && shaders::matched_tags(l).len() > 0 ==> r->0@ == text::joined(
            shaders::matched_tags(l),
            ","@,
        ),
        lists(shaders::matched_tags(l), tag) <==> text::has(l.abl@, tag) && {
            ||| tag == "sunt"@
            ||| tag == "rough"@
            ||| tag == "nogbuf"@
            ||| tag == "nopack"@
            ||| tag == "nowave"@
            ||| tag == "wavegw"@
            ||| tag == "noelcull"@
            ||| tag == "noffcode"@
            ||| tag == "noelcode"@
            ||| tag == "oldcut"@
            ||| tag == "nobatch"@
            ||| tag == "nocandtmin"@
            ||| tag == "noalpha"@
            ||| tag == "noheight"@
            ||| tag == "notrans"@
            ||| tag == "tzero"@
            ||| tag == "noshadow"@
            ||| tag == "noao"@
            ||| tag == "norefl"@
            ||| tag == "noglass"@
            ||| tag == "nogi"@
            ||| tag == "nosec"@
        },
{
    lemma_first(l, tag);
    lemma_last(l, tag);
    lemma_both(shaders::first_tags(l), shaders::last_tags(l), tag);
}

} // verus!
