//! What the ablation lists of the shading units and of the wavefront unit have
//! in common.
use crate::gfx::shaders::{abl_text, has_tag, line_if, wavefront_abl_text, Levers};
use vstd::prelude::*;

verus! {

/// Characters of the first line, its newline with it.
pub open spec fn line_len(s: Seq<char>) -> int
    decreases s.len(),
{
    if s.len() == 0 {
        0
    } else if s[0] == '\n' {
        1
    } else {
        1 + line_len(s.skip(1))
    }
}

/// The lines of a text, their newlines with them.
pub open spec fn lines_of(s: Seq<char>) -> Seq<Seq<char>>
    decreases s.len(),
    via lines_decrease
{
    if s.len() == 0 {
        Seq::empty()
    } else {
        seq![s.take(line_len(s))] + lines_of(s.skip(line_len(s)))
    }
}

#[via_fn]
proof fn lines_decrease(s: Seq<char>) {
    lemma_line_len(s);
}

proof fn lemma_line_len(s: Seq<char>)
    ensures
        0 <= line_len(s) <= s.len(),
        s.len() > 0 ==> line_len(s) > 0,
    decreases s.len(),
{
    if s.len() > 0 && s[0] != '\n' {
        lemma_line_len(s.skip(1));
    }
}

/// One line: a newline at its end and nowhere else.
#[verifier::opaque]
spec fn is_line(s: Seq<char>) -> bool {
    &&& s.len() > 0
    &&& s.last() == '\n'
    &&& forall|i: int| 0 <= i < s.len() - 1 ==> #[trigger] s[i] != '\n'
}

/// The text has no line without a newline.
#[verifier::opaque]
spec fn whole_lines(s: Seq<char>) -> bool {
    s.len() == 0 || s.last() == '\n'
}

/// What follows a newline does not change the lines before it.
proof fn lemma_line_len_before(a: Seq<char>, b: Seq<char>)
    requires
        a.len() > 0,
        a.last() == '\n',
    ensures
        line_len(a + b) == line_len(a),
    decreases a.len(),
{
    let s = a + b;
    assert(s[0] == a[0]);
    if a[0] != '\n' {
        assert(a.len() > 1);
        assert(a.skip(1).last() == '\n');
        lemma_line_len_before(a.skip(1), b);
        assert(s.skip(1) =~= a.skip(1) + b);
    }
}

proof fn lemma_one_line(s: Seq<char>)
    requires
        is_line(s),
    ensures
        line_len(s) == s.len(),
    decreases s.len(),
{
    reveal(is_line);
    if s.len() > 1 {
        assert(s[0] != '\n');
        let t = s.skip(1);
        assert forall|i: int| 0 <= i < t.len() - 1 implies #[trigger] t[i] != '\n' by {
            assert(t[i] == s[i + 1]);
        }
        lemma_one_line(t);
    }
}

/// Appending a line to whole lines adds it to the list.
proof fn lemma_line_added(t: Seq<char>, line: Seq<char>)
    requires
        whole_lines(t),
        is_line(line),
    ensures
        lines_of(t + line) == lines_of(t).push(line),
    decreases t.len(),
{
    reveal(whole_lines);
    reveal(is_line);
    let s = t + line;
    if t.len() == 0 {
        assert(s =~= line);
        lemma_one_line(line);
        assert(line.take(line.len() as int) =~= line);
        let end = line.skip(line.len() as int);
        assert(lines_of(end) =~= Seq::empty());
        assert(lines_of(t) =~= Seq::empty());
        assert(lines_of(s) =~= lines_of(t).push(line));
    } else {
        let n = line_len(t);
        lemma_line_len(t);
        lemma_line_len_before(t, line);
        let rest = t.skip(n);
        assert(s.take(n) =~= t.take(n));
        assert(s.skip(n) =~= rest + line);
        assert(rest.len() > 0 ==> rest.last() == t.last());
        lemma_line_added(rest, line);
        assert(lines_of(s) =~= lines_of(t).push(line));
    }
}

/// The text has this line.
#[verifier::opaque]
spec fn has_line(s: Seq<char>, line: Seq<char>) -> bool {
    lines_of(s).contains(line)
}

/// A conditional line is on the list where its condition holds.
proof fn lemma_line_if(t: Seq<char>, on: bool, line: &str, x: Seq<char>)
    requires
        whole_lines(t),
        is_line(line@),
    ensures
        whole_lines(t + line_if(on, line)),
        has_line(t + line_if(on, line), x) <==> has_line(t, x) || (on && x == line@),
{
    reveal(has_line);
    reveal(whole_lines);
    reveal(is_line);
    let s = t + line_if(on, line);
    if on {
        let (a, b) = (lines_of(t), lines_of(s));
        lemma_line_added(t, line@);
        assert(s.last() == '\n');
        assert(b[a.len() as int] == line@);
        if a.contains(x) {
            assert(b[a.index_of(x)] == x);
        }
        if b.contains(x) && x != line@ {
            let i = b.index_of(x);
            assert(a[i] == x);
        }
    } else {
        reveal_strlit("");
        assert(s =~= t);
    }
}

/// The two ablation lists share the wave operations' line and no other, each
/// has it exactly where its tag was given, and the second is empty exactly
/// where none of its four tags was.
pub proof fn ablations_share_the_wave_line_alone(l: &Levers, line: Seq<char>)
    ensures
        lines_of(abl_text(l)).contains("#define ABL_NO_WAVE_OPS 1\n"@) <==> has_tag(l, "nowave"),
        lines_of(wavefront_abl_text(l)).contains("#define ABL_NO_WAVE_OPS 1\n"@) <==> has_tag(
            l,
            "nowave",
        ),
        lines_of(abl_text(l)).contains(line) && lines_of(wavefront_abl_text(l)).contains(line)
            ==> line == "#define ABL_NO_WAVE_OPS 1\n"@,
        wavefront_abl_text(l).len() == 0 <==> !has_tag(l, "oldcut") && !has_tag(l, "nobatch")
            && !has_tag(l, "nowave") && !has_tag(l, "wavegw"),
{
    let wave = "#define ABL_NO_WAVE_OPS 1\n"@;
    assert(wave[15] == 'W') by {
        reveal(is_line);
        reveal(unmarked);
        reveal_strlit("#define ABL_NO_WAVE_OPS 1\n");
    }
    reveal(unmarked);
    reveal(has_line);
    lemma_abl_lines(l, wave);
    lemma_abl_lines(l, line);
    lemma_wavefront_lines(l, wave);
    lemma_wavefront_lines(l, line);
}

/// None of the marks of the second list's lines.
#[verifier::opaque]
spec fn unmarked(x: Seq<char>) -> bool {
    x.len() > 15 && x[12] != 'K' && x[12] != 'W' && x[15] != 'Q' && x[15] != 'W'
}

/// A line of the first list is unmarked, or the one that the two share.
proof fn lemma_abl_lines(l: &Levers, x: Seq<char>)
    ensures
        has_line(abl_text(l), x) ==> unmarked(x) || (x == "#define ABL_NO_WAVE_OPS 1\n"@
            && has_tag(l, "nowave")),
        has_tag(l, "nowave") && x == "#define ABL_NO_WAVE_OPS 1\n"@ ==> has_line(
            abl_text(l),
            x,
        ),
{
    assert(is_line("#define ABL_SUNT 1\n"@) && unmarked("#define ABL_SUNT 1\n"@)) by {
        reveal(is_line);
        reveal(unmarked);
        reveal_strlit("#define ABL_SUNT 1\n");
    }
    assert(is_line("#define ABL_ROUGH 1\n"@) && unmarked("#define ABL_ROUGH 1\n"@)) by {
        reveal(is_line);
        reveal(unmarked);
        reveal_strlit("#define ABL_ROUGH 1\n");
    }
    assert(is_line("#define ABL_NOGBUF 1\n"@) && unmarked("#define ABL_NOGBUF 1\n"@)) by {
        reveal(is_line);
        reveal(unmarked);
        reveal_strlit("#define ABL_NOGBUF 1\n");
    }
    assert(is_line("#define ABL_NOPACK 1\n"@) && unmarked("#define ABL_NOPACK 1\n"@)) by {
        reveal(is_line);
        reveal(unmarked);
        reveal_strlit("#define ABL_NOPACK 1\n");
    }
    assert(is_line("#define ABL_NO_WAVE_OPS 1\n"@)) by {
        reveal(is_line);
        reveal(unmarked);
        reveal_strlit("#define ABL_NO_WAVE_OPS 1\n");
    }
    assert(is_line("#define ABL_NO_EL_CULL 1\n"@) && unmarked("#define ABL_NO_EL_CULL 1\n"@)) by {
        reveal(is_line);
        reveal(unmarked);
        reveal_strlit("#define ABL_NO_EL_CULL 1\n");
    }
    assert(is_line("#define ABL_NO_FF_CODE 1\n"@) && unmarked("#define ABL_NO_FF_CODE 1\n"@)) by {
        reveal(is_line);
        reveal(unmarked);
        reveal_strlit("#define ABL_NO_FF_CODE 1\n");
    }
    assert(is_line("#define ABL_NO_EL_CODE 1\n"@) && unmarked("#define ABL_NO_EL_CODE 1\n"@)) by {
        reveal(is_line);
        reveal(unmarked);
        reveal_strlit("#define ABL_NO_EL_CODE 1\n");
    }
    assert(is_line("#define ABL_TZERO 1\n"@) && unmarked("#define ABL_TZERO 1\n"@)) by {
        reveal(is_line);
        reveal(unmarked);
        reveal_strlit("#define ABL_TZERO 1\n");
    }
    assert(is_line("#define ABL_NOSHADOW 1\n"@) && unmarked("#define ABL_NOSHADOW 1\n"@)) by {
        reveal(is_line);
        reveal(unmarked);
        reveal_strlit("#define ABL_NOSHADOW 1\n");
    }
    assert(is_line("#define ABL_NOAO 1\n"@) && unmarked("#define ABL_NOAO 1\n"@)) by {
        reveal(is_line);
        reveal(unmarked);
        reveal_strlit("#define ABL_NOAO 1\n");
    }
    assert(is_line("#define ABL_NOREFL 1\n"@) && unmarked("#define ABL_NOREFL 1\n"@)) by {
        reveal(is_line);
        reveal(unmarked);
        reveal_strlit("#define ABL_NOREFL 1\n");
    }
    assert(is_line("#define ABL_NOGLASS 1\n"@) && unmarked("#define ABL_NOGLASS 1\n"@)) by {
        reveal(is_line);
        reveal(unmarked);
        reveal_strlit("#define ABL_NOGLASS 1\n");
    }
    assert(is_line("#define ABL_NOGI 1\n"@) && unmarked("#define ABL_NOGI 1\n"@)) by {
        reveal(is_line);
        reveal(unmarked);
        reveal_strlit("#define ABL_NOGI 1\n");
    }
    assert(is_line("#define ABL_NOSEC 1\n"@) && unmarked("#define ABL_NOSEC 1\n"@)) by {
        reveal(is_line);
        reveal(unmarked);
        reveal_strlit("#define ABL_NOSEC 1\n");
    }
    let t0 = Seq::<char>::empty();
    assert(whole_lines(t0) && !has_line(t0, x)) by {
        reveal(whole_lines);
        reveal(has_line);
        assert(lines_of(t0).len() == 0);
    }
    lemma_line_if(t0, has_tag(l, "sunt"), "#define ABL_SUNT 1\n", x);
    let t1 = t0 + line_if(has_tag(l, "sunt"), "#define ABL_SUNT 1\n");
    lemma_line_if(t1, has_tag(l, "rough"), "#define ABL_ROUGH 1\n", x);
    let t2 = t1 + line_if(has_tag(l, "rough"), "#define ABL_ROUGH 1\n");
    lemma_line_if(t2, has_tag(l, "nogbuf"), "#define ABL_NOGBUF 1\n", x);
    let t3 = t2 + line_if(has_tag(l, "nogbuf"), "#define ABL_NOGBUF 1\n");
    lemma_line_if(t3, has_tag(l, "nopack"), "#define ABL_NOPACK 1\n", x);
    let t4 = t3 + line_if(has_tag(l, "nopack"), "#define ABL_NOPACK 1\n");
    lemma_line_if(t4, has_tag(l, "nowave"), "#define ABL_NO_WAVE_OPS 1\n", x);
    let t5 = t4 + line_if(has_tag(l, "nowave"), "#define ABL_NO_WAVE_OPS 1\n");
    lemma_line_if(t5, has_tag(l, "noelcull"), "#define ABL_NO_EL_CULL 1\n", x);
    let t6 = t5 + line_if(has_tag(l, "noelcull"), "#define ABL_NO_EL_CULL 1\n");
    lemma_line_if(t6, has_tag(l, "noffcode"), "#define ABL_NO_FF_CODE 1\n", x);
    let t7 = t6 + line_if(has_tag(l, "noffcode"), "#define ABL_NO_FF_CODE 1\n");
    lemma_line_if(t7, has_tag(l, "noelcode"), "#define ABL_NO_EL_CODE 1\n", x);
    let t8 = t7 + line_if(has_tag(l, "noelcode"), "#define ABL_NO_EL_CODE 1\n");
    lemma_line_if(t8, has_tag(l, "noelcode"), "#define ABL_NO_EL_CULL 1\n", x);
    let t9 = t8 + line_if(has_tag(l, "noelcode"), "#define ABL_NO_EL_CULL 1\n");
    lemma_line_if(t9, has_tag(l, "tzero"), "#define ABL_TZERO 1\n", x);
    let t10 = t9 + line_if(has_tag(l, "tzero"), "#define ABL_TZERO 1\n");
    lemma_line_if(t10, has_tag(l, "noshadow"), "#define ABL_NOSHADOW 1\n", x);
    let t11 = t10 + line_if(has_tag(l, "noshadow"), "#define ABL_NOSHADOW 1\n");
    lemma_line_if(t11, has_tag(l, "noao"), "#define ABL_NOAO 1\n", x);
    let t12 = t11 + line_if(has_tag(l, "noao"), "#define ABL_NOAO 1\n");
    lemma_line_if(t12, has_tag(l, "norefl"), "#define ABL_NOREFL 1\n", x);
    let t13 = t12 + line_if(has_tag(l, "norefl"), "#define ABL_NOREFL 1\n");
    lemma_line_if(t13, has_tag(l, "noglass"), "#define ABL_NOGLASS 1\n", x);
    let t14 = t13 + line_if(has_tag(l, "noglass"), "#define ABL_NOGLASS 1\n");
    lemma_line_if(t14, has_tag(l, "nogi"), "#define ABL_NOGI 1\n", x);
    let t15 = t14 + line_if(has_tag(l, "nogi"), "#define ABL_NOGI 1\n");
    lemma_line_if(t15, has_tag(l, "nosec"), "#define ABL_NOSEC 1\n", x);
}

/// The lines of the second list, each with its mark.
proof fn lemma_wavefront_lines(l: &Levers, x: Seq<char>)
    ensures
        has_line(wavefront_abl_text(l), x) ==> !unmarked(x) && (x[15] == 'W' ==> x
            == "#define ABL_NO_WAVE_OPS 1\n"@ && has_tag(l, "nowave")),
        x == "#define ABL_NO_WAVE_OPS 1\n"@ ==> (has_line(wavefront_abl_text(l), x)
            <==> has_tag(l, "nowave")),
        wavefront_abl_text(l).len() == 0 <==> !has_tag(l, "oldcut") && !has_tag(l, "nobatch")
            && !has_tag(l, "nowave") && !has_tag(l, "wavegw"),
{
    reveal_strlit("");
    reveal_strlit("#define ABL_KEEP_TERMINAL_CUT 1\n");
    reveal_strlit("#define ABL_NO_QUEUE_BATCH 1\n");
    reveal_strlit("#define ABL_NO_WAVE_OPS 1\n");
    reveal_strlit("#define ABL_WAVE_GW 1\n");
    reveal(is_line);
    reveal(unmarked);
    let t0 = Seq::<char>::empty();
    assert(whole_lines(t0) && !has_line(t0, x)) by {
        reveal(whole_lines);
        reveal(has_line);
        assert(lines_of(t0).len() == 0);
    }
    lemma_line_if(t0, has_tag(l, "oldcut"), "#define ABL_KEEP_TERMINAL_CUT 1\n", x);
    let t1 = t0 + line_if(has_tag(l, "oldcut"), "#define ABL_KEEP_TERMINAL_CUT 1\n");
    lemma_line_if(t1, has_tag(l, "nobatch"), "#define ABL_NO_QUEUE_BATCH 1\n", x);
    let t2 = t1 + line_if(has_tag(l, "nobatch"), "#define ABL_NO_QUEUE_BATCH 1\n");
    lemma_line_if(t2, has_tag(l, "nowave"), "#define ABL_NO_WAVE_OPS 1\n", x);
    let t3 = t2 + line_if(has_tag(l, "nowave"), "#define ABL_NO_WAVE_OPS 1\n");
    lemma_line_if(t3, has_tag(l, "wavegw"), "#define ABL_WAVE_GW 1\n", x);
}

} // verus!
