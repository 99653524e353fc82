//! Which provider a session runs, from the versions that their display names
//! carry.
use vstd::prelude::*;
use crate::text;

verus! {

/// Which pipeline a session runs.
#[derive(Clone, Copy, PartialEq, Eq, Debug, Structural)]
pub enum Flavor {
    /// Denoise, composite, upscale.
    Fsr4Rr,
    /// Upscale only.
    Fsr3,
}

impl Flavor {
    /// Name in messages.
    pub fn label(self) -> (s: &'static str)
        ensures
            s@ == match self {
                Flavor::Fsr4Rr => "Ray Regeneration + FSR4"@,
                Flavor::Fsr3 => "FSR 3.1 upscale-only"@,
            },
    {
        match self {
            Flavor::Fsr4Rr => "Ray Regeneration + FSR4",
            Flavor::Fsr3 => "FSR 3.1 upscale-only",
        }
    }

    /// Short name in the title bar, and its denoiser suffix.
    pub fn hud(self) -> (r: (&'static str, &'static str))
        ensures
            (r.0@, r.1@) == match self {
                Flavor::Fsr4Rr => ("FSR4"@, " + RayRegen"@),
                Flavor::Fsr3 => ("FSR3"@, ""@),
            },
    {
        match self {
            Flavor::Fsr4Rr => ("FSR4", " + RayRegen"),
            Flavor::Fsr3 => ("FSR3", ""),
        }
    }
}

/// Leading digits.
pub open spec fn digits_len(s: Seq<char>) -> int
    decreases s.len(),
{
    if s.len() == 0 || !text::is_digit(s[0]) {
        0
    } else {
        1 + digits_len(s.skip(1))
    }
}

/// The number that a text starts with, where it has one that fits 32 bits.
pub open spec fn lead_number(s: Seq<char>) -> Option<u32> {
    let d = s.take(digits_len(s));
    if d.len() > 0 && text::value_of(d) <= u32::MAX {
        Some(text::value_of(d) as u32)
    } else {
        None
    }
}

/// A dot follows the leading digits.
pub open spec fn dot_follows(s: Seq<char>) -> bool {
    digits_len(s) < s.len() && s[digits_len(s)] == '.'
}

/// The text after the leading digits and the character that follows them.
pub open spec fn after_dot(s: Seq<char>) -> Seq<char> {
    s.skip(digits_len(s) + 1)
}

/// The version that a text starts with: three runs of digits, joined by single
/// dots, each of which fits 32 bits.
pub open spec fn lead_version(s: Seq<char>) -> Option<(u32, u32, u32)> {
    let b = after_dot(s);
    let c = after_dot(b);
    if dot_follows(s) && dot_follows(b) {
        match (lead_number(s), lead_number(b), lead_number(c)) {
            (Some(x), Some(y), Some(z)) => Some((x, y, z)),
            _ => None,
        }
    } else {
        None
    }
}

/// Characters of the version that a text starts with.
pub open spec fn version_len(s: Seq<char>) -> int {
    let b = after_dot(s);
    digits_len(s) + 1 + digits_len(b) + 1 + digits_len(after_dot(b))
}

/// Every version in a name, from left to right. A version starts where a run
/// of digits does, and the next one is looked for behind it.
pub open spec fn versions(s: Seq<char>) -> Seq<(u32, u32, u32)>
    decreases s.len(),
    via versions_decreases
{
    if s.len() == 0 {
        Seq::empty()
    } else if !text::is_digit(s[0]) {
        versions(s.skip(1))
    } else {
        match lead_version(s) {
            Some(v) => seq![v] + versions(s.skip(version_len(s))),
            None => versions(s.skip(digits_len(s))),
        }
    }
}

#[via_fn]
proof fn versions_decreases(s: Seq<char>) {
    lemma_digits_len(s);
    lemma_version_len(s);
}

proof fn lemma_digits_len(s: Seq<char>)
    ensures
        0 <= digits_len(s) <= s.len(),
        forall|i: int| 0 <= i < digits_len(s) ==> text::is_digit(#[trigger] s[i]),
        s.len() > 0 && text::is_digit(s[0]) ==> digits_len(s) > 0,
    decreases s.len(),
{
    if s.len() > 0 && text::is_digit(s[0]) {
        let t = s.skip(1);
        lemma_digits_len(t);
        assert forall|i: int| 0 <= i < digits_len(s) implies text::is_digit(#[trigger] s[i]) by {
            if i > 0 {
                assert(t[i - 1] == s[i]);
            }
        }
    }
}

proof fn lemma_version_len(s: Seq<char>)
    ensures
        lead_version(s) is Some ==> 0 < version_len(s) <= s.len(),
{
    lemma_digits_len(s);
    lemma_digits_len(after_dot(s));
    lemma_digits_len(after_dot(after_dot(s)));
}

fn is_digit_char(c: char) -> (r: bool)
    ensures
        r == text::is_digit(c),
{
    '0' <= c && c <= '9'
}

/// Where the run of digits that starts at `from` ends.
fn find_end(s: &[char], from: usize) -> (to: usize)
    requires
        from <= s.len(),
    ensures
        from <= to <= s.len(),
        to - from == digits_len(s@.skip(from as int)),
{
    let mut i: usize = from;
    while i < s.len() && is_digit_char(s[i])
        invariant
            from <= i <= s.len(),
            digits_len(s@.skip(from as int)) == (i - from) + digits_len(s@.skip(i as int)),
        decreases s.len() - i,
    {
        assert(s@.skip(i as int).skip(1) =~= s@.skip(i as int + 1));
        i = i + 1;
    }
    i
}

/// The number of the run of digits `from..to`.
fn number_at(s: &[char], from: usize, to: usize) -> (r: Option<u32>)
    requires
        from <= to <= s.len(),
        to - from == digits_len(s@.skip(from as int)),
    ensures
        r == lead_number(s@.skip(from as int)),
{
    proof {
        let t = s@.skip(from as int);
        lemma_digits_len(t);
        assert(t.take(to - from) =~= s@.subrange(from as int, to as int));
    }
    text::read_digits(vstd::slice::slice_subrange(s, from, to))
}

/// The version at `a`, and where it ends.
fn version_at(s: &[char], a: usize) -> (r: Option<((u32, u32, u32), usize)>)
    requires
        a <= s.len(),
    ensures
        match r {
            Some(f) => lead_version(s@.skip(a as int)) == Some(f.0) && f.1 - a == version_len(
                s@.skip(a as int),
            ),
            None => lead_version(s@.skip(a as int)) is None,
        },
{
    let n: usize = s.len();
    let ghost sa = s@.skip(a as int);
    let ea: usize = find_end(s, a);
    if ea == n || s[ea] != '.' {
        return None;
    }
    let b: usize = ea + 1;
    let ghost sb = after_dot(sa);
    assert(sb =~= s@.skip(b as int));
    let eb: usize = find_end(s, b);
    if eb == n || s[eb] != '.' {
        return None;
    }
    let c: usize = eb + 1;
    let ghost sc = after_dot(sb);
    assert(sc =~= s@.skip(c as int));
    let ec: usize = find_end(s, c);
    match (number_at(s, a, ea), number_at(s, b, eb), number_at(s, c, ec)) {
        (Some(x), Some(y), Some(z)) => Some(((x, y, z), ec)),
        _ => None,
    }
}

/// Every three-part version in a display name, in order.
pub fn parse_provider_versions(name: &str) -> (r: Vec<(u32, u32, u32)>)
    ensures
        r@ == versions(name@),
{
    let s = text::chars_of(name);
    let n: usize = s.len();
    let mut out: Vec<(u32, u32, u32)> = Vec::new();
    let mut i: usize = 0;
    assert(s@.skip(0) =~= s@);
    assert(out@ + versions(s@.skip(0)) =~= versions(s@));
    while i < n
        invariant
            i <= n,
            n == s@.len(),
            out@ + versions(s@.skip(i as int)) == versions(s@),
        decreases n - i,
    {
        let ghost rest = s@.skip(i as int);
        if !is_digit_char(s[i]) {
            assert(rest.skip(1) =~= s@.skip(i as int + 1));
            i = i + 1;
        } else {
            proof {
                lemma_digits_len(rest);
                lemma_version_len(rest);
            }
            let ghost before = out@;
            match version_at(s.as_slice(), i) {
                Some((v, end)) => {
                    out.push(v);
                    proof {
                        let t = s@.skip(end as int);
                        assert(rest.skip(end - i) =~= t);
                        assert(out@ + versions(t) =~= before + (seq![v] + versions(t)));
                    }
                    i = end;
                },
                None => {
                    let end: usize = find_end(s.as_slice(), i);
                    assert(rest.skip(end - i) =~= s@.skip(end as int));
                    i = end;
                },
            }
        }
    }
    assert(s@.skip(n as int) =~= Seq::<char>::empty());
    assert(out@ =~= versions(s@));
    out
}

/// Digits in front of a character that is none are those of the first text
/// alone.
proof fn lemma_digits_before(a: Seq<char>, c: char, b: Seq<char>)
    requires
        !text::is_digit(c),
    ensures
        digits_len(a + seq![c] + b) == digits_len(a),
    decreases a.len(),
{
    let s = a + seq![c] + b;
    if a.len() > 0 {
        lemma_digits_before(a.skip(1), c, b);
        assert(s.skip(1) =~= a.skip(1) + seq![c] + b);
        assert(s[0] == a[0]);
    } else {
        assert(s[0] == c);
    }
}

/// What a text starts with does not reach over a character that is neither a
/// digit nor a dot.
proof fn lemma_lead_before(a: Seq<char>, c: char, b: Seq<char>)
    requires
        !text::is_digit(c),
        c != '.',
    ensures
        digits_len(a + seq![c] + b) == digits_len(a),
        lead_number(a + seq![c] + b) == lead_number(a),
        dot_follows(a + seq![c] + b) <==> dot_follows(a),
        dot_follows(a) ==> after_dot(a + seq![c] + b) == after_dot(a) + seq![c] + b,
{
    let s = a + seq![c] + b;
    lemma_digits_before(a, c, b);
    lemma_digits_len(a);
    let n = digits_len(a);
    assert(s.take(n) =~= a.take(n));
    if n < a.len() {
        assert(s[n] == a[n]);
        assert(s.skip(n + 1) =~= a.skip(n + 1) + seq![c] + b);
    } else {
        assert(s[n] == c);
    }
}

/// A name that embeds two names lists the versions of both, in order, where
/// what stands between them is neither a digit nor a dot.
pub proof fn embedded_names_keep_their_versions(a: Seq<char>, c: char, b: Seq<char>)
    requires
        !text::is_digit(c),
        c != '.',
    ensures
        versions(a + seq![c] + b) == versions(a) + versions(b),
    decreases a.len(),
{
    let s = a + seq![c] + b;
    if a.len() == 0 {
        assert(s[0] == c);
        assert(s.skip(1) =~= b);
        assert(versions(a) + versions(b) =~= versions(b));
    } else {
        assert(s[0] == a[0]);
        if !text::is_digit(a[0]) {
            assert(s.skip(1) =~= a.skip(1) + seq![c] + b);
            embedded_names_keep_their_versions(a.skip(1), c, b);
        } else {
            let (a2, a3) = (after_dot(a), after_dot(after_dot(a)));
            lemma_digits_len(a);
            lemma_version_len(a);
            lemma_lead_before(a, c, b);
            lemma_lead_before(a2, c, b);
            lemma_lead_before(a3, c, b);
            assert(lead_version(s) == lead_version(a));
            let n = if lead_version(a) is Some {
                assert(version_len(s) == version_len(a));
                version_len(a)
            } else {
                digits_len(a)
            };
            assert(s.skip(n) =~= a.skip(n) + seq![c] + b);
            embedded_names_keep_their_versions(a.skip(n), c, b);
            assert(versions(s) =~= versions(a) + versions(b));
        }
    }
}

/// What is written of a version reads back as it: any text that starts with
/// three runs of digits that fit, joined by single dots, lists it first.
pub proof fn a_version_is_found(x: Seq<char>, y: Seq<char>, z: Seq<char>, rest: Seq<char>)
    requires
        text::is_number(x) && text::value_of(x) <= u32::MAX,
        text::is_number(y) && text::value_of(y) <= u32::MAX,
        text::is_number(z) && text::value_of(z) <= u32::MAX,
        rest.len() > 0 ==> !text::is_digit(rest[0]),
    ensures
        versions(x + seq!['.'] + (y + seq!['.'] + (z + rest))) == seq![
            (text::value_of(x) as u32, text::value_of(y) as u32, text::value_of(z) as u32),
        ] + versions(rest),
{
    let c = z + rest;
    let b = y + seq!['.'] + c;
    let a = x + seq!['.'] + b;
    lemma_run(x, seq!['.'] + b);
    lemma_run(y, seq!['.'] + c);
    lemma_run(z, rest);
    assert(a =~= x + (seq!['.'] + b));
    assert(b =~= y + (seq!['.'] + c));
    assert(a.skip(x.len() as int + 1) =~= b);
    assert(b.skip(y.len() as int + 1) =~= c);
    assert(a.skip(version_len(a)) =~= rest);
    assert(text::is_digit(a[0])) by {
        assert(a[0] == x[0]);
    }
}

/// A number in front of a text that starts with no digit is what they start
/// with.
proof fn lemma_run(x: Seq<char>, rest: Seq<char>)
    requires
        text::is_number(x),
        rest.len() > 0 ==> !text::is_digit(rest[0]),
    ensures
        digits_len(x + rest) == x.len(),
        text::value_of(x) <= u32::MAX ==> lead_number(x + rest) == Some(text::value_of(x) as u32),
{
    lemma_run_len(x, rest);
    assert((x + rest).take(x.len() as int) =~= x);
}

proof fn lemma_run_len(x: Seq<char>, rest: Seq<char>)
    requires
        forall|i: int| 0 <= i < x.len() ==> text::is_digit(#[trigger] x[i]),
        rest.len() > 0 ==> !text::is_digit(rest[0]),
    ensures
        digits_len(x + rest) == x.len(),
    decreases x.len(),
{
    let s = x + rest;
    if x.len() > 0 {
        assert(s[0] == x[0]);
        let t = x.skip(1);
        assert forall|i: int| 0 <= i < t.len() implies text::is_digit(#[trigger] t[i]) by {
            assert(t[i] == x[i + 1]);
        }
        lemma_run_len(t, rest);
        assert(s.skip(1) =~= t + rest);
    } else {
        assert(s =~= rest);
    }
}

/// No newer than.
pub open spec fn le3(a: (u32, u32, u32), b: (u32, u32, u32)) -> bool {
    a.0 < b.0 || (a.0 == b.0 && (a.1 < b.1 || (a.1 == b.1 && a.2 <= b.2)))
}

fn not_newer(a: (u32, u32, u32), b: (u32, u32, u32)) -> (r: bool)
    ensures
        r == le3(a, b),
{
    a.0 < b.0 || (a.0 == b.0 && (a.1 < b.1 || (a.1 == b.1 && a.2 <= b.2)))
}

/// The newest of the versions with this major number.
pub open spec fn newest(vs: Seq<(u32, u32, u32)>, major: u32) -> Option<(u32, u32, u32)>
    decreases vs.len(),
{
    if vs.len() == 0 {
        None
    } else {
        let rest = newest(vs.drop_last(), major);
        let v = vs.last();
        if v.0 != major {
            rest
        } else {
            match rest {
                Some(r) => if le3(r, v) {
                    Some(v)
                } else {
                    rest
                },
                None => Some(v),
            }
        }
    }
}

/// The newest version with this major number is one of them and no older than
/// any other.
pub proof fn newest_is_the_newest(vs: Seq<(u32, u32, u32)>, major: u32)
    ensures
        newest(vs, major) is None <==> forall|i: int| 0 <= i < vs.len() ==> (#[trigger] vs[i]).0 != major,
        newest(vs, major) matches Some(v) ==> v.0 == major && vs.contains(v) && forall|i: int|
            0 <= i < vs.len() && vs[i].0 == major ==> le3(#[trigger] vs[i], v),
    decreases vs.len(),
{
    if vs.len() > 0 {
        let part = vs.drop_last();
        newest_is_the_newest(part, major);
        let n = vs.len() - 1;
        assert(vs[n] == vs.last());
        match newest(vs, major) {
            Some(v) => {
                assert(vs.contains(v)) by {
                    if v != vs.last() {
                        assert(part.contains(v));
                        let k = choose|k: int| 0 <= k < part.len() && part[k] == v;
                        assert(vs[k] == v);
                    }
                }
                assert forall|i: int| 0 <= i < vs.len() && vs[i].0 == major implies le3(
                    #[trigger] vs[i],
                    v,
                ) by {
                    if i < n {
                        assert(part[i] == vs[i]);
                    }
                }
            },
            None => {
                assert forall|i: int| 0 <= i < vs.len() implies (#[trigger] vs[i]).0 != major by {
                    if i < n {
                        assert(part[i] == vs[i]);
                    }
                }
            },
        }
        if forall|i: int| 0 <= i < vs.len() ==> (#[trigger] vs[i]).0 != major {
            assert forall|i: int| 0 <= i < part.len() implies (#[trigger] part[i]).0 != major by {
                assert(part[i] == vs[i]);
            }
        }
    }
}

fn newest_of(vs: &Vec<(u32, u32, u32)>, major: u32) -> (r: Option<(u32, u32, u32)>)
    ensures
        r == newest(vs@, major),
{
    let n: usize = vs.len();
    let mut best: Option<(u32, u32, u32)> = None;
    let mut i: usize = 0;
    assert(vs@.take(0) =~= Seq::empty());
    while i < n
        invariant
            i <= n,
            n == vs@.len(),
            best == newest(vs@.take(i as int), major),
        decreases n - i,
    {
        let v = vs[i];
        proof {
            assert(vs@.take(i as int + 1).drop_last() =~= vs@.take(i as int));
            assert(vs@.take(i as int + 1).last() == v);
        }
        if v.0 == major {
            let newer: bool = match best {
                Some(r) => not_newer(r, v),
                None => true,
            };
            if newer {
                best = Some(v);
            }
        }
        i = i + 1;
    }
    assert(vs@.take(n as int) =~= vs@);
    best
}

/// The newest version of a major number that provider `i` names.
pub open spec fn offer(
    providers: Seq<(u64, String)>,
    major: u32,
    i: int,
) -> Option<(u32, u32, u32)> {
    newest(versions(providers[i].1@), major)
}

/// Provider `i` offers the newest version of a major number; among equals it
/// is the last.
pub open spec fn is_pick(providers: Seq<(u64, String)>, major: u32, i: int) -> bool {
    &&& 0 <= i < providers.len()
    &&& offer(providers, major, i) is Some
    &&& forall|j: int|
        0 <= j < providers.len() ==> (#[trigger] offer(providers, major, j) matches Some(v) ==> {
            &&& le3(v, offer(providers, major, i)->0)
            &&& i < j ==> v != offer(providers, major, i)->0
        })
}

/// No provider offers a version of this major number.
pub open spec fn none_offers(providers: Seq<(u64, String)>, major: u32) -> bool {
    forall|j: int| 0 <= j < providers.len() ==> #[trigger] offer(providers, major, j) is None
}

/// The provider to run a major number on.
fn best_of(providers: &Vec<(u64, String)>, major: u32) -> (r: Option<usize>)
    ensures
        r is None <==> none_offers(providers@, major),
        r matches Some(i) ==> is_pick(providers@, major, i as int),
{
    let n: usize = providers.len();
    let mut best: Option<usize> = None;
    let mut best_v: (u32, u32, u32) = (0, 0, 0);
    let mut i: usize = 0;
    while i < n
        invariant
            i <= n,
            n == providers@.len(),
            best is None <==> forall|j: int|
                0 <= j < i ==> #[trigger] offer(providers@, major, j) is None,
            best matches Some(b) ==> b < i && offer(providers@, major, b as int) == Some(best_v)
                && forall|j: int|
                0 <= j < i ==> (#[trigger] offer(providers@, major, j) matches Some(v) ==> {
                    &&& le3(v, best_v)
                    &&& b < j ==> v != best_v
                }),
        decreases n - i,
    {
        let vs = parse_provider_versions(providers[i].1.as_str());
        match newest_of(&vs, major) {
            Some(v) => {
                assert(offer(providers@, major, i as int) == Some(v));
                let newer: bool = match best {
                    Some(_) => not_newer(best_v, v),
                    None => true,
                };
                if newer {
                    best = Some(i);
                    best_v = v;
                }
            },
            None => {
                assert(offer(providers@, major, i as int) is None);
            },
        }
        i = i + 1;
    }
    best
}

/// The upscaler to run and its pipeline. Where ray regeneration is available
/// and the older pipeline is not forced, the default provider, whose id is 0;
/// else the newest 3.x provider, if there is one.
pub fn pick_version(
    upscalers: &Vec<(u64, String)>,
    rr_available: bool,
    force_fsr3: bool,
) -> (r: Option<(u64, Flavor)>)
    ensures
        !force_fsr3 && rr_available ==> r == Some((0u64, Flavor::Fsr4Rr)),
        force_fsr3 || !rr_available ==> (r is None <==> none_offers(upscalers@, 3)),
        force_fsr3 || !rr_available ==> (r matches Some(p) ==> p.1 == Flavor::Fsr3 && exists|i: int|
            #[trigger] is_pick(upscalers@, 3, i) && upscalers@[i].0 == p.0),
{
    if !force_fsr3 && rr_available {
        return Some((0, Flavor::Fsr4Rr));
    }
    match best_of(upscalers, 3) {
        Some(i) => Some((upscalers[i].0, Flavor::Fsr3)),
        None => None,
    }
}

/// The major number that a frame generation pick is made from: the session's
/// own where it is offered, else the other.
pub open spec fn fg_major(providers: Seq<(u64, String)>, fsr4_session: bool) -> u32 {
    let (preferred, fallback) = if fsr4_session {
        (4u32, 3u32)
    } else {
        (3u32, 4u32)
    };
    if none_offers(providers, preferred) {
        fallback
    } else {
        preferred
    }
}

/// The frame generation provider to run, and its name.
pub fn pick_fg_version(fg_versions: &Vec<(u64, String)>, fsr4_session: bool) -> (r: Option<
    (u64, String),
>)
    ensures
        r is None <==> none_offers(fg_versions@, fg_major(fg_versions@, fsr4_session)),
        r matches Some(p) ==> exists|i: int|
            #[trigger] is_pick(fg_versions@, fg_major(fg_versions@, fsr4_session), i)
                && fg_versions@[i].0 == p.0 && fg_versions@[i].1@ == p.1@,
{
    let (preferred, fallback): (u32, u32) = if fsr4_session {
        (4, 3)
    } else {
        (3, 4)
    };
    let pick: Option<usize> = match best_of(fg_versions, preferred) {
        Some(i) => Some(i),
        None => best_of(fg_versions, fallback),
    };
    match pick {
        Some(i) => {
            assert(is_pick(fg_versions@, fg_major(fg_versions@, fsr4_session), i as int));
            let name: String = fg_versions[i].1.as_str().to_owned();
            Some((fg_versions[i].0, name))
        },
        None => None,
    }
}

/// At most one provider is the pick.
pub proof fn picks_are_unique(providers: Seq<(u64, String)>, major: u32, i: int, j: int)
    requires
        is_pick(providers, major, i),
        is_pick(providers, major, j),
    ensures
        i == j,
{
    assert(offer(providers, major, i) is Some);
    assert(offer(providers, major, j) is Some);
}

/// Versions order by their first number, among equal ones by the second, then by
/// the third.
pub proof fn versions_order_number_by_number(a: (u32, u32, u32), b: (u32, u32, u32))
    ensures
        a.0 < b.0 ==> le3(a, b) && !le3(b, a),
        a.0 == b.0 && a.1 < b.1 ==> le3(a, b) && !le3(b, a),
        a.0 == b.0 && a.1 == b.1 ==> (le3(a, b) <==> a.2 <= b.2),
{
}

/// The pick names no older version of its major number than any other provider,
/// and none behind it names one as new. A frame generation pick is made from the
/// session's own major number, four or three, wherever some provider names it,
/// else from the other.
pub proof fn picks_name_the_newest_version(
    providers: Seq<(u64, String)>,
    major: u32,
    i: int,
    j: int,
    v: (u32, u32, u32),
)
    requires
        is_pick(providers, major, i),
        0 <= j < providers.len(),
        versions(providers[j].1@).contains(v),
        v.0 == major,
    ensures
        exists|w: (u32, u32, u32)| #[trigger]
            versions(providers[i].1@).contains(w) && w.0 == major && (v.1 < w.1 || (v.1 == w.1
                && v.2 <= w.2)) && (i < j ==> v != w),
        fg_major(providers, major == 4) == major || (major != 3 && major != 4),
{
    let (a, b) = (versions(providers[i].1@), versions(providers[j].1@));
    newest_is_the_newest(a, major);
    newest_is_the_newest(b, major);
    let k = choose|k: int| 0 <= k < b.len() && b[k] == v;
    assert(b[k].0 == major);
    assert(offer(providers, major, j) is Some);
    let (w, u) = (offer(providers, major, i)->0, offer(providers, major, j)->0);
    assert(offer(providers, major, i) is Some);
    assert(a.contains(w));
    assert(le3(b[k], u) && le3(u, w));
}

} // verus!
