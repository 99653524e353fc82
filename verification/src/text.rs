//! Text helpers: searching, reading and printing decimals, joining lines.
use vstd::prelude::*;
use vstd::string::*;

verus! {

/// `needle` occurs in `hay` at character `i`.
pub open spec fn occurs_at(hay: Seq<char>, needle: Seq<char>, i: int) -> bool {
    0 <= i && i + needle.len() <= hay.len() && hay.subrange(i, i + needle.len()) == needle
}

/// `needle` occurs somewhere in `hay`.
pub open spec fn has(hay: Seq<char>, needle: Seq<char>) -> bool {
    exists|i: int| occurs_at(hay, needle, i)
}

/// The characters of a string.
pub fn chars_of(s: &str) -> (r: Vec<char>)
    ensures
        r@ == s@,
{
    let n: usize = s.unicode_len();
    let mut r: Vec<char> = Vec::with_capacity(n);
    for c in it: s.chars()
        invariant
            r@ == it.seq().take(it.index() as int),
            it.seq() == s@,
    {
        r.push(c);
    }
    assert(s@.take(s@.len() as int) == s@);
    r
}

/// Whether `needle` occurs in `hay`.
pub fn contains(hay: &str, needle: &str) -> (r: bool)
    ensures
        r == has(hay@, needle@),
{
    let h: Vec<char> = chars_of(hay);
    let n: Vec<char> = chars_of(needle);
    if n.len() > h.len() {
        return false;
    }
    let total: usize = h.len();
    let starts: usize = total - n.len();
    let mut i: usize = 0;
    while i <= starts
        invariant
            h@ == hay@,
            n@ == needle@,
            total == h@.len(),
            starts + n@.len() == total,
            i <= starts,
            forall|k: int| 0 <= k < i ==> !occurs_at(h@, n@, k),
        decreases starts + 1 - i,
    {
        let mut j: usize = 0;
        while j < n.len() && h[i + j] == n[j]
            invariant
                i <= starts,
                total == h@.len(),
                starts + n@.len() == total,
                j <= n@.len(),
                forall|k: int| 0 <= k < j ==> h@[i + k] == n@[k],
            decreases n@.len() - j,
        {
            j = j + 1;
        }
        if j == n.len() {
            assert(h@.subrange(i as int, i + n@.len()) == n@);
            assert(occurs_at(h@, n@, i as int));
            return true;
        }
        assert(!occurs_at(h@, n@, i as int)) by {
            if occurs_at(h@, n@, i as int) {
                assert(h@.subrange(i as int, i + n@.len())[j as int] == n@[j as int]);
            }
        }
        if i == starts {
            return false;
        }
        i = i + 1;
    }
    false
}

/// Whether two strings hold the same characters.
pub fn same(a: &str, b: &str) -> (r: bool)
    ensures
        r == (a@ == b@),
{
    let x: Vec<char> = chars_of(a);
    let y: Vec<char> = chars_of(b);
    if x.len() != y.len() {
        return false;
    }
    let mut i: usize = 0;
    while i < x.len()
        invariant
            x@ == a@,
            y@ == b@,
            x@.len() == y@.len(),
            i <= x@.len(),
            forall|k: int| 0 <= k < i ==> x@[k] == y@[k],
        decreases x@.len() - i,
    {
        if x[i] != y[i] {
            return false;
        }
        i = i + 1;
    }
    assert(x@ == y@);
    true
}

/// The lower-case letter of an ASCII capital; other characters as they are.
pub open spec fn lower(c: char) -> char {
    if 'A' <= c && c <= 'Z' {
        (c as u32 + 32) as char
    } else {
        c
    }
}

fn to_lower(c: char) -> (r: char)
    ensures
        r == lower(c),
{
    if 'A' <= c && c <= 'Z' {
        let b: u8 = c as u8;
        (b + 32) as char
    } else {
        c
    }
}

/// The two texts differ at most in the case of ASCII letters.
pub open spec fn same_letters(a: Seq<char>, b: Seq<char>) -> bool {
    a.len() == b.len() && forall|i: int| 0 <= i < a.len() ==> lower(#[trigger] a[i]) == lower(b[i])
}

/// Comparison that ignores the case of ASCII letters.
pub fn eq_ignore_case(a: &str, b: &str) -> (r: bool)
    ensures
        r == same_letters(a@, b@),
{
    let x: Vec<char> = chars_of(a);
    let y: Vec<char> = chars_of(b);
    if x.len() != y.len() {
        return false;
    }
    let mut i: usize = 0;
    while i < x.len()
        invariant
            x@ == a@,
            y@ == b@,
            x@.len() == y@.len(),
            i <= x@.len(),
            forall|k: int| 0 <= k < i ==> lower(#[trigger] x@[k]) == lower(y@[k]),
        decreases x@.len() - i,
    {
        if to_lower(x[i]) != to_lower(y[i]) {
            assert(lower(a@[i as int]) != lower(b@[i as int]));
            return false;
        }
        i = i + 1;
    }
    true
}

/// The character of a decimal digit.
pub open spec fn digit_char(d: int) -> char {
    if d == 0 {
        '0'
    } else if d == 1 {
        '1'
    } else if d == 2 {
        '2'
    } else if d == 3 {
        '3'
    } else if d == 4 {
        '4'
    } else if d == 5 {
        '5'
    } else if d == 6 {
        '6'
    } else if d == 7 {
        '7'
    } else if d == 8 {
        '8'
    } else {
        '9'
    }
}

/// Decimal notation of a number.
pub open spec fn dec(n: nat) -> Seq<char>
    decreases n,
{
    if n < 10 {
        seq![digit_char(n as int)]
    } else {
        dec(n / 10).push(digit_char((n % 10) as int))
    }
}

fn digit_str(d: u64) -> (r: &'static str)
    requires
        d < 10,
    ensures
        r@ == seq![digit_char(d as int)],
{
    proof {
        reveal_strlit("0");
        reveal_strlit("1");
        reveal_strlit("2");
        reveal_strlit("3");
        reveal_strlit("4");
        reveal_strlit("5");
        reveal_strlit("6");
        reveal_strlit("7");
        reveal_strlit("8");
        reveal_strlit("9");
    }
    if d == 0 {
        "0"
    } else if d == 1 {
        "1"
    } else if d == 2 {
        "2"
    } else if d == 3 {
        "3"
    } else if d == 4 {
        "4"
    } else if d == 5 {
        "5"
    } else if d == 6 {
        "6"
    } else if d == 7 {
        "7"
    } else if d == 8 {
        "8"
    } else {
        "9"
    }
}

/// Append a number in decimal.
pub fn push_dec(s: &mut String, n: u64)
    ensures
        final(s)@ == old(s)@ + dec(n as nat),
    decreases n,
{
    if n >= 10 {
        push_dec(s, n / 10);
        s.append(digit_str(n % 10));
        assert(s@ == old(s)@ + dec(n as nat));
    } else {
        s.append(digit_str(n));
    }
}

/// Text, then a number, then text.
pub fn with_number(before: &str, n: u64, after: &str) -> (r: String)
    ensures
        r@ == before@ + dec(n as nat) + after@,
{
    let mut r: String = before.to_owned();
    push_dec(&mut r, n);
    r.append(after);
    r
}

/// The texts a list of string slices holds.
pub open spec fn texts(parts: Seq<&str>) -> Seq<Seq<char>> {
    Seq::new(parts.len(), |i: int| parts[i]@)
}

/// The parts with `sep` between each two neighbours.
pub open spec fn joined(parts: Seq<Seq<char>>, sep: Seq<char>) -> Seq<char>
    decreases parts.len(),
{
    if parts.len() == 0 {
        Seq::empty()
    } else if parts.len() == 1 {
        parts[0]
    } else {
        joined(parts.drop_last(), sep) + sep + parts.last()
    }
}

/// Join the parts with a separator.
pub fn join(parts: &[&str], sep: &str) -> (r: String)
    ensures
        r@ == joined(texts(parts@), sep@),
{
    let mut r: String = String::new();
    let mut i: usize = 0;
    while i < parts.len()
        invariant
            i <= parts@.len(),
            r@ == joined(texts(parts@).take(i as int), sep@),
        decreases parts@.len() - i,
    {
        if i > 0 {
            r.append(sep);
        }
        r.append(parts[i]);
        proof {
            let a = texts(parts@).take(i as int);
            let b = texts(parts@).take(i + 1);
            assert(b.drop_last() == a);
            assert(b.last() == parts@[i as int]@);
        }
        i = i + 1;
    }
    assert(texts(parts@).take(i as int) == texts(parts@));
    r
}

/// The value of a run of digits, read from the left.
pub open spec fn value_of(s: Seq<char>) -> nat
    decreases s.len(),
{
    if s.len() == 0 {
        0
    } else {
        value_of(s.drop_last()) * 10 + digit_of(s.last()) as nat
    }
}

/// The value of a digit character.
pub open spec fn digit_of(c: char) -> int {
    c as int - '0' as int
}

/// The character is a decimal digit.
pub open spec fn is_digit(c: char) -> bool {
    '0' <= c && c <= '9'
}

/// Only digits, at least one.
pub open spec fn is_number(s: Seq<char>) -> bool {
    s.len() > 0 && forall|i: int| 0 <= i < s.len() ==> is_digit(#[trigger] s[i])
}

/// What a text reads as: an optional plus sign and digits whose value fits 32
/// bits.
pub open spec fn reads_as(s: Seq<char>) -> Option<u32> {
    let body = if s.len() > 0 && s[0] == '+' {
        s.drop_first()
    } else {
        s
    };
    if is_number(body) && value_of(body) <= u32::MAX {
        Some(value_of(body) as u32)
    } else {
        None
    }
}

proof fn lemma_value_grows(s: Seq<char>, k: int)
    requires
        0 <= k <= s.len(),
        forall|i: int| 0 <= i < s.len() ==> is_digit(#[trigger] s[i]),
    ensures
        value_of(s.take(k)) <= value_of(s),
    decreases s.len(),
{
    if k < s.len() {
        assert(s.drop_last().take(k) == s.take(k));
        lemma_value_grows(s.drop_last(), k);
        assert(is_digit(s[s.len() - 1]));
    } else {
        assert(s.take(k) == s);
    }
}

/// Read digits; `None` where there is none, something else stands among them,
/// or the value does not fit.
pub fn read_digits(s: &[char]) -> (r: Option<u32>)
    ensures
        r == if is_number(s@) && value_of(s@) <= u32::MAX {
            Some(value_of(s@) as u32)
        } else {
            None
        },
{
    if s.len() == 0 {
        return None;
    }
    let mut v: u64 = 0;
    let mut i: usize = 0;
    while i < s.len()
        invariant
            i <= s@.len(),
            v <= u32::MAX,
            v == value_of(s@.take(i as int)),
            forall|k: int| 0 <= k < i ==> is_digit(#[trigger] s@[k]),
        decreases s@.len() - i,
    {
        let c: char = s[i];
        if !('0' <= c && c <= '9') {
            assert(!is_digit(s@[i as int]));
            return None;
        }
        let ghost a = s@.take(i as int);
        let ghost b = s@.take(i + 1);
        proof {
            assert(b.drop_last() == a);
            assert(b.last() == c);
        }
        v = v * 10 + (c as u64 - '0' as u64);
        if v > 0xffff_ffff {
            proof {
                if is_number(s@) {
                    lemma_value_grows(s@, i + 1);
                }
            }
            return None;
        }
        i = i + 1;
    }
    assert(s@.take(i as int) == s@);
    Some(v as u32)
}

/// Read an unsigned 32-bit number.
pub fn parse_u32(s: &str) -> (r: Option<u32>)
    ensures
        r == reads_as(s@),
{
    let c: Vec<char> = chars_of(s);
    if c.len() > 0 && c[0] == '+' {
        let mut body: Vec<char> = Vec::with_capacity(c.len());
        let mut i: usize = 1;
        while i < c.len()
            invariant
                1 <= i <= c@.len(),
                body@ == c@.subrange(1, i as int),
            decreases c@.len() - i,
        {
            body.push(c[i]);
            i = i + 1;
        }
        assert(body@ == c@.drop_first());
        read_digits(body.as_slice())
    } else {
        read_digits(c.as_slice())
    }
}

/// Reading back what was printed gives the number again.
pub proof fn printed_numbers_read_back(n: u32)
    ensures
        reads_as(dec(n as nat)) == Some(n),
{
    lemma_dec(n as nat);
    let s = dec(n as nat);
    assert(is_digit(s[0]));
    assert(s[0] != '+');
}

proof fn lemma_dec(n: nat)
    ensures
        is_number(dec(n)),
        value_of(dec(n)) == n,
    decreases n,
{
    if n < 10 {
        let s = dec(n);
        assert(s.drop_last() == Seq::<char>::empty());
        assert(value_of(s.drop_last()) == 0);
    } else {
        lemma_dec(n / 10);
        let s = dec(n);
        assert(s.drop_last() == dec(n / 10));
        assert forall|i: int| 0 <= i < s.len() implies is_digit(#[trigger] s[i]) by {
            if i < s.len() - 1 {
                assert(s[i] == dec(n / 10)[i]);
            }
        }
    }
}

/// A needle is found wherever it stands, and what is found stands there.
pub proof fn what_stands_in_a_text_is_found(hay: Seq<char>, needle: Seq<char>)
    ensures
        has(hay, needle) <==> exists|a: Seq<char>, b: Seq<char>| hay == #[trigger] (a + needle + b),
{
    if has(hay, needle) {
        let i = choose|i: int| occurs_at(hay, needle, i);
        let a = hay.take(i);
        let b = hay.skip(i + needle.len());
        let mid = hay.subrange(i, i + needle.len());
        assert(hay =~= a + mid + b);
        assert(hay == a + needle + b);
    }
    if exists|a: Seq<char>, b: Seq<char>| hay == #[trigger] (a + needle + b) {
        let (a, b) = choose|a: Seq<char>, b: Seq<char>| hay == #[trigger] (a + needle + b);
        let i = a.len() as int;
        assert(hay.subrange(i, i + needle.len()) =~= needle);
        assert(occurs_at(hay, needle, i));
    }
}

/// Case is all that the loose comparison forgives: character by character the
/// texts agree, or hold a letter and its capital.
pub proof fn only_case_is_forgiven(a: Seq<char>, b: Seq<char>)
    ensures
        same_letters(a, b) <==> a.len() == b.len() && forall|i: int|
            0 <= i < a.len() ==> {
                ||| #[trigger] a[i] == b[i]
                ||| 65 <= a[i] as int <= 90 && b[i] as int == a[i] as int + 32
                ||| 65 <= b[i] as int <= 90 && a[i] as int == b[i] as int + 32
            },
{
    assert forall|i: int| 0 <= i < a.len() && a.len() == b.len() implies (lower(#[trigger] a[i]) == lower(b[i])
        <==> {
        ||| a[i] == b[i]
        ||| 65 <= a[i] as int <= 90 && b[i] as int == a[i] as int + 32
        ||| 65 <= b[i] as int <= 90 && a[i] as int == b[i] as int + 32
    }) by {
        lemma_lower(a[i]);
        lemma_lower(b[i]);
    }
}

proof fn lemma_lower(c: char)
    ensures
        lower(c) as int == if 65 <= c as int <= 90 {
            c as int + 32
        } else {
            c as int
        },
{
}

/// Joining puts the separator between neighbours and nowhere else.
pub proof fn joining_separates_neighbours(parts: Seq<Seq<char>>, part: Seq<char>, sep: Seq<char>)
    ensures
        joined(Seq::empty(), sep) == Seq::<char>::empty(),
        joined(seq![part], sep) == part,
        parts.len() > 0 ==> joined(parts.push(part), sep) == joined(parts, sep) + sep + part,
{
    assert(parts.push(part).drop_last() =~= parts);
}

/// Numbers are printed digit by digit: the last character stands for the ones,
/// what is before it prints the tens, and there is no leading zero.
pub proof fn numbers_print_digit_by_digit(n: nat)
    ensures
        dec(n).len() >= 1,
        dec(n).last() as int == 48 + n % 10,
        n < 10 ==> dec(n).len() == 1,
        n >= 10 ==> dec(n).drop_last() == dec(n / 10),
        n > 0 ==> dec(n)[0] as int != 48,
    decreases n,
{
    if n >= 10 {
        numbers_print_digit_by_digit(n / 10);
        assert(dec(n).drop_last() =~= dec(n / 10));
    }
}

/// A number is read digit by digit: one digit reads as itself, one more digit
/// makes ten times as much and it, as long as that fits 32 bits, and anything
/// else among the digits spoils the reading.
pub proof fn numbers_read_digit_by_digit(s: Seq<char>, c: char)
    requires
        s.len() > 0,
        s[0] != '+',
    ensures
        48 <= c as int <= 57 ==> reads_as(seq![c]) == Some((c as int - 48) as u32),
        !(48 <= c as int <= 57) ==> reads_as(seq![c]) is None && reads_as(s.push(c)) is None,
        reads_as(s) is Some && 48 <= c as int <= 57 ==> {
            let more = 10 * reads_as(s)->0 + (c as int - 48);
            reads_as(s.push(c)) == if more <= 0xffff_ffff {
                Some(more as u32)
            } else {
                None
            }
        },
        reads_as(s) is None ==> reads_as(s.push(c)) is None,
        reads_as(Seq::empty()) is None,
{
    let t = s.push(c);
    assert(t.drop_last() =~= s);
    assert(t[0] == s[0]);
    let one = seq![c];
    assert(one.drop_last() =~= Seq::<char>::empty());
    assert(value_of(one.drop_last()) == 0);
    assert(one[0] == c);
    assert(is_number(one) <==> is_digit(c));
    assert(t.last() == c);
    assert(is_number(t) ==> is_number(s) && is_digit(c)) by {
        if is_number(t) {
            assert forall|i: int| 0 <= i < s.len() implies is_digit(#[trigger] s[i]) by {
                assert(t[i] == s[i]);
            }
            assert(is_digit(t[s.len() as int]));
        }
    }
    if is_number(s) && is_digit(c) {
        assert forall|i: int| 0 <= i < t.len() implies is_digit(#[trigger] t[i]) by {
            if i < s.len() {
                assert(t[i] == s[i]);
            }
        }
    }
    if c == '+' {
        assert(one.drop_first() =~= Seq::<char>::empty());
    }
}

/// A plus sign in front is read over, once.
pub proof fn one_plus_sign_is_read_over(s: Seq<char>)
    ensures
        s.len() > 0 && s[0] != '+' ==> reads_as(seq!['+'] + s) == reads_as(s),
        s.len() == 0 || s[0] == '+' ==> reads_as(seq!['+'] + s) is None,
{
    let t = seq!['+'] + s;
    assert(t.drop_first() =~= s);
    if s.len() > 0 && s[0] == '+' {
        assert(!is_digit(s[0]));
    }
}

} // verus!
