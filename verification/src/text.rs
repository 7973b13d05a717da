//! Text building blocks with exact specifications: character access,
//! decimal rendering and left-to-right substitution.
use vstd::prelude::*;
use vstd::string::*;

verus! {

/// `String::push`: appends one character.
#[verifier::external_body]
pub(crate) fn push_char(s: &mut String, c: char)
    ensures
        final(s)@ == old(s)@.push(c),
{
    s.push(c);
}

/// The characters of `s`, in order.
pub fn chars_of(s: &str) -> (r: Vec<char>)
    ensures
        r@ == s@,
{
    broadcast use group_string_axioms;

    let mut out: Vec<char> = Vec::new();
    let mut chars = s.chars();
    let ghost total = s@;
    loop
        invariant
            vstd::std_specs::iter::IteratorSpec::obeys_prophetic_iter_laws(&chars),
            total == s@,
            out@ + vstd::std_specs::iter::IteratorSpec::remaining(&chars) == total,
        decreases total.len() - out@.len(),
    {
        let ghost before = vstd::std_specs::iter::IteratorSpec::remaining(&chars);
        match chars.next() {
            Some(c) => {
                assert(before.len() > 0);
                assert(before == seq![c] + before.drop_first());
                out.push(c);
                assert(out@ + vstd::std_specs::iter::IteratorSpec::remaining(&chars) =~= total);
            },
            None => {
                assert(vstd::std_specs::iter::IteratorSpec::remaining(&chars).len() == 0);
                assert(out@ =~= total);
                return out;
            },
        }
    }
}

/// A string holding exactly `chars`.
pub fn string_of(chars: &Vec<char>) -> (r: String)
    ensures
        r@ == chars@,
{
    let mut out = String::new();
    let mut i: usize = 0;
    while i < chars.len()
        invariant
            i <= chars@.len(),
            out@ == chars@.take(i as int),
        decreases chars@.len() - i,
    {
        push_char(&mut out, chars[i]);
        assert(chars@.take(i + 1) =~= chars@.take(i as int).push(chars@[i as int]));
        i = i + 1;
    }
    assert(chars@.take(chars@.len() as int) =~= chars@);
    out
}

/// The decimal digits of `n`, most significant first, with no leading
/// zeros; zero is the single digit `0`.
pub open spec fn decimal_spec(n: nat) -> Seq<char>
    decreases n,
{
    if n < 10 {
        seq![digit_char(n)]
    } else {
        decimal_spec(n / 10).push(digit_char(n % 10))
    }
}

/// The character of digit `d`.
pub open spec fn digit_char(d: nat) -> char {
    (('0' as u32) + d) as char
}

/// `n` written in decimal.
pub fn decimal(n: u32) -> (r: String)
    ensures
        r@ == decimal_spec(n as nat),
{
    let mut digits: Vec<char> = Vec::new();
    let mut rest = n;
    let ghost mut tail: Seq<char> = Seq::empty();
    loop
        invariant_except_break
            decimal_spec(n as nat) == decimal_spec(rest as nat) + tail,
        invariant
            digits@.reverse() == tail,
        ensures
            decimal_spec(n as nat) == tail,
            digits@.reverse() == tail,
        decreases rest,
    {
        let d = rest % 10;
        let c = char_of_digit(d);
        digits.push(c);
        proof {
            assert(digits@.reverse() =~= seq![c] + tail);
            tail = seq![c] + tail;
        }
        if rest < 10 {
            assert(decimal_spec(rest as nat) == seq![c]);
            assert(decimal_spec(n as nat) =~= tail);
            break;
        }
        assert(decimal_spec(rest as nat) == decimal_spec((rest / 10) as nat).push(c));
        assert(decimal_spec(n as nat) =~= decimal_spec((rest / 10) as nat) + tail);
        rest = rest / 10;
    }
    let mut out = String::new();
    let mut i = digits.len();
    while i > 0
        invariant
            i <= digits@.len(),
            out@ == digits@.reverse().take((digits@.len() - i) as int),
        decreases i,
    {
        i = i - 1;
        push_char(&mut out, digits[i]);
        assert(digits@.reverse().take((digits@.len() - i) as int) =~= digits@.reverse().take(
            (digits@.len() - i - 1) as int,
        ).push(digits@[i as int]));
    }
    assert(digits@.reverse().take(digits@.len() as int) =~= digits@.reverse());
    out
}

fn char_of_digit(d: u32) -> (c: char)
    requires
        d < 10,
    ensures
        c == digit_char(d as nat),
{
    match d {
        0 => '0',
        1 => '1',
        2 => '2',
        3 => '3',
        4 => '4',
        5 => '5',
        6 => '6',
        7 => '7',
        8 => '8',
        _ => '9',
    }
}

/// `text` with every occurrence of `pattern` replaced by `replacement`,
/// scanning left to right and resuming after each replaced occurrence.
pub open spec fn replace_all(text: Seq<char>, pattern: Seq<char>, replacement: Seq<char>) -> Seq<
    char,
>
    decreases text.len(),
{
    if text.len() == 0 {
        Seq::empty()
    } else if pattern.len() > 0 && pattern.len() <= text.len() && text.take(pattern.len() as int)
        == pattern {
        replacement + replace_all(text.skip(pattern.len() as int), pattern, replacement)
    } else {
        seq![text[0]] + replace_all(text.skip(1), pattern, replacement)
    }
}

fn matches_at(text: &Vec<char>, at: usize, pattern: &Vec<char>) -> (r: bool)
    requires
        at <= text@.len(),
    ensures
        r == (pattern@.len() <= text@.len() - at && text@.skip(at as int).take(
            pattern@.len() as int,
        ) == pattern@),
{
    if pattern.len() > text.len() - at {
        return false;
    }
    let tl = text.len();
    let mut k: usize = 0;
    while k < pattern.len()
        invariant
            tl == text@.len(),
            at <= text@.len(),
            pattern@.len() <= text@.len() - at,
            k <= pattern@.len(),
            forall|m: int| 0 <= m < k ==> text@[at + m] == pattern@[m],
        decreases pattern@.len() - k,
    {
        if text[at + k] != pattern[k] {
            assert(text@.skip(at as int).take(pattern@.len() as int)[k as int] != pattern@[k as int]);
            return false;
        }
        k = k + 1;
    }
    assert(text@.skip(at as int).take(pattern@.len() as int) =~= pattern@);
    true
}

/// `text` with every occurrence of `pattern` replaced by `replacement`.
pub fn replace(text: &str, pattern: &str, replacement: &str) -> (r: String)
    ensures
        r@ == replace_all(text@, pattern@, replacement@),
{
    let t = chars_of(text);
    let p = chars_of(pattern);
    let mut out = String::new();
    let mut at: usize = 0;
    assert(t@.skip(0) =~= t@);
    while at < t.len()
        invariant
            at <= t@.len(),
            t@ == text@,
            p@ == pattern@,
            out@ + replace_all(t@.skip(at as int), p@, replacement@) == replace_all(
                t@,
                p@,
                replacement@,
            ),
        decreases t@.len() - at,
    {
        let ghost rest = t@.skip(at as int);
        if p.len() > 0 && matches_at(&t, at, &p) {
            out.append(replacement);
            proof {
                assert(rest.skip(p@.len() as int) =~= t@.skip(at + p@.len()));
            }
            at = at + p.len();
        } else {
            push_char(&mut out, t[at]);
            proof {
                assert(rest.skip(1) =~= t@.skip(at + 1));
                assert(rest[0] == t@[at as int]);
            }
            at = at + 1;
        }
    }
    assert(t@.skip(at as int) =~= Seq::<char>::empty());
    out
}

} // verus!
