//! Text of the pattern: the placeholder, the file stems it yields, the
//! source of the matcher for conforming names, and decimal numbers.
use vstd::prelude::*;
use vstd::std_specs::iter::IteratorSpec;

verus! {

/// The group that stands for a number in the matcher.
pub open spec fn digit_group() -> Seq<char> {
    seq!['(', '\\', 'd', '+', ')']
}

/// `{}` starts at index `i` of `p`.
pub open spec fn placeholder_at(p: Seq<char>, i: int) -> bool {
    0 <= i && i + 1 < p.len() && p[i] == '{' && p[i + 1] == '}'
}

pub open spec fn contains_placeholder(p: Seq<char>) -> bool {
    exists|i: int| placeholder_at(p, i)
}

/// `p` with every `{}`, taken from left to right, replaced by `filler`.
pub open spec fn fill(p: Seq<char>, filler: Seq<char>) -> Seq<char>
    decreases p.len(),
{
    if p.len() < 2 {
        p
    } else if p[0] == '{' && p[1] == '}' {
        filler + fill(p.skip(2), filler)
    } else {
        seq![p[0]] + fill(p.skip(1), filler)
    }
}

/// The pattern with `filler` in the place of the number: at each placeholder,
/// or after the whole pattern where it has none.
pub open spec fn template(p: Seq<char>, filler: Seq<char>) -> Seq<char> {
    if contains_placeholder(p) {
        fill(p, filler)
    } else {
        p + filler
    }
}

/// The source of the matcher: the template with a digit group, anchored at
/// the start of the name, with any text allowed after it.
pub open spec fn matcher_text(p: Seq<char>) -> Seq<char> {
    seq!['^'] + template(p, digit_group()) + seq!['.', '*', '$']
}

/// The stem of the file that gets number `n`.
pub open spec fn stem(p: Seq<char>, n: nat) -> Seq<char> {
    template(p, decimal(n))
}

pub open spec fn digit_char(d: nat) -> char {
    seq!['0', '1', '2', '3', '4', '5', '6', '7', '8', '9'][d as int]
}

/// `n` written in base ten, without leading zeros.
pub open spec fn decimal(n: nat) -> Seq<char>
    decreases n,
{
    if n < 10 {
        seq![digit_char(n)]
    } else {
        decimal(n / 10).push(digit_char(n % 10))
    }
}

pub open spec fn is_ascii_digit(c: char) -> bool {
    '0' <= c && c <= '9'
}

pub open spec fn digit_value(c: char) -> nat {
    (c as int - '0' as int) as nat
}

pub open spec fn all_digits(s: Seq<char>) -> bool {
    forall|i: int| 0 <= i < s.len() ==> is_ascii_digit(#[trigger] s[i])
}

pub open spec fn digits_value(s: Seq<char>) -> nat
    decreases s.len(),
{
    if s.len() == 0 {
        0
    } else {
        digits_value(s.drop_last()) * 10 + digit_value(s.last())
    }
}

/// The digits of `s`, after one optional leading `+`.
pub open spec fn unsigned_digits(s: Seq<char>) -> Seq<char> {
    if s.len() > 0 && s[0] == '+' {
        s.skip(1)
    } else {
        s
    }
}

/// What reading `s` as a `usize` gives: one or more ASCII digits after an
/// optional `+`, with a value that fits.
pub open spec fn parsed_number(s: Seq<char>) -> Option<nat> {
    let d = unsigned_digits(s);
    if d.len() > 0 && all_digits(d) && digits_value(d) <= usize::MAX {
        Some(digits_value(d))
    } else {
        None
    }
}

/// The characters of `s` in order.
pub(crate) fn chars_of(s: &str) -> (r: Vec<char>)
    ensures
        r@ == s@,
{
    broadcast use vstd::string::axiom_spec_iter, vstd::string::next_postcondition;

    let mut out: Vec<char> = Vec::new();
    let mut it = s.chars();
    loop
        invariant
            it.obeys_prophetic_iter_laws(),
            out@ + it.remaining() == s@,
            it.decrease() is Some,
        ensures
            out@ == s@,
        decreases it.decrease()->0,
    {
        let ghost before = it.remaining();
        match it.next() {
            Some(c) => {
                out.push(c);
                assert(out@ + it.remaining() =~= s@) by {
                    assert(before =~= seq![c] + before.drop_first());
                }
            },
            None => {
                assert(out@ =~= s@);
                break;
            },
        }
    }
    out
}

/// Relies on `String: FromIterator<&char>`: the string of these characters.
#[verifier::external_body]
pub(crate) fn string_of(c: &Vec<char>) -> (r: String)
    ensures
        r@ == c@,
{
    c.iter().collect()
}

fn is_placeholder_at(p: &Vec<char>, i: usize) -> (r: bool)
    ensures
        r == placeholder_at(p@, i as int),
{
    i < p.len() && p.len() - i > 1 && p[i] == '{' && p[i + 1] == '}'
}

/// Whether the pattern holds a `{}`.
pub fn has_placeholder(pattern: &str) -> (r: bool)
    ensures
        r == contains_placeholder(pattern@),
{
    let p = chars_of(pattern);
    let mut i: usize = 0;
    while i < p.len()
        invariant
            p@ == pattern@,
            i <= p.len(),
            forall|j: int| 0 <= j < i ==> !placeholder_at(p@, j),
        decreases p.len() - i,
    {
        if is_placeholder_at(&p, i) {
            return true;
        }
        i += 1;
    }
    assert forall|j: int| !placeholder_at(p@, j) by {
        if 0 <= j < i {
        }
    }
    false
}

fn fill_chars(p: &Vec<char>, filler: &Vec<char>) -> (r: Vec<char>)
    ensures
        r@ == fill(p@, filler@),
{
    let mut out: Vec<char> = Vec::new();
    let mut i: usize = 0;
    assert(p@.skip(0) =~= p@);
    assert(out@ + fill(p@, filler@) =~= fill(p@, filler@));
    while i < p.len()
        invariant
            i <= p.len(),
            out@ + fill(p@.skip(i as int), filler@) == fill(p@, filler@),
        decreases p.len() - i,
    {
        let ghost rest = p@.skip(i as int);
        if is_placeholder_at(p, i) {
            assert(rest.skip(2) =~= p@.skip(i + 2));
            let mut k: usize = 0;
            let ghost start = out@;
            while k < filler.len()
                invariant
                    k <= filler.len(),
                    out@ == start + filler@.take(k as int),
                decreases filler.len() - k,
            {
                out.push(filler[k]);
                k += 1;
                assert(out@ =~= start + filler@.take(k as int));
            }
            assert(filler@.take(k as int) =~= filler@);
            assert(out@ + fill(p@.skip(i + 2), filler@) =~= start + fill(rest, filler@));
            i += 2;
        } else {
            let ghost start = out@;
            out.push(p[i]);
            if p.len() - i >= 2 {
                assert(rest.skip(1) =~= p@.skip(i + 1));
                assert(out@ + fill(p@.skip(i + 1), filler@) =~= start + fill(rest, filler@));
            } else {
                assert(p@.skip(i + 1).len() == 0);
                assert(out@ + fill(p@.skip(i + 1), filler@) =~= start + fill(rest, filler@));
            }
            i += 1;
        }
    }
    assert(p@.skip(i as int).len() == 0);
    assert(out@ + fill(p@.skip(i as int), filler@) =~= out@);
    out
}

fn template_chars(pattern: &str, filler: &Vec<char>) -> (r: Vec<char>)
    ensures
        r@ == template(pattern@, filler@),
{
    let p = chars_of(pattern);
    if has_placeholder(pattern) {
        fill_chars(&p, filler)
    } else {
        let mut out = p;
        let mut k: usize = 0;
        let ghost start = out@;
        while k < filler.len()
            invariant
                k <= filler.len(),
                out@ == start + filler@.take(k as int),
            decreases filler.len() - k,
        {
            out.push(filler[k]);
            k += 1;
            assert(out@ =~= start + filler@.take(k as int));
        }
        assert(filler@.take(k as int) =~= filler@);
        out
    }
}

/// The source text of the matcher for names that already follow `pattern`.
pub fn matcher_source(pattern: &str) -> (r: String)
    ensures
        r@ == matcher_text(pattern@),
{
    let group: Vec<char> = vec!['(', '\\', 'd', '+', ')'];
    assert(group@ =~= digit_group());
    let body = template_chars(pattern, &group);
    let mut out: Vec<char> = vec!['^'];
    let mut k: usize = 0;
    while k < body.len()
        invariant
            k <= body.len(),
            out@ == seq!['^'] + body@.take(k as int),
        decreases body.len() - k,
    {
        out.push(body[k]);
        k += 1;
        assert(out@ =~= seq!['^'] + body@.take(k as int));
    }
    assert(body@.take(k as int) =~= body@);
    out.push('.');
    out.push('*');
    out.push('$');
    assert(out@ =~= matcher_text(pattern@));
    string_of(&out)
}

fn digit_of(d: usize) -> (r: char)
    requires
        d < 10,
    ensures
        r == digit_char(d as nat),
{
    if d == 0 {
        '0'
    } else if d == 1 {
        '1'
    } else if d == 2 {
        '2'
    } else if d == 3 {
        '3'
    } else if d == 4 {
        '4'
    } else if d == 5 {
        '5'
    } else if d == 6 {
        '6'
    } else if d == 7 {
        '7'
    } else if d == 8 {
        '8'
    } else {
        '9'
    }
}

fn push_decimal(n: usize, out: &mut Vec<char>)
    ensures
        final(out)@ == old(out)@ + decimal(n as nat),
    decreases n,
{
    if n >= 10 {
        push_decimal(n / 10, out);
    }
    out.push(digit_of(n % 10));
    assert(final(out)@ =~= old(out)@ + decimal(n as nat));
}

/// `n` in base ten.
pub fn decimal_string(n: usize) -> (r: String)
    ensures
        r@ == decimal(n as nat),
{
    let mut out: Vec<char> = Vec::new();
    push_decimal(n, &mut out);
    assert(out@ =~= decimal(n as nat));
    string_of(&out)
}

/// The stem of the file that gets number `n` under `pattern`.
pub fn new_stem(pattern: &str, n: usize) -> (r: String)
    ensures
        r@ == stem(pattern@, n as nat),
{
    let mut digits: Vec<char> = Vec::new();
    push_decimal(n, &mut digits);
    assert(digits@ =~= decimal(n as nat));
    let s = template_chars(pattern, &digits);
    string_of(&s)
}

proof fn lemma_digits_value_grows(s: Seq<char>, j: int)
    requires
        0 <= j <= s.len(),
    ensures
        digits_value(s.take(j)) <= digits_value(s),
    decreases s.len(),
{
    if j < s.len() {
        assert(s.drop_last().take(j) =~= s.take(j));
        lemma_digits_value_grows(s.drop_last(), j);
    } else {
        assert(s.take(j) =~= s);
    }
}

/// Reads `s` as a `usize` in base ten, as `str::parse::<usize>` does.
pub fn parse_number(s: &Vec<char>) -> (r: Option<usize>)
    ensures
        r matches Some(n) ==> parsed_number(s@) == Some(n as nat),
        r is None ==> parsed_number(s@) is None,
{
    let start: usize = if s.len() > 0 && s[0] == '+' { 1 } else { 0 };
    let ghost d = unsigned_digits(s@);
    assert(d =~= s@.skip(start as int));
    if start >= s.len() {
        return None;
    }
    let mut value: usize = 0;
    let mut i: usize = start;
    while i < s.len()
        invariant
            start <= i <= s.len(),
            d == s@.skip(start as int),
            d == unsigned_digits(s@),
            all_digits(d.take(i - start)),
            value as nat == digits_value(d.take(i - start)),
        decreases s.len() - i,
    {
        let c = s[i];
        assert(c == d[i - start]);
        if !('0' <= c && c <= '9') {
            assert(!is_ascii_digit(d[i - start]));
            assert(!all_digits(d));
            return None;
        }
        let v: usize = (c as u32 - '0' as u32) as usize;
        assert(v as nat == digit_value(c));
        assert(d.take(i + 1 - start).drop_last() =~= d.take(i - start));
        assert(d.take(i + 1 - start).last() == c);
        assert(digits_value(d.take(i + 1 - start)) == digits_value(d.take(i - start)) * 10 + v);
        if value > (usize::MAX - v) / 10 {
            assert(value * 10 + v > usize::MAX) by (nonlinear_arith)
                requires
                    value > (usize::MAX - v) / 10,
                    v <= 9;
            proof {
                lemma_digits_value_grows(d, i + 1 - start);
            }
            return None;
        }
        assert(value * 10 + v <= usize::MAX) by (nonlinear_arith)
            requires
                value <= (usize::MAX - v) / 10,
                v <= 9;
        value = value * 10 + v;
        i += 1;
        assert forall|k: int| 0 <= k < d.take(i - start).len() implies is_ascii_digit(
            #[trigger] d.take(i - start)[k],
        ) by {
            if k < i - 1 - start {
                assert(d.take(i - 1 - start)[k] == d.take(i - start)[k]);
            }
        }
    }
    assert(d.take(i - start) =~= d);
    Some(value)
}

} // verus!
