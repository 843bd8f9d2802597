//! File names as the bytes the file system gives, their text where they are
//! UTF-8, their extension, and the name a renamed file gets.
use crate::text::{chars_of, stem, string_of};
use vstd::prelude::*;
use vstd::utf8::*;

verus! {

/// The text of a name that is valid UTF-8.
pub open spec fn text_of(name: Seq<u8>) -> Option<Seq<char>> {
    if valid_utf8(name) {
        Some(decode_utf8(name))
    } else {
        None
    }
}

/// The index of the last `.` of `name`, or -1 where there is none.
pub open spec fn last_dot(name: Seq<u8>) -> int
    decreases name.len(),
{
    if name.len() == 0 {
        -1
    } else if name.last() == 46u8 {
        name.len() - 1
    } else {
        last_dot(name.drop_last())
    }
}

/// The text after the last dot, where that dot is not the first byte; the
/// name `..` has none.
pub open spec fn extension(name: Seq<u8>) -> Option<Seq<u8>> {
    if name == seq![46u8, 46u8] || last_dot(name) <= 0 {
        None
    } else {
        Some(name.skip(last_dot(name) + 1))
    }
}

/// What the new name ends with: a dot and the extension, where the name has
/// one that is text.
pub open spec fn extension_suffix(name: Seq<u8>) -> Seq<char> {
    match extension(name) {
        Some(e) => match text_of(e) {
            Some(t) => seq!['.'] + t,
            None => Seq::empty(),
        },
        None => Seq::empty(),
    }
}

/// The name of the file `old` once it has number `n` under `pattern`.
pub open spec fn renamed(pattern: Seq<char>, n: nat, old: Seq<u8>) -> Seq<char> {
    stem(pattern, n) + extension_suffix(old)
}

/// Relies on `std::str::from_utf8`: the text of the bytes exactly where they
/// are valid UTF-8.
#[verifier::external_body]
fn utf8_text(b: &Vec<u8>) -> (r: Option<String>)
    ensures
        r is Some <==> valid_utf8(b@),
        r matches Some(s) ==> s@ == decode_utf8(b@),
{
    std::str::from_utf8(b).ok().map(|s| s.to_string())
}

/// The text of a file name, where it is valid UTF-8.
pub fn name_text(name: &Vec<u8>) -> (r: Option<String>)
    ensures
        r is Some <==> text_of(name@) is Some,
        r matches Some(s) ==> text_of(name@) == Some(s@),
{
    utf8_text(name)
}

fn find_last_dot(name: &Vec<u8>) -> (r: Option<usize>)
    ensures
        r is None <==> last_dot(name@) == -1,
        r matches Some(k) ==> last_dot(name@) == k && k < name@.len(),
{
    let mut i: usize = name.len();
    assert(name@.take(i as int) =~= name@);
    while i > 0
        invariant
            i <= name.len(),
            last_dot(name@) == last_dot(name@.take(i as int)),
        decreases i,
    {
        assert(name@.take(i as int).drop_last() =~= name@.take(i - 1));
        if name[i - 1] == 46u8 {
            return Some(i - 1);
        }
        i -= 1;
    }
    None
}

fn bytes_from(b: &Vec<u8>, start: usize) -> (r: Vec<u8>)
    requires
        start <= b.len(),
    ensures
        r@ == b@.skip(start as int),
{
    let mut out: Vec<u8> = Vec::new();
    let mut i: usize = start;
    while i < b.len()
        invariant
            start <= i <= b.len(),
            out@ == b@.subrange(start as int, i as int),
        decreases b.len() - i,
    {
        out.push(b[i]);
        i += 1;
        assert(out@ =~= b@.subrange(start as int, i as int));
    }
    assert(out@ =~= b@.skip(start as int));
    out
}

/// The extension of a file name: the bytes after its last dot, unless that
/// dot begins the name.
pub fn name_extension(name: &Vec<u8>) -> (r: Option<Vec<u8>>)
    ensures
        r is Some <==> extension(name@) is Some,
        r matches Some(e) ==> extension(name@) == Some(e@),
{
    if name.len() == 2 && name[0] == 46u8 && name[1] == 46u8 {
        assert(name@ =~= seq![46u8, 46u8]);
        return None;
    }
    assert(name@ != seq![46u8, 46u8]) by {
        if name@ == seq![46u8, 46u8] {
            assert(name@[0] == 46u8 && name@[1] == 46u8);
        }
    }
    match find_last_dot(name) {
        Some(k) => {
            if k == 0 {
                None
            } else {
                Some(bytes_from(name, k + 1))
            }
        },
        None => None,
    }
}

fn append_chars(out: &mut Vec<char>, more: &Vec<char>)
    ensures
        final(out)@ == old(out)@ + more@,
{
    let mut k: usize = 0;
    while k < more.len()
        invariant
            k <= more.len(),
            out@ == old(out)@ + more@.take(k as int),
        decreases more.len() - k,
    {
        out.push(more[k]);
        k += 1;
        assert(out@ =~= old(out)@ + more@.take(k as int));
    }
    assert(more@.take(k as int) =~= more@);
}

/// The new name of the file `old` that gets number `n`: the stem the pattern
/// gives for `n`, then the old extension with its dot.
pub fn new_name(pattern: &str, n: usize, old: &Vec<u8>) -> (r: String)
    ensures
        r@ == renamed(pattern@, n as nat, old@),
{
    let s = crate::text::new_stem(pattern, n);
    let mut out = chars_of(s.as_str());
    match name_extension(old) {
        Some(e) => {
            match utf8_text(&e) {
                Some(t) => {
                    out.push('.');
                    let tc = chars_of(t.as_str());
                    append_chars(&mut out, &tc);
                    assert(out@ =~= renamed(pattern@, n as nat, old@));
                },
                None => {
                    assert(out@ =~= renamed(pattern@, n as nat, old@));
                },
            }
        },
        None => {
            assert(out@ =~= renamed(pattern@, n as nat, old@));
        },
    }
    string_of(&out)
}

} // verus!
