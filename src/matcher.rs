//! The matcher for names that already follow the pattern, and the split of
//! a directory's files into conforming ones and ones to rename.
use crate::names::{name_text, text_of};
use crate::numbering::number_set;
use crate::text::{chars_of, matcher_source, matcher_text, parse_number, parsed_number};
use vstd::prelude::*;

verus! {

#[verifier::external_type_specification]
#[verifier::external_body]
pub struct ExRegex(regex::Regex);

#[verifier::external_type_specification]
#[verifier::external_body]
pub struct ExRegexError(regex::Error);

/// Whether `regex::Regex::new` accepts this source.
pub uninterp spec fn regex_accepts(source: Seq<char>) -> bool;

/// What `regex::Regex::captures` finds in `text`: nothing where it does not
/// match, else the text of group 1 where that group took part.
pub uninterp spec fn regex_group_one(source: Seq<char>, text: Seq<char>) -> Option<
    Option<Seq<char>>,
>;

/// A compiled matcher, with the source it was compiled from.
pub struct Matcher {
    source: String,
    regex: regex::Regex,
}

impl Matcher {
    /// The source the matcher was compiled from.
    pub closed spec fn source(&self) -> Seq<char> {
        self.source@
    }
}

/// The pattern does not give a valid matcher.
pub enum PatternError {
    Invalid(regex::Error),
}

/// Relies on `regex::Regex::new`: whether it compiles depends on the source alone.
#[verifier::external_body]
fn compile(source: String) -> (r: Result<Matcher, regex::Error>)
    ensures
        r is Ok <==> regex_accepts(source@),
        r matches Ok(m) ==> m.source() == source@,
{
    match regex::Regex::new(&source) {
        Ok(regex) => Ok(Matcher { source, regex }),
        Err(e) => Err(e),
    }
}

pub open spec fn group_view(r: Option<Option<String>>) -> Option<Option<Seq<char>>> {
    match r {
        Some(Some(g)) => Some(Some(g@)),
        Some(None) => Some(None),
        None => None,
    }
}

/// Relies on `regex::Regex::captures`, `Captures::get(1)` and `Match::as_str`:
/// the result depends on the source and the text alone.
#[verifier::external_body]
fn group_one(m: &Matcher, text: &str) -> (r: Option<Option<String>>)
    ensures
        group_view(r) == regex_group_one(m.source(), text@),
{
    m.regex.captures(text).map(|c| c.get(1).map(|g| g.as_str().to_string()))
}

/// Builds the matcher for names that already follow `pattern`.
pub fn build_matcher(pattern: &str) -> (r: Result<Matcher, PatternError>)
    ensures
        r is Ok <==> regex_accepts(matcher_text(pattern@)),
        r matches Ok(m) ==> m.source() == matcher_text(pattern@),
{
    match compile(matcher_source(pattern)) {
        Ok(m) => Ok(m),
        Err(e) => Err(PatternError::Invalid(e)),
    }
}

/// The name is text and the matcher matches it.
pub open spec fn conforms(source: Seq<char>, name: Seq<u8>) -> bool {
    match text_of(name) {
        Some(t) => regex_group_one(source, t) is Some,
        None => false,
    }
}

/// The number that a conforming name holds, where its group reads as one.
pub open spec fn held_number(source: Seq<char>, name: Seq<u8>) -> Option<nat> {
    match text_of(name) {
        Some(t) => match regex_group_one(source, t) {
            Some(Some(g)) => parsed_number(g),
            _ => None,
        },
        None => None,
    }
}

/// Where a file stands before any rename.
#[derive(Clone, Copy, Debug, PartialEq, Eq)]
pub enum Class {
    /// It follows the pattern already, with the number it holds, if it reads as one.
    Conforming(Option<usize>),
    /// It is to be renamed.
    Pending,
}

/// Sorts a name into conforming or pending.
pub fn classify(m: &Matcher, name: &Vec<u8>) -> (r: Class)
    ensures
        r is Pending <==> !conforms(m.source(), name@),
        r matches Class::Conforming(k) ==> (match k {
            Some(n) => held_number(m.source(), name@) == Some(n as nat),
            None => held_number(m.source(), name@) is None,
        }),
{
    match name_text(name) {
        Some(t) => match group_one(m, t.as_str()) {
            Some(Some(g)) => {
                let digits = chars_of(g.as_str());
                Class::Conforming(parse_number(&digits))
            },
            Some(None) => Class::Conforming(None),
            None => Class::Pending,
        },
        None => Class::Pending,
    }
}

/// The names that conform, in their order.
pub open spec fn conforming_names(source: Seq<char>, names: Seq<Seq<u8>>) -> Seq<Seq<u8>>
    decreases names.len(),
{
    if names.len() == 0 {
        Seq::empty()
    } else {
        let rest = conforming_names(source, names.drop_last());
        if conforms(source, names.last()) {
            rest.push(names.last())
        } else {
            rest
        }
    }
}

/// The names that do not conform, in their order.
pub open spec fn pending_names(source: Seq<char>, names: Seq<Seq<u8>>) -> Seq<Seq<u8>>
    decreases names.len(),
{
    if names.len() == 0 {
        Seq::empty()
    } else {
        let rest = pending_names(source, names.drop_last());
        if conforms(source, names.last()) {
            rest
        } else {
            rest.push(names.last())
        }
    }
}

/// The numbers that the conforming names hold.
pub open spec fn held_numbers(source: Seq<char>, names: Seq<Seq<u8>>) -> Set<int>
    decreases names.len(),
{
    if names.len() == 0 {
        Set::empty()
    } else {
        let rest = held_numbers(source, names.drop_last());
        match held_number(source, names.last()) {
            Some(n) => rest.insert(n as int),
            None => rest,
        }
    }
}

/// `a` comes before `b` or equals it, byte by byte, a prefix first.
pub open spec fn bytes_le(a: Seq<u8>, b: Seq<u8>) -> bool {
    (a.len() <= b.len() && b.take(a.len() as int) == a) || exists|i: int|
        0 <= i < a.len() && i < b.len() && a.take(i) == b.take(i) && a[i] < b[i]
}

pub open spec fn names_sorted(s: Seq<Seq<u8>>) -> bool {
    forall|i: int, j: int| 0 <= i < j < s.len() ==> bytes_le(#[trigger] s[i], #[trigger] s[j])
}

/// Relies on `slice::sort` and the order of `Vec<u8>`, which compares byte by
/// byte: the same names, in that order.
#[verifier::external_body]
fn sort_names(v: &mut Vec<Vec<u8>>)
    ensures
        final(v).deep_view().to_multiset() == old(v).deep_view().to_multiset(),
        names_sorted(final(v).deep_view()),
{
    v.sort()
}

/// A directory's files, split.
pub struct Scan {
    /// The numbers that conforming files hold.
    pub used: Vec<usize>,
    /// The conforming files, which keep their names.
    pub skipped: Vec<Vec<u8>>,
    /// The files to rename, in byte order.
    pub pending: Vec<Vec<u8>>,
}

/// Splits the names of a directory's files into conforming ones, whose
/// numbers are collected, and the ones to rename, sorted.
pub fn scan(m: &Matcher, names: Vec<Vec<u8>>) -> (r: Scan)
    ensures
        number_set(r.used@) == held_numbers(m.source(), names.deep_view()),
        r.skipped.deep_view() == conforming_names(m.source(), names.deep_view()),
        r.pending.deep_view().to_multiset() == pending_names(
            m.source(),
            names.deep_view(),
        ).to_multiset(),
        names_sorted(r.pending.deep_view()),
        r.used.len() + r.pending.len() <= names.len(),
{
    let ghost src = m.source();
    let ghost all = names.deep_view();
    let mut used: Vec<usize> = Vec::new();
    let mut skipped: Vec<Vec<u8>> = Vec::new();
    let mut pending: Vec<Vec<u8>> = Vec::new();
    let mut i: usize = 0;
    while i < names.len()
        invariant
            i <= names.len(),
            all == names.deep_view(),
            src == m.source(),
            number_set(used@) == held_numbers(src, all.take(i as int)),
            skipped.deep_view() == conforming_names(src, all.take(i as int)),
            pending.deep_view() == pending_names(src, all.take(i as int)),
            used.len() + pending.len() <= i,
        decreases names.len() - i,
    {
        let name = names[i].clone();
        assert(name@ == all[i as int]);
        assert(all.take(i + 1).drop_last() =~= all.take(i as int));
        assert(all.take(i + 1).last() == all[i as int]);
        let ghost before_used = used@;
        let ghost before_skipped = skipped.deep_view();
        let ghost before_pending = pending.deep_view();
        match classify(m, &name) {
            Class::Conforming(k) => {
                match k {
                    Some(n) => {
                        used.push(n);
                        assert(used@.map_values(|u: usize| u as int) =~= before_used.map_values(
                            |u: usize| u as int,
                        ).push(n as int));
                        proof {
                            before_used.map_values(|u: usize| u as int).lemma_push_to_set_commute(
                                n as int,
                            );
                        }
                        assert(number_set(used@) =~= number_set(before_used).insert(
                            n as int,
                        ));
                    },
                    None => {},
                }
                skipped.push(name);
                assert(skipped.deep_view() =~= before_skipped.push(all[i as int]));
            },
            Class::Pending => {
                pending.push(name);
                assert(pending.deep_view() =~= before_pending.push(all[i as int]));
            },
        }
        i += 1;
    }
    assert(all.take(i as int) =~= all);
    let ghost unsorted = pending.deep_view();
    sort_names(&mut pending);
    proof {
        vstd::seq_lib::to_multiset_len(unsorted);
        vstd::seq_lib::to_multiset_len(pending.deep_view());
    }
    Scan { used, skipped, pending }
}


/// The split is a partition: each file is either conforming, and kept, or
/// pending, and never both; together the two lists hold every file once.
pub proof fn lemma_split_partitions(source: Seq<char>, names: Seq<Seq<u8>>)
    ensures
        forall|i: int|
            0 <= i < conforming_names(source, names).len() ==> conforms(
                source,
                #[trigger] conforming_names(source, names)[i],
            ),
        forall|i: int|
            0 <= i < pending_names(source, names).len() ==> !conforms(
                source,
                #[trigger] pending_names(source, names)[i],
            ),
        conforming_names(source, names).to_multiset().add(pending_names(source, names).to_multiset())
            == names.to_multiset(),
    decreases names.len(),
{
    broadcast use vstd::seq_lib::group_to_multiset_ensures;

    if names.len() > 0 {
        let rest = names.drop_last();
        lemma_split_partitions(source, rest);
        assert(names =~= rest.push(names.last()));
        let c = conforming_names(source, rest);
        let p = pending_names(source, rest);
        if conforms(source, names.last()) {
            assert forall|i: int| 0 <= i < c.push(names.last()).len() implies conforms(
                source,
                #[trigger] c.push(names.last())[i],
            ) by {
                if i < c.len() {
                    assert(c.push(names.last())[i] == c[i]);
                }
            }
        } else {
            assert forall|i: int| 0 <= i < p.push(names.last()).len() implies !conforms(
                source,
                #[trigger] p.push(names.last())[i],
            ) by {
                if i < p.len() {
                    assert(p.push(names.last())[i] == p[i]);
                }
            }
        }
        assert(conforming_names(source, names).to_multiset().add(
            pending_names(source, names).to_multiset(),
        ) =~= names.to_multiset());
    }
}

/// Where every file conforms already, a scan leaves nothing to rename and
/// keeps every file.
pub proof fn lemma_all_conforming_rename_nothing(source: Seq<char>, names: Seq<Seq<u8>>)
    requires
        forall|i: int| 0 <= i < names.len() ==> conforms(source, #[trigger] names[i]),
    ensures
        pending_names(source, names).len() == 0,
        conforming_names(source, names) == names,
    decreases names.len(),
{
    if names.len() > 0 {
        let rest = names.drop_last();
        assert forall|i: int| 0 <= i < rest.len() implies conforms(source, #[trigger] rest[i]) by {
            assert(rest[i] == names[i]);
        }
        lemma_all_conforming_rename_nothing(source, rest);
        assert(conforms(source, names[names.len() - 1]));
        assert(conforming_names(source, names) =~= names);
    }
}

} // verus!
