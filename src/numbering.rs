//! The counter that hands out sequence numbers: the lowest number that no
//! conforming file holds, moving on only when a number is taken.
use vstd::prelude::*;
use vstd::set_lib::*;

verus! {

/// `n` is the lowest number from `from` on that `used` does not hold.
pub open spec fn is_next_free(used: Set<int>, from: int, n: int) -> bool {
    from <= n && !used.contains(n) && forall|k: int| from <= k < n ==> used.contains(k)
}

/// The numbers of a list, as a set.
pub open spec fn number_set(v: Seq<usize>) -> Set<int> {
    v.map_values(|u: usize| u as int).to_set()
}

/// Where the counter stands after number `n` was offered and taken or not.
pub open spec fn counter_after(taken: bool, n: int) -> int {
    if taken {
        n + 1
    } else {
        n
    }
}

/// `offers` are the numbers offered, in turn, to files of which the ones
/// marked in `taken` kept their number, while `used` was held already.
pub open spec fn offered_numbers(used: Set<int>, taken: Seq<bool>, offers: Seq<int>) -> bool {
    &&& offers.len() == taken.len()
    &&& offers.len() > 0 ==> is_next_free(used, 1, offers[0])
    &&& forall|i: int|
        0 <= i < offers.len() - 1 ==> is_next_free(
            used,
            counter_after(taken[i], offers[i]),
            #[trigger] offers[i + 1],
        )
}

/// What became of the number offered to a file.
#[derive(Clone, Copy, Debug, PartialEq, Eq)]
pub enum Outcome {
    /// Shown in a dry run: the number counts as given.
    Previewed,
    /// The file was renamed.
    Renamed,
    /// The user declined: the number stays free.
    Declined,
    /// The rename failed: the number stays free.
    Failed,
}

/// Whether the number offered stays given after this outcome.
pub open spec fn keeps_number(o: Outcome) -> bool {
    o is Previewed || o is Renamed
}

/// What to do with a pending file once its new name is known.
#[derive(Clone, Copy, Debug, PartialEq, Eq)]
pub enum Action {
    /// Only show the rename.
    Preview,
    /// Rename without asking.
    Rename,
    /// Ask before renaming.
    Ask,
}

/// A dry run only shows; otherwise `yes` renames without asking.
pub fn action_for(dry_run: bool, yes: bool) -> (r: Action)
    ensures
        dry_run ==> r == Action::Preview,
        !dry_run && yes ==> r == Action::Rename,
        !dry_run && !yes ==> r == Action::Ask,
{
    if dry_run {
        Action::Preview
    } else if yes {
        Action::Rename
    } else {
        Action::Ask
    }
}

/// Whether an outcome keeps the number it was offered.
pub fn keeps(o: Outcome) -> (r: bool)
    ensures
        r == keeps_number(o),
{
    match o {
        Outcome::Previewed | Outcome::Renamed => true,
        _ => false,
    }
}

/// The numbers held by conforming files, the counter, and the numbers
/// given out so far in this run.
pub struct Numbering {
    used: Vec<usize>,
    count: usize,
    room: usize,
    given: Ghost<Set<int>>,
}

proof fn lemma_range_covered(hi: int, a: Set<int>, b: Set<int>)
    requires
        a.finite(),
        b.finite(),
        hi >= 1,
        forall|k: int| 1 <= k < hi ==> a.contains(k) || b.contains(k),
    ensures
        hi - 1 <= a.len() + b.len(),
{
    lemma_int_range(1, hi);
    assert(set_int_range(1, hi).subset_of(a.union(b)));
    lemma_len_subset(set_int_range(1, hi), a.union(b));
    lemma_len_union(a, b);
}

proof fn lemma_number_set_len(v: Seq<usize>)
    ensures
        number_set(v).finite(),
        number_set(v).len() <= v.len(),
{
    v.map_values(|u: usize| u as int).lemma_cardinality_of_set();
}

impl Numbering {
    /// The numbers that conforming files hold.
    pub closed spec fn used_set(&self) -> Set<int> {
        number_set(self.used@)
    }

    /// The number that the next offer starts from.
    pub closed spec fn counter(&self) -> int {
        self.count as int
    }

    /// How many more numbers may still be given out.
    pub closed spec fn room(&self) -> int {
        self.room as int
    }

    /// The numbers given out so far.
    pub closed spec fn given(&self) -> Set<int> {
        self.given@
    }

    /// Every number below the counter is held or given; the given ones are
    /// free of conforming files; and the counter cannot run past `usize`.
    pub closed spec fn wf(&self) -> bool {
        &&& self.count >= 1
        &&& self.given@.finite()
        &&& forall|k: int|
            1 <= k < self.count ==> self.used_set().contains(k) || self.given@.contains(k)
        &&& forall|k: int|
            #[trigger] self.given@.contains(k) ==> 1 <= k < self.count && !self.used_set().contains(
                k,
            )
        &&& self.used.len() + self.given@.len() + self.room < usize::MAX
    }

    /// Starts at 1 with the numbers of the conforming files, for at most
    /// `room` files to number.
    pub fn new(used: Vec<usize>, room: usize) -> (r: Self)
        requires
            used.len() + room < usize::MAX,
        ensures
            r.wf(),
            r.used_set() == number_set(used@),
            r.counter() == 1,
            r.room() == room,
            r.given() == Set::<int>::empty(),
    {
        Numbering { used, count: 1, room, given: Ghost(Set::empty()) }
    }

    fn holds(&self, n: usize) -> (r: bool)
        ensures
            r == self.used_set().contains(n as int),
    {
        let mut i: usize = 0;
        while i < self.used.len()
            invariant
                i <= self.used.len(),
                forall|j: int| 0 <= j < i ==> self.used@[j] != n,
            decreases self.used.len() - i,
        {
            if self.used[i] == n {
                assert(self.used@.map_values(|u: usize| u as int)[i as int] == n as int);
                return true;
            }
            i += 1;
        }
        assert(!self.used_set().contains(n as int)) by {
            if self.used_set().contains(n as int) {
                let m = self.used@.map_values(|u: usize| u as int);
                let j = choose|j: int| 0 <= j < m.len() && #[trigger] m[j] == n as int;
                assert(self.used@[j] == n);
            }
        }
        false
    }

    /// Moves the counter past the numbers that conforming files hold and
    /// returns it: the number offered to the next pending file.
    pub fn offer(&mut self) -> (n: usize)
        requires
            old(self).wf(),
        ensures
            final(self).wf(),
            is_next_free(old(self).used_set(), old(self).counter(), n as int),
            final(self).counter() == n,
            final(self).used_set() == old(self).used_set(),
            final(self).given() == old(self).given(),
            final(self).room() == old(self).room(),
    {
        let ghost start = self.count as int;
        proof {
            lemma_number_set_len(self.used@);
        }
        while self.holds(self.count)
            invariant
                self.wf(),
                start <= self.count,
                forall|k: int| start <= k < self.count ==> self.used_set().contains(k),
                self.used_set() == old(self).used_set(),
                self.given() == old(self).given(),
                self.room() == old(self).room(),
                number_set(self.used@).finite(),
                number_set(self.used@).len() <= self.used.len(),
            decreases usize::MAX - self.count,
        {
            proof {
                lemma_range_covered(self.count + 1, self.used_set(), self.given@);
            }
            self.count = self.count + 1;
        }
        self.count
    }

    /// Whether the counter stands on a free number with room left, as after
    /// an offer.
    pub fn can_settle(&self) -> (r: bool)
        requires
            self.wf(),
        ensures
            r == (self.room() > 0 && !self.used_set().contains(self.counter())),
    {
        self.room > 0 && !self.holds(self.count)
    }

    /// Records what became of the number just offered: a number that was
    /// kept moves the counter on; one that was not stays free for the next file.
    pub fn settle(&mut self, outcome: Outcome)
        requires
            old(self).wf(),
            old(self).room() > 0,
            !old(self).used_set().contains(old(self).counter()),
        ensures
            final(self).wf(),
            final(self).used_set() == old(self).used_set(),
            keeps_number(outcome) ==> final(self).counter() == old(self).counter() + 1
                && final(self).given() == old(self).given().insert(old(self).counter())
                && final(self).room() == old(self).room() - 1,
            !keeps_number(outcome) ==> final(self).counter() == old(self).counter()
                && final(self).given() == old(self).given()
                && final(self).room() == old(self).room(),
    {
        if keeps(outcome) {
            proof {
                lemma_number_set_len(self.used@);
                let g = self.given@.insert(self.count as int);
                assert(!self.given@.contains(self.count as int));
                lemma_range_covered(self.count + 1, self.used_set(), g);
            }
            self.given = Ghost(self.given@.insert(self.count as int));
            self.count = self.count + 1;
            self.room = self.room - 1;
        }
    }
}

/// The numbers offered to pending files in turn, where `taken[i]` says
/// whether the file offered the `i`-th number kept it.
pub fn assign_numbers(used: &Vec<usize>, taken: &Vec<bool>) -> (r: Vec<usize>)
    requires
        used.len() + taken.len() < usize::MAX,
    ensures
        offered_numbers(number_set(used@), taken@, r@.map_values(|u: usize| u as int)),
{
    let mut state = Numbering::new(used.clone(), taken.len());
    let mut r: Vec<usize> = Vec::new();
    let mut i: usize = 0;
    while i < taken.len()
        invariant
            i <= taken.len(),
            r.len() == i,
            state.wf(),
            state.used_set() == number_set(used@),
            state.room() >= taken.len() - i,
            i == 0 ==> state.counter() == 1,
            i > 0 ==> state.counter() == counter_after(taken@[i - 1], r@[i - 1] as int),
            offered_numbers(
                number_set(used@),
                taken@.take(i as int),
                r@.map_values(|u: usize| u as int),
            ),
        decreases taken.len() - i,
    {
        let n = state.offer();
        let outcome = if taken[i] {
            Outcome::Renamed
        } else {
            Outcome::Declined
        };
        state.settle(outcome);
        let ghost before = r@.map_values(|u: usize| u as int);
        r.push(n);
        i += 1;
        let ghost offers = r@.map_values(|u: usize| u as int);
        assert(offers =~= before.push(n as int));
        assert(taken@.take(i as int).drop_last() =~= taken@.take(i - 1));
        assert forall|j: int| 0 <= j < offers.len() - 1 implies is_next_free(
            number_set(used@),
            counter_after(taken@.take(i as int)[j], offers[j]),
            #[trigger] offers[j + 1],
        ) by {
            if j < offers.len() - 2 {
                assert(before[j + 1] == offers[j + 1]);
                assert(taken@.take(i - 1)[j] == taken@.take(i as int)[j]);
            }
        }
    }
    assert(taken@.take(i as int) =~= taken@);
    r
}

proof fn lemma_offers_grow(used: Set<int>, taken: Seq<bool>, offers: Seq<int>, i: int, j: int)
    requires
        offered_numbers(used, taken, offers),
        0 <= i < j < offers.len(),
    ensures
        offers[j] >= counter_after(taken[i], offers[i]),
    decreases j - i,
{
    if j > i + 1 {
        lemma_offers_grow(used, taken, offers, i, j - 1);
        let k = j - 1;
        assert(is_next_free(used, counter_after(taken[k], offers[k]), offers[k + 1]));
    } else {
        assert(is_next_free(used, counter_after(taken[i], offers[i]), offers[i + 1]));
    }
}

/// Numbers are never shared: no offered number is held by a conforming file,
/// each is at least 1, and two files that kept their numbers kept different ones.
pub proof fn lemma_numbers_unique(used: Set<int>, taken: Seq<bool>, offers: Seq<int>)
    requires
        offered_numbers(used, taken, offers),
    ensures
        forall|i: int| 0 <= i < offers.len() ==> !used.contains(#[trigger] offers[i]) && offers[i] >= 1,
        forall|i: int, j: int|
            0 <= i < offers.len() && 0 <= j < offers.len() && i != j && taken[i] && taken[j]
                ==> #[trigger] offers[i] != #[trigger] offers[j],
{
    assert forall|i: int| 0 <= i < offers.len() implies !used.contains(#[trigger] offers[i])
        && offers[i] >= 1 by {
        if i > 0 {
            let k = i - 1;
            assert(is_next_free(used, counter_after(taken[k], offers[k]), offers[k + 1]));
            lemma_offers_grow(used, taken, offers, 0, i);
        }
    }
    assert forall|i: int, j: int|
        0 <= i < offers.len() && 0 <= j < offers.len() && i != j && taken[i] && taken[j]
            implies #[trigger] offers[i] != #[trigger] offers[j] by {
        if i < j {
            lemma_offers_grow(used, taken, offers, i, j);
        } else {
            lemma_offers_grow(used, taken, offers, j, i);
        }
    }
}

/// A number that a file did not keep, declined or failed, is offered again
/// to the next file.
pub proof fn lemma_declined_number_reused(used: Set<int>, taken: Seq<bool>, offers: Seq<int>)
    requires
        offered_numbers(used, taken, offers),
    ensures
        forall|i: int| 0 <= i < offers.len() - 1 && !taken[i] ==> offers[i + 1] == #[trigger] offers[i],
{
    assert forall|i: int| 0 <= i < offers.len() - 1 && !taken[i] implies offers[i + 1]
        == #[trigger] offers[i] by {
        assert(is_next_free(used, counter_after(taken[i], offers[i]), offers[i + 1]));
        lemma_numbers_unique(used, taken, offers);
    }
}

} // verus!
