//! The event queue as a sequence of descriptors: how often it names one, and
//! the queue with the oldest naming of one taken out.

use vstd::prelude::*;

verus! {

/// How often `events` names descriptor `d`.
pub open spec fn occurrences(events: Seq<i32>, d: i32) -> nat
    decreases events.len(),
{
    if events.len() == 0 {
        0
    } else if events[0] == d {
        1 + occurrences(events.drop_first(), d)
    } else {
        occurrences(events.drop_first(), d)
    }
}

/// `events` without the first of its entries that names `d`; `events` itself
/// where none does.
pub open spec fn without_first(events: Seq<i32>, d: i32) -> Seq<i32>
    decreases events.len(),
{
    if events.len() == 0 {
        events
    } else if events[0] == d {
        events.drop_first()
    } else {
        seq![events[0]] + without_first(events.drop_first(), d)
    }
}

/// One more entry at the end names its own descriptor once more and no
/// other.
pub proof fn lemma_occurrences_push(events: Seq<i32>, last: i32, d: i32)
    ensures
        occurrences(events.push(last), d) == occurrences(events, d) + (if last == d {
            1nat
        } else {
            0nat
        }),
    decreases events.len(),
{
    if events.len() == 0 {
        assert(events.push(last).drop_first() =~= Seq::<i32>::empty());
        assert(occurrences(events.push(last).drop_first(), d) == 0);
    } else {
        lemma_occurrences_push(events.drop_first(), last, d);
        assert(events.push(last).drop_first() =~= events.drop_first().push(last));
    }
}

/// A queue names a descriptor as often as its front and its back name it
/// together.
pub proof fn lemma_occurrences_split(events: Seq<i32>, n: int, d: i32)
    requires
        0 <= n <= events.len(),
    ensures
        occurrences(events, d) == occurrences(events.take(n), d) + occurrences(events.skip(n), d),
    decreases n,
{
    if n == 0 {
        assert(events.take(0) =~= Seq::<i32>::empty());
        assert(events.skip(0) =~= events);
    } else {
        lemma_occurrences_split(events.drop_first(), n - 1, d);
        assert(events.take(n).drop_first() =~= events.drop_first().take(n - 1));
        assert(events.skip(n) =~= events.drop_first().skip(n - 1));
    }
}

/// A queue that names a descriptor holds it, and the other way round.
pub proof fn lemma_occurrences_contains(events: Seq<i32>, d: i32)
    ensures
        occurrences(events, d) > 0 <==> events.contains(d),
    decreases events.len(),
{
    if events.len() > 0 {
        lemma_occurrences_contains(events.drop_first(), d);
        if events[0] != d {
            if events.contains(d) {
                let i = choose|i: int| 0 <= i < events.len() && events[i] == d;
                assert(events.drop_first()[i - 1] == d);
            }
            if events.drop_first().contains(d) {
                let i = choose|i: int|
                    0 <= i < events.drop_first().len() && events.drop_first()[i] == d;
                assert(events[i + 1] == d);
            }
        }
    }
}

/// Taking out the first naming of `d` takes one from how often `d` is named,
/// leaves every other descriptor named as often as before, and brings in no
/// entry that was not there.
pub proof fn lemma_without_first(events: Seq<i32>, d: i32)
    ensures
        occurrences(events, d) > 0 ==> occurrences(without_first(events, d), d) + 1 == occurrences(
            events,
            d,
        ),
        occurrences(events, d) == 0 ==> without_first(events, d) == events,
        forall|e: i32|
            e != d ==> #[trigger] occurrences(without_first(events, d), e) == occurrences(
                events,
                e,
            ),
        forall|x: i32| #[trigger] without_first(events, d).contains(x) ==> events.contains(x),
    decreases events.len(),
{
    if events.len() > 0 {
        let rest = events.drop_first();
        lemma_without_first(rest, d);
        let taken = without_first(events, d);
        assert forall|e: i32| e != d implies #[trigger] occurrences(taken, e) == occurrences(
            events,
            e,
        ) by {
            if events[0] != d {
                assert(taken.drop_first() =~= without_first(rest, d));
                assert(taken[0] == events[0]);
                assert(occurrences(without_first(rest, d), e) == occurrences(rest, e));
            }
        }
        if events[0] == d {
            assert forall|x: i32| #[trigger] rest.contains(x) implies events.contains(x) by {
                let i = choose|i: int| 0 <= i < rest.len() && rest[i] == x;
                assert(events[i + 1] == x);
            }
        } else {
            let out = without_first(events, d);
            assert(out.drop_first() =~= without_first(rest, d));
            assert(out[0] == events[0]);
            if occurrences(events, d) == 0 {
                assert(out =~= events);
            }
            assert forall|x: i32| #[trigger] out.contains(x) implies events.contains(x) by {
                let i = choose|i: int| 0 <= i < out.len() && out[i] == x;
                if i == 0 {
                    assert(events[0] == x);
                } else {
                    assert(without_first(rest, d)[i - 1] == x);
                    assert(without_first(rest, d).contains(x));
                    let j = choose|j: int| 0 <= j < rest.len() && rest[j] == x;
                    assert(events[j + 1] == x);
                }
            }
        }
    }
}

/// How often `events` names `d`.
pub fn count_of(events: &Vec<i32>, d: i32) -> (n: usize)
    ensures
        n == occurrences(events@, d),
{
    let mut n: usize = 0;
    let mut i: usize = 0;
    assert(events@.skip(0) =~= events@);
    while i < events.len()
        invariant
            i <= events@.len(),
            n <= i,
            occurrences(events@, d) == n + occurrences(events@.skip(i as int), d),
        decreases events@.len() - i,
    {
        assert(events@.skip(i as int).drop_first() =~= events@.skip(i + 1));
        if events[i] == d {
            n = n + 1;
        }
        i = i + 1;
    }
    n
}

/// Takes the first entry that names `d` out of `events`.
pub fn remove_first(events: &mut Vec<i32>, d: i32)
    ensures
        final(events)@ == without_first(old(events)@, d),
{
    let mut i: usize = 0;
    assert(events@.skip(0) =~= events@);
    assert(events@.take(0) + without_first(events@, d) =~= without_first(events@, d));
    while i < events.len()
        invariant
            i <= events@.len(),
            events@ == old(events)@,
            without_first(events@, d) == events@.take(i as int) + without_first(
                events@.skip(i as int),
                d,
            ),
        decreases events@.len() - i,
    {
        assert(events@.skip(i as int).drop_first() =~= events@.skip(i + 1));
        if events[i] == d {
            assert(without_first(events@, d) =~= events@.remove(i as int));
            events.remove(i);
            return ;
        }
        assert(events@.take(i as int) + (seq![events@[i as int]] + without_first(
            events@.skip(i + 1),
            d,
        )) =~= events@.take(i + 1) + without_first(events@.skip(i + 1), d));
        i = i + 1;
    }
    assert(without_first(events@.skip(i as int), d) =~= Seq::<i32>::empty());
    assert(events@.take(i as int) =~= events@);
}

} // verus!
