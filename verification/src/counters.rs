//! Lists of counters for the views: each counter is a signal of the view
//! layer, kept under a key, and the list's rows come and go.

use vstd::prelude::*;

verus! {

/// The reading end of a signal of the view layer. Nothing is known here of
/// what is inside one.
#[verifier::external_type_specification]
#[verifier::external_body]
#[verifier::reject_recursive_types(T)]
pub struct ExReadSignal<T: 'static>(leptos::ReadSignal<T>);

/// The writing end of a signal of the view layer. Nothing is known here of
/// what is inside one.
#[verifier::external_type_specification]
#[verifier::external_body]
#[verifier::reject_recursive_types(T)]
pub struct ExWriteSignal<T: 'static>(leptos::WriteSignal<T>);

/// A signal of the view layer, with the value it was started at.
#[derive(Clone, Copy)]
pub struct Started {
    /// What the signal held when it was made.
    pub start: usize,
    /// The reading end.
    pub count: leptos::ReadSignal<usize>,
    /// The writing end.
    pub set_count: leptos::WriteSignal<usize>,
}

/// One row of a list of counters: its key and its signal.
pub type Counter = (usize, Started);

/// Calls `leptos::create_signal` with `start` and keeps `start` beside the
/// two ends that come back. Of the signal itself nothing is claimed: it
/// lives in the view layer's own runtime, which is not modelled here. The
/// one clause says that the record holds the value that was handed to the
/// call.
#[verifier::external_body]
fn new_signal(start: usize) -> (made: Started)
    ensures
        made.start == start,
{
    let (count, set_count) = leptos::create_signal(start);
    Started { start, count, set_count }
}

/// Calls `leptos::SignalDispose::dispose` on the reading end: the signal
/// is released before the scope that owns it is. Nothing is claimed of
/// the runtime afterwards.
#[verifier::external_body]
fn drop_signal(signal: leptos::ReadSignal<usize>) {
    leptos::SignalDispose::dispose(signal)
}

/// The rows of `list` whose key is not `id`, in their order.
pub open spec fn without(list: Seq<Counter>, id: usize) -> Seq<Counter>
    decreases list.len(),
{
    if list.len() == 0 {
        list
    } else if list.last().0 == id {
        without(list.drop_last(), id)
    } else {
        without(list.drop_last(), id).push(list.last())
    }
}

/// The rows of `list` whose key is `id`, in their order.
pub open spec fn only(list: Seq<Counter>, id: usize) -> Seq<Counter>
    decreases list.len(),
{
    if list.len() == 0 {
        list
    } else if list.last().0 == id {
        only(list.drop_last(), id).push(list.last())
    } else {
        only(list.drop_last(), id)
    }
}

/// What is left when the rows with a key are taken out: no row with that
/// key, no more rows than before, and the list itself if no row had the
/// key.
pub proof fn lemma_without(list: Seq<Counter>, id: usize)
    ensures
        without(list, id).len() + only(list, id).len() == list.len(),
        forall|j: int| 0 <= j < only(list, id).len() ==> (#[trigger] only(list, id)[j]).0 == id,
        forall|j: int| 0 <= j < without(list, id).len() ==> (#[trigger] without(list, id)[j]).0 != id,
        (forall|i: int| 0 <= i < list.len() ==> (#[trigger] list[i]).0 != id) ==> without(list, id)
            == list,
    decreases list.len(),
{
    if list.len() > 0 {
        lemma_without(list.drop_last(), id);
        if forall|i: int| 0 <= i < list.len() ==> (#[trigger] list[i]).0 != id {
            assert forall|i: int| 0 <= i < list.drop_last().len() implies (
            #[trigger] list.drop_last()[i]).0 != id by {
                assert(list[i].0 != id);
            }
            assert(list.drop_last().push(list.last()) =~= list);
        }
    }
}

/// A list of `length` counters with the keys 0, 1, 2, ..., each started
/// one above its key.
pub fn initial(length: usize) -> (list: Vec<Counter>)
    ensures
        list@.len() == length,
        forall|i: int|
            0 <= i < length ==> (#[trigger] list@[i]).0 == i && list@[i].1.start == i + 1,
{
    let mut list: Vec<Counter> = Vec::new();
    let mut id: usize = 0;
    while id < length
        invariant
            id <= length,
            list@.len() == id,
            forall|i: int| 0 <= i < id ==> (#[trigger] list@[i]).0 == i && list@[i].1.start == i + 1,
        decreases length - id,
    {
        let made = new_signal(id + 1);
        list.push((id, made));
        id += 1;
    }
    list
}

/// A list of `length` signals, started at 1, 2, 3, ...
pub fn fixed(length: usize) -> (list: Vec<Started>)
    ensures
        list@.len() == length,
        forall|i: int| 0 <= i < length ==> (#[trigger] list@[i]).start == i + 1,
{
    let mut list: Vec<Started> = Vec::new();
    let mut n: usize = 0;
    while n < length
        invariant
            n <= length,
            list@.len() == n,
            forall|i: int| 0 <= i < n ==> (#[trigger] list@[i]).start == i + 1,
        decreases length - n,
    {
        list.push(new_signal(n + 1));
        n += 1;
    }
    list
}

/// Adds a counter with the key `next_id`, started one above it, at the
/// end of the list, and returns the key for the counter after it.
pub fn add(list: &mut Vec<Counter>, next_id: usize) -> (following: usize)
    requires
        next_id < usize::MAX,
    ensures
        following == next_id + 1,
        final(list)@.len() == old(list)@.len() + 1,
        final(list)@.drop_last() == old(list)@,
        final(list)@.last().0 == next_id,
        final(list)@.last().1.start == next_id + 1,
{
    let made = new_signal(next_id + 1);
    list.push((next_id, made));
    assert(list@.drop_last() =~= old(list)@);
    next_id + 1
}

/// Takes the counters with the key `id` out of the list and hands them
/// back. The other rows stay as they are, in their order.
pub fn take_out(list: &mut Vec<Counter>, id: usize) -> (leaving: Vec<Counter>)
    ensures
        final(list)@ == without(old(list)@, id),
        leaving@ == only(old(list)@, id),
{
    let mut kept: Vec<Counter> = Vec::new();
    let mut leaving: Vec<Counter> = Vec::new();
    let n = list.len();
    let mut i: usize = 0;
    while i < n
        invariant
            i <= n,
            n == list@.len(),
            list@ == old(list)@,
            kept@ == without(list@.take(i as int), id),
            leaving@ == only(list@.take(i as int), id),
        decreases n - i,
    {
        let row = list[i];
        proof {
            assert(list@.take(i + 1).drop_last() =~= list@.take(i as int));
            assert(list@.take(i + 1).last() == row);
        }
        if row.0 == id {
            leaving.push(row);
        } else {
            kept.push(row);
        }
        i += 1;
    }
    proof {
        assert(list@.take(n as int) =~= list@);
    }
    *list = kept;
    leaving
}

/// Takes the counters with the key `id` out of the list, releases the
/// signal of each of them, in their order, and hands back the rows whose
/// signals were released. The other rows stay as they are, in their
/// order.
pub fn remove(list: &mut Vec<Counter>, id: usize) -> (released: Vec<Counter>)
    ensures
        final(list)@ == without(old(list)@, id),
        released@ == only(old(list)@, id),
{
    let leaving = take_out(list, id);
    let n = leaving.len();
    let mut i: usize = 0;
    while i < n
        invariant
            i <= n,
            n == leaving@.len(),
        decreases n - i,
    {
        drop_signal(leaving[i].1.count);
        i += 1;
    }
    leaving
}

} // verus!
