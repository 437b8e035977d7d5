//! Laws of the buffer, stated over the same model functions that the
//! contracts of `push` and `read` use.

use vstd::prelude::*;
use crate::{spec_push, spec_read, spec_read_result};

verus! {

/// The contents after pushing the elements of `items`, in order.
pub open spec fn push_all<T>(s: Seq<T>, cap: int, items: Seq<T>) -> Seq<T>
    decreases items.len(),
{
    if items.len() == 0 {
        s
    } else {
        push_all(spec_push(s, cap, items.first()), cap, items.drop_first())
    }
}

/// The results of `n` consecutive reads, in order.
pub open spec fn read_all<T>(s: Seq<T>, n: nat) -> Seq<Option<T>>
    decreases n,
{
    if n == 0 {
        Seq::empty()
    } else {
        seq![spec_read_result(s)] + read_all(spec_read(s), (n - 1) as nat)
    }
}

/// The contents after `n` consecutive reads.
pub open spec fn drain<T>(s: Seq<T>, n: nat) -> Seq<T>
    decreases n,
{
    if n == 0 {
        s
    } else {
        drain(spec_read(s), (n - 1) as nat)
    }
}

/// Capacity bound: starting from contents within capacity, no sequence of
/// pushes ever takes the contents past `cap` items.
pub proof fn lemma_capacity_bound<T>(s: Seq<T>, cap: int, items: Seq<T>)
    requires
        s.len() <= cap,
    ensures
        push_all(s, cap, items).len() <= cap,
    decreases items.len(),
{
    if items.len() > 0 {
        lemma_capacity_bound(spec_push(s, cap, items.first()), cap, items.drop_first());
    }
}

/// FIFO round trip: pushing `cap` items into an empty buffer in order, then
/// reading `cap` times, returns exactly those items in the same order.
pub proof fn lemma_fifo_round_trip<T>(items: Seq<T>, cap: int)
    requires
        items.len() == cap,
    ensures
        read_all(push_all(Seq::empty(), cap, items), items.len()) == items.map_values(
            |item: T| Some(item),
        ),
{
    lemma_push_all_in_capacity(Seq::empty(), cap, items);
    assert(Seq::empty() + items =~= items);
    lemma_read_all_prefix(items, items.len());
    assert(read_all(items, items.len()) =~= items.map_values(|item: T| Some(item)));
}

/// Idempotent emptiness: draining a full buffer of `cap` items with `cap`
/// reads leaves it empty, and a subsequent push of `item` followed by a read
/// returns exactly `item` and leaves the buffer empty again.
pub proof fn lemma_drain_then_push_read<T>(s: Seq<T>, cap: int, item: T)
    requires
        0 < cap,
        s.len() == cap,
    ensures
        drain(s, s.len()).len() == 0,
        spec_read_result(spec_push(drain(s, s.len()), cap, item)) == Some(item),
        spec_read(spec_push(drain(s, s.len()), cap, item)).len() == 0,
{
    lemma_drain_len(s, s.len());
    let drained = drain(s, s.len());
    let pushed = spec_push(drained, cap, item);
    assert(pushed == drained.push(item));
    assert(pushed.first() == item);
}

/// Pushes within capacity all succeed: they append their items in order.
proof fn lemma_push_all_in_capacity<T>(s: Seq<T>, cap: int, items: Seq<T>)
    requires
        s.len() + items.len() <= cap,
    ensures
        push_all(s, cap, items) == s + items,
    decreases items.len(),
{
    if items.len() == 0 {
        assert(s + items =~= s);
    } else {
        lemma_push_all_in_capacity(s.push(items.first()), cap, items.drop_first());
        assert(s.push(items.first()) + items.drop_first() =~= s + items);
    }
}

/// Reading `n <= s.len()` times returns the first `n` items of `s` in order.
proof fn lemma_read_all_prefix<T>(s: Seq<T>, n: nat)
    requires
        n <= s.len(),
    ensures
        read_all(s, n).len() == n,
        forall|j: int| 0 <= j < n ==> read_all(s, n)[j] == Some(s[j]),
    decreases n,
{
    if n > 0 {
        lemma_read_all_prefix(s.drop_first(), (n - 1) as nat);
        assert forall|j: int| 0 <= j < n implies read_all(s, n)[j] == Some(s[j]) by {
            if j > 0 {
                assert(read_all(s, n)[j] == read_all(s.drop_first(), (n - 1) as nat)[j - 1]);
                assert(s.drop_first()[j - 1] == s[j]);
            }
        }
    }
}

/// Draining `n <= s.len()` times removes exactly `n` items.
proof fn lemma_drain_len<T>(s: Seq<T>, n: nat)
    requires
        n <= s.len(),
    ensures
        drain(s, n).len() == s.len() - n,
    decreases n,
{
    if n > 0 {
        lemma_drain_len(s.drop_first(), (n - 1) as nat);
    }
}

} // verus!
