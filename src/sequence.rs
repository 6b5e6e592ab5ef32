//! Pure edits of a word sequence: each returns a fresh vector and leaves its input alone.
use vstd::prelude::*;

verus! {

/// Appends clones of `list[from..to]` to `items`.
fn push_range(items: &mut Vec<String>, list: &[String], from: usize, to: usize)
    requires
        from <= to <= list@.len(),
    ensures
        final(items)@ == old(items)@ + list@.subrange(from as int, to as int),
{
    let mut i: usize = from;
    while i < to
        invariant
            from <= i <= to <= list@.len(),
            items@ == old(items)@ + list@.subrange(from as int, i as int),
        decreases to - i,
    {
        items.push(list[i].clone());
        assert(list@.subrange(from as int, i + 1) == list@.subrange(from as int, i as int).push(list@[i as int]));
        i += 1;
    }
}

/// The first two words, in order.
pub fn first_two(list: &[String]) -> (r: Vec<String>)
    requires
        list@.len() >= 2,
    ensures
        r@ == seq![list@[0], list@[1]],
{
    let mut items: Vec<String> = Vec::new();
    push_range(&mut items, list, 0, 2);
    assert(items@ =~= seq![list@[0], list@[1]]);
    items
}

/// The last two words, in order.
pub fn last_two(list: &[String]) -> (r: Vec<String>)
    requires
        list@.len() >= 2,
    ensures
        r@ == seq![list@[list@.len() - 2], list@[list@.len() - 1]],
{
    let mut items: Vec<String> = Vec::new();
    push_range(&mut items, list, list.len() - 2, list.len());
    assert(items@ =~= seq![list@[list@.len() - 2], list@[list@.len() - 1]]);
    items
}

/// The words with the first two moved to the end: `list[2..] ++ list[0..2]`.
pub fn moved_first_two_to_the_end(list: &[String]) -> (r: Vec<String>)
    requires
        list@.len() >= 2,
    ensures
        r@ == list@.subrange(2, list@.len() as int) + list@.subrange(0, 2),
        r@.len() == list@.len(),
        r@.to_multiset() == list@.to_multiset(),
{
    let mut items: Vec<String> = Vec::with_capacity(list.len());
    push_range(&mut items, list, 2, list.len());
    push_range(&mut items, list, 0, 2);
    assert(items@ =~= list@.subrange(2, list@.len() as int) + list@.subrange(0, 2));
    proof {
        let front = list@.subrange(0, 2);
        let back = list@.subrange(2, list@.len() as int);
        assert(list@ =~= front + back);
        vstd::seq_lib::lemma_seq_union_to_multiset_commutative(back, front);
    }
    items
}

/// The words with `element` placed just before the last one:
/// `list[0..len-1] ++ [element] ++ [list[len-1]]`.
pub fn inserted_before_last(list: &[String], element: String) -> (r: Vec<String>)
    requires
        list@.len() >= 1,
    ensures
        r@ == list@.subrange(0, list@.len() - 1) + seq![element, list@[list@.len() - 1]],
        r@.len() == list@.len() + 1,
{
    let n: usize = list.len();
    let mut items: Vec<String> = Vec::new();
    push_range(&mut items, list, 0, n - 1);
    items.push(element);
    items.push(list[n - 1].clone());
    assert(items@ =~= list@.subrange(0, list@.len() - 1) + seq![element, list@[list@.len() - 1]]);
    items
}

} // verus!
