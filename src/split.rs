use vstd::prelude::*;
use rand::seq::SliceRandom;
use crate::SplitStrategy;

verus! {

/// Relies on rand's SliceRandom::shuffle with the thread-local generator:
/// the items are put in a random order, none added or lost.
#[verifier::external_body]
fn shuffle_in_place(items: &mut Vec<String>)
    ensures
        final(items)@.to_multiset() == old(items)@.to_multiset(),
{
    items.shuffle(&mut rand::rng());
}

/// The first `at` items go to training, the rest to testing, order kept.
pub fn partition_at(items: Vec<String>, at: usize) -> (r: (Vec<String>, Vec<String>))
    requires
        at <= items@.len(),
    ensures
        r.0@ == items@.take(at as int),
        r.1@ == items@.skip(at as int),
{
    let mut train = items;
    let test = train.split_off(at);
    (train, test)
}

/// Shuffles `items` and cuts them so that `train_len` go to training.
pub fn plan_split(items: Vec<String>, train_len: usize) -> (r: (Vec<String>, Vec<String>))
    requires
        train_len <= items@.len(),
    ensures
        r.0@.len() == train_len,
        r.1@.len() == items@.len() - train_len,
        (r.0@ + r.1@).to_multiset() == items@.to_multiset(),
{
    let mut shuffled = items;
    shuffle_in_place(&mut shuffled);
    proof {
        shuffled@.to_multiset_ensures();
        items@.to_multiset_ensures();
    }
    let ghost all = shuffled@;
    let r = partition_at(shuffled, train_len);
    assert(r.0@ + r.1@ =~= all);
    r
}

/// Progress is reported after every tenth file, not at the first.
pub fn progress_due(i: usize) -> (r: bool)
    ensures
        r == (i > 0 && i % 10 == 0),
{
    i > 0 && i % 10 == 0
}

/// The icon that progress lines show for a strategy.
pub fn strategy_icon(strategy: SplitStrategy) -> (r: &'static str)
    ensures
        r == match strategy {
            SplitStrategy::Copy => "📑",
            SplitStrategy::HardLink => "🔗",
            SplitStrategy::Move => "🚚",
        },
{
    match strategy {
        SplitStrategy::Copy => "📑",
        SplitStrategy::HardLink => "🔗",
        SplitStrategy::Move => "🚚",
    }
}

} // verus!
