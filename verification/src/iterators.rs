//! The interface of every traversal: a single-pass sequence of accounts and
//! storage slots.

use crate::types::AccountStorageItem;
use vstd::prelude::*;

verus! {

/// A failure of the state source, which ends a traversal early.
#[derive(Clone, Debug, PartialEq, Eq)]
pub struct SourceError {
    pub message: String,
}

impl SourceError {
    /// A failure with the same message.
    pub fn duplicate(&self) -> (r: SourceError)
        ensures
            r == *self,
    {
        SourceError { message: self.message.clone() }
    }
}

/// A forward-only sequence of items that may end in a failure.
pub trait PreimageIterator {
    /// The items that are still to come, in their order.
    spec fn remaining(&self) -> Seq<AccountStorageItem>;

    /// The failure that follows the remaining items, where the sequence
    /// ends in one.
    spec fn failure(&self) -> Option<SourceError>;

    /// The iterator is in a state that it can be advanced from.
    spec fn valid(&self) -> bool;

    /// Hands out the next item, or the failure that ends the sequence, or
    /// nothing once the sequence is at its end.
    fn advance(&mut self) -> (r: Option<Result<AccountStorageItem, SourceError>>)
        requires
            old(self).valid(),
        ensures
            final(self).valid(),
            match r {
                Some(Ok(item)) => {
                    &&& old(self).remaining().len() > 0
                    &&& item == old(self).remaining()[0]
                    &&& final(self).remaining() == old(self).remaining().skip(1)
                    &&& final(self).failure() == old(self).failure()
                },
                Some(Err(e)) => {
                    &&& old(self).remaining().len() == 0
                    &&& old(self).failure() == Some(e)
                    &&& final(self).remaining().len() == 0
                    &&& final(self).failure() is None
                },
                None => {
                    &&& old(self).remaining().len() == 0
                    &&& old(self).failure() is None
                    &&& final(self).remaining().len() == 0
                    &&& final(self).failure() is None
                },
            },
    ;
}

/// The items at the front of `entries`, up to the first failure.
pub open spec fn items_before_failure(entries: Seq<Result<AccountStorageItem, SourceError>>)
    -> Seq<AccountStorageItem>
    decreases entries.len(),
{
    if entries.len() == 0 {
        Seq::empty()
    } else {
        match entries[0] {
            Ok(item) => seq![item] + items_before_failure(entries.skip(1)),
            Err(_) => Seq::empty(),
        }
    }
}

/// The first failure among `entries`, if there is one.
pub open spec fn first_failure(entries: Seq<Result<AccountStorageItem, SourceError>>) -> Option<
    SourceError,
>
    decreases entries.len(),
{
    if entries.len() == 0 {
        None
    } else {
        match entries[0] {
            Ok(_) => first_failure(entries.skip(1)),
            Err(e) => Some(e),
        }
    }
}

/// A recorded sequence: items, and the failures at which a traversal would
/// have ended. It hands out the items up to the first failure, then the
/// failure, then nothing.
pub struct Replay {
    entries: Vec<Result<AccountStorageItem, SourceError>>,
    next: usize,
}

impl Replay {
    /// The sequence that replays `entries`.
    pub fn new(entries: Vec<Result<AccountStorageItem, SourceError>>) -> (r: Replay)
        ensures
            r.valid(),
            r.remaining() == items_before_failure(entries@),
            r.failure() == first_failure(entries@),
    {
        let r = Replay { entries, next: 0 };
        assert(r.entries@.skip(0) == r.entries@);
        r
    }
}

impl PreimageIterator for Replay {
    closed spec fn remaining(&self) -> Seq<AccountStorageItem> {
        items_before_failure(self.entries@.skip(self.next as int))
    }

    closed spec fn failure(&self) -> Option<SourceError> {
        first_failure(self.entries@.skip(self.next as int))
    }

    closed spec fn valid(&self) -> bool {
        self.next <= self.entries@.len()
    }

    fn advance(&mut self) -> (r: Option<Result<AccountStorageItem, SourceError>>) {
        if self.next >= self.entries.len() {
            return None;
        }
        let ghost rest = self.entries@.skip(self.next as int);
        proof {
            assert(rest[0] == self.entries@[self.next as int]);
            assert(rest.skip(1) == self.entries@.skip(self.next + 1));
        }
        match &self.entries[self.next] {
            Ok(item) => {
                let item = *item;
                self.next = self.next + 1;
                Some(Ok(item))
            },
            Err(e) => {
                let e = e.duplicate();
                self.next = self.entries.len();
                proof {
                    assert(self.entries@.skip(self.next as int).len() == 0);
                }
                Some(Err(e))
            },
        }
    }
}

/// Reads the traversal `it` to its end and returns its items in order, or
/// the failure that ended it.
pub fn collect_items<I: PreimageIterator>(it: &mut I) -> (r: Result<
    Vec<AccountStorageItem>,
    SourceError,
>)
    requires
        old(it).valid(),
    ensures
        final(it).valid(),
        final(it).remaining().len() == 0,
        final(it).failure() is None,
        match r {
            Ok(items) => items@ == old(it).remaining() && old(it).failure() is None,
            Err(e) => old(it).failure() == Some(e),
        },
{
    let ghost all = it.remaining();
    let mut items: Vec<AccountStorageItem> = Vec::new();
    loop
        invariant
            it.valid(),
            it.failure() == old(it).failure(),
            all == old(it).remaining(),
            items@.len() <= all.len(),
            items@ == all.take(items@.len() as int),
            it.remaining() == all.skip(items@.len() as int),
        decreases all.len() - items@.len(),
    {
        match it.advance() {
            None => {
                assert(all.take(items@.len() as int) == all);
                return Ok(items);
            },
            Some(Err(e)) => {
                return Err(e);
            },
            Some(Ok(item)) => {
                proof {
                    let n = items@.len() as int;
                    assert(all.skip(n).skip(1) == all.skip(n + 1));
                    assert(all.take(n + 1) == all.take(n).push(all[n]));
                }
                items.push(item);
            },
        }
    }
}

} // verus!
