//! The pair registry: the process-wide map from pair identifier to order
//! book, and the routing of submissions and cancellations to the right book.

use vstd::prelude::*;
use crate::field::Field;
use crate::order::{CoreError, Side};
use crate::order_book::{apply_cancel, apply_submit, empty_book, BookView, OrderBook, SubmitOutcome};
use crate::pair::Pair;

verus! {

/// The observable state of the exchange: the registered pair keys (as byte
/// sequences), their display names, and their book states, position by
/// position.
#[verifier::ext_equal]
pub struct ExchangeView {
    pub keys: Seq<Seq<u8>>,
    pub names: Seq<Seq<char>>,
    pub books: Seq<BookView>,
}

impl ExchangeView {
    /// Registry invariant: the three columns line up, keys are unique, and
    /// every book is well-formed.
    pub open spec fn wf(self) -> bool {
        &&& self.names.len() == self.keys.len()
        &&& self.books.len() == self.keys.len()
        &&& (forall|i: int, j: int|
            0 <= i < j < self.keys.len() ==> self.keys[i] != self.keys[j])
        &&& (forall|i: int| 0 <= i < self.books.len() ==> (#[trigger] self.books[i]).wf())
    }

    /// A pair with this key is registered.
    pub open spec fn has_pair(self, key: Seq<u8>) -> bool {
        exists|i: int| 0 <= i < self.keys.len() && self.keys[i] == key
    }

    /// The position of the pair with this key; meaningful only when the key
    /// is registered (with unique keys there is exactly one).
    pub open spec fn index_of(self, key: Seq<u8>) -> int {
        choose|i: int| 0 <= i < self.keys.len() && self.keys[i] == key
    }

    /// The book state of the pair with this key.
    pub open spec fn book_at(self, key: Seq<u8>) -> BookView {
        self.books[self.index_of(key)]
    }
}

/// Represents the exchange itself: it owns one order book per registered
/// pair and routes every request by the pair's identifier key.
pub struct Exchange {
    /// The identifier key of each registered pair.
    keys: Vec<Field>,
    /// The pair (name and order book) at the same position as its key.
    pairs: Vec<Pair>,
}

impl View for Exchange {
    type V = ExchangeView;

    closed spec fn view(&self) -> ExchangeView {
        ExchangeView {
            keys: Seq::new(self.keys@.len(), |i: int| self.keys@[i]@),
            names: Seq::new(self.pairs@.len(), |i: int| self.pairs@[i].name@),
            books: Seq::new(self.pairs@.len(), |i: int| self.pairs@[i].order_book@),
        }
    }
}

impl Exchange {
    /// Creates an exchange with no pairs.
    pub fn new() -> (r: Exchange)
        ensures
            r@.wf(),
            r@.keys.len() == 0,
    {
        Exchange { keys: Vec::new(), pairs: Vec::new() }
    }

    /// The number of registered pairs.
    pub fn pair_count(&self) -> (r: usize)
        ensures
            r == self@.keys.len(),
    {
        self.keys.len()
    }

    /// Finds the position of a registered pair key.
    fn find(&self, key: &Field) -> (r: Option<usize>)
        requires
            self@.wf(),
        ensures
            r matches Some(i) ==> i < self@.keys.len() && self@.keys[i as int] == key@
                && self@.index_of(key@) == i,
            r is None ==> !self@.has_pair(key@),
    {
        let mut i: usize = 0;
        while i < self.keys.len()
            invariant
                i <= self.keys@.len(),
                self@.keys.len() == self.keys@.len(),
                forall|j: int| 0 <= j < self@.keys.len() ==> self@.keys[j] == self.keys@[j]@,
                forall|j: int| 0 <= j < i ==> self@.keys[j] != key@,
                self@.wf(),
            decreases self.keys@.len() - i,
        {
            if self.keys[i].equals(key) {
                proof {
                    let w = self@.index_of(key@);
                    assert(self@.keys[i as int] == key@);
                    assert(0 <= w < self@.keys.len() && self@.keys[w] == key@);
                    if w != i {
                        assert(self@.keys[w] != self@.keys[i as int]);
                    }
                }
                return Some(i);
            }
            i += 1;
        }
        proof {
            if self@.has_pair(key@) {
                let w = choose|w: int| 0 <= w < self@.keys.len() && self@.keys[w] == key@;
            }
        }
        None
    }

    /// Looks up the order book of a registered pair, for read-only
    /// observation; absence signals an unknown pair to the caller.
    pub fn route(&self, pair_key: &Field) -> (r: Option<&OrderBook>)
        requires
            self@.wf(),
        ensures
            r matches Some(book) ==> self@.has_pair(pair_key@) && book@ == self@.book_at(
                pair_key@,
            ),
            r is None ==> !self@.has_pair(pair_key@),
    {
        match self.find(pair_key) {
            Some(i) => Some(&self.pairs[i].order_book),
            None => None,
        }
    }

    /// Registers a new pair under `hash_of_token_ids` with an empty order
    /// book.  A key that is already registered is rejected with
    /// `DuplicatePair` and nothing changes: a pair is never overwritten.
    pub fn add_pair(&mut self, name: String, hash_of_token_ids: Field) -> (r: Result<
        (),
        CoreError,
    >)
        requires
            old(self)@.wf(),
        ensures
            final(self)@.wf(),
            r is Ok <==> !old(self)@.has_pair(hash_of_token_ids@),
            r is Ok ==> final(self)@.keys == old(self)@.keys.push(hash_of_token_ids@)
                && final(self)@.names == old(self)@.names.push(name@)
                && final(self)@.books == old(self)@.books.push(empty_book()),
            r is Err ==> r == Result::<(), CoreError>::Err(CoreError::DuplicatePair)
                && final(self)@ == old(self)@,
    {
        let ghost v0 = self@;
        if self.find(&hash_of_token_ids).is_some() {
            return Err(CoreError::DuplicatePair);
        }
        self.keys.push(hash_of_token_ids);
        let pair = Pair::new(name);
        self.pairs.push(pair);
        proof {
            assert(self@.keys =~= v0.keys.push(hash_of_token_ids@));
            assert(self@.names =~= v0.names.push(pair.name@));
            assert(self@.books =~= v0.books.push(empty_book()));
            assert forall|i: int, j: int| 0 <= i < j < self@.keys.len() implies self@.keys[i]
                != self@.keys[j] by {
                if j == self@.keys.len() - 1 {
                    assert(self@.keys[i] == v0.keys[i]);
                    assert(!v0.has_pair(hash_of_token_ids@));
                }
            }
        }
        Ok(())
    }

    /// Routes a submission to the pair's book.  An unregistered key is
    /// rejected with `UnknownPair`; otherwise the book's own `submit`
    /// decides, and only that pair's book changes.
    pub fn submit(
        &mut self,
        pair_key: &Field,
        side: Side,
        price: u64,
        amount: u64,
        maker: Field,
    ) -> (r: Result<SubmitOutcome, CoreError>)
        requires
            old(self)@.wf(),
            old(self)@.has_pair(pair_key@)
                ==> old(self)@.book_at(pair_key@).next_sequence < u64::MAX,
        ensures
            final(self)@.wf(),
            !old(self)@.has_pair(pair_key@) ==> r == Result::<SubmitOutcome, CoreError>::Err(
                CoreError::UnknownPair,
            ) && final(self)@ == old(self)@,
            old(self)@.has_pair(pair_key@) ==> ({
                let e = apply_submit(old(self)@.book_at(pair_key@), side, price, amount, maker);
                &&& final(self)@.keys == old(self)@.keys
                &&& final(self)@.names == old(self)@.names
                &&& final(self)@.books == old(self)@.books.update(
                    old(self)@.index_of(pair_key@),
                    e.book,
                )
                &&& (r is Ok <==> price > 0 && amount > 0)
                &&& (r matches Ok(o) ==> o.sequence == e.sequence && o.trades@ == e.trades
                    && o.residual == e.residual)
                &&& (r is Err ==> r == Result::<SubmitOutcome, CoreError>::Err(
                    CoreError::InvalidOrder,
                ))
            }),
    {
        let ghost v0 = self@;
        let idx = match self.find(pair_key) {
            Some(i) => i,
            None => {
                return Err(CoreError::UnknownPair);
            },
        };
        let mut pair = self.pairs.remove(idx);
        let outcome = pair.order_book.submit(side, price, amount, maker);
        let ghost pv = pair;
        self.pairs.insert(idx, pair);
        proof {
            assert(self.pairs@ =~= old(self).pairs@.update(idx as int, pv));
            assert(self@.keys =~= v0.keys);
            assert(self@.names =~= v0.names);
            assert(self@.books =~= v0.books.update(idx as int, pv.order_book@));
        }
        outcome
    }

    /// Routes a cancellation to the pair's book.  An unregistered key is
    /// rejected with `UnknownPair`; otherwise the report says whether an
    /// order with that sequence number was resting, and only that pair's
    /// book changes.
    pub fn cancel(&mut self, pair_key: &Field, sequence: u64) -> (r: Result<bool, CoreError>)
        requires
            old(self)@.wf(),
        ensures
            final(self)@.wf(),
            !old(self)@.has_pair(pair_key@) ==> r == Result::<bool, CoreError>::Err(
                CoreError::UnknownPair,
            ) && final(self)@ == old(self)@,
            old(self)@.has_pair(pair_key@) ==> ({
                let b = old(self)@.book_at(pair_key@);
                &&& final(self)@.keys == old(self)@.keys
                &&& final(self)@.names == old(self)@.names
                &&& final(self)@.books == old(self)@.books.update(
                    old(self)@.index_of(pair_key@),
                    apply_cancel(b, sequence),
                )
                &&& r == Result::<bool, CoreError>::Ok(b.has_sequence(sequence))
            }),
    {
        let ghost v0 = self@;
        let idx = match self.find(pair_key) {
            Some(i) => i,
            None => {
                return Err(CoreError::UnknownPair);
            },
        };
        let mut pair = self.pairs.remove(idx);
        let found = pair.order_book.cancel(sequence);
        let ghost pv = pair;
        self.pairs.insert(idx, pair);
        proof {
            assert(self.pairs@ =~= old(self).pairs@.update(idx as int, pv));
            assert(self@.keys =~= v0.keys);
            assert(self@.names =~= v0.names);
            assert(self@.books =~= v0.books.update(idx as int, pv.order_book@));
        }
        Ok(found)
    }
}

} // verus!
