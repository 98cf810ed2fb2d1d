//! The order book of a single pair: two ordered collections of resting
//! orders and the matching operations on them.

use vstd::prelude::*;
use crate::field::Field;
use crate::matching::{
    distinct_seqs, has_seq, insert_order, lemma_insert_props, lemma_match_props,
    lemma_remove_props, lemma_side_ok_mono, match_against, remove_sequence, shrunk_from, side_ok,
    sorted, sum_amounts,
};
use crate::order::{marketable, opposite, prior, CoreError, Order, Side, Trade};

verus! {

/// The mathematical state of one book: both sides best-first, the last trade
/// price, and the next sequence number to issue.
#[verifier::ext_equal]
pub struct BookView {
    pub bids: Seq<Order>,
    pub asks: Seq<Order>,
    pub last_price: Option<u64>,
    pub next_sequence: u64,
}

impl BookView {
    /// The resting orders of one side, best first.
    pub open spec fn on_side(self, side: Side) -> Seq<Order> {
        match side {
            Side::Buy => self.bids,
            Side::Sell => self.asks,
        }
    }

    /// Some resting order of the book carries the sequence number `q`.
    pub open spec fn has_sequence(self, q: u64) -> bool {
        has_seq(self.bids, q) || has_seq(self.asks, q)
    }

    /// The sum of all resting amounts, as an unbounded integer.
    pub open spec fn amount_total(self) -> int {
        sum_amounts(self.bids) + sum_amounts(self.asks)
    }

    /// The book invariant: each side is sorted best-first with FIFO ties,
    /// holds only live orders of its own side with issued sequence numbers,
    /// no sequence number appears twice anywhere, and the two sides do not
    /// cross while the book is at rest.
    pub open spec fn wf(self) -> bool {
        &&& sorted(Side::Buy, self.bids)
        &&& sorted(Side::Sell, self.asks)
        &&& side_ok(Side::Buy, self.bids, self.next_sequence)
        &&& side_ok(Side::Sell, self.asks, self.next_sequence)
        &&& distinct_seqs(self.bids)
        &&& distinct_seqs(self.asks)
        &&& (forall|i: int, j: int|
            0 <= i < self.bids.len() && 0 <= j < self.asks.len() ==> (#[trigger] self.bids[i]).sequence
                != (#[trigger] self.asks[j]).sequence)
        &&& (self.bids.len() > 0 && self.asks.len() > 0 ==> self.bids[0].price < self.asks[0].price)
    }
}

/// The state of a freshly created book: empty sides, no last trade, and
/// sequence numbers issued from 1 up.
pub open spec fn empty_book() -> BookView {
    BookView { bids: Seq::empty(), asks: Seq::empty(), last_price: None, next_sequence: 1 }
}

/// The best resting bid price of a book state, if any.
pub open spec fn spec_best_bid(b: BookView) -> Option<u64> {
    if b.bids.len() > 0 {
        Some(b.bids[0].price)
    } else {
        None
    }
}

/// The best resting ask price of a book state, if any.
pub open spec fn spec_best_ask(b: BookView) -> Option<u64> {
    if b.asks.len() > 0 {
        Some(b.asks[0].price)
    } else {
        None
    }
}

/// What one `submit` call does to a book state: nothing for an inadmissible
/// order; otherwise the next sequence number is issued, the incoming order is
/// matched against the opposite side, a positive residual is rested on its
/// own side, and the last trade price is updated when anything traded.
#[verifier::ext_equal]
pub struct SubmitEffect {
    pub book: BookView,
    pub sequence: u64,
    pub trades: Seq<Trade>,
    pub residual: u64,
}

/// The specification of `OrderBook::submit` as a function of the book state.
pub open spec fn apply_submit(
    b: BookView,
    side: Side,
    price: u64,
    amount: u64,
    maker: Field,
) -> SubmitEffect {
    if price == 0 || amount == 0 {
        SubmitEffect { book: b, sequence: 0, trades: Seq::empty(), residual: amount }
    } else {
        let sq = b.next_sequence;
        let m = match_against(side, price, amount, sq, maker, b.on_side(opposite(side)));
        let own = if m.remaining > 0 {
            insert_order(
                side,
                b.on_side(side),
                Order { side, price, amount: m.remaining, maker, sequence: sq },
            )
        } else {
            b.on_side(side)
        };
        let last = if m.trades.len() > 0 {
            Some(m.trades.last().price)
        } else {
            b.last_price
        };
        SubmitEffect {
            book: BookView {
                bids: if side is Buy { own } else { m.opp },
                asks: if side is Buy { m.opp } else { own },
                last_price: last,
                next_sequence: (sq + 1) as u64,
            },
            sequence: sq,
            trades: m.trades,
            residual: m.remaining,
        }
    }
}

/// The specification of `OrderBook::cancel`: the resting order carrying the
/// sequence number leaves its side, and nothing else changes.
pub open spec fn apply_cancel(b: BookView, q: u64) -> BookView {
    BookView {
        bids: remove_sequence(b.bids, q),
        asks: remove_sequence(b.asks, q),
        last_price: b.last_price,
        next_sequence: b.next_sequence,
    }
}

/// What `submit` hands back to the caller on success.
pub struct SubmitOutcome {
    /// The sequence number the book assigned to the incoming order.
    pub sequence: u64,
    /// The trades generated, in execution order.
    pub trades: Vec<Trade>,
    /// The incoming order's unmatched amount; 0 when fully filled.
    pub residual: u64,
}

/// The order book of a single pair: resting bids and asks, each kept sorted
/// best-price-first with FIFO ties, and the last executed trade's price.
pub struct OrderBook {
    /// Last executed trade's price.
    last_price: Option<u64>,
    /// The next sequence number to assign; grows by one per admitted order.
    next_sequence: u64,
    /// Resting buy orders, best (highest price, then earliest) first.
    bids: Vec<Order>,
    /// Resting sell orders, best (lowest price, then earliest) first.
    asks: Vec<Order>,
}

impl View for OrderBook {
    type V = BookView;

    closed spec fn view(&self) -> BookView {
        BookView {
            bids: self.bids@,
            asks: self.asks@,
            last_price: self.last_price,
            next_sequence: self.next_sequence,
        }
    }
}

impl OrderBook {
    /// Creates an empty book.
    pub fn new() -> (r: OrderBook)
        ensures
            r@ == empty_book(),
            r@.wf(),
    {
        let r = OrderBook { last_price: None, next_sequence: 1, bids: Vec::new(), asks: Vec::new() };
        proof {
            assert(r@ =~= empty_book());
        }
        r
    }

    /// The best (highest) resting bid price.
    pub fn best_bid(&self) -> (r: Option<u64>)
        ensures
            r == spec_best_bid(self@),
    {
        if self.bids.len() > 0 {
            Some(self.bids[0].price)
        } else {
            None
        }
    }

    /// The best (lowest) resting ask price.
    pub fn best_ask(&self) -> (r: Option<u64>)
        ensures
            r == spec_best_ask(self@),
    {
        if self.asks.len() > 0 {
            Some(self.asks[0].price)
        } else {
            None
        }
    }

    /// The sequence number the book will assign to the next admitted order.
    /// It grows by one per admitted order; a caller can test it against the
    /// integer limit before submitting.
    pub fn next_sequence(&self) -> (r: u64)
        ensures
            r == self@.next_sequence,
    {
        self.next_sequence
    }

    /// The price of the last executed trade, if any trade ever executed.
    pub fn last_trade_price(&self) -> (r: Option<u64>)
        ensures
            r == self@.last_price,
    {
        self.last_price
    }

    /// Submits one order to this book: assigns the next sequence number,
    /// matches the order against the opposite side under price-time
    /// priority, rests any residual on its own side, and reports the trades
    /// and the residual.  An order with a zero price or amount is rejected
    /// and the book is left untouched.
    pub fn submit(&mut self, side: Side, price: u64, amount: u64, maker: Field) -> (r: Result<
        SubmitOutcome,
        CoreError,
    >)
        requires
            old(self)@.wf(),
            old(self)@.next_sequence < u64::MAX,
        ensures
            final(self)@ == apply_submit(old(self)@, side, price, amount, maker).book,
            final(self)@.wf(),
            r is Ok <==> (price > 0 && amount > 0),
            r matches Ok(o) ==> ({
                let e = apply_submit(old(self)@, side, price, amount, maker);
                o.sequence == e.sequence && o.trades@ == e.trades && o.residual == e.residual
            }),
            r is Err ==> r == Result::<SubmitOutcome, CoreError>::Err(CoreError::InvalidOrder)
                && final(self)@ == old(self)@,
    {
        if price == 0 || amount == 0 {
            return Err(CoreError::InvalidOrder);
        }
        let ghost b0 = self@;
        let sq = self.next_sequence;
        self.next_sequence = sq + 1;
        let (trades, remaining) = match side {
            Side::Buy => do_match(&mut self.asks, side, price, amount, maker, sq),
            Side::Sell => do_match(&mut self.bids, side, price, amount, maker, sq),
        };
        if remaining > 0 {
            let o = Order { side, price, amount: remaining, maker, sequence: sq };
            match side {
                Side::Buy => insert_sorted(&mut self.bids, side, o),
                Side::Sell => insert_sorted(&mut self.asks, side, o),
            }
        }
        if trades.len() > 0 {
            self.last_price = Some(trades[trades.len() - 1].price);
        }
        proof {
            let e = apply_submit(b0, side, price, amount, maker);
            assert(self@ =~= e.book);
            lemma_submit_wf(b0, side, price, amount, maker);
        }
        Ok(SubmitOutcome { sequence: sq, trades, residual: remaining })
    }

    /// Cancels the still-resting order that carries `sequence`, whichever
    /// side it rests on, and reports whether one was found.  Cancelling a
    /// number that is not resting (never issued, filled, or already
    /// cancelled) changes nothing and reports false.
    pub fn cancel(&mut self, sequence: u64) -> (r: bool)
        requires
            old(self)@.wf(),
        ensures
            final(self)@ == apply_cancel(old(self)@, sequence),
            final(self)@.wf(),
            r == old(self)@.has_sequence(sequence),
    {
        let ghost b0 = self@;
        proof {
            lemma_cancel_wf(b0, sequence);
        }
        let mut i: usize = 0;
        while i < self.bids.len()
            invariant
                i <= self@.bids.len(),
                self@ == b0,
                b0 == old(self)@,
                b0.wf(),
                forall|j: int| 0 <= j < i ==> (#[trigger] b0.bids[j]).sequence != sequence,
            decreases self@.bids.len() - i,
        {
            if self.bids[i].sequence == sequence {
                proof {
                    lemma_remove_at_book(b0, sequence, i as int, Side::Buy);
                    lemma_cancel_wf(b0, sequence);
                    assert(has_seq(b0.bids, sequence)) by {
                        assert(b0.bids[i as int].sequence == sequence);
                    }
                }
                self.bids.remove(i);
                proof {
                    assert(self@ =~= apply_cancel(b0, sequence));
                }
                return true;
            }
            i += 1;
        }
        proof {
            assert(!has_seq(b0.bids, sequence)) by {
                if has_seq(b0.bids, sequence) {
                    let w = choose|w: int| 0 <= w < b0.bids.len() && b0.bids[w].sequence
                        == sequence;
                }
            }
        }
        let mut k: usize = 0;
        while k < self.asks.len()
            invariant
                k <= self@.asks.len(),
                self@ == b0,
                b0 == old(self)@,
                b0.wf(),
                forall|j: int| 0 <= j < k ==> (#[trigger] b0.asks[j]).sequence != sequence,
                !has_seq(b0.bids, sequence),
            decreases self@.asks.len() - k,
        {
            if self.asks[k].sequence == sequence {
                proof {
                    lemma_remove_at_book(b0, sequence, k as int, Side::Sell);
                    lemma_cancel_wf(b0, sequence);
                    assert(has_seq(b0.asks, sequence)) by {
                        assert(b0.asks[k as int].sequence == sequence);
                    }
                }
                self.asks.remove(k);
                proof {
                    assert(self@ =~= apply_cancel(b0, sequence));
                }
                return true;
            }
            k += 1;
        }
        proof {
            assert(!has_seq(b0.asks, sequence)) by {
                if has_seq(b0.asks, sequence) {
                    let w = choose|w: int| 0 <= w < b0.asks.len() && b0.asks[w].sequence
                        == sequence;
                }
            }
            assert(self@ =~= apply_cancel(b0, sequence));
        }
        false
    }

    /// Rebuilds a book from a snapshot taken earlier: the two sides best
    /// first, the last trade price, and the next sequence number to issue.
    /// The snapshot is validated in full, and one that no history of calls
    /// could have left behind — unsorted, crossed, dead orders, or reused
    /// sequence numbers — is rejected.
    pub fn restore(
        bids: Vec<Order>,
        asks: Vec<Order>,
        last_price: Option<u64>,
        next_sequence: u64,
    ) -> (r: Option<OrderBook>)
        ensures
            ({
                let v = BookView { bids: bids@, asks: asks@, last_price, next_sequence };
                &&& (r matches Some(book) ==> book@ == v && v.wf())
                &&& (r is None ==> !v.wf())
            }),
    {
        let ok = check_side(&bids, Side::Buy, next_sequence) && check_side(
            &asks,
            Side::Sell,
            next_sequence,
        ) && check_distinct(&bids) && check_distinct(&asks) && check_disjoint(&bids, &asks) && (
        bids.len() == 0 || asks.len() == 0 || bids[0].price < asks[0].price);
        if ok {
            Some(OrderBook { last_price, next_sequence, bids, asks })
        } else {
            None
        }
    }

    /// A copy of one side's resting orders, best first, for snapshotting.
    pub fn side_snapshot(&self, side: Side) -> (r: Vec<Order>)
        ensures
            r@ == self@.on_side(side),
    {
        let src = match side {
            Side::Buy => &self.bids,
            Side::Sell => &self.asks,
        };
        let mut out: Vec<Order> = Vec::new();
        let mut i: usize = 0;
        while i < src.len()
            invariant
                i <= src.len(),
                out@ == src@.take(i as int),
            decreases src.len() - i,
        {
            out.push(src[i]);
            proof {
                assert(src@.take(i + 1 as int) =~= src@.take(i as int).push(src@[i as int]));
            }
            i += 1;
        }
        proof {
            assert(src@.take(src@.len() as int) =~= src@);
        }
        out
    }
}

/// One admitted submission leaves a well-formed book well-formed: both sides
/// stay sorted and valid, sequence numbers stay distinct, and the sides do
/// not cross once the call is over.
pub proof fn lemma_submit_wf(b: BookView, side: Side, price: u64, amount: u64, maker: Field)
    requires
        b.wf(),
        b.next_sequence < u64::MAX,
    ensures
        apply_submit(b, side, price, amount, maker).book.wf(),
{
    if price == 0 || amount == 0 {
    } else {
        let sq = b.next_sequence;
        let next2 = (sq + 1) as u64;
        let opp0 = b.on_side(opposite(side));
        let own0 = b.on_side(side);
        let m = match_against(side, price, amount, sq, maker, opp0);
        lemma_match_props(side, price, amount, sq, maker, opp0, sq);
        lemma_side_ok_mono(opposite(side), m.opp, sq, next2);
        let o = Order { side, price, amount: m.remaining, maker, sequence: sq };
        let own = if m.remaining > 0 {
            insert_order(side, own0, o)
        } else {
            own0
        };
        lemma_side_ok_mono(side, own0, sq, next2);
        if m.remaining > 0 {
            assert forall|i: int| 0 <= i < own0.len() implies (#[trigger] own0[i]).sequence
                != o.sequence by {
                assert(own0[i].sequence < sq);
            }
            lemma_insert_props(side, own0, o, next2);
        }
        // No sequence number appears on both sides afterwards: the residual
        // carries the fresh number, everything else already rested.
        assert forall|i: int, j: int| 0 <= i < own.len() && 0 <= j < m.opp.len() implies (
        #[trigger] own[i]).sequence != (#[trigger] m.opp[j]).sequence by {
            let k2 = choose|k2: int| 0 <= k2 < opp0.len() && shrunk_from(m.opp[j], opp0[k2]);
            assert(m.opp[j].sequence == opp0[k2].sequence && opp0[k2].sequence < sq);
            if m.remaining > 0 && own[i] == o {
            } else {
                if m.remaining > 0 {
                    let w = choose|w: int| 0 <= w < own0.len() && own[i] == own0[w];
                    assert(own[i].sequence == own0[w].sequence);
                } else {
                    assert(own[i] == own0[i]);
                }
            }
        }
        // The sides do not cross: a rested residual was not marketable
        // against the surviving best, and an untouched best was already on
        // the right side of it.
        if own.len() > 0 && m.opp.len() > 0 {
            let k2 = choose|k2: int| 0 <= k2 < opp0.len() && shrunk_from(m.opp[0], opp0[k2]);
            assert(m.opp[0].price == opp0[k2].price);
            if k2 > 0 {
                assert(prior(opposite(side), opp0[0], opp0[k2]));
            }
            if m.remaining > 0 {
                assert(own[0] == o || (own0.len() > 0 && own[0] == own0[0]));
                assert(!marketable(side, price, m.opp[0].price));
            } else {
                assert(own[0] == own0[0]);
            }
        }
        let book = apply_submit(b, side, price, amount, maker).book;
        if side is Buy {
            assert(book.bids == own && book.asks == m.opp);
        } else {
            assert(book.bids == m.opp && book.asks == own);
        }
    }
}

/// Removal by sequence number, done on both sides at once, leaves a
/// well-formed book well-formed, leaves the number gone, and leaves the book
/// unchanged when the number was not resting.
pub proof fn lemma_cancel_wf(b: BookView, q: u64)
    requires
        b.wf(),
    ensures
        apply_cancel(b, q).wf(),
        !apply_cancel(b, q).has_sequence(q),
        !b.has_sequence(q) ==> apply_cancel(b, q) == b,
{
    lemma_remove_props(Side::Buy, b.bids, q, b.next_sequence);
    lemma_remove_props(Side::Sell, b.asks, q, b.next_sequence);
    let nb = remove_sequence(b.bids, q);
    let na = remove_sequence(b.asks, q);
    assert forall|i: int, j: int| 0 <= i < nb.len() && 0 <= j < na.len() implies (
    #[trigger] nb[i]).sequence != (#[trigger] na[j]).sequence by {
        let w1 = choose|w1: int| 0 <= w1 < b.bids.len() && nb[i] == b.bids[w1];
        let w2 = choose|w2: int| 0 <= w2 < b.asks.len() && na[j] == b.asks[w2];
        assert(b.bids[w1].sequence != b.asks[w2].sequence);
    }
    if nb.len() > 0 && na.len() > 0 {
        let w1 = choose|w1: int| 0 <= w1 < b.bids.len() && nb[0] == b.bids[w1];
        let w2 = choose|w2: int| 0 <= w2 < b.asks.len() && na[0] == b.asks[w2];
        if w1 > 0 {
            assert(prior(Side::Buy, b.bids[0], b.bids[w1]));
        }
        if w2 > 0 {
            assert(prior(Side::Sell, b.asks[0], b.asks[w2]));
        }
        assert(nb[0].price <= b.bids[0].price && na[0].price >= b.asks[0].price);
    }
    if !b.has_sequence(q) {
        assert(apply_cancel(b, q) =~= b);
    }
}

/// Removal of a resting order found at its position: how the executable
/// cancellation meets the model.
pub proof fn lemma_remove_at(s: Seq<Order>, q: u64, i: int)
    requires
        0 <= i < s.len(),
        s[i].sequence == q,
        forall|j: int| 0 <= j < i ==> (#[trigger] s[j]).sequence != q,
    ensures
        remove_sequence(s, q) == s.remove(i),
    decreases s.len(),
{
    if i == 0 {
        assert(s.drop_first() =~= s.remove(0));
    } else {
        let tail = s.drop_first();
        assert forall|j: int| 0 <= j < i - 1 implies (#[trigger] tail[j]).sequence != q by {
            assert(tail[j] == s[j + 1]);
        }
        assert(tail[i - 1] == s[i]);
        lemma_remove_at(tail, q, i - 1);
        assert(seq![s[0]] + tail.remove(i - 1) =~= s.remove(i));
    }
}

/// Cancellation that finds its order at position `i` of one side removes
/// exactly that position and leaves the other side alone: in a well-formed
/// book no sequence number rests on both sides.
pub proof fn lemma_remove_at_book(b: BookView, q: u64, i: int, side: Side)
    requires
        b.wf(),
        0 <= i < b.on_side(side).len(),
        b.on_side(side)[i].sequence == q,
        forall|j: int| 0 <= j < i ==> (#[trigger] b.on_side(side)[j]).sequence != q,
    ensures
        remove_sequence(b.on_side(side), q) == b.on_side(side).remove(i),
        remove_sequence(b.on_side(opposite(side)), q) == b.on_side(opposite(side)),
{
    lemma_remove_at(b.on_side(side), q, i);
    let other = b.on_side(opposite(side));
    assert(!has_seq(other, q)) by {
        if has_seq(other, q) {
            let w = choose|w: int| 0 <= w < other.len() && other[w].sequence == q;
            if side is Buy {
                assert(b.bids[i].sequence != b.asks[w].sequence);
            } else {
                assert(b.bids[w].sequence != b.asks[i].sequence);
            }
        }
    }
    lemma_remove_props(opposite(side), other, q, b.next_sequence);
}

/// Full check of one restored side: every order belongs there and is live,
/// and each has priority over its neighbour.
fn check_side(v: &Vec<Order>, side: Side, next: u64) -> (r: bool)
    ensures
        r == (sorted(side, v@) && side_ok(side, v@, next)),
{
    let mut i: usize = 0;
    while i < v.len()
        invariant
            i <= v@.len(),
            forall|j: int|
                0 <= j < i ==> ((#[trigger] v@[j]).side == side && v@[j].price > 0 && v@[j].amount
                    > 0 && v@[j].sequence < next),
            forall|j: int|
                0 <= j < i && j + 1 < v@.len() ==> prior(side, v@[j], #[trigger] v@[j + 1]),
        decreases v@.len() - i,
    {
        let o = &v[i];
        let side_matches = match (o.side, side) {
            (Side::Buy, Side::Buy) => true,
            (Side::Sell, Side::Sell) => true,
            _ => false,
        };
        if !side_matches || o.price == 0 || o.amount == 0 || o.sequence >= next {
            return false;
        }
        if i + 1 < v.len() {
            if !has_priority(side, o, &v[i + 1]) {
                return false;
            }
        }
        i += 1;
    }
    proof {
        crate::matching::lemma_adjacent_sorted(side, v@);
    }
    true
}

/// Whether no two orders of `v` share a sequence number.
fn check_distinct(v: &Vec<Order>) -> (r: bool)
    ensures
        r == distinct_seqs(v@),
{
    let mut i: usize = 0;
    while i < v.len()
        invariant
            i <= v@.len(),
            forall|a: int, b: int| 0 <= a < b < v@.len() && a < i ==> v@[a].sequence != v@[b].sequence,
        decreases v@.len() - i,
    {
        let mut j: usize = i + 1;
        while j < v.len()
            invariant
                i < j <= v@.len(),
                i < v@.len(),
                forall|b: int| i < b < j ==> v@[i as int].sequence != v@[b].sequence,
            decreases v@.len() - j,
        {
            if v[i].sequence == v[j].sequence {
                return false;
            }
            j += 1;
        }
        i += 1;
    }
    true
}

/// Whether no sequence number appears in both `a` and `b`.
fn check_disjoint(a: &Vec<Order>, b: &Vec<Order>) -> (r: bool)
    ensures
        r == (forall|i: int, j: int|
            0 <= i < a@.len() && 0 <= j < b@.len() ==> (#[trigger] a@[i]).sequence != (
            #[trigger] b@[j]).sequence),
{
    let mut i: usize = 0;
    while i < a.len()
        invariant
            i <= a@.len(),
            forall|x: int, y: int|
                0 <= x < i && 0 <= y < b@.len() ==> (#[trigger] a@[x]).sequence != (
                #[trigger] b@[y]).sequence,
        decreases a@.len() - i,
    {
        let mut j: usize = 0;
        while j < b.len()
            invariant
                i < a@.len(),
                j <= b@.len(),
                forall|y: int| 0 <= y < j ==> a@[i as int].sequence != (#[trigger] b@[y]).sequence,
            decreases b@.len() - j,
        {
            if a[i].sequence == b[j].sequence {
                return false;
            }
            j += 1;
        }
        i += 1;
    }
    true
}

/// Executable form of `marketable`.
fn is_marketable(side: Side, price: u64, best: u64) -> (r: bool)
    ensures
        r == marketable(side, price, best),
{
    match side {
        Side::Buy => price >= best,
        Side::Sell => price <= best,
    }
}

/// Executable form of `prior`.
fn has_priority(side: Side, a: &Order, b: &Order) -> (r: bool)
    ensures
        r == prior(side, *a, *b),
{
    match side {
        Side::Buy => a.price > b.price || (a.price == b.price && a.sequence < b.sequence),
        Side::Sell => a.price < b.price || (a.price == b.price && a.sequence < b.sequence),
    }
}

/// The matching loop of one submission: trades against the front of `opp`
/// while the incoming order has remaining amount and the front is
/// marketable.  Exactly the model's `match_against`.
fn do_match(
    opp: &mut Vec<Order>,
    side: Side,
    price: u64,
    amount: u64,
    maker: Field,
    sequence: u64,
) -> (r: (Vec<Trade>, u64))
    ensures
        ({
            let m = match_against(side, price, amount, sequence, maker, old(opp)@);
            &&& final(opp)@ == m.opp
            &&& r.0@ == m.trades
            &&& r.1 == m.remaining
        }),
{
    let ghost orig = opp@;
    let mut trades: Vec<Trade> = Vec::new();
    let mut remaining = amount;
    proof {
        assert(trades@ + match_against(side, price, remaining, sequence, maker, opp@).trades
            =~= match_against(side, price, amount, sequence, maker, orig).trades);
    }
    while remaining > 0 && opp.len() > 0 && is_marketable(side, price, opp[0].price)
        invariant
            match_against(side, price, amount, sequence, maker, orig).opp == match_against(
                side,
                price,
                remaining,
                sequence,
                maker,
                opp@,
            ).opp,
            match_against(side, price, amount, sequence, maker, orig).trades == trades@
                + match_against(side, price, remaining, sequence, maker, opp@).trades,
            match_against(side, price, amount, sequence, maker, orig).remaining == match_against(
                side,
                price,
                remaining,
                sequence,
                maker,
                opp@,
            ).remaining,
        decreases opp@.len() + remaining,
    {
        let ghost pre = opp@;
        let ghost trades_pre = trades@;
        let ghost rem_pre = remaining;
        let best = opp[0];
        let qty = if remaining <= best.amount {
            remaining
        } else {
            best.amount
        };
        let t = Trade {
            maker_a: best.maker,
            maker_b: maker,
            price: best.price,
            quantity: qty,
            maker_a_sequence: best.sequence,
            maker_b_sequence: sequence,
        };
        trades.push(t);
        if qty == best.amount {
            opp.remove(0);
            proof {
                assert(opp@ =~= pre.drop_first());
            }
        } else {
            let reduced = Order {
                side: best.side,
                price: best.price,
                amount: best.amount - qty,
                maker: best.maker,
                sequence: best.sequence,
            };
            opp.remove(0);
            opp.insert(0, reduced);
            proof {
                assert(opp@ =~= pre.update(0, reduced));
            }
        }
        remaining = remaining - qty;
        proof {
            let rest = match_against(side, price, remaining, sequence, maker, opp@);
            assert(match_against(side, price, rem_pre, sequence, maker, pre).trades == seq![t]
                + rest.trades);
            assert(trades@ =~= trades_pre.push(t));
            assert(trades_pre + (seq![t] + rest.trades) =~= trades@ + rest.trades);
        }
    }
    proof {
        let m = match_against(side, price, remaining, sequence, maker, opp@);
        assert(m.opp == opp@ && m.remaining == remaining && m.trades == Seq::<Trade>::empty());
        assert(trades@ + Seq::<Trade>::empty() =~= trades@);
    }
    (trades, remaining)
}

/// Ordered insertion of a resting order into one side, best first: exactly
/// the model's `insert_order`.
fn insert_sorted(v: &mut Vec<Order>, side: Side, o: Order)
    ensures
        final(v)@ == insert_order(side, old(v)@, o),
{
    let mut idx: usize = 0;
    while idx < v.len() && !has_priority(side, &o, &v[idx])
        invariant
            idx <= v@.len(),
            v@ == old(v)@,
            forall|j: int| 0 <= j < idx ==> !prior(side, o, #[trigger] v@[j]),
        decreases v@.len() - idx,
    {
        idx += 1;
    }
    proof {
        crate::matching::lemma_insert_at(side, v@, o, idx as int);
    }
    v.insert(idx, o);
}

} // verus!
