//! The laws of the matching core, stated over the book model and proved once
//! and for all.  The executable operations are specified exactly against
//! `apply_submit` and `apply_cancel`, so everything proved here holds of
//! every call on every well-formed book.

use vstd::prelude::*;
use crate::field::Field;
use crate::matching::{
    insert_order, lemma_match_conservation, lemma_match_priority, match_against,
    no_better_resting, sum_amounts, total_quantity, trade_prior, trade_source,
};
use crate::order::{marketable, opposite, Order, Side};
use crate::order_book::{
    apply_cancel, apply_submit, empty_book, lemma_cancel_wf, spec_best_ask, spec_best_bid,
    BookView,
};

verus! {

/// Price and time priority of one submission.  The trades of one `submit`
/// call are struck in strict book-priority order: a trade at a worse price
/// never precedes one at a better price, and at equal price the resting
/// order with the smaller sequence number trades first.  Every trade is
/// struck against an order that was actually resting on the opposite side
/// with at least the traded quantity, no order still resting on the opposite
/// side afterwards offered a better price than any trade executed at, and no
/// trade executed through the incoming order's own limit price.
pub proof fn law_price_time_priority(
    b: BookView,
    side: Side,
    price: u64,
    amount: u64,
    maker: Field,
)
    requires
        b.wf(),
    ensures
        ({
            let e = apply_submit(b, side, price, amount, maker);
            let opp = b.on_side(opposite(side));
            &&& forall|i: int, j: int|
                0 <= i < j < e.trades.len() ==> trade_prior(side, e.trades[i], e.trades[j])
            &&& forall|i: int| 0 <= i < e.trades.len() ==> trade_source(#[trigger] e.trades[i], opp)
            &&& forall|i: int, k: int|
                0 <= i < e.trades.len() && 0 <= k < e.book.on_side(opposite(side)).len()
                    ==> no_better_resting(side, e.trades[i], e.book.on_side(opposite(side))[k])
            &&& forall|i: int|
                0 <= i < e.trades.len() ==> marketable(side, price, (#[trigger] e.trades[i]).price)
        }),
{
    if price == 0 || amount == 0 {
    } else {
        lemma_match_priority(
            side,
            price,
            amount,
            b.next_sequence,
            maker,
            b.on_side(opposite(side)),
            b.next_sequence,
        );
    }
}

/// Conservation of one submission.  The quantities of one `submit` call add
/// up exactly: the incoming amount splits into the residual and the total
/// traded quantity, the opposite side loses exactly the total traded
/// quantity, and the whole book's resting amount changes only by what was
/// rested and what was traded away.  Every single trade carries a positive
/// quantity, no more than the incoming amount, and no more than its resting
/// participant's pre-trade remaining amount.
pub proof fn law_conservation(b: BookView, side: Side, price: u64, amount: u64, maker: Field)
    requires
        b.wf(),
        price > 0,
        amount > 0,
    ensures
        ({
            let e = apply_submit(b, side, price, amount, maker);
            let opp = b.on_side(opposite(side));
            &&& e.residual + total_quantity(e.trades) == amount
            &&& sum_amounts(e.book.on_side(opposite(side))) + total_quantity(e.trades)
                == sum_amounts(opp)
            &&& e.book.amount_total() + total_quantity(e.trades) == b.amount_total() + e.residual
            &&& forall|i: int|
                0 <= i < e.trades.len() ==> (#[trigger] e.trades[i]).quantity > 0
                    && e.trades[i].quantity <= amount && trade_source(e.trades[i], opp)
        }),
{
    let e = apply_submit(b, side, price, amount, maker);
    let sq = b.next_sequence;
    let opp = b.on_side(opposite(side));
    let own = b.on_side(side);
    let m = match_against(side, price, amount, sq, maker, opp);
    lemma_match_conservation(side, price, amount, sq, maker, opp);
    lemma_match_priority(side, price, amount, sq, maker, opp, sq);
    let o = Order { side, price, amount: m.remaining, maker, sequence: sq };
    let own2 = if m.remaining > 0 {
        insert_order(side, own, o)
    } else {
        own
    };
    if m.remaining > 0 {
        crate::matching::lemma_insert_sum(side, own, o);
        assert(sum_amounts(own2) == sum_amounts(own) + m.remaining);
    }
    if side is Buy {
        assert(e.book.bids == own2 && e.book.asks == m.opp);
        assert(b.bids == own && b.asks == opp);
    } else {
        assert(e.book.bids == m.opp && e.book.asks == own2);
        assert(b.bids == opp && b.asks == own);
    }
}

/// The book never rests crossed: whenever both a best bid and a best ask
/// exist on a well-formed book, the bid is strictly below the ask.  Both
/// `submit` and `cancel` guarantee well-formedness of the book they leave
/// behind, so this holds between any two calls.
pub proof fn law_no_resting_cross(b: BookView)
    requires
        b.wf(),
        spec_best_bid(b) is Some,
        spec_best_ask(b) is Some,
    ensures
        spec_best_bid(b)->0 < spec_best_ask(b)->0,
{
}

/// Cancellation is idempotent.  Cancelling a resting sequence number removes
/// it, so the first call reports true and a second call of the same number
/// reports false and changes nothing; cancelling a number that never rested
/// reports false and changes nothing.
pub proof fn law_cancel_idempotent(b: BookView, q: u64)
    requires
        b.wf(),
    ensures
        ({
            let b1 = apply_cancel(b, q);
            &&& !b1.has_sequence(q)
            &&& apply_cancel(b1, q) == b1
            &&& (!b.has_sequence(q) ==> b1 == b)
        }),
{
    lemma_cancel_wf(b, q);
    lemma_cancel_wf(apply_cancel(b, q), q);
}

/// One step of a replayed call history: a submission or a cancellation.
pub enum BookOp {
    Submit { side: Side, price: u64, amount: u64, maker: Field },
    Cancel { sequence: u64 },
}

/// The book state one operation leaves behind.
pub open spec fn apply_op(b: BookView, op: BookOp) -> BookView {
    match op {
        BookOp::Submit { side, price, amount, maker } => apply_submit(
            b,
            side,
            price,
            amount,
            maker,
        ).book,
        BookOp::Cancel { sequence } => apply_cancel(b, sequence),
    }
}

/// The book state a whole call history leaves behind when replayed against a
/// fresh book.
pub open spec fn replay(ops: Seq<BookOp>) -> BookView
    decreases ops.len(),
{
    if ops.len() == 0 {
        empty_book()
    } else {
        apply_op(replay(ops.drop_last()), ops.last())
    }
}

/// Determinism.  `submit` and `cancel` are specified exactly as functions of
/// the book's observable state — `apply_submit` pins the new book, the
/// assigned sequence number, the trade list and the residual, and
/// `apply_cancel` pins the new book and the report — so two replays of equal
/// call histories against fresh books pass through identical states and
/// produce identical trades at every step.
pub proof fn law_determinism(ops1: Seq<BookOp>, ops2: Seq<BookOp>, i: int)
    requires
        ops1 == ops2,
        0 <= i < ops1.len(),
    ensures
        replay(ops1) == replay(ops2),
        ops1[i] matches BookOp::Submit { side, price, amount, maker } ==> apply_submit(
            replay(ops1.take(i)),
            side,
            price,
            amount,
            maker,
        ) == apply_submit(replay(ops2.take(i)), side, price, amount, maker),
{
}

} // verus!
