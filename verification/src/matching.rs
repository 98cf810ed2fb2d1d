//! The mathematical model of the matching algorithm: what one submission does
//! to the opposite side of a book, how a residual order is rested, and how a
//! cancellation removes a resting order.  The executable book in
//! `order_book` is specified exactly against these functions, and the
//! price-time-priority and conservation laws are proved of them here.

use vstd::prelude::*;
use crate::field::Field;
use crate::order::{marketable, opposite, prior, Order, Side, Trade};

verus! {

/// Everything one matching pass produces: the opposite side as it is left,
/// the trades in execution order, and the incoming order's residual amount.
#[verifier::ext_equal]
pub struct MatchResult {
    pub opp: Seq<Order>,
    pub trades: Seq<Trade>,
    pub remaining: u64,
}

/// One full matching pass of an incoming order (side, price, remaining,
/// sequence, maker) against the resting orders `opp` of the opposite side,
/// best first.  While the incoming order has remaining amount and the best
/// resting order is marketable, it trades at the resting order's price for
/// the smaller of the two remaining amounts; a fully filled resting order is
/// removed, a partially filled one keeps its place with its amount reduced.
pub open spec fn match_against(
    side: Side,
    price: u64,
    remaining: u64,
    sequence: u64,
    maker: Field,
    opp: Seq<Order>,
) -> MatchResult
    decreases opp.len() + remaining,
{
    if remaining == 0 || opp.len() == 0 || !marketable(side, price, opp[0].price) {
        MatchResult { opp, trades: Seq::empty(), remaining }
    } else {
        let best = opp[0];
        let qty: u64 = if remaining <= best.amount {
            remaining
        } else {
            best.amount
        };
        let t = Trade {
            maker_a: best.maker,
            maker_b: maker,
            price: best.price,
            quantity: qty,
            maker_a_sequence: best.sequence,
            maker_b_sequence: sequence,
        };
        let opp2 = if qty == best.amount {
            opp.drop_first()
        } else {
            opp.update(
                0,
                Order {
                    side: best.side,
                    price: best.price,
                    amount: (best.amount - qty) as u64,
                    maker: best.maker,
                    sequence: best.sequence,
                },
            )
        };
        let rest = match_against(side, price, (remaining - qty) as u64, sequence, maker, opp2);
        MatchResult {
            opp: rest.opp,
            trades: seq![t] + rest.trades,
            remaining: rest.remaining,
        }
    }
}

/// `s` holds one side of a book, best order first.
pub open spec fn sorted(side: Side, s: Seq<Order>) -> bool {
    forall|i: int, j: int| 0 <= i < j < s.len() ==> prior(side, s[i], s[j])
}

/// Every order of `s` belongs on `side`, is live (positive price and amount)
/// and carries a sequence number the book has already issued.
pub open spec fn side_ok(side: Side, s: Seq<Order>, next: u64) -> bool {
    forall|i: int|
        0 <= i < s.len() ==> (s[i].side == side && s[i].price > 0 && s[i].amount > 0
            && s[i].sequence < next)
}

/// No two orders of `s` share a sequence number.
pub open spec fn distinct_seqs(s: Seq<Order>) -> bool {
    forall|i: int, j: int| 0 <= i < j < s.len() ==> s[i].sequence != s[j].sequence
}

/// Some order of `s` carries the sequence number `q`.
pub open spec fn has_seq(s: Seq<Order>, q: u64) -> bool {
    exists|i: int| 0 <= i < s.len() && s[i].sequence == q
}

/// The sum of the remaining amounts of `s`, as an unbounded integer.
pub open spec fn sum_amounts(s: Seq<Order>) -> int
    decreases s.len(),
{
    if s.len() == 0 {
        0
    } else {
        s[0].amount + sum_amounts(s.drop_first())
    }
}

/// The total quantity traded over `ts`, as an unbounded integer.
pub open spec fn total_quantity(ts: Seq<Trade>) -> int
    decreases ts.len(),
{
    if ts.len() == 0 {
        0
    } else {
        ts[0].quantity + total_quantity(ts.drop_first())
    }
}

/// Ordered insertion of `o` into one side: `o` goes in front of the first
/// resting order it has priority over and behind every one that has priority
/// over it.
pub open spec fn insert_order(side: Side, s: Seq<Order>, o: Order) -> Seq<Order>
    decreases s.len(),
{
    if s.len() == 0 {
        seq![o]
    } else if prior(side, o, s[0]) {
        seq![o] + s
    } else {
        seq![s[0]] + insert_order(side, s.drop_first(), o)
    }
}

/// Removal of the first order of `s` that carries the sequence number `q`;
/// `s` itself when none does.
pub open spec fn remove_sequence(s: Seq<Order>, q: u64) -> Seq<Order>
    decreases s.len(),
{
    if s.len() == 0 {
        s
    } else if s[0].sequence == q {
        s.drop_first()
    } else {
        seq![s[0]] + remove_sequence(s.drop_first(), q)
    }
}

/// Resting order `a` keeps every identifying field of resting order `b` and
/// at most its amount: how matching leaves a resting order it partially fills.
pub open spec fn shrunk_from(a: Order, b: Order) -> bool {
    a.side == b.side && a.price == b.price && a.maker == b.maker && a.sequence == b.sequence
        && a.amount <= b.amount
}

/// Every order left on the opposite side after a matching pass descends from
/// one that was resting there before it.
pub open spec fn dominated(after: Seq<Order>, before: Seq<Order>) -> bool {
    forall|k: int|
        0 <= k < after.len() ==> exists|k2: int|
            0 <= k2 < before.len() && shrunk_from(#[trigger] after[k], before[k2])
}

/// Structural facts about one matching pass: the opposite side stays a
/// well-formed book side, every order left there descends from one that was
/// resting before, the residual never grows, and when a residual is left the
/// best surviving resting order is not marketable against it.
#[verifier::rlimit(100)]
pub proof fn lemma_match_props(
    side: Side,
    price: u64,
    remaining: u64,
    sequence: u64,
    maker: Field,
    opp: Seq<Order>,
    next: u64,
)
    requires
        sorted(opposite(side), opp),
        side_ok(opposite(side), opp, next),
        distinct_seqs(opp),
    ensures
        ({
            let m = match_against(side, price, remaining, sequence, maker, opp);
            &&& sorted(opposite(side), m.opp)
            &&& side_ok(opposite(side), m.opp, next)
            &&& distinct_seqs(m.opp)
            &&& dominated(m.opp, opp)
            &&& m.remaining <= remaining
            &&& (m.remaining > 0 && m.opp.len() > 0 ==> !marketable(side, price, m.opp[0].price))
        }),
    decreases opp.len() + remaining,
{
    let m = match_against(side, price, remaining, sequence, maker, opp);
    if remaining == 0 || opp.len() == 0 || !marketable(side, price, opp[0].price) {
        assert forall|k: int| 0 <= k < m.opp.len() implies exists|k2: int|
            0 <= k2 < opp.len() && shrunk_from(#[trigger] m.opp[k], opp[k2]) by {
            assert(shrunk_from(m.opp[k], opp[k]));
        }
    } else {
        let best = opp[0];
        let qty: u64 = if remaining <= best.amount {
            remaining
        } else {
            best.amount
        };
        let reduced = Order {
            side: best.side,
            price: best.price,
            amount: (best.amount - qty) as u64,
            maker: best.maker,
            sequence: best.sequence,
        };
        let opp2 = if qty == best.amount {
            opp.drop_first()
        } else {
            opp.update(0, reduced)
        };
        // One matching step leaves the opposite side a well-formed book side.
        assert forall|i: int, j: int| 0 <= i < j < opp2.len() implies prior(
            opposite(side),
            opp2[i],
            opp2[j],
        ) by {
            if qty == best.amount {
                assert(opp2[i] == opp[i + 1] && opp2[j] == opp[j + 1]);
            } else {
                assert(opp2[j] == opp[j]);
                if i == 0 {
                    assert(prior(opposite(side), opp[0], opp[j]));
                } else {
                    assert(opp2[i] == opp[i]);
                }
            }
        }
        assert forall|i: int, j: int| 0 <= i < j < opp2.len() implies opp2[i].sequence
            != opp2[j].sequence by {
            if qty == best.amount {
                assert(opp2[i] == opp[i + 1] && opp2[j] == opp[j + 1]);
            } else {
                assert(opp2[j] == opp[j]);
                if i != 0 {
                    assert(opp2[i] == opp[i]);
                }
            }
        }
        assert forall|i: int| 0 <= i < opp2.len() implies (opp2[i].side == opposite(side)
            && opp2[i].price > 0 && opp2[i].amount > 0 && opp2[i].sequence < next) by {
            if qty == best.amount {
                assert(opp2[i] == opp[i + 1]);
            } else {
                assert(remaining <= best.amount);
            }
        }
        lemma_match_props(side, price, (remaining - qty) as u64, sequence, maker, opp2, next);
        let rest = match_against(side, price, (remaining - qty) as u64, sequence, maker, opp2);
        assert(m.opp == rest.opp && m.remaining == rest.remaining);
        // Chain domination through the step.
        assert forall|k: int| 0 <= k < m.opp.len() implies exists|k2: int|
            0 <= k2 < opp.len() && shrunk_from(#[trigger] m.opp[k], opp[k2]) by {
            let w = choose|w: int| 0 <= w < opp2.len() && shrunk_from(m.opp[k], opp2[w]);
            if qty == best.amount {
                assert(opp2[w] == opp[w + 1]);
                assert(shrunk_from(m.opp[k], opp[w + 1]));
            } else {
                if w == 0 {
                    assert(shrunk_from(opp2[0], opp[0]));
                    assert(shrunk_from(m.opp[k], opp[0]));
                } else {
                    assert(opp2[w] == opp[w]);
                    assert(shrunk_from(m.opp[k], opp[w]));
                }
            }
        }
    }
}

/// Trade `a` was struck against a resting order with priority over the one
/// trade `b` was struck against: a strictly better price, or the same price
/// and an earlier sequence.  For an incoming buy the better resting price is
/// the lower one; for an incoming sell the higher one.
pub open spec fn trade_prior(side: Side, a: Trade, b: Trade) -> bool {
    match side {
        Side::Buy => a.price < b.price || (a.price == b.price && a.maker_a_sequence
            < b.maker_a_sequence),
        Side::Sell => a.price > b.price || (a.price == b.price && a.maker_a_sequence
            < b.maker_a_sequence),
    }
}

/// Trade `t` was struck against an order that was resting in `opp`, for no
/// more than that order's pre-trade remaining amount.
pub open spec fn trade_source(t: Trade, opp: Seq<Order>) -> bool {
    exists|k: int|
        0 <= k < opp.len() && opp[k].price == t.price && opp[k].sequence == t.maker_a_sequence
            && opp[k].maker == t.maker_a && t.quantity <= opp[k].amount
}

/// The resting order `o` offers no better price than trade `t` executed at.
pub open spec fn no_better_resting(side: Side, t: Trade, o: Order) -> bool {
    match side {
        Side::Buy => t.price <= o.price,
        Side::Sell => t.price >= o.price,
    }
}

/// Conservation over one matching pass: what the opposite side loses is
/// exactly what the trades carry, and what the incoming amount loses too.
pub proof fn lemma_match_conservation(
    side: Side,
    price: u64,
    remaining: u64,
    sequence: u64,
    maker: Field,
    opp: Seq<Order>,
)
    ensures
        ({
            let m = match_against(side, price, remaining, sequence, maker, opp);
            &&& sum_amounts(m.opp) + total_quantity(m.trades) == sum_amounts(opp)
            &&& m.remaining + total_quantity(m.trades) == remaining
        }),
    decreases opp.len() + remaining,
{
    let m = match_against(side, price, remaining, sequence, maker, opp);
    if remaining == 0 || opp.len() == 0 || !marketable(side, price, opp[0].price) {
    } else {
        let best = opp[0];
        let qty: u64 = if remaining <= best.amount {
            remaining
        } else {
            best.amount
        };
        let reduced = Order {
            side: best.side,
            price: best.price,
            amount: (best.amount - qty) as u64,
            maker: best.maker,
            sequence: best.sequence,
        };
        let opp2 = if qty == best.amount {
            opp.drop_first()
        } else {
            opp.update(0, reduced)
        };
        lemma_match_conservation(side, price, (remaining - qty) as u64, sequence, maker, opp2);
        let rest = match_against(side, price, (remaining - qty) as u64, sequence, maker, opp2);
        if qty != best.amount {
            assert(opp2.drop_first() =~= opp.drop_first());
            assert(sum_amounts(opp2) == reduced.amount + sum_amounts(opp2.drop_first()));
        }
        assert((seq![m.trades[0]] + rest.trades).drop_first() =~= rest.trades);
        assert(total_quantity(m.trades) == qty + total_quantity(rest.trades));
    }
}

/// The two sides of a step away from the front of one book side stay
/// well-formed: dropping the front order, and reducing its amount in place.
proof fn lemma_tail_side_wf(side: Side, s: Seq<Order>, next: u64)
    requires
        s.len() > 0,
        sorted(side, s),
        side_ok(side, s, next),
        distinct_seqs(s),
    ensures
        sorted(side, s.drop_first()),
        side_ok(side, s.drop_first(), next),
        distinct_seqs(s.drop_first()),
{
    let t = s.drop_first();
    assert forall|i: int, j: int| 0 <= i < j < t.len() implies prior(side, t[i], t[j])
        && t[i].sequence != t[j].sequence by {
        assert(t[i] == s[i + 1] && t[j] == s[j + 1]);
    }
    assert forall|i: int| 0 <= i < t.len() implies (t[i].side == side && t[i].price > 0
        && t[i].amount > 0 && t[i].sequence < next) by {
        assert(t[i] == s[i + 1]);
    }
}

/// Reducing the front order's amount in place keeps a book side well-formed,
/// as long as some amount is left.
proof fn lemma_reduce_front_wf(side: Side, s: Seq<Order>, x: Order, next: u64)
    requires
        s.len() > 0,
        sorted(side, s),
        side_ok(side, s, next),
        distinct_seqs(s),
        shrunk_from(x, s[0]),
        x.amount > 0,
    ensures
        sorted(side, s.update(0, x)),
        side_ok(side, s.update(0, x), next),
        distinct_seqs(s.update(0, x)),
{
    let t = s.update(0, x);
    assert forall|i: int, j: int| 0 <= i < j < t.len() implies prior(side, t[i], t[j])
        && t[i].sequence != t[j].sequence by {
        assert(t[j] == s[j]);
        if i != 0 {
            assert(t[i] == s[i]);
        } else {
            assert(prior(side, s[0], s[j]) && s[0].sequence != s[j].sequence);
        }
    }
}

/// Price-time priority over one matching pass: the trades are struck against
/// resting orders in strict book-priority order, each against an order that
/// was resting with enough amount, and no order still resting afterwards
/// offered a better price than any trade executed at.
#[verifier::rlimit(100)]
pub proof fn lemma_match_priority(
    side: Side,
    price: u64,
    remaining: u64,
    sequence: u64,
    maker: Field,
    opp: Seq<Order>,
    next: u64,
)
    requires
        sorted(opposite(side), opp),
        side_ok(opposite(side), opp, next),
        distinct_seqs(opp),
    ensures
        ({
            let m = match_against(side, price, remaining, sequence, maker, opp);
            &&& forall|i: int, j: int|
                0 <= i < j < m.trades.len() ==> trade_prior(side, m.trades[i], m.trades[j])
            &&& forall|i: int| 0 <= i < m.trades.len() ==> trade_source(#[trigger] m.trades[i], opp)
            &&& forall|i: int, k: int|
                0 <= i < m.trades.len() && 0 <= k < m.opp.len() ==> no_better_resting(
                    side,
                    m.trades[i],
                    m.opp[k],
                )
            &&& forall|i: int|
                0 <= i < m.trades.len() ==> (#[trigger] m.trades[i]).maker_b == maker
                    && m.trades[i].maker_b_sequence == sequence && m.trades[i].quantity > 0
                    && m.trades[i].quantity <= remaining && marketable(
                    side,
                    price,
                    m.trades[i].price,
                )
        }),
    decreases opp.len() + remaining,
{
    let m = match_against(side, price, remaining, sequence, maker, opp);
    if remaining == 0 || opp.len() == 0 || !marketable(side, price, opp[0].price) {
    } else {
        let best = opp[0];
        let qty: u64 = if remaining <= best.amount {
            remaining
        } else {
            best.amount
        };
        let reduced = Order {
            side: best.side,
            price: best.price,
            amount: (best.amount - qty) as u64,
            maker: best.maker,
            sequence: best.sequence,
        };
        let opp2 = if qty == best.amount {
            opp.drop_first()
        } else {
            opp.update(0, reduced)
        };
        let rem2: u64 = (remaining - qty) as u64;
        if qty == best.amount {
            lemma_tail_side_wf(opposite(side), opp, next);
        } else {
            lemma_reduce_front_wf(opposite(side), opp, reduced, next);
        }
        lemma_match_priority(side, price, rem2, sequence, maker, opp2, next);
        lemma_match_props(side, price, rem2, sequence, maker, opp2, next);
        let rest = match_against(side, price, rem2, sequence, maker, opp2);
        let t0 = m.trades[0];
        assert(m.trades == seq![t0] + rest.trades);
        assert forall|i: int| 1 <= i < m.trades.len() implies m.trades[i] == rest.trades[i - 1] by {}
        // The first trade is struck against the old best resting order.
        assert(trade_source(t0, opp)) by {
            assert(opp[0].price == t0.price && opp[0].sequence == t0.maker_a_sequence
                && opp[0].maker == t0.maker_a && t0.quantity <= opp[0].amount);
        }
        if qty != best.amount {
            // A partial fill of the resting order exhausts the incoming one.
            assert(rem2 == 0);
            assert(rest.trades.len() == 0);
        }
        // Later trades are struck against orders that were resting behind the
        // old best, in book-priority order.
        assert forall|i: int| 0 <= i < rest.trades.len() implies trade_source(
            #[trigger] rest.trades[i],
            opp,
        ) && trade_prior(side, t0, rest.trades[i]) by {
            assert(trade_source(rest.trades[i], opp2));
            let k = choose|k: int|
                0 <= k < opp2.len() && opp2[k].price == rest.trades[i].price && opp2[k].sequence
                    == rest.trades[i].maker_a_sequence && opp2[k].maker == rest.trades[i].maker_a
                    && rest.trades[i].quantity <= opp2[k].amount;
            assert(opp2[k] == opp[k + 1]);
            assert(prior(opposite(side), opp[0], opp[k + 1]));
        }
        // No surviving resting order offered the first trade a better price.
        assert forall|k: int| 0 <= k < m.opp.len() implies no_better_resting(side, t0, m.opp[k]) by {
            let k2 = choose|k2: int| 0 <= k2 < opp2.len() && shrunk_from(m.opp[k], opp2[k2]);
            if qty == best.amount {
                assert(opp2[k2] == opp[k2 + 1]);
                assert(prior(opposite(side), opp[0], opp[k2 + 1]));
            } else {
                if k2 != 0 {
                    assert(opp2[k2] == opp[k2]);
                    assert(prior(opposite(side), opp[0], opp[k2]));
                }
            }
        }
    }
}

/// Ordered insertion of a fresh order keeps a book side well-formed, adds
/// exactly that order, and can only put the new order or the old best at the
/// front.
pub proof fn lemma_insert_props(side: Side, s: Seq<Order>, o: Order, next: u64)
    requires
        sorted(side, s),
        side_ok(side, s, next),
        distinct_seqs(s),
        o.side == side,
        o.price > 0,
        o.amount > 0,
        o.sequence < next,
        forall|i: int| 0 <= i < s.len() ==> (#[trigger] s[i]).sequence != o.sequence,
    ensures
        ({
            let r = insert_order(side, s, o);
            &&& sorted(side, r)
            &&& side_ok(side, r, next)
            &&& distinct_seqs(r)
            &&& r.len() == s.len() + 1
            &&& sum_amounts(r) == sum_amounts(s) + o.amount
            &&& forall|i: int|
                0 <= i < r.len() ==> (#[trigger] r[i] == o || exists|j: int|
                    0 <= j < s.len() && r[i] == s[j])
            &&& (r[0] == o || (s.len() > 0 && r[0] == s[0]))
        }),
    decreases s.len(),
{
    let r = insert_order(side, s, o);
    if s.len() == 0 {
        assert(sum_amounts(seq![o].drop_first()) == 0);
    } else if prior(side, o, s[0]) {
        assert forall|i: int, j: int| 0 <= i < j < r.len() implies prior(side, r[i], r[j])
            && r[i].sequence != r[j].sequence by {
            assert(r[j] == s[j - 1]);
            if i == 0 {
                if j > 1 {
                    assert(prior(side, s[0], s[j - 1]));
                }
            } else {
                assert(r[i] == s[i - 1]);
            }
        }
        assert forall|i: int| 0 <= i < r.len() implies (#[trigger] r[i] == o || exists|j: int|
            0 <= j < s.len() && r[i] == s[j]) by {
            if i > 0 {
                assert(r[i] == s[i - 1]);
            }
        }
        assert(r.drop_first() =~= s);
        assert(sum_amounts(r) == o.amount + sum_amounts(s));
    } else {
        let tail = s.drop_first();
        lemma_tail_side_wf(side, s, next);
        assert forall|i: int| 0 <= i < tail.len() implies (#[trigger] tail[i]).sequence
            != o.sequence by {
            assert(tail[i] == s[i + 1]);
        }
        lemma_insert_props(side, tail, o, next);
        let rt = insert_order(side, tail, o);
        assert(r == seq![s[0]] + rt);
        assert forall|i: int| 1 <= i < r.len() implies r[i] == rt[i - 1] by {}
        // The old front keeps priority over everything behind it, the new
        // order included: at its price the new order's sequence is the
        // largest, and `o` does not have priority over the front.
        assert forall|i: int, j: int| 0 <= i < j < r.len() implies prior(side, r[i], r[j])
            && r[i].sequence != r[j].sequence by {
            if i == 0 {
                if r[j] == o {
                    assert(!prior(side, o, s[0]));
                    assert(prior(side, s[0], o) || s[0] == o);
                } else {
                    let w = choose|w: int| 0 <= w < tail.len() && r[j] == tail[w];
                    assert(tail[w] == s[w + 1]);
                    assert(prior(side, s[0], s[w + 1]));
                }
            }
        }
        assert forall|i: int| 0 <= i < r.len() implies (#[trigger] r[i] == o || exists|j: int|
            0 <= j < s.len() && r[i] == s[j]) by {
            if i == 0 {
                assert(r[0] == s[0]);
            } else if !(r[i] == o) {
                let w = choose|w: int| 0 <= w < tail.len() && r[i] == tail[w];
                assert(r[i] == s[w + 1]);
            }
        }
        assert(r.drop_first() =~= rt);
        assert(sum_amounts(r) == s[0].amount + sum_amounts(rt));
        assert(sum_amounts(s) == s[0].amount + sum_amounts(tail));
    }
}

/// Removal by sequence number takes each surviving order from the old side:
/// the base fact the other removal lemmas build on.
proof fn lemma_remove_membership(s: Seq<Order>, q: u64)
    ensures
        ({
            let r = remove_sequence(s, q);
            &&& r.len() <= s.len()
            &&& forall|i: int|
                0 <= i < r.len() ==> exists|j: int| 0 <= j < s.len() && (#[trigger] r[i]) == s[j]
        }),
    decreases s.len(),
{
    let r = remove_sequence(s, q);
    if s.len() == 0 {
    } else if s[0].sequence == q {
        assert forall|i: int| 0 <= i < r.len() implies exists|j: int|
            0 <= j < s.len() && (#[trigger] r[i]) == s[j] by {
            assert(r[i] == s[i + 1]);
        }
    } else {
        let tail = s.drop_first();
        lemma_remove_membership(tail, q);
        let rt = remove_sequence(tail, q);
        assert forall|i: int| 0 <= i < r.len() implies exists|j: int|
            0 <= j < s.len() && (#[trigger] r[i]) == s[j] by {
            if i == 0 {
                assert(r[0] == s[0]);
            } else {
                assert(r[i] == rt[i - 1]);
                let w = choose|w: int| 0 <= w < tail.len() && rt[i - 1] == tail[w];
                assert(r[i] == s[w + 1]);
            }
        }
    }
}

/// Removing a resting order by sequence number keeps a book side well-formed.
proof fn lemma_remove_wf(side: Side, s: Seq<Order>, q: u64, next: u64)
    requires
        sorted(side, s),
        side_ok(side, s, next),
        distinct_seqs(s),
    ensures
        ({
            let r = remove_sequence(s, q);
            &&& sorted(side, r)
            &&& side_ok(side, r, next)
            &&& distinct_seqs(r)
        }),
    decreases s.len(),
{
    let r = remove_sequence(s, q);
    if s.len() == 0 {
    } else if s[0].sequence == q {
        lemma_tail_side_wf(side, s, next);
    } else {
        let tail = s.drop_first();
        lemma_tail_side_wf(side, s, next);
        lemma_remove_wf(side, tail, q, next);
        lemma_remove_membership(tail, q);
        let rt = remove_sequence(tail, q);
        assert forall|i: int, j: int| 0 <= i < j < r.len() implies prior(side, r[i], r[j])
            && r[i].sequence != r[j].sequence by {
            assert(r[j] == rt[j - 1]);
            if i == 0 {
                let w = choose|w: int| 0 <= w < tail.len() && rt[j - 1] == tail[w];
                assert(tail[w] == s[w + 1]);
                assert(prior(side, s[0], s[w + 1]));
            } else {
                assert(r[i] == rt[i - 1]);
            }
        }
        assert forall|i: int| 0 <= i < r.len() implies (r[i].side == side && r[i].price > 0
            && r[i].amount > 0 && r[i].sequence < next) by {
            if i > 0 {
                assert(r[i] == rt[i - 1]);
            }
        }
    }
}

/// Removing a resting order by sequence number removes exactly the order
/// that carried it, and leaves the side unchanged when none did.
proof fn lemma_remove_found(s: Seq<Order>, q: u64)
    requires
        distinct_seqs(s),
    ensures
        ({
            let r = remove_sequence(s, q);
            &&& (!has_seq(s, q) ==> r == s)
            &&& (has_seq(s, q) ==> r.len() == s.len() - 1)
            &&& !has_seq(r, q)
        }),
    decreases s.len(),
{
    let r = remove_sequence(s, q);
    if s.len() == 0 {
    } else if s[0].sequence == q {
        assert(has_seq(s, q));
        assert forall|i: int| 0 <= i < r.len() implies (#[trigger] r[i]).sequence != q by {
            assert(r[i] == s[i + 1]);
        }
    } else {
        let tail = s.drop_first();
        assert forall|i: int, j: int| 0 <= i < j < tail.len() implies tail[i].sequence
            != tail[j].sequence by {
            assert(tail[i] == s[i + 1] && tail[j] == s[j + 1]);
        }
        lemma_remove_found(tail, q);
        let rt = remove_sequence(tail, q);
        assert(r == seq![s[0]] + rt);
        if has_seq(s, q) {
            let w = choose|w: int| 0 <= w < s.len() && s[w].sequence == q;
            assert(tail[w - 1] == s[w]);
            assert(has_seq(tail, q));
        } else {
            assert forall|i: int| 0 <= i < tail.len() implies (#[trigger] tail[i]).sequence
                != q by {
                assert(tail[i] == s[i + 1]);
                if s[i + 1].sequence == q {
                    assert(has_seq(s, q));
                }
            }
            assert(!has_seq(tail, q));
            assert(r =~= s);
        }
        assert forall|i: int| 0 <= i < r.len() implies (#[trigger] r[i]).sequence != q by {
            if i > 0 {
                assert(r[i] == rt[i - 1]);
            }
        }
    }
}

/// Removing a resting order by sequence number keeps a book side well-formed,
/// removes exactly the order that carried the number, and leaves the side
/// unchanged when none did.
pub proof fn lemma_remove_props(side: Side, s: Seq<Order>, q: u64, next: u64)
    requires
        sorted(side, s),
        side_ok(side, s, next),
        distinct_seqs(s),
    ensures
        ({
            let r = remove_sequence(s, q);
            &&& sorted(side, r)
            &&& side_ok(side, r, next)
            &&& distinct_seqs(r)
            &&& (!has_seq(s, q) ==> r == s)
            &&& (has_seq(s, q) ==> r.len() == s.len() - 1)
            &&& !has_seq(r, q)
            &&& forall|i: int|
                0 <= i < r.len() ==> exists|j: int| 0 <= j < s.len() && (#[trigger] r[i]) == s[j]
        }),
{
    lemma_remove_membership(s, q);
    lemma_remove_wf(side, s, q, next);
    lemma_remove_found(s, q);
}

/// Ordered insertion lands exactly at the first position whose order the new
/// one has priority over: how the executable insertion meets the model.
pub proof fn lemma_insert_at(side: Side, s: Seq<Order>, o: Order, idx: int)
    requires
        0 <= idx <= s.len(),
        forall|j: int| 0 <= j < idx ==> !prior(side, o, #[trigger] s[j]),
        idx < s.len() ==> prior(side, o, s[idx]),
    ensures
        insert_order(side, s, o) == s.insert(idx, o),
    decreases s.len(),
{
    if s.len() == 0 {
        assert(s.insert(0, o) =~= seq![o]);
    } else if idx == 0 {
        assert(seq![o] + s =~= s.insert(0, o));
    } else {
        let tail = s.drop_first();
        assert forall|j: int| 0 <= j < idx - 1 implies !prior(side, o, #[trigger] tail[j]) by {
            assert(tail[j] == s[j + 1]);
        }
        if idx - 1 < tail.len() {
            assert(tail[idx - 1] == s[idx]);
        }
        lemma_insert_at(side, tail, o, idx - 1);
        assert(seq![s[0]] + tail.insert(idx - 1, o) =~= s.insert(idx, o));
    }
}

/// Ordered insertion adds exactly the inserted order's amount to a side's
/// resting total.
pub proof fn lemma_insert_sum(side: Side, s: Seq<Order>, o: Order)
    ensures
        sum_amounts(insert_order(side, s, o)) == sum_amounts(s) + o.amount,
    decreases s.len(),
{
    let r = insert_order(side, s, o);
    if s.len() == 0 {
        assert(sum_amounts(seq![o].drop_first()) == 0);
    } else if prior(side, o, s[0]) {
        assert(r.drop_first() =~= s);
    } else {
        lemma_insert_sum(side, s.drop_first(), o);
        assert(r.drop_first() =~= insert_order(side, s.drop_first(), o));
    }
}

/// Priority chains along a side: if every order has priority over its
/// neighbour, it has priority over everything behind it.
pub proof fn lemma_adjacent_sorted(side: Side, s: Seq<Order>)
    requires
        forall|k: int| 0 <= k < s.len() - 1 ==> prior(side, s[k], #[trigger] s[k + 1]),
    ensures
        sorted(side, s),
{
    assert forall|i: int, j: int| 0 <= i < j < s.len() implies prior(side, s[i], s[j]) by {
        lemma_prior_chain(side, s, i, j);
    }
}

/// Priority from one position to a later one, one neighbour at a time.
proof fn lemma_prior_chain(side: Side, s: Seq<Order>, i: int, j: int)
    requires
        forall|k: int| 0 <= k < s.len() - 1 ==> prior(side, s[k], #[trigger] s[k + 1]),
        0 <= i < j < s.len(),
    ensures
        prior(side, s[i], s[j]),
    decreases j - i,
{
    if j > i + 1 {
        lemma_prior_chain(side, s, i, j - 1);
        assert(prior(side, s[j - 2 + 1], s[j - 1 + 1]));
    } else {
        assert(prior(side, s[i], s[i + 1]));
    }
}

/// A later issue bound keeps a book side valid.
pub proof fn lemma_side_ok_mono(side: Side, s: Seq<Order>, n1: u64, n2: u64)
    requires
        side_ok(side, s, n1),
        n1 <= n2,
    ensures
        side_ok(side, s, n2),
{
}

} // verus!
