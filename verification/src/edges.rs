//! Which edges of an event a sub-sampled partition fires on.
use crate::clockwork::{ClockworkV, TickingV};
use crate::expr::{ExprV, RelOp};
use crate::meaning::{
    compared_reals, holds, law_a_count_is_worth_itself, lemma_half, lemma_zero, looks_back_at,
    real_of, worth, Moment,
};
use crate::number::{half, nearest, one, zero};
use crate::partitions::{skip_counter, skipping, PartitionV};
use crate::running::most_states;
use crate::sums::{Arith, SumsV};
use vstd::prelude::*;

verus! {

/// Whether what comes after a count is one more than it was.
pub open spec fn counts_up<C>(h: ClockworkV<C>, name: Seq<char>, m: Moment) -> bool {
    worth((h.after)(name, ExprV::Number(one())), m) == (m.before)(name) + 1 as real
}

/// A partition whose clock takes one edge in so many works on the first and on
/// every so-manieth after it, and holds what it had on those between. Before the
/// `edge`-th its counter stands where the edge before left it, or one short of a
/// full turn where there was none.
pub proof fn law_a_sub_sampled_partition_fires_once_in_so_many_edges<C>(
    h: ClockworkV<C>,
    v: SumsV,
    clock: usize,
    t: TickingV,
    before: PartitionV,
    edge: nat,
    m: Moment,
)
    requires
        t.interval is None,
        1 < t.every_nth < most_states(),
        counts_up(h, skip_counter(clock), m),
        (m.before)(skip_counter(clock)) == ((edge + t.every_nth - 1) % (t.every_nth as int)) as real,
        (m.now)(skip_counter(clock)) == worth(skipping(h, v, clock, t, before).actions.last().1, m),
        real_of((v.work)(Arith::Sub, nearest(t.every_nth as nat), one())) == t.every_nth as real
            - 1 as real,
    ensures
        ({
            let after = skipping(h, v, clock, t, before);
            let fires = edge % (t.every_nth as nat) == 0;
            &&& after.actions.len() == before.actions.len() + 1
            &&& after.actions.last().0 == skip_counter(clock)
            &&& (m.now)(skip_counter(clock)) == (edge % (t.every_nth as nat)) as real
            &&& forall|i: int|
                0 <= i < before.actions.len() ==> (#[trigger] after.actions[i]).0
                    == before.actions[i].0 && worth(after.actions[i].1, m) == if fires {
                    worth(before.actions[i].1, m)
                } else {
                    (m.before)(before.actions[i].0)
                }
            &&& after.kept.drop_last() == before.kept
            &&& after.kept.last().0 == skip_counter(clock)
            &&& real_of(after.kept.last().2) == t.every_nth as real - 1 as real
        }),
{
    let n = t.every_nth as int;
    let name = skip_counter(clock);
    let after = skipping(h, v, clock, t, before);
    let next = (h.after)(name, ExprV::Number(one()));
    let many = ExprV::Number(nearest(n as nat));
    let none = ExprV::Number(zero());
    lemma_zero();
    lemma_half();
    law_a_count_is_worth_itself(n as nat);
    assert(worth(many, m) == n as real);
    assert(worth(none, m) == 0 as real);
    let full = ExprV::Rel(RelOp::Ge, Box::new(next), Box::new(many));
    assert(holds(full, m) == compared_reals(RelOp::Ge, worth(next, m), worth(many, m)));
    let counter = ExprV::If(Box::new(full), Box::new(none), Box::new(next));
    assert(after.actions.last().1 == counter);
    assert(worth(counter, m) == if holds(full, m) {
        worth(none, m)
    } else {
        worth(next, m)
    });
    let was = (edge + n - 1) % n;
    lemma_turns(edge as int, n);
    assert((was + 1) as real == was as real + 1 as real);
    assert((m.now)(name) == (edge as int % n) as real);
    let least = ExprV::Number(half());
    assert(worth(least, m) == 1 as real / 2 as real);
    let counted = ExprV::Ref(name);
    let runs = ExprV::Rel(RelOp::Lt, Box::new(counted), Box::new(least));
    assert(worth(counted, m) == (m.now)(name));
    assert(holds(runs, m) == compared_reals(RelOp::Lt, worth(counted, m), worth(least, m)));
    assert(holds(runs, m) == (edge as int % n == 0));
    assert forall|i: int| 0 <= i < before.actions.len() implies (#[trigger] after.actions[i]).0
        == before.actions[i].0 && worth(after.actions[i].1, m) == if edge as int % n == 0 {
        worth(before.actions[i].1, m)
    } else {
        (m.before)(before.actions[i].0)
    } by {
        let target = before.actions[i].0;
        let value = before.actions[i].1;
        let args = seq![ExprV::Ref(target)];
        let kept = ExprV::Call("pre"@, args);
        assert(args.len() == 1 && args[0] == ExprV::Ref(target));
        assert(looks_back_at("pre"@, args) == Some(target));
        assert(worth(kept, m) == (m.before)(target));
        let whole = ExprV::If(Box::new(runs), Box::new(value), Box::new(kept));
        assert(after.actions[i].1 == whole);
        assert(worth(whole, m) == if holds(runs, m) {
            worth(value, m)
        } else {
            worth(kept, m)
        });
    }
    assert(after.kept.drop_last() =~= before.kept);
}

proof fn lemma_turns(edge: int, n: int)
    requires
        edge >= 0,
        n > 1,
    ensures
        0 <= (edge + n - 1) % n < n,
        edge % n == if (edge + n - 1) % n == n - 1 {
            0
        } else {
            (edge + n - 1) % n + 1
        },
{
    let was = edge + n - 1;
    vstd::arithmetic::div_mod::lemma_fundamental_div_mod(was, n);
    let q = was / n;
    let r = was % n;
    assert(0 <= r < n) by {
        vstd::arithmetic::div_mod::lemma_mod_bound(was, n);
    }
    if r == n - 1 {
        assert(edge == n * q);
        assert(edge == q * n + 0) by (nonlinear_arith)
            requires
                edge == n * q,
        ;
        vstd::arithmetic::div_mod::lemma_fundamental_div_mod_converse(edge, n, q, 0);
    } else {
        assert(edge == n * (q - 1) + (r + 1)) by (nonlinear_arith)
            requires
                edge + n - 1 == n * q + r,
        ;
        assert(n * (q - 1) == (q - 1) * n) by (nonlinear_arith);
        vstd::arithmetic::div_mod::lemma_fundamental_div_mod_converse(edge, n, q - 1, r + 1);
    }
}

}
