//! What a stream is worth while the model runs: the mean of what the other ports of
//! its node push into it, each weighed by how hard it pushes.
use crate::class::{ClassDef, Component};
use crate::expr::{ExprV, RelOp};
use crate::lookup::class_named;
use crate::meaning::{
    compared_reals, grains, holds, larger_real, lemma_zero, looks_back_at, real_of, worth, Moment,
};
use crate::number::zero;
use crate::streams::{
    all_but, at_least, flow_among, incoming, inflow, mixed, stream_floor, summed, weighed, StreamV,
};
use crate::text::{cut_last, dotted, lemma_last_of_is};
use vstd::arithmetic::power2::{lemma_pow2_adds, lemma_pow2_pos, pow2};
use vstd::prelude::*;

verus! {

/// How hard a port pushes into its node: an inside connector by what flows out of
/// the component it belongs to, an outside one by what flows in.
pub open spec fn push_of(context: StreamV, port: Seq<char>, flow: Seq<char>, m: Moment) -> real {
    let through = (m.now)(dotted(port, flow));
    if context.outside.contains(port) {
        through
    } else {
        -through
    }
}

/// What a port carries.
pub open spec fn carried_by(port: Seq<char>, member: Seq<char>, m: Moment) -> real {
    (m.now)(dotted(port, member))
}

/// What something comes to over all the ports of a node but one.
pub open spec fn total(
    node: Seq<Seq<char>>,
    but: Seq<char>,
    of: spec_fn(Seq<char>) -> real,
) -> real
    decreases node.len(),
{
    if node.len() == 0 {
        0 as real
    } else {
        total(node.drop_last(), but, of) + (if node.last() == but {
            0 as real
        } else {
            of(node.last())
        })
    }
}

/// Whether a connector class has one flow variable, by that name.
pub open spec fn has_flow(class: ClassDef, flow: Seq<char>) -> bool {
    &&& exists|i: int| 0 <= i < class.components@.len() && (#[trigger] class.components@[i]).flow
    &&& forall|i: int|
        0 <= i < class.components@.len() && (#[trigger] class.components@[i]).flow
            ==> class.components@[i].name@ == flow
}

/// Whether `path` is a connector of a class with one flow variable.
pub open spec fn is_port(context: StreamV, path: Seq<char>, flow: Seq<char>) -> bool {
    &&& context.connectors.contains_key(path)
    &&& class_named(context.classes, context.connectors[path]) matches Some(class) && has_flow(
        class,
        flow,
    )
}

proof fn lemma_flow(components: Seq<Component>, flow: Seq<char>)
    requires
        exists|i: int| 0 <= i < components.len() && (#[trigger] components[i]).flow,
        forall|i: int|
            0 <= i < components.len() && (#[trigger] components[i]).flow ==> components[i].name@
                == flow,
    ensures
        flow_among(components) == Some(flow),
    decreases components.len(),
{
    if !components[0].flow {
        let rest = components.drop_first();
        let i = choose|i: int| 0 <= i < components.len() && (#[trigger] components[i]).flow;
        assert(rest[i - 1] == components[i]);
        assert forall|k: int| 0 <= k < rest.len() && (#[trigger] rest[k]).flow implies rest[k].name@
            == flow by {
            assert(rest[k] == components[k + 1]);
        }
        lemma_flow(rest, flow);
    }
}

proof fn lemma_cut(path: Seq<char>, member: Seq<char>)
    requires
        !member.contains('.'),
    ensures
        cut_last(dotted(path, member), '.') == Some((path, member)),
{
    reveal_strlit(".");
    let name = dotted(path, member);
    let at = path.len() as int;
    assert(name[at] == '.');
    assert forall|i: int| at < i < name.len() implies name[i] != '.' by {
        assert(name[i] == member[i - at - 1]);
    }
    lemma_last_of_is(name, '.', at);
    assert(name.take(at) =~= path);
    assert(name.skip(at + 1) =~= member);
}

proof fn lemma_inflow(context: StreamV, port: Seq<char>, flow: Seq<char>, m: Moment)
    ensures
        worth(inflow(context, port, flow), m) == push_of(context, port, flow, m),
{
    let named = ExprV::Ref(dotted(port, flow));
    assert(worth(named, m) == (m.now)(dotted(port, flow)));
    assert(worth(ExprV::Neg(Box::new(named)), m) == -worth(named, m));
}

proof fn lemma_at_least(
    context: StreamV,
    port: Seq<char>,
    flow: Seq<char>,
    floor: crate::number::Number,
    m: Moment,
)
    ensures
        worth(at_least(context, port, flow, floor), m) == larger_real(
            push_of(context, port, flow, m),
            real_of(floor),
        ),
{
    lemma_inflow(context, port, flow, m);
    let args = seq![inflow(context, port, flow), ExprV::Number(floor)];
    reveal_strlit("max");
    reveal_strlit("previous");
    reveal_strlit("pre");
    assert("max"@[0] == 'm' && "pre"@[0] == 'p' && "previous"@[0] == 'p');
    assert(looks_back_at("max"@, args) is None);
    assert(worth(args[1], m) == real_of(floor));
}

proof fn lemma_weighed(
    context: StreamV,
    port: Seq<char>,
    flow: Seq<char>,
    member: Seq<char>,
    m: Moment,
)
    ensures
        worth(weighed(context, port, flow, member), m) == larger_real(
            push_of(context, port, flow, m),
            0 as real,
        ) * carried_by(port, member, m),
{
    lemma_zero();
    lemma_at_least(context, port, flow, zero(), m);
    let carried = ExprV::Ref(dotted(port, member));
    assert(worth(carried, m) == carried_by(port, member, m));
}

proof fn lemma_summed(
    node: Seq<Seq<char>>,
    path: Seq<char>,
    terms: Seq<ExprV>,
    of: spec_fn(Seq<char>) -> real,
    m: Moment,
)
    requires
        terms.len() == all_but(node, path).len(),
        forall|i: int|
            0 <= i < terms.len() ==> worth(#[trigger] terms[i], m) == of(all_but(node, path)[i]),
    ensures
        terms.len() > 0 ==> worth(summed(terms), m) == total(node, path, of),
        terms.len() == 0 ==> total(node, path, of) == 0 as real,
    decreases node.len(),
{
    if node.len() > 0 {
        let short = node.drop_last();
        let before = all_but(short, path);
        let all = all_but(node, path);
        if node.last() == path {
            lemma_summed(short, path, terms, of, m);
        } else {
            assert(all == before.push(node.last()));
            let fewer = terms.drop_last();
            assert forall|i: int| 0 <= i < fewer.len() implies worth(#[trigger] fewer[i], m) == of(
                all_but(short, path)[i],
            ) by {
                assert(fewer[i] == terms[i]);
                assert(all[i] == before[i]);
            }
            lemma_summed(short, path, fewer, of, m);
            let last = terms.len() - 1;
            assert(worth(terms[last], m) == of(all[last]));
            assert(all[last] == node.last());
            assert(terms.last() == terms[last]);
        }
    }
}

/// How much the ports of a node push into it together, none of them less than the
/// floor.
pub open spec fn floored_push(
    context: StreamV,
    node: Seq<Seq<char>>,
    path: Seq<char>,
    flow: Seq<char>,
    m: Moment,
) -> real {
    total(
        node,
        path,
        |port: Seq<char>| larger_real(push_of(context, port, flow, m), real_of(stream_floor())),
    )
}

/// How much of what is carried they push into it together.
pub open spec fn pushed_in(
    context: StreamV,
    node: Seq<Seq<char>>,
    path: Seq<char>,
    flow: Seq<char>,
    member: Seq<char>,
    m: Moment,
) -> real {
    total(
        node,
        path,
        |port: Seq<char>|
            larger_real(push_of(context, port, flow, m), 0 as real) * carried_by(port, member, m),
    )
}

/// The floor is a ten-billionth, to within one part in a billion.
pub proof fn law_the_floor_is_a_ten_billionth()
    ensures
        real_of(stream_floor()) > 0 as real,
        (999_999_999 as real) < real_of(stream_floor()) * (10_000_000_000_000_000_000int as real)
            < (1_000_000_001 as real),
{
    let n = stream_floor();
    vstd::arithmetic::power2::lemma2_to64();
    vstd::arithmetic::power2::lemma2_to64_rest();
    lemma_pow2_adds(988, 86);
    lemma_pow2_adds(64, 22);
    lemma_pow2_pos(988);
    let digits: int = 0x1B_7CDF_D9D7_BDBB;
    assert(n.exponent() == 989 && n.significand() == digits);
    let a = pow2(988) as int;
    let b = pow2(86) as int;
    let whole = pow2(1074) as int;
    assert(b == 0x1_0000_0000_0000_0000 * 0x40_0000);
    assert(grains(n) == digits * a);
    assert(whole == a * b);
    let x = real_of(n);
    assert(x == (digits * a) as real / (a * b) as real);
    assert((digits * a) as real == digits as real * a as real) by (nonlinear_arith);
    assert((a * b) as real == a as real * b as real) by (nonlinear_arith);
    assert(x * b as real == digits as real) by (nonlinear_arith)
        requires
            x == (digits as real * a as real) / (a as real * b as real),
            a as real > 0 as real,
            b as real > 0 as real,
    ;
    assert(x > 0 as real && (999_999_999 as real) < x * (10_000_000_000_000_000_000int as real)
        < (1_000_000_001 as real)) by (nonlinear_arith)
        requires
            x * b as real == digits as real,
            digits == 7737125245533627,
            b == 77371252455336267181195264,
    ;
}

proof fn lemma_total_grows(
    node: Seq<Seq<char>>,
    path: Seq<char>,
    of: spec_fn(Seq<char>) -> real,
    least: real,
)
    requires
        least > 0 as real,
        forall|port: Seq<char>| #[trigger] of(port) >= least,
    ensures
        total(node, path, of) >= 0 as real,
        all_but(node, path).len() > 0 ==> total(node, path, of) > 0 as real,
    decreases node.len(),
{
    if node.len() > 0 {
        lemma_total_grows(node.drop_last(), path, of, least);
        assert(of(node.last()) >= least);
    }
}

pub proof fn lemma_over_and_back(a: real, b: real)
    requires
        b != 0 as real,
    ensures
        (a / b) * b == a,
{
    assert((a / b) * b == a) by (nonlinear_arith)
        requires
            b != 0 as real,
    ;
}

/// What comes towards a port of a node of three ports or more is the mean of what
/// the others push into the node: taken as often as they push together, it is what
/// they push in. A port that draws from the node adds nothing to it.
pub proof fn law_a_stream_is_the_mean_of_what_is_pushed_in(
    context: StreamV,
    path: Seq<char>,
    member: Seq<char>,
    flow: Seq<char>,
    m: Moment,
)
    requires
        is_port(context, path, flow),
        !member.contains('.'),
        all_but(context.nodes[path], path).len() >= 2,
    ensures
        mixed(dotted(path, member), context, false) matches Ok(e) ==> worth(e, m) * floored_push(
            context,
            context.nodes[path],
            path,
            flow,
            m,
        ) == pushed_in(context, context.nodes[path], path, flow, member, m) && floored_push(
            context,
            context.nodes[path],
            path,
            flow,
            m,
        ) > 0 as real,
{
    let name = dotted(path, member);
    let node = context.nodes[path];
    let others = all_but(node, path);
    let class = class_named(context.classes, context.connectors[path])->0;
    lemma_cut(path, member);
    lemma_flow(class.components@, flow);
    if let Ok(e) = mixed(name, context, false) {
        assert(e == incoming(context, name, member, flow, others));
        let upper = Seq::new(others.len(), |i: int| weighed(context, others[i], flow, member));
        let lower = Seq::new(
            others.len(),
            |i: int| at_least(context, others[i], flow, stream_floor()),
        );
        let pushed = |port: Seq<char>|
            larger_real(push_of(context, port, flow, m), 0 as real) * carried_by(port, member, m);
        let floored = |port: Seq<char>|
            larger_real(push_of(context, port, flow, m), real_of(stream_floor()));
        assert forall|i: int| 0 <= i < upper.len() implies worth(#[trigger] upper[i], m) == pushed(
            others[i],
        ) by {
            lemma_weighed(context, others[i], flow, member, m);
        }
        assert forall|i: int| 0 <= i < lower.len() implies worth(#[trigger] lower[i], m) == floored(
            others[i],
        ) by {
            lemma_at_least(context, others[i], flow, stream_floor(), m);
        }
        lemma_summed(node, path, upper, pushed, m);
        lemma_summed(node, path, lower, floored, m);
        law_the_floor_is_a_ten_billionth();
        lemma_total_grows(node, path, floored, real_of(stream_floor()));
        assert(pushed_in(context, node, path, flow, member, m) == total(node, path, pushed));
        assert(floored_push(context, node, path, flow, m) == total(node, path, floored));
        lemma_over_and_back(total(node, path, pushed), total(node, path, floored));
        assert(worth(e, m) == worth(summed(upper), m) / worth(summed(lower), m));
    }
}

proof fn lemma_one_of(
    node: Seq<Seq<char>>,
    path: Seq<char>,
    port: Seq<char>,
    of: spec_fn(Seq<char>) -> real,
    rest: real,
)
    requires
        node.no_duplicates(),
        forall|i: int|
            0 <= i < node.len() && node[i] != path && node[i] != port ==> of(#[trigger] node[i])
                == rest,
    ensures
        ({
            let n = all_but(node, path).len();
            if node.contains(port) && port != path {
                n >= 1 && total(node, path, of) == of(port) + ((n - 1) as real) * rest
            } else {
                total(node, path, of) == (n as real) * rest
            }
        }),
    decreases node.len(),
{
    if node.len() > 0 {
        let short = node.drop_last();
        let last = node.last();
        assert(node[node.len() - 1] == last);
        assert forall|i: int|
            0 <= i < short.len() && short[i] != path && short[i] != port implies of(
            #[trigger] short[i],
        ) == rest by {
            assert(short[i] == node[i]);
        }
        assert(short.no_duplicates());
        lemma_one_of(short, path, port, of, rest);
        assert(node =~= short.push(last));
        assert(!short.contains(last)) by {
            if short.contains(last) {
                let k = choose|k: int| 0 <= k < short.len() && short[k] == last;
                assert(node[k] == node[node.len() - 1]);
            }
        }
        assert(node.contains(port) == (short.contains(port) || last == port)) by {
            if short.contains(port) {
                let k = choose|k: int| 0 <= k < short.len() && short[k] == port;
                assert(node[k] == port);
            }
            if node.contains(port) && last != port {
                let k = choose|k: int| 0 <= k < node.len() && node[k] == port;
                assert(short[k] == port);
            }
        }
        let n = all_but(short, path).len();
        assert(((n + 1) as real) * rest == (n as real) * rest + rest) by (nonlinear_arith);
        if n >= 1 {
            assert((n as real) * rest == ((n - 1) as real) * rest + rest) by (nonlinear_arith);
        }
        assert((0 as real) * rest == 0 as real) by (nonlinear_arith);
    } else {
        assert((0 as real) * rest == 0 as real) by (nonlinear_arith);
    }
}

/// Where one other port alone pushes into a node, and no less than the floor, what
/// comes towards a port is what that one carries, thinned by the floor that every
/// silent port still weighs: the others may carry anything.
pub proof fn law_a_stream_is_what_the_one_pushing_port_carries(
    context: StreamV,
    path: Seq<char>,
    member: Seq<char>,
    flow: Seq<char>,
    port: Seq<char>,
    m: Moment,
)
    requires
        is_port(context, path, flow),
        !member.contains('.'),
        context.nodes[path].no_duplicates(),
        all_but(context.nodes[path], path).len() >= 2,
        context.nodes[path].contains(port),
        port != path,
        push_of(context, port, flow, m) >= real_of(stream_floor()),
        forall|i: int|
            0 <= i < context.nodes[path].len() && context.nodes[path][i] != path
                && context.nodes[path][i] != port ==> push_of(
                context,
                #[trigger] context.nodes[path][i],
                flow,
                m,
            ) <= 0 as real,
    ensures
        mixed(dotted(path, member), context, false) matches Ok(e) ==> worth(e, m) * (push_of(
            context,
            port,
            flow,
            m,
        ) + ((all_but(context.nodes[path], path).len() - 1) as real) * real_of(stream_floor()))
            == push_of(context, port, flow, m) * carried_by(port, member, m),
{
    let node = context.nodes[path];
    let n = all_but(node, path).len();
    law_a_stream_is_the_mean_of_what_is_pushed_in(context, path, member, flow, m);
    law_the_floor_is_a_ten_billionth();
    let pushed = |port: Seq<char>|
        larger_real(push_of(context, port, flow, m), 0 as real) * carried_by(port, member, m);
    let floored = |port: Seq<char>|
        larger_real(push_of(context, port, flow, m), real_of(stream_floor()));
    assert forall|i: int| 0 <= i < node.len() && node[i] != path && node[i] != port implies pushed(
        #[trigger] node[i],
    ) == 0 as real by {
        assert(push_of(context, node[i], flow, m) <= 0 as real);
        let c = carried_by(node[i], member, m);
        assert((0 as real) * c == 0 as real) by (nonlinear_arith);
        assert(larger_real(push_of(context, node[i], flow, m), 0 as real) == 0 as real);
    }
    assert forall|i: int| 0 <= i < node.len() && node[i] != path && node[i] != port implies floored(
        #[trigger] node[i],
    ) == real_of(stream_floor()) by {
        assert(push_of(context, node[i], flow, m) <= 0 as real);
    }
    lemma_one_of(node, path, port, pushed, 0 as real);
    lemma_one_of(node, path, port, floored, real_of(stream_floor()));
    assert(((n - 1) as real) * (0 as real) == 0 as real) by (nonlinear_arith);
    assert(pushed(port) == push_of(context, port, flow, m) * carried_by(port, member, m));
    assert(floored(port) == push_of(context, port, flow, m));
    assert(pushed_in(context, node, path, flow, member, m) == total(node, path, pushed));
    assert(floored_push(context, node, path, flow, m) == total(node, path, floored));
}

/// Where two ports are joined, what comes towards one is what the other carries.
pub proof fn law_a_stream_between_two_is_what_the_other_carries(
    context: StreamV,
    path: Seq<char>,
    member: Seq<char>,
    flow: Seq<char>,
    other: Seq<char>,
    m: Moment,
)
    requires
        is_port(context, path, flow),
        !member.contains('.'),
        other != path,
        context.nodes[path] == seq![path, other] || context.nodes[path] == seq![other, path],
    ensures
        mixed(dotted(path, member), context, false) matches Ok(e) ==> worth(e, m) == carried_by(
            other,
            member,
            m,
        ),
{
    let node = context.nodes[path];
    let class = class_named(context.classes, context.connectors[path])->0;
    lemma_cut(path, member);
    lemma_flow(class.components@, flow);
    reveal_with_fuel(all_but, 4);
    assert(node.drop_last().drop_last() =~= Seq::empty());
    assert(node.drop_last().last() == node[0]);
    assert(all_but(node, path) =~= seq![other]);
}

/// A port that is joined to nothing carries what it carries.
pub proof fn law_a_stream_alone_is_its_own(
    context: StreamV,
    path: Seq<char>,
    member: Seq<char>,
    flow: Seq<char>,
    m: Moment,
)
    requires
        is_port(context, path, flow),
        !member.contains('.'),
        context.nodes[path] == seq![path],
    ensures
        mixed(dotted(path, member), context, false) matches Ok(e) ==> worth(e, m) == carried_by(
            path,
            member,
            m,
        ),
{
    let node = context.nodes[path];
    let class = class_named(context.classes, context.connectors[path])->0;
    lemma_cut(path, member);
    lemma_flow(class.components@, flow);
    reveal_with_fuel(all_but, 3);
    assert(node.drop_last() =~= Seq::empty());
    assert(all_but(node, path) =~= Seq::empty());
}

/// What really passes a port is what comes towards it where something flows in, and
/// what it carries itself where nothing does.
pub proof fn law_what_passes_is_what_comes_or_what_is_carried(
    context: StreamV,
    path: Seq<char>,
    member: Seq<char>,
    flow: Seq<char>,
    m: Moment,
)
    requires
        is_port(context, path, flow),
        !member.contains('.'),
    ensures
        match (
            mixed(dotted(path, member), context, true),
            mixed(dotted(path, member), context, false),
        ) {
            (Ok(passes), Ok(comes)) => worth(passes, m) == (if (m.now)(dotted(path, flow))
                > 0 as real {
                worth(comes, m)
            } else {
                carried_by(path, member, m)
            }),
            (Err(a), Err(b)) => a == b,
            _ => false,
        },
{
    let class = class_named(context.classes, context.connectors[path])->0;
    lemma_cut(path, member);
    lemma_flow(class.components@, flow);
    lemma_zero();
    let through = ExprV::Ref(dotted(path, flow));
    let none = ExprV::Number(zero());
    let test = ExprV::Rel(RelOp::Gt, Box::new(through), Box::new(none));
    assert(worth(through, m) == (m.now)(dotted(path, flow)));
    assert(worth(none, m) == 0 as real);
    assert(holds(test, m) == compared_reals(RelOp::Gt, worth(through, m), worth(none, m)));
    let own = ExprV::Ref(dotted(path, member));
    assert(worth(own, m) == carried_by(path, member, m));
}

}
