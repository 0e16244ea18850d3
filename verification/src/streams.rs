//! What a stream carries towards a port: the mix of what the other ports on
//! its node push out, weighted by how hard they push.
use crate::make;
use crate::class::{ClassDef, Component};
use crate::expr::{
    gathered, kids, lemma_gathered_len, lemma_gathered_stops, lemma_kids_smaller, lemma_views,
    told, with_kids, BinOp, Expr, ExprV, RelOp,
};
use crate::lookup::{class_named, find_class, Registry};
use crate::number::{zero, Number};
use crate::table::Table;
use crate::text::{cut_last, dot, dotted, holds, join3, join5, same, split_last, texts};
use vstd::prelude::*;

verus! {

/// The floor of a stream mix: a port whose flow points out of the node still
/// weighs this much in the divisor, so the mix stays defined when every other
/// flow vanishes. A ten-billionth.
#[verifier::allow_in_spec]
pub fn stream_floor() -> Number
    returns
        (Number { bits: 0x3DDB_7CDF_D9D7_BDBB }),
{
    Number { bits: 0x3DDB_7CDF_D9D7_BDBB }
}

/// What `inStream` needs to know: who shares the node with a connector, and
/// what its class calls the stream and flow members.
#[derive(Debug)]
pub struct StreamContext<'c, 'a> {
    /// Connector instance path -> every path on the same node.
    pub nodes: Table<Vec<String>>,
    /// Connector instance path -> connector class name.
    pub connectors: &'c Table<String>,
    /// The connectors that were a class's own port: their flow enters the
    /// node where an inside connector's leaves it.
    pub outside: &'c Vec<String>,
    /// Class definitions, for the member prefixes.
    pub registry: &'c Registry<'a>,
}

pub ghost struct StreamV<'a> {
    pub nodes: Map<Seq<char>, Seq<Seq<char>>>,
    pub connectors: Map<Seq<char>, Seq<char>>,
    pub outside: Seq<Seq<char>>,
    pub classes: Seq<&'a ClassDef>,
}

impl<'c, 'a> StreamContext<'c, 'a> {
    pub open spec fn held(&self) -> StreamV<'a> {
        StreamV {
            nodes: self.nodes.deep_view(),
            connectors: self.connectors.deep_view(),
            outside: texts(self.outside@),
            classes: self.registry@,
        }
    }
}

/// Whether every connector has a class that is known and a node it is on.
pub open spec fn is_whole(context: StreamV) -> bool {
    forall|path: Seq<char>| #[trigger]
        context.connectors.contains_key(path) ==> class_named(
            context.classes,
            context.connectors[path],
        ) is Some && context.nodes.contains_key(path)
}

/// The first declaration of that name.
pub open spec fn declared_as(components: Seq<Component>, name: Seq<char>) -> Option<Component>
    decreases components.len(),
{
    if components.len() == 0 {
        None
    } else if components[0].name@ == name {
        Some(components[0])
    } else {
        declared_as(components.drop_first(), name)
    }
}

/// The name of the first flow variable.
pub open spec fn flow_among(components: Seq<Component>) -> Option<Seq<char>>
    decreases components.len(),
{
    if components.len() == 0 {
        None
    } else if components[0].flow {
        Some(components[0].name@)
    } else {
        flow_among(components.drop_first())
    }
}

/// The list without one name.
pub open spec fn all_but(names: Seq<Seq<char>>, name: Seq<char>) -> Seq<Seq<char>>
    decreases names.len(),
{
    if names.len() == 0 {
        Seq::empty()
    } else {
        let before = all_but(names.drop_last(), name);
        if names.last() == name {
            before
        } else {
            before.push(names.last())
        }
    }
}

/// The terms added up, from the left.
pub open spec fn summed(terms: Seq<ExprV>) -> ExprV
    decreases terms.len(),
{
    if terms.len() <= 1 {
        terms[0]
    } else {
        ExprV::Bin(BinOp::Add, Box::new(summed(terms.drop_last())), Box::new(terms.last()))
    }
}

/// The flow of a port into the node: as it is for an outside connector, and
/// turned round for an inside one.
pub open spec fn inflow(context: StreamV, other: Seq<char>, flow: Seq<char>) -> ExprV {
    let named = ExprV::Ref(dotted(other, flow));
    if context.outside.contains(other) {
        named
    } else {
        ExprV::Neg(Box::new(named))
    }
}

/// The larger of a port's inflow and a floor.
pub open spec fn at_least(
    context: StreamV,
    other: Seq<char>,
    flow: Seq<char>,
    floor: Number,
) -> ExprV {
    ExprV::Call("max"@, seq![inflow(context, other, flow), ExprV::Number(floor)])
}

/// What a port carries, times how hard it pushes.
pub open spec fn weighed(
    context: StreamV,
    other: Seq<char>,
    flow: Seq<char>,
    member: Seq<char>,
) -> ExprV {
    ExprV::Bin(
        BinOp::Mul,
        Box::new(at_least(context, other, flow, zero())),
        Box::new(ExprV::Ref(dotted(other, member))),
    )
}

/// What comes towards a port from the others on its node: its own outflow
/// where it is alone, the other's where there is one other, and otherwise
/// the mix.
pub open spec fn incoming(
    context: StreamV,
    name: Seq<char>,
    member: Seq<char>,
    flow: Seq<char>,
    others: Seq<Seq<char>>,
) -> ExprV {
    if others.len() == 0 {
        ExprV::Ref(name)
    } else if others.len() == 1 {
        ExprV::Ref(dotted(others[0], member))
    } else {
        ExprV::Bin(
            BinOp::Div,
            Box::new(
                summed(
                    Seq::new(
                        others.len(),
                        |i: int| weighed(context, others[i], flow, member),
                    ),
                ),
            ),
            Box::new(
                summed(
                    Seq::new(
                        others.len(),
                        |i: int| at_least(context, others[i], flow, stream_floor()),
                    ),
                ),
            ),
        )
    }
}

/// What `inStream` or `actualStream` of a name stands for.
pub open spec fn mixed(name: Seq<char>, context: StreamV, actual: bool) -> Result<
    ExprV,
    Seq<char>,
> {
    match cut_last(name, '.') {
        None => Err(
            "`inStream` expects a connector's stream variable, got `"@ + name + "`"@,
        ),
        Some((path, member)) => if !context.connectors.contains_key(path) {
            Err(
                "`"@ + path + "` is not a connector, so `inStream("@ + name + ")` has no meaning"@,
            )
        } else {
            let class_name = context.connectors[path];
            let class = class_named(context.classes, class_name)->0;
            match declared_as(class.components@, member) {
                None => Err("connector `"@ + class_name + "` has no member `"@ + member + "`"@),
                Some(component) => if !component.stream {
                    Err(
                        "`"@ + name + "` is not a stream variable; `inStream` reads only those"@,
                    )
                } else {
                    match flow_among(class.components@) {
                        None => Err(
                            "connector `"@ + class_name
                                + "` carries stream variables, so it needs exactly one flow variable, found 0"@,
                        ),
                        Some(flow) => {
                            let came = incoming(
                                context,
                                name,
                                member,
                                flow,
                                all_but(context.nodes[path], path),
                            );
                            if actual {
                                Ok(
                                    ExprV::If(
                                        Box::new(
                                            ExprV::Rel(
                                                RelOp::Gt,
                                                Box::new(ExprV::Ref(dotted(path, flow))),
                                                Box::new(ExprV::Number(zero())),
                                            ),
                                        ),
                                        Box::new(came),
                                        Box::new(ExprV::Ref(name)),
                                    ),
                                )
                            } else {
                                Ok(came)
                            }
                        },
                    }
                },
            }
        },
    }
}

/// The first declaration of that name.
pub fn find_declared<'c>(components: &'c Vec<Component>, name: &str) -> (r: Option<&'c Component>)
    ensures
        match r {
            Some(component) => declared_as(components@, name@) == Some(*component),
            None => declared_as(components@, name@) is None,
        },
{
    let mut i: usize = 0;
    assert(components@.skip(0) =~= components@);
    while i < components.len()
        invariant
            i <= components.len(),
            declared_as(components@, name@) == declared_as(components@.skip(i as int), name@),
        decreases components.len() - i,
    {
        assert(components@.skip(i as int)[0] == components@[i as int]);
        assert(components@.skip(i as int).drop_first() =~= components@.skip(i + 1));
        if same(components[i].name.as_str(), name) {
            return Some(&components[i]);
        }
        i = i + 1;
    }
    None
}

fn find_flow(components: &Vec<Component>) -> (r: Option<String>)
    ensures
        r.deep_view() == flow_among(components@),
{
    let mut i: usize = 0;
    assert(components@.skip(0) =~= components@);
    while i < components.len()
        invariant
            i <= components.len(),
            flow_among(components@) == flow_among(components@.skip(i as int)),
        decreases components.len() - i,
    {
        assert(components@.skip(i as int)[0] == components@[i as int]);
        assert(components@.skip(i as int).drop_first() =~= components@.skip(i + 1));
        if components[i].flow {
            return Some(components[i].name.clone());
        }
        i = i + 1;
    }
    None
}

fn without_name(names: &Vec<String>, name: &str) -> (r: Vec<String>)
    ensures
        texts(r@) == all_but(names.deep_view(), name@),
{
    let ghost all = names.deep_view();
    let mut out: Vec<String> = Vec::new();
    let mut i: usize = 0;
    assert(texts(out@) =~= all_but(all.take(0), name@));
    while i < names.len()
        invariant
            i <= names.len(),
            all == names.deep_view(),
            texts(out@) == all_but(all.take(i as int), name@),
        decreases names.len() - i,
    {
        let ghost before = texts(out@);
        assert(all.take(i + 1).drop_last() =~= all.take(i as int));
        if !same(names[i].as_str(), name) {
            out.push(names[i].clone());
            assert(texts(out@) =~= before.push(all[i as int]));
        }
        i = i + 1;
    }
    assert(all.take(i as int) =~= all);
    out
}

/// The terms added up, from the left.
pub fn sum_of(terms: Vec<Expr>) -> (r: Expr)
    requires
        terms.len() > 0,
    ensures
        r.deep_view() == summed(terms.deep_view()),
{
    let ghost all = terms.deep_view();
    let mut left = terms;
    let mut out: Expr = left.remove(0);
    assert(left.deep_view() =~= all.skip(1));
    let ghost mut n: int = 1;
    while left.len() > 0
        invariant
            1 <= n <= all.len(),
            left.len() == all.len() - n,
            left.deep_view() == all.skip(n),
            out.deep_view() == summed(all.take(n)),
        decreases left.len(),
    {
        let ghost before = left.deep_view();
        let term = left.remove(0);
        assert(left.deep_view() =~= before.drop_first());
        assert(left.deep_view() =~= all.skip(n + 1));
        assert(term.deep_view() == before[0]);
        assert(all.take(n + 1).drop_last() =~= all.take(n));
        out = Expr::Bin(BinOp::Add, Box::new(out), Box::new(term));
        proof {
            n = n + 1;
        }
    }
    assert(all.take(n) =~= all);
    out
}

fn inflow_of(context: &StreamContext, other: &String, flow: &str) -> (r: Expr)
    ensures
        r.deep_view() == inflow(context.held(), other@, flow@),
{
    let named = make::name(dot(other.as_str(), flow));
    if holds(context.outside, other.as_str()) {
        named
    } else {
        make::neg(named)
    }
}

fn larger_inflow(context: &StreamContext, other: &String, flow: &str, floor: Number) -> (r: Expr)
    ensures
        r.deep_view() == at_least(context.held(), other@, flow@, floor),
{
    make::call2("max", inflow_of(context, other, flow), make::number(floor))
}

fn incoming_of(
    context: &StreamContext,
    name: &str,
    member: &str,
    flow: &str,
    others: &Vec<String>,
) -> (r: Expr)
    ensures
        r.deep_view() == incoming(context.held(), name@, member@, flow@, texts(others@)),
{
    let ghost held = context.held();
    let ghost list = texts(others@);
    if others.len() == 0 {
        return Expr::Ref(name.to_owned());
    }
    if others.len() == 1 {
        assert(list[0] == others@[0]@);
        return Expr::Ref(dot(others[0].as_str(), member));
    }
    let mut upper: Vec<Expr> = Vec::new();
    let mut lower: Vec<Expr> = Vec::new();
    let mut i: usize = 0;
    while i < others.len()
        invariant
            i <= others.len(),
            held == context.held(),
            list == texts(others@),
            upper.len() == i,
            lower.len() == i,
            forall|k: int|
                0 <= k < i ==> (#[trigger] upper@[k]).deep_view() == weighed(
                    held,
                    list[k],
                    flow@,
                    member@,
                ),
            forall|k: int|
                0 <= k < i ==> (#[trigger] lower@[k]).deep_view() == at_least(
                    held,
                    list[k],
                    flow@,
                    stream_floor(),
                ),
        decreases others.len() - i,
    {
        let other = &others[i];
        assert(list[i as int] == other@);
        let weight = larger_inflow(context, other, flow, zero());
        let carried = make::name(dot(other.as_str(), member));
        upper.push(make::bin(BinOp::Mul, weight, carried));
        lower.push(larger_inflow(context, other, flow, stream_floor()));
        i = i + 1;
    }
    assert(upper.deep_view() =~= Seq::new(
        list.len(),
        |i: int| weighed(held, list[i], flow@, member@),
    ));
    assert(lower.deep_view() =~= Seq::new(
        list.len(),
        |i: int| at_least(held, list[i], flow@, stream_floor()),
    ));
    make::bin(BinOp::Div, sum_of(upper), sum_of(lower))
}

/// The value flowing towards a port: what the other ports of its node push
/// out, weighted by how hard they push. `actual` wraps it into
/// `actualStream`: the incoming mix when the flow enters, the port's own
/// outflow when it leaves.
///
/// Only the divisor is floored, so a silent port does not tug the mix towards
/// its own value. A connector whose own declarations hold a stream variable
/// and no flow variable has no weights to give, and is refused.
pub fn stream_mix(name: &str, context: &StreamContext, actual: bool) -> (r: Result<Expr, String>)
    requires
        is_whole(context.held()),
    ensures
        told(r) == mixed(name@, context.held(), actual),
{
    let (path, member) = match split_last(name, '.') {
        Some(cut) => cut,
        None => {
            return Err(
                join3("`inStream` expects a connector's stream variable, got `", name, "`"),
            );
        },
    };
    let class_name = match context.connectors.get(path.as_str()) {
        Some(class_name) => class_name,
        None => {
            return Err(
                join5(
                    "`",
                    path.as_str(),
                    "` is not a connector, so `inStream(",
                    name,
                    ")` has no meaning",
                ),
            );
        },
    };
    assert(context.held().connectors.contains_key(path@));
    let class = match find_class(context.registry, class_name.as_str()) {
        Some(class) => class,
        None => {
            return Err(String::new());
        },
    };
    let component = match find_declared(&class.components, member.as_str()) {
        Some(component) => component,
        None => {
            return Err(
                join5("connector `", class_name.as_str(), "` has no member `", member.as_str(), "`"),
            );
        },
    };
    if !component.stream {
        return Err(
            join3("`", name, "` is not a stream variable; `inStream` reads only those"),
        );
    }
    let flow = match find_flow(&class.components) {
        Some(flow) => flow,
        None => {
            return Err(
                join3(
                    "connector `",
                    class_name.as_str(),
                    "` carries stream variables, so it needs exactly one flow variable, found 0",
                ),
            );
        },
    };
    let others = match context.nodes.get(path.as_str()) {
        Some(node) => without_name(node, path.as_str()),
        None => Vec::new(),
    };
    let came = incoming_of(context, name, member.as_str(), flow.as_str(), &others);
    if actual {
        let flowing = make::name(dot(path.as_str(), flow.as_str()));
        let towards = make::rel(RelOp::Gt, flowing, make::number(zero()));
        Ok(make::either(towards, came, make::name(name.to_owned())))
    } else {
        Ok(came)
    }
}

pub open spec fn is_stream_call(e: ExprV) -> bool {
    e matches ExprV::Call(name, _) && (name == "inStream"@ || name == "actualStream"@)
}

/// What a call of `inStream` or `actualStream` comes to.
pub open spec fn stream_called(e: ExprV, context: StreamV) -> Result<ExprV, Seq<char>> {
    match e {
        ExprV::Call(name, args) => if args.len() == 1 {
            match args[0] {
                ExprV::Ref(target) => mixed(target, context, name == "actualStream"@),
                _ => Err("`"@ + name + "` expects a single reference to a stream variable"@),
            }
        } else {
            Err("`"@ + name + "` expects a single reference to a stream variable"@)
        },
        _ => Ok(e),
    }
}

/// Whether what an expression is made of is looked into.
pub open spec fn holds_streams(e: ExprV) -> bool {
    e is Call || e is Neg || e is Not || e is Bin || e is Rel || e is And || e is Or || e is If
}

/// [`unstreamed`] of every child.
pub open spec fn unstreamed_kids(e: ExprV, context: StreamV) -> Seq<Result<ExprV, Seq<char>>>
    decreases e, 0int,
{
    proof {
        lemma_kids_smaller(e);
    }
    Seq::new(
        kids(e).len(),
        |i: int|
            if 0 <= i < kids(e).len() {
                unstreamed(kids(e)[i], context)
            } else {
                Ok(e)
            },
    )
}

/// The expression with every `inStream` and `actualStream` replaced by the
/// mix the connection set defines for it.
pub open spec fn unstreamed(e: ExprV, context: StreamV) -> Result<ExprV, Seq<char>>
    decreases e, 1int,
{
    if is_stream_call(e) {
        stream_called(e, context)
    } else if holds_streams(e) {
        match gathered(unstreamed_kids(e, context)) {
            Ok(new) => Ok(with_kids(e, new)),
            Err(why) => Err(why),
        }
    } else {
        Ok(e)
    }
}

/// Replace `inStream(...)` and `actualStream(...)` with the mix the
/// connection set defines for them.
pub fn resolve_streams(expr: &Expr, context: &StreamContext) -> (r: Result<Expr, String>)
    requires
        is_whole(context.held()),
    ensures
        told(r) == unstreamed(expr.deep_view(), context.held()),
    decreases expr.deep_view(),
{
    match expr {
        Expr::Call(name, args) => {
            proof {
                lemma_views(*args);
            }
            if same(name.as_str(), "inStream") || same(name.as_str(), "actualStream") {
                if args.len() == 1 {
                    assert(args.deep_view()[0] == args@[0].deep_view());
                    if let Expr::Ref(target) = &args[0] {
                        return stream_mix(
                            target.as_str(),
                            context,
                            same(name.as_str(), "actualStream"),
                        );
                    }
                }
                return Err(
                    join3(
                        "`",
                        name.as_str(),
                        "` expects a single reference to a stream variable",
                    ),
                );
            }
        },
        Expr::Neg(_)
        | Expr::Not(_)
        | Expr::Bin(..)
        | Expr::Rel(..)
        | Expr::And(..)
        | Expr::Or(..)
        | Expr::If(..) => {},
        _ => {
            return Ok(expr.clone());
        },
    }
    let ghost held = context.held();
    let ghost shape = expr.deep_view();
    let ghost all = unstreamed_kids(shape, held);
    let parts = expr.children();
    let mut new: Vec<Expr> = Vec::new();
    let mut i: usize = 0;
    proof {
        lemma_kids_smaller(shape);
        assert(new.deep_view() =~= Seq::<ExprV>::empty());
    }
    while i < parts.len()
        invariant
            i <= parts.len(),
            shape == expr.deep_view(),
            parts.deep_view() == kids(shape),
            all == unstreamed_kids(shape, held),
            all.len() == parts.len(),
            forall|k: int|
                0 <= k < kids(shape).len() ==> (#[trigger] decreases_to!(shape => kids(shape)[k])),
            gathered(all.take(i as int)) == Ok::<Seq<ExprV>, Seq<char>>(new.deep_view()),
            is_whole(context.held()),
            held == context.held(),
            holds_streams(shape) && !is_stream_call(shape),
        decreases parts.len() - i,
    {
        assert(parts.deep_view()[i as int] == parts@[i as int].deep_view());
        assert(decreases_to!(shape => kids(shape)[i as int]));
        assert(all.take(i + 1).drop_last() =~= all.take(i as int));
        assert(all[i as int] == unstreamed(kids(shape)[i as int], held));
        let part: &Expr = parts[i];
        let ghost before = new.deep_view();
        match resolve_streams(part, context) {
            Ok(made) => {
                new.push(made);
                assert(new.deep_view() =~= before.push(made.deep_view()));
            },
            Err(why) => {
                proof {
                    lemma_gathered_stops(all, i + 1);
                }
                return Err(why);
            },
        }
        i = i + 1;
    }
    assert(all.take(i as int) =~= all);
    proof {
        lemma_gathered_len(all);
    }
    Ok(expr.with_children(new))
}

}
