//! Connections as they are written, and the buses they fill.
//!
//! A bus declares nothing of its own: `connect(bus.speed, sensor.w)` is what
//! creates `bus.speed`, and it takes the type of the other side. Buses
//! connected to each other share one pool of members.
use crate::class::{ClassDef, Component, EquationItem, EquationV};
use crate::expr::{told, Expr, ExprV};
use crate::flat::{is_left_out, Flat, FlatV};
use crate::groups::{group_of, grouped, labels, lemma_label_is_first};
use crate::joins::{all_known, keys_in_order, law_ordered, names_of, paths_in_order, set_from};
use crate::lookup::{class_named, find_class, Registry};
use crate::make;
use crate::number::zero;
use crate::table::{entered, lemma_is_entered, Table};
use crate::text::{
    begins_with, cut_last, decimal, digits, dot, dotted, find_first, first_of, holds, join2, join5,
    join7, same, split_last, texts, without_head,
};
use crate::value::scalars;
use vstd::prelude::*;

verus! {

pub type PathPairs = Seq<(Seq<char>, Seq<char>)>;

/// The path that one side of a `connect` names, or what it is told where it
/// names none.
pub open spec fn side_path(e: ExprV, shown: Seq<char>) -> Result<Seq<char>, Seq<char>> {
    match e {
        ExprV::Ref(path) => Ok(path),
        _ => Err("a side of connect must reference connectors, found "@ + shown),
    }
}

/// Whether a connector named in a class is one of its own ports, rather than
/// a port of one of its components: an outside port sits directly under the
/// class. The model at the top is nobody's component, so nothing there is
/// outside.
pub open spec fn is_outside(prefix: Seq<char>, path: Seq<char>) -> bool {
    prefix.len() > 0 && begins_with(path, prefix) && first_of(
        path.skip(prefix.len() as int),
        '.',
    ) == path.skip(prefix.len() as int).len()
}

fn stands_outside(prefix: &str, path: &str) -> (r: bool)
    ensures
        r == is_outside(prefix@, path@),
{
    if prefix.unicode_len() == 0 {
        return false;
    }
    match without_head(path, prefix) {
        Some(rest) => find_first(rest.as_str(), '.') == rest.as_str().unicode_len(),
        None => false,
    }
}

/// The outside ports with one more, where it is one and is not there yet.
pub open spec fn noted(outside: Seq<Seq<char>>, prefix: Seq<char>, path: Seq<char>) -> Seq<
    Seq<char>,
> {
    if is_outside(prefix, path) && !outside.contains(path) {
        outside.push(path)
    } else {
        outside
    }
}

/// What was gathered, with the first `n` pairs of sides connected. A
/// connection to a component that a condition left out is dropped.
pub open spec fn connected(
    acc: FlatV,
    prefix: Seq<char>,
    left: Seq<Seq<char>>,
    right: Seq<Seq<char>>,
    n: nat,
) -> FlatV
    decreases n,
{
    if n == 0 {
        acc
    } else {
        let before = connected(acc, prefix, left, right, (n - 1) as nat);
        let a = left[n - 1];
        let b = right[n - 1];
        if is_left_out(before.disabled, a) || is_left_out(before.disabled, b) {
            before
        } else {
            FlatV {
                outside: noted(noted(before.outside, prefix, a), prefix, b),
                connects: before.connects.push((a, b)),
                ..before
            }
        }
    }
}

/// What the lengths of two sides that do not match are told.
pub open spec fn uneven(left: nat, right: nat) -> Seq<char> {
    "connect between "@ + digits(left) + " and "@ + digits(right) + " connector(s)"@
}

/// What connecting two lists of paths comes to.
pub open spec fn paired(
    acc: FlatV,
    prefix: Seq<char>,
    left: Seq<Seq<char>>,
    right: Seq<Seq<char>>,
) -> Result<FlatV, Seq<char>> {
    if left.len() != right.len() {
        Err(uneven(left.len(), right.len()))
    } else {
        Ok(connected(acc, prefix, left, right, left.len()))
    }
}

fn note(outside: &mut Vec<String>, prefix: &str, path: &String)
    ensures
        texts(final(outside)@) == noted(texts(old(outside)@), prefix@, path@),
{
    let ghost was = texts(outside@);
    if stands_outside(prefix, path.as_str()) && !holds(outside, path.as_str()) {
        outside.push(path.clone());
        assert(texts(outside@) =~= was.push(path@));
    }
}

/// Pair the paths that both sides of a `connect` come to.
///
/// A whole array of connectors pairs element by element with the other side,
/// which must then have the same length. Connections to components a
/// condition left out are dropped, like everywhere else.
pub fn pair_up(acc: &mut Flat, prefix: &str, left: &Vec<String>, right: &Vec<String>) -> (r: Result<
    (),
    String,
>)
    ensures
        match paired(old(acc).deep_view(), prefix@, texts(left@), texts(right@)) {
            Err(trouble) => r matches Err(why) && why@ == trouble && final(acc).deep_view() == old(
                acc,
            ).deep_view(),
            Ok(made) => r is Ok && final(acc).deep_view() == made,
        },
{
    if left.len() != right.len() {
        let a = decimal(left.len() as u64);
        let b = decimal(right.len() as u64);
        return Err(
            join5("connect between ", a.as_str(), " and ", b.as_str(), " connector(s)"),
        );
    }
    let ghost was = acc.deep_view();
    let ghost ls = texts(left@);
    let ghost rs = texts(right@);
    let mut i: usize = 0;
    while i < left.len()
        invariant
            i <= left.len(),
            left@.len() == right@.len(),
            ls == texts(left@),
            rs == texts(right@),
            acc.deep_view() == connected(was, prefix@, ls, rs, i as nat),
        decreases left.len() - i,
    {
        let ghost before = acc.deep_view();
        let a = &left[i];
        let b = &right[i];
        if !acc.is_disabled(a.as_str()) && !acc.is_disabled(b.as_str()) {
            note(&mut acc.outside, prefix, a);
            note(&mut acc.outside, prefix, b);
            let ghost pairs = acc.connects.deep_view();
            acc.connects.push((a.clone(), b.clone()));
            assert(acc.connects.deep_view() =~= pairs.push((a@, b@)));
            assert(acc.deep_view() == (FlatV {
                outside: noted(noted(before.outside, prefix@, a@), prefix@, b@),
                connects: before.connects.push((a@, b@)),
                ..before
            }));
        }
        i = i + 1;
    }
    Ok(())
}

/// The paths of a list of scalars, or what the first that names none is told.
pub open spec fn side_paths(
    items: Seq<ExprV>,
    show: spec_fn(ExprV) -> Seq<char>,
    n: nat,
) -> Result<Seq<Seq<char>>, Seq<char>>
    decreases n,
{
    if n == 0 {
        Ok(Seq::empty())
    } else {
        match side_paths(items, show, (n - 1) as nat) {
            Err(why) => Err(why),
            Ok(before) => match side_path(items[n - 1], show(items[n - 1])) {
                Err(why) => Err(why),
                Ok(path) => Ok(before.push(path)),
            },
        }
    }
}

/// A connection is kept exactly where neither of its sides was left out, and
/// nothing else of what was gathered changes but the ports noted as outside.
pub proof fn law_connections_kept(acc: FlatV, prefix: Seq<char>, a: Seq<char>, b: Seq<char>)
    ensures
        paired(acc, prefix, seq![a], seq![b]) matches Ok(made) && {
            &&& made.connects == (if is_left_out(acc.disabled, a) || is_left_out(acc.disabled, b) {
                acc.connects
            } else {
                acc.connects.push((a, b))
            })
            &&& made == (FlatV { connects: made.connects, outside: made.outside, ..acc })
        },
{
    reveal_with_fuel(connected, 2);
}

/// What building a class under a path adds to what was gathered, or why it
/// fails.
pub type Builder = spec_fn(ClassDef, Seq<char>, FlatV) -> Result<FlatV, Seq<char>>;

/// What builds a class under a path.
pub struct Maker<B> {
    pub build: B,
    /// What it answers, mathematically.
    pub model: Ghost<Builder>,
}

/// Whether a builder may be asked anything, answers as `m` says, and names only
/// classes that are known as the class of a connector.
pub open spec fn builds_as<B: Fn(&ClassDef, &str, Flat) -> Result<Flat, String>>(
    build: B,
    classes: Seq<&ClassDef>,
    m: Builder,
) -> bool {
    &&& forall|class: &ClassDef, path: &str, acc: Flat| #[trigger]
        call_requires(build, (class, path, acc))
    &&& forall|class: &ClassDef, path: &str, acc: Flat, r: Result<Flat, String>| #[trigger]
        call_ensures(build, (class, path, acc), r) ==> {
            &&& told(r) == m(*class, path@, acc.deep_view())
            &&& all_known(classes, acc.connectors.deep_view()) ==> (r matches Ok(made) ==> all_known(
                classes,
                made.connectors.deep_view(),
            ))
        }
}

/// Whether a builder may be asked anything, answers as its model says, and
/// names only classes that are known as the class of a connector.
pub open spec fn builds<B: Fn(&ClassDef, &str, Flat) -> Result<Flat, String>>(
    build: Maker<B>,
    classes: Seq<&ClassDef>,
) -> bool {
    builds_as(build.build, classes, build.model@)
}

/// The function behind a builder.
pub open spec fn built_by<B: Fn(&ClassDef, &str, Flat) -> Result<Flat, String>>(
    build: Maker<B>,
) -> Builder {
    build.model@
}

impl<B: Fn(&ClassDef, &str, Flat) -> Result<Flat, String>> Maker<B> {
    /// What builds a class, where there is anything it answers at all.
    pub fn new(build: B, registry: &Registry) -> (r: Self)
        requires
            exists|m: Builder| #[trigger] builds_as(build, registry@, m),
        ensures
            builds(r, registry@),
            r.build == build,
    {
        Maker { build, model: Ghost(choose|m: Builder| #[trigger] builds_as(build, registry@, m)) }
    }
}

/// Ask a builder.
pub fn build_under<B: Fn(&ClassDef, &str, Flat) -> Result<Flat, String>>(
    build: &Maker<B>,
    class: &ClassDef,
    path: &str,
    acc: Flat,
    registry: &Registry,
) -> (r: Result<Flat, String>)
    requires
        builds(*build, registry@),
        all_known(registry@, acc.connectors.deep_view()),
    ensures
        told(r) == (built_by(*build))(*class, path@, acc.deep_view()),
        r matches Ok(made) ==> all_known(registry@, made.connectors.deep_view()),
{
    let f = &build.build;
    f(class, path, acc)
}

/// Whether a connector is a bus.
pub open spec fn is_bus(classes: Seq<&ClassDef>, connectors: PathPairs, path: Seq<char>) -> bool {
    match class_named(classes, entered(connectors)[path]) {
        Some(class) => class.expandable,
        None => false,
    }
}

/// The buses among the first `n` of a list of paths.
pub open spec fn buses_among(
    classes: Seq<&ClassDef>,
    connectors: PathPairs,
    paths: Seq<Seq<char>>,
    n: nat,
) -> Seq<Seq<char>>
    decreases n,
{
    if n == 0 || n > paths.len() {
        Seq::empty()
    } else {
        let before = buses_among(classes, connectors, paths, (n - 1) as nat);
        if is_bus(classes, connectors, paths[n - 1]) {
            before.push(paths[n - 1])
        } else {
            before
        }
    }
}

/// The buses of what was gathered, in order.
pub open spec fn buses_of(classes: Seq<&ClassDef>, connectors: PathPairs) -> Seq<Seq<char>> {
    let paths = keys_in_order(connectors);
    buses_among(classes, connectors, paths, paths.len())
}

/// Where a path stands in a list, or past its end.
pub open spec fn place_in(list: Seq<Seq<char>>, path: Seq<char>) -> nat
    decreases list.len(),
{
    if list.len() == 0 || list[0] == path {
        0
    } else {
        1 + place_in(list.drop_first(), path)
    }
}

/// Which buses the first `n` connections join directly.
pub open spec fn bus_edges(buses: Seq<Seq<char>>, connects: PathPairs, n: nat) -> Seq<
    (usize, usize),
>
    decreases n,
{
    if n == 0 || n > connects.len() {
        Seq::empty()
    } else {
        let before = bus_edges(buses, connects, (n - 1) as nat);
        let a = place_in(buses, connects[n - 1].0);
        let b = place_in(buses, connects[n - 1].1);
        if a < buses.len() && b < buses.len() {
            before.push((a as usize, b as usize))
        } else {
            before
        }
    }
}

/// A member that a connection names on a bus: the group of the bus, the
/// member, and the other side, which is where its type comes from.
pub ghost struct PendingV {
    pub group: int,
    pub member: Seq<char>,
    pub other: Seq<char>,
}

/// The member that one side of a connection names on a bus, where it does.
pub open spec fn named_on_bus(
    buses: Seq<Seq<char>>,
    edges: Seq<(usize, usize)>,
    connectors: PathPairs,
    side: Seq<char>,
    other: Seq<char>,
) -> Option<PendingV> {
    if entered(connectors).contains_key(side) {
        None
    } else {
        match cut_last(side, '.') {
            Some((head, member)) => if place_in(buses, head) < buses.len() {
                Some(
                    PendingV {
                        group: group_of(edges, place_in(buses, head) as int),
                        member,
                        other,
                    },
                )
            } else {
                None
            },
            None => None,
        }
    }
}

pub open spec fn with_pending(list: Seq<PendingV>, more: Option<PendingV>) -> Seq<PendingV> {
    match more {
        Some(one) => list.push(one),
        None => list,
    }
}

/// Every member that the first `n` connections name on a bus.
pub open spec fn pending_of(
    buses: Seq<Seq<char>>,
    edges: Seq<(usize, usize)>,
    connectors: PathPairs,
    connects: PathPairs,
    n: nat,
) -> Seq<PendingV>
    decreases n,
{
    if n == 0 || n > connects.len() {
        Seq::empty()
    } else {
        let before = pending_of(buses, edges, connectors, connects, (n - 1) as nat);
        let (a, b) = connects[n - 1];
        with_pending(
            with_pending(before, named_on_bus(buses, edges, connectors, a, b)),
            named_on_bus(buses, edges, connectors, b, a),
        )
    }
}

/// How far filling the buses has come.
pub ghost struct FillingV {
    pub acc: FlatV,
    pub fresh: PathPairs,
    pub waiting: Seq<PendingV>,
    pub progress: bool,
}

/// The paths of a member on every bus of a group.
pub open spec fn member_paths(
    buses: Seq<Seq<char>>,
    edges: Seq<(usize, usize)>,
    one: PendingV,
) -> Seq<Seq<char>> {
    let group = set_from(buses, edges, one.group, buses.len());
    Seq::new(group.len(), |i: int| dotted(group[i], one.member))
}

/// What was gathered, with a member of the given class built on the first `n`
/// of the paths.
pub open spec fn members_built(
    acc: FlatV,
    class: ClassDef,
    class_name: Seq<char>,
    paths: Seq<Seq<char>>,
    n: nat,
    build: Builder,
) -> Result<FlatV, Seq<char>>
    decreases n,
{
    if n == 0 {
        Ok(acc)
    } else {
        match members_built(acc, class, class_name, paths, (n - 1) as nat, build) {
            Err(why) => Err(why),
            Ok(before) => match build(class, paths[n - 1] + "."@, before) {
                Err(why) => Err(why),
                Ok(made) => Ok(
                    FlatV { connectors: made.connectors.push((paths[n - 1], class_name)), ..made },
                ),
            },
        }
    }
}

/// The first path joined to each of the others.
pub open spec fn joined_to_first(paths: Seq<Seq<char>>) -> PathPairs {
    if paths.len() == 0 {
        Seq::empty()
    } else {
        Seq::new((paths.len() - 1) as nat, |i: int| (paths[0], paths[i + 1]))
    }
}

/// One member looked at: it may be there already, it may have to wait until
/// the other side is a connector, or it is built on every bus of the group.
pub open spec fn filled_one(
    classes: Seq<&ClassDef>,
    buses: Seq<Seq<char>>,
    edges: Seq<(usize, usize)>,
    before: FillingV,
    one: PendingV,
    build: Builder,
) -> Result<FillingV, Seq<char>> {
    let paths = member_paths(buses, edges, one);
    let there = entered(before.acc.connectors);
    if paths.len() == 0 || there.contains_key(paths[0]) {
        Ok(before)
    } else if !there.contains_key(one.other) {
        Ok(FillingV { waiting: before.waiting.push(one), ..before })
    } else {
        let class_name = there[one.other];
        match class_named(classes, class_name) {
            Some(class) => match members_built(
                before.acc,
                class,
                class_name,
                paths,
                paths.len(),
                build,
            ) {
                Err(why) => Err(why),
                Ok(acc) => Ok(
                    FillingV {
                        acc,
                        fresh: before.fresh + joined_to_first(paths),
                        waiting: before.waiting,
                        progress: true,
                    },
                ),
            },
            None => Ok(before),
        }
    }
}

/// The first `n` members looked at once.
pub open spec fn filled_round(
    classes: Seq<&ClassDef>,
    buses: Seq<Seq<char>>,
    edges: Seq<(usize, usize)>,
    acc: FlatV,
    fresh: PathPairs,
    pending: Seq<PendingV>,
    n: nat,
    build: Builder,
) -> Result<FillingV, Seq<char>>
    decreases n,
{
    if n == 0 {
        Ok(FillingV { acc, fresh, waiting: Seq::empty(), progress: false })
    } else {
        match filled_round(classes, buses, edges, acc, fresh, pending, (n - 1) as nat, build) {
            Err(why) => Err(why),
            Ok(before) => filled_one(classes, buses, edges, before, pending[n - 1], build),
        }
    }
}

/// Rounds of looking, for as long as a round gets anywhere and leaves some
/// waiting.
pub open spec fn filled_up(
    classes: Seq<&ClassDef>,
    buses: Seq<Seq<char>>,
    edges: Seq<(usize, usize)>,
    acc: FlatV,
    fresh: PathPairs,
    pending: Seq<PendingV>,
    build: Builder,
) -> Result<FillingV, Seq<char>>
    decreases pending.len(),
{
    match filled_round(classes, buses, edges, acc, fresh, pending, pending.len(), build) {
        Err(why) => Err(why),
        Ok(made) => if made.waiting.len() == 0 || !made.progress || made.waiting.len()
            >= pending.len() {
            Ok(made)
        } else {
            filled_up(classes, buses, edges, made.acc, made.fresh, made.waiting, build)
        },
    }
}

/// Whether an expression names exactly this variable.
pub open spec fn is_named(e: ExprV, path: Seq<char>) -> bool {
    e == ExprV::Ref(path)
}

/// Whether an expression names exactly this variable.
pub fn names_it(expr: &Expr, path: &str) -> (r: bool)
    ensures
        r == is_named(expr.deep_view(), path@),
{
    match expr {
        Expr::Ref(name) => same(name.as_str(), path),
        _ => false,
    }
}

pub open spec fn is_stated(equations: Seq<EquationV>, path: Seq<char>) -> bool {
    exists|i: int|
        0 <= i < equations.len() && (is_named((#[trigger] equations[i]).lhs, path) || is_named(
            equations[i].rhs,
            path,
        ))
}

pub open spec fn is_declared(acc: FlatV, path: Seq<char>) -> bool {
    exists|i: int| 0 <= i < acc.components.len() && (#[trigger] acc.components[i]).name == path
}

/// What was gathered, with a declared member of a bus that nothing is said
/// about standing at zero, or at false where it is Boolean.
pub open spec fn member_rested(acc: FlatV, bus: Seq<char>, member: Component) -> FlatV {
    let path = dotted(bus, member.name@);
    if is_stated(acc.equations, path) || entered(acc.connectors).contains_key(path)
        || !is_declared(acc, path) {
        acc
    } else {
        FlatV {
            equations: acc.equations.push(
                EquationV {
                    lhs: ExprV::Ref(path),
                    rhs: if member.of_type@ == "Boolean"@ {
                        ExprV::Bool(false)
                    } else {
                        ExprV::Number(zero())
                    },
                    origin: acc.origin,
                },
            ),
            ..acc
        }
    }
}

/// The same for the first `n` members that a bus declares.
pub open spec fn members_rested(acc: FlatV, bus: Seq<char>, members: Seq<Component>, n: nat) -> FlatV
    decreases n,
{
    if n == 0 || n > members.len() {
        acc
    } else {
        member_rested(members_rested(acc, bus, members, (n - 1) as nat), bus, members[n - 1])
    }
}

/// The same for the first `n` buses.
pub open spec fn buses_rested(
    classes: Seq<&ClassDef>,
    acc: FlatV,
    buses: Seq<Seq<char>>,
    n: nat,
) -> FlatV
    decreases n,
{
    if n == 0 || n > buses.len() {
        acc
    } else {
        let before = buses_rested(classes, acc, buses, (n - 1) as nat);
        let there = entered(before.connectors);
        if there.contains_key(buses[n - 1]) {
            match class_named(classes, there[buses[n - 1]]) {
                Some(class) => members_rested(
                    before,
                    buses[n - 1],
                    class.components@,
                    class.components@.len(),
                ),
                None => before,
            }
        } else {
            before
        }
    }
}

/// What is said of a member whose type nothing gives.
pub open spec fn stuck(one: PendingV) -> Seq<char> {
    "connect("@ + one.other + ", ..."@ + one.member
        + "): a bus member takes its type from the other side of the connection, and `"@
        + one.other + "` is not a connector"@
}

/// What was gathered, with every bus given the members its connections name.
pub open spec fn with_buses(classes: Seq<&ClassDef>, acc: FlatV, build: Builder) -> Result<
    FlatV,
    Seq<char>,
> {
    let buses = buses_of(classes, acc.connectors);
    if buses.len() == 0 {
        Ok(acc)
    } else {
        let edges = bus_edges(buses, acc.connects, acc.connects.len());
        let pending = pending_of(
            buses,
            edges,
            acc.connectors,
            acc.connects,
            acc.connects.len(),
        );
        match filled_up(classes, buses, edges, acc, Seq::empty(), pending, build) {
            Err(why) => Err(why),
            Ok(made) => if made.waiting.len() > 0 {
                Err(stuck(made.waiting[0]))
            } else {
                Ok(
                    buses_rested(
                        classes,
                        FlatV { connects: made.acc.connects + made.fresh, ..made.acc },
                        buses,
                        buses.len(),
                    ),
                )
            },
        }
    }
}

proof fn lemma_place_in(list: Seq<Seq<char>>, path: Seq<char>, at: nat)
    requires
        at <= list.len(),
        at < list.len() ==> list[at as int] == path,
        forall|i: int| 0 <= i < at ==> #[trigger] list[i] != path,
    ensures
        place_in(list, path) == at,
    decreases list.len(),
{
    if at > 0 {
        assert(list[0] != path);
        let rest = list.drop_first();
        assert forall|i: int| 0 <= i < at - 1 implies #[trigger] rest[i] != path by {
            assert(rest[i] == list[i + 1]);
        }
        lemma_place_in(rest, path, (at - 1) as nat);
    }
}

fn find_place(list: &Vec<String>, path: &str) -> (r: Option<usize>)
    ensures
        match r {
            Some(at) => at < list@.len() && at == place_in(texts(list@), path@),
            None => place_in(texts(list@), path@) >= list@.len(),
        },
{
    let ghost all = texts(list@);
    let mut i: usize = 0;
    while i < list.len()
        invariant
            i <= list.len(),
            all == texts(list@),
            forall|k: int| 0 <= k < i ==> #[trigger] all[k] != path@,
        decreases list.len() - i,
    {
        if same(list[i].as_str(), path) {
            proof {
                lemma_place_in(all, path@, i as nat);
            }
            return Some(i);
        }
        assert(all[i as int] != path@);
        i = i + 1;
    }
    proof {
        lemma_place_in(all, path@, i as nat);
    }
    None
}

fn find_buses(registry: &Registry, connectors: &Table<String>) -> (r: Vec<String>)
    requires
        all_known(registry@, connectors.deep_view()),
    ensures
        texts(r@) == buses_of(registry@, connectors.entries.deep_view()),
{
    let paths = paths_in_order(connectors);
    let ghost all = texts(paths@);
    let ghost held = connectors.entries.deep_view();
    let ghost keys = names_of(held);
    proof {
        law_ordered(keys);
    }
    let mut out: Vec<String> = Vec::new();
    let mut i: usize = 0;
    assert(texts(out@) =~= Seq::empty());
    while i < paths.len()
        invariant
            i <= paths.len(),
            all == texts(paths@),
            held == connectors.entries.deep_view(),
            keys == names_of(held),
            all_known(registry@, connectors.deep_view()),
            forall|x: Seq<char>| #[trigger] all.contains(x) ==> keys.contains(x),
            texts(out@) == buses_among(registry@, held, all, i as nat),
        decreases paths.len() - i,
    {
        let ghost before = texts(out@);
        proof {
            assert(all[i as int] == paths@[i as int]@);
            assert(all.contains(all[i as int]));
            let e = choose|e: int| 0 <= e < keys.len() && keys[e] == all[i as int];
            lemma_is_entered(held, e);
        }
        if let Some(class_name) = connectors.get(paths[i].as_str()) {
            if let Some(class) = find_class(registry, class_name.as_str()) {
                if class.expandable {
                    out.push(paths[i].clone());
                    assert(texts(out@) =~= before.push(all[i as int]));
                }
            }
        }
        i = i + 1;
    }
    out
}

fn find_bus_edges(buses: &Vec<String>, connects: &Vec<(String, String)>) -> (r: Vec<
    (usize, usize),
>)
    ensures
        r@ == bus_edges(texts(buses@), connects.deep_view(), connects@.len()),
        forall|k: int|
            0 <= k < r@.len() ==> (#[trigger] r@[k]).0 < buses@.len() && r@[k].1 < buses@.len(),
{
    let ghost all = connects.deep_view();
    let ghost here = texts(buses@);
    let mut out: Vec<(usize, usize)> = Vec::new();
    let mut i: usize = 0;
    while i < connects.len()
        invariant
            i <= connects.len(),
            all == connects.deep_view(),
            here == texts(buses@),
            out@ == bus_edges(here, all, i as nat),
            forall|k: int|
                0 <= k < out@.len() ==> (#[trigger] out@[k]).0 < buses@.len() && out@[k].1
                    < buses@.len(),
        decreases connects.len() - i,
    {
        assert(all[i as int] == connects@[i as int].deep_view());
        if let Some(a) = find_place(buses, connects[i].0.as_str()) {
            if let Some(b) = find_place(buses, connects[i].1.as_str()) {
                out.push((a, b));
            }
        }
        i = i + 1;
    }
    out
}

/// A member that waits to be built, as it is held.
struct Pending {
    group: usize,
    member: String,
    other: String,
}

impl DeepView for Pending {
    type V = PendingV;

    closed spec fn deep_view(&self) -> PendingV {
        PendingV { group: self.group as int, member: self.member@, other: self.other@ }
    }
}

fn find_named(
    buses: &Vec<String>,
    edges: &Vec<(usize, usize)>,
    label: &Vec<usize>,
    connectors: &Table<String>,
    side: &String,
    other: &String,
) -> (r: Option<Pending>)
    requires
        labels(edges@, label@),
        label@.len() == buses@.len(),
    ensures
        r.deep_view() == named_on_bus(
            texts(buses@),
            edges@,
            connectors.entries.deep_view(),
            side@,
            other@,
        ),
        r matches Some(one) ==> one.group < buses@.len(),
{
    if connectors.has(side.as_str()) {
        return None;
    }
    match split_last(side.as_str(), '.') {
        Some((head, member)) => match find_place(buses, head.as_str()) {
            Some(at) => {
                proof {
                    lemma_label_is_first(edges@, label@, at as int);
                }
                assert(label@[at as int] <= at);
                let one = Pending { group: label[at], member, other: other.clone() };
                assert(one.deep_view() == (PendingV {
                    group: group_of(edges@, at as int),
                    member: member@,
                    other: other@,
                }));
                Some(one)
            },
            None => None,
        },
        None => None,
    }
}

spec fn groups_within(pending: Seq<Pending>, n: nat) -> bool {
    forall|k: int| 0 <= k < pending.len() ==> (#[trigger] pending[k]).group < n
}

fn find_pending(
    buses: &Vec<String>,
    edges: &Vec<(usize, usize)>,
    label: &Vec<usize>,
    connectors: &Table<String>,
    connects: &Vec<(String, String)>,
) -> (r: Vec<Pending>)
    requires
        labels(edges@, label@),
        label@.len() == buses@.len(),
    ensures
        r.deep_view() == pending_of(
            texts(buses@),
            edges@,
            connectors.entries.deep_view(),
            connects.deep_view(),
            connects@.len(),
        ),
        groups_within(r@, buses@.len()),
{
    let ghost all = connects.deep_view();
    let ghost here = texts(buses@);
    let ghost held = connectors.entries.deep_view();
    let mut out: Vec<Pending> = Vec::new();
    let mut i: usize = 0;
    assert(out.deep_view() =~= Seq::empty());
    while i < connects.len()
        invariant
            i <= connects.len(),
            labels(edges@, label@),
            label@.len() == buses@.len(),
            all == connects.deep_view(),
            here == texts(buses@),
            held == connectors.entries.deep_view(),
            groups_within(out@, buses@.len()),
            out.deep_view() == pending_of(here, edges@, held, all, i as nat),
        decreases connects.len() - i,
    {
        assert(all[i as int] == connects@[i as int].deep_view());
        let ghost before = out.deep_view();
        let first = find_named(
            buses,
            edges,
            label,
            connectors,
            &connects[i].0,
            &connects[i].1,
        );
        if let Some(one) = first {
            let ghost more = one.deep_view();
            out.push(one);
            assert(out.deep_view() =~= before.push(more));
        }
        let ghost middle = out.deep_view();
        let second = find_named(
            buses,
            edges,
            label,
            connectors,
            &connects[i].1,
            &connects[i].0,
        );
        if let Some(one) = second {
            let ghost more = one.deep_view();
            out.push(one);
            assert(out.deep_view() =~= middle.push(more));
        }
        i = i + 1;
    }
    out
}

fn find_member_paths(
    buses: &Vec<String>,
    edges: &Vec<(usize, usize)>,
    label: &Vec<usize>,
    one: &Pending,
) -> (r: Vec<String>)
    requires
        labels(edges@, label@),
        label@.len() == buses@.len(),
    ensures
        texts(r@) == member_paths(texts(buses@), edges@, one.deep_view()),
{
    let ghost here = texts(buses@);
    let ghost first = one.group as int;
    let ghost mut group: Seq<Seq<char>> = Seq::empty();
    let mut out: Vec<String> = Vec::new();
    let mut i: usize = 0;
    while i < buses.len()
        invariant
            i <= buses.len(),
            labels(edges@, label@),
            label@.len() == buses@.len(),
            here == texts(buses@),
            first == one.group,
            group == set_from(here, edges@, first, i as nat),
            out@.len() == group.len(),
            forall|k: int|
                0 <= k < out@.len() ==> (#[trigger] out@[k])@ == dotted(group[k], one.member@),
        decreases buses.len() - i,
    {
        proof {
            lemma_label_is_first(edges@, label@, i as int);
        }
        if label[i] == one.group {
            out.push(dot(buses[i].as_str(), one.member.as_str()));
            proof {
                group = group.push(here[i as int]);
            }
        }
        i = i + 1;
    }
    assert(texts(out@) =~= member_paths(here, edges@, one.deep_view()));
    out
}

proof fn lemma_members_stop(
    acc: FlatV,
    class: ClassDef,
    class_name: Seq<char>,
    paths: Seq<Seq<char>>,
    n: nat,
    all: nat,
    build: Builder,
)
    requires
        n <= all,
        members_built(acc, class, class_name, paths, n, build) is Err,
    ensures
        members_built(acc, class, class_name, paths, all, build) == members_built(
            acc,
            class,
            class_name,
            paths,
            n,
            build,
        ),
    decreases all,
{
    if n < all {
        lemma_members_stop(acc, class, class_name, paths, n, (all - 1) as nat, build);
    }
}

/// One more connector of a known class leaves every class known.
proof fn lemma_still_known(
    classes: Seq<&ClassDef>,
    connectors: PathPairs,
    path: Seq<char>,
    class_name: Seq<char>,
)
    requires
        all_known(classes, entered(connectors)),
        class_named(classes, class_name) is Some,
    ensures
        all_known(classes, entered(connectors.push((path, class_name)))),
{
    let more = connectors.push((path, class_name));
    assert(more.drop_last() =~= connectors);
    assert forall|p: Seq<char>| #[trigger] entered(more).contains_key(p) implies class_named(
        classes,
        entered(more)[p],
    ) is Some by {
        if p != path {
            assert(entered(connectors).contains_key(p));
        }
    }
}

fn build_members<B: Fn(&ClassDef, &str, Flat) -> Result<Flat, String>>(
    registry: &Registry,
    acc: Flat,
    class: &ClassDef,
    class_name: &String,
    paths: &Vec<String>,
    build: &Maker<B>,
) -> (r: Result<Flat, String>)
    requires
        builds(*build, registry@),
        all_known(registry@, acc.connectors.deep_view()),
        class_named(registry@, class_name@) is Some,
    ensures
        told(r) == members_built(
            acc.deep_view(),
            *class,
            class_name@,
            texts(paths@),
            paths@.len(),
            built_by(*build),
        ),
        r matches Ok(made) ==> all_known(registry@, made.connectors.deep_view()),
{
    let ghost start = acc.deep_view();
    let ghost all = texts(paths@);
    let ghost g = built_by(*build);
    let mut now = acc;
    let mut i: usize = 0;
    while i < paths.len()
        invariant
            i <= paths.len(),
            builds(*build, registry@),
            class_named(registry@, class_name@) is Some,
            all_known(registry@, now.connectors.deep_view()),
            start == acc.deep_view(),
            all == texts(paths@),
            g == built_by(*build),
            members_built(start, *class, class_name@, all, i as nat, g) == Ok::<
                FlatV,
                Seq<char>,
            >(now.deep_view()),
        decreases paths.len() - i,
    {
        let under = join2(paths[i].as_str(), ".");
        match build_under(build, class, under.as_str(), now, registry) {
            Ok(mut made) => {
                let ghost before = made.deep_view();
                proof {
                    lemma_still_known(registry@, before.connectors, paths@[i as int]@, class_name@);
                }
                made.connectors.put(paths[i].clone(), class_name.clone());
                assert(made.connectors.entries.deep_view() =~= before.connectors.push(
                    (paths@[i as int]@, class_name@),
                ));
                now = made;
            },
            Err(why) => {
                proof {
                    lemma_members_stop(
                        start,
                        *class,
                        class_name@,
                        all,
                        (i + 1) as nat,
                        all.len(),
                        g,
                    );
                }
                return Err(why);
            },
        }
        i = i + 1;
    }
    Ok(now)
}

fn join_to_first(paths: &Vec<String>, fresh: &mut Vec<(String, String)>)
    requires
        paths@.len() > 0,
    ensures
        final(fresh).deep_view() == old(fresh).deep_view() + joined_to_first(texts(paths@)),
{
    let ghost was = fresh.deep_view();
    let ghost all = joined_to_first(texts(paths@));
    let mut i: usize = 1;
    assert(was + all.take(0) =~= was);
    while i < paths.len()
        invariant
            1 <= i <= paths.len(),
            all == joined_to_first(texts(paths@)),
            fresh.deep_view() == was + all.take(i - 1),
        decreases paths.len() - i,
    {
        let ghost before = fresh.deep_view();
        fresh.push((paths[0].clone(), paths[i].clone()));
        assert(fresh.deep_view() =~= before.push(all[i - 1]));
        assert(was + all.take(i as int) =~= before.push(all[i - 1]));
        i = i + 1;
    }
    assert(all.take(i - 1) =~= all);
}

/// What one round of looking leaves, as it is held.
struct Filling {
    acc: Flat,
    fresh: Vec<(String, String)>,
    waiting: Vec<Pending>,
    progress: bool,
}

impl DeepView for Filling {
    type V = FillingV;

    closed spec fn deep_view(&self) -> FillingV {
        FillingV {
            acc: self.acc.deep_view(),
            fresh: self.fresh.deep_view(),
            waiting: self.waiting.deep_view(),
            progress: self.progress,
        }
    }
}

fn fill_one<B: Fn(&ClassDef, &str, Flat) -> Result<Flat, String>>(
    registry: &Registry,
    buses: &Vec<String>,
    edges: &Vec<(usize, usize)>,
    label: &Vec<usize>,
    before: Filling,
    one: Pending,
    build: &Maker<B>,
) -> (r: Result<Filling, String>)
    requires
        builds(*build, registry@),
        labels(edges@, label@),
        label@.len() == buses@.len(),
        all_known(registry@, before.acc.connectors.deep_view()),
    ensures
        told(r) == filled_one(
            registry@,
            texts(buses@),
            edges@,
            before.deep_view(),
            one.deep_view(),
            built_by(*build),
        ),
        r matches Ok(made) ==> all_known(registry@, made.acc.connectors.deep_view()) && (
        if made.progress && !before.progress {
            made.waiting@.len() == before.waiting@.len()
        } else {
            made.waiting@.len() <= before.waiting@.len() + 1
        }) && (before.progress ==> made.progress),
        r matches Ok(made) ==> (groups_within(before.waiting@, buses@.len()) && one.group
            < buses@.len() ==> groups_within(made.waiting@, buses@.len())),
{
    let ghost was = before.deep_view();
    let paths = find_member_paths(buses, edges, label, &one);
    if paths.len() == 0 {
        return Ok(before);
    }
    assert(texts(paths@)[0] == paths@[0]@);
    let Filling { acc, mut fresh, mut waiting, progress } = before;
    if acc.connectors.has(paths[0].as_str()) {
        return Ok(Filling { acc, fresh, waiting, progress });
    }
    let class_name: String = match acc.connectors.get(one.other.as_str()) {
        Some(class_name) => class_name.clone(),
        None => {
            let ghost held = waiting.deep_view();
            let ghost more = one.deep_view();
            waiting.push(one);
            assert(waiting.deep_view() =~= held.push(more));
            return Ok(Filling { acc, fresh, waiting, progress });
        },
    };
    match find_class(registry, class_name.as_str()) {
        Some(class) => match build_members(registry, acc, class, &class_name, &paths, build) {
            Ok(acc) => {
                join_to_first(&paths, &mut fresh);
                Ok(Filling { acc, fresh, waiting, progress: true })
            },
            Err(why) => Err(why),
        },
        None => {
            assert(false);
            Ok(Filling { acc, fresh, waiting, progress })
        },
    }
}

proof fn lemma_round_stops(
    classes: Seq<&ClassDef>,
    buses: Seq<Seq<char>>,
    edges: Seq<(usize, usize)>,
    acc: FlatV,
    fresh: PathPairs,
    pending: Seq<PendingV>,
    n: nat,
    all: nat,
    build: Builder,
)
    requires
        n <= all,
        filled_round(classes, buses, edges, acc, fresh, pending, n, build) is Err,
    ensures
        filled_round(classes, buses, edges, acc, fresh, pending, all, build) == filled_round(
            classes,
            buses,
            edges,
            acc,
            fresh,
            pending,
            n,
            build,
        ),
    decreases all,
{
    if n < all {
        lemma_round_stops(
            classes,
            buses,
            edges,
            acc,
            fresh,
            pending,
            n,
            (all - 1) as nat,
            build,
        );
    }
}

fn fill_round<B: Fn(&ClassDef, &str, Flat) -> Result<Flat, String>>(
    registry: &Registry,
    buses: &Vec<String>,
    edges: &Vec<(usize, usize)>,
    label: &Vec<usize>,
    acc: Flat,
    fresh: Vec<(String, String)>,
    pending: Vec<Pending>,
    build: &Maker<B>,
) -> (r: Result<Filling, String>)
    requires
        builds(*build, registry@),
        labels(edges@, label@),
        label@.len() == buses@.len(),
        all_known(registry@, acc.connectors.deep_view()),
        groups_within(pending@, buses@.len()),
    ensures
        told(r) == filled_round(
            registry@,
            texts(buses@),
            edges@,
            acc.deep_view(),
            fresh.deep_view(),
            pending.deep_view(),
            pending@.len(),
            built_by(*build),
        ),
        r matches Ok(made) ==> all_known(registry@, made.acc.connectors.deep_view())
            && groups_within(made.waiting@, buses@.len()) && made.waiting@.len() <= pending@.len()
            && (made.progress ==> made.waiting@.len() < pending@.len()),
{
    let ghost start = acc.deep_view();
    let ghost first = fresh.deep_view();
    let ghost all = pending.deep_view();
    let ghost here = texts(buses@);
    let ghost g = built_by(*build);
    let total: usize = pending.len();
    let ghost many = pending@.len();
    let mut now = Filling { acc, fresh, waiting: Vec::new(), progress: false };
    assert(now.waiting.deep_view() =~= Seq::empty());
    let mut left = pending;
    let mut i: usize = 0;
    assert(left.deep_view() =~= all.skip(0));
    while left.len() > 0
        invariant
            builds(*build, registry@),
            labels(edges@, label@),
            label@.len() == buses@.len(),
            all_known(registry@, now.acc.connectors.deep_view()),
            start == acc.deep_view(),
            first == fresh.deep_view(),
            all == pending.deep_view(),
            many == pending@.len(),
            many == total,
            all.len() == many,
            here == texts(buses@),
            g == built_by(*build),
            i + left@.len() == many,
            left.deep_view() == all.skip(i as int),
            groups_within(left@, buses@.len()),
            groups_within(now.waiting@, buses@.len()),
            now.waiting@.len() <= i,
            now.progress ==> now.waiting@.len() < i,
            filled_round(registry@, here, edges@, start, first, all, i as nat, g) == Ok::<
                FillingV,
                Seq<char>,
            >(now.deep_view()),
        decreases left@.len(),
    {
        let ghost held = left.deep_view();
        let ghost raw = left@;
        let one = left.remove(0);
        assert(one.deep_view() == held[0]);
        assert(held[0] == all[i as int]);
        assert(left@ =~= raw.drop_first());
        assert(left.deep_view() =~= held.drop_first());
        assert(held.drop_first() =~= all.skip(i + 1));
        assert(raw[0] == one);
        assert forall|k: int| 0 <= k < left@.len() implies (#[trigger] left@[k]).group
            < buses@.len() by {
            assert(left@[k] == raw[k + 1]);
        }
        match fill_one(registry, buses, edges, label, now, one, build) {
            Ok(made) => {
                now = made;
            },
            Err(why) => {
                proof {
                    lemma_round_stops(
                        registry@,
                        here,
                        edges@,
                        start,
                        first,
                        all,
                        (i + 1) as nat,
                        many,
                        g,
                    );
                }
                return Err(why);
            },
        }
        i = i + 1;
    }
    Ok(now)
}

fn fill_up<B: Fn(&ClassDef, &str, Flat) -> Result<Flat, String>>(
    registry: &Registry,
    buses: &Vec<String>,
    edges: &Vec<(usize, usize)>,
    label: &Vec<usize>,
    acc: Flat,
    fresh: Vec<(String, String)>,
    pending: Vec<Pending>,
    build: &Maker<B>,
) -> (r: Result<Filling, String>)
    requires
        builds(*build, registry@),
        labels(edges@, label@),
        label@.len() == buses@.len(),
        all_known(registry@, acc.connectors.deep_view()),
        groups_within(pending@, buses@.len()),
    ensures
        told(r) == filled_up(
            registry@,
            texts(buses@),
            edges@,
            acc.deep_view(),
            fresh.deep_view(),
            pending.deep_view(),
            built_by(*build),
        ),
        r matches Ok(made) ==> all_known(registry@, made.acc.connectors.deep_view()),
    decreases pending@.len(),
{
    let many: usize = pending.len();
    assert(pending.deep_view().len() == many);
    match fill_round(registry, buses, edges, label, acc, fresh, pending, build) {
        Err(why) => Err(why),
        Ok(made) => {
            assert(made.waiting.deep_view().len() == made.waiting@.len());
            if made.waiting.len() == 0 || !made.progress {
                return Ok(made);
            }
            let Filling { acc, fresh, waiting, progress: _ } = made;
            fill_up(registry, buses, edges, label, acc, fresh, waiting, build)
        },
    }
}

fn does_state(equations: &Vec<EquationItem>, path: &str) -> (r: bool)
    ensures
        r == is_stated(equations.deep_view(), path@),
{
    let ghost all = equations.deep_view();
    let mut i: usize = 0;
    while i < equations.len()
        invariant
            i <= equations.len(),
            all == equations.deep_view(),
            forall|k: int|
                0 <= k < i ==> !(is_named((#[trigger] all[k]).lhs, path@) || is_named(
                    all[k].rhs,
                    path@,
                )),
        decreases equations.len() - i,
    {
        assert(all[i as int] == equations@[i as int].deep_view());
        if names_it(&equations[i].lhs, path) || names_it(&equations[i].rhs, path) {
            assert(is_named(all[i as int].lhs, path@) || is_named(all[i as int].rhs, path@));
            return true;
        }
        i = i + 1;
    }
    false
}

fn does_declare(components: &Vec<Component>, path: &str) -> (r: bool)
    ensures
        r == exists|i: int|
            0 <= i < components.deep_view().len() && (#[trigger] components.deep_view()[i]).name
                == path@,
{
    let ghost all = components.deep_view();
    let mut i: usize = 0;
    while i < components.len()
        invariant
            i <= components.len(),
            all == components.deep_view(),
            forall|k: int| 0 <= k < i ==> (#[trigger] all[k]).name != path@,
        decreases components.len() - i,
    {
        assert(all[i as int] == components@[i as int].deep_view());
        if same(components[i].name.as_str(), path) {
            assert(all[i as int].name == path@);
            return true;
        }
        i = i + 1;
    }
    false
}

fn rest_member(acc: &mut Flat, bus: &str, member: &Component)
    ensures
        final(acc).deep_view() == member_rested(old(acc).deep_view(), bus@, *member),
        final(acc).connectors == old(acc).connectors,
{
    let ghost was = acc.deep_view();
    let path = dot(bus, member.name.as_str());
    if does_state(&acc.equations, path.as_str()) || acc.connectors.has(path.as_str())
        || !does_declare(&acc.components, path.as_str()) {
        return;
    }
    let rhs: Expr = if same(member.of_type.as_str(), "Boolean") {
        make::boolean(false)
    } else {
        make::number(zero())
    };
    let one = EquationItem { lhs: make::name(path), rhs, origin: acc.origin.clone() };
    let ghost more = one.deep_view();
    acc.equations.push(one);
    assert(acc.equations.deep_view() =~= was.equations.push(more));
    assert(acc.deep_view() == (FlatV { equations: was.equations.push(more), ..was }));
}

fn rest_buses(registry: &Registry, acc: &mut Flat, buses: &Vec<String>)
    ensures
        final(acc).deep_view() == buses_rested(
            registry@,
            old(acc).deep_view(),
            texts(buses@),
            buses@.len(),
        ),
        final(acc).connectors == old(acc).connectors,
{
    let ghost was = acc.deep_view();
    let ghost all = texts(buses@);
    let mut i: usize = 0;
    while i < buses.len()
        invariant
            i <= buses.len(),
            all == texts(buses@),
            acc.connectors == old(acc).connectors,
            acc.deep_view() == buses_rested(registry@, was, all, i as nat),
        decreases buses.len() - i,
    {
        let ghost before = acc.deep_view();
        let found = match acc.connectors.get(buses[i].as_str()) {
            Some(class_name) => find_class(registry, class_name.as_str()),
            None => None,
        };
        if let Some(class) = found {
            let mut k: usize = 0;
            while k < class.components.len()
                invariant
                    i < buses.len(),
                    k <= class.components.len(),
                    acc.connectors == old(acc).connectors,
                    acc.deep_view() == members_rested(
                        before,
                        buses@[i as int]@,
                        class.components@,
                        k as nat,
                    ),
                decreases class.components.len() - k,
            {
                rest_member(acc, buses[i].as_str(), &class.components[k]);
                k = k + 1;
            }
        }
        i = i + 1;
    }
}

/// Give every expandable connector the members its connections name.
///
/// Buses connected to each other share one pool of members, so a sub-bus
/// carries everything its parent does and the matching members are connected
/// in turn. A member that a bus declares itself and that nothing connects to
/// is worth zero, the same as any unconnected connector variable.
pub fn expand_buses<B: Fn(&ClassDef, &str, Flat) -> Result<Flat, String>>(
    registry: &Registry,
    acc: Flat,
    build: &Maker<B>,
) -> (r: Result<Flat, String>)
    requires
        builds(*build, registry@),
        all_known(registry@, acc.connectors.deep_view()),
    ensures
        told(r) == with_buses(registry@, acc.deep_view(), built_by(*build)),
        r matches Ok(made) ==> all_known(registry@, made.connectors.deep_view()),
{
    let ghost was = acc.deep_view();
    let buses = find_buses(registry, &acc.connectors);
    if buses.len() == 0 {
        assert(texts(buses@).len() == 0);
        return Ok(acc);
    }
    let edges = find_bus_edges(&buses, &acc.connects);
    let label = grouped(buses.len(), &edges);
    let pending = find_pending(&buses, &edges, &label, &acc.connectors, &acc.connects);
    let fresh: Vec<(String, String)> = Vec::new();
    assert(fresh.deep_view() =~= Seq::empty());
    assert(texts(buses@).len() == buses@.len());
    match fill_up(registry, &buses, &edges, &label, acc, fresh, pending, build) {
        Err(why) => Err(why),
        Ok(made) => {
            assert(made.waiting.deep_view().len() == made.waiting@.len());
            if made.waiting.len() > 0 {
                let one = &made.waiting[0];
                assert(made.waiting.deep_view()[0] == made.waiting@[0].deep_view());
                return Err(
                    join7(
                        "connect(",
                        one.other.as_str(),
                        ", ...",
                        one.member.as_str(),
                        "): a bus member takes its type from the other side of the connection, and `",
                        one.other.as_str(),
                        "` is not a connector",
                    ),
                );
            }
            let Filling { mut acc, mut fresh, waiting: _, progress: _ } = made;
            let ghost before = acc.deep_view();
            let ghost more = fresh.deep_view();
            acc.connects.append(&mut fresh);
            assert(acc.connects.deep_view() =~= before.connects + more);
            assert(acc.deep_view() == (FlatV { connects: before.connects + more, ..before }));
            rest_buses(registry, &mut acc, &buses);
            Ok(acc)
        },
    }
}

/// Whether a builder leaves the connectors that are there already where they
/// are.
pub open spec fn keeps_connectors(build: Builder) -> bool {
    forall|class: ClassDef, path: Seq<char>, acc: FlatV|
        (#[trigger] build(class, path, acc)) matches Ok(made) ==> acc.connectors.is_prefix_of(
            made.connectors,
        )
}

proof fn lemma_members_built(
    acc: FlatV,
    class: ClassDef,
    class_name: Seq<char>,
    paths: Seq<Seq<char>>,
    n: nat,
    build: Builder,
    i: int,
)
    requires
        keeps_connectors(build),
        members_built(acc, class, class_name, paths, n, build) is Ok,
        0 <= i < n <= paths.len(),
    ensures
        members_built(acc, class, class_name, paths, n, build)->Ok_0.connectors.contains(
            (paths[i], class_name),
        ),
    decreases n,
{
    let before = members_built(acc, class, class_name, paths, (n - 1) as nat, build)->Ok_0;
    let made = build(class, paths[n - 1] + "."@, before)->Ok_0;
    let after = made.connectors.push((paths[n - 1], class_name));
    if i == n - 1 {
        assert(after[made.connectors.len() as int] == (paths[i], class_name));
    } else {
        lemma_members_built(acc, class, class_name, paths, (n - 1) as nat, build, i);
        let at = before.connectors.index_of((paths[i], class_name));
        assert(before.connectors.is_prefix_of(made.connectors));
        assert(made.connectors[at] == before.connectors[at]);
        assert(after[at] == made.connectors[at]);
    }
}

/// Buses joined to one another share their members: a member that a connection
/// names on one of them stands on every bus of the group, as a connector of the
/// class of the other side, and a connection joins the first to each of the
/// rest.
pub proof fn law_joined_buses_share_a_member(
    classes: Seq<&ClassDef>,
    buses: Seq<Seq<char>>,
    edges: Seq<(usize, usize)>,
    before: FillingV,
    one: PendingV,
    build: Builder,
)
    requires
        keeps_connectors(build),
        filled_one(classes, buses, edges, before, one, build) is Ok,
        member_paths(buses, edges, one).len() > 0,
        !entered(before.acc.connectors).contains_key(member_paths(buses, edges, one)[0]),
        entered(before.acc.connectors).contains_key(one.other),
        class_named(classes, entered(before.acc.connectors)[one.other]) is Some,
    ensures
        ({
            let after = filled_one(classes, buses, edges, before, one, build)->Ok_0;
            let paths = member_paths(buses, edges, one);
            let of = entered(before.acc.connectors)[one.other];
            &&& forall|i: int|
                0 <= i < paths.len() ==> after.acc.connectors.contains((#[trigger] paths[i], of))
            &&& forall|i: int|
                0 < i < paths.len() ==> after.fresh.contains((paths[0], #[trigger] paths[i]))
        }),
{
    let after = filled_one(classes, buses, edges, before, one, build)->Ok_0;
    let paths = member_paths(buses, edges, one);
    let of = entered(before.acc.connectors)[one.other];
    let class = class_named(classes, of)->Some_0;
    assert forall|i: int| 0 <= i < paths.len() implies after.acc.connectors.contains(
        (#[trigger] paths[i], of),
    ) by {
        lemma_members_built(before.acc, class, of, paths, paths.len(), build, i);
    }
    assert forall|i: int| 0 < i < paths.len() implies after.fresh.contains(
        (paths[0], #[trigger] paths[i]),
    ) by {
        let more = joined_to_first(paths);
        assert(more[i - 1] == (paths[0], paths[i]));
        assert(after.fresh[before.fresh.len() + i - 1] == more[i - 1]);
    }
}

proof fn lemma_in_the_group(
    buses: Seq<Seq<char>>,
    edges: Seq<(usize, usize)>,
    first: int,
    n: nat,
    j: int,
)
    requires
        0 <= j < n <= buses.len(),
        group_of(edges, j) == first,
    ensures
        set_from(buses, edges, first, n).contains(buses[j]),
    decreases n,
{
    let before = set_from(buses, edges, first, (n - 1) as nat);
    if j == n - 1 {
        assert(before.push(buses[j])[before.len() as int] == buses[j]);
    } else {
        lemma_in_the_group(buses, edges, first, (n - 1) as nat, j);
        let at = before.index_of(buses[j]);
        assert(set_from(buses, edges, first, n)[at] == before[at]);
    }
}

/// The paths a member is put on are those of every bus of its group.
pub proof fn law_a_member_stands_on_every_bus(
    buses: Seq<Seq<char>>,
    edges: Seq<(usize, usize)>,
    one: PendingV,
    j: int,
)
    requires
        0 <= j < buses.len(),
        group_of(edges, j) == one.group,
    ensures
        member_paths(buses, edges, one).contains(dotted(buses[j], one.member)),
{
    lemma_in_the_group(buses, edges, one.group, buses.len(), j);
    let group = set_from(buses, edges, one.group, buses.len());
    let at = group.index_of(buses[j]);
    assert(member_paths(buses, edges, one)[at] == dotted(buses[j], one.member));
}

}
