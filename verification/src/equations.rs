//! The equations of a class, put into the flat model: what it wrote itself,
//! what its algorithm sections come to, what its `when` clauses say, and which
//! branch of an `if` the compiler could settle.
use crate::class::{
    ClassDef, ClassKind, Deselect, EquationItem, EquationV, ForEquation, GraphClause, GraphClauseV,
    IfBranch, IfEquation, Statement, StatementBranch, Transition, WhenAction, WhenBranch,
    WhenClause,
};
use crate::expr::{expr_view, lemma_tuple_view, lemma_views, told, Expr, ExprV};
use crate::flat::{
    put_aside, set_aside, Checks, Flat, FlatV, SpatialTransport, TransportV, WhenActionV,
    WhenBranchV, WhenClauseV,
};
use crate::folding::{const_eval, evaluated};
use crate::functions::{
    are_carried, carried_by_the_run, declared_outputs, gathered_over, output_names,
};
use crate::lookup::Registry;
use crate::machines::TransitionV;
use crate::make;
use crate::names::{
    element_name, element_of, flat_name, flat_of, index_tuples, prefix_expr, prefixed_whole,
    tuples_of,
};
use crate::number::{from_count, nearest, one, zero, Number};
use crate::queries::{answer_graph_queries, answered};
use crate::reading::{
    arguments_given, comes_to, expand_here, find_function, function_called, give_arguments, listed,
    made_of, make_of, push_check, push_connects, push_pair, reading_of, reads_true, resolve_here,
    spread_it, spread_out, stands_for, with_check, with_connect, with_pair, Flow, GivenV, Here,
    HereV, Ran, Reading, ReadingV,
};
use crate::rounds::{
    all_decided, are_decided, are_loops_laid_out, asks_the_graph, choice_laid_out, find_taken,
    graph_asked_by, is_choice_laid_out, is_loop_laid_out, loop_laid_out, push_conditional,
    push_equation, push_guarded, taken_from, unroll, unrolled, verdict_on, with_conditional,
    with_equation, with_guarded, zip_up, zipped, Round, RoundV, Verdict,
};
use crate::sums::{is_steady, sums_of, Arith, Sums, SumsV};
use crate::table::{entered, overlaid, overlay, Table};
use crate::text::{decimal, digits, holds, join2, join3, join5, join7, same, texts};
use crate::value::{scalars, written_out, Value, ValueV};
use vstd::prelude::*;

verus! {

/// Everything the equations of a class are read with.
pub ghost struct DeskV<'a> {
    pub h: ReadingV,
    pub v: SumsV,
    pub classes: Seq<&'a ClassDef>,
    pub p: HereV,
}

pub open spec fn desk_of<'a,
    A1: Fn(&Expr, bool) -> Expr,
    A2: Fn(&Expr, &Table<Number>, &Table<Number>, &Table<String>) -> Result<(Value, Vec<(Expr, String)>), String>,
    A3: Fn(Value, &Table<Number>, &Table<Number>, &Table<String>) -> Result<(Value, Vec<(Expr, String)>), String>,
    A4: Fn(&Value, &Value, &str) -> Result<Vec<EquationItem>, String>,
    A5: Fn(&Expr) -> String,
    A6: Fn(Option<&Expr>) -> String,
    A7: Fn(&Vec<&Statement>) -> Result<Ran, String>,
    A8: Fn(&ClassDef, &Vec<Expr>, &Vec<Vec<i64>>) -> Result<(Vec<(String, Expr)>, Vec<(Expr, String)>), String>,
    A9: Fn(&ClassDef, &Vec<Expr>, &Vec<Vec<i64>>) -> Result<(Vec<(Expr, String)>, Vec<(Expr, String)>), String>,
    B1: Fn(&str) -> bool,
    B2: Fn(&ClassDef) -> bool,
    W: Fn(Arith, Number, Number) -> Number,
    O: Fn(&str, &Vec<Number>) -> Option<Vec<Number>>,
    N: Fn(&str) -> String,
>(
    h: Reading<A1, A2, A3, A4, A5, A6, A7, A8, A9, B1, B2>,
    sums: Sums<W, O, N>,
    classes: Seq<&'a ClassDef>,
    p: HereV,
) -> DeskV<'a> {
    DeskV { h: reading_of(h), v: sums_of(sums), classes, p }
}

/// What a class reads its equations with where no loop is running.
pub open spec fn plain_round(p: HereV) -> RoundV {
    RoundV { folded: Map::empty(), vars: Map::empty(), consts: p.consts, shadowed: true }
}

fn make_plain_round(p: &Here) -> (r: Round)
    ensures
        r.deep_view() == plain_round(p.deep_view()),
{
    let none: Table<Number> = Table::new();
    let consts = overlay(&p.consts, &none);
    assert(consts.deep_view() =~= p.consts.deep_view());
    Round { folded: Table::new(), vars: none, consts, shadowed: true }
}

/// The numbers a list written out stands for, of the first `n`.
pub open spec fn numbers_upto(
    k: DeskV,
    items: Seq<ExprV>,
    what: Seq<char>,
    n: nat,
) -> Result<Seq<Number>, Seq<char>>
    decreases n,
{
    if n == 0 || n > items.len() {
        Ok(Seq::empty())
    } else {
        match numbers_upto(k, items, what, (n - 1) as nat) {
            Err(why) => Err(why),
            Ok(before) => match evaluated(items[n - 1], k.p.consts, k.v) {
                Some(value) => Ok(before.push(value)),
                None => Err(what + " of spatialDistribution must be known before the run"@),
            },
        }
    }
}

proof fn lemma_numbers_upto_stops(k: DeskV, items: Seq<ExprV>, what: Seq<char>, n: nat, all: nat)
    requires
        n <= all <= items.len(),
        numbers_upto(k, items, what, n) is Err,
    ensures
        numbers_upto(k, items, what, all) == numbers_upto(k, items, what, n),
    decreases all,
{
    if n < all {
        lemma_numbers_upto_stops(k, items, what, n, (all - 1) as nat);
    }
}

/// The numbers an array handed to `spatialDistribution` holds.
pub open spec fn numbers_in(k: DeskV, e: ExprV, what: Seq<char>) -> Result<Seq<Number>, Seq<char>> {
    match e {
        ExprV::Array(items) => numbers_upto(k, items, what, items.len()),
        _ => Err("spatialDistribution needs an array for "@ + what),
    }
}

fn find_numbers<
    A1: Fn(&Expr, bool) -> Expr,
    A2: Fn(&Expr, &Table<Number>, &Table<Number>, &Table<String>) -> Result<(Value, Vec<(Expr, String)>), String>,
    A3: Fn(Value, &Table<Number>, &Table<Number>, &Table<String>) -> Result<(Value, Vec<(Expr, String)>), String>,
    A4: Fn(&Value, &Value, &str) -> Result<Vec<EquationItem>, String>,
    A5: Fn(&Expr) -> String,
    A6: Fn(Option<&Expr>) -> String,
    A7: Fn(&Vec<&Statement>) -> Result<Ran, String>,
    A8: Fn(&ClassDef, &Vec<Expr>, &Vec<Vec<i64>>) -> Result<(Vec<(String, Expr)>, Vec<(Expr, String)>), String>,
    A9: Fn(&ClassDef, &Vec<Expr>, &Vec<Vec<i64>>) -> Result<(Vec<(Expr, String)>, Vec<(Expr, String)>), String>,
    B1: Fn(&str) -> bool,
    B2: Fn(&ClassDef) -> bool,
    W: Fn(Arith, Number, Number) -> Number,
    O: Fn(&str, &Vec<Number>) -> Option<Vec<Number>>,
    N: Fn(&str) -> String,
>(
    h: &Reading<A1, A2, A3, A4, A5, A6, A7, A8, A9, B1, B2>,
    sums: &Sums<W, O, N>,
    registry: &Registry,
    p: &Here,
    e: &Expr,
    what: &str,
) -> (r: Result<Vec<Number>, String>)
    requires
        reads_true(*h),
        is_steady(*sums),
    ensures
        match numbers_in(desk_of(*h, *sums, registry@, p.deep_view()), e.deep_view(), what@) {
            Err(trouble) => r matches Err(why) && why@ == trouble,
            Ok(values) => r matches Ok(made) && made@ == values,
        },
{
    let ghost k = desk_of(*h, *sums, registry@, p.deep_view());
    let items = match e {
        Expr::Array(items) => items,
        _ => return Err(join2("spatialDistribution needs an array for ", what)),
    };
    proof {
        lemma_views(*items);
    }
    let ghost all = items.deep_view();
    let mut out: Vec<Number> = Vec::new();
    let mut i: usize = 0;
    assert(all.len() == items@.len());
    while i < items.len()
        invariant
            i <= items.len(),
            is_steady(*sums),
            all == items.deep_view(),
            all.len() == items@.len(),
            k == desk_of(*h, *sums, registry@, p.deep_view()),
            numbers_in(k, e.deep_view(), what@) == numbers_upto(k, all, what@, all.len()),
            numbers_upto(k, all, what@, i as nat) == Ok::<Seq<Number>, Seq<char>>(out@),
        decreases items.len() - i,
    {
        assert(all[i as int] == items@[i as int].deep_view());
        match const_eval(&items[i], &p.consts, sums) {
            Some(value) => {
                out.push(value);
            },
            None => {
                proof {
                    lemma_numbers_upto_stops(k, all, what@, (i + 1) as nat, all.len());
                }
                return Err(join2(what, " of spatialDistribution must be known before the run"));
            },
        }
        i = i + 1;
    }
    Ok(out)
}

/// Whether points run from nothing to one.
pub open spec fn span_it(points: Seq<Number>) -> bool {
    points.len() >= 2 && points[0].level(zero()) && points.last().level(one())
}

/// Whether a point is less than the one before it.
pub open spec fn go_back(points: Seq<Number>) -> bool {
    exists|i: int| 0 < i < points.len() && (#[trigger] points[i]).below(points[i - 1])
}

fn does_go_back(points: &Vec<Number>) -> (r: bool)
    ensures
        r == go_back(points@),
{
    let mut i: usize = 1;
    while i < points.len()
        invariant
            1 <= i,
            forall|k: int| 0 < k < i && k < points@.len() ==> !(#[trigger] points@[k]).below(
                points@[k - 1],
            ),
        decreases points.len() - i,
    {
        if points[i].less(points[i - 1]) {
            assert(points@[i as int].below(points@[i - 1]));
            return true;
        }
        i = i + 1;
    }
    false
}

/// The name an output of `spatialDistribution` fills.
pub open spec fn output_named(target: Option<ExprV>, which: Seq<char>) -> Result<
    Seq<char>,
    Seq<char>,
> {
    match target {
        Some(ExprV::Ref(name)) => Ok(name),
        _ => Err("the "@ + which + " of spatialDistribution must be a variable"@),
    }
}

fn name_output(target: &Option<Expr>, which: &str) -> (r: Result<String, String>)
    ensures
        match output_named(target.deep_view(), which@) {
            Err(trouble) => r matches Err(why) && why@ == trouble,
            Ok(name) => r matches Ok(made) && made@ == name,
        },
{
    match target {
        Some(Expr::Ref(name)) => Ok(name.clone()),
        _ => Err(join3("the ", which, " of spatialDistribution must be a variable")),
    }
}

/// What was gathered with a `spatialDistribution` recorded.
pub open spec fn with_transport(
    k: DeskV,
    acc: FlatV,
    targets: Seq<Option<ExprV>>,
    args: Seq<ExprV>,
) -> Result<FlatV, Seq<char>> {
    if args.len() != 6 {
        Err(
            "spatialDistribution takes in0, in1, x, positiveVelocity, initialPoints and initialValues, but got "@
                + digits(args.len()) + " arguments"@,
        )
    } else if targets.len() != 2 {
        Err("spatialDistribution fills two values, `(out0, out1)`"@)
    } else {
        match numbers_in(k, args[4], "initialPoints"@) {
            Err(why) => Err(why),
            Ok(points) => match numbers_in(k, args[5], "initialValues"@) {
                Err(why) => Err(why),
                Ok(values) => if points.len() != values.len() {
                    Err(
                        "spatialDistribution has "@ + digits(points.len())
                            + " initialPoints against "@ + digits(values.len())
                            + " initialValues"@,
                    )
                } else if !span_it(points) {
                    Err("initialPoints of spatialDistribution must span 0 to 1"@)
                } else if go_back(points) {
                    Err("initialPoints of spatialDistribution must not decrease"@)
                } else {
                    match output_named(targets[0], "first output"@) {
                        Err(why) => Err(why),
                        Ok(out0) => match output_named(targets[1], "second output"@) {
                            Err(why) => Err(why),
                            Ok(out1) => Ok(
                                FlatV {
                                    transports: acc.transports.push(
                                        TransportV {
                                            out0,
                                            out1,
                                            in0: prefixed_whole(args[0], k.p.naming),
                                            in1: prefixed_whole(args[1], k.p.naming),
                                            x: prefixed_whole(args[2], k.p.naming),
                                            positive: prefixed_whole(args[3], k.p.naming),
                                            initial_points: points,
                                            initial_values: values,
                                        },
                                    ),
                                    ..acc
                                },
                            ),
                        },
                    }
                },
            },
        }
    }
}

/// Record one `spatialDistribution`. The arguments are checked here rather
/// than at the run, since every one of them but the two inputs is settled
/// before it.
pub fn spatial_transport<
    A1: Fn(&Expr, bool) -> Expr,
    A2: Fn(&Expr, &Table<Number>, &Table<Number>, &Table<String>) -> Result<(Value, Vec<(Expr, String)>), String>,
    A3: Fn(Value, &Table<Number>, &Table<Number>, &Table<String>) -> Result<(Value, Vec<(Expr, String)>), String>,
    A4: Fn(&Value, &Value, &str) -> Result<Vec<EquationItem>, String>,
    A5: Fn(&Expr) -> String,
    A6: Fn(Option<&Expr>) -> String,
    A7: Fn(&Vec<&Statement>) -> Result<Ran, String>,
    A8: Fn(&ClassDef, &Vec<Expr>, &Vec<Vec<i64>>) -> Result<(Vec<(String, Expr)>, Vec<(Expr, String)>), String>,
    A9: Fn(&ClassDef, &Vec<Expr>, &Vec<Vec<i64>>) -> Result<(Vec<(Expr, String)>, Vec<(Expr, String)>), String>,
    B1: Fn(&str) -> bool,
    B2: Fn(&ClassDef) -> bool,
    W: Fn(Arith, Number, Number) -> Number,
    O: Fn(&str, &Vec<Number>) -> Option<Vec<Number>>,
    N: Fn(&str) -> String,
>(
    h: &Reading<A1, A2, A3, A4, A5, A6, A7, A8, A9, B1, B2>,
    sums: &Sums<W, O, N>,
    registry: &Registry,
    p: &Here,
    acc: Flat,
    targets: &Vec<Option<Expr>>,
    args: &Vec<Expr>,
) -> (r: Result<Flat, String>)
    requires
        reads_true(*h),
        is_steady(*sums),
    ensures
        told(r) == with_transport(
            desk_of(*h, *sums, registry@, p.deep_view()),
            acc.deep_view(),
            targets.deep_view(),
            args.deep_view(),
        ),
{
    let ghost all = args.deep_view();
    let ghost tv = targets.deep_view();
    assert(all.len() == args@.len());
    assert(tv.len() == targets@.len());
    if args.len() != 6 {
        let count = decimal(args.len() as u64);
        return Err(
            join3(
                "spatialDistribution takes in0, in1, x, positiveVelocity, initialPoints and initialValues, but got ",
                count.as_str(),
                " arguments",
            ),
        );
    }
    if targets.len() != 2 {
        return Err("spatialDistribution fills two values, `(out0, out1)`".to_owned());
    }
    assert(forall|i: int| 0 <= i < 6 ==> #[trigger] all[i] == args@[i].deep_view());
    assert(tv[0] == targets@[0].deep_view());
    assert(tv[1] == targets@[1].deep_view());
    let points = match find_numbers(h, sums, registry, p, &args[4], "initialPoints") {
        Ok(points) => points,
        Err(why) => return Err(why),
    };
    let values = match find_numbers(h, sums, registry, p, &args[5], "initialValues") {
        Ok(values) => values,
        Err(why) => return Err(why),
    };
    if points.len() != values.len() {
        let a = decimal(points.len() as u64);
        let b = decimal(values.len() as u64);
        return Err(
            join5(
                "spatialDistribution has ",
                a.as_str(),
                " initialPoints against ",
                b.as_str(),
                " initialValues",
            ),
        );
    }
    if points.len() < 2 || !points[0].equals(zero()) || !points[points.len() - 1].equals(one()) {
        return Err("initialPoints of spatialDistribution must span 0 to 1".to_owned());
    }
    if does_go_back(&points) {
        return Err("initialPoints of spatialDistribution must not decrease".to_owned());
    }
    let out0 = match name_output(&targets[0], "first output") {
        Ok(name) => name,
        Err(why) => return Err(why),
    };
    let out1 = match name_output(&targets[1], "second output") {
        Ok(name) => name,
        Err(why) => return Err(why),
    };
    let carried = SpatialTransport {
        out0,
        out1,
        in0: prefix_expr(&args[0], &p.naming),
        in1: prefix_expr(&args[1], &p.naming),
        x: prefix_expr(&args[2], &p.naming),
        positive: prefix_expr(&args[3], &p.naming),
        initial_points: points,
        initial_values: values,
    };
    let mut acc = acc;
    let ghost was = acc.deep_view();
    let ghost cv = carried.deep_view();
    acc.transports.push(carried);
    assert(acc.transports.deep_view() =~= was.transports.push(cv));
    Ok(acc)
}

/// The first `n` targets of a tuple, as what they stand for.
pub open spec fn targets_named(
    k: DeskV,
    acc: FlatV,
    targets: Seq<Option<ExprV>>,
    n: nat,
) -> Result<(Seq<Option<ExprV>>, FlatV), Seq<char>>
    decreases n,
{
    if n == 0 || n > targets.len() {
        Ok((Seq::empty(), acc))
    } else {
        match targets_named(k, acc, targets, (n - 1) as nat) {
            Err(why) => Err(why),
            Ok((before, acc)) => match targets[n - 1] {
                None => Ok((before.push(None), acc)),
                Some(target) => match stands_for(k.h, k.p, acc, target) {
                    Err(why) => Err(why),
                    Ok((value, acc)) => Ok((before.push(Some(written_out(value))), acc)),
                },
            },
        }
    }
}

proof fn lemma_targets_named_stops(
    k: DeskV,
    acc: FlatV,
    targets: Seq<Option<ExprV>>,
    n: nat,
    all: nat,
)
    requires
        n <= all <= targets.len(),
        targets_named(k, acc, targets, n) is Err,
    ensures
        targets_named(k, acc, targets, all) == targets_named(k, acc, targets, n),
    decreases all,
{
    if n < all {
        lemma_targets_named_stops(k, acc, targets, n, (all - 1) as nat);
    }
}

fn name_targets<
    A1: Fn(&Expr, bool) -> Expr,
    A2: Fn(&Expr, &Table<Number>, &Table<Number>, &Table<String>) -> Result<(Value, Vec<(Expr, String)>), String>,
    A3: Fn(Value, &Table<Number>, &Table<Number>, &Table<String>) -> Result<(Value, Vec<(Expr, String)>), String>,
    A4: Fn(&Value, &Value, &str) -> Result<Vec<EquationItem>, String>,
    A5: Fn(&Expr) -> String,
    A6: Fn(Option<&Expr>) -> String,
    A7: Fn(&Vec<&Statement>) -> Result<Ran, String>,
    A8: Fn(&ClassDef, &Vec<Expr>, &Vec<Vec<i64>>) -> Result<(Vec<(String, Expr)>, Vec<(Expr, String)>), String>,
    A9: Fn(&ClassDef, &Vec<Expr>, &Vec<Vec<i64>>) -> Result<(Vec<(Expr, String)>, Vec<(Expr, String)>), String>,
    B1: Fn(&str) -> bool,
    B2: Fn(&ClassDef) -> bool,
    W: Fn(Arith, Number, Number) -> Number,
    O: Fn(&str, &Vec<Number>) -> Option<Vec<Number>>,
    N: Fn(&str) -> String,
>(
    h: &Reading<A1, A2, A3, A4, A5, A6, A7, A8, A9, B1, B2>,
    sums: &Sums<W, O, N>,
    registry: &Registry,
    p: &Here,
    acc: Flat,
    targets: &Vec<Option<Expr>>,
) -> (r: Result<(Vec<Option<Expr>>, Flat), String>)
    requires
        reads_true(*h),
        is_steady(*sums),
    ensures
        told(r) == targets_named(
            desk_of(*h, *sums, registry@, p.deep_view()),
            acc.deep_view(),
            targets.deep_view(),
            targets@.len(),
        ),
{
    let ghost k = desk_of(*h, *sums, registry@, p.deep_view());
    let ghost all = targets.deep_view();
    let ghost start = acc.deep_view();
    let mut now = acc;
    let mut out: Vec<Option<Expr>> = Vec::new();
    let mut i: usize = 0;
    assert(out.deep_view() =~= Seq::empty());
    while i < targets.len()
        invariant
            i <= targets.len(),
            reads_true(*h),
            all == targets.deep_view(),
            k == desk_of(*h, *sums, registry@, p.deep_view()),
            start == acc.deep_view(),
            targets_named(k, start, all, i as nat) == Ok::<
                (Seq<Option<ExprV>>, FlatV),
                Seq<char>,
            >((out.deep_view(), now.deep_view())),
        decreases targets.len() - i,
    {
        let ghost before = out.deep_view();
        assert(all[i as int] == targets@[i as int].deep_view());
        match &targets[i] {
            None => {
                out.push(None);
                assert(out.deep_view() =~= before.push(None));
            },
            Some(target) => match expand_here(h, p, now, target) {
                Err(why) => {
                    proof {
                        lemma_targets_named_stops(k, start, all, (i + 1) as nat, all.len());
                    }
                    return Err(why);
                },
                Ok((value, next)) => {
                    now = next;
                    out.push(Some(value.into_expr()));
                    assert(out.deep_view() =~= before.push(Some(written_out(value.deep_view()))));
                },
            },
        }
        i = i + 1;
    }
    Ok((out, now))
}

/// What was gathered with the first `n` targets of a tuple given their
/// outputs. What a call gives back is already resolved and only goes through
/// the array layer.
pub open spec fn with_outputs(
    k: DeskV,
    acc: FlatV,
    targets: Seq<Option<ExprV>>,
    outputs: Seq<(Seq<char>, ExprV)>,
    n: nat,
) -> Result<FlatV, Seq<char>>
    decreases n,
{
    if n == 0 || n > targets.len() || n > outputs.len() {
        Ok(acc)
    } else {
        match with_outputs(k, acc, targets, outputs, (n - 1) as nat) {
            Err(why) => Err(why),
            Ok(before) => match targets[n - 1] {
                None => Ok(before),
                Some(target) => match stands_for(k.h, k.p, before, target) {
                    Err(why) => Err(why),
                    Ok((lhs, acc)) => match spread_out(
                        k.h,
                        acc,
                        outputs[n - 1].1,
                        Map::empty(),
                        k.p.consts,
                        k.p.records,
                    ) {
                        Err(why) => Err(why),
                        Ok((rhs, acc)) => with_pair(k.h, acc, lhs, rhs),
                    },
                },
            },
        }
    }
}

proof fn lemma_with_outputs_stops(
    k: DeskV,
    acc: FlatV,
    targets: Seq<Option<ExprV>>,
    outputs: Seq<(Seq<char>, ExprV)>,
    n: nat,
    all: nat,
)
    requires
        n <= all <= targets.len(),
        all <= outputs.len(),
        with_outputs(k, acc, targets, outputs, n) is Err,
    ensures
        with_outputs(k, acc, targets, outputs, all) == with_outputs(k, acc, targets, outputs, n),
    decreases all,
{
    if n < all {
        lemma_with_outputs_stops(k, acc, targets, outputs, n, (all - 1) as nat);
    }
}

fn push_outputs<
    A1: Fn(&Expr, bool) -> Expr,
    A2: Fn(&Expr, &Table<Number>, &Table<Number>, &Table<String>) -> Result<(Value, Vec<(Expr, String)>), String>,
    A3: Fn(Value, &Table<Number>, &Table<Number>, &Table<String>) -> Result<(Value, Vec<(Expr, String)>), String>,
    A4: Fn(&Value, &Value, &str) -> Result<Vec<EquationItem>, String>,
    A5: Fn(&Expr) -> String,
    A6: Fn(Option<&Expr>) -> String,
    A7: Fn(&Vec<&Statement>) -> Result<Ran, String>,
    A8: Fn(&ClassDef, &Vec<Expr>, &Vec<Vec<i64>>) -> Result<(Vec<(String, Expr)>, Vec<(Expr, String)>), String>,
    A9: Fn(&ClassDef, &Vec<Expr>, &Vec<Vec<i64>>) -> Result<(Vec<(Expr, String)>, Vec<(Expr, String)>), String>,
    B1: Fn(&str) -> bool,
    B2: Fn(&ClassDef) -> bool,
    W: Fn(Arith, Number, Number) -> Number,
    O: Fn(&str, &Vec<Number>) -> Option<Vec<Number>>,
    N: Fn(&str) -> String,
>(
    h: &Reading<A1, A2, A3, A4, A5, A6, A7, A8, A9, B1, B2>,
    sums: &Sums<W, O, N>,
    registry: &Registry,
    p: &Here,
    acc: Flat,
    targets: &Vec<Option<Expr>>,
    outputs: &Vec<(String, Expr)>,
) -> (r: Result<Flat, String>)
    requires
        reads_true(*h),
        is_steady(*sums),
        targets@.len() <= outputs@.len(),
    ensures
        told(r) == with_outputs(
            desk_of(*h, *sums, registry@, p.deep_view()),
            acc.deep_view(),
            targets.deep_view(),
            outputs.deep_view(),
            targets@.len(),
        ),
{
    let ghost k = desk_of(*h, *sums, registry@, p.deep_view());
    let ghost all = targets.deep_view();
    let ghost given = outputs.deep_view();
    let ghost start = acc.deep_view();
    let none: Table<Number> = Table::new();
    let mut now = acc;
    let mut i: usize = 0;
    while i < targets.len()
        invariant
            i <= targets.len(),
            reads_true(*h),
            targets@.len() <= outputs@.len(),
            all == targets.deep_view(),
            given == outputs.deep_view(),
            start == acc.deep_view(),
            none.deep_view() == Map::<Seq<char>, Number>::empty(),
            k == desk_of(*h, *sums, registry@, p.deep_view()),
            with_outputs(k, start, all, given, i as nat) == Ok::<FlatV, Seq<char>>(
                now.deep_view(),
            ),
        decreases targets.len() - i,
    {
        assert(all[i as int] == targets@[i as int].deep_view());
        assert(given[i as int] == outputs@[i as int].deep_view());
        proof {
            if with_outputs(k, start, all, given, (i + 1) as nat) is Err {
                lemma_with_outputs_stops(k, start, all, given, (i + 1) as nat, all.len());
            }
        }
        if let Some(target) = &targets[i] {
            let (lhs, next) = match expand_here(h, p, now, target) {
                Ok(made) => made,
                Err(why) => return Err(why),
            };
            let (rhs, next) = match spread_it(
                h,
                next,
                &outputs[i].1,
                &none,
                &p.consts,
                &p.records,
            ) {
                Ok(made) => made,
                Err(why) => return Err(why),
            };
            match push_pair(h, next, &lhs, &rhs) {
                Ok(next) => {
                    now = next;
                },
                Err(why) => return Err(why),
            }
        }
        i = i + 1;
    }
    Ok(now)
}

/// What a name is told that calls no function.
pub open spec fn no_function(name: Seq<char>) -> Seq<char> {
    "`"@ + name + "` is not a function, so it cannot fill a tuple"@
}

/// What was gathered with a call that fills a tuple of targets, the checks of
/// its body set aside.
pub open spec fn with_filled(
    k: DeskV,
    acc: FlatV,
    targets: Seq<Option<ExprV>>,
    name: Seq<char>,
    args: Seq<ExprV>,
) -> Result<FlatV, Seq<char>> {
    if name == "spatialDistribution"@ {
        match arguments_given(k.h, k.p, acc, args, args.len()) {
            Err(why) => Err(why),
            Ok((given, acc)) => match targets_named(k, acc, targets, targets.len()) {
                Err(why) => Err(why),
                Ok((named, acc)) => with_transport(k, acc, named, given.args),
            },
        }
    } else {
        match function_called(k.classes, k.p, name) {
            None => Err(no_function(name)),
            Some(function) => match arguments_given(k.h, k.p, acc, args, args.len()) {
                Err(why) => Err(why),
                Ok((given, acc)) => match (k.h.outputs)(function, given.args, given.shapes) {
                    Err(why) => Err(why),
                    Ok((outputs, more)) => if targets.len() > outputs.len() {
                        Err(
                            "`"@ + name + "` has "@ + digits(outputs.len()) + " output(s) for "@
                                + digits(targets.len()) + " target(s)"@,
                        )
                    } else {
                        with_outputs(k, set_aside(acc, more), targets, outputs, targets.len())
                    },
                },
            },
        }
    }
}

fn fill_tuple<
    A1: Fn(&Expr, bool) -> Expr,
    A2: Fn(&Expr, &Table<Number>, &Table<Number>, &Table<String>) -> Result<(Value, Vec<(Expr, String)>), String>,
    A3: Fn(Value, &Table<Number>, &Table<Number>, &Table<String>) -> Result<(Value, Vec<(Expr, String)>), String>,
    A4: Fn(&Value, &Value, &str) -> Result<Vec<EquationItem>, String>,
    A5: Fn(&Expr) -> String,
    A6: Fn(Option<&Expr>) -> String,
    A7: Fn(&Vec<&Statement>) -> Result<Ran, String>,
    A8: Fn(&ClassDef, &Vec<Expr>, &Vec<Vec<i64>>) -> Result<(Vec<(String, Expr)>, Vec<(Expr, String)>), String>,
    A9: Fn(&ClassDef, &Vec<Expr>, &Vec<Vec<i64>>) -> Result<(Vec<(Expr, String)>, Vec<(Expr, String)>), String>,
    B1: Fn(&str) -> bool,
    B2: Fn(&ClassDef) -> bool,
    W: Fn(Arith, Number, Number) -> Number,
    O: Fn(&str, &Vec<Number>) -> Option<Vec<Number>>,
    N: Fn(&str) -> String,
>(
    h: &Reading<A1, A2, A3, A4, A5, A6, A7, A8, A9, B1, B2>,
    sums: &Sums<W, O, N>,
    registry: &Registry,
    p: &Here,
    acc: Flat,
    targets: &Vec<Option<Expr>>,
    name: &str,
    args: &Vec<Expr>,
) -> (r: Result<Flat, String>)
    requires
        reads_true(*h),
        is_steady(*sums),
    ensures
        told(r) == with_filled(
            desk_of(*h, *sums, registry@, p.deep_view()),
            acc.deep_view(),
            targets.deep_view(),
            name@,
            args.deep_view(),
        ),
{
    assert(targets.deep_view().len() == targets@.len());
    assert(args.deep_view().len() == args@.len());
    if same(name, "spatialDistribution") {
        let (given, _, acc) = match give_arguments(h, p, acc, args) {
            Ok(given) => given,
            Err(why) => return Err(why),
        };
        let (named, acc) = match name_targets(h, sums, registry, p, acc, targets) {
            Ok(named) => named,
            Err(why) => return Err(why),
        };
        return spatial_transport(h, sums, registry, p, acc, &named, &given);
    }
    let function = match find_function(registry, p, name) {
        Some(function) => function,
        None => return Err(
            join3("`", name, "` is not a function, so it cannot fill a tuple"),
        ),
    };
    let (given, shapes, acc) = match give_arguments(h, p, acc, args) {
        Ok(given) => given,
        Err(why) => return Err(why),
    };
    let (outputs, more) = match h.do_outputs(function, &given, &shapes) {
        Ok(made) => made,
        Err(why) => return Err(why),
    };
    assert(outputs.deep_view().len() == outputs@.len());
    if targets.len() > outputs.len() {
        let a = decimal(outputs.len() as u64);
        let b = decimal(targets.len() as u64);
        return Err(
            join7("`", name, "` has ", a.as_str(), " output(s) for ", b.as_str(), " target(s)"),
        );
    }
    push_outputs(h, sums, registry, p, put_aside(acc, more), targets, &outputs)
}

/// What was gathered with an equation that fills several targets at once, or
/// nothing where it is no tuple.
pub open spec fn tuple_read(k: DeskV, acc: FlatV, lhs: ExprV, rhs: ExprV) -> Option<
    Result<FlatV, Seq<char>>,
> {
    match lhs {
        ExprV::Tuple(targets) => Some(
            match prefixed_whole((k.h.put)(rhs, true), k.p.naming) {
                ExprV::Call(name, args) => with_filled(k, acc, targets, name, args),
                _ => Err("the right side of a tuple equation must be a function call"@),
            },
        ),
        _ => None,
    }
}

/// One equation that fills several targets at once, where it is one: a
/// skipped slot costs its output nothing since the expression is never used.
fn one_tuple_equation<
    A1: Fn(&Expr, bool) -> Expr,
    A2: Fn(&Expr, &Table<Number>, &Table<Number>, &Table<String>) -> Result<(Value, Vec<(Expr, String)>), String>,
    A3: Fn(Value, &Table<Number>, &Table<Number>, &Table<String>) -> Result<(Value, Vec<(Expr, String)>), String>,
    A4: Fn(&Value, &Value, &str) -> Result<Vec<EquationItem>, String>,
    A5: Fn(&Expr) -> String,
    A6: Fn(Option<&Expr>) -> String,
    A7: Fn(&Vec<&Statement>) -> Result<Ran, String>,
    A8: Fn(&ClassDef, &Vec<Expr>, &Vec<Vec<i64>>) -> Result<(Vec<(String, Expr)>, Vec<(Expr, String)>), String>,
    A9: Fn(&ClassDef, &Vec<Expr>, &Vec<Vec<i64>>) -> Result<(Vec<(Expr, String)>, Vec<(Expr, String)>), String>,
    B1: Fn(&str) -> bool,
    B2: Fn(&ClassDef) -> bool,
    W: Fn(Arith, Number, Number) -> Number,
    O: Fn(&str, &Vec<Number>) -> Option<Vec<Number>>,
    N: Fn(&str) -> String,
>(
    h: &Reading<A1, A2, A3, A4, A5, A6, A7, A8, A9, B1, B2>,
    sums: &Sums<W, O, N>,
    registry: &Registry,
    p: &Here,
    acc: Flat,
    targets: &Vec<Option<Expr>>,
    rhs: &Expr,
) -> (r: Result<Flat, String>)
    requires
        reads_true(*h),
        is_steady(*sums),
    ensures
        Some(told(r)) == tuple_read(
            desk_of(*h, *sums, registry@, p.deep_view()),
            acc.deep_view(),
            ExprV::Tuple(targets.deep_view()),
            rhs.deep_view(),
        ),
{
    let plain = h.do_put(rhs, true);
    let named = prefix_expr(&plain, &p.naming);
    match &named {
        Expr::Call(name, args) => {
            proof {
                lemma_views(*args);
            }
            fill_tuple(h, sums, registry, p, acc, targets, name.as_str(), args)
        },
        _ => Err("the right side of a tuple equation must be a function call".to_owned()),
    }
}

/// What was gathered with an equation, a tuple or not.
pub open spec fn with_line(k: DeskV, acc: FlatV, lhs: ExprV, rhs: ExprV) -> Result<
    FlatV,
    Seq<char>,
> {
    match tuple_read(k, acc, lhs, rhs) {
        Some(done) => done,
        None => with_equation(k.h, k.p, plain_round(k.p), acc, lhs, rhs),
    }
}

fn push_line<
    A1: Fn(&Expr, bool) -> Expr,
    A2: Fn(&Expr, &Table<Number>, &Table<Number>, &Table<String>) -> Result<(Value, Vec<(Expr, String)>), String>,
    A3: Fn(Value, &Table<Number>, &Table<Number>, &Table<String>) -> Result<(Value, Vec<(Expr, String)>), String>,
    A4: Fn(&Value, &Value, &str) -> Result<Vec<EquationItem>, String>,
    A5: Fn(&Expr) -> String,
    A6: Fn(Option<&Expr>) -> String,
    A7: Fn(&Vec<&Statement>) -> Result<Ran, String>,
    A8: Fn(&ClassDef, &Vec<Expr>, &Vec<Vec<i64>>) -> Result<(Vec<(String, Expr)>, Vec<(Expr, String)>), String>,
    A9: Fn(&ClassDef, &Vec<Expr>, &Vec<Vec<i64>>) -> Result<(Vec<(Expr, String)>, Vec<(Expr, String)>), String>,
    B1: Fn(&str) -> bool,
    B2: Fn(&ClassDef) -> bool,
    W: Fn(Arith, Number, Number) -> Number,
    O: Fn(&str, &Vec<Number>) -> Option<Vec<Number>>,
    N: Fn(&str) -> String,
>(
    h: &Reading<A1, A2, A3, A4, A5, A6, A7, A8, A9, B1, B2>,
    sums: &Sums<W, O, N>,
    registry: &Registry,
    p: &Here,
    acc: Flat,
    lhs: &Expr,
    rhs: &Expr,
) -> (r: Result<Flat, String>)
    requires
        reads_true(*h),
        is_steady(*sums),
    ensures
        told(r) == with_line(
            desk_of(*h, *sums, registry@, p.deep_view()),
            acc.deep_view(),
            lhs.deep_view(),
            rhs.deep_view(),
        ),
{
    if let Expr::Tuple(targets) = lhs {
        assert(lhs.deep_view() == ExprV::Tuple(targets.deep_view())) by {
            lemma_tuple_view(*targets);
        }
        return one_tuple_equation(h, sums, registry, p, acc, targets, rhs);
    }
    let t = make_plain_round(p);
    push_equation(h, p, &t, acc, lhs, rhs)
}

/// What was gathered with what a call on its own checks.
pub open spec fn with_call(k: DeskV, acc: FlatV, call: ExprV) -> Result<FlatV, Seq<char>> {
    match prefixed_whole((k.h.put)(call, true), k.p.naming) {
        ExprV::Call(name, args) => match function_called(k.classes, k.p, name) {
            None => Err("`"@ + name + "` is not a function"@),
            Some(function) => match arguments_given(k.h, k.p, acc, args, args.len()) {
                Err(why) => Err(why),
                Ok((given, acc)) => match (k.h.checks)(function, given.args, given.shapes) {
                    Err(why) => Err(why),
                    Ok((checks, more)) => Ok(
                        set_aside(FlatV { asserts: acc.asserts + checks, ..acc }, more),
                    ),
                },
            },
        },
        _ => Err("a line of an equation section that is not an equation is a call"@),
    }
}

/// A call written among the equations takes nothing back from what it calls,
/// so what it is there for is the checks the body makes.
fn take_checks<
    A1: Fn(&Expr, bool) -> Expr,
    A2: Fn(&Expr, &Table<Number>, &Table<Number>, &Table<String>) -> Result<(Value, Vec<(Expr, String)>), String>,
    A3: Fn(Value, &Table<Number>, &Table<Number>, &Table<String>) -> Result<(Value, Vec<(Expr, String)>), String>,
    A4: Fn(&Value, &Value, &str) -> Result<Vec<EquationItem>, String>,
    A5: Fn(&Expr) -> String,
    A6: Fn(Option<&Expr>) -> String,
    A7: Fn(&Vec<&Statement>) -> Result<Ran, String>,
    A8: Fn(&ClassDef, &Vec<Expr>, &Vec<Vec<i64>>) -> Result<(Vec<(String, Expr)>, Vec<(Expr, String)>), String>,
    A9: Fn(&ClassDef, &Vec<Expr>, &Vec<Vec<i64>>) -> Result<(Vec<(Expr, String)>, Vec<(Expr, String)>), String>,
    B1: Fn(&str) -> bool,
    B2: Fn(&ClassDef) -> bool,
    W: Fn(Arith, Number, Number) -> Number,
    O: Fn(&str, &Vec<Number>) -> Option<Vec<Number>>,
    N: Fn(&str) -> String,
>(
    h: &Reading<A1, A2, A3, A4, A5, A6, A7, A8, A9, B1, B2>,
    sums: &Sums<W, O, N>,
    registry: &Registry,
    p: &Here,
    acc: Flat,
    call: &Expr,
) -> (r: Result<Flat, String>)
    requires
        reads_true(*h),
        is_steady(*sums),
    ensures
        told(r) == with_call(
            desk_of(*h, *sums, registry@, p.deep_view()),
            acc.deep_view(),
            call.deep_view(),
        ),
{
    let plain = h.do_put(call, true);
    let named = prefix_expr(&plain, &p.naming);
    match &named {
        Expr::Call(name, args) => {
            proof {
                lemma_views(*args);
            }
            assert(args.deep_view().len() == args@.len());
            let function = match find_function(registry, p, name.as_str()) {
                Some(function) => function,
                None => return Err(join3("`", name.as_str(), "` is not a function")),
            };
            let (given, shapes, acc) = match give_arguments(h, p, acc, args) {
                Ok(given) => given,
                Err(why) => return Err(why),
            };
            match h.do_checks(function, &given, &shapes) {
                Err(why) => Err(why),
                Ok((made, aside)) => {
                    let mut acc = acc;
                    let mut checks = made;
                    let ghost was = acc.deep_view();
                    let ghost more = checks.deep_view();
                    acc.asserts.append(&mut checks);
                    assert(acc.asserts.deep_view() =~= was.asserts + more);
                    Ok(put_aside(acc, aside))
                },
            }
        },
        _ => Err("a line of an equation section that is not an equation is a call".to_owned()),
    }
}

/// What was gathered with what the first `n` calls check.
pub open spec fn with_calls(
    k: DeskV,
    acc: FlatV,
    list: Seq<Expr>,
    n: nat,
) -> Result<FlatV, Seq<char>>
    decreases n,
{
    if n == 0 || n > list.len() {
        Ok(acc)
    } else {
        match with_calls(k, acc, list, (n - 1) as nat) {
            Err(why) => Err(why),
            Ok(before) => with_call(k, before, list[n - 1].deep_view()),
        }
    }
}

proof fn lemma_with_calls_stops(k: DeskV, acc: FlatV, list: Seq<Expr>, n: nat, all: nat)
    requires
        n <= all <= list.len(),
        with_calls(k, acc, list, n) is Err,
    ensures
        with_calls(k, acc, list, all) == with_calls(k, acc, list, n),
    decreases all,
{
    if n < all {
        lemma_with_calls_stops(k, acc, list, n, (all - 1) as nat);
    }
}

fn take_all_checks<
    A1: Fn(&Expr, bool) -> Expr,
    A2: Fn(&Expr, &Table<Number>, &Table<Number>, &Table<String>) -> Result<(Value, Vec<(Expr, String)>), String>,
    A3: Fn(Value, &Table<Number>, &Table<Number>, &Table<String>) -> Result<(Value, Vec<(Expr, String)>), String>,
    A4: Fn(&Value, &Value, &str) -> Result<Vec<EquationItem>, String>,
    A5: Fn(&Expr) -> String,
    A6: Fn(Option<&Expr>) -> String,
    A7: Fn(&Vec<&Statement>) -> Result<Ran, String>,
    A8: Fn(&ClassDef, &Vec<Expr>, &Vec<Vec<i64>>) -> Result<(Vec<(String, Expr)>, Vec<(Expr, String)>), String>,
    A9: Fn(&ClassDef, &Vec<Expr>, &Vec<Vec<i64>>) -> Result<(Vec<(Expr, String)>, Vec<(Expr, String)>), String>,
    B1: Fn(&str) -> bool,
    B2: Fn(&ClassDef) -> bool,
    W: Fn(Arith, Number, Number) -> Number,
    O: Fn(&str, &Vec<Number>) -> Option<Vec<Number>>,
    N: Fn(&str) -> String,
>(
    h: &Reading<A1, A2, A3, A4, A5, A6, A7, A8, A9, B1, B2>,
    sums: &Sums<W, O, N>,
    registry: &Registry,
    p: &Here,
    acc: Flat,
    list: &Vec<Expr>,
) -> (r: Result<Flat, String>)
    requires
        reads_true(*h),
        is_steady(*sums),
    ensures
        told(r) == with_calls(
            desk_of(*h, *sums, registry@, p.deep_view()),
            acc.deep_view(),
            list@,
            list@.len(),
        ),
{
    let ghost k = desk_of(*h, *sums, registry@, p.deep_view());
    let ghost start = acc.deep_view();
    let mut now = acc;
    let mut i: usize = 0;
    while i < list.len()
        invariant
            i <= list.len(),
            reads_true(*h),
            is_steady(*sums),
            k == desk_of(*h, *sums, registry@, p.deep_view()),
            start == acc.deep_view(),
            with_calls(k, start, list@, i as nat) == Ok::<FlatV, Seq<char>>(now.deep_view()),
        decreases list.len() - i,
    {
        proof {
            if with_calls(k, start, list@, (i + 1) as nat) is Err {
                lemma_with_calls_stops(k, start, list@, (i + 1) as nat, list@.len());
            }
        }
        let one = &list[i];
        match take_checks(h, sums, registry, p, now, one) {
            Err(why) => return Err(why),
            Ok(next) => {
                now = next;
            },
        }
        i = i + 1;
    }
    Ok(now)
}

/// What was gathered with the first `n` checks that statements made.
pub open spec fn with_made_checks(
    k: DeskV,
    acc: FlatV,
    list: Seq<(ExprV, Seq<char>)>,
    n: nat,
) -> Result<FlatV, Seq<char>>
    decreases n,
{
    if n == 0 || n > list.len() {
        Ok(acc)
    } else {
        match with_made_checks(k, acc, list, (n - 1) as nat) {
            Err(why) => Err(why),
            Ok(before) => match comes_to(k.h, k.p, before, list[n - 1].0) {
                Err(why) => Err(why),
                Ok((condition, acc)) => Ok(with_check(acc, condition, list[n - 1].1)),
            },
        }
    }
}

proof fn lemma_with_made_checks_stops(
    k: DeskV,
    acc: FlatV,
    list: Seq<(ExprV, Seq<char>)>,
    n: nat,
    all: nat,
)
    requires
        n <= all <= list.len(),
        with_made_checks(k, acc, list, n) is Err,
    ensures
        with_made_checks(k, acc, list, all) == with_made_checks(k, acc, list, n),
    decreases all,
{
    if n < all {
        lemma_with_made_checks_stops(k, acc, list, n, (all - 1) as nat);
    }
}

fn push_made_checks<
    A1: Fn(&Expr, bool) -> Expr,
    A2: Fn(&Expr, &Table<Number>, &Table<Number>, &Table<String>) -> Result<(Value, Vec<(Expr, String)>), String>,
    A3: Fn(Value, &Table<Number>, &Table<Number>, &Table<String>) -> Result<(Value, Vec<(Expr, String)>), String>,
    A4: Fn(&Value, &Value, &str) -> Result<Vec<EquationItem>, String>,
    A5: Fn(&Expr) -> String,
    A6: Fn(Option<&Expr>) -> String,
    A7: Fn(&Vec<&Statement>) -> Result<Ran, String>,
    A8: Fn(&ClassDef, &Vec<Expr>, &Vec<Vec<i64>>) -> Result<(Vec<(String, Expr)>, Vec<(Expr, String)>), String>,
    A9: Fn(&ClassDef, &Vec<Expr>, &Vec<Vec<i64>>) -> Result<(Vec<(Expr, String)>, Vec<(Expr, String)>), String>,
    B1: Fn(&str) -> bool,
    B2: Fn(&ClassDef) -> bool,
    W: Fn(Arith, Number, Number) -> Number,
    O: Fn(&str, &Vec<Number>) -> Option<Vec<Number>>,
    N: Fn(&str) -> String,
>(
    h: &Reading<A1, A2, A3, A4, A5, A6, A7, A8, A9, B1, B2>,
    sums: &Sums<W, O, N>,
    registry: &Registry,
    p: &Here,
    acc: Flat,
    list: &Vec<(Expr, String)>,
) -> (r: Result<Flat, String>)
    requires
        reads_true(*h),
        is_steady(*sums),
    ensures
        told(r) == with_made_checks(
            desk_of(*h, *sums, registry@, p.deep_view()),
            acc.deep_view(),
            list.deep_view(),
            list@.len(),
        ),
{
    let ghost k = desk_of(*h, *sums, registry@, p.deep_view());
    let ghost all = list.deep_view();
    let ghost start = acc.deep_view();
    let mut now = acc;
    let mut i: usize = 0;
    while i < list.len()
        invariant
            i <= list.len(),
            reads_true(*h),
            all == list.deep_view(),
            start == acc.deep_view(),
            k == desk_of(*h, *sums, registry@, p.deep_view()),
            with_made_checks(k, start, all, i as nat) == Ok::<FlatV, Seq<char>>(now.deep_view()),
        decreases list.len() - i,
    {
        assert(all[i as int] == list@[i as int].deep_view());
        match resolve_here(h, p, now, &list[i].0) {
            Err(why) => {
                proof {
                    lemma_with_made_checks_stops(k, start, all, (i + 1) as nat, all.len());
                }
                return Err(why);
            },
            Ok((condition, next)) => {
                now = push_check(next, condition, list[i].1.clone());
            },
        }
        i = i + 1;
    }
    Ok(now)
}

/// The assignments of the first `n` names that statements wrote.
pub open spec fn written_actions(
    k: DeskV,
    acc: FlatV,
    written: Map<Seq<char>, ExprV>,
    order: Seq<Seq<char>>,
    n: nat,
) -> Result<(Seq<WhenActionV>, FlatV), Seq<char>>
    decreases n,
{
    if n == 0 || n > order.len() {
        Ok((Seq::empty(), acc))
    } else {
        match written_actions(k, acc, written, order, (n - 1) as nat) {
            Err(why) => Err(why),
            Ok((before, acc)) => if written.contains_key(order[n - 1]) {
                match comes_to(k.h, k.p, acc, written[order[n - 1]]) {
                    Err(why) => Err(why),
                    Ok((value, acc)) => Ok(
                        (
                            before.push(
                                WhenActionV::Assign(flat_of(order[n - 1], k.p.naming), value),
                            ),
                            acc,
                        ),
                    ),
                }
            } else {
                Ok((before, acc))
            },
        }
    }
}

proof fn lemma_written_actions_stops(
    k: DeskV,
    acc: FlatV,
    written: Map<Seq<char>, ExprV>,
    order: Seq<Seq<char>>,
    n: nat,
    all: nat,
)
    requires
        n <= all <= order.len(),
        written_actions(k, acc, written, order, n) is Err,
    ensures
        written_actions(k, acc, written, order, all) == written_actions(k, acc, written, order, n),
    decreases all,
{
    if n < all {
        lemma_written_actions_stops(k, acc, written, order, n, (all - 1) as nat);
    }
}

fn write_actions<
    A1: Fn(&Expr, bool) -> Expr,
    A2: Fn(&Expr, &Table<Number>, &Table<Number>, &Table<String>) -> Result<(Value, Vec<(Expr, String)>), String>,
    A3: Fn(Value, &Table<Number>, &Table<Number>, &Table<String>) -> Result<(Value, Vec<(Expr, String)>), String>,
    A4: Fn(&Value, &Value, &str) -> Result<Vec<EquationItem>, String>,
    A5: Fn(&Expr) -> String,
    A6: Fn(Option<&Expr>) -> String,
    A7: Fn(&Vec<&Statement>) -> Result<Ran, String>,
    A8: Fn(&ClassDef, &Vec<Expr>, &Vec<Vec<i64>>) -> Result<(Vec<(String, Expr)>, Vec<(Expr, String)>), String>,
    A9: Fn(&ClassDef, &Vec<Expr>, &Vec<Vec<i64>>) -> Result<(Vec<(Expr, String)>, Vec<(Expr, String)>), String>,
    B1: Fn(&str) -> bool,
    B2: Fn(&ClassDef) -> bool,
    W: Fn(Arith, Number, Number) -> Number,
    O: Fn(&str, &Vec<Number>) -> Option<Vec<Number>>,
    N: Fn(&str) -> String,
>(
    h: &Reading<A1, A2, A3, A4, A5, A6, A7, A8, A9, B1, B2>,
    sums: &Sums<W, O, N>,
    registry: &Registry,
    p: &Here,
    acc: Flat,
    written: &Table<Expr>,
    order: &Vec<String>,
) -> (r: Result<(Vec<WhenAction>, Flat), String>)
    requires
        reads_true(*h),
        is_steady(*sums),
    ensures
        told(r) == written_actions(
            desk_of(*h, *sums, registry@, p.deep_view()),
            acc.deep_view(),
            written.deep_view(),
            texts(order@),
            order@.len(),
        ),
{
    let ghost k = desk_of(*h, *sums, registry@, p.deep_view());
    let ghost all = texts(order@);
    let ghost wv = written.deep_view();
    let ghost start = acc.deep_view();
    let mut now = acc;
    let mut out: Vec<WhenAction> = Vec::new();
    let mut i: usize = 0;
    assert(out.deep_view() =~= Seq::empty());
    while i < order.len()
        invariant
            i <= order.len(),
            reads_true(*h),
            all == texts(order@),
            wv == written.deep_view(),
            k == desk_of(*h, *sums, registry@, p.deep_view()),
            start == acc.deep_view(),
            written_actions(k, start, wv, all, i as nat) == Ok::<
                (Seq<WhenActionV>, FlatV),
                Seq<char>,
            >((out.deep_view(), now.deep_view())),
        decreases order.len() - i,
    {
        let ghost before = out.deep_view();
        assert(all[i as int] == order@[i as int]@);
        if let Some(value) = written.get(order[i].as_str()) {
            match resolve_here(h, p, now, value) {
                Err(why) => {
                    proof {
                        lemma_written_actions_stops(k, start, wv, all, (i + 1) as nat, all.len());
                    }
                    return Err(why);
                },
                Ok((value, next)) => {
                    now = next;
                    let action = WhenAction::Assign(
                        flat_name(order[i].as_str(), &p.naming),
                        value,
                    );
                    let ghost av = action.deep_view();
                    out.push(action);
                    assert(out.deep_view() =~= before.push(av));
                },
            }
        }
        i = i + 1;
    }
    Ok((out, now))
}

fn point_at(list: &Vec<Statement>) -> (r: Vec<&Statement>)
    ensures
        listed(r@) == list@,
{
    let mut out: Vec<&Statement> = Vec::new();
    let mut i: usize = 0;
    while i < list.len()
        invariant
            i <= list.len(),
            out@.len() == i,
            forall|k: int| 0 <= k < i ==> *(#[trigger] out@[k]) == list@[k],
        decreases list.len() - i,
    {
        out.push(&list[i]);
        i = i + 1;
    }
    assert(listed(out@) =~= list@);
    out
}

/// One branch of a `when` among the statements, and what its body checked.
///
/// Running the body is what says which names it leaves changed and what each
/// of them is worth.
pub open spec fn branch_lifted(k: DeskV, acc: FlatV, branch: StatementBranch) -> Result<
    (FlatV, WhenBranchV),
    Seq<char>,
> {
    match (k.h.run)(branch.body@) {
        Err(why) => Err(why),
        Ok(ran) => match ran.flow {
            Flow::Break => Err("`break` outside of a loop, inside a `when`"@),
            Flow::Return => Err("`return` belongs in a function, not a `when` of a model"@),
            Flow::Normal => match with_made_checks(
                k,
                set_aside(acc, ran.aside),
                ran.checks,
                ran.checks.len(),
            ) {
                Err(why) => Err(why),
                Ok(acc) => match written_actions(
                    k,
                    acc,
                    ran.written,
                    ran.order,
                    ran.order.len(),
                ) {
                    Err(why) => Err(why),
                    Ok((actions, acc)) => match branch.condition {
                        None => Err("a `when` has no `else`"@),
                        Some(condition) => match comes_to(
                            k.h,
                            k.p,
                            acc,
                            condition.deep_view(),
                        ) {
                            Err(why) => Err(why),
                            Ok((condition, acc)) => Ok((acc, WhenBranchV { condition, actions })),
                        },
                    },
                },
            },
        },
    }
}

fn lift_branch<
    A1: Fn(&Expr, bool) -> Expr,
    A2: Fn(&Expr, &Table<Number>, &Table<Number>, &Table<String>) -> Result<(Value, Vec<(Expr, String)>), String>,
    A3: Fn(Value, &Table<Number>, &Table<Number>, &Table<String>) -> Result<(Value, Vec<(Expr, String)>), String>,
    A4: Fn(&Value, &Value, &str) -> Result<Vec<EquationItem>, String>,
    A5: Fn(&Expr) -> String,
    A6: Fn(Option<&Expr>) -> String,
    A7: Fn(&Vec<&Statement>) -> Result<Ran, String>,
    A8: Fn(&ClassDef, &Vec<Expr>, &Vec<Vec<i64>>) -> Result<(Vec<(String, Expr)>, Vec<(Expr, String)>), String>,
    A9: Fn(&ClassDef, &Vec<Expr>, &Vec<Vec<i64>>) -> Result<(Vec<(Expr, String)>, Vec<(Expr, String)>), String>,
    B1: Fn(&str) -> bool,
    B2: Fn(&ClassDef) -> bool,
    W: Fn(Arith, Number, Number) -> Number,
    O: Fn(&str, &Vec<Number>) -> Option<Vec<Number>>,
    N: Fn(&str) -> String,
>(
    h: &Reading<A1, A2, A3, A4, A5, A6, A7, A8, A9, B1, B2>,
    sums: &Sums<W, O, N>,
    registry: &Registry,
    p: &Here,
    acc: Flat,
    branch: &StatementBranch,
) -> (r: Result<(Flat, WhenBranch), String>)
    requires
        reads_true(*h),
        is_steady(*sums),
    ensures
        told(r) == branch_lifted(
            desk_of(*h, *sums, registry@, p.deep_view()),
            acc.deep_view(),
            *branch,
        ),
{
    let body = point_at(&branch.body);
    let Ran { flow, written, order, checks, aside } = match h.do_run(&body) {
        Ok(ran) => ran,
        Err(why) => return Err(why),
    };
    assert(checks.deep_view().len() == checks@.len());
    assert(texts(order@).len() == order@.len());
    match flow {
        Flow::Break => return Err("`break` outside of a loop, inside a `when`".to_owned()),
        Flow::Return => return Err(
            "`return` belongs in a function, not a `when` of a model".to_owned(),
        ),
        Flow::Normal => {},
    }
    let acc = match push_made_checks(h, sums, registry, p, put_aside(acc, aside), &checks) {
        Ok(acc) => acc,
        Err(why) => return Err(why),
    };
    let (actions, acc) = match write_actions(h, sums, registry, p, acc, &written, &order) {
        Ok(actions) => actions,
        Err(why) => return Err(why),
    };
    match &branch.condition {
        None => Err("a `when` has no `else`".to_owned()),
        Some(condition) => match resolve_here(h, p, acc, condition) {
            Err(why) => Err(why),
            Ok((condition, acc)) => Ok((acc, WhenBranch { condition, actions })),
        },
    }
}

/// The first `n` branches of a `when` among the statements.
pub open spec fn branches_lifted(
    k: DeskV,
    acc: FlatV,
    list: Seq<StatementBranch>,
    n: nat,
) -> Result<(FlatV, Seq<WhenBranchV>), Seq<char>>
    decreases n,
{
    if n == 0 || n > list.len() {
        Ok((acc, Seq::empty()))
    } else {
        match branches_lifted(k, acc, list, (n - 1) as nat) {
            Err(why) => Err(why),
            Ok((before, branches)) => match branch_lifted(k, before, list[n - 1]) {
                Err(why) => Err(why),
                Ok((acc, branch)) => Ok((acc, branches.push(branch))),
            },
        }
    }
}

proof fn lemma_branches_lifted_stops(
    k: DeskV,
    acc: FlatV,
    list: Seq<StatementBranch>,
    n: nat,
    all: nat,
)
    requires
        n <= all <= list.len(),
        branches_lifted(k, acc, list, n) is Err,
    ensures
        branches_lifted(k, acc, list, all) == branches_lifted(k, acc, list, n),
    decreases all,
{
    if n < all {
        lemma_branches_lifted_stops(k, acc, list, n, (all - 1) as nat);
    }
}

/// What was gathered with a statement taken as an event, where it is one.
pub open spec fn with_event(k: DeskV, acc: FlatV, statement: Statement) -> Result<
    FlatV,
    Seq<char>,
> {
    match statement {
        Statement::When(branches) => match branches_lifted(k, acc, branches@, branches@.len()) {
            Err(why) => Err(why),
            Ok((acc, lifted)) => Ok(
                FlatV {
                    when_clauses: acc.when_clauses.push(
                        WhenClauseV { branches: lifted, origin: acc.origin },
                    ),
                    ..acc
                },
            ),
        },
        _ => Ok(acc),
    }
}

fn push_event<
    A1: Fn(&Expr, bool) -> Expr,
    A2: Fn(&Expr, &Table<Number>, &Table<Number>, &Table<String>) -> Result<(Value, Vec<(Expr, String)>), String>,
    A3: Fn(Value, &Table<Number>, &Table<Number>, &Table<String>) -> Result<(Value, Vec<(Expr, String)>), String>,
    A4: Fn(&Value, &Value, &str) -> Result<Vec<EquationItem>, String>,
    A5: Fn(&Expr) -> String,
    A6: Fn(Option<&Expr>) -> String,
    A7: Fn(&Vec<&Statement>) -> Result<Ran, String>,
    A8: Fn(&ClassDef, &Vec<Expr>, &Vec<Vec<i64>>) -> Result<(Vec<(String, Expr)>, Vec<(Expr, String)>), String>,
    A9: Fn(&ClassDef, &Vec<Expr>, &Vec<Vec<i64>>) -> Result<(Vec<(Expr, String)>, Vec<(Expr, String)>), String>,
    B1: Fn(&str) -> bool,
    B2: Fn(&ClassDef) -> bool,
    W: Fn(Arith, Number, Number) -> Number,
    O: Fn(&str, &Vec<Number>) -> Option<Vec<Number>>,
    N: Fn(&str) -> String,
>(
    h: &Reading<A1, A2, A3, A4, A5, A6, A7, A8, A9, B1, B2>,
    sums: &Sums<W, O, N>,
    registry: &Registry,
    p: &Here,
    acc: Flat,
    statement: &Statement,
) -> (r: Result<Flat, String>)
    requires
        reads_true(*h),
        is_steady(*sums),
    ensures
        told(r) == with_event(
            desk_of(*h, *sums, registry@, p.deep_view()),
            acc.deep_view(),
            *statement,
        ),
{
    let ghost k = desk_of(*h, *sums, registry@, p.deep_view());
    let list = match statement {
        Statement::When(list) => list,
        _ => return Ok(acc),
    };
    let ghost start = acc.deep_view();
    let mut now = acc;
    let mut lifted: Vec<WhenBranch> = Vec::new();
    let mut i: usize = 0;
    assert(lifted.deep_view() =~= Seq::empty());
    while i < list.len()
        invariant
            i <= list.len(),
            reads_true(*h),
            is_steady(*sums),
            *statement == Statement::When(*list),
            start == acc.deep_view(),
            k == desk_of(*h, *sums, registry@, p.deep_view()),
            branches_lifted(k, start, list@, i as nat) == Ok::<
                (FlatV, Seq<WhenBranchV>),
                Seq<char>,
            >((now.deep_view(), lifted.deep_view())),
        decreases list.len() - i,
    {
        let ghost before = lifted.deep_view();
        proof {
            if branches_lifted(k, start, list@, (i + 1) as nat) is Err {
                lemma_branches_lifted_stops(k, start, list@, (i + 1) as nat, list@.len());
            }
        }
        match lift_branch(h, sums, registry, p, now, &list[i]) {
            Err(why) => return Err(why),
            Ok((next, branch)) => {
                now = next;
                let ghost bv = branch.deep_view();
                lifted.push(branch);
                assert(lifted.deep_view() =~= before.push(bv));
            },
        }
        i = i + 1;
    }
    let ghost was = now.deep_view();
    let clause = WhenClause { branches: lifted, origin: now.origin.clone() };
    let ghost cv = clause.deep_view();
    now.when_clauses.push(clause);
    assert(now.when_clauses.deep_view() =~= was.when_clauses.push(cv));
    Ok(now)
}

/// What was gathered with the events among the first `n` statements.
pub open spec fn with_events(
    k: DeskV,
    acc: FlatV,
    list: Seq<Statement>,
    n: nat,
) -> Result<FlatV, Seq<char>>
    decreases n,
{
    if n == 0 || n > list.len() {
        Ok(acc)
    } else {
        match with_events(k, acc, list, (n - 1) as nat) {
            Err(why) => Err(why),
            Ok(before) => with_event(k, before, list[n - 1]),
        }
    }
}

proof fn lemma_with_events_stops(k: DeskV, acc: FlatV, list: Seq<Statement>, n: nat, all: nat)
    requires
        n <= all <= list.len(),
        with_events(k, acc, list, n) is Err,
    ensures
        with_events(k, acc, list, all) == with_events(k, acc, list, n),
    decreases all,
{
    if n < all {
        lemma_with_events_stops(k, acc, list, n, (all - 1) as nat);
    }
}

fn push_events<
    A1: Fn(&Expr, bool) -> Expr,
    A2: Fn(&Expr, &Table<Number>, &Table<Number>, &Table<String>) -> Result<(Value, Vec<(Expr, String)>), String>,
    A3: Fn(Value, &Table<Number>, &Table<Number>, &Table<String>) -> Result<(Value, Vec<(Expr, String)>), String>,
    A4: Fn(&Value, &Value, &str) -> Result<Vec<EquationItem>, String>,
    A5: Fn(&Expr) -> String,
    A6: Fn(Option<&Expr>) -> String,
    A7: Fn(&Vec<&Statement>) -> Result<Ran, String>,
    A8: Fn(&ClassDef, &Vec<Expr>, &Vec<Vec<i64>>) -> Result<(Vec<(String, Expr)>, Vec<(Expr, String)>), String>,
    A9: Fn(&ClassDef, &Vec<Expr>, &Vec<Vec<i64>>) -> Result<(Vec<(Expr, String)>, Vec<(Expr, String)>), String>,
    B1: Fn(&str) -> bool,
    B2: Fn(&ClassDef) -> bool,
    W: Fn(Arith, Number, Number) -> Number,
    O: Fn(&str, &Vec<Number>) -> Option<Vec<Number>>,
    N: Fn(&str) -> String,
>(
    h: &Reading<A1, A2, A3, A4, A5, A6, A7, A8, A9, B1, B2>,
    sums: &Sums<W, O, N>,
    registry: &Registry,
    p: &Here,
    acc: Flat,
    list: &Vec<Statement>,
) -> (r: Result<Flat, String>)
    requires
        reads_true(*h),
        is_steady(*sums),
    ensures
        told(r) == with_events(
            desk_of(*h, *sums, registry@, p.deep_view()),
            acc.deep_view(),
            list@,
            list@.len(),
        ),
{
    let ghost k = desk_of(*h, *sums, registry@, p.deep_view());
    let ghost start = acc.deep_view();
    let mut now = acc;
    let mut i: usize = 0;
    while i < list.len()
        invariant
            i <= list.len(),
            reads_true(*h),
            is_steady(*sums),
            k == desk_of(*h, *sums, registry@, p.deep_view()),
            start == acc.deep_view(),
            with_events(k, start, list@, i as nat) == Ok::<FlatV, Seq<char>>(now.deep_view()),
        decreases list.len() - i,
    {
        proof {
            if with_events(k, start, list@, (i + 1) as nat) is Err {
                lemma_with_events_stops(k, start, list@, (i + 1) as nat, list@.len());
            }
        }
        let one = &list[i];
        match push_event(h, sums, registry, p, now, one) {
            Err(why) => return Err(why),
            Ok(next) => {
                now = next;
            },
        }
        i = i + 1;
    }
    Ok(now)
}

/// The statements that are no events.
pub open spec fn steps_among(list: Seq<Statement>) -> Seq<Statement>
    decreases list.len(),
{
    if list.len() == 0 {
        Seq::empty()
    } else if list.last() is When {
        steps_among(list.drop_last())
    } else {
        steps_among(list.drop_last()).push(list.last())
    }
}

fn point_at_steps(list: &Vec<Statement>) -> (r: Vec<&Statement>)
    ensures
        listed(r@) == steps_among(list@),
{
    let mut out: Vec<&Statement> = Vec::new();
    let mut i: usize = 0;
    assert(listed(out@) =~= steps_among(list@.take(0)));
    while i < list.len()
        invariant
            i <= list.len(),
            listed(out@) == steps_among(list@.take(i as int)),
        decreases list.len() - i,
    {
        let ghost before = listed(out@);
        assert(list@.take(i + 1).drop_last() =~= list@.take(i as int));
        if !matches!(list[i], Statement::When(_)) {
            out.push(&list[i]);
            assert(listed(out@) =~= before.push(list@[i as int]));
        }
        i = i + 1;
    }
    assert(list@.take(i as int) =~= list@);
    out
}

/// What was gathered with an equation for each of the first `n` names that
/// statements assigned.
pub open spec fn with_assigned(
    k: DeskV,
    acc: FlatV,
    written: Map<Seq<char>, ExprV>,
    order: Seq<Seq<char>>,
    which: Seq<char>,
    n: nat,
) -> Result<FlatV, Seq<char>>
    decreases n,
{
    if n == 0 || n > order.len() {
        Ok(acc)
    } else {
        match with_assigned(k, acc, written, order, which, (n - 1) as nat) {
            Err(why) => Err(why),
            Ok(before) => if !written.contains_key(order[n - 1]) {
                Err("`"@ + order[n - 1] + "` is assigned by the "@ + which + " but has no value"@)
            } else {
                match stands_for(k.h, k.p, before, ExprV::Ref(order[n - 1])) {
                    Err(why) => Err(why),
                    Ok((lhs, acc)) => match stands_for(k.h, k.p, acc, written[order[n - 1]]) {
                        Err(why) => Err(why),
                        Ok((rhs, acc)) => with_pair(k.h, acc, lhs, rhs),
                    },
                }
            },
        }
    }
}

proof fn lemma_with_assigned_stops(
    k: DeskV,
    acc: FlatV,
    written: Map<Seq<char>, ExprV>,
    order: Seq<Seq<char>>,
    which: Seq<char>,
    n: nat,
    all: nat,
)
    requires
        n <= all <= order.len(),
        with_assigned(k, acc, written, order, which, n) is Err,
    ensures
        with_assigned(
            k,
            acc,
            written,
            order,
            which,
            all,
        ) == with_assigned(k, acc, written, order, which, n),
    decreases all,
{
    if n < all {
        lemma_with_assigned_stops(k, acc, written, order, which, n, (all - 1) as nat);
    }
}

fn push_assigned<
    A1: Fn(&Expr, bool) -> Expr,
    A2: Fn(&Expr, &Table<Number>, &Table<Number>, &Table<String>) -> Result<(Value, Vec<(Expr, String)>), String>,
    A3: Fn(Value, &Table<Number>, &Table<Number>, &Table<String>) -> Result<(Value, Vec<(Expr, String)>), String>,
    A4: Fn(&Value, &Value, &str) -> Result<Vec<EquationItem>, String>,
    A5: Fn(&Expr) -> String,
    A6: Fn(Option<&Expr>) -> String,
    A7: Fn(&Vec<&Statement>) -> Result<Ran, String>,
    A8: Fn(&ClassDef, &Vec<Expr>, &Vec<Vec<i64>>) -> Result<(Vec<(String, Expr)>, Vec<(Expr, String)>), String>,
    A9: Fn(&ClassDef, &Vec<Expr>, &Vec<Vec<i64>>) -> Result<(Vec<(Expr, String)>, Vec<(Expr, String)>), String>,
    B1: Fn(&str) -> bool,
    B2: Fn(&ClassDef) -> bool,
    W: Fn(Arith, Number, Number) -> Number,
    O: Fn(&str, &Vec<Number>) -> Option<Vec<Number>>,
    N: Fn(&str) -> String,
>(
    h: &Reading<A1, A2, A3, A4, A5, A6, A7, A8, A9, B1, B2>,
    sums: &Sums<W, O, N>,
    registry: &Registry,
    p: &Here,
    acc: Flat,
    written: &Table<Expr>,
    order: &Vec<String>,
    which: &str,
) -> (r: Result<Flat, String>)
    requires
        reads_true(*h),
        is_steady(*sums),
    ensures
        told(r) == with_assigned(
            desk_of(*h, *sums, registry@, p.deep_view()),
            acc.deep_view(),
            written.deep_view(),
            texts(order@),
            which@,
            order@.len(),
        ),
{
    let ghost k = desk_of(*h, *sums, registry@, p.deep_view());
    let ghost all = texts(order@);
    let ghost wv = written.deep_view();
    let ghost start = acc.deep_view();
    let mut now = acc;
    let mut i: usize = 0;
    while i < order.len()
        invariant
            i <= order.len(),
            reads_true(*h),
            all == texts(order@),
            wv == written.deep_view(),
            start == acc.deep_view(),
            k == desk_of(*h, *sums, registry@, p.deep_view()),
            with_assigned(k, start, wv, all, which@, i as nat) == Ok::<FlatV, Seq<char>>(
                now.deep_view(),
            ),
        decreases order.len() - i,
    {
        assert(all[i as int] == order@[i as int]@);
        proof {
            if with_assigned(k, start, wv, all, which@, (i + 1) as nat) is Err {
                lemma_with_assigned_stops(
                    k,
                    start,
                    wv,
                    all,
                    which@,
                    (i + 1) as nat,
                    all.len(),
                );
            }
        }
        let value = match written.get(order[i].as_str()) {
            Some(value) => value,
            None => return Err(
                join5(
                    "`",
                    order[i].as_str(),
                    "` is assigned by the ",
                    which,
                    " but has no value",
                ),
            ),
        };
        let named = make::name(order[i].clone());
        let (lhs, next) = match expand_here(h, p, now, &named) {
            Ok(made) => made,
            Err(why) => return Err(why),
        };
        let (rhs, next) = match expand_here(h, p, next, value) {
            Ok(made) => made,
            Err(why) => return Err(why),
        };
        match push_pair(h, next, &lhs, &rhs) {
            Err(why) => return Err(why),
            Ok(next) => {
                now = next;
            },
        }
        i = i + 1;
    }
    Ok(now)
}

/// What was gathered with a section of statements executed: one equation per
/// variable it assigns.
pub open spec fn with_section(
    k: DeskV,
    acc: FlatV,
    list: Seq<Statement>,
    which: Seq<char>,
) -> Result<FlatV, Seq<char>> {
    match (k.h.run)(list) {
        Err(why) => Err(why),
        Ok(ran) => match ran.flow {
            Flow::Break => Err("`break` outside of a loop"@),
            Flow::Return => Err("`return` belongs in a function, not a model algorithm"@),
            Flow::Normal => match with_made_checks(
                k,
                set_aside(acc, ran.aside),
                ran.checks,
                ran.checks.len(),
            ) {
                Err(why) => Err(why),
                Ok(acc) => with_assigned(
                    k,
                    acc,
                    ran.written,
                    ran.order,
                    which,
                    ran.order.len(),
                ),
            },
        },
    }
}

fn push_section<
    A1: Fn(&Expr, bool) -> Expr,
    A2: Fn(&Expr, &Table<Number>, &Table<Number>, &Table<String>) -> Result<(Value, Vec<(Expr, String)>), String>,
    A3: Fn(Value, &Table<Number>, &Table<Number>, &Table<String>) -> Result<(Value, Vec<(Expr, String)>), String>,
    A4: Fn(&Value, &Value, &str) -> Result<Vec<EquationItem>, String>,
    A5: Fn(&Expr) -> String,
    A6: Fn(Option<&Expr>) -> String,
    A7: Fn(&Vec<&Statement>) -> Result<Ran, String>,
    A8: Fn(&ClassDef, &Vec<Expr>, &Vec<Vec<i64>>) -> Result<(Vec<(String, Expr)>, Vec<(Expr, String)>), String>,
    A9: Fn(&ClassDef, &Vec<Expr>, &Vec<Vec<i64>>) -> Result<(Vec<(Expr, String)>, Vec<(Expr, String)>), String>,
    B1: Fn(&str) -> bool,
    B2: Fn(&ClassDef) -> bool,
    W: Fn(Arith, Number, Number) -> Number,
    O: Fn(&str, &Vec<Number>) -> Option<Vec<Number>>,
    N: Fn(&str) -> String,
>(
    h: &Reading<A1, A2, A3, A4, A5, A6, A7, A8, A9, B1, B2>,
    sums: &Sums<W, O, N>,
    registry: &Registry,
    p: &Here,
    acc: Flat,
    list: &Vec<&Statement>,
    which: &str,
) -> (r: Result<Flat, String>)
    requires
        reads_true(*h),
        is_steady(*sums),
    ensures
        told(r) == with_section(
            desk_of(*h, *sums, registry@, p.deep_view()),
            acc.deep_view(),
            listed(list@),
            which@,
        ),
{
    let Ran { flow, written, order, checks, aside } = match h.do_run(list) {
        Ok(ran) => ran,
        Err(why) => return Err(why),
    };
    assert(checks.deep_view().len() == checks@.len());
    assert(texts(order@).len() == order@.len());
    match flow {
        Flow::Break => return Err("`break` outside of a loop".to_owned()),
        Flow::Return => return Err(
            "`return` belongs in a function, not a model algorithm".to_owned(),
        ),
        Flow::Normal => {},
    }
    let acc = match push_made_checks(h, sums, registry, p, put_aside(acc, aside), &checks) {
        Ok(acc) => acc,
        Err(why) => return Err(why),
    };
    push_assigned(h, sums, registry, p, acc, &written, &order, which)
}

/// What was gathered, with everything written after a boundary moved to the
/// initial equations.
pub open spec fn moved_to_start(acc: FlatV, boundary: nat) -> FlatV {
    if boundary <= acc.equations.len() {
        FlatV {
            equations: acc.equations.take(boundary as int),
            initial_equations: acc.initial_equations + acc.equations.skip(boundary as int),
            ..acc
        }
    } else {
        acc
    }
}

fn move_to_start(acc: Flat, boundary: usize) -> (r: Flat)
    ensures
        r.deep_view() == moved_to_start(acc.deep_view(), boundary as nat),
{
    let ghost was = acc.deep_view();
    assert(was.equations.len() == acc.equations@.len());
    if boundary > acc.equations.len() {
        return acc;
    }
    let mut acc = acc;
    let mut rest = acc.equations.split_off(boundary);
    assert(acc.equations.deep_view() =~= was.equations.take(boundary as int));
    assert(rest.deep_view() =~= was.equations.skip(boundary as int));
    let ghost more = rest.deep_view();
    acc.initial_equations.append(&mut rest);
    assert(acc.initial_equations.deep_view() =~= was.initial_equations + more);
    acc
}

pub open spec fn holds_event(list: Seq<Statement>) -> bool {
    exists|i: int| 0 <= i < list.len() && #[trigger] list[i] is When
}

fn does_hold_event(list: &Vec<Statement>) -> (r: bool)
    ensures
        r == holds_event(list@),
{
    let mut i: usize = 0;
    while i < list.len()
        invariant
            i <= list.len(),
            forall|k: int| 0 <= k < i ==> !(#[trigger] list@[k] is When),
        decreases list.len() - i,
    {
        if matches!(list[i], Statement::When(_)) {
            assert(list@[i as int] is When);
            return true;
        }
        i = i + 1;
    }
    false
}

/// What was gathered with the `algorithm` section of a model.
pub open spec fn with_algorithm(k: DeskV, acc: FlatV, class: ClassDef) -> Result<
    FlatV,
    Seq<char>,
> {
    if class.kind != ClassKind::Function && class.algorithm@.len() > 0 {
        match with_events(k, acc, class.algorithm@, class.algorithm@.len()) {
            Err(why) => Err(why),
            Ok(acc) => with_section(k, acc, steps_among(class.algorithm@), "algorithm"@),
        }
    } else {
        Ok(acc)
    }
}

/// What was gathered with the `initial algorithm` section of a model: what it
/// assigns is an equation of the initial system.
pub open spec fn with_initial_algorithm(k: DeskV, acc: FlatV, class: ClassDef) -> Result<
    FlatV,
    Seq<char>,
> {
    if class.kind != ClassKind::Function && class.initial_algorithm@.len() > 0 {
        if holds_event(class.initial_algorithm@) {
            Err("a `when` belongs in an algorithm that runs, not an initial one"@)
        } else {
            match with_section(k, acc, class.initial_algorithm@, "initial algorithm"@) {
                Err(why) => Err(why),
                Ok(made) => Ok(moved_to_start(made, acc.equations.len())),
            }
        }
    } else {
        Ok(acc)
    }
}

/// A model's `algorithm` and `initial algorithm` sections, executed: what
/// comes out is one equation per variable assigned.
fn run_algorithm_sections<
    A1: Fn(&Expr, bool) -> Expr,
    A2: Fn(&Expr, &Table<Number>, &Table<Number>, &Table<String>) -> Result<(Value, Vec<(Expr, String)>), String>,
    A3: Fn(Value, &Table<Number>, &Table<Number>, &Table<String>) -> Result<(Value, Vec<(Expr, String)>), String>,
    A4: Fn(&Value, &Value, &str) -> Result<Vec<EquationItem>, String>,
    A5: Fn(&Expr) -> String,
    A6: Fn(Option<&Expr>) -> String,
    A7: Fn(&Vec<&Statement>) -> Result<Ran, String>,
    A8: Fn(&ClassDef, &Vec<Expr>, &Vec<Vec<i64>>) -> Result<(Vec<(String, Expr)>, Vec<(Expr, String)>), String>,
    A9: Fn(&ClassDef, &Vec<Expr>, &Vec<Vec<i64>>) -> Result<(Vec<(Expr, String)>, Vec<(Expr, String)>), String>,
    B1: Fn(&str) -> bool,
    B2: Fn(&ClassDef) -> bool,
    W: Fn(Arith, Number, Number) -> Number,
    O: Fn(&str, &Vec<Number>) -> Option<Vec<Number>>,
    N: Fn(&str) -> String,
>(
    h: &Reading<A1, A2, A3, A4, A5, A6, A7, A8, A9, B1, B2>,
    sums: &Sums<W, O, N>,
    registry: &Registry,
    p: &Here,
    acc: Flat,
    class: &ClassDef,
) -> (r: Result<Flat, String>)
    requires
        reads_true(*h),
        is_steady(*sums),
    ensures
        told(r) == (match with_algorithm(desk_of(*h, *sums, registry@, p.deep_view()), acc.deep_view(), *class) {
            Err(why) => Err(why),
            Ok(acc) => with_initial_algorithm(
                desk_of(*h, *sums, registry@, p.deep_view()),
                acc,
                *class,
            ),
        }),
{
    let mut acc = acc;
    if class.kind != ClassKind::Function && class.algorithm.len() > 0 {
        acc = match push_events(h, sums, registry, p, acc, &class.algorithm) {
            Ok(acc) => acc,
            Err(why) => return Err(why),
        };
        let steps = point_at_steps(&class.algorithm);
        acc = match push_section(h, sums, registry, p, acc, &steps, "algorithm") {
            Ok(acc) => acc,
            Err(why) => return Err(why),
        };
    }
    if class.kind != ClassKind::Function && class.initial_algorithm.len() > 0 {
        if does_hold_event(&class.initial_algorithm) {
            return Err("a `when` belongs in an algorithm that runs, not an initial one".to_owned());
        }
        let boundary: usize = acc.equations.len();
        assert(acc.deep_view().equations.len() == boundary);
        let steps = point_at(&class.initial_algorithm);
        acc = match push_section(h, sums, registry, p, acc, &steps, "initial algorithm") {
            Ok(acc) => acc,
            Err(why) => return Err(why),
        };
        acc = move_to_start(acc, boundary);
    }
    Ok(acc)
}

/// What the condition of an `if` equation is worth before the run: read with
/// the constants of the classes it names put in, and with what the graph has
/// answered where it has.
pub open spec fn condition_worth(k: DeskV, acc: FlatV, condition: ExprV) -> Option<Number> {
    let env = overlaid(acc.const_values, k.p.consts);
    let named = (k.h.put)(condition, false);
    match evaluated(named, env, k.v) {
        Some(value) => Some(value),
        None => if !acc.answered {
            None
        } else {
            evaluated(
                answered(prefixed_whole(named, k.p.naming), acc.roots, acc.counts),
                env,
                k.v,
            )
        },
    }
}

/// What the compiler makes of each branch of an `if` equation.
pub open spec fn class_verdicts(k: DeskV, acc: FlatV, held: IfEquation) -> Seq<Verdict> {
    Seq::new(
        held.branches@.len(),
        |i: int|
            match held.branches@[i].condition {
                None => Verdict::Always,
                Some(condition) => verdict_on(condition_worth(k, acc, condition.deep_view())),
            },
    )
}

fn judge<
    A1: Fn(&Expr, bool) -> Expr,
    A2: Fn(&Expr, &Table<Number>, &Table<Number>, &Table<String>) -> Result<(Value, Vec<(Expr, String)>), String>,
    A3: Fn(Value, &Table<Number>, &Table<Number>, &Table<String>) -> Result<(Value, Vec<(Expr, String)>), String>,
    A4: Fn(&Value, &Value, &str) -> Result<Vec<EquationItem>, String>,
    A5: Fn(&Expr) -> String,
    A6: Fn(Option<&Expr>) -> String,
    A7: Fn(&Vec<&Statement>) -> Result<Ran, String>,
    A8: Fn(&ClassDef, &Vec<Expr>, &Vec<Vec<i64>>) -> Result<(Vec<(String, Expr)>, Vec<(Expr, String)>), String>,
    A9: Fn(&ClassDef, &Vec<Expr>, &Vec<Vec<i64>>) -> Result<(Vec<(Expr, String)>, Vec<(Expr, String)>), String>,
    B1: Fn(&str) -> bool,
    B2: Fn(&ClassDef) -> bool,
    W: Fn(Arith, Number, Number) -> Number,
    O: Fn(&str, &Vec<Number>) -> Option<Vec<Number>>,
    N: Fn(&str) -> String,
>(
    h: &Reading<A1, A2, A3, A4, A5, A6, A7, A8, A9, B1, B2>,
    sums: &Sums<W, O, N>,
    registry: &Registry,
    p: &Here,
    acc: &Flat,
    held: &IfEquation,
) -> (r: Vec<Verdict>)
    requires
        reads_true(*h),
        is_steady(*sums),
    ensures
        r@ == class_verdicts(desk_of(*h, *sums, registry@, p.deep_view()), acc.deep_view(), *held),
{
    let ghost k = desk_of(*h, *sums, registry@, p.deep_view());
    let ghost av = acc.deep_view();
    let ghost whole = class_verdicts(k, av, *held);
    let env = overlay(&acc.const_values, &p.consts);
    let mut out: Vec<Verdict> = Vec::new();
    let mut i: usize = 0;
    while i < held.branches.len()
        invariant
            i <= held.branches.len(),
            reads_true(*h),
            is_steady(*sums),
            k == desk_of(*h, *sums, registry@, p.deep_view()),
            av == acc.deep_view(),
            env.deep_view() == overlaid(av.const_values, k.p.consts),
            whole == class_verdicts(k, av, *held),
            out@ == whole.take(i as int),
        decreases held.branches.len() - i,
    {
        let verdict = match &held.branches[i].condition {
            None => Verdict::Always,
            Some(condition) => {
                let named = h.do_put(condition, false);
                match const_eval(&named, &env, sums) {
                    Some(value) => Verdict::Worth(value),
                    None => if !acc.answered {
                        Verdict::Open
                    } else {
                        let asked = prefix_expr(&named, &p.naming);
                        let said = answer_graph_queries(&asked, &acc.roots, &acc.counts);
                        match const_eval(&said, &env, sums) {
                            Some(value) => Verdict::Worth(value),
                            None => Verdict::Open,
                        }
                    },
                }
            },
        };
        assert(verdict == whole[i as int]);
        out.push(verdict);
        assert(out@ =~= whole.take(i + 1));
        i = i + 1;
    }
    assert(whole.take(i as int) =~= whole);
    out
}

/// What was gathered with a loop of the class unrolled.
pub open spec fn with_loop(k: DeskV, acc: FlatV, l: ForEquation) -> Result<FlatV, Seq<char>> {
    unrolled(k.h, k.v, k.p, acc, l, Map::empty(), k.p.consts)
}

fn push_loop<
    A1: Fn(&Expr, bool) -> Expr,
    A2: Fn(&Expr, &Table<Number>, &Table<Number>, &Table<String>) -> Result<(Value, Vec<(Expr, String)>), String>,
    A3: Fn(Value, &Table<Number>, &Table<Number>, &Table<String>) -> Result<(Value, Vec<(Expr, String)>), String>,
    A4: Fn(&Value, &Value, &str) -> Result<Vec<EquationItem>, String>,
    A5: Fn(&Expr) -> String,
    A6: Fn(Option<&Expr>) -> String,
    A7: Fn(&Vec<&Statement>) -> Result<Ran, String>,
    A8: Fn(&ClassDef, &Vec<Expr>, &Vec<Vec<i64>>) -> Result<(Vec<(String, Expr)>, Vec<(Expr, String)>), String>,
    A9: Fn(&ClassDef, &Vec<Expr>, &Vec<Vec<i64>>) -> Result<(Vec<(Expr, String)>, Vec<(Expr, String)>), String>,
    B1: Fn(&str) -> bool,
    B2: Fn(&ClassDef) -> bool,
    W: Fn(Arith, Number, Number) -> Number,
    O: Fn(&str, &Vec<Number>) -> Option<Vec<Number>>,
    N: Fn(&str) -> String,
>(
    h: &Reading<A1, A2, A3, A4, A5, A6, A7, A8, A9, B1, B2>,
    sums: &Sums<W, O, N>,
    registry: &Registry,
    p: &Here,
    acc: Flat,
    l: &ForEquation,
) -> (r: Result<Flat, String>)
    requires
        reads_true(*h),
        is_steady(*sums),
        loop_laid_out(*l),
    ensures
        told(r) == with_loop(desk_of(*h, *sums, registry@, p.deep_view()), acc.deep_view(), *l),
{
    let none: Table<Number> = Table::new();
    unroll(h, sums, p, acc, l, &none, &p.consts)
}

pub open spec fn all_laid_out(list: Seq<ForEquation>) -> bool {
    forall|i: int| 0 <= i < list.len() ==> loop_laid_out(#[trigger] list[i])
}

/// What was gathered with the first `n` loops of a list unrolled.
pub open spec fn with_loops(
    k: DeskV,
    acc: FlatV,
    list: Seq<ForEquation>,
    n: nat,
) -> Result<FlatV, Seq<char>>
    decreases n,
{
    if n == 0 || n > list.len() {
        Ok(acc)
    } else {
        match with_loops(k, acc, list, (n - 1) as nat) {
            Err(why) => Err(why),
            Ok(before) => with_loop(k, before, list[n - 1]),
        }
    }
}

proof fn lemma_with_loops_stops(k: DeskV, acc: FlatV, list: Seq<ForEquation>, n: nat, all: nat)
    requires
        n <= all <= list.len(),
        with_loops(k, acc, list, n) is Err,
    ensures
        with_loops(k, acc, list, all) == with_loops(k, acc, list, n),
    decreases all,
{
    if n < all {
        lemma_with_loops_stops(k, acc, list, n, (all - 1) as nat);
    }
}

fn push_loops<
    A1: Fn(&Expr, bool) -> Expr,
    A2: Fn(&Expr, &Table<Number>, &Table<Number>, &Table<String>) -> Result<(Value, Vec<(Expr, String)>), String>,
    A3: Fn(Value, &Table<Number>, &Table<Number>, &Table<String>) -> Result<(Value, Vec<(Expr, String)>), String>,
    A4: Fn(&Value, &Value, &str) -> Result<Vec<EquationItem>, String>,
    A5: Fn(&Expr) -> String,
    A6: Fn(Option<&Expr>) -> String,
    A7: Fn(&Vec<&Statement>) -> Result<Ran, String>,
    A8: Fn(&ClassDef, &Vec<Expr>, &Vec<Vec<i64>>) -> Result<(Vec<(String, Expr)>, Vec<(Expr, String)>), String>,
    A9: Fn(&ClassDef, &Vec<Expr>, &Vec<Vec<i64>>) -> Result<(Vec<(Expr, String)>, Vec<(Expr, String)>), String>,
    B1: Fn(&str) -> bool,
    B2: Fn(&ClassDef) -> bool,
    W: Fn(Arith, Number, Number) -> Number,
    O: Fn(&str, &Vec<Number>) -> Option<Vec<Number>>,
    N: Fn(&str) -> String,
>(
    h: &Reading<A1, A2, A3, A4, A5, A6, A7, A8, A9, B1, B2>,
    sums: &Sums<W, O, N>,
    registry: &Registry,
    p: &Here,
    acc: Flat,
    list: &Vec<ForEquation>,
) -> (r: Result<Flat, String>)
    requires
        reads_true(*h),
        is_steady(*sums),
        all_laid_out(list@),
    ensures
        told(r) == with_loops(
            desk_of(*h, *sums, registry@, p.deep_view()),
            acc.deep_view(),
            list@,
            list@.len(),
        ),
{
    let ghost k = desk_of(*h, *sums, registry@, p.deep_view());
    let ghost start = acc.deep_view();
    let mut now = acc;
    let mut i: usize = 0;
    while i < list.len()
        invariant
            i <= list.len(),
            reads_true(*h),
            is_steady(*sums),
            all_laid_out(list@),
            k == desk_of(*h, *sums, registry@, p.deep_view()),
            start == acc.deep_view(),
            with_loops(k, start, list@, i as nat) == Ok::<FlatV, Seq<char>>(now.deep_view()),
        decreases list.len() - i,
    {
        proof {
            if with_loops(k, start, list@, (i + 1) as nat) is Err {
                lemma_with_loops_stops(k, start, list@, (i + 1) as nat, list@.len());
            }
        }
        let one = &list[i];
        match push_loop(h, sums, registry, p, now, one) {
            Err(why) => return Err(why),
            Ok(next) => {
                now = next;
            },
        }
        i = i + 1;
    }
    Ok(now)
}

/// What was gathered with an equation of a branch that was taken: one written
/// in an `initial equation` section says where the run begins.
pub open spec fn with_branch_line(
    k: DeskV,
    acc: FlatV,
    equation: EquationItem,
    initial: bool,
) -> Result<FlatV, Seq<char>> {
    match tuple_read(k, acc, equation.lhs.deep_view(), equation.rhs.deep_view()) {
        Some(done) => done,
        None => match with_equation(
            k.h,
            k.p,
            plain_round(k.p),
            acc,
            equation.lhs.deep_view(),
            equation.rhs.deep_view(),
        ) {
            Err(why) => Err(why),
            Ok(made) => if initial {
                Ok(moved_to_start(made, acc.equations.len()))
            } else {
                Ok(made)
            },
        },
    }
}

fn push_branch_line<
    A1: Fn(&Expr, bool) -> Expr,
    A2: Fn(&Expr, &Table<Number>, &Table<Number>, &Table<String>) -> Result<(Value, Vec<(Expr, String)>), String>,
    A3: Fn(Value, &Table<Number>, &Table<Number>, &Table<String>) -> Result<(Value, Vec<(Expr, String)>), String>,
    A4: Fn(&Value, &Value, &str) -> Result<Vec<EquationItem>, String>,
    A5: Fn(&Expr) -> String,
    A6: Fn(Option<&Expr>) -> String,
    A7: Fn(&Vec<&Statement>) -> Result<Ran, String>,
    A8: Fn(&ClassDef, &Vec<Expr>, &Vec<Vec<i64>>) -> Result<(Vec<(String, Expr)>, Vec<(Expr, String)>), String>,
    A9: Fn(&ClassDef, &Vec<Expr>, &Vec<Vec<i64>>) -> Result<(Vec<(Expr, String)>, Vec<(Expr, String)>), String>,
    B1: Fn(&str) -> bool,
    B2: Fn(&ClassDef) -> bool,
    W: Fn(Arith, Number, Number) -> Number,
    O: Fn(&str, &Vec<Number>) -> Option<Vec<Number>>,
    N: Fn(&str) -> String,
>(
    h: &Reading<A1, A2, A3, A4, A5, A6, A7, A8, A9, B1, B2>,
    sums: &Sums<W, O, N>,
    registry: &Registry,
    p: &Here,
    acc: Flat,
    equation: &EquationItem,
    initial: bool,
) -> (r: Result<Flat, String>)
    requires
        reads_true(*h),
        is_steady(*sums),
    ensures
        told(r) == with_branch_line(
            desk_of(*h, *sums, registry@, p.deep_view()),
            acc.deep_view(),
            *equation,
            initial,
        ),
{
    if let Expr::Tuple(targets) = &equation.lhs {
        assert(equation.lhs.deep_view() == ExprV::Tuple(targets.deep_view())) by {
            lemma_tuple_view(*targets);
        }
        return one_tuple_equation(h, sums, registry, p, acc, targets, &equation.rhs);
    }
    let boundary: usize = acc.equations.len();
    assert(acc.deep_view().equations.len() == boundary);
    let t = make_plain_round(p);
    match push_equation(h, p, &t, acc, &equation.lhs, &equation.rhs) {
        Err(why) => Err(why),
        Ok(made) => if initial {
            Ok(move_to_start(made, boundary))
        } else {
            Ok(made)
        },
    }
}

/// What was gathered with the first `n` equations of a branch.
pub open spec fn with_branch_lines(
    k: DeskV,
    acc: FlatV,
    list: Seq<EquationItem>,
    n: nat,
) -> Result<FlatV, Seq<char>>
    decreases n,
{
    if n == 0 || n > list.len() {
        Ok(acc)
    } else {
        match with_branch_lines(k, acc, list, (n - 1) as nat) {
            Err(why) => Err(why),
            Ok(before) => with_branch_line(k, before, list[n - 1], false),
        }
    }
}

proof fn lemma_with_branch_lines_stops(
    k: DeskV,
    acc: FlatV,
    list: Seq<EquationItem>,
    n: nat,
    all: nat,
)
    requires
        n <= all <= list.len(),
        with_branch_lines(k, acc, list, n) is Err,
    ensures
        with_branch_lines(k, acc, list, all) == with_branch_lines(k, acc, list, n),
    decreases all,
{
    if n < all {
        lemma_with_branch_lines_stops(k, acc, list, n, (all - 1) as nat);
    }
}

fn push_branch_lines<
    A1: Fn(&Expr, bool) -> Expr,
    A2: Fn(&Expr, &Table<Number>, &Table<Number>, &Table<String>) -> Result<(Value, Vec<(Expr, String)>), String>,
    A3: Fn(Value, &Table<Number>, &Table<Number>, &Table<String>) -> Result<(Value, Vec<(Expr, String)>), String>,
    A4: Fn(&Value, &Value, &str) -> Result<Vec<EquationItem>, String>,
    A5: Fn(&Expr) -> String,
    A6: Fn(Option<&Expr>) -> String,
    A7: Fn(&Vec<&Statement>) -> Result<Ran, String>,
    A8: Fn(&ClassDef, &Vec<Expr>, &Vec<Vec<i64>>) -> Result<(Vec<(String, Expr)>, Vec<(Expr, String)>), String>,
    A9: Fn(&ClassDef, &Vec<Expr>, &Vec<Vec<i64>>) -> Result<(Vec<(Expr, String)>, Vec<(Expr, String)>), String>,
    B1: Fn(&str) -> bool,
    B2: Fn(&ClassDef) -> bool,
    W: Fn(Arith, Number, Number) -> Number,
    O: Fn(&str, &Vec<Number>) -> Option<Vec<Number>>,
    N: Fn(&str) -> String,
>(
    h: &Reading<A1, A2, A3, A4, A5, A6, A7, A8, A9, B1, B2>,
    sums: &Sums<W, O, N>,
    registry: &Registry,
    p: &Here,
    acc: Flat,
    list: &Vec<EquationItem>,
) -> (r: Result<Flat, String>)
    requires
        reads_true(*h),
        is_steady(*sums),
    ensures
        told(r) == with_branch_lines(
            desk_of(*h, *sums, registry@, p.deep_view()),
            acc.deep_view(),
            list@,
            list@.len(),
        ),
{
    let ghost k = desk_of(*h, *sums, registry@, p.deep_view());
    let ghost start = acc.deep_view();
    let mut now = acc;
    let mut i: usize = 0;
    while i < list.len()
        invariant
            i <= list.len(),
            reads_true(*h),
            is_steady(*sums),
            k == desk_of(*h, *sums, registry@, p.deep_view()),
            start == acc.deep_view(),
            with_branch_lines(k, start, list@, i as nat) == Ok::<FlatV, Seq<char>>(now.deep_view()),
        decreases list.len() - i,
    {
        proof {
            if with_branch_lines(k, start, list@, (i + 1) as nat) is Err {
                lemma_with_branch_lines_stops(k, start, list@, (i + 1) as nat, list@.len());
            }
        }
        let one = &list[i];
        match push_branch_line(h, sums, registry, p, now, one, false) {
            Err(why) => return Err(why),
            Ok(next) => {
                now = next;
            },
        }
        i = i + 1;
    }
    Ok(now)
}

/// What was gathered with the first `n` equations of a branch that says where
/// the run begins.
pub open spec fn with_initial_lines(
    k: DeskV,
    acc: FlatV,
    list: Seq<EquationItem>,
    n: nat,
) -> Result<FlatV, Seq<char>>
    decreases n,
{
    if n == 0 || n > list.len() {
        Ok(acc)
    } else {
        match with_initial_lines(k, acc, list, (n - 1) as nat) {
            Err(why) => Err(why),
            Ok(before) => with_branch_line(k, before, list[n - 1], true),
        }
    }
}

proof fn lemma_with_initial_lines_stops(
    k: DeskV,
    acc: FlatV,
    list: Seq<EquationItem>,
    n: nat,
    all: nat,
)
    requires
        n <= all <= list.len(),
        with_initial_lines(k, acc, list, n) is Err,
    ensures
        with_initial_lines(k, acc, list, all) == with_initial_lines(k, acc, list, n),
    decreases all,
{
    if n < all {
        lemma_with_initial_lines_stops(k, acc, list, n, (all - 1) as nat);
    }
}

fn push_initial_lines<
    A1: Fn(&Expr, bool) -> Expr,
    A2: Fn(&Expr, &Table<Number>, &Table<Number>, &Table<String>) -> Result<(Value, Vec<(Expr, String)>), String>,
    A3: Fn(Value, &Table<Number>, &Table<Number>, &Table<String>) -> Result<(Value, Vec<(Expr, String)>), String>,
    A4: Fn(&Value, &Value, &str) -> Result<Vec<EquationItem>, String>,
    A5: Fn(&Expr) -> String,
    A6: Fn(Option<&Expr>) -> String,
    A7: Fn(&Vec<&Statement>) -> Result<Ran, String>,
    A8: Fn(&ClassDef, &Vec<Expr>, &Vec<Vec<i64>>) -> Result<(Vec<(String, Expr)>, Vec<(Expr, String)>), String>,
    A9: Fn(&ClassDef, &Vec<Expr>, &Vec<Vec<i64>>) -> Result<(Vec<(Expr, String)>, Vec<(Expr, String)>), String>,
    B1: Fn(&str) -> bool,
    B2: Fn(&ClassDef) -> bool,
    W: Fn(Arith, Number, Number) -> Number,
    O: Fn(&str, &Vec<Number>) -> Option<Vec<Number>>,
    N: Fn(&str) -> String,
>(
    h: &Reading<A1, A2, A3, A4, A5, A6, A7, A8, A9, B1, B2>,
    sums: &Sums<W, O, N>,
    registry: &Registry,
    p: &Here,
    acc: Flat,
    list: &Vec<EquationItem>,
) -> (r: Result<Flat, String>)
    requires
        reads_true(*h),
        is_steady(*sums),
    ensures
        told(r) == with_initial_lines(
            desk_of(*h, *sums, registry@, p.deep_view()),
            acc.deep_view(),
            list@,
            list@.len(),
        ),
{
    let ghost k = desk_of(*h, *sums, registry@, p.deep_view());
    let ghost start = acc.deep_view();
    let mut now = acc;
    let mut i: usize = 0;
    while i < list.len()
        invariant
            i <= list.len(),
            reads_true(*h),
            is_steady(*sums),
            k == desk_of(*h, *sums, registry@, p.deep_view()),
            start == acc.deep_view(),
            with_initial_lines(
                k,
                start,
                list@,
                i as nat,
            ) == Ok::<FlatV, Seq<char>>(now.deep_view()),
        decreases list.len() - i,
    {
        proof {
            if with_initial_lines(k, start, list@, (i + 1) as nat) is Err {
                lemma_with_initial_lines_stops(k, start, list@, (i + 1) as nat, list@.len());
            }
        }
        let one = &list[i];
        match push_branch_line(h, sums, registry, p, now, one, true) {
            Err(why) => return Err(why),
            Ok(next) => {
                now = next;
            },
        }
        i = i + 1;
    }
    Ok(now)
}

/// What was gathered with a `connect` of the class.
pub open spec fn with_join(k: DeskV, acc: FlatV, a: ExprV, b: ExprV) -> Result<FlatV, Seq<char>> {
    with_connect(k.h, k.p, acc, a, b, Map::empty(), k.p.consts, k.p.records)
}

fn push_join<
    A1: Fn(&Expr, bool) -> Expr,
    A2: Fn(&Expr, &Table<Number>, &Table<Number>, &Table<String>) -> Result<(Value, Vec<(Expr, String)>), String>,
    A3: Fn(Value, &Table<Number>, &Table<Number>, &Table<String>) -> Result<(Value, Vec<(Expr, String)>), String>,
    A4: Fn(&Value, &Value, &str) -> Result<Vec<EquationItem>, String>,
    A5: Fn(&Expr) -> String,
    A6: Fn(Option<&Expr>) -> String,
    A7: Fn(&Vec<&Statement>) -> Result<Ran, String>,
    A8: Fn(&ClassDef, &Vec<Expr>, &Vec<Vec<i64>>) -> Result<(Vec<(String, Expr)>, Vec<(Expr, String)>), String>,
    A9: Fn(&ClassDef, &Vec<Expr>, &Vec<Vec<i64>>) -> Result<(Vec<(Expr, String)>, Vec<(Expr, String)>), String>,
    B1: Fn(&str) -> bool,
    B2: Fn(&ClassDef) -> bool,
    W: Fn(Arith, Number, Number) -> Number,
    O: Fn(&str, &Vec<Number>) -> Option<Vec<Number>>,
    N: Fn(&str) -> String,
>(
    h: &Reading<A1, A2, A3, A4, A5, A6, A7, A8, A9, B1, B2>,
    sums: &Sums<W, O, N>,
    registry: &Registry,
    p: &Here,
    acc: Flat,
    a: &Expr,
    b: &Expr,
) -> (r: Result<Flat, String>)
    requires
        reads_true(*h),
        is_steady(*sums),
    ensures
        told(r) == with_join(
            desk_of(*h, *sums, registry@, p.deep_view()),
            acc.deep_view(),
            a.deep_view(),
            b.deep_view(),
        ),
{
    let none: Table<Number> = Table::new();
    push_connects(h, p, acc, a, b, &none, &p.consts, &p.records)
}

/// What was gathered with the first `n` connections of a branch.
pub open spec fn with_joins(
    k: DeskV,
    acc: FlatV,
    list: Seq<(Expr, Expr)>,
    n: nat,
) -> Result<FlatV, Seq<char>>
    decreases n,
{
    if n == 0 || n > list.len() {
        Ok(acc)
    } else {
        match with_joins(k, acc, list, (n - 1) as nat) {
            Err(why) => Err(why),
            Ok(before) => with_join(
                k,
                before,
                list[n - 1].0.deep_view(),
                list[n - 1].1.deep_view(),
            ),
        }
    }
}

proof fn lemma_with_joins_stops(k: DeskV, acc: FlatV, list: Seq<(Expr, Expr)>, n: nat, all: nat)
    requires
        n <= all <= list.len(),
        with_joins(k, acc, list, n) is Err,
    ensures
        with_joins(k, acc, list, all) == with_joins(k, acc, list, n),
    decreases all,
{
    if n < all {
        lemma_with_joins_stops(k, acc, list, n, (all - 1) as nat);
    }
}

fn push_joins<
    A1: Fn(&Expr, bool) -> Expr,
    A2: Fn(&Expr, &Table<Number>, &Table<Number>, &Table<String>) -> Result<(Value, Vec<(Expr, String)>), String>,
    A3: Fn(Value, &Table<Number>, &Table<Number>, &Table<String>) -> Result<(Value, Vec<(Expr, String)>), String>,
    A4: Fn(&Value, &Value, &str) -> Result<Vec<EquationItem>, String>,
    A5: Fn(&Expr) -> String,
    A6: Fn(Option<&Expr>) -> String,
    A7: Fn(&Vec<&Statement>) -> Result<Ran, String>,
    A8: Fn(&ClassDef, &Vec<Expr>, &Vec<Vec<i64>>) -> Result<(Vec<(String, Expr)>, Vec<(Expr, String)>), String>,
    A9: Fn(&ClassDef, &Vec<Expr>, &Vec<Vec<i64>>) -> Result<(Vec<(Expr, String)>, Vec<(Expr, String)>), String>,
    B1: Fn(&str) -> bool,
    B2: Fn(&ClassDef) -> bool,
    W: Fn(Arith, Number, Number) -> Number,
    O: Fn(&str, &Vec<Number>) -> Option<Vec<Number>>,
    N: Fn(&str) -> String,
>(
    h: &Reading<A1, A2, A3, A4, A5, A6, A7, A8, A9, B1, B2>,
    sums: &Sums<W, O, N>,
    registry: &Registry,
    p: &Here,
    acc: Flat,
    list: &Vec<(Expr, Expr)>,
) -> (r: Result<Flat, String>)
    requires
        reads_true(*h),
        is_steady(*sums),
    ensures
        told(r) == with_joins(
            desk_of(*h, *sums, registry@, p.deep_view()),
            acc.deep_view(),
            list@,
            list@.len(),
        ),
{
    let ghost k = desk_of(*h, *sums, registry@, p.deep_view());
    let ghost start = acc.deep_view();
    let mut now = acc;
    let mut i: usize = 0;
    while i < list.len()
        invariant
            i <= list.len(),
            reads_true(*h),
            is_steady(*sums),
            k == desk_of(*h, *sums, registry@, p.deep_view()),
            start == acc.deep_view(),
            with_joins(k, start, list@, i as nat) == Ok::<FlatV, Seq<char>>(now.deep_view()),
        decreases list.len() - i,
    {
        proof {
            if with_joins(k, start, list@, (i + 1) as nat) is Err {
                lemma_with_joins_stops(k, start, list@, (i + 1) as nat, list@.len());
            }
        }
        let one = &list[i];
        match push_join(h, sums, registry, p, now, &one.0, &one.1) {
            Err(why) => return Err(why),
            Ok(next) => {
                now = next;
            },
        }
        i = i + 1;
    }
    Ok(now)
}

/// What was gathered with the branch of an `if` equation that was taken. Its
/// checks hold outright.
pub open spec fn with_taken(k: DeskV, acc: FlatV, branch: IfBranch, initial: bool) -> Result<
    FlatV,
    Seq<char>,
> {
    match with_guarded(
        k.h,
        k.p,
        plain_round(k.p),
        acc,
        None,
        branch.asserts@,
        branch.asserts@.len(),
    ) {
        Err(why) => Err(why),
        Ok(acc) => match with_calls(k, acc, branch.calls@, branch.calls@.len()) {
            Err(why) => Err(why),
            Ok(acc) => match with_loops(k, acc, branch.loops@, branch.loops@.len()) {
                Err(why) => Err(why),
                Ok(acc) => match (if initial {
                    with_initial_lines(k, acc, branch.equations@, branch.equations@.len())
                } else {
                    with_branch_lines(k, acc, branch.equations@, branch.equations@.len())
                }) {
                    Err(why) => Err(why),
                    Ok(acc) => with_joins(k, acc, branch.connects@, branch.connects@.len()),
                },
            },
        },
    }
}

fn push_taken<
    A1: Fn(&Expr, bool) -> Expr,
    A2: Fn(&Expr, &Table<Number>, &Table<Number>, &Table<String>) -> Result<(Value, Vec<(Expr, String)>), String>,
    A3: Fn(Value, &Table<Number>, &Table<Number>, &Table<String>) -> Result<(Value, Vec<(Expr, String)>), String>,
    A4: Fn(&Value, &Value, &str) -> Result<Vec<EquationItem>, String>,
    A5: Fn(&Expr) -> String,
    A6: Fn(Option<&Expr>) -> String,
    A7: Fn(&Vec<&Statement>) -> Result<Ran, String>,
    A8: Fn(&ClassDef, &Vec<Expr>, &Vec<Vec<i64>>) -> Result<(Vec<(String, Expr)>, Vec<(Expr, String)>), String>,
    A9: Fn(&ClassDef, &Vec<Expr>, &Vec<Vec<i64>>) -> Result<(Vec<(Expr, String)>, Vec<(Expr, String)>), String>,
    B1: Fn(&str) -> bool,
    B2: Fn(&ClassDef) -> bool,
    W: Fn(Arith, Number, Number) -> Number,
    O: Fn(&str, &Vec<Number>) -> Option<Vec<Number>>,
    N: Fn(&str) -> String,
>(
    h: &Reading<A1, A2, A3, A4, A5, A6, A7, A8, A9, B1, B2>,
    sums: &Sums<W, O, N>,
    registry: &Registry,
    p: &Here,
    acc: Flat,
    branch: &IfBranch,
    initial: bool,
) -> (r: Result<Flat, String>)
    requires
        reads_true(*h),
        is_steady(*sums),
        all_laid_out(branch.loops@),
    ensures
        told(r) == with_taken(
            desk_of(*h, *sums, registry@, p.deep_view()),
            acc.deep_view(),
            *branch,
            initial,
        ),
{
    let t = make_plain_round(p);
    let none: Option<Expr> = None;
    let acc = match push_guarded(h, p, &t, acc, &none, &branch.asserts) {
        Ok(acc) => acc,
        Err(why) => return Err(why),
    };
    let acc = match take_all_checks(h, sums, registry, p, acc, &branch.calls) {
        Ok(acc) => acc,
        Err(why) => return Err(why),
    };
    let acc = match push_loops(h, sums, registry, p, acc, &branch.loops) {
        Ok(acc) => acc,
        Err(why) => return Err(why),
    };
    let done = if initial {
        push_initial_lines(h, sums, registry, p, acc, &branch.equations)
    } else {
        push_branch_lines(h, sums, registry, p, acc, &branch.equations)
    };
    match done {
        Err(why) => Err(why),
        Ok(acc) => push_joins(h, sums, registry, p, acc, &branch.connects),
    }
}

/// What the `if` equations of a class come to: what was gathered, and the
/// `when` clauses and graph clauses of the branches that were taken.
pub ghost struct IfsV {
    pub acc: FlatV,
    pub whens: Seq<WhenClause>,
    pub graph: Seq<GraphClauseV>,
}

pub open spec fn clauses_of(list: Seq<GraphClause>) -> Seq<GraphClauseV> {
    Seq::new(list.len(), |i: int| list[i].deep_view())
}

/// One `if` equation of a class: the branch that holds contributes its
/// equations, the others contribute nothing.
pub open spec fn if_read(k: DeskV, before: IfsV, held: IfEquation) -> Result<IfsV, Seq<char>> {
    let list = class_verdicts(k, before.acc, held);
    if !are_decided(list) {
        if !before.acc.answered && graph_asked_by(held) {
            Ok(IfsV { acc: FlatV { graph_asked: true, ..before.acc }, ..before })
        } else {
            match with_conditional(
                k.h,
                k.p,
                plain_round(k.p),
                before.acc,
                held,
                k.p.scope,
            ) {
                Err(why) => Err(why),
                Ok(acc) => Ok(IfsV { acc, ..before }),
            }
        }
    } else {
        match taken_from(list, 0) {
            None => Ok(before),
            Some(at) => {
                let branch = held.branches@[at as int];
                match with_taken(k, before.acc, branch, held.initial) {
                    Err(why) => Err(why),
                    Ok(acc) => Ok(
                        IfsV {
                            acc,
                            whens: before.whens + branch.whens@,
                            graph: before.graph + clauses_of(branch.graph@),
                        },
                    ),
                }
            },
        }
    }
}

/// The first `n` `if` equations of a class.
pub open spec fn ifs_read(k: DeskV, start: IfsV, list: Seq<IfEquation>, n: nat) -> Result<
    IfsV,
    Seq<char>,
>
    decreases n,
{
    if n == 0 || n > list.len() {
        Ok(start)
    } else {
        match ifs_read(k, start, list, (n - 1) as nat) {
            Err(why) => Err(why),
            Ok(before) => if_read(k, before, list[n - 1]),
        }
    }
}

proof fn lemma_ifs_read_stops(k: DeskV, start: IfsV, list: Seq<IfEquation>, n: nat, all: nat)
    requires
        n <= all <= list.len(),
        ifs_read(k, start, list, n) is Err,
    ensures
        ifs_read(k, start, list, all) == ifs_read(k, start, list, n),
    decreases all,
{
    if n < all {
        lemma_ifs_read_stops(k, start, list, n, (all - 1) as nat);
    }
}

/// What the `if` equations come to, as it is held.
struct Ifs<'c> {
    acc: Flat,
    whens: Vec<&'c WhenClause>,
    graph: Vec<&'c GraphClause>,
}

pub open spec fn pointed_whens(list: Seq<&WhenClause>) -> Seq<WhenClause> {
    Seq::new(list.len(), |i: int| *list[i])
}

pub open spec fn pointed_clauses(list: Seq<&GraphClause>) -> Seq<GraphClauseV> {
    Seq::new(list.len(), |i: int| list[i].deep_view())
}

impl<'c> Ifs<'c> {
    spec fn shape(self) -> IfsV {
        IfsV {
            acc: self.acc.deep_view(),
            whens: pointed_whens(self.whens@),
            graph: pointed_clauses(self.graph@),
        }
    }
}

spec fn ifs_told(r: Result<Ifs, String>) -> Result<IfsV, Seq<char>> {
    match r {
        Ok(made) => Ok(made.shape()),
        Err(why) => Err(why@),
    }
}

fn add_whens<'c>(list: &mut Vec<&'c WhenClause>, more: &'c Vec<WhenClause>)
    ensures
        pointed_whens(final(list)@) == pointed_whens(old(list)@) + more@,
{
    let ghost was = pointed_whens(list@);
    let mut i: usize = 0;
    assert(pointed_whens(list@) =~= was + more@.take(0));
    while i < more.len()
        invariant
            i <= more.len(),
            pointed_whens(list@) == was + more@.take(i as int),
        decreases more.len() - i,
    {
        let ghost before = pointed_whens(list@);
        list.push(&more[i]);
        assert(pointed_whens(list@) =~= before.push(more@[i as int]));
        assert(pointed_whens(list@) =~= was + more@.take(i + 1));
        i = i + 1;
    }
    assert(more@.take(i as int) =~= more@);
}

fn add_clauses<'c>(list: &mut Vec<&'c GraphClause>, more: &'c Vec<GraphClause>)
    ensures
        pointed_clauses(final(list)@) == pointed_clauses(old(list)@) + clauses_of(more@),
{
    let ghost was = pointed_clauses(list@);
    let ghost whole = clauses_of(more@);
    let mut i: usize = 0;
    assert(pointed_clauses(list@) =~= was + whole.take(0));
    while i < more.len()
        invariant
            i <= more.len(),
            whole == clauses_of(more@),
            pointed_clauses(list@) == was + whole.take(i as int),
        decreases more.len() - i,
    {
        let ghost before = pointed_clauses(list@);
        list.push(&more[i]);
        assert(pointed_clauses(list@) =~= before.push(whole[i as int]));
        assert(pointed_clauses(list@) =~= was + whole.take(i + 1));
        i = i + 1;
    }
    assert(whole.take(i as int) =~= whole);
}

fn read_if<'c,
    A1: Fn(&Expr, bool) -> Expr,
    A2: Fn(&Expr, &Table<Number>, &Table<Number>, &Table<String>) -> Result<(Value, Vec<(Expr, String)>), String>,
    A3: Fn(Value, &Table<Number>, &Table<Number>, &Table<String>) -> Result<(Value, Vec<(Expr, String)>), String>,
    A4: Fn(&Value, &Value, &str) -> Result<Vec<EquationItem>, String>,
    A5: Fn(&Expr) -> String,
    A6: Fn(Option<&Expr>) -> String,
    A7: Fn(&Vec<&Statement>) -> Result<Ran, String>,
    A8: Fn(&ClassDef, &Vec<Expr>, &Vec<Vec<i64>>) -> Result<(Vec<(String, Expr)>, Vec<(Expr, String)>), String>,
    A9: Fn(&ClassDef, &Vec<Expr>, &Vec<Vec<i64>>) -> Result<(Vec<(Expr, String)>, Vec<(Expr, String)>), String>,
    B1: Fn(&str) -> bool,
    B2: Fn(&ClassDef) -> bool,
    W: Fn(Arith, Number, Number) -> Number,
    O: Fn(&str, &Vec<Number>) -> Option<Vec<Number>>,
    N: Fn(&str) -> String,
>(
    h: &Reading<A1, A2, A3, A4, A5, A6, A7, A8, A9, B1, B2>,
    sums: &Sums<W, O, N>,
    registry: &Registry,
    p: &Here,
    before: Ifs<'c>,
    held: &'c IfEquation,
) -> (r: Result<Ifs<'c>, String>)
    requires
        reads_true(*h),
        is_steady(*sums),
        choice_laid_out(*held),
    ensures
        ifs_told(r) == if_read(desk_of(*h, *sums, registry@, p.deep_view()), before.shape(), *held),
{
    let Ifs { mut acc, mut whens, mut graph } = before;
    let list = judge(h, sums, registry, p, &acc, held);
    if !all_decided(&list) {
        if !acc.answered && asks_the_graph(held) {
            acc.graph_asked = true;
            return Ok(Ifs { acc, whens, graph });
        }
        assert(held.branches@.len() > 0) by {
            let at = choose|i: int| 0 <= i < list@.len() && #[trigger] list@[i] is Open;
            assert(list@.len() == held.branches@.len());
        }
        let t = make_plain_round(p);
        return match push_conditional(h, p, &t, acc, held, p.scope.as_str()) {
            Ok(acc) => Ok(Ifs { acc, whens, graph }),
            Err(why) => Err(why),
        };
    }
    let at: usize = match find_taken(&list) {
        Some(at) => at,
        None => return Ok(Ifs { acc, whens, graph }),
    };
    let branch = &held.branches[at];
    assert(all_laid_out(branch.loops@)) by {
        assert(crate::rounds::branch_laid_out(held.branches@[at as int]));
    }
    match push_taken(h, sums, registry, p, acc, branch, held.initial) {
        Err(why) => Err(why),
        Ok(acc) => {
            add_whens(&mut whens, &branch.whens);
            add_clauses(&mut graph, &branch.graph);
            Ok(Ifs { acc, whens, graph })
        },
    }
}

/// Whether every `if` of a list has its `else` last.
pub open spec fn choices_laid_out(list: Seq<IfEquation>) -> bool {
    forall|i: int| 0 <= i < list.len() ==> choice_laid_out(#[trigger] list[i])
}

/// The `if` equations of a class. The `when` clauses and graph clauses inside
/// a branch the compiler picked are gathered as they are met: they belong to
/// the class as much as the ones it wrote outright.
fn flatten_if_equations<'c,
    A1: Fn(&Expr, bool) -> Expr,
    A2: Fn(&Expr, &Table<Number>, &Table<Number>, &Table<String>) -> Result<(Value, Vec<(Expr, String)>), String>,
    A3: Fn(Value, &Table<Number>, &Table<Number>, &Table<String>) -> Result<(Value, Vec<(Expr, String)>), String>,
    A4: Fn(&Value, &Value, &str) -> Result<Vec<EquationItem>, String>,
    A5: Fn(&Expr) -> String,
    A6: Fn(Option<&Expr>) -> String,
    A7: Fn(&Vec<&Statement>) -> Result<Ran, String>,
    A8: Fn(&ClassDef, &Vec<Expr>, &Vec<Vec<i64>>) -> Result<(Vec<(String, Expr)>, Vec<(Expr, String)>), String>,
    A9: Fn(&ClassDef, &Vec<Expr>, &Vec<Vec<i64>>) -> Result<(Vec<(Expr, String)>, Vec<(Expr, String)>), String>,
    B1: Fn(&str) -> bool,
    B2: Fn(&ClassDef) -> bool,
    W: Fn(Arith, Number, Number) -> Number,
    O: Fn(&str, &Vec<Number>) -> Option<Vec<Number>>,
    N: Fn(&str) -> String,
>(
    h: &Reading<A1, A2, A3, A4, A5, A6, A7, A8, A9, B1, B2>,
    sums: &Sums<W, O, N>,
    registry: &Registry,
    p: &Here,
    acc: Flat,
    list: &'c Vec<IfEquation>,
) -> (r: Result<Ifs<'c>, String>)
    requires
        reads_true(*h),
        is_steady(*sums),
        choices_laid_out(list@),
    ensures
        ifs_told(r) == ifs_read(
            desk_of(*h, *sums, registry@, p.deep_view()),
            IfsV { acc: acc.deep_view(), whens: Seq::empty(), graph: Seq::empty() },
            list@,
            list@.len(),
        ),
{
    let ghost k = desk_of(*h, *sums, registry@, p.deep_view());
    let ghost start = IfsV { acc: acc.deep_view(), whens: Seq::empty(), graph: Seq::empty() };
    let mut now = Ifs { acc, whens: Vec::new(), graph: Vec::new() };
    assert(pointed_whens(now.whens@) =~= Seq::empty());
    assert(pointed_clauses(now.graph@) =~= Seq::empty());
    let mut i: usize = 0;
    while i < list.len()
        invariant
            i <= list.len(),
            reads_true(*h),
            is_steady(*sums),
            choices_laid_out(list@),
            k == desk_of(*h, *sums, registry@, p.deep_view()),
            start == (IfsV { acc: acc.deep_view(), whens: Seq::empty(), graph: Seq::empty() }),
            ifs_read(k, start, list@, i as nat) == Ok::<IfsV, Seq<char>>(now.shape()),
        decreases list.len() - i,
    {
        proof {
            if ifs_read(k, start, list@, (i + 1) as nat) is Err {
                lemma_ifs_read_stops(k, start, list@, (i + 1) as nat, list@.len());
            }
        }
        match read_if(h, sums, registry, p, now, &list[i]) {
            Err(why) => return Err(why),
            Ok(next) => {
                now = next;
            },
        }
        i = i + 1;
    }
    Ok(now)
}

/// One assignment for each element of an array at an event.
pub open spec fn elements_assigned(named: Seq<char>, shape: Seq<i64>, values: Seq<ExprV>) -> Seq<
    WhenActionV,
> {
    Seq::new(
        values.len(),
        |i: int| WhenActionV::Assign(element_of(named, tuples_of(shape)[i]), values[i]),
    )
}

/// What giving a variable a value at an event comes to. A whole array is
/// taken apart: one assignment per element, refusing sides that do not have
/// the same shape.
pub open spec fn assigned_at_event(k: DeskV, named: Seq<char>, given: ValueV) -> Result<
    Seq<WhenActionV>,
    Seq<char>,
> {
    if k.p.sizes.contains_key(named) && k.p.sizes[named].len() > 0 {
        let shape = k.p.sizes[named];
        let values = scalars(given);
        if values.len() != tuples_of(shape).len() {
            Err(
                "`"@ + named + "` is given "@ + digits(values.len()) + " value(s) at an event and holds                                          "@ + digits(
                    tuples_of(shape).len(),
                ),
            )
        } else {
            Ok(elements_assigned(named, shape, values))
        }
    } else {
        match crate::reading::one_of(k.h, given) {
            Err(why) => Err(why),
            Ok(value) => Ok(seq![WhenActionV::Assign(named, value)]),
        }
    }
}

fn assign_at_event<
    A1: Fn(&Expr, bool) -> Expr,
    A2: Fn(&Expr, &Table<Number>, &Table<Number>, &Table<String>) -> Result<(Value, Vec<(Expr, String)>), String>,
    A3: Fn(Value, &Table<Number>, &Table<Number>, &Table<String>) -> Result<(Value, Vec<(Expr, String)>), String>,
    A4: Fn(&Value, &Value, &str) -> Result<Vec<EquationItem>, String>,
    A5: Fn(&Expr) -> String,
    A6: Fn(Option<&Expr>) -> String,
    A7: Fn(&Vec<&Statement>) -> Result<Ran, String>,
    A8: Fn(&ClassDef, &Vec<Expr>, &Vec<Vec<i64>>) -> Result<(Vec<(String, Expr)>, Vec<(Expr, String)>), String>,
    A9: Fn(&ClassDef, &Vec<Expr>, &Vec<Vec<i64>>) -> Result<(Vec<(Expr, String)>, Vec<(Expr, String)>), String>,
    B1: Fn(&str) -> bool,
    B2: Fn(&ClassDef) -> bool,
    W: Fn(Arith, Number, Number) -> Number,
    O: Fn(&str, &Vec<Number>) -> Option<Vec<Number>>,
    N: Fn(&str) -> String,
>(
    h: &Reading<A1, A2, A3, A4, A5, A6, A7, A8, A9, B1, B2>,
    sums: &Sums<W, O, N>,
    registry: &Registry,
    p: &Here,
    named: String,
    given: Value,
) -> (r: Result<Vec<WhenAction>, String>)
    requires
        reads_true(*h),
        is_steady(*sums),
    ensures
        told(r) == assigned_at_event(
            desk_of(*h, *sums, registry@, p.deep_view()),
            named@,
            given.deep_view(),
        ),
{
    let ghost k = desk_of(*h, *sums, registry@, p.deep_view());
    if let Some(shape) = p.sizes.get(named.as_str()) {
        assert(shape.deep_view() =~= shape@);
        if shape.len() > 0 {
            let mut values: Vec<Expr> = Vec::new();
            given.flatten_into(&mut values);
            let ghost all = values.deep_view();
            assert(all =~= scalars(given.deep_view()));
            assert(all.len() == values@.len());
            let places = index_tuples(shape);
            let ghost pv = places.deep_view();
            assert(pv == tuples_of(shape@));
            assert(pv.len() == places@.len());
            if values.len() != places.len() {
                let a = decimal(values.len() as u64);
                let b = decimal(places.len() as u64);
                let said = join5(
                    "`",
                    named.as_str(),
                    "` is given ",
                    a.as_str(),
                    " value(s) at an event and holds                                          ",
                );
                return Err(join2(said.as_str(), b.as_str()));
            }
            let ghost whole = elements_assigned(named@, shape@, all);
            let mut out: Vec<WhenAction> = Vec::new();
            let mut i: usize = 0;
            while i < values.len()
                invariant
                    i <= values.len(),
                    values@.len() == places@.len(),
                    all == values.deep_view(),
                    pv == places.deep_view(),
                    pv == tuples_of(shape@),
                    whole == elements_assigned(named@, shape@, all),
                    out.deep_view() == whole.take(i as int),
                decreases values.len() - i,
            {
                let ghost before = out.deep_view();
                assert(all[i as int] == values@[i as int].deep_view());
                assert(pv[i as int] == places@[i as int].deep_view());
                assert(places@[i as int].deep_view() =~= places@[i as int]@);
                let action = WhenAction::Assign(
                    element_name(named.as_str(), &places[i]),
                    values[i].clone(),
                );
                assert(action.deep_view() == whole[i as int]);
                out.push(action);
                assert(out.deep_view() =~= before.push(whole[i as int]));
                assert(before.push(whole[i as int]) =~= whole.take(i + 1));
                i = i + 1;
            }
            assert(whole.take(i as int) =~= whole);
            return Ok(out);
        }
    }
    match crate::reading::only_one(h, given) {
        Err(why) => Err(why),
        Ok(value) => {
            let mut out: Vec<WhenAction> = Vec::new();
            let ghost one = WhenActionV::Assign(named@, value.deep_view());
            out.push(WhenAction::Assign(named, value));
            assert(out.deep_view() =~= seq![one]);
            Ok(out)
        },
    }
}

/// One branch of an `if` at an event: its condition, where it has one, and
/// what each variable it names is given.
pub type GivenBranchV = (Option<ExprV>, Seq<(Seq<char>, ExprV)>);

/// The variables that an `if` at an event gives values to, and its branches.
pub ghost struct ChoiceV {
    pub targets: Seq<Seq<char>>,
    pub branches: Seq<GivenBranchV>,
}

/// What an `if` inside `when` is told that does more.
pub open spec fn only_values() -> Seq<char> {
    "an `if` inside `when` gives values to variables"@
}

pub open spec fn with_target(targets: Seq<Seq<char>>, target: Seq<char>) -> Seq<Seq<char>> {
    if targets.contains(target) {
        targets
    } else {
        targets.push(target)
    }
}

/// What the first `n` equations of a branch at an event give.
pub open spec fn values_given(
    k: DeskV,
    acc: FlatV,
    targets: Seq<Seq<char>>,
    list: Seq<EquationItem>,
    n: nat,
) -> Result<(Seq<Seq<char>>, Seq<(Seq<char>, ExprV)>, FlatV), Seq<char>>
    decreases n,
{
    if n == 0 || n > list.len() {
        Ok((targets, Seq::empty(), acc))
    } else {
        match values_given(k, acc, targets, list, (n - 1) as nat) {
            Err(why) => Err(why),
            Ok((targets, given, acc)) => match list[n - 1].lhs.deep_view() {
                ExprV::Ref(name) => {
                    let target = flat_of(name, k.p.naming);
                    match comes_to(k.h, k.p, acc, list[n - 1].rhs.deep_view()) {
                        Err(why) => Err(why),
                        Ok((value, acc)) => Ok(
                            (with_target(targets, target), given.push((target, value)), acc),
                        ),
                    }
                },
                _ => Err(only_values()),
            },
        }
    }
}

proof fn lemma_values_given_stops(
    k: DeskV,
    acc: FlatV,
    targets: Seq<Seq<char>>,
    list: Seq<EquationItem>,
    n: nat,
    all: nat,
)
    requires
        n <= all <= list.len(),
        values_given(k, acc, targets, list, n) is Err,
    ensures
        values_given(k, acc, targets, list, all) == values_given(k, acc, targets, list, n),
    decreases all,
{
    if n < all {
        lemma_values_given_stops(k, acc, targets, list, n, (all - 1) as nat);
    }
}

fn give_values<
    A1: Fn(&Expr, bool) -> Expr,
    A2: Fn(&Expr, &Table<Number>, &Table<Number>, &Table<String>) -> Result<(Value, Vec<(Expr, String)>), String>,
    A3: Fn(Value, &Table<Number>, &Table<Number>, &Table<String>) -> Result<(Value, Vec<(Expr, String)>), String>,
    A4: Fn(&Value, &Value, &str) -> Result<Vec<EquationItem>, String>,
    A5: Fn(&Expr) -> String,
    A6: Fn(Option<&Expr>) -> String,
    A7: Fn(&Vec<&Statement>) -> Result<Ran, String>,
    A8: Fn(&ClassDef, &Vec<Expr>, &Vec<Vec<i64>>) -> Result<(Vec<(String, Expr)>, Vec<(Expr, String)>), String>,
    A9: Fn(&ClassDef, &Vec<Expr>, &Vec<Vec<i64>>) -> Result<(Vec<(Expr, String)>, Vec<(Expr, String)>), String>,
    B1: Fn(&str) -> bool,
    B2: Fn(&ClassDef) -> bool,
    W: Fn(Arith, Number, Number) -> Number,
    O: Fn(&str, &Vec<Number>) -> Option<Vec<Number>>,
    N: Fn(&str) -> String,
>(
    h: &Reading<A1, A2, A3, A4, A5, A6, A7, A8, A9, B1, B2>,
    sums: &Sums<W, O, N>,
    registry: &Registry,
    p: &Here,
    acc: Flat,
    targets: &mut Vec<String>,
    list: &Vec<EquationItem>,
) -> (r: Result<(Vec<(String, Expr)>, Flat), String>)
    requires
        reads_true(*h),
        is_steady(*sums),
    ensures
        match values_given(
            desk_of(*h, *sums, registry@, p.deep_view()),
            acc.deep_view(),
            texts(old(targets)@),
            list@,
            list@.len(),
        ) {
            Err(trouble) => r matches Err(why) && why@ == trouble,
            Ok(made) => r matches Ok((given, now)) && texts(final(targets)@) == made.0
                && given.deep_view() == made.1 && now.deep_view() == made.2,
        },
{
    let ghost k = desk_of(*h, *sums, registry@, p.deep_view());
    let ghost start = texts(targets@);
    let ghost held = acc.deep_view();
    let mut now = acc;
    let mut given: Vec<(String, Expr)> = Vec::new();
    let mut i: usize = 0;
    assert(given.deep_view() =~= Seq::empty());
    while i < list.len()
        invariant
            i <= list.len(),
            reads_true(*h),
            k == desk_of(*h, *sums, registry@, p.deep_view()),
            start == texts(old(targets)@),
            held == acc.deep_view(),
            values_given(k, held, start, list@, i as nat) == Ok::<
                (Seq<Seq<char>>, Seq<(Seq<char>, ExprV)>, FlatV),
                Seq<char>,
            >((texts(targets@), given.deep_view(), now.deep_view())),
        decreases list.len() - i,
    {
        let ghost before = given.deep_view();
        let ghost known = texts(targets@);
        proof {
            if values_given(k, held, start, list@, (i + 1) as nat) is Err {
                lemma_values_given_stops(k, held, start, list@, (i + 1) as nat, list@.len());
            }
        }
        let name = match &list[i].lhs {
            Expr::Ref(name) => name,
            _ => return Err("an `if` inside `when` gives values to variables".to_owned()),
        };
        let target = flat_name(name.as_str(), &p.naming);
        match resolve_here(h, p, now, &list[i].rhs) {
            Err(why) => return Err(why),
            Ok((value, next)) => {
                now = next;
                if !holds(targets, target.as_str()) {
                    targets.push(target.clone());
                    assert(texts(targets@) =~= known.push(target@));
                }
                let ghost one = (target@, value.deep_view());
                given.push((target, value));
                assert(given.deep_view() =~= before.push(one));
            },
        }
        i = i + 1;
    }
    Ok((given, now))
}

/// Whether a branch at an event holds anything but equations.
pub open spec fn holds_more(branch: IfBranch) -> bool {
    branch.connects@.len() > 0 || branch.loops@.len() > 0 || branch.asserts@.len() > 0
        || branch.whens@.len() > 0 || branch.calls@.len() > 0 || branch.graph@.len() > 0
}

/// The first `n` branches of an `if` at an event.
pub open spec fn choice_read(k: DeskV, acc: FlatV, list: Seq<IfBranch>, n: nat) -> Result<
    (ChoiceV, FlatV),
    Seq<char>,
>
    decreases n,
{
    if n == 0 || n > list.len() {
        Ok((ChoiceV { targets: Seq::empty(), branches: Seq::empty() }, acc))
    } else {
        match choice_read(k, acc, list, (n - 1) as nat) {
            Err(why) => Err(why),
            Ok((before, acc)) => if holds_more(list[n - 1]) {
                Err(only_values())
            } else {
                match values_given(
                    k,
                    acc,
                    before.targets,
                    list[n - 1].equations@,
                    list[n - 1].equations@.len(),
                ) {
                    Err(why) => Err(why),
                    Ok((targets, given, acc)) => match list[n - 1].condition {
                        None => Ok(
                            (
                                ChoiceV { targets, branches: before.branches.push((None, given)) },
                                acc,
                            ),
                        ),
                        Some(condition) => match comes_to(
                            k.h,
                            k.p,
                            acc,
                            condition.deep_view(),
                        ) {
                            Err(why) => Err(why),
                            Ok((e, acc)) => Ok(
                                (
                                    ChoiceV {
                                        targets,
                                        branches: before.branches.push((Some(e), given)),
                                    },
                                    acc,
                                ),
                            ),
                        },
                    },
                }
            },
        }
    }
}

proof fn lemma_choice_read_stops(k: DeskV, acc: FlatV, list: Seq<IfBranch>, n: nat, all: nat)
    requires
        n <= all <= list.len(),
        choice_read(k, acc, list, n) is Err,
    ensures
        choice_read(k, acc, list, all) == choice_read(k, acc, list, n),
    decreases all,
{
    if n < all {
        lemma_choice_read_stops(k, acc, list, n, (all - 1) as nat);
    }
}

/// What a branch gives a variable first.
pub open spec fn given_to(given: Seq<(Seq<char>, ExprV)>, target: Seq<char>, i: nat) -> Option<
    ExprV,
>
    decreases given.len() - i,
{
    if i >= given.len() {
        None
    } else if given[i as int].0 == target {
        Some(given[i as int].1)
    } else {
        given_to(given, target, i + 1)
    }
}

/// What a variable is given, the branches from the `i`-th on tested in the
/// order they were written. A branch that says nothing about it leaves it
/// what it had.
pub open spec fn value_chosen(branches: Seq<GivenBranchV>, target: Seq<char>, i: nat) -> ExprV
    decreases branches.len() - i,
{
    if i >= branches.len() {
        ExprV::Call("pre"@, seq![ExprV::Ref(target)])
    } else {
        let value = match given_to(branches[i as int].1, target, 0) {
            None => ExprV::Call("pre"@, seq![ExprV::Ref(target)]),
            Some(value) => value,
        };
        match branches[i as int].0 {
            None => value,
            Some(condition) => ExprV::If(
                Box::new(condition),
                Box::new(value),
                Box::new(value_chosen(branches, target, i + 1)),
            ),
        }
    }
}

fn find_given<'g>(given: &'g Vec<(String, Expr)>, target: &str) -> (r: Option<&'g Expr>)
    ensures
        match r {
            Some(value) => given_to(given.deep_view(), target@, 0) == Some(value.deep_view()),
            None => given_to(given.deep_view(), target@, 0) is None,
        },
{
    let ghost all = given.deep_view();
    let mut i: usize = 0;
    while i < given.len()
        invariant
            i <= given.len(),
            all == given.deep_view(),
            given_to(all, target@, 0) == given_to(all, target@, i as nat),
        decreases given.len() - i,
    {
        assert(all[i as int] == given@[i as int].deep_view());
        if same(given[i].0.as_str(), target) {
            return Some(&given[i].1);
        }
        i = i + 1;
    }
    None
}

fn choose_value(branches: &Vec<(Option<Expr>, Vec<(String, Expr)>)>, target: &str) -> (r: Expr)
    ensures
        r.deep_view() == value_chosen(branches.deep_view(), target@, 0),
{
    let ghost all = branches.deep_view();
    let mut value = make::call1("pre", make::name(target.to_owned()));
    let mut i: usize = branches.len();
    assert(all.len() == branches@.len());
    while i > 0
        invariant
            i <= branches.len(),
            all == branches.deep_view(),
            all.len() == branches@.len(),
            value.deep_view() == value_chosen(all, target@, i as nat),
        decreases i,
    {
        i = i - 1;
        assert(all[i as int] == branches@[i as int].deep_view());
        let chosen = match find_given(&branches[i].1, target) {
            Some(chosen) => chosen.clone(),
            None => make::call1("pre", make::name(target.to_owned())),
        };
        value = match &branches[i].0 {
            None => chosen,
            Some(condition) => make::either(condition.clone(), chosen, value),
        };
    }
    value
}

/// What an `if` at an event comes to: one assignment for each variable it
/// names, whose value is the choice.
pub open spec fn choice_actions(k: DeskV, acc: FlatV, list: Seq<IfBranch>) -> Result<
    (FlatV, Seq<WhenActionV>),
    Seq<char>,
> {
    match choice_read(k, acc, list, list.len()) {
        Err(why) => Err(why),
        Ok((made, acc)) => Ok(
            (
                acc,
                Seq::new(
                    made.targets.len(),
                    |i: int|
                        WhenActionV::Assign(
                            made.targets[i],
                            value_chosen(made.branches, made.targets[i], 0),
                        ),
                ),
            ),
        ),
    }
}

fn read_choice<
    A1: Fn(&Expr, bool) -> Expr,
    A2: Fn(&Expr, &Table<Number>, &Table<Number>, &Table<String>) -> Result<(Value, Vec<(Expr, String)>), String>,
    A3: Fn(Value, &Table<Number>, &Table<Number>, &Table<String>) -> Result<(Value, Vec<(Expr, String)>), String>,
    A4: Fn(&Value, &Value, &str) -> Result<Vec<EquationItem>, String>,
    A5: Fn(&Expr) -> String,
    A6: Fn(Option<&Expr>) -> String,
    A7: Fn(&Vec<&Statement>) -> Result<Ran, String>,
    A8: Fn(&ClassDef, &Vec<Expr>, &Vec<Vec<i64>>) -> Result<(Vec<(String, Expr)>, Vec<(Expr, String)>), String>,
    A9: Fn(&ClassDef, &Vec<Expr>, &Vec<Vec<i64>>) -> Result<(Vec<(Expr, String)>, Vec<(Expr, String)>), String>,
    B1: Fn(&str) -> bool,
    B2: Fn(&ClassDef) -> bool,
    W: Fn(Arith, Number, Number) -> Number,
    O: Fn(&str, &Vec<Number>) -> Option<Vec<Number>>,
    N: Fn(&str) -> String,
>(
    h: &Reading<A1, A2, A3, A4, A5, A6, A7, A8, A9, B1, B2>,
    sums: &Sums<W, O, N>,
    registry: &Registry,
    p: &Here,
    acc: Flat,
    list: &Vec<IfBranch>,
    targets: &mut Vec<String>,
) -> (r: Result<(Vec<(Option<Expr>, Vec<(String, Expr)>)>, Flat), String>)
    requires
        reads_true(*h),
        is_steady(*sums),
        old(targets)@.len() == 0,
    ensures
        match choice_read(
            desk_of(*h, *sums, registry@, p.deep_view()),
            acc.deep_view(),
            list@,
            list@.len(),
        ) {
            Err(trouble) => r matches Err(why) && why@ == trouble,
            Ok((made, left)) => r matches Ok((out, now)) && out.deep_view() == made.branches
                && texts(final(targets)@) == made.targets && now.deep_view() == left,
        },
{
    let ghost k = desk_of(*h, *sums, registry@, p.deep_view());
    let ghost start = acc.deep_view();
    let mut now = acc;
    let mut out: Vec<(Option<Expr>, Vec<(String, Expr)>)> = Vec::new();
    let mut i: usize = 0;
    assert(out.deep_view() =~= Seq::empty());
    assert(texts(targets@) =~= Seq::empty());
    while i < list.len()
        invariant
            i <= list.len(),
            reads_true(*h),
            is_steady(*sums),
            k == desk_of(*h, *sums, registry@, p.deep_view()),
            start == acc.deep_view(),
            choice_read(k, start, list@, i as nat) == Ok::<(ChoiceV, FlatV), Seq<char>>(
                (
                    ChoiceV { targets: texts(targets@), branches: out.deep_view() },
                    now.deep_view(),
                ),
            ),
        decreases list.len() - i,
    {
        let ghost before = out.deep_view();
        let branch = &list[i];
        proof {
            if choice_read(k, start, list@, (i + 1) as nat) is Err {
                lemma_choice_read_stops(k, start, list@, (i + 1) as nat, list@.len());
            }
        }
        if branch.connects.len() > 0 || branch.loops.len() > 0 || branch.asserts.len() > 0
            || branch.whens.len() > 0 || branch.calls.len() > 0 || branch.graph.len() > 0 {
            return Err("an `if` inside `when` gives values to variables".to_owned());
        }
        let (given, next) = match give_values(
            h,
            sums,
            registry,
            p,
            now,
            targets,
            &branch.equations,
        ) {
            Ok(given) => given,
            Err(why) => return Err(why),
        };
        let (condition, next): (Option<Expr>, Flat) = match &branch.condition {
            None => (None, next),
            Some(condition) => match resolve_here(h, p, next, condition) {
                Ok((e, next)) => (Some(e), next),
                Err(why) => return Err(why),
            },
        };
        now = next;
        let ghost one = (condition.deep_view(), given.deep_view());
        out.push((condition, given));
        assert(out.deep_view() =~= before.push(one));
        i = i + 1;
    }
    Ok((out, now))
}

fn choose_actions<
    A1: Fn(&Expr, bool) -> Expr,
    A2: Fn(&Expr, &Table<Number>, &Table<Number>, &Table<String>) -> Result<(Value, Vec<(Expr, String)>), String>,
    A3: Fn(Value, &Table<Number>, &Table<Number>, &Table<String>) -> Result<(Value, Vec<(Expr, String)>), String>,
    A4: Fn(&Value, &Value, &str) -> Result<Vec<EquationItem>, String>,
    A5: Fn(&Expr) -> String,
    A6: Fn(Option<&Expr>) -> String,
    A7: Fn(&Vec<&Statement>) -> Result<Ran, String>,
    A8: Fn(&ClassDef, &Vec<Expr>, &Vec<Vec<i64>>) -> Result<(Vec<(String, Expr)>, Vec<(Expr, String)>), String>,
    A9: Fn(&ClassDef, &Vec<Expr>, &Vec<Vec<i64>>) -> Result<(Vec<(Expr, String)>, Vec<(Expr, String)>), String>,
    B1: Fn(&str) -> bool,
    B2: Fn(&ClassDef) -> bool,
    W: Fn(Arith, Number, Number) -> Number,
    O: Fn(&str, &Vec<Number>) -> Option<Vec<Number>>,
    N: Fn(&str) -> String,
>(
    h: &Reading<A1, A2, A3, A4, A5, A6, A7, A8, A9, B1, B2>,
    sums: &Sums<W, O, N>,
    registry: &Registry,
    p: &Here,
    acc: Flat,
    list: &Vec<IfBranch>,
) -> (r: Result<(Flat, Vec<WhenAction>), String>)
    requires
        reads_true(*h),
        is_steady(*sums),
    ensures
        told(r) == choice_actions(
            desk_of(*h, *sums, registry@, p.deep_view()),
            acc.deep_view(),
            list@,
        ),
{
    let mut targets: Vec<String> = Vec::new();
    let (branches, acc) = match read_choice(h, sums, registry, p, acc, list, &mut targets) {
        Ok(made) => made,
        Err(why) => return Err(why),
    };
    let ghost tv = texts(targets@);
    let ghost bv = branches.deep_view();
    let ghost whole = Seq::new(
        tv.len(),
        |i: int| WhenActionV::Assign(tv[i], value_chosen(bv, tv[i], 0)),
    );
    let mut out: Vec<WhenAction> = Vec::new();
    let mut i: usize = 0;
    while i < targets.len()
        invariant
            i <= targets.len(),
            tv == texts(targets@),
            bv == branches.deep_view(),
            whole == Seq::new(
                tv.len(),
                |i: int| WhenActionV::Assign(tv[i], value_chosen(bv, tv[i], 0)),
            ),
            out.deep_view() == whole.take(i as int),
        decreases targets.len() - i,
    {
        let ghost before = out.deep_view();
        let value = choose_value(&branches, targets[i].as_str());
        let action = WhenAction::Assign(targets[i].clone(), value);
        assert(action.deep_view() == whole[i as int]);
        out.push(action);
        assert(out.deep_view() =~= before.push(whole[i as int]));
        assert(before.push(whole[i as int]) =~= whole.take(i + 1));
        i = i + 1;
    }
    assert(whole.take(i as int) =~= whole);
    Ok((acc, out))
}

/// The first `n` rounds of a loop at an event, as assignments.
pub open spec fn rounds_assigned(list: Seq<EquationV>, n: nat) -> Result<
    Seq<WhenActionV>,
    Seq<char>,
>
    decreases n,
{
    if n == 0 || n > list.len() {
        Ok(Seq::empty())
    } else {
        match rounds_assigned(list, (n - 1) as nat) {
            Err(why) => Err(why),
            Ok(before) => match list[n - 1].lhs {
                ExprV::Ref(target) => Ok(
                    before.push(WhenActionV::Assign(target, list[n - 1].rhs)),
                ),
                _ => Err("a loop inside `when` assigns variables, one per round"@),
            },
        }
    }
}

proof fn lemma_rounds_assigned_stops(list: Seq<EquationV>, n: nat, all: nat)
    requires
        n <= all <= list.len(),
        rounds_assigned(list, n) is Err,
    ensures
        rounds_assigned(list, all) == rounds_assigned(list, n),
    decreases all,
{
    if n < all {
        lemma_rounds_assigned_stops(list, n, (all - 1) as nat);
    }
}

/// What was gathered, without the equations after a boundary.
pub open spec fn cut_back(acc: FlatV, boundary: nat) -> FlatV {
    FlatV { equations: acc.equations.take(boundary as int), ..acc }
}

/// What a loop at an event comes to: it is unrolled into the equations and
/// taken straight back out.
pub open spec fn loop_actions(k: DeskV, acc: FlatV, l: ForEquation) -> Result<
    (FlatV, Seq<WhenActionV>),
    Seq<char>,
> {
    match with_loop(k, acc, l) {
        Err(why) => Err(why),
        Ok(made) => if made.connects.len() != acc.connects.len() {
            Err(
                "a loop inside `when` assigns variables, one per round; a connection is drawn once and for all, not at an event"@,
            )
        } else if made.equations.len() < acc.equations.len() {
            Ok((made, Seq::empty()))
        } else {
            let rest = made.equations.skip(acc.equations.len() as int);
            match rounds_assigned(rest, rest.len()) {
                Err(why) => Err(why),
                Ok(actions) => Ok((cut_back(made, acc.equations.len()), actions)),
            }
        },
    }
}

fn assign_rounds(list: Vec<EquationItem>) -> (r: Result<Vec<WhenAction>, String>)
    ensures
        told(r) == rounds_assigned(list.deep_view(), list@.len()),
{
    let ghost all = list.deep_view();
    let mut out: Vec<WhenAction> = Vec::new();
    let mut i: usize = 0;
    assert(out.deep_view() =~= Seq::empty());
    while i < list.len()
        invariant
            i <= list.len(),
            all == list.deep_view(),
            rounds_assigned(all, i as nat) == Ok::<Seq<WhenActionV>, Seq<char>>(out.deep_view()),
        decreases list.len() - i,
    {
        let ghost before = out.deep_view();
        assert(all[i as int] == list@[i as int].deep_view());
        match &list[i].lhs {
            Expr::Ref(target) => {
                let action = WhenAction::Assign(target.clone(), list[i].rhs.clone());
                let ghost av = action.deep_view();
                out.push(action);
                assert(out.deep_view() =~= before.push(av));
            },
            _ => {
                proof {
                    lemma_rounds_assigned_stops(all, (i + 1) as nat, all.len());
                }
                return Err("a loop inside `when` assigns variables, one per round".to_owned());
            },
        }
        i = i + 1;
    }
    Ok(out)
}

fn unroll_actions<
    A1: Fn(&Expr, bool) -> Expr,
    A2: Fn(&Expr, &Table<Number>, &Table<Number>, &Table<String>) -> Result<(Value, Vec<(Expr, String)>), String>,
    A3: Fn(Value, &Table<Number>, &Table<Number>, &Table<String>) -> Result<(Value, Vec<(Expr, String)>), String>,
    A4: Fn(&Value, &Value, &str) -> Result<Vec<EquationItem>, String>,
    A5: Fn(&Expr) -> String,
    A6: Fn(Option<&Expr>) -> String,
    A7: Fn(&Vec<&Statement>) -> Result<Ran, String>,
    A8: Fn(&ClassDef, &Vec<Expr>, &Vec<Vec<i64>>) -> Result<(Vec<(String, Expr)>, Vec<(Expr, String)>), String>,
    A9: Fn(&ClassDef, &Vec<Expr>, &Vec<Vec<i64>>) -> Result<(Vec<(Expr, String)>, Vec<(Expr, String)>), String>,
    B1: Fn(&str) -> bool,
    B2: Fn(&ClassDef) -> bool,
    W: Fn(Arith, Number, Number) -> Number,
    O: Fn(&str, &Vec<Number>) -> Option<Vec<Number>>,
    N: Fn(&str) -> String,
>(
    h: &Reading<A1, A2, A3, A4, A5, A6, A7, A8, A9, B1, B2>,
    sums: &Sums<W, O, N>,
    registry: &Registry,
    p: &Here,
    acc: Flat,
    l: &ForEquation,
) -> (r: Result<(Flat, Vec<WhenAction>), String>)
    requires
        reads_true(*h),
        is_steady(*sums),
        loop_laid_out(*l),
    ensures
        told(r) == loop_actions(desk_of(*h, *sums, registry@, p.deep_view()), acc.deep_view(), *l),
{
    let boundary: usize = acc.equations.len();
    let drawn: usize = acc.connects.len();
    assert(acc.deep_view().equations.len() == boundary);
    assert(acc.deep_view().connects.len() == drawn);
    let mut made = match push_loop(h, sums, registry, p, acc, l) {
        Ok(made) => made,
        Err(why) => return Err(why),
    };
    let ghost mv = made.deep_view();
    assert(mv.equations.len() == made.equations@.len());
    assert(mv.connects.len() == made.connects@.len());
    if made.connects.len() != drawn {
        return Err(
            "a loop inside `when` assigns variables, one per round; a connection is drawn once and for all, not at an event".to_owned(),
        );
    }
    if made.equations.len() < boundary {
        let none: Vec<WhenAction> = Vec::new();
        assert(none.deep_view() =~= Seq::empty());
        return Ok((made, none));
    }
    let rest = made.equations.split_off(boundary);
    assert(made.equations.deep_view() =~= mv.equations.take(boundary as int));
    assert(rest.deep_view() =~= mv.equations.skip(boundary as int));
    assert(rest.deep_view().len() == rest@.len());
    match assign_rounds(rest) {
        Err(why) => Err(why),
        Ok(actions) => Ok((made, actions)),
    }
}

/// What the run answers for each output that a function declares.
pub open spec fn standing_outputs(name: Seq<char>, args: Seq<ExprV>, named: Seq<Seq<char>>) -> Seq<
    (Seq<char>, ExprV),
> {
    Seq::new(
        named.len(),
        |i: int|
            (
                named[i],
                ExprV::Index(
                    Box::new(ExprV::Call(name, args)),
                    seq![ExprV::Number(nearest((i + 1) as nat))],
                ),
            ),
    )
}

/// The outputs of a call that fills a tuple at an event, and the checks that
/// its body set aside. A body nothing could write out is walked by the run
/// instead.
pub open spec fn event_outputs(
    k: DeskV,
    function: ClassDef,
    name: Seq<char>,
    given: GivenV,
) -> Result<(Seq<(Seq<char>, ExprV)>, Checks), Seq<char>> {
    match (k.h.outputs)(function, given.args, given.shapes) {
        Ok(made) => Ok(made),
        Err(why) => if (k.h.undecided)(why) && (k.h.walkable)(function) && are_carried(
            given.args,
        ) {
            Ok(
                (
                    standing_outputs(
                        name,
                        given.args,
                        output_names(gathered_over(k.classes, function, Seq::empty(), 0)),
                    ),
                    Seq::empty(),
                ),
            )
        } else {
            Err(why)
        },
    }
}

fn find_event_outputs<
    A1: Fn(&Expr, bool) -> Expr,
    A2: Fn(&Expr, &Table<Number>, &Table<Number>, &Table<String>) -> Result<(Value, Vec<(Expr, String)>), String>,
    A3: Fn(Value, &Table<Number>, &Table<Number>, &Table<String>) -> Result<(Value, Vec<(Expr, String)>), String>,
    A4: Fn(&Value, &Value, &str) -> Result<Vec<EquationItem>, String>,
    A5: Fn(&Expr) -> String,
    A6: Fn(Option<&Expr>) -> String,
    A7: Fn(&Vec<&Statement>) -> Result<Ran, String>,
    A8: Fn(&ClassDef, &Vec<Expr>, &Vec<Vec<i64>>) -> Result<(Vec<(String, Expr)>, Vec<(Expr, String)>), String>,
    A9: Fn(&ClassDef, &Vec<Expr>, &Vec<Vec<i64>>) -> Result<(Vec<(Expr, String)>, Vec<(Expr, String)>), String>,
    B1: Fn(&str) -> bool,
    B2: Fn(&ClassDef) -> bool,
    W: Fn(Arith, Number, Number) -> Number,
    O: Fn(&str, &Vec<Number>) -> Option<Vec<Number>>,
    N: Fn(&str) -> String,
>(
    h: &Reading<A1, A2, A3, A4, A5, A6, A7, A8, A9, B1, B2>,
    sums: &Sums<W, O, N>,
    registry: &Registry,
    p: &Here,
    function: &ClassDef,
    name: &str,
    args: &Vec<Expr>,
    shapes: &Vec<Vec<i64>>,
) -> (r: Result<(Vec<(String, Expr)>, Vec<(Expr, String)>), String>)
    requires
        reads_true(*h),
        is_steady(*sums),
    ensures
        told(r) == event_outputs(
            desk_of(*h, *sums, registry@, p.deep_view()),
            *function,
            name@,
            GivenV { args: args.deep_view(), shapes: shapes.deep_view() },
        ),
{
    let why = match h.do_outputs(function, args, shapes) {
        Ok(made) => return Ok(made),
        Err(why) => why,
    };
    if !h.do_undecided(why.as_str()) || !h.do_walkable(function) || !carried_by_the_run(args) {
        return Err(why);
    }
    let named = declared_outputs(registry, function);
    let ghost av = args.deep_view();
    let ghost nv = texts(named@);
    let ghost whole = standing_outputs(name@, av, nv);
    let mut out: Vec<(String, Expr)> = Vec::new();
    let mut i: usize = 0;
    while i < named.len()
        invariant
            i <= named.len(),
            av == args.deep_view(),
            nv == texts(named@),
            whole == standing_outputs(name@, av, nv),
            out.deep_view() == whole.take(i as int),
        decreases named.len() - i,
    {
        let ghost before = out.deep_view();
        let copies = crate::expr::copy_all(args);
        let standing = make::call(name, copies);
        let mut at: Vec<Expr> = Vec::new();
        at.push(make::number(from_count((i as u64) + 1)));
        assert(at.deep_view() =~= seq![ExprV::Number(nearest((i + 1) as nat))]);
        let read = make::index(standing, at);
        assert((nv[i as int], read.deep_view()) == whole[i as int]);
        out.push((named[i].clone(), read));
        assert(out.deep_view() =~= before.push(whole[i as int]));
        assert(before.push(whole[i as int]) =~= whole.take(i + 1));
        i = i + 1;
    }
    assert(whole.take(i as int) =~= whole);
    let none: Vec<(Expr, String)> = Vec::new();
    assert(none.deep_view() =~= Seq::empty());
    Ok((out, none))
}

/// The first `n` names of a target, each given its value.
pub open spec fn names_assigned(
    target: Seq<char>,
    names: Seq<ExprV>,
    worths: Seq<ExprV>,
    n: nat,
) -> Result<Seq<WhenActionV>, Seq<char>>
    decreases n,
{
    if n == 0 || n > names.len() || n > worths.len() {
        Ok(Seq::empty())
    } else {
        match names_assigned(target, names, worths, (n - 1) as nat) {
            Err(why) => Err(why),
            Ok(before) => match names[n - 1] {
                ExprV::Ref(name) => Ok(before.push(WhenActionV::Assign(name, worths[n - 1]))),
                _ => Err("`"@ + target + "` is not a name an event can assign"@),
            },
        }
    }
}

proof fn lemma_names_assigned_stops(
    target: Seq<char>,
    names: Seq<ExprV>,
    worths: Seq<ExprV>,
    n: nat,
    all: nat,
)
    requires
        n <= all <= names.len(),
        all <= worths.len(),
        names_assigned(target, names, worths, n) is Err,
    ensures
        names_assigned(target, names, worths, all) == names_assigned(target, names, worths, n),
    decreases all,
{
    if n < all {
        lemma_names_assigned_stops(target, names, worths, n, (all - 1) as nat);
    }
}

/// What one target of a tuple is given at an event: an output of several
/// numbers lands on several names.
pub open spec fn target_assigned(
    k: DeskV,
    acc: FlatV,
    target: Seq<char>,
    worth: ExprV,
) -> Result<(FlatV, Seq<WhenActionV>), Seq<char>> {
    match spread_out(k.h, acc, ExprV::Ref(target), Map::empty(), k.p.consts, k.p.records) {
        Err(why) => Err(why),
        Ok((placed, acc)) => match spread_out(
            k.h,
            acc,
            worth,
            Map::empty(),
            k.p.consts,
            k.p.records,
        ) {
            Err(why) => Err(why),
            Ok((given, acc)) => {
                let names = scalars(placed);
                let worths = scalars(given);
                if names.len() != worths.len() {
                    Err(
                        "`"@ + target + "` is "@ + digits(names.len())
                            + " name(s) and what it is given at the event is "@ + digits(
                            worths.len(),
                        ) + " value(s)"@,
                    )
                } else {
                    match names_assigned(target, names, worths, names.len()) {
                        Err(why) => Err(why),
                        Ok(actions) => Ok((acc, actions)),
                    }
                }
            },
        },
    }
}

fn assign_target<
    A1: Fn(&Expr, bool) -> Expr,
    A2: Fn(&Expr, &Table<Number>, &Table<Number>, &Table<String>) -> Result<(Value, Vec<(Expr, String)>), String>,
    A3: Fn(Value, &Table<Number>, &Table<Number>, &Table<String>) -> Result<(Value, Vec<(Expr, String)>), String>,
    A4: Fn(&Value, &Value, &str) -> Result<Vec<EquationItem>, String>,
    A5: Fn(&Expr) -> String,
    A6: Fn(Option<&Expr>) -> String,
    A7: Fn(&Vec<&Statement>) -> Result<Ran, String>,
    A8: Fn(&ClassDef, &Vec<Expr>, &Vec<Vec<i64>>) -> Result<(Vec<(String, Expr)>, Vec<(Expr, String)>), String>,
    A9: Fn(&ClassDef, &Vec<Expr>, &Vec<Vec<i64>>) -> Result<(Vec<(Expr, String)>, Vec<(Expr, String)>), String>,
    B1: Fn(&str) -> bool,
    B2: Fn(&ClassDef) -> bool,
    W: Fn(Arith, Number, Number) -> Number,
    O: Fn(&str, &Vec<Number>) -> Option<Vec<Number>>,
    N: Fn(&str) -> String,
>(
    h: &Reading<A1, A2, A3, A4, A5, A6, A7, A8, A9, B1, B2>,
    sums: &Sums<W, O, N>,
    registry: &Registry,
    p: &Here,
    acc: Flat,
    target: String,
    worth: &Expr,
) -> (r: Result<(Flat, Vec<WhenAction>), String>)
    requires
        reads_true(*h),
        is_steady(*sums),
    ensures
        told(r) == target_assigned(
            desk_of(*h, *sums, registry@, p.deep_view()),
            acc.deep_view(),
            target@,
            worth.deep_view(),
        ),
{
    let ghost k = desk_of(*h, *sums, registry@, p.deep_view());
    let ghost start = acc.deep_view();
    let none: Table<Number> = Table::new();
    let named = make::name(target.clone());
    let (placed, next) = match spread_it(h, acc, &named, &none, &p.consts, &p.records) {
        Ok(made) => made,
        Err(why) => return Err(why),
    };
    let (given, now) = match spread_it(h, next, worth, &none, &p.consts, &p.records) {
        Ok(made) => made,
        Err(why) => return Err(why),
    };
    let mut names: Vec<Expr> = Vec::new();
    let mut worths: Vec<Expr> = Vec::new();
    placed.flatten_into(&mut names);
    given.flatten_into(&mut worths);
    let ghost nv = names.deep_view();
    let ghost wv = worths.deep_view();
    assert(nv =~= scalars(placed.deep_view()));
    assert(wv =~= scalars(given.deep_view()));
    assert(nv.len() == names@.len());
    assert(wv.len() == worths@.len());
    if names.len() != worths.len() {
        let a = decimal(names.len() as u64);
        let b = decimal(worths.len() as u64);
        return Err(
            join7(
                "`",
                target.as_str(),
                "` is ",
                a.as_str(),
                " name(s) and what it is given at the event is ",
                b.as_str(),
                " value(s)",
            ),
        );
    }
    let mut out: Vec<WhenAction> = Vec::new();
    let mut i: usize = 0;
    assert(out.deep_view() =~= Seq::empty());
    while i < names.len()
        invariant
            i <= names.len(),
            names@.len() == worths@.len(),
            k == desk_of(*h, *sums, registry@, p.deep_view()),
            start == acc.deep_view(),
            nv == names.deep_view(),
            wv == worths.deep_view(),
            nv.len() == names@.len(),
            wv.len() == worths@.len(),
            names_assigned(target@, nv, wv, i as nat) == Ok::<Seq<WhenActionV>, Seq<char>>(
                out.deep_view(),
            ),
            target_assigned(k, start, target@, worth.deep_view()) == (match names_assigned(
                target@,
                nv,
                wv,
                nv.len(),
            ) {
                Err(why) => Err::<(FlatV, Seq<WhenActionV>), Seq<char>>(why),
                Ok(actions) => Ok((now.deep_view(), actions)),
            }),
        decreases names.len() - i,
    {
        let ghost before = out.deep_view();
        assert(nv[i as int] == names@[i as int].deep_view());
        assert(wv[i as int] == worths@[i as int].deep_view());
        match &names[i] {
            Expr::Ref(name) => {
                let action = WhenAction::Assign(name.clone(), worths[i].clone());
                let ghost av = action.deep_view();
                out.push(action);
                assert(out.deep_view() =~= before.push(av));
            },
            _ => {
                proof {
                    lemma_names_assigned_stops(target@, nv, wv, (i + 1) as nat, nv.len());
                }
                return Err(
                    join3("`", target.as_str(), "` is not a name an event can assign"),
                );
            },
        }
        i = i + 1;
    }
    Ok((now, out))
}

/// What the first `n` targets of a tuple are given at an event.
pub open spec fn targets_assigned(
    k: DeskV,
    acc: FlatV,
    targets: Seq<Option<Seq<char>>>,
    outputs: Seq<(Seq<char>, ExprV)>,
    n: nat,
) -> Result<(FlatV, Seq<WhenActionV>), Seq<char>>
    decreases n,
{
    if n == 0 || n > targets.len() || n > outputs.len() {
        Ok((acc, Seq::empty()))
    } else {
        match targets_assigned(k, acc, targets, outputs, (n - 1) as nat) {
            Err(why) => Err(why),
            Ok((acc, before)) => match targets[n - 1] {
                None => Ok((acc, before)),
                Some(target) => match target_assigned(
                    k,
                    acc,
                    flat_of(target, k.p.naming),
                    outputs[n - 1].1,
                ) {
                    Err(why) => Err(why),
                    Ok((acc, more)) => Ok((acc, before + more)),
                },
            },
        }
    }
}

proof fn lemma_targets_assigned_stops(
    k: DeskV,
    acc: FlatV,
    targets: Seq<Option<Seq<char>>>,
    outputs: Seq<(Seq<char>, ExprV)>,
    n: nat,
    all: nat,
)
    requires
        n <= all <= targets.len(),
        all <= outputs.len(),
        targets_assigned(k, acc, targets, outputs, n) is Err,
    ensures
        targets_assigned(
            k,
            acc,
            targets,
            outputs,
            all,
        ) == targets_assigned(k, acc, targets, outputs, n),
    decreases all,
{
    if n < all {
        lemma_targets_assigned_stops(k, acc, targets, outputs, n, (all - 1) as nat);
    }
}

/// What a tuple at an event comes to: the call is inlined once per output,
/// and each target gets assignments of its own.
pub open spec fn tuple_actions(
    k: DeskV,
    acc: FlatV,
    targets: Seq<Option<Seq<char>>>,
    value: ExprV,
) -> Result<(FlatV, Seq<WhenActionV>), Seq<char>> {
    match prefixed_whole((k.h.put)(value, true), k.p.naming) {
        ExprV::Call(name, args) => match function_called(k.classes, k.p, name) {
            None => Err(no_function(name)),
            Some(function) => match arguments_given(k.h, k.p, acc, args, args.len()) {
                Err(why) => Err(why),
                Ok((given, acc)) => match event_outputs(k, function, name, given) {
                    Err(why) => Err(why),
                    Ok((outputs, aside)) => if outputs.len() < targets.len() {
                        Err(
                            "`"@ + name + "` has "@ + digits(outputs.len())
                                + " output(s) and the tuple asks for "@ + digits(targets.len()),
                        )
                    } else {
                        targets_assigned(
                            k,
                            set_aside(acc, aside),
                            targets,
                            outputs,
                            targets.len(),
                        )
                    },
                },
            },
        },
        _ => Err("the right side of a tuple inside `when` must be a function call"@),
    }
}

fn assign_tuple<
    A1: Fn(&Expr, bool) -> Expr,
    A2: Fn(&Expr, &Table<Number>, &Table<Number>, &Table<String>) -> Result<(Value, Vec<(Expr, String)>), String>,
    A3: Fn(Value, &Table<Number>, &Table<Number>, &Table<String>) -> Result<(Value, Vec<(Expr, String)>), String>,
    A4: Fn(&Value, &Value, &str) -> Result<Vec<EquationItem>, String>,
    A5: Fn(&Expr) -> String,
    A6: Fn(Option<&Expr>) -> String,
    A7: Fn(&Vec<&Statement>) -> Result<Ran, String>,
    A8: Fn(&ClassDef, &Vec<Expr>, &Vec<Vec<i64>>) -> Result<(Vec<(String, Expr)>, Vec<(Expr, String)>), String>,
    A9: Fn(&ClassDef, &Vec<Expr>, &Vec<Vec<i64>>) -> Result<(Vec<(Expr, String)>, Vec<(Expr, String)>), String>,
    B1: Fn(&str) -> bool,
    B2: Fn(&ClassDef) -> bool,
    W: Fn(Arith, Number, Number) -> Number,
    O: Fn(&str, &Vec<Number>) -> Option<Vec<Number>>,
    N: Fn(&str) -> String,
>(
    h: &Reading<A1, A2, A3, A4, A5, A6, A7, A8, A9, B1, B2>,
    sums: &Sums<W, O, N>,
    registry: &Registry,
    p: &Here,
    acc: Flat,
    targets: &Vec<Option<String>>,
    value: &Expr,
) -> (r: Result<(Flat, Vec<WhenAction>), String>)
    requires
        reads_true(*h),
        is_steady(*sums),
    ensures
        told(r) == tuple_actions(
            desk_of(*h, *sums, registry@, p.deep_view()),
            acc.deep_view(),
            targets.deep_view(),
            value.deep_view(),
        ),
{
    let ghost k = desk_of(*h, *sums, registry@, p.deep_view());
    let ghost all = targets.deep_view();
    let ghost start = acc.deep_view();
    assert(all.len() == targets@.len());
    let plain = h.do_put(value, true);
    let whole = prefix_expr(&plain, &p.naming);
    let (name, args) = match &whole {
        Expr::Call(name, args) => {
            proof {
                lemma_views(*args);
            }
            (name, args)
        },
        _ => return Err(
            "the right side of a tuple inside `when` must be a function call".to_owned(),
        ),
    };
    assert(args.deep_view().len() == args@.len());
    let function = match find_function(registry, p, name.as_str()) {
        Some(function) => function,
        None => return Err(
            join3("`", name.as_str(), "` is not a function, so it cannot fill a tuple"),
        ),
    };
    let (given, shapes, next) = match give_arguments(h, p, acc, args) {
        Ok(given) => given,
        Err(why) => return Err(why),
    };
    let (outputs, aside) = match find_event_outputs(
        h,
        sums,
        registry,
        p,
        function,
        name.as_str(),
        &given,
        &shapes,
    ) {
        Ok(made) => made,
        Err(why) => return Err(why),
    };
    let ghost ov = outputs.deep_view();
    assert(ov.len() == outputs@.len());
    if outputs.len() < targets.len() {
        let a = decimal(outputs.len() as u64);
        let b = decimal(targets.len() as u64);
        let said = join5(
            "`",
            name.as_str(),
            "` has ",
            a.as_str(),
            " output(s) and the tuple asks for ",
        );
        return Err(join2(said.as_str(), b.as_str()));
    }
    let mut now = put_aside(next, aside);
    let ghost kept = now.deep_view();
    let mut out: Vec<WhenAction> = Vec::new();
    let mut i: usize = 0;
    assert(out.deep_view() =~= Seq::empty());
    while i < targets.len()
        invariant
            i <= targets.len(),
            targets@.len() <= outputs@.len(),
            reads_true(*h),
            is_steady(*sums),
            start == acc.deep_view(),
            all == targets.deep_view(),
            ov == outputs.deep_view(),
            k == desk_of(*h, *sums, registry@, p.deep_view()),
            tuple_actions(k, start, all, value.deep_view()) == targets_assigned(
                k,
                kept,
                all,
                ov,
                all.len(),
            ),
            targets_assigned(k, kept, all, ov, i as nat) == Ok::<
                (FlatV, Seq<WhenActionV>),
                Seq<char>,
            >((now.deep_view(), out.deep_view())),
        decreases targets.len() - i,
    {
        let ghost before = out.deep_view();
        assert(all[i as int] == targets@[i as int].deep_view());
        assert(ov[i as int] == outputs@[i as int].deep_view());
        proof {
            if targets_assigned(k, kept, all, ov, (i + 1) as nat) is Err {
                lemma_targets_assigned_stops(k, kept, all, ov, (i + 1) as nat, all.len());
            }
        }
        if let Some(target) = &targets[i] {
            let target = flat_name(target.as_str(), &p.naming);
            match assign_target(h, sums, registry, p, now, target, &outputs[i].1) {
                Err(why) => return Err(why),
                Ok((next, mut more)) => {
                    now = next;
                    let ghost mv = more.deep_view();
                    out.append(&mut more);
                    assert(out.deep_view() =~= before + mv);
                },
            }
        }
        i = i + 1;
    }
    Ok((now, out))
}

/// What one action of a `when` comes to: what was gathered on the way, and the
/// actions of the flat model.
pub open spec fn action_read(k: DeskV, acc: FlatV, action: WhenAction) -> Result<
    (FlatV, Seq<WhenActionV>),
    Seq<char>,
> {
    match action {
        WhenAction::Reinit(state, value) => match comes_to(k.h, k.p, acc, value.deep_view()) {
            Err(why) => Err(why),
            Ok((value, acc)) => Ok(
                (acc, seq![WhenActionV::Reinit(flat_of(state@, k.p.naming), value)]),
            ),
        },
        WhenAction::Assign(target, value) => match stands_for(k.h, k.p, acc, value.deep_view()) {
            Err(why) => Err(why),
            Ok((given, acc)) => match assigned_at_event(k, flat_of(target@, k.p.naming), given) {
                Err(why) => Err(why),
                Ok(actions) => Ok((acc, actions)),
            },
        },
        WhenAction::Terminate(message) => Ok((acc, seq![WhenActionV::Terminate(message@)])),
        WhenAction::Call(name, args) => match with_call(
            k,
            acc,
            ExprV::Call(name@, args.deep_view()),
        ) {
            Err(why) => Err(why),
            Ok(acc) => Ok((acc, Seq::empty())),
        },
        WhenAction::Assert(condition, message) => match comes_to(
            k.h,
            k.p,
            acc,
            condition.deep_view(),
        ) {
            Err(why) => Err(why),
            Ok((condition, acc)) => Ok((acc, seq![WhenActionV::Assert(condition, message@)])),
        },
        WhenAction::Choice(held) => choice_actions(k, acc, held.branches@),
        WhenAction::Loop(l) => loop_actions(k, acc, l),
        WhenAction::TupleAssign(targets, value) => tuple_actions(
            k,
            acc,
            targets.deep_view(),
            value.deep_view(),
        ),
    }
}

/// Whether every `if` in the loops of an action has its `else` last.
pub open spec fn action_laid_out(action: WhenAction) -> bool {
    action matches WhenAction::Loop(l) ==> loop_laid_out(l)
}

pub open spec fn event_laid_out(clause: WhenClause) -> bool {
    forall|i: int, j: int|
        0 <= i < clause.branches@.len() && 0 <= j < clause.branches@[i].actions@.len()
            ==> action_laid_out(#[trigger] clause.branches@[i].actions@[j])
}

pub open spec fn events_laid_out(list: Seq<WhenClause>) -> bool {
    forall|i: int| 0 <= i < list.len() ==> event_laid_out(#[trigger] list[i])
}

fn alone(action: WhenAction) -> (r: Vec<WhenAction>)
    ensures
        r.deep_view() == seq![action.deep_view()],
{
    let ghost av = action.deep_view();
    let mut out: Vec<WhenAction> = Vec::new();
    out.push(action);
    assert(out.deep_view() =~= seq![av]);
    out
}

fn read_action<
    A1: Fn(&Expr, bool) -> Expr,
    A2: Fn(&Expr, &Table<Number>, &Table<Number>, &Table<String>) -> Result<(Value, Vec<(Expr, String)>), String>,
    A3: Fn(Value, &Table<Number>, &Table<Number>, &Table<String>) -> Result<(Value, Vec<(Expr, String)>), String>,
    A4: Fn(&Value, &Value, &str) -> Result<Vec<EquationItem>, String>,
    A5: Fn(&Expr) -> String,
    A6: Fn(Option<&Expr>) -> String,
    A7: Fn(&Vec<&Statement>) -> Result<Ran, String>,
    A8: Fn(&ClassDef, &Vec<Expr>, &Vec<Vec<i64>>) -> Result<(Vec<(String, Expr)>, Vec<(Expr, String)>), String>,
    A9: Fn(&ClassDef, &Vec<Expr>, &Vec<Vec<i64>>) -> Result<(Vec<(Expr, String)>, Vec<(Expr, String)>), String>,
    B1: Fn(&str) -> bool,
    B2: Fn(&ClassDef) -> bool,
    W: Fn(Arith, Number, Number) -> Number,
    O: Fn(&str, &Vec<Number>) -> Option<Vec<Number>>,
    N: Fn(&str) -> String,
>(
    h: &Reading<A1, A2, A3, A4, A5, A6, A7, A8, A9, B1, B2>,
    sums: &Sums<W, O, N>,
    registry: &Registry,
    p: &Here,
    acc: Flat,
    action: &WhenAction,
) -> (r: Result<(Flat, Vec<WhenAction>), String>)
    requires
        reads_true(*h),
        is_steady(*sums),
        action_laid_out(*action),
    ensures
        told(r) == action_read(
            desk_of(*h, *sums, registry@, p.deep_view()),
            acc.deep_view(),
            *action,
        ),
{
    match action {
        WhenAction::Reinit(state, value) => match resolve_here(h, p, acc, value) {
            Err(why) => Err(why),
            Ok((value, acc)) => {
                let named = flat_name(state.as_str(), &p.naming);
                Ok((acc, alone(WhenAction::Reinit(named, value))))
            },
        },
        WhenAction::Assign(target, value) => {
            let named = flat_name(target.as_str(), &p.naming);
            match expand_here(h, p, acc, value) {
                Err(why) => Err(why),
                Ok((given, acc)) => match assign_at_event(h, sums, registry, p, named, given) {
                    Err(why) => Err(why),
                    Ok(actions) => Ok((acc, actions)),
                },
            }
        },
        WhenAction::Terminate(message) => Ok((acc, alone(WhenAction::Terminate(message.clone())))),
        WhenAction::Call(name, args) => {
            let copies = crate::expr::copy_all(args);
            let call = make::call(name.as_str(), copies);
            match take_checks(h, sums, registry, p, acc, &call) {
                Err(why) => Err(why),
                Ok(acc) => {
                    let none: Vec<WhenAction> = Vec::new();
                    assert(none.deep_view() =~= Seq::empty());
                    Ok((acc, none))
                },
            }
        },
        WhenAction::Assert(condition, message) => match resolve_here(h, p, acc, condition) {
            Err(why) => Err(why),
            Ok((condition, acc)) => Ok(
                (acc, alone(WhenAction::Assert(condition, message.clone()))),
            ),
        },
        WhenAction::Choice(held) => choose_actions(h, sums, registry, p, acc, &held.branches),
        WhenAction::Loop(l) => unroll_actions(h, sums, registry, p, acc, l),
        WhenAction::TupleAssign(targets, value) => assign_tuple(
            h,
            sums,
            registry,
            p,
            acc,
            targets,
            value,
        ),
    }
}

/// The first `n` actions of a branch.
pub open spec fn actions_read(k: DeskV, acc: FlatV, list: Seq<WhenAction>, n: nat) -> Result<
    (FlatV, Seq<WhenActionV>),
    Seq<char>,
>
    decreases n,
{
    if n == 0 || n > list.len() {
        Ok((acc, Seq::empty()))
    } else {
        match actions_read(k, acc, list, (n - 1) as nat) {
            Err(why) => Err(why),
            Ok((before, actions)) => match action_read(k, before, list[n - 1]) {
                Err(why) => Err(why),
                Ok((acc, more)) => Ok((acc, actions + more)),
            },
        }
    }
}

proof fn lemma_actions_read_stops(k: DeskV, acc: FlatV, list: Seq<WhenAction>, n: nat, all: nat)
    requires
        n <= all <= list.len(),
        actions_read(k, acc, list, n) is Err,
    ensures
        actions_read(k, acc, list, all) == actions_read(k, acc, list, n),
    decreases all,
{
    if n < all {
        lemma_actions_read_stops(k, acc, list, n, (all - 1) as nat);
    }
}

/// One branch of a `when` clause.
pub open spec fn when_branch_read(k: DeskV, acc: FlatV, branch: WhenBranch) -> Result<
    (FlatV, WhenBranchV),
    Seq<char>,
> {
    match actions_read(k, acc, branch.actions@, branch.actions@.len()) {
        Err(why) => Err(why),
        Ok((acc, actions)) => match comes_to(k.h, k.p, acc, branch.condition.deep_view()) {
            Err(why) => Err(why),
            Ok((condition, acc)) => Ok((acc, WhenBranchV { condition, actions })),
        },
    }
}

fn read_when_branch<
    A1: Fn(&Expr, bool) -> Expr,
    A2: Fn(&Expr, &Table<Number>, &Table<Number>, &Table<String>) -> Result<(Value, Vec<(Expr, String)>), String>,
    A3: Fn(Value, &Table<Number>, &Table<Number>, &Table<String>) -> Result<(Value, Vec<(Expr, String)>), String>,
    A4: Fn(&Value, &Value, &str) -> Result<Vec<EquationItem>, String>,
    A5: Fn(&Expr) -> String,
    A6: Fn(Option<&Expr>) -> String,
    A7: Fn(&Vec<&Statement>) -> Result<Ran, String>,
    A8: Fn(&ClassDef, &Vec<Expr>, &Vec<Vec<i64>>) -> Result<(Vec<(String, Expr)>, Vec<(Expr, String)>), String>,
    A9: Fn(&ClassDef, &Vec<Expr>, &Vec<Vec<i64>>) -> Result<(Vec<(Expr, String)>, Vec<(Expr, String)>), String>,
    B1: Fn(&str) -> bool,
    B2: Fn(&ClassDef) -> bool,
    W: Fn(Arith, Number, Number) -> Number,
    O: Fn(&str, &Vec<Number>) -> Option<Vec<Number>>,
    N: Fn(&str) -> String,
>(
    h: &Reading<A1, A2, A3, A4, A5, A6, A7, A8, A9, B1, B2>,
    sums: &Sums<W, O, N>,
    registry: &Registry,
    p: &Here,
    acc: Flat,
    branch: &WhenBranch,
) -> (r: Result<(Flat, WhenBranch), String>)
    requires
        reads_true(*h),
        is_steady(*sums),
        forall|j: int|
            0 <= j < branch.actions@.len() ==> action_laid_out(#[trigger] branch.actions@[j]),
    ensures
        told(r) == when_branch_read(
            desk_of(*h, *sums, registry@, p.deep_view()),
            acc.deep_view(),
            *branch,
        ),
{
    let ghost k = desk_of(*h, *sums, registry@, p.deep_view());
    let ghost start = acc.deep_view();
    let list = &branch.actions;
    let mut now = acc;
    let mut actions: Vec<WhenAction> = Vec::new();
    let mut i: usize = 0;
    assert(actions.deep_view() =~= Seq::empty());
    while i < list.len()
        invariant
            i <= list.len(),
            reads_true(*h),
            is_steady(*sums),
            *list == branch.actions,
            forall|j: int|
                0 <= j < branch.actions@.len() ==> action_laid_out(#[trigger] branch.actions@[j]),
            start == acc.deep_view(),
            k == desk_of(*h, *sums, registry@, p.deep_view()),
            actions_read(k, start, list@, i as nat) == Ok::<
                (FlatV, Seq<WhenActionV>),
                Seq<char>,
            >((now.deep_view(), actions.deep_view())),
        decreases list.len() - i,
    {
        let ghost before = actions.deep_view();
        proof {
            if actions_read(k, start, list@, (i + 1) as nat) is Err {
                lemma_actions_read_stops(k, start, list@, (i + 1) as nat, list@.len());
            }
            assert(action_laid_out(branch.actions@[i as int]));
        }
        match read_action(h, sums, registry, p, now, &list[i]) {
            Err(why) => return Err(why),
            Ok((next, mut more)) => {
                now = next;
                let ghost mv = more.deep_view();
                actions.append(&mut more);
                assert(actions.deep_view() =~= before + mv);
            },
        }
        i = i + 1;
    }
    match resolve_here(h, p, now, &branch.condition) {
        Err(why) => Err(why),
        Ok((condition, now)) => Ok((now, WhenBranch { condition, actions })),
    }
}

/// The first `n` branches of a `when` clause.
pub open spec fn when_branches_read(k: DeskV, acc: FlatV, list: Seq<WhenBranch>, n: nat) -> Result<
    (FlatV, Seq<WhenBranchV>),
    Seq<char>,
>
    decreases n,
{
    if n == 0 || n > list.len() {
        Ok((acc, Seq::empty()))
    } else {
        match when_branches_read(k, acc, list, (n - 1) as nat) {
            Err(why) => Err(why),
            Ok((before, branches)) => match when_branch_read(k, before, list[n - 1]) {
                Err(why) => Err(why),
                Ok((acc, branch)) => Ok((acc, branches.push(branch))),
            },
        }
    }
}

proof fn lemma_when_branches_read_stops(
    k: DeskV,
    acc: FlatV,
    list: Seq<WhenBranch>,
    n: nat,
    all: nat,
)
    requires
        n <= all <= list.len(),
        when_branches_read(k, acc, list, n) is Err,
    ensures
        when_branches_read(k, acc, list, all) == when_branches_read(k, acc, list, n),
    decreases all,
{
    if n < all {
        lemma_when_branches_read_stops(k, acc, list, n, (all - 1) as nat);
    }
}

/// What was gathered with a `when` clause: an event and what to do at it, each
/// read the way an equation is.
pub open spec fn with_when(k: DeskV, acc: FlatV, clause: WhenClause) -> Result<FlatV, Seq<char>> {
    match when_branches_read(k, acc, clause.branches@, clause.branches@.len()) {
        Err(why) => Err(why),
        Ok((acc, branches)) => Ok(
            FlatV {
                when_clauses: acc.when_clauses.push(WhenClauseV { branches, origin: acc.origin }),
                ..acc
            },
        ),
    }
}

fn push_when<
    A1: Fn(&Expr, bool) -> Expr,
    A2: Fn(&Expr, &Table<Number>, &Table<Number>, &Table<String>) -> Result<(Value, Vec<(Expr, String)>), String>,
    A3: Fn(Value, &Table<Number>, &Table<Number>, &Table<String>) -> Result<(Value, Vec<(Expr, String)>), String>,
    A4: Fn(&Value, &Value, &str) -> Result<Vec<EquationItem>, String>,
    A5: Fn(&Expr) -> String,
    A6: Fn(Option<&Expr>) -> String,
    A7: Fn(&Vec<&Statement>) -> Result<Ran, String>,
    A8: Fn(&ClassDef, &Vec<Expr>, &Vec<Vec<i64>>) -> Result<(Vec<(String, Expr)>, Vec<(Expr, String)>), String>,
    A9: Fn(&ClassDef, &Vec<Expr>, &Vec<Vec<i64>>) -> Result<(Vec<(Expr, String)>, Vec<(Expr, String)>), String>,
    B1: Fn(&str) -> bool,
    B2: Fn(&ClassDef) -> bool,
    W: Fn(Arith, Number, Number) -> Number,
    O: Fn(&str, &Vec<Number>) -> Option<Vec<Number>>,
    N: Fn(&str) -> String,
>(
    h: &Reading<A1, A2, A3, A4, A5, A6, A7, A8, A9, B1, B2>,
    sums: &Sums<W, O, N>,
    registry: &Registry,
    p: &Here,
    acc: Flat,
    clause: &WhenClause,
) -> (r: Result<Flat, String>)
    requires
        reads_true(*h),
        is_steady(*sums),
        event_laid_out(*clause),
    ensures
        told(r) == with_when(
            desk_of(*h, *sums, registry@, p.deep_view()),
            acc.deep_view(),
            *clause,
        ),
{
    let ghost k = desk_of(*h, *sums, registry@, p.deep_view());
    let ghost start = acc.deep_view();
    let list = &clause.branches;
    let mut now = acc;
    let mut branches: Vec<WhenBranch> = Vec::new();
    let mut i: usize = 0;
    assert(branches.deep_view() =~= Seq::empty());
    while i < list.len()
        invariant
            i <= list.len(),
            reads_true(*h),
            is_steady(*sums),
            event_laid_out(*clause),
            *list == clause.branches,
            start == acc.deep_view(),
            k == desk_of(*h, *sums, registry@, p.deep_view()),
            when_branches_read(k, start, list@, i as nat) == Ok::<
                (FlatV, Seq<WhenBranchV>),
                Seq<char>,
            >((now.deep_view(), branches.deep_view())),
        decreases list.len() - i,
    {
        let ghost before = branches.deep_view();
        proof {
            if when_branches_read(k, start, list@, (i + 1) as nat) is Err {
                lemma_when_branches_read_stops(k, start, list@, (i + 1) as nat, list@.len());
            }
            assert forall|j: int| 0 <= j < list@[i as int].actions@.len() implies action_laid_out(
                #[trigger] list@[i as int].actions@[j],
            ) by {
                assert(action_laid_out(clause.branches@[i as int].actions@[j]));
            }
        }
        match read_when_branch(h, sums, registry, p, now, &list[i]) {
            Err(why) => return Err(why),
            Ok((next, branch)) => {
                now = next;
                let ghost bv = branch.deep_view();
                branches.push(branch);
                assert(branches.deep_view() =~= before.push(bv));
            },
        }
        i = i + 1;
    }
    let ghost was = now.deep_view();
    let made = WhenClause { branches, origin: now.origin.clone() };
    let ghost cv = made.deep_view();
    now.when_clauses.push(made);
    assert(now.when_clauses.deep_view() =~= was.when_clauses.push(cv));
    Ok(now)
}

/// What was gathered with the first `n` `when` clauses of a list.
pub open spec fn with_whens(
    k: DeskV,
    acc: FlatV,
    list: Seq<WhenClause>,
    n: nat,
) -> Result<FlatV, Seq<char>>
    decreases n,
{
    if n == 0 || n > list.len() {
        Ok(acc)
    } else {
        match with_whens(k, acc, list, (n - 1) as nat) {
            Err(why) => Err(why),
            Ok(before) => with_when(k, before, list[n - 1]),
        }
    }
}

proof fn lemma_with_whens_stops(k: DeskV, acc: FlatV, list: Seq<WhenClause>, n: nat, all: nat)
    requires
        n <= all <= list.len(),
        with_whens(k, acc, list, n) is Err,
    ensures
        with_whens(k, acc, list, all) == with_whens(k, acc, list, n),
    decreases all,
{
    if n < all {
        lemma_with_whens_stops(k, acc, list, n, (all - 1) as nat);
    }
}

fn push_whens<
    A1: Fn(&Expr, bool) -> Expr,
    A2: Fn(&Expr, &Table<Number>, &Table<Number>, &Table<String>) -> Result<(Value, Vec<(Expr, String)>), String>,
    A3: Fn(Value, &Table<Number>, &Table<Number>, &Table<String>) -> Result<(Value, Vec<(Expr, String)>), String>,
    A4: Fn(&Value, &Value, &str) -> Result<Vec<EquationItem>, String>,
    A5: Fn(&Expr) -> String,
    A6: Fn(Option<&Expr>) -> String,
    A7: Fn(&Vec<&Statement>) -> Result<Ran, String>,
    A8: Fn(&ClassDef, &Vec<Expr>, &Vec<Vec<i64>>) -> Result<(Vec<(String, Expr)>, Vec<(Expr, String)>), String>,
    A9: Fn(&ClassDef, &Vec<Expr>, &Vec<Vec<i64>>) -> Result<(Vec<(Expr, String)>, Vec<(Expr, String)>), String>,
    B1: Fn(&str) -> bool,
    B2: Fn(&ClassDef) -> bool,
    W: Fn(Arith, Number, Number) -> Number,
    O: Fn(&str, &Vec<Number>) -> Option<Vec<Number>>,
    N: Fn(&str) -> String,
>(
    h: &Reading<A1, A2, A3, A4, A5, A6, A7, A8, A9, B1, B2>,
    sums: &Sums<W, O, N>,
    registry: &Registry,
    p: &Here,
    acc: Flat,
    list: &Vec<WhenClause>,
) -> (r: Result<Flat, String>)
    requires
        reads_true(*h),
        is_steady(*sums),
        events_laid_out(list@),
    ensures
        told(r) == with_whens(
            desk_of(*h, *sums, registry@, p.deep_view()),
            acc.deep_view(),
            list@,
            list@.len(),
        ),
{
    let ghost k = desk_of(*h, *sums, registry@, p.deep_view());
    let ghost start = acc.deep_view();
    let mut now = acc;
    let mut i: usize = 0;
    while i < list.len()
        invariant
            i <= list.len(),
            reads_true(*h),
            is_steady(*sums),
            events_laid_out(list@),
            k == desk_of(*h, *sums, registry@, p.deep_view()),
            start == acc.deep_view(),
            with_whens(k, start, list@, i as nat) == Ok::<FlatV, Seq<char>>(now.deep_view()),
        decreases list.len() - i,
    {
        proof {
            if with_whens(k, start, list@, (i + 1) as nat) is Err {
                lemma_with_whens_stops(k, start, list@, (i + 1) as nat, list@.len());
            }
        }
        let one = &list[i];
        match push_when(h, sums, registry, p, now, one) {
            Err(why) => return Err(why),
            Ok(next) => {
                now = next;
            },
        }
        i = i + 1;
    }
    Ok(now)
}

/// The `when` clauses of the branches the compiler picked.
fn push_branch_whens<
    A1: Fn(&Expr, bool) -> Expr,
    A2: Fn(&Expr, &Table<Number>, &Table<Number>, &Table<String>) -> Result<(Value, Vec<(Expr, String)>), String>,
    A3: Fn(Value, &Table<Number>, &Table<Number>, &Table<String>) -> Result<(Value, Vec<(Expr, String)>), String>,
    A4: Fn(&Value, &Value, &str) -> Result<Vec<EquationItem>, String>,
    A5: Fn(&Expr) -> String,
    A6: Fn(Option<&Expr>) -> String,
    A7: Fn(&Vec<&Statement>) -> Result<Ran, String>,
    A8: Fn(&ClassDef, &Vec<Expr>, &Vec<Vec<i64>>) -> Result<(Vec<(String, Expr)>, Vec<(Expr, String)>), String>,
    A9: Fn(&ClassDef, &Vec<Expr>, &Vec<Vec<i64>>) -> Result<(Vec<(Expr, String)>, Vec<(Expr, String)>), String>,
    B1: Fn(&str) -> bool,
    B2: Fn(&ClassDef) -> bool,
    W: Fn(Arith, Number, Number) -> Number,
    O: Fn(&str, &Vec<Number>) -> Option<Vec<Number>>,
    N: Fn(&str) -> String,
>(
    h: &Reading<A1, A2, A3, A4, A5, A6, A7, A8, A9, B1, B2>,
    sums: &Sums<W, O, N>,
    registry: &Registry,
    p: &Here,
    acc: Flat,
    list: &Vec<&WhenClause>,
) -> (r: Result<Flat, String>)
    requires
        reads_true(*h),
        is_steady(*sums),
        events_laid_out(pointed_whens(list@)),
    ensures
        told(r) == with_whens(
            desk_of(*h, *sums, registry@, p.deep_view()),
            acc.deep_view(),
            pointed_whens(list@),
            list@.len(),
        ),
{
    let ghost k = desk_of(*h, *sums, registry@, p.deep_view());
    let ghost start = acc.deep_view();
    let ghost all = pointed_whens(list@);
    let mut now = acc;
    let mut i: usize = 0;
    while i < list.len()
        invariant
            i <= list.len(),
            reads_true(*h),
            is_steady(*sums),
            all == pointed_whens(list@),
            events_laid_out(all),
            start == acc.deep_view(),
            k == desk_of(*h, *sums, registry@, p.deep_view()),
            with_whens(k, start, all, i as nat) == Ok::<FlatV, Seq<char>>(now.deep_view()),
        decreases list.len() - i,
    {
        assert(all[i as int] == *list@[i as int]);
        proof {
            if with_whens(k, start, all, (i + 1) as nat) is Err {
                lemma_with_whens_stops(k, start, all, (i + 1) as nat, all.len());
            }
        }
        match push_when(h, sums, registry, p, now, list[i]) {
            Err(why) => return Err(why),
            Ok(next) => {
                now = next;
            },
        }
        i = i + 1;
    }
    Ok(now)
}

/// What was gathered with what the class says outright and what the branches
/// the compiler picked say at events.
pub open spec fn with_all_whens(
    k: DeskV,
    acc: FlatV,
    own: Seq<WhenClause>,
    more: Seq<WhenClause>,
) -> Result<FlatV, Seq<char>> {
    match with_whens(k, acc, own, own.len()) {
        Err(why) => Err(why),
        Ok(acc) => with_whens(k, acc, more, more.len()),
    }
}

/// The `when` clauses of a class: what it says outright, and what the branches
/// the compiler picked said as well.
fn flatten_when_clauses<
    A1: Fn(&Expr, bool) -> Expr,
    A2: Fn(&Expr, &Table<Number>, &Table<Number>, &Table<String>) -> Result<(Value, Vec<(Expr, String)>), String>,
    A3: Fn(Value, &Table<Number>, &Table<Number>, &Table<String>) -> Result<(Value, Vec<(Expr, String)>), String>,
    A4: Fn(&Value, &Value, &str) -> Result<Vec<EquationItem>, String>,
    A5: Fn(&Expr) -> String,
    A6: Fn(Option<&Expr>) -> String,
    A7: Fn(&Vec<&Statement>) -> Result<Ran, String>,
    A8: Fn(&ClassDef, &Vec<Expr>, &Vec<Vec<i64>>) -> Result<(Vec<(String, Expr)>, Vec<(Expr, String)>), String>,
    A9: Fn(&ClassDef, &Vec<Expr>, &Vec<Vec<i64>>) -> Result<(Vec<(Expr, String)>, Vec<(Expr, String)>), String>,
    B1: Fn(&str) -> bool,
    B2: Fn(&ClassDef) -> bool,
    W: Fn(Arith, Number, Number) -> Number,
    O: Fn(&str, &Vec<Number>) -> Option<Vec<Number>>,
    N: Fn(&str) -> String,
>(
    h: &Reading<A1, A2, A3, A4, A5, A6, A7, A8, A9, B1, B2>,
    sums: &Sums<W, O, N>,
    registry: &Registry,
    p: &Here,
    acc: Flat,
    own: &Vec<WhenClause>,
    more: &Vec<&WhenClause>,
) -> (r: Result<Flat, String>)
    requires
        reads_true(*h),
        is_steady(*sums),
        events_laid_out(own@),
        events_laid_out(pointed_whens(more@)),
    ensures
        told(r) == with_all_whens(
            desk_of(*h, *sums, registry@, p.deep_view()),
            acc.deep_view(),
            own@,
            pointed_whens(more@),
        ),
{
    match push_whens(h, sums, registry, p, acc, own) {
        Err(why) => Err(why),
        Ok(acc) => push_branch_whens(h, sums, registry, p, acc, more),
    }
}

/// A value said of a record-valued declaration: its name, the value, and
/// whether the value is already written in the terms of whoever supplied it.
pub open spec fn record_side(
    k: DeskV,
    acc: FlatV,
    wide: Map<Seq<char>, Seq<char>>,
    value: ExprV,
    supplied: bool,
) -> Result<(ValueV, FlatV), Seq<char>> {
    if supplied {
        made_of(k.h, acc, value, Map::empty(), k.p.consts, wide)
    } else {
        stands_for(k.h, k.p, acc, value)
    }
}

/// What was gathered with the first `n` values of record-valued declarations.
/// Where the two sides do not line up, the value is left where it was rather
/// than half-applied.
pub open spec fn with_records(
    k: DeskV,
    acc: FlatV,
    wide: Map<Seq<char>, Seq<char>>,
    list: Seq<(Seq<char>, ExprV, bool)>,
    n: nat,
) -> Result<FlatV, Seq<char>>
    decreases n,
{
    if n == 0 || n > list.len() {
        Ok(acc)
    } else {
        match with_records(k, acc, wide, list, (n - 1) as nat) {
            Err(why) => Err(why),
            Ok(before) => match stands_for(k.h, k.p, before, ExprV::Ref(list[n - 1].0)) {
                Err(why) => Err(why),
                Ok((lhs, acc)) => match record_side(k, acc, wide, list[n - 1].1, list[n - 1].2) {
                    Err(why) => Err(why),
                    Ok((rhs, acc)) => match with_pair(k.h, acc, lhs, rhs) {
                        Err(_) => Ok(acc),
                        Ok(made) => Ok(made),
                    },
                },
            },
        }
    }
}

proof fn lemma_with_records_stops(
    k: DeskV,
    acc: FlatV,
    wide: Map<Seq<char>, Seq<char>>,
    list: Seq<(Seq<char>, ExprV, bool)>,
    n: nat,
    all: nat,
)
    requires
        n <= all <= list.len(),
        with_records(k, acc, wide, list, n) is Err,
    ensures
        with_records(k, acc, wide, list, all) == with_records(k, acc, wide, list, n),
    decreases all,
{
    if n < all {
        lemma_with_records_stops(k, acc, wide, list, n, (all - 1) as nat);
    }
}

fn push_records<
    A1: Fn(&Expr, bool) -> Expr,
    A2: Fn(&Expr, &Table<Number>, &Table<Number>, &Table<String>) -> Result<(Value, Vec<(Expr, String)>), String>,
    A3: Fn(Value, &Table<Number>, &Table<Number>, &Table<String>) -> Result<(Value, Vec<(Expr, String)>), String>,
    A4: Fn(&Value, &Value, &str) -> Result<Vec<EquationItem>, String>,
    A5: Fn(&Expr) -> String,
    A6: Fn(Option<&Expr>) -> String,
    A7: Fn(&Vec<&Statement>) -> Result<Ran, String>,
    A8: Fn(&ClassDef, &Vec<Expr>, &Vec<Vec<i64>>) -> Result<(Vec<(String, Expr)>, Vec<(Expr, String)>), String>,
    A9: Fn(&ClassDef, &Vec<Expr>, &Vec<Vec<i64>>) -> Result<(Vec<(Expr, String)>, Vec<(Expr, String)>), String>,
    B1: Fn(&str) -> bool,
    B2: Fn(&ClassDef) -> bool,
    W: Fn(Arith, Number, Number) -> Number,
    O: Fn(&str, &Vec<Number>) -> Option<Vec<Number>>,
    N: Fn(&str) -> String,
>(
    h: &Reading<A1, A2, A3, A4, A5, A6, A7, A8, A9, B1, B2>,
    sums: &Sums<W, O, N>,
    registry: &Registry,
    p: &Here,
    acc: Flat,
    wide: &Table<String>,
    list: &Vec<(String, Expr, bool)>,
) -> (r: Result<Flat, String>)
    requires
        reads_true(*h),
        is_steady(*sums),
    ensures
        told(r) == with_records(
            desk_of(*h, *sums, registry@, p.deep_view()),
            acc.deep_view(),
            wide.deep_view(),
            list.deep_view(),
            list@.len(),
        ),
{
    let ghost k = desk_of(*h, *sums, registry@, p.deep_view());
    let ghost start = acc.deep_view();
    let ghost wv = wide.deep_view();
    let none: Table<Number> = Table::new();
    let mut now = acc;
    let mut i: usize = 0;
    while i < list.len()
        invariant
            i <= list.len(),
            reads_true(*h),
            wv == wide.deep_view(),
            none.deep_view() == Map::<Seq<char>, Number>::empty(),
            start == acc.deep_view(),
            k == desk_of(*h, *sums, registry@, p.deep_view()),
            with_records(k, start, wv, list.deep_view(), i as nat) == Ok::<FlatV, Seq<char>>(
                now.deep_view(),
            ),
        decreases list.len() - i,
    {
        proof {
            assert(list.deep_view().len() == list@.len());
            assert(list.deep_view()[i as int] == list@[i as int].deep_view());
            if with_records(k, start, wv, list.deep_view(), (i + 1) as nat) is Err {
                lemma_with_records_stops(
                    k,
                    start,
                    wv,
                    list.deep_view(),
                    (i + 1) as nat,
                    list@.len(),
                );
            }
        }
        let named = make::name(list[i].0.clone());
        let (lhs, next) = match expand_here(h, p, now, &named) {
            Ok(made) => made,
            Err(why) => return Err(why),
        };
        let read = if list[i].2 {
            make_of(h, next, &list[i].1, &none, &p.consts, wide)
        } else {
            expand_here(h, p, next, &list[i].1)
        };
        let (rhs, next) = match read {
            Ok(made) => made,
            Err(why) => return Err(why),
        };
        now = next;
        let ghost was = now.deep_view();
        if let Ok(mut made) = h.do_pair(&lhs, &rhs, now.origin.as_str()) {
            let ghost more = made.deep_view();
            now.equations.append(&mut made);
            assert(now.equations.deep_view() =~= was.equations + more);
        }
        i = i + 1;
    }
    Ok(now)
}

/// What was gathered with the first `n` equations of a class.
pub open spec fn with_lines(
    k: DeskV,
    acc: FlatV,
    list: Seq<EquationItem>,
    n: nat,
) -> Result<FlatV, Seq<char>>
    decreases n,
{
    if n == 0 || n > list.len() {
        Ok(acc)
    } else {
        match with_lines(k, acc, list, (n - 1) as nat) {
            Err(why) => Err(why),
            Ok(before) => with_line(
                k,
                before,
                list[n - 1].lhs.deep_view(),
                list[n - 1].rhs.deep_view(),
            ),
        }
    }
}

proof fn lemma_with_lines_stops(k: DeskV, acc: FlatV, list: Seq<EquationItem>, n: nat, all: nat)
    requires
        n <= all <= list.len(),
        with_lines(k, acc, list, n) is Err,
    ensures
        with_lines(k, acc, list, all) == with_lines(k, acc, list, n),
    decreases all,
{
    if n < all {
        lemma_with_lines_stops(k, acc, list, n, (all - 1) as nat);
    }
}

fn push_lines<
    A1: Fn(&Expr, bool) -> Expr,
    A2: Fn(&Expr, &Table<Number>, &Table<Number>, &Table<String>) -> Result<(Value, Vec<(Expr, String)>), String>,
    A3: Fn(Value, &Table<Number>, &Table<Number>, &Table<String>) -> Result<(Value, Vec<(Expr, String)>), String>,
    A4: Fn(&Value, &Value, &str) -> Result<Vec<EquationItem>, String>,
    A5: Fn(&Expr) -> String,
    A6: Fn(Option<&Expr>) -> String,
    A7: Fn(&Vec<&Statement>) -> Result<Ran, String>,
    A8: Fn(&ClassDef, &Vec<Expr>, &Vec<Vec<i64>>) -> Result<(Vec<(String, Expr)>, Vec<(Expr, String)>), String>,
    A9: Fn(&ClassDef, &Vec<Expr>, &Vec<Vec<i64>>) -> Result<(Vec<(Expr, String)>, Vec<(Expr, String)>), String>,
    B1: Fn(&str) -> bool,
    B2: Fn(&ClassDef) -> bool,
    W: Fn(Arith, Number, Number) -> Number,
    O: Fn(&str, &Vec<Number>) -> Option<Vec<Number>>,
    N: Fn(&str) -> String,
>(
    h: &Reading<A1, A2, A3, A4, A5, A6, A7, A8, A9, B1, B2>,
    sums: &Sums<W, O, N>,
    registry: &Registry,
    p: &Here,
    acc: Flat,
    list: &Vec<EquationItem>,
) -> (r: Result<Flat, String>)
    requires
        reads_true(*h),
        is_steady(*sums),
    ensures
        told(r) == with_lines(
            desk_of(*h, *sums, registry@, p.deep_view()),
            acc.deep_view(),
            list@,
            list@.len(),
        ),
{
    let ghost k = desk_of(*h, *sums, registry@, p.deep_view());
    let ghost start = acc.deep_view();
    let mut now = acc;
    let mut i: usize = 0;
    while i < list.len()
        invariant
            i <= list.len(),
            reads_true(*h),
            is_steady(*sums),
            k == desk_of(*h, *sums, registry@, p.deep_view()),
            start == acc.deep_view(),
            with_lines(k, start, list@, i as nat) == Ok::<FlatV, Seq<char>>(now.deep_view()),
        decreases list.len() - i,
    {
        proof {
            if with_lines(k, start, list@, (i + 1) as nat) is Err {
                lemma_with_lines_stops(k, start, list@, (i + 1) as nat, list@.len());
            }
        }
        let one = &list[i];
        match push_line(h, sums, registry, p, now, &one.lhs, &one.rhs) {
            Err(why) => return Err(why),
            Ok(next) => {
                now = next;
            },
        }
        i = i + 1;
    }
    Ok(now)
}

/// What was gathered with a check of the class.
pub open spec fn with_class_check(
    k: DeskV,
    acc: FlatV,
    condition: ExprV,
    message: Seq<char>,
) -> Result<
    FlatV,
    Seq<char>,
> {
    match comes_to(k.h, k.p, acc, condition) {
        Err(why) => Err(why),
        Ok((condition, acc)) => Ok(with_check(acc, condition, message)),
    }
}

fn push_class_check<
    A1: Fn(&Expr, bool) -> Expr,
    A2: Fn(&Expr, &Table<Number>, &Table<Number>, &Table<String>) -> Result<(Value, Vec<(Expr, String)>), String>,
    A3: Fn(Value, &Table<Number>, &Table<Number>, &Table<String>) -> Result<(Value, Vec<(Expr, String)>), String>,
    A4: Fn(&Value, &Value, &str) -> Result<Vec<EquationItem>, String>,
    A5: Fn(&Expr) -> String,
    A6: Fn(Option<&Expr>) -> String,
    A7: Fn(&Vec<&Statement>) -> Result<Ran, String>,
    A8: Fn(&ClassDef, &Vec<Expr>, &Vec<Vec<i64>>) -> Result<(Vec<(String, Expr)>, Vec<(Expr, String)>), String>,
    A9: Fn(&ClassDef, &Vec<Expr>, &Vec<Vec<i64>>) -> Result<(Vec<(Expr, String)>, Vec<(Expr, String)>), String>,
    B1: Fn(&str) -> bool,
    B2: Fn(&ClassDef) -> bool,
    W: Fn(Arith, Number, Number) -> Number,
    O: Fn(&str, &Vec<Number>) -> Option<Vec<Number>>,
    N: Fn(&str) -> String,
>(
    h: &Reading<A1, A2, A3, A4, A5, A6, A7, A8, A9, B1, B2>,
    sums: &Sums<W, O, N>,
    registry: &Registry,
    p: &Here,
    acc: Flat,
    condition: &Expr,
    message: &String,
) -> (r: Result<Flat, String>)
    requires
        reads_true(*h),
        is_steady(*sums),
    ensures
        told(r) == with_class_check(
            desk_of(*h, *sums, registry@, p.deep_view()),
            acc.deep_view(),
            condition.deep_view(),
            message@,
        ),
{
    match resolve_here(h, p, acc, condition) {
        Err(why) => Err(why),
        Ok((condition, acc)) => Ok(push_check(acc, condition, message.clone())),
    }
}

/// What was gathered with the first `n` checks of a class.
pub open spec fn with_class_checks(
    k: DeskV,
    acc: FlatV,
    list: Seq<(Expr, String)>,
    n: nat,
) -> Result<FlatV, Seq<char>>
    decreases n,
{
    if n == 0 || n > list.len() {
        Ok(acc)
    } else {
        match with_class_checks(k, acc, list, (n - 1) as nat) {
            Err(why) => Err(why),
            Ok(before) => with_class_check(k, before, list[n - 1].0.deep_view(), list[n - 1].1@),
        }
    }
}

proof fn lemma_with_class_checks_stops(
    k: DeskV,
    acc: FlatV,
    list: Seq<(Expr, String)>,
    n: nat,
    all: nat,
)
    requires
        n <= all <= list.len(),
        with_class_checks(k, acc, list, n) is Err,
    ensures
        with_class_checks(k, acc, list, all) == with_class_checks(k, acc, list, n),
    decreases all,
{
    if n < all {
        lemma_with_class_checks_stops(k, acc, list, n, (all - 1) as nat);
    }
}

fn push_class_checks<
    A1: Fn(&Expr, bool) -> Expr,
    A2: Fn(&Expr, &Table<Number>, &Table<Number>, &Table<String>) -> Result<(Value, Vec<(Expr, String)>), String>,
    A3: Fn(Value, &Table<Number>, &Table<Number>, &Table<String>) -> Result<(Value, Vec<(Expr, String)>), String>,
    A4: Fn(&Value, &Value, &str) -> Result<Vec<EquationItem>, String>,
    A5: Fn(&Expr) -> String,
    A6: Fn(Option<&Expr>) -> String,
    A7: Fn(&Vec<&Statement>) -> Result<Ran, String>,
    A8: Fn(&ClassDef, &Vec<Expr>, &Vec<Vec<i64>>) -> Result<(Vec<(String, Expr)>, Vec<(Expr, String)>), String>,
    A9: Fn(&ClassDef, &Vec<Expr>, &Vec<Vec<i64>>) -> Result<(Vec<(Expr, String)>, Vec<(Expr, String)>), String>,
    B1: Fn(&str) -> bool,
    B2: Fn(&ClassDef) -> bool,
    W: Fn(Arith, Number, Number) -> Number,
    O: Fn(&str, &Vec<Number>) -> Option<Vec<Number>>,
    N: Fn(&str) -> String,
>(
    h: &Reading<A1, A2, A3, A4, A5, A6, A7, A8, A9, B1, B2>,
    sums: &Sums<W, O, N>,
    registry: &Registry,
    p: &Here,
    acc: Flat,
    list: &Vec<(Expr, String)>,
) -> (r: Result<Flat, String>)
    requires
        reads_true(*h),
        is_steady(*sums),
    ensures
        told(r) == with_class_checks(
            desk_of(*h, *sums, registry@, p.deep_view()),
            acc.deep_view(),
            list@,
            list@.len(),
        ),
{
    let ghost k = desk_of(*h, *sums, registry@, p.deep_view());
    let ghost start = acc.deep_view();
    let mut now = acc;
    let mut i: usize = 0;
    while i < list.len()
        invariant
            i <= list.len(),
            reads_true(*h),
            is_steady(*sums),
            k == desk_of(*h, *sums, registry@, p.deep_view()),
            start == acc.deep_view(),
            with_class_checks(k, start, list@, i as nat) == Ok::<FlatV, Seq<char>>(now.deep_view()),
        decreases list.len() - i,
    {
        proof {
            if with_class_checks(k, start, list@, (i + 1) as nat) is Err {
                lemma_with_class_checks_stops(k, start, list@, (i + 1) as nat, list@.len());
            }
        }
        let one = &list[i];
        match push_class_check(h, sums, registry, p, now, &one.0, &one.1) {
            Err(why) => return Err(why),
            Ok(next) => {
                now = next;
            },
        }
        i = i + 1;
    }
    Ok(now)
}

/// What was gathered with an arrow of a state machine, which names instances
/// of this class.
pub open spec fn with_arrow(k: DeskV, acc: FlatV, arrow: Transition) -> Result<FlatV, Seq<char>> {
    match comes_to(k.h, k.p, acc, arrow.condition.deep_view()) {
        Err(why) => Err(why),
        Ok((condition, acc)) => Ok(
            FlatV {
                transitions: acc.transitions.push(
                    TransitionV {
                        from: flat_of(arrow.from@, k.p.naming),
                        to: flat_of(arrow.to@, k.p.naming),
                        condition,
                        reset: arrow.reset,
                        immediate: arrow.immediate,
                        synchronize: arrow.synchronize,
                        priority: arrow.priority,
                    },
                ),
                ..acc
            },
        ),
    }
}

fn push_arrow<
    A1: Fn(&Expr, bool) -> Expr,
    A2: Fn(&Expr, &Table<Number>, &Table<Number>, &Table<String>) -> Result<(Value, Vec<(Expr, String)>), String>,
    A3: Fn(Value, &Table<Number>, &Table<Number>, &Table<String>) -> Result<(Value, Vec<(Expr, String)>), String>,
    A4: Fn(&Value, &Value, &str) -> Result<Vec<EquationItem>, String>,
    A5: Fn(&Expr) -> String,
    A6: Fn(Option<&Expr>) -> String,
    A7: Fn(&Vec<&Statement>) -> Result<Ran, String>,
    A8: Fn(&ClassDef, &Vec<Expr>, &Vec<Vec<i64>>) -> Result<(Vec<(String, Expr)>, Vec<(Expr, String)>), String>,
    A9: Fn(&ClassDef, &Vec<Expr>, &Vec<Vec<i64>>) -> Result<(Vec<(Expr, String)>, Vec<(Expr, String)>), String>,
    B1: Fn(&str) -> bool,
    B2: Fn(&ClassDef) -> bool,
    W: Fn(Arith, Number, Number) -> Number,
    O: Fn(&str, &Vec<Number>) -> Option<Vec<Number>>,
    N: Fn(&str) -> String,
>(
    h: &Reading<A1, A2, A3, A4, A5, A6, A7, A8, A9, B1, B2>,
    sums: &Sums<W, O, N>,
    registry: &Registry,
    p: &Here,
    acc: Flat,
    arrow: &Transition,
) -> (r: Result<Flat, String>)
    requires
        reads_true(*h),
        is_steady(*sums),
    ensures
        told(r) == with_arrow(
            desk_of(*h, *sums, registry@, p.deep_view()),
            acc.deep_view(),
            *arrow,
        ),
{
    match resolve_here(h, p, acc, &arrow.condition) {
        Err(why) => Err(why),
        Ok((condition, acc)) => {
            let mut acc = acc;
            let made = Transition {
                from: flat_name(arrow.from.as_str(), &p.naming),
                to: flat_name(arrow.to.as_str(), &p.naming),
                condition,
                reset: arrow.reset,
                immediate: arrow.immediate,
                synchronize: arrow.synchronize,
                priority: arrow.priority,
            };
            let ghost was = acc.deep_view();
            let ghost mv = made.deep_view();
            acc.transitions.push(made);
            assert(acc.transitions.deep_view() =~= was.transitions.push(mv));
            Ok(acc)
        },
    }
}

/// What was gathered with the first `n` arrows of a class.
pub open spec fn with_arrows(
    k: DeskV,
    acc: FlatV,
    list: Seq<Transition>,
    n: nat,
) -> Result<FlatV, Seq<char>>
    decreases n,
{
    if n == 0 || n > list.len() {
        Ok(acc)
    } else {
        match with_arrows(k, acc, list, (n - 1) as nat) {
            Err(why) => Err(why),
            Ok(before) => with_arrow(k, before, list[n - 1]),
        }
    }
}

proof fn lemma_with_arrows_stops(k: DeskV, acc: FlatV, list: Seq<Transition>, n: nat, all: nat)
    requires
        n <= all <= list.len(),
        with_arrows(k, acc, list, n) is Err,
    ensures
        with_arrows(k, acc, list, all) == with_arrows(k, acc, list, n),
    decreases all,
{
    if n < all {
        lemma_with_arrows_stops(k, acc, list, n, (all - 1) as nat);
    }
}

fn push_arrows<
    A1: Fn(&Expr, bool) -> Expr,
    A2: Fn(&Expr, &Table<Number>, &Table<Number>, &Table<String>) -> Result<(Value, Vec<(Expr, String)>), String>,
    A3: Fn(Value, &Table<Number>, &Table<Number>, &Table<String>) -> Result<(Value, Vec<(Expr, String)>), String>,
    A4: Fn(&Value, &Value, &str) -> Result<Vec<EquationItem>, String>,
    A5: Fn(&Expr) -> String,
    A6: Fn(Option<&Expr>) -> String,
    A7: Fn(&Vec<&Statement>) -> Result<Ran, String>,
    A8: Fn(&ClassDef, &Vec<Expr>, &Vec<Vec<i64>>) -> Result<(Vec<(String, Expr)>, Vec<(Expr, String)>), String>,
    A9: Fn(&ClassDef, &Vec<Expr>, &Vec<Vec<i64>>) -> Result<(Vec<(Expr, String)>, Vec<(Expr, String)>), String>,
    B1: Fn(&str) -> bool,
    B2: Fn(&ClassDef) -> bool,
    W: Fn(Arith, Number, Number) -> Number,
    O: Fn(&str, &Vec<Number>) -> Option<Vec<Number>>,
    N: Fn(&str) -> String,
>(
    h: &Reading<A1, A2, A3, A4, A5, A6, A7, A8, A9, B1, B2>,
    sums: &Sums<W, O, N>,
    registry: &Registry,
    p: &Here,
    acc: Flat,
    list: &Vec<Transition>,
) -> (r: Result<Flat, String>)
    requires
        reads_true(*h),
        is_steady(*sums),
    ensures
        told(r) == with_arrows(
            desk_of(*h, *sums, registry@, p.deep_view()),
            acc.deep_view(),
            list@,
            list@.len(),
        ),
{
    let ghost k = desk_of(*h, *sums, registry@, p.deep_view());
    let ghost start = acc.deep_view();
    let mut now = acc;
    let mut i: usize = 0;
    while i < list.len()
        invariant
            i <= list.len(),
            reads_true(*h),
            is_steady(*sums),
            k == desk_of(*h, *sums, registry@, p.deep_view()),
            start == acc.deep_view(),
            with_arrows(k, start, list@, i as nat) == Ok::<FlatV, Seq<char>>(now.deep_view()),
        decreases list.len() - i,
    {
        proof {
            if with_arrows(k, start, list@, (i + 1) as nat) is Err {
                lemma_with_arrows_stops(k, start, list@, (i + 1) as nat, list@.len());
            }
        }
        let one = &list[i];
        match push_arrow(h, sums, registry, p, now, one) {
            Err(why) => return Err(why),
            Ok(next) => {
                now = next;
            },
        }
        i = i + 1;
    }
    Ok(now)
}

/// What was gathered with an initial equation of the class.
pub open spec fn with_initial(k: DeskV, acc: FlatV, lhs: ExprV, rhs: ExprV) -> Result<
    FlatV,
    Seq<char>,
> {
    match stands_for(k.h, k.p, acc, lhs) {
        Err(why) => Err(why),
        Ok((left, acc)) => match stands_for(k.h, k.p, acc, rhs) {
            Err(why) => Err(why),
            Ok((right, acc)) => if scalars(left).len() != scalars(right).len() {
                Err("an initial equation between shapes that do not match"@)
            } else {
                Ok(
                    FlatV {
                        initial_equations: acc.initial_equations + zipped(
                            scalars(left),
                            scalars(right),
                            Seq::empty(),
                        ),
                        ..acc
                    },
                )
            },
        },
    }
}

fn push_initial<
    A1: Fn(&Expr, bool) -> Expr,
    A2: Fn(&Expr, &Table<Number>, &Table<Number>, &Table<String>) -> Result<(Value, Vec<(Expr, String)>), String>,
    A3: Fn(Value, &Table<Number>, &Table<Number>, &Table<String>) -> Result<(Value, Vec<(Expr, String)>), String>,
    A4: Fn(&Value, &Value, &str) -> Result<Vec<EquationItem>, String>,
    A5: Fn(&Expr) -> String,
    A6: Fn(Option<&Expr>) -> String,
    A7: Fn(&Vec<&Statement>) -> Result<Ran, String>,
    A8: Fn(&ClassDef, &Vec<Expr>, &Vec<Vec<i64>>) -> Result<(Vec<(String, Expr)>, Vec<(Expr, String)>), String>,
    A9: Fn(&ClassDef, &Vec<Expr>, &Vec<Vec<i64>>) -> Result<(Vec<(Expr, String)>, Vec<(Expr, String)>), String>,
    B1: Fn(&str) -> bool,
    B2: Fn(&ClassDef) -> bool,
    W: Fn(Arith, Number, Number) -> Number,
    O: Fn(&str, &Vec<Number>) -> Option<Vec<Number>>,
    N: Fn(&str) -> String,
>(
    h: &Reading<A1, A2, A3, A4, A5, A6, A7, A8, A9, B1, B2>,
    sums: &Sums<W, O, N>,
    registry: &Registry,
    p: &Here,
    acc: Flat,
    lhs: &Expr,
    rhs: &Expr,
) -> (r: Result<Flat, String>)
    requires
        reads_true(*h),
        is_steady(*sums),
    ensures
        told(r) == with_initial(
            desk_of(*h, *sums, registry@, p.deep_view()),
            acc.deep_view(),
            lhs.deep_view(),
            rhs.deep_view(),
        ),
{
    let (left, acc) = match expand_here(h, p, acc, lhs) {
        Ok(made) => made,
        Err(why) => return Err(why),
    };
    let (right, mut acc) = match expand_here(h, p, acc, rhs) {
        Ok(made) => made,
        Err(why) => return Err(why),
    };
    let mut a: Vec<Expr> = Vec::new();
    let mut b: Vec<Expr> = Vec::new();
    left.flatten_into(&mut a);
    right.flatten_into(&mut b);
    assert(a.deep_view() =~= scalars(left.deep_view()));
    assert(b.deep_view() =~= scalars(right.deep_view()));
    assert(a.deep_view().len() == a@.len());
    assert(b.deep_view().len() == b@.len());
    if a.len() != b.len() {
        return Err("an initial equation between shapes that do not match".to_owned());
    }
    let none = String::new();
    assert(none@ =~= Seq::empty());
    zip_up(&a, &b, none.as_str(), &mut acc.initial_equations);
    Ok(acc)
}

/// What was gathered with the first `n` initial equations of a class.
pub open spec fn with_initials(
    k: DeskV,
    acc: FlatV,
    list: Seq<EquationItem>,
    n: nat,
) -> Result<FlatV, Seq<char>>
    decreases n,
{
    if n == 0 || n > list.len() {
        Ok(acc)
    } else {
        match with_initials(k, acc, list, (n - 1) as nat) {
            Err(why) => Err(why),
            Ok(before) => with_initial(
                k,
                before,
                list[n - 1].lhs.deep_view(),
                list[n - 1].rhs.deep_view(),
            ),
        }
    }
}

proof fn lemma_with_initials_stops(k: DeskV, acc: FlatV, list: Seq<EquationItem>, n: nat, all: nat)
    requires
        n <= all <= list.len(),
        with_initials(k, acc, list, n) is Err,
    ensures
        with_initials(k, acc, list, all) == with_initials(k, acc, list, n),
    decreases all,
{
    if n < all {
        lemma_with_initials_stops(k, acc, list, n, (all - 1) as nat);
    }
}

fn push_initials<
    A1: Fn(&Expr, bool) -> Expr,
    A2: Fn(&Expr, &Table<Number>, &Table<Number>, &Table<String>) -> Result<(Value, Vec<(Expr, String)>), String>,
    A3: Fn(Value, &Table<Number>, &Table<Number>, &Table<String>) -> Result<(Value, Vec<(Expr, String)>), String>,
    A4: Fn(&Value, &Value, &str) -> Result<Vec<EquationItem>, String>,
    A5: Fn(&Expr) -> String,
    A6: Fn(Option<&Expr>) -> String,
    A7: Fn(&Vec<&Statement>) -> Result<Ran, String>,
    A8: Fn(&ClassDef, &Vec<Expr>, &Vec<Vec<i64>>) -> Result<(Vec<(String, Expr)>, Vec<(Expr, String)>), String>,
    A9: Fn(&ClassDef, &Vec<Expr>, &Vec<Vec<i64>>) -> Result<(Vec<(Expr, String)>, Vec<(Expr, String)>), String>,
    B1: Fn(&str) -> bool,
    B2: Fn(&ClassDef) -> bool,
    W: Fn(Arith, Number, Number) -> Number,
    O: Fn(&str, &Vec<Number>) -> Option<Vec<Number>>,
    N: Fn(&str) -> String,
>(
    h: &Reading<A1, A2, A3, A4, A5, A6, A7, A8, A9, B1, B2>,
    sums: &Sums<W, O, N>,
    registry: &Registry,
    p: &Here,
    acc: Flat,
    list: &Vec<EquationItem>,
) -> (r: Result<Flat, String>)
    requires
        reads_true(*h),
        is_steady(*sums),
    ensures
        told(r) == with_initials(
            desk_of(*h, *sums, registry@, p.deep_view()),
            acc.deep_view(),
            list@,
            list@.len(),
        ),
{
    let ghost k = desk_of(*h, *sums, registry@, p.deep_view());
    let ghost start = acc.deep_view();
    let mut now = acc;
    let mut i: usize = 0;
    while i < list.len()
        invariant
            i <= list.len(),
            reads_true(*h),
            is_steady(*sums),
            k == desk_of(*h, *sums, registry@, p.deep_view()),
            start == acc.deep_view(),
            with_initials(k, start, list@, i as nat) == Ok::<FlatV, Seq<char>>(now.deep_view()),
        decreases list.len() - i,
    {
        proof {
            if with_initials(k, start, list@, (i + 1) as nat) is Err {
                lemma_with_initials_stops(k, start, list@, (i + 1) as nat, list@.len());
            }
        }
        let one = &list[i];
        match push_initial(h, sums, registry, p, now, &one.lhs, &one.rhs) {
            Err(why) => return Err(why),
            Ok(next) => {
                now = next;
            },
        }
        i = i + 1;
    }
    Ok(now)
}

/// A clause of the connection graph with its nodes named in full.
pub open spec fn clause_named(k: DeskV, clause: GraphClauseV) -> GraphClauseV {
    match clause {
        GraphClauseV::Root(node) => GraphClauseV::Root(flat_of(node, k.p.naming)),
        GraphClauseV::PotentialRoot(node, priority) => GraphClauseV::PotentialRoot(
            flat_of(node, k.p.naming),
            priority,
        ),
        GraphClauseV::Branch(a, b) => GraphClauseV::Branch(
            flat_of(a, k.p.naming),
            flat_of(b, k.p.naming),
        ),
    }
}

/// What was gathered with clauses of the connection graph.
pub open spec fn with_clauses(k: DeskV, acc: FlatV, list: Seq<GraphClauseV>) -> FlatV {
    FlatV {
        connection_graph: acc.connection_graph + Seq::new(
            list.len(),
            |i: int| clause_named(k, list[i]),
        ),
        ..acc
    }
}

fn name_clause(p: &Here, clause: &GraphClause, k: Ghost<DeskV>) -> (r: GraphClause)
    requires
        k@.p == p.deep_view(),
    ensures
        r.deep_view() == clause_named(k@, clause.deep_view()),
{
    match clause {
        GraphClause::Root(node) => GraphClause::Root(flat_name(node.as_str(), &p.naming)),
        GraphClause::PotentialRoot(node, priority) => GraphClause::PotentialRoot(
            flat_name(node.as_str(), &p.naming),
            *priority,
        ),
        GraphClause::Branch(a, b) => GraphClause::Branch(
            flat_name(a.as_str(), &p.naming),
            flat_name(b.as_str(), &p.naming),
        ),
    }
}

fn push_clauses(p: &Here, acc: Flat, list: &Vec<&GraphClause>, k: Ghost<DeskV>) -> (r: Flat)
    requires
        k@.p == p.deep_view(),
    ensures
        r.deep_view() == with_clauses(k@, acc.deep_view(), pointed_clauses(list@)),
{
    let ghost start = acc.deep_view();
    let ghost all = pointed_clauses(list@);
    let ghost whole = Seq::new(all.len(), |i: int| clause_named(k@, all[i]));
    let mut acc = acc;
    let mut i: usize = 0;
    assert(acc.connection_graph.deep_view() =~= start.connection_graph + whole.take(0));
    assert(acc.deep_view() == (FlatV {
        connection_graph: start.connection_graph + whole.take(0),
        ..start
    }));
    while i < list.len()
        invariant
            i <= list.len(),
            k@.p == p.deep_view(),
            all == pointed_clauses(list@),
            whole == Seq::new(all.len(), |i: int| clause_named(k@, all[i])),
            acc.deep_view() == (FlatV {
                connection_graph: start.connection_graph + whole.take(i as int),
                ..start
            }),
        decreases list.len() - i,
    {
        let ghost before = acc.connection_graph.deep_view();
        assert(all[i as int] == list@[i as int].deep_view());
        let one = name_clause(p, list[i], k);
        acc.connection_graph.push(one);
        assert(acc.connection_graph.deep_view() =~= before.push(whole[i as int]));
        assert(acc.connection_graph.deep_view() =~= start.connection_graph + whole.take(i + 1));
        i = i + 1;
    }
    assert(whole.take(i as int) =~= whole);
    acc
}

/// What one side of a `connect` is called, where it is a plain name.
pub open spec fn side_name(e: ExprV) -> Option<Seq<char>>
    decreases e,
{
    match e {
        ExprV::Ref(name) => Some(name),
        ExprV::Member(base, member) => match side_name(*base) {
            Some(name) => Some(name + "."@ + member),
            None => None,
        },
        _ => None,
    }
}

/// What one side of a `connect` is called, where it is a plain name.
pub fn connect_side_name(e: &Expr) -> (r: Option<String>)
    ensures
        r.deep_view() == side_name(e.deep_view()),
    decreases e.deep_view(),
{
    match e {
        Expr::Ref(name) => Some(name.clone()),
        Expr::Member(base, member) => {
            assert((**base).deep_view() == expr_view(**base));
            match connect_side_name(base) {
                Some(name) => Some(join3(name.as_str(), ".", member.as_str())),
                None => None,
            }
        },
        _ => None,
    }
}

/// Whether `break connect(a, b)` drops a connection, in either order.
pub open spec fn breaks_off(item: Deselect, a: Option<Seq<char>>, b: Option<Seq<char>>) -> bool {
    match item {
        Deselect::Connection(x, y) => (a == Some(x@) && b == Some(y@)) || (b == Some(x@) && a
            == Some(y@)),
        _ => false,
    }
}

/// The first of what a selective `extends` leaves out, from the `i`-th on,
/// that drops a connection.
pub open spec fn broken_off(
    list: Seq<Deselect>,
    a: Option<Seq<char>>,
    b: Option<Seq<char>>,
    i: nat,
) -> Option<nat>
    decreases list.len() - i,
{
    if i >= list.len() {
        None
    } else if breaks_off(list[i as int], a, b) {
        Some(i)
    } else {
        broken_off(list, a, b, i + 1)
    }
}

fn is_called(name: &Option<String>, text: &str) -> (r: bool)
    ensures
        r == (name.deep_view() == Some(text@)),
{
    match name {
        Some(name) => same(name.as_str(), text),
        None => false,
    }
}

fn find_broken(list: &Vec<Deselect>, a: &Option<String>, b: &Option<String>) -> (r: Option<usize>)
    ensures
        match r {
            Some(at) => broken_off(list@, a.deep_view(), b.deep_view(), 0) == Some(at as nat) && at
                < list@.len(),
            None => broken_off(list@, a.deep_view(), b.deep_view(), 0) is None,
        },
{
    let ghost av = a.deep_view();
    let ghost bv = b.deep_view();
    let mut i: usize = 0;
    while i < list.len()
        invariant
            i <= list.len(),
            av == a.deep_view(),
            bv == b.deep_view(),
            broken_off(list@, av, bv, 0) == broken_off(list@, av, bv, i as nat),
        decreases list.len() - i,
    {
        if let Deselect::Connection(x, y) = &list[i] {
            if (is_called(a, x.as_str()) && is_called(b, y.as_str())) || (is_called(b, x.as_str())
                && is_called(a, y.as_str())) {
                return Some(i);
            }
        }
        i = i + 1;
    }
    None
}

/// What was gathered with the first `n` connections of a class, and which of
/// what a selective `extends` leaves out was found.
pub open spec fn with_connects(
    k: DeskV,
    acc: FlatV,
    broken: Seq<Deselect>,
    found: Seq<bool>,
    list: Seq<(Expr, Expr)>,
    n: nat,
) -> Result<(FlatV, Seq<bool>), Seq<char>>
    decreases n,
{
    if n == 0 || n > list.len() {
        Ok((acc, found))
    } else {
        match with_connects(k, acc, broken, found, list, (n - 1) as nat) {
            Err(why) => Err(why),
            Ok((before, found)) => {
                let a = list[n - 1].0.deep_view();
                let b = list[n - 1].1.deep_view();
                match broken_off(broken, side_name(a), side_name(b), 0) {
                    Some(at) => Ok((before, found.update(at as int, true))),
                    None => match with_connect(
                        k.h,
                        k.p,
                        before,
                        a,
                        b,
                        Map::empty(),
                        k.p.consts,
                        Map::empty(),
                    ) {
                        Err(why) => Err(why),
                        Ok(acc) => Ok((acc, found)),
                    },
                }
            },
        }
    }
}

proof fn lemma_with_connects_stops(
    k: DeskV,
    acc: FlatV,
    broken: Seq<Deselect>,
    found: Seq<bool>,
    list: Seq<(Expr, Expr)>,
    n: nat,
    all: nat,
)
    requires
        n <= all <= list.len(),
        with_connects(k, acc, broken, found, list, n) is Err,
    ensures
        with_connects(
            k,
            acc,
            broken,
            found,
            list,
            all,
        ) == with_connects(k, acc, broken, found, list, n),
    decreases all,
{
    if n < all {
        lemma_with_connects_stops(k, acc, broken, found, list, n, (all - 1) as nat);
    }
}

fn push_connects_of<
    A1: Fn(&Expr, bool) -> Expr,
    A2: Fn(&Expr, &Table<Number>, &Table<Number>, &Table<String>) -> Result<(Value, Vec<(Expr, String)>), String>,
    A3: Fn(Value, &Table<Number>, &Table<Number>, &Table<String>) -> Result<(Value, Vec<(Expr, String)>), String>,
    A4: Fn(&Value, &Value, &str) -> Result<Vec<EquationItem>, String>,
    A5: Fn(&Expr) -> String,
    A6: Fn(Option<&Expr>) -> String,
    A7: Fn(&Vec<&Statement>) -> Result<Ran, String>,
    A8: Fn(&ClassDef, &Vec<Expr>, &Vec<Vec<i64>>) -> Result<(Vec<(String, Expr)>, Vec<(Expr, String)>), String>,
    A9: Fn(&ClassDef, &Vec<Expr>, &Vec<Vec<i64>>) -> Result<(Vec<(Expr, String)>, Vec<(Expr, String)>), String>,
    B1: Fn(&str) -> bool,
    B2: Fn(&ClassDef) -> bool,
    W: Fn(Arith, Number, Number) -> Number,
    O: Fn(&str, &Vec<Number>) -> Option<Vec<Number>>,
    N: Fn(&str) -> String,
>(
    h: &Reading<A1, A2, A3, A4, A5, A6, A7, A8, A9, B1, B2>,
    sums: &Sums<W, O, N>,
    registry: &Registry,
    p: &Here,
    acc: Flat,
    broken: &Vec<Deselect>,
    found: &mut Vec<bool>,
    list: &Vec<(Expr, Expr)>,
) -> (r: Result<Flat, String>)
    requires
        reads_true(*h),
        is_steady(*sums),
        old(found)@.len() == broken@.len(),
    ensures
        match with_connects(
            desk_of(*h, *sums, registry@, p.deep_view()),
            acc.deep_view(),
            broken@,
            old(found)@,
            list@,
            list@.len(),
        ) {
            Err(trouble) => r matches Err(why) && why@ == trouble,
            Ok(made) => r matches Ok(acc) && acc.deep_view() == made.0 && final(found)@ == made.1,
        },
{
    let ghost k = desk_of(*h, *sums, registry@, p.deep_view());
    let ghost start = acc.deep_view();
    let ghost first = found@;
    let none: Table<Number> = Table::new();
    let no_records: Table<String> = Table::new();
    let mut now = acc;
    let mut i: usize = 0;
    while i < list.len()
        invariant
            i <= list.len(),
            reads_true(*h),
            is_steady(*sums),
            found@.len() == broken@.len(),
            first == old(found)@,
            start == acc.deep_view(),
            none.deep_view() == Map::<Seq<char>, Number>::empty(),
            no_records.deep_view() == Map::<Seq<char>, Seq<char>>::empty(),
            k == desk_of(*h, *sums, registry@, p.deep_view()),
            with_connects(k, start, broken@, first, list@, i as nat) == Ok::<
                (FlatV, Seq<bool>),
                Seq<char>,
            >((now.deep_view(), found@)),
        decreases list.len() - i,
    {
        proof {
            if with_connects(k, start, broken@, first, list@, (i + 1) as nat) is Err {
                lemma_with_connects_stops(
                    k,
                    start,
                    broken@,
                    first,
                    list@,
                    (i + 1) as nat,
                    list@.len(),
                );
            }
        }
        let a = connect_side_name(&list[i].0);
        let b = connect_side_name(&list[i].1);
        match find_broken(broken, &a, &b) {
            Some(at) => {
                found.set(at, true);
            },
            None => match push_connects(
                h,
                p,
                now,
                &list[i].0,
                &list[i].1,
                &none,
                &p.consts,
                &no_records,
            ) {
                Err(why) => return Err(why),
                Ok(next) => {
                    now = next;
                },
            },
        }
        i = i + 1;
    }
    Ok(now)
}

/// Whether every `if` of a class has its `else` last.
pub open spec fn class_laid_out(class: ClassDef) -> bool {
    &&& all_laid_out(class.for_equations@)
    &&& choices_laid_out(class.if_equations@)
    &&& events_laid_out(class.when_clauses@)
    &&& branch_events_laid_out(class.if_equations@)
}

pub open spec fn branch_events_laid_out(list: Seq<IfEquation>) -> bool {
    forall|i: int, j: int|
        0 <= i < list.len() && 0 <= j < list[i].branches@.len() ==> events_laid_out(
            (#[trigger] list[i].branches@[j]).whens@,
        )
}

/// Whether every `if` of a class has its `else` last.
pub fn is_class_laid_out(class: &ClassDef) -> (r: bool)
    ensures
        r == class_laid_out(*class),
{
    are_loops_laid_out(&class.for_equations) && are_choices_laid_out(&class.if_equations)
        && are_events_laid_out(&class.when_clauses) && are_branch_events_laid_out(
        &class.if_equations,
    )
}

fn are_choices_laid_out(list: &Vec<IfEquation>) -> (r: bool)
    ensures
        r == choices_laid_out(list@),
{
    let mut i: usize = 0;
    while i < list.len()
        invariant
            i <= list.len(),
            forall|k: int| 0 <= k < i ==> choice_laid_out(#[trigger] list@[k]),
        decreases list.len() - i,
    {
        if !is_choice_laid_out(&list[i]) {
            assert(!choice_laid_out(list@[i as int]));
            return false;
        }
        i = i + 1;
    }
    true
}

fn are_actions_laid_out(list: &Vec<WhenAction>) -> (r: bool)
    ensures
        r == (forall|j: int| 0 <= j < list@.len() ==> action_laid_out(#[trigger] list@[j])),
{
    let mut i: usize = 0;
    while i < list.len()
        invariant
            i <= list.len(),
            forall|k: int| 0 <= k < i ==> action_laid_out(#[trigger] list@[k]),
        decreases list.len() - i,
    {
        if let WhenAction::Loop(l) = &list[i] {
            if !is_loop_laid_out(l) {
                assert(!action_laid_out(list@[i as int]));
                return false;
            }
        }
        i = i + 1;
    }
    true
}

fn is_event_laid_out(clause: &WhenClause) -> (r: bool)
    ensures
        r == event_laid_out(*clause),
{
    let mut i: usize = 0;
    while i < clause.branches.len()
        invariant
            i <= clause.branches.len(),
            forall|k: int, j: int|
                0 <= k < i && 0 <= j < clause.branches@[k].actions@.len() ==> action_laid_out(
                    #[trigger] clause.branches@[k].actions@[j],
                ),
        decreases clause.branches.len() - i,
    {
        if !are_actions_laid_out(&clause.branches[i].actions) {
            let ghost list = clause.branches@[i as int].actions@;
            let ghost j = choose|j: int| 0 <= j < list.len() && !action_laid_out(
                #[trigger] list[j],
            );
            assert(!action_laid_out(clause.branches@[i as int].actions@[j]));
            return false;
        }
        i = i + 1;
    }
    true
}

fn are_events_laid_out(list: &Vec<WhenClause>) -> (r: bool)
    ensures
        r == events_laid_out(list@),
{
    let mut i: usize = 0;
    while i < list.len()
        invariant
            i <= list.len(),
            forall|k: int| 0 <= k < i ==> event_laid_out(#[trigger] list@[k]),
        decreases list.len() - i,
    {
        if !is_event_laid_out(&list[i]) {
            assert(!event_laid_out(list@[i as int]));
            return false;
        }
        i = i + 1;
    }
    true
}

fn are_branch_events_laid_out(list: &Vec<IfEquation>) -> (r: bool)
    ensures
        r == branch_events_laid_out(list@),
{
    let mut i: usize = 0;
    while i < list.len()
        invariant
            i <= list.len(),
            forall|k: int, j: int|
                0 <= k < i && 0 <= j < list@[k].branches@.len() ==> events_laid_out(
                    (#[trigger] list@[k].branches@[j]).whens@,
                ),
        decreases list.len() - i,
    {
        let branches = &list[i].branches;
        let mut b: usize = 0;
        while b < branches.len()
            invariant
                i < list.len(),
                branches == list@[i as int].branches,
                b <= branches.len(),
                forall|k: int, j: int|
                    0 <= k < i && 0 <= j < list@[k].branches@.len() ==> events_laid_out(
                        (#[trigger] list@[k].branches@[j]).whens@,
                    ),
                forall|j: int|
                    0 <= j < b ==> events_laid_out(
                        (#[trigger] list@[i as int].branches@[j]).whens@,
                    ),
            decreases branches.len() - b,
        {
            if !are_events_laid_out(&branches[b].whens) {
                assert(!events_laid_out(list@[i as int].branches@[b as int].whens@));
                return false;
            }
            b = b + 1;
        }
        i = i + 1;
    }
    true
}

proof fn lemma_taken(list: Seq<Verdict>, i: nat)
    ensures
        taken_from(list, i) matches Some(at) ==> at < list.len(),
    decreases list.len() - i,
{
    if i < list.len() {
        lemma_taken(list, i + 1);
    }
}

proof fn lemma_events_laid_out(k: DeskV, start: IfsV, list: Seq<IfEquation>, n: nat)
    requires
        n <= list.len(),
        branch_events_laid_out(list),
        events_laid_out(start.whens),
        ifs_read(k, start, list, n) is Ok,
    ensures
        events_laid_out(ifs_read(k, start, list, n)->Ok_0.whens),
    decreases n,
{
    if n > 0 {
        lemma_events_laid_out(k, start, list, (n - 1) as nat);
        let before = ifs_read(k, start, list, (n - 1) as nat)->Ok_0;
        let held = list[n - 1];
        let verdicts = class_verdicts(k, before.acc, held);
        lemma_taken(verdicts, 0);
        if are_decided(verdicts) {
            if let Some(at) = taken_from(verdicts, 0) {
                let branch = held.branches@[at as int];
                assert(events_laid_out(list[n - 1].branches@[at as int].whens@));
                let after = before.whens + branch.whens@;
                assert forall|i: int| 0 <= i < after.len() implies event_laid_out(
                    #[trigger] after[i],
                ) by {
                    if i < before.whens.len() {
                        assert(after[i] == before.whens[i]);
                    } else {
                        assert(after[i] == branch.whens@[i - before.whens.len()]);
                    }
                }
            }
        }
    }
}

/// What the class wrote outright and its algorithm sections come to.
pub open spec fn stated_first(
    k: DeskV,
    acc: FlatV,
    class: ClassDef,
    record_values: Seq<(Seq<char>, ExprV, bool)>,
) -> Result<FlatV, Seq<char>> {
    let wide = overlaid(acc.records, k.p.records);
    match with_records(k, acc, wide, record_values, record_values.len()) {
        Err(why) => Err(why),
        Ok(acc) => match with_lines(k, acc, class.equations@, class.equations@.len()) {
            Err(why) => Err(why),
            Ok(acc) => match with_class_checks(k, acc, class.asserts@, class.asserts@.len()) {
                Err(why) => Err(why),
                Ok(acc) => match with_arrows(
                    k,
                    acc,
                    class.transitions@,
                    class.transitions@.len(),
                ) {
                    Err(why) => Err(why),
                    Ok(acc) => {
                        let acc = match class.initial_state {
                            Some(state) => FlatV {
                                initial_states: acc.initial_states.push(
                                    flat_of(state@, k.p.naming),
                                ),
                                ..acc
                            },
                            None => acc,
                        };
                        match with_initials(
                            k,
                            acc,
                            class.initial_equations@,
                            class.initial_equations@.len(),
                        ) {
                            Err(why) => Err(why),
                            Ok(acc) => match with_algorithm(k, acc, class) {
                                Err(why) => Err(why),
                                Ok(acc) => with_initial_algorithm(k, acc, class),
                            },
                        }
                    },
                },
            },
        },
    }
}

/// What the calls, loops, branches, events and connections of a class come to.
pub open spec fn stated_then(
    k: DeskV,
    acc: FlatV,
    class: ClassDef,
    broken: Seq<Deselect>,
    found: Seq<bool>,
) -> Result<(FlatV, Seq<bool>), Seq<char>> {
    match with_calls(k, acc, class.calls@, class.calls@.len()) {
        Err(why) => Err(why),
        Ok(acc) => match with_loops(k, acc, class.for_equations@, class.for_equations@.len()) {
            Err(why) => Err(why),
            Ok(acc) => match ifs_read(
                k,
                IfsV { acc, whens: Seq::empty(), graph: Seq::empty() },
                class.if_equations@,
                class.if_equations@.len(),
            ) {
                Err(why) => Err(why),
                Ok(made) => {
                    let acc = with_clauses(k, made.acc, clauses_of(class.connection_graph@));
                    let acc = with_clauses(k, acc, made.graph);
                    match with_all_whens(k, acc, class.when_clauses@, made.whens) {
                        Err(why) => Err(why),
                        Ok(acc) => with_connects(
                            k,
                            acc,
                            broken,
                            found,
                            class.connects@,
                            class.connects@.len(),
                        ),
                    }
                },
            },
        },
    }
}

/// Everything a class states rather than declares.
pub open spec fn class_stated(
    k: DeskV,
    acc: FlatV,
    class: ClassDef,
    record_values: Seq<(Seq<char>, ExprV, bool)>,
    broken: Seq<Deselect>,
    found: Seq<bool>,
) -> Result<(FlatV, Seq<bool>), Seq<char>> {
    match stated_first(k, acc, class, record_values) {
        Err(why) => Err(why),
        Ok(acc) => stated_then(k, acc, class, broken, found),
    }
}

fn overlay_records(under: &Table<String>, over: &Table<String>) -> (r: Table<String>)
    ensures
        r.deep_view() == overlaid(under.deep_view(), over.deep_view()),
{
    let ghost low = under.entries.deep_view();
    let ghost high = over.entries.deep_view();
    let mut out: Table<String> = Table::new();
    let mut i: usize = 0;
    assert(low.take(0) =~= Seq::empty());
    while i < under.entries.len()
        invariant
            i <= under.entries.len(),
            low == under.entries.deep_view(),
            out.deep_view() == entered(low.take(i as int)),
        decreases under.entries.len() - i,
    {
        assert(low[i as int] == under.entries@[i as int].deep_view());
        assert(low.take(i + 1).drop_last() =~= low.take(i as int));
        out.put(under.entries[i].0.clone(), under.entries[i].1.clone());
        i = i + 1;
    }
    assert(low.take(i as int) =~= low);
    assert(high.take(0) =~= Seq::empty());
    assert(out.deep_view() =~= overlaid(entered(low), entered(high.take(0))));
    let mut i: usize = 0;
    while i < over.entries.len()
        invariant
            i <= over.entries.len(),
            high == over.entries.deep_view(),
            out.deep_view() == overlaid(entered(low), entered(high.take(i as int))),
        decreases over.entries.len() - i,
    {
        assert(high[i as int] == over.entries@[i as int].deep_view());
        assert(high.take(i + 1).drop_last() =~= high.take(i as int));
        out.put(over.entries[i].0.clone(), over.entries[i].1.clone());
        assert(out.deep_view() =~= overlaid(entered(low), entered(high.take(i + 1))));
        i = i + 1;
    }
    assert(high.take(i as int) =~= high);
    out
}

fn state_first<
    A1: Fn(&Expr, bool) -> Expr,
    A2: Fn(&Expr, &Table<Number>, &Table<Number>, &Table<String>) -> Result<(Value, Vec<(Expr, String)>), String>,
    A3: Fn(Value, &Table<Number>, &Table<Number>, &Table<String>) -> Result<(Value, Vec<(Expr, String)>), String>,
    A4: Fn(&Value, &Value, &str) -> Result<Vec<EquationItem>, String>,
    A5: Fn(&Expr) -> String,
    A6: Fn(Option<&Expr>) -> String,
    A7: Fn(&Vec<&Statement>) -> Result<Ran, String>,
    A8: Fn(&ClassDef, &Vec<Expr>, &Vec<Vec<i64>>) -> Result<(Vec<(String, Expr)>, Vec<(Expr, String)>), String>,
    A9: Fn(&ClassDef, &Vec<Expr>, &Vec<Vec<i64>>) -> Result<(Vec<(Expr, String)>, Vec<(Expr, String)>), String>,
    B1: Fn(&str) -> bool,
    B2: Fn(&ClassDef) -> bool,
    W: Fn(Arith, Number, Number) -> Number,
    O: Fn(&str, &Vec<Number>) -> Option<Vec<Number>>,
    N: Fn(&str) -> String,
>(
    h: &Reading<A1, A2, A3, A4, A5, A6, A7, A8, A9, B1, B2>,
    sums: &Sums<W, O, N>,
    registry: &Registry,
    p: &Here,
    acc: Flat,
    class: &ClassDef,
    record_values: &Vec<(String, Expr, bool)>,
) -> (r: Result<Flat, String>)
    requires
        reads_true(*h),
        is_steady(*sums),
    ensures
        told(r) == stated_first(
            desk_of(*h, *sums, registry@, p.deep_view()),
            acc.deep_view(),
            *class,
            record_values.deep_view(),
        ),
{
    let wide = overlay_records(&acc.records, &p.records);
    let acc = match push_records(h, sums, registry, p, acc, &wide, record_values) {
        Ok(acc) => acc,
        Err(why) => return Err(why),
    };
    let acc = match push_lines(h, sums, registry, p, acc, &class.equations) {
        Ok(acc) => acc,
        Err(why) => return Err(why),
    };
    let acc = match push_class_checks(h, sums, registry, p, acc, &class.asserts) {
        Ok(acc) => acc,
        Err(why) => return Err(why),
    };
    let mut acc = match push_arrows(h, sums, registry, p, acc, &class.transitions) {
        Ok(acc) => acc,
        Err(why) => return Err(why),
    };
    if let Some(state) = &class.initial_state {
        let ghost was = acc.deep_view();
        let named = flat_name(state.as_str(), &p.naming);
        let ghost nv = named@;
        acc.initial_states.push(named);
        assert(texts(acc.initial_states@) =~= was.initial_states.push(nv));
    }
    let acc = match push_initials(h, sums, registry, p, acc, &class.initial_equations) {
        Ok(acc) => acc,
        Err(why) => return Err(why),
    };
    run_algorithm_sections(h, sums, registry, p, acc, class)
}

fn state_then<
    A1: Fn(&Expr, bool) -> Expr,
    A2: Fn(&Expr, &Table<Number>, &Table<Number>, &Table<String>) -> Result<(Value, Vec<(Expr, String)>), String>,
    A3: Fn(Value, &Table<Number>, &Table<Number>, &Table<String>) -> Result<(Value, Vec<(Expr, String)>), String>,
    A4: Fn(&Value, &Value, &str) -> Result<Vec<EquationItem>, String>,
    A5: Fn(&Expr) -> String,
    A6: Fn(Option<&Expr>) -> String,
    A7: Fn(&Vec<&Statement>) -> Result<Ran, String>,
    A8: Fn(&ClassDef, &Vec<Expr>, &Vec<Vec<i64>>) -> Result<(Vec<(String, Expr)>, Vec<(Expr, String)>), String>,
    A9: Fn(&ClassDef, &Vec<Expr>, &Vec<Vec<i64>>) -> Result<(Vec<(Expr, String)>, Vec<(Expr, String)>), String>,
    B1: Fn(&str) -> bool,
    B2: Fn(&ClassDef) -> bool,
    W: Fn(Arith, Number, Number) -> Number,
    O: Fn(&str, &Vec<Number>) -> Option<Vec<Number>>,
    N: Fn(&str) -> String,
>(
    h: &Reading<A1, A2, A3, A4, A5, A6, A7, A8, A9, B1, B2>,
    sums: &Sums<W, O, N>,
    registry: &Registry,
    p: &Here,
    acc: Flat,
    class: &ClassDef,
    broken: &Vec<Deselect>,
    found: &mut Vec<bool>,
) -> (r: Result<Flat, String>)
    requires
        reads_true(*h),
        is_steady(*sums),
        class_laid_out(*class),
        old(found)@.len() == broken@.len(),
    ensures
        match stated_then(
            desk_of(*h, *sums, registry@, p.deep_view()),
            acc.deep_view(),
            *class,
            broken@,
            old(found)@,
        ) {
            Err(trouble) => r matches Err(why) && why@ == trouble,
            Ok(made) => r matches Ok(acc) && acc.deep_view() == made.0 && final(found)@ == made.1,
        },
{
    let ghost k = desk_of(*h, *sums, registry@, p.deep_view());
    let acc = match take_all_checks(h, sums, registry, p, acc, &class.calls) {
        Ok(acc) => acc,
        Err(why) => return Err(why),
    };
    let acc = match push_loops(h, sums, registry, p, acc, &class.for_equations) {
        Ok(acc) => acc,
        Err(why) => return Err(why),
    };
    let ghost start = IfsV { acc: acc.deep_view(), whens: Seq::empty(), graph: Seq::empty() };
    let Ifs { acc, whens, graph } = match flatten_if_equations(
        h,
        sums,
        registry,
        p,
        acc,
        &class.if_equations,
    ) {
        Ok(made) => made,
        Err(why) => return Err(why),
    };
    proof {
        lemma_events_laid_out(
            k,
            start,
            class.if_equations@,
            class.if_equations@.len(),
        );
    }
    let mut own: Vec<&GraphClause> = Vec::new();
    assert(pointed_clauses(own@) =~= Seq::empty());
    add_clauses(&mut own, &class.connection_graph);
    assert(pointed_clauses(own@) =~= clauses_of(class.connection_graph@));
    let acc = push_clauses(p, acc, &own, Ghost(k));
    let acc = push_clauses(p, acc, &graph, Ghost(k));
    let acc = match flatten_when_clauses(
        h,
        sums,
        registry,
        p,
        acc,
        &class.when_clauses,
        &whens,
    ) {
        Ok(acc) => acc,
        Err(why) => return Err(why),
    };
    push_connects_of(h, sums, registry, p, acc, broken, found, &class.connects)
}

/// Everything the class states rather than declares: its equations, the `if`
/// branches and `when` clauses among them, the values of its record-valued
/// declarations, its connections and its algorithm sections.
///
/// `broken` is what a selective `extends` leaves out, and `found` which of it
/// was there to be left out.
pub fn flatten_equations<
    A1: Fn(&Expr, bool) -> Expr,
    A2: Fn(&Expr, &Table<Number>, &Table<Number>, &Table<String>) -> Result<(Value, Vec<(Expr, String)>), String>,
    A3: Fn(Value, &Table<Number>, &Table<Number>, &Table<String>) -> Result<(Value, Vec<(Expr, String)>), String>,
    A4: Fn(&Value, &Value, &str) -> Result<Vec<EquationItem>, String>,
    A5: Fn(&Expr) -> String,
    A6: Fn(Option<&Expr>) -> String,
    A7: Fn(&Vec<&Statement>) -> Result<Ran, String>,
    A8: Fn(&ClassDef, &Vec<Expr>, &Vec<Vec<i64>>) -> Result<(Vec<(String, Expr)>, Vec<(Expr, String)>), String>,
    A9: Fn(&ClassDef, &Vec<Expr>, &Vec<Vec<i64>>) -> Result<(Vec<(Expr, String)>, Vec<(Expr, String)>), String>,
    B1: Fn(&str) -> bool,
    B2: Fn(&ClassDef) -> bool,
    W: Fn(Arith, Number, Number) -> Number,
    O: Fn(&str, &Vec<Number>) -> Option<Vec<Number>>,
    N: Fn(&str) -> String,
>(
    h: &Reading<A1, A2, A3, A4, A5, A6, A7, A8, A9, B1, B2>,
    sums: &Sums<W, O, N>,
    registry: &Registry,
    p: &Here,
    acc: Flat,
    class: &ClassDef,
    record_values: &Vec<(String, Expr, bool)>,
    broken: &Vec<Deselect>,
    found: &mut Vec<bool>,
) -> (r: Result<Flat, String>)
    requires
        reads_true(*h),
        is_steady(*sums),
        class_laid_out(*class),
        old(found)@.len() == broken@.len(),
    ensures
        match class_stated(
            desk_of(*h, *sums, registry@, p.deep_view()),
            acc.deep_view(),
            *class,
            record_values.deep_view(),
            broken@,
            old(found)@,
        ) {
            Err(trouble) => r matches Err(why) && why@ == trouble,
            Ok(made) => r matches Ok(acc) && acc.deep_view() == made.0 && final(found)@ == made.1,
        },
{
    match state_first(h, sums, registry, p, acc, class, record_values) {
        Err(why) => Err(why),
        Ok(acc) => state_then(h, sums, registry, p, acc, class, broken, found),
    }
}

}
