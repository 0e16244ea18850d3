//! The arguments of the operators that take named ones.
use crate::expr::{expr_view, Expr, ExprV};
use crate::text::{join3, join5, join_all, joined, same, texts};
use vstd::prelude::*;

verus! {

/// What the arguments of an operator are called, in the order they are
/// declared.
///
/// The language gives these operators a signature like any function's, so a
/// model may write `homotopy(actual = a, simplified = s)`.
pub open spec fn declared_of(name: Seq<char>) -> Option<Seq<Seq<char>>> {
    if name == "homotopy"@ {
        Some(seq!["actual"@, "simplified"@])
    } else if name == "Clock"@ {
        Some(seq!["interval"@, "resolution"@])
    } else if name == "smooth"@ {
        Some(seq!["p"@, "u"@])
    } else if name == "noEvent"@ {
        Some(seq!["expr"@])
    } else if name == "semiLinear"@ {
        Some(seq!["x"@, "positiveSlope"@, "negativeSlope"@])
    } else if name == "delay"@ {
        Some(seq!["expr"@, "delayTime"@, "delayMax"@])
    } else if name == "sample"@ {
        Some(seq!["start"@, "interval"@])
    } else if name == "previous"@ || name == "hold"@ || name == "noClock"@ {
        Some(seq!["u"@])
    } else if name == "subSample"@ || name == "superSample"@ {
        Some(seq!["u"@, "factor"@])
    } else if name == "shiftSample"@ {
        Some(seq!["u"@, "shiftCounter"@, "resolution"@])
    } else if name == "backSample"@ {
        Some(seq!["u"@, "backCounter"@, "resolution"@])
    } else if name == "spatialDistribution"@ {
        Some(
            seq![
                "in0"@,
                "in1"@,
                "x"@,
                "positiveVelocity"@,
                "initialPoints"@,
                "initialValues"@,
            ],
        )
    } else {
        None
    }
}

fn words1(a: &str) -> (r: Vec<String>)
    ensures
        texts(r@) == seq![a@],
{
    let mut out: Vec<String> = Vec::new();
    out.push(a.to_owned());
    assert(texts(out@) =~= seq![a@]);
    out
}

fn words2(a: &str, b: &str) -> (r: Vec<String>)
    ensures
        texts(r@) == seq![a@, b@],
{
    let mut out: Vec<String> = words1(a);
    let ghost before = texts(out@);
    out.push(b.to_owned());
    assert(texts(out@) =~= before.push(b@));
    assert(texts(out@) =~= seq![a@, b@]);
    out
}

fn words3(a: &str, b: &str, c: &str) -> (r: Vec<String>)
    ensures
        texts(r@) == seq![a@, b@, c@],
{
    let mut out: Vec<String> = words2(a, b);
    let ghost before = texts(out@);
    out.push(c.to_owned());
    assert(texts(out@) =~= before.push(c@));
    assert(texts(out@) =~= seq![a@, b@, c@]);
    out
}

fn find_declared(name: &str) -> (r: Option<Vec<String>>)
    ensures
        match r {
            Some(list) => declared_of(name@) == Some(texts(list@)),
            None => declared_of(name@) is None,
        },
{
    if same(name, "homotopy") {
        Some(words2("actual", "simplified"))
    } else if same(name, "Clock") {
        Some(words2("interval", "resolution"))
    } else if same(name, "smooth") {
        Some(words2("p", "u"))
    } else if same(name, "noEvent") {
        Some(words1("expr"))
    } else if same(name, "semiLinear") {
        Some(words3("x", "positiveSlope", "negativeSlope"))
    } else if same(name, "delay") {
        Some(words3("expr", "delayTime", "delayMax"))
    } else if same(name, "sample") {
        Some(words2("start", "interval"))
    } else if same(name, "previous") || same(name, "hold") || same(name, "noClock") {
        Some(words1("u"))
    } else if same(name, "subSample") || same(name, "superSample") {
        Some(words2("u", "factor"))
    } else if same(name, "shiftSample") {
        Some(words3("u", "shiftCounter", "resolution"))
    } else if same(name, "backSample") {
        Some(words3("u", "backCounter", "resolution"))
    } else if same(name, "spatialDistribution") {
        let mut out = words3("in0", "in1", "x");
        let mut more = words3("positiveVelocity", "initialPoints", "initialValues");
        let ghost before = texts(out@);
        let ghost after = texts(more@);
        out.append(&mut more);
        assert(texts(out@) =~= before + after);
        assert(texts(out@) =~= seq![
            "in0"@,
            "in1"@,
            "x"@,
            "positiveVelocity"@,
            "initialPoints"@,
            "initialValues"@,
        ]);
        Some(out)
    } else {
        None
    }
}

/// How many arguments come before the first one given by name.
pub open spec fn positional(args: Seq<ExprV>) -> nat
    decreases args.len(),
{
    if args.len() == 0 || args[0] is NamedArg {
        0
    } else {
        1 + positional(args.drop_first())
    }
}

/// Where a keyword stands among the declared names, or past the last of them.
pub open spec fn keyword_place(declared: Seq<Seq<char>>, keyword: Seq<char>) -> nat
    decreases declared.len(),
{
    if declared.len() == 0 || declared[0] == keyword {
        0
    } else {
        1 + keyword_place(declared.drop_first(), keyword)
    }
}

/// The places filled by the first `n` arguments, those by name after the
/// first `from` by position.
pub open spec fn placed(
    name: Seq<char>,
    declared: Seq<Seq<char>>,
    args: Seq<ExprV>,
    from: nat,
    n: nat,
) -> Result<Seq<Option<ExprV>>, Seq<char>>
    decreases n,
{
    if n <= from {
        Ok(Seq::new(from, |i: int| Some(args[i])))
    } else {
        match placed(name, declared, args, from, (n - 1) as nat) {
            Err(why) => Err(why),
            Ok(slots) => match args[n - 1] {
                ExprV::NamedArg(keyword, value) => {
                    let at = keyword_place(declared, keyword);
                    if at >= declared.len() {
                        Err(
                            "`"@ + name + "` has no argument called `"@ + keyword + "`; it takes "@
                                + joined(declared, ", "@),
                        )
                    } else if at < from {
                        Err(
                            "`"@ + name + "` was given `"@ + keyword
                                + "` both by name and by position"@,
                        )
                    } else if at < slots.len() && slots[at as int] is Some {
                        Err("`"@ + name + "` was given `"@ + keyword + "` twice"@)
                    } else {
                        Ok(stretched(slots, at + 1).update(at as int, Some(*value)))
                    }
                },
                _ => Err(Seq::empty()),
            },
        }
    }
}

/// A list of places with enough of them, those added being empty.
pub open spec fn stretched(slots: Seq<Option<ExprV>>, n: nat) -> Seq<Option<ExprV>> {
    if slots.len() >= n {
        slots
    } else {
        Seq::new(
            n,
            |i: int|
                if i < slots.len() {
                    slots[i]
                } else {
                    None
                },
        )
    }
}

/// What the first `n` places hold, where none of them is empty.
pub open spec fn filled(
    name: Seq<char>,
    declared: Seq<Seq<char>>,
    slots: Seq<Option<ExprV>>,
    n: nat,
) -> Result<Seq<ExprV>, Seq<char>>
    decreases n,
{
    if n == 0 {
        Ok(Seq::empty())
    } else {
        match filled(name, declared, slots, (n - 1) as nat) {
            Err(why) => Err(why),
            Ok(before) => match slots[n - 1] {
                Some(value) => Ok(before.push(value)),
                None => Err(
                    "`"@ + name + "` was given nothing for `"@ + (if n - 1 < declared.len() {
                        declared[n - 1]
                    } else {
                        "an argument"@
                    }) + "`"@,
                ),
            },
        }
    }
}

/// The arguments of an operator where its declaration says they go. One that
/// takes no named arguments keeps what it was given.
pub open spec fn ordered(name: Seq<char>, args: Seq<ExprV>) -> Result<Seq<ExprV>, Seq<char>> {
    let from = positional(args);
    match declared_of(name) {
        Some(declared) => if from >= args.len() {
            Ok(args)
        } else if exists|i: int| from <= i < args.len() && !(#[trigger] args[i] is NamedArg) {
            Err("`"@ + name + "` was given an argument by position after one given by name"@)
        } else {
            match placed(name, declared, args, from, args.len()) {
                Err(why) => Err(why),
                Ok(slots) => filled(name, declared, slots, slots.len()),
            }
        },
        None => Ok(args),
    }
}

proof fn lemma_positional(args: Seq<ExprV>, at: nat)
    requires
        at <= args.len(),
        at < args.len() ==> args[at as int] is NamedArg,
        forall|i: int| 0 <= i < at ==> !(#[trigger] args[i] is NamedArg),
    ensures
        positional(args) == at,
    decreases args.len(),
{
    if at > 0 {
        assert(!(args[0] is NamedArg));
        let rest = args.drop_first();
        assert forall|i: int| 0 <= i < at - 1 implies !(#[trigger] rest[i] is NamedArg) by {
            assert(rest[i] == args[i + 1]);
        }
        lemma_positional(rest, (at - 1) as nat);
    }
}

fn find_positional(args: &Vec<Expr>) -> (r: usize)
    ensures
        r == positional(args.deep_view()),
        r <= args@.len(),
{
    let ghost all = args.deep_view();
    let mut i: usize = 0;
    while i < args.len()
        invariant
            i <= args.len(),
            all == args.deep_view(),
            forall|k: int| 0 <= k < i ==> !(#[trigger] all[k] is NamedArg),
        decreases args.len() - i,
    {
        assert(all[i as int] == args@[i as int].deep_view());
        if matches!(args[i], Expr::NamedArg(..)) {
            proof {
                lemma_positional(all, i as nat);
            }
            return i;
        }
        i = i + 1;
    }
    proof {
        lemma_positional(all, i as nat);
    }
    i
}

proof fn lemma_keyword_place(declared: Seq<Seq<char>>, keyword: Seq<char>, at: nat)
    requires
        at <= declared.len(),
        at < declared.len() ==> declared[at as int] == keyword,
        forall|i: int| 0 <= i < at ==> #[trigger] declared[i] != keyword,
    ensures
        keyword_place(declared, keyword) == at,
    decreases declared.len(),
{
    if at > 0 {
        assert(declared[0] != keyword);
        let rest = declared.drop_first();
        assert forall|i: int| 0 <= i < at - 1 implies #[trigger] rest[i] != keyword by {
            assert(rest[i] == declared[i + 1]);
        }
        lemma_keyword_place(rest, keyword, (at - 1) as nat);
    }
}

fn find_keyword(declared: &Vec<String>, keyword: &str) -> (r: usize)
    ensures
        r == keyword_place(texts(declared@), keyword@),
        r <= declared@.len(),
{
    let ghost all = texts(declared@);
    let mut i: usize = 0;
    while i < declared.len()
        invariant
            i <= declared.len(),
            all == texts(declared@),
            forall|k: int| 0 <= k < i ==> #[trigger] all[k] != keyword@,
        decreases declared.len() - i,
    {
        if same(declared[i].as_str(), keyword) {
            proof {
                lemma_keyword_place(all, keyword@, i as nat);
            }
            return i;
        }
        assert(all[i as int] != keyword@);
        i = i + 1;
    }
    proof {
        lemma_keyword_place(all, keyword@, i as nat);
    }
    i
}

fn position_after_name(args: &Vec<Expr>, from: usize) -> (r: bool)
    ensures
        r == exists|i: int|
            from <= i < args.deep_view().len() && !(#[trigger] args.deep_view()[i] is NamedArg),
{
    let ghost all = args.deep_view();
    let mut i: usize = from;
    while i < args.len()
        invariant
            from <= i,
            all == args.deep_view(),
            forall|k: int| from <= k < i ==> (#[trigger] all[k] is NamedArg),
        decreases args.len() - i,
    {
        assert(all[i as int] == args@[i as int].deep_view());
        if !matches!(args[i], Expr::NamedArg(..)) {
            assert(!(all[i as int] is NamedArg));
            return true;
        }
        i = i + 1;
    }
    false
}

proof fn lemma_placed_stops(
    name: Seq<char>,
    declared: Seq<Seq<char>>,
    args: Seq<ExprV>,
    from: nat,
    n: nat,
    all: nat,
)
    requires
        from <= n <= all,
        placed(name, declared, args, from, n) is Err,
    ensures
        placed(name, declared, args, from, all) == placed(name, declared, args, from, n),
    decreases all,
{
    if n < all {
        lemma_placed_stops(name, declared, args, from, n, (all - 1) as nat);
    }
}

fn put_in_places(name: &str, declared: &Vec<String>, args: &Vec<Expr>, from: usize) -> (r: Result<
    Vec<Option<Expr>>,
    String,
>)
    requires
        from <= args@.len(),
        forall|i: int|
            from <= i < args.deep_view().len() ==> (#[trigger] args.deep_view()[i] is NamedArg),
    ensures
        match placed(name@, texts(declared@), args.deep_view(), from as nat, args@.len()) {
            Err(trouble) => r matches Err(why) && why@ == trouble,
            Ok(slots) => r matches Ok(made) && made.deep_view() == slots,
        },
{
    let ghost all = args.deep_view();
    let ghost words = texts(declared@);
    let mut out: Vec<Option<Expr>> = Vec::new();
    let mut i: usize = 0;
    while i < from
        invariant
            i <= from,
            from <= args@.len(),
            all == args.deep_view(),
            out@.len() == i,
            forall|k: int| 0 <= k < i ==> (#[trigger] out@[k]).deep_view() == Some(all[k]),
        decreases from - i,
    {
        assert(all[i as int] == args@[i as int].deep_view());
        out.push(Some(args[i].clone()));
        i = i + 1;
    }
    assert(out.deep_view() =~= Seq::new(from as nat, |i: int| Some(all[i])));
    while i < args.len()
        invariant
            from <= i <= args.len(),
            all == args.deep_view(),
            words == texts(declared@),
            forall|k: int| from <= k < all.len() ==> (#[trigger] all[k] is NamedArg),
            placed(name@, words, all, from as nat, i as nat) == Ok::<
                Seq<Option<ExprV>>,
                Seq<char>,
            >(out.deep_view()),
        decreases args.len() - i,
    {
        let ghost before = out.deep_view();
        assert(all[i as int] == args@[i as int].deep_view());
        assert(all[i as int] is NamedArg);
        if let Expr::NamedArg(keyword, value) = &args[i] {
            assert((**value).deep_view() == expr_view(**value));
            let at: usize = find_keyword(declared, keyword.as_str());
            proof {
                if placed(name@, words, all, from as nat, (i + 1) as nat) is Err {
                    lemma_placed_stops(
                        name@,
                        words,
                        all,
                        from as nat,
                        (i + 1) as nat,
                        args@.len(),
                    );
                }
            }
            if at >= declared.len() {
                let list = join_all(declared, ", ");
                let start = join3("`", name, "` has no argument called `");
                let why = join5(
                    start.as_str(),
                    keyword.as_str(),
                    "`; it takes ",
                    list.as_str(),
                    "",
                );
                proof {
                    reveal_strlit("");
                    assert(start@ + keyword@ + "`; it takes "@ + list@ + ""@ =~= "`"@ + name@
                        + "` has no argument called `"@ + keyword@ + "`; it takes "@ + list@);
                }
                return Err(why);
            }
            if at < from {
                return Err(
                    join5(
                        "`",
                        name,
                        "` was given `",
                        keyword.as_str(),
                        "` both by name and by position",
                    ),
                );
            }
            if at < out.len() && out[at].is_some() {
                assert(before[at as int] == out@[at as int].deep_view());
                return Err(join5("`", name, "` was given `", keyword.as_str(), "` twice"));
            }
            while out.len() <= at
                invariant
                    before.len() <= out@.len(),
                    out@.len() <= at + 1 || out@.len() == before.len(),
                    forall|k: int|
                        0 <= k < before.len() ==> (#[trigger] out@[k]).deep_view() == before[k],
                    forall|k: int|
                        before.len() <= k < out@.len() ==> (#[trigger] out@[k]) is None,
                decreases at + 1 - out@.len(),
            {
                out.push(None);
            }
            assert(out.deep_view() =~= stretched(before, (at + 1) as nat));
            let ghost wide = out.deep_view();
            out.set(at, Some((**value).clone()));
            assert(out.deep_view() =~= wide.update(at as int, Some((**value).deep_view())));
        }
        i = i + 1;
    }
    Ok(out)
}

proof fn lemma_filled_stops(
    name: Seq<char>,
    declared: Seq<Seq<char>>,
    slots: Seq<Option<ExprV>>,
    n: nat,
    all: nat,
)
    requires
        n <= all,
        filled(name, declared, slots, n) is Err,
    ensures
        filled(name, declared, slots, all) == filled(name, declared, slots, n),
    decreases all,
{
    if n < all {
        lemma_filled_stops(name, declared, slots, n, (all - 1) as nat);
    }
}

/// Put an operator's named arguments where its declaration says they go, so
/// everything after this reads one shape.
///
/// A name nothing declared, or one given twice, or one given both by name and
/// by position, is a mistake about the operator rather than about the model's
/// physics, and is named as one.
pub fn order_builtin_arguments(name: &str, args: Vec<Expr>) -> (r: Result<Vec<Expr>, String>)
    ensures
        match ordered(name@, args.deep_view()) {
            Err(trouble) => r matches Err(why) && why@ == trouble,
            Ok(made) => r matches Ok(list) && list.deep_view() == made,
        },
{
    let from: usize = find_positional(&args);
    if from >= args.len() {
        return Ok(args);
    }
    let declared = match find_declared(name) {
        Some(declared) => declared,
        None => return Ok(args),
    };
    let ghost words = texts(declared@);
    if position_after_name(&args, from) {
        return Err(
            join3("`", name, "` was given an argument by position after one given by name"),
        );
    }
    let slots = match put_in_places(name, &declared, &args, from) {
        Ok(slots) => slots,
        Err(why) => return Err(why),
    };
    let ghost all = slots.deep_view();
    let mut out: Vec<Expr> = Vec::new();
    let mut i: usize = 0;
    assert(out.deep_view() =~= Seq::empty());
    while i < slots.len()
        invariant
            i <= slots.len(),
            all == slots.deep_view(),
            words == texts(declared@),
            ordered(name@, args.deep_view()) == filled(name@, words, all, all.len()),
            filled(name@, words, all, i as nat) == Ok::<Seq<ExprV>, Seq<char>>(out.deep_view()),
        decreases slots.len() - i,
    {
        let ghost before = out.deep_view();
        assert(all[i as int] == slots@[i as int].deep_view());
        match &slots[i] {
            Some(value) => {
                out.push(value.clone());
                assert(out.deep_view() =~= before.push(value.deep_view()));
            },
            None => {
                proof {
                    lemma_filled_stops(name@, words, all, (i + 1) as nat, all.len());
                }
                let what: &str = if i < declared.len() {
                    declared[i].as_str()
                } else {
                    "an argument"
                };
                return Err(join5("`", name, "` was given nothing for `", what, "`"));
            },
        }
        i = i + 1;
    }
    Ok(out)
}

/// Arguments given by position alone are left where they are.
pub proof fn law_positions_stand(name: Seq<char>, args: Seq<ExprV>)
    requires
        forall|i: int| 0 <= i < args.len() ==> !(#[trigger] args[i] is NamedArg),
    ensures
        ordered(name, args) == Ok::<Seq<ExprV>, Seq<char>>(args),
{
    lemma_positional(args, args.len());
}

}
