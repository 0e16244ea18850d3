//! Operators a record declares for itself.
use crate::class::{Causality, ClassDef, ClassKind, Component, ComponentV};
use crate::expr::{expr_view, told, BinOp, Expr, ExprV, RelOp};
use crate::functions::{declared_by, function_components};
use crate::lookup::{class_named, find_class, is_it, lookup, meaning, Pairs, Registry};
use crate::make;
use crate::reading::{lengths_of, shape_i64};
use crate::records::{input_fields, record_input_fields};
use crate::shapes::{copy_value, Lengths};
use crate::table::Table;
use crate::text::{begins_with, comes_before, decimal, digits, join4, join7, precedes, same, starts};
use crate::value::{lemma_values, written_out, Value, ValueV};
use vstd::prelude::*;

verus! {

/// How an operator is spelled where a record declares it.
pub open spec fn symbol_of(op: BinOp) -> Seq<char> {
    match op {
        BinOp::Add => "+"@,
        BinOp::Sub => "-"@,
        BinOp::Mul => "*"@,
        BinOp::Div => "/"@,
        BinOp::Pow => "^"@,
    }
}

/// How an operator is spelled where a record declares it.
pub fn operator_symbol(op: BinOp) -> (r: &'static str)
    ensures
        r@ == symbol_of(op),
{
    match op {
        BinOp::Add => "+",
        BinOp::Sub => "-",
        BinOp::Mul => "*",
        BinOp::Div => "/",
        BinOp::Pow => "^",
    }
}

/// How a relational operator is spelled where a record declares one.
pub open spec fn relation_of(op: RelOp) -> Seq<char> {
    match op {
        RelOp::Lt => "<"@,
        RelOp::Le => "<="@,
        RelOp::Gt => ">"@,
        RelOp::Ge => ">="@,
        RelOp::Eq => "=="@,
        RelOp::Ne => "<>"@,
    }
}

/// How a relational operator is spelled where a record declares one.
pub fn relation_symbol(op: RelOp) -> (r: &'static str)
    ensures
        r@ == relation_of(op),
{
    match op {
        RelOp::Lt => "<",
        RelOp::Le => "<=",
        RelOp::Gt => ">",
        RelOp::Ge => ">=",
        RelOp::Eq => "==",
        RelOp::Ne => "<>",
    }
}

/// The record class an expression is of.
pub open spec fn record_of(
    classes: Seq<&ClassDef>,
    e: ExprV,
    records: Map<Seq<char>, Seq<char>>,
    scope: Seq<char>,
    imports: Pairs,
) -> Option<Seq<char>>
    decreases e,
{
    match e {
        ExprV::Ref(name) => if records.contains_key(name) {
            Some(records[name])
        } else {
            None
        },
        ExprV::Bin(_, a, b) => match record_of(classes, *a, records, scope, imports) {
            Some(of) => Some(of),
            None => record_of(classes, *b, records, scope, imports),
        },
        ExprV::Elementwise(_, a, b) => match record_of(classes, *a, records, scope, imports) {
            Some(of) => Some(of),
            None => record_of(classes, *b, records, scope, imports),
        },
        ExprV::Neg(inner) => record_of(classes, *inner, records, scope, imports),
        ExprV::If(_, a, b) => match record_of(classes, *a, records, scope, imports) {
            Some(of) => Some(of),
            None => record_of(classes, *b, records, scope, imports),
        },
        ExprV::Call(name, _) => match meaning(classes, name, scope, imports) {
            Some(class) => if class.kind == ClassKind::Record {
                Some(class.name@)
            } else {
                None
            },
            None => None,
        },
        _ => None,
    }
}

/// The record class an expression is of, when it is of one: an overloaded
/// operator is chosen by the record its operands belong to, and the operands
/// of a mixed expression need only one of them to say which.
pub fn record_class_of(
    registry: &Registry,
    expr: &Expr,
    records: &Table<String>,
    scope: &str,
    imports: &Vec<(String, String)>,
) -> (r: Option<String>)
    ensures
        r.deep_view() == record_of(
            registry@,
            expr.deep_view(),
            records.deep_view(),
            scope@,
            imports.deep_view(),
        ),
    decreases expr.deep_view(),
{
    match expr {
        Expr::Ref(name) => match records.get(name.as_str()) {
            Some(of) => Some(of.clone()),
            None => None,
        },
        Expr::Bin(_, a, b) | Expr::Elementwise(_, a, b) | Expr::If(_, a, b) => {
            assert((**a).deep_view() == expr_view(**a));
            assert((**b).deep_view() == expr_view(**b));
            match record_class_of(registry, a, records, scope, imports) {
                Some(of) => Some(of),
                None => record_class_of(registry, b, records, scope, imports),
            }
        },
        Expr::Neg(inner) => {
            assert((**inner).deep_view() == expr_view(**inner));
            record_class_of(registry, inner, records, scope, imports)
        },
        Expr::Call(name, _) => match lookup(registry, name.as_str(), scope, imports) {
            Some(class) => if class.kind == ClassKind::Record {
                Some(class.name.clone())
            } else {
                None
            },
            None => None,
        },
        _ => None,
    }
}

/// The record class the elements of an array belong to.
pub open spec fn element_of_record(
    e: ExprV,
    sizes: Lengths,
    records: Map<Seq<char>, Seq<char>>,
) -> Option<Seq<char>> {
    match e {
        ExprV::Ref(name) => if sizes.contains_key(name) && records.contains_key(name) {
            Some(records[name])
        } else {
            None
        },
        _ => None,
    }
}

/// The record class the elements of an array belong to, when they belong to
/// one: an array of records is filed under both tables.
pub fn element_record_of(expr: &Expr, sizes: &Table<Vec<i64>>, records: &Table<String>) -> (r: Option<
    String,
>)
    ensures
        r.deep_view() == element_of_record(
            expr.deep_view(),
            sizes.deep_view(),
            records.deep_view(),
        ),
{
    if let Expr::Ref(name) = expr {
        if sizes.has(name.as_str()) {
            if let Some(of) = records.get(name.as_str()) {
                return Some(of.clone());
            }
        }
    }
    None
}

/// The inputs among a list of declarations.
pub open spec fn inputs_among(list: Seq<ComponentV>) -> Seq<ComponentV>
    decreases list.len(),
{
    if list.len() == 0 {
        Seq::empty()
    } else {
        let before = inputs_among(list.drop_last());
        if list.last().causality == Causality::Input {
            before.push(list.last())
        } else {
            before
        }
    }
}

/// The inputs of a function, its bases' first.
pub open spec fn inputs_of(classes: Seq<&ClassDef>, class: ClassDef) -> Seq<ComponentV> {
    inputs_among(declared_by(classes, class, 0))
}

pub fn list_inputs(registry: &Registry, class: &ClassDef) -> (r: Vec<Component>)
    ensures
        r.deep_view() == inputs_of(registry@, *class),
{
    let list = function_components(registry, class, 0);
    let ghost all = list.deep_view();
    let mut out: Vec<Component> = Vec::new();
    let mut i: usize = 0;
    assert(out.deep_view() =~= inputs_among(all.take(0)));
    while i < list.len()
        invariant
            i <= list.len(),
            all == list.deep_view(),
            out.deep_view() == inputs_among(all.take(i as int)),
        decreases list.len() - i,
    {
        let ghost before = out.deep_view();
        assert(all[i as int] == list@[i as int].deep_view());
        assert(all.take(i + 1).drop_last() =~= all.take(i as int));
        if list[i].causality == Causality::Input {
            out.push(list[i].clone());
            assert(out.deep_view() =~= before.push(all[i as int]));
        }
        i = i + 1;
    }
    assert(all.take(i as int) =~= all);
    out
}

/// How many of the first `n` inputs have no value of their own.
pub open spec fn wanted_among(list: Seq<ComponentV>, n: nat) -> nat
    decreases n,
{
    if n == 0 || n > list.len() {
        0
    } else {
        wanted_among(list, (n - 1) as nat) + (if list[n - 1].binding is None {
            1nat
        } else {
            0nat
        })
    }
}

/// Whether a function may be given so many arguments: an input with a value of
/// its own may be left out.
pub open spec fn takes_so_many(classes: Seq<&ClassDef>, class: ClassDef, arity: nat) -> bool {
    let inputs = inputs_of(classes, class);
    wanted_among(inputs, inputs.len()) <= arity <= inputs.len()
}

fn does_take(registry: &Registry, class: &ClassDef, arity: usize) -> (r: bool)
    ensures
        r == takes_so_many(registry@, *class, arity as nat),
{
    let inputs = list_inputs(registry, class);
    let ghost all = inputs.deep_view();
    let mut wanted: usize = 0;
    let mut i: usize = 0;
    while i < inputs.len()
        invariant
            i <= inputs.len(),
            all == inputs.deep_view(),
            wanted <= i,
            wanted == wanted_among(all, i as nat),
        decreases inputs.len() - i,
    {
        assert(all[i as int] == inputs@[i as int].deep_view());
        if inputs[i].binding.is_none() {
            wanted = wanted + 1;
        }
        i = i + 1;
    }
    assert(all.len() == inputs@.len());
    wanted <= arity && arity <= inputs.len()
}

/// The function with the least name among those of the first `n` classes that
/// stand inside an operator and take so many arguments.
pub open spec fn least_inside(
    classes: Seq<&ClassDef>,
    prefix: Seq<char>,
    arity: nat,
    n: nat,
) -> Option<ClassDef>
    decreases n,
{
    if n == 0 || n > classes.len() {
        None
    } else {
        let before = least_inside(classes, prefix, arity, (n - 1) as nat);
        match class_named(classes, classes[n - 1].name@) {
            None => before,
            Some(class) => if begins_with(class.name@, prefix) && class.kind == ClassKind::Function
                && takes_so_many(classes, class, arity) {
                match before {
                    None => Some(class),
                    Some(best) => if precedes(class.name@, best.name@) {
                        Some(class)
                    } else {
                        before
                    },
                }
            } else {
                before
            },
        }
    }
}

/// The function a record offers for an operator.
pub open spec fn operator_meant(
    classes: Seq<&ClassDef>,
    record: Seq<char>,
    symbol: Seq<char>,
    arity: nat,
) -> Option<ClassDef> {
    match class_named(classes, record + ".'"@ + symbol + "'"@) {
        None => None,
        Some(named) => if named.kind == ClassKind::Function {
            if takes_so_many(classes, named, arity) {
                Some(named)
            } else {
                None
            }
        } else {
            least_inside(classes, record + ".'"@ + symbol + "'."@, arity, classes.len())
        },
    }
}

/// The function a record offers for an operator, by symbol and by how many
/// arguments it takes. A symbol may name a function outright or a package of
/// them, which is how `'-'` holds both the subtraction and the negation.
pub fn operator_function<'a>(
    registry: &Registry<'a>,
    record: &str,
    symbol: &str,
    arity: usize,
) -> (r: Option<&'a ClassDef>)
    ensures
        is_it(r, operator_meant(registry@, record@, symbol@, arity as nat)),
{
    let full = join4(record, ".'", symbol, "'");
    let named = match find_class(registry, full.as_str()) {
        Some(named) => named,
        None => {
            return None;
        },
    };
    if named.kind == ClassKind::Function {
        return if does_take(registry, named, arity) {
            Some(named)
        } else {
            None
        };
    }
    let prefix = join4(record, ".'", symbol, "'.");
    let mut best: Option<&'a ClassDef> = None;
    let mut i: usize = 0;
    while i < registry.len()
        invariant
            i <= registry.len(),
            is_it(best, least_inside(registry@, prefix@, arity as nat, i as nat)),
        decreases registry.len() - i,
    {
        if let Some(class) = find_class(registry, registry[i].name.as_str()) {
            if starts(class.name.as_str(), prefix.as_str()) && class.kind == ClassKind::Function
                && does_take(registry, class, arity) {
                match best {
                    None => {
                        best = Some(class);
                    },
                    Some(so_far) => {
                        if comes_before(class.name.as_str(), so_far.name.as_str()) {
                            best = Some(class);
                        }
                    },
                }
            }
        }
        i = i + 1;
    }
    best
}

/// What working an operator leans on, handed in by whoever knows.
///
/// `expand` is what an expression stands for in a scope; `spread` is how many
/// records there are where a function written for one is handed a whole array
/// of them, and `each` the arguments of one of those; `again` works the
/// record's operator on such arguments, one level deeper; and `outputs` is
/// what a call of a function comes to.
pub struct Operating<A1, A2, A3, A4, A5> {
    pub expand: A1,
    pub spread: A2,
    pub each: A3,
    pub again: A4,
    pub outputs: A5,
    /// What they answer, mathematically.
    pub model: Ghost<OperatingV>,
}

/// The same, mathematically.
pub ghost struct OperatingV {
    pub expand: spec_fn(ExprV, Seq<char>, Pairs, usize) -> Result<ValueV, Seq<char>>,
    pub spread: spec_fn(ClassDef, Seq<ValueV>) -> Option<usize>,
    pub each: spec_fn(Seq<ValueV>, usize, usize) -> Result<Seq<ExprV>, Seq<char>>,
    pub again: spec_fn(Seq<char>, Seq<ExprV>, usize) -> Result<ValueV, Seq<char>>,
    pub outputs: spec_fn(ClassDef, Seq<ExprV>, Seq<Seq<i64>>, usize) -> Result<Seq<(Seq<char>, ExprV)>, Seq<char>>,
}

/// Whether each of them may be asked anything, and answers as `m` says.
pub open spec fn operates_true_to<
    A1: Fn(&Expr, &str, &Vec<(String, String)>, usize) -> Result<Value, String>,
    A2: Fn(&ClassDef, &Vec<Value>) -> Option<usize>,
    A3: Fn(&Vec<Value>, usize, usize) -> Result<Vec<Expr>, String>,
    A4: Fn(&str, &Vec<Expr>, usize) -> Result<Value, String>,
    A5: Fn(&ClassDef, &Vec<Expr>, &Vec<Vec<i64>>, usize) -> Result<Vec<(String, Expr)>, String>,
>(
    expand: A1,
    spread: A2,
    each: A3,
    again: A4,
    outputs: A5,
    m: OperatingV,
) -> bool {
    &&& forall|
        e: &Expr,
        scope: &str,
        imports: &Vec<(String, String)>,
        depth: usize,
    | #[trigger] call_requires(expand, (e, scope, imports, depth))
    &&& forall|
        e: &Expr,
        scope: &str,
        imports: &Vec<(String, String)>,
        depth: usize,
        r: Result<Value, String>,
    | #[trigger]
        call_ensures(
            expand,
            (e, scope, imports, depth),
            r,
        ) ==> told(r) == (m.expand)(e.deep_view(), scope@, imports.deep_view(), depth)
    &&& forall|
        function: &ClassDef,
        values: &Vec<Value>,
    | #[trigger] call_requires(spread, (function, values))
    &&& forall|function: &ClassDef, values: &Vec<Value>, r: Option<usize>| #[trigger]
        call_ensures(
            spread,
            (function, values),
            r,
        ) ==> r == (m.spread)(*function, values.deep_view())
    &&& forall|
        values: &Vec<Value>,
        many: usize,
        index: usize,
    | #[trigger] call_requires(each, (values, many, index))
    &&& forall|
        values: &Vec<Value>,
        many: usize,
        index: usize,
        r: Result<Vec<Expr>, String>,
    | #[trigger]
        call_ensures(
            each,
            (values, many, index),
            r,
        ) ==> told(r) == (m.each)(values.deep_view(), many, index)
    &&& forall|
        symbol: &str,
        args: &Vec<Expr>,
        depth: usize,
    | #[trigger] call_requires(again, (symbol, args, depth))
    &&& forall|symbol: &str, args: &Vec<Expr>, depth: usize, r: Result<Value, String>| #[trigger]
        call_ensures(
            again,
            (symbol, args, depth),
            r,
        ) ==> told(r) == (m.again)(symbol@, args.deep_view(), depth)
    &&& forall|
        function: &ClassDef,
        args: &Vec<Expr>,
        shapes: &Vec<Vec<i64>>,
        depth: usize,
    | #[trigger] call_requires(outputs, (function, args, shapes, depth))
    &&& forall|
        function: &ClassDef,
        args: &Vec<Expr>,
        shapes: &Vec<Vec<i64>>,
        depth: usize,
        r: Result<Vec<(String, Expr)>, String>,
    | #[trigger]
        call_ensures(
            outputs,
            (function, args, shapes, depth),
            r,
        ) ==> told(r) == (m.outputs)(*function, args.deep_view(), shapes.deep_view(), depth)
}

/// Whether each of them may be asked anything, and answers as its model says.
pub open spec fn operates_true<
    A1: Fn(&Expr, &str, &Vec<(String, String)>, usize) -> Result<Value, String>,
    A2: Fn(&ClassDef, &Vec<Value>) -> Option<usize>,
    A3: Fn(&Vec<Value>, usize, usize) -> Result<Vec<Expr>, String>,
    A4: Fn(&str, &Vec<Expr>, usize) -> Result<Value, String>,
    A5: Fn(&ClassDef, &Vec<Expr>, &Vec<Vec<i64>>, usize) -> Result<Vec<(String, Expr)>, String>,
>(s: Operating<A1, A2, A3, A4, A5>) -> bool {
    operates_true_to(s.expand, s.spread, s.each, s.again, s.outputs, s.model@)
}

/// What they answer, mathematically.
pub open spec fn operating_of<
    A1: Fn(&Expr, &str, &Vec<(String, String)>, usize) -> Result<Value, String>,
    A2: Fn(&ClassDef, &Vec<Value>) -> Option<usize>,
    A3: Fn(&Vec<Value>, usize, usize) -> Result<Vec<Expr>, String>,
    A4: Fn(&str, &Vec<Expr>, usize) -> Result<Value, String>,
    A5: Fn(&ClassDef, &Vec<Expr>, &Vec<Vec<i64>>, usize) -> Result<Vec<(String, Expr)>, String>,
>(s: Operating<A1, A2, A3, A4, A5>) -> OperatingV {
    s.model@
}

impl<
    A1: Fn(&Expr, &str, &Vec<(String, String)>, usize) -> Result<Value, String>,
    A2: Fn(&ClassDef, &Vec<Value>) -> Option<usize>,
    A3: Fn(&Vec<Value>, usize, usize) -> Result<Vec<Expr>, String>,
    A4: Fn(&str, &Vec<Expr>, usize) -> Result<Value, String>,
    A5: Fn(&ClassDef, &Vec<Expr>, &Vec<Vec<i64>>, usize) -> Result<Vec<(String, Expr)>, String>,
> Operating<A1, A2, A3, A4, A5> {
    /// The bundle of such functions, where there is anything they answer at all.
    pub fn new(expand: A1, spread: A2, each: A3, again: A4, outputs: A5) -> (r: Self)
        requires
            exists|m: OperatingV| #[trigger] operates_true_to(
                expand,
                spread,
                each,
                again,
                outputs,
                m,
            ),
        ensures
            operates_true(r),
            r.expand == expand,
            r.spread == spread,
            r.each == each,
            r.again == again,
            r.outputs == outputs,
    {
        Operating {
            expand,
            spread,
            each,
            again,
            outputs,
            model: Ghost(choose|m: OperatingV| #[trigger] operates_true_to(expand, spread, each, again, outputs, m)),
        }
    }

    pub fn do_expand(
        &self,
        e: &Expr,
        scope: &str,
        imports: &Vec<(String, String)>,
        depth: usize,
    ) -> (r: Result<Value, String>)
        requires
            operates_true(*self),
        ensures
            told(
                r,
            ) == (operating_of(*self).expand)(e.deep_view(), scope@, imports.deep_view(), depth),
    {
        let f = &self.expand;
        f(e, scope, imports, depth)
    }

    pub fn do_spread(&self, function: &ClassDef, values: &Vec<Value>) -> (r: Option<usize>)
        requires
            operates_true(*self),
        ensures
            r == (operating_of(*self).spread)(*function, values.deep_view()),
    {
        let f = &self.spread;
        f(function, values)
    }

    pub fn do_each(
        &self,
        values: &Vec<Value>,
        many: usize,
        index: usize,
    ) -> (r: Result<Vec<Expr>, String>)
        requires
            operates_true(*self),
        ensures
            told(r) == (operating_of(*self).each)(values.deep_view(), many, index),
    {
        let f = &self.each;
        f(values, many, index)
    }

    pub fn do_again(
        &self,
        symbol: &str,
        args: &Vec<Expr>,
        depth: usize,
    ) -> (r: Result<Value, String>)
        requires
            operates_true(*self),
        ensures
            told(r) == (operating_of(*self).again)(symbol@, args.deep_view(), depth),
    {
        let f = &self.again;
        f(symbol, args, depth)
    }

    pub fn do_outputs(
        &self,
        function: &ClassDef,
        args: &Vec<Expr>,
        shapes: &Vec<Vec<i64>>,
        depth: usize,
    ) -> (r: Result<Vec<(String, Expr)>, String>)
        requires
            operates_true(*self),
        ensures
            told(
                r,
            ) == (operating_of(*self).outputs)(*function, args.deep_view(), shapes.deep_view(), depth),
    {
        let f = &self.outputs;
        f(function, args, shapes, depth)
    }
}

/// Whether a call of a function always comes to something.
pub open spec fn comes_to_something(h: OperatingV) -> bool {
    forall|function: ClassDef, args: Seq<ExprV>, shapes: Seq<Seq<i64>>, depth: usize|
        (#[trigger] (h.outputs)(function, args, shapes, depth)) matches Ok(list) ==> list.len() > 0
}

/// Where an operator is worked.
pub ghost struct OperandV<'a> {
    pub h: OperatingV,
    pub classes: Seq<&'a ClassDef>,
    pub record: Seq<char>,
    pub symbol: Seq<char>,
    pub scope: Seq<char>,
    pub imports: Pairs,
    pub mark: Option<Seq<char>>,
    pub depth: usize,
}

/// Where an operator is worked, as it is held.
#[derive(Debug)]
pub struct Operand<'q, 'a> {
    pub registry: &'q Registry<'a>,
    pub record: &'q str,
    pub symbol: &'q str,
    pub scope: &'q str,
    pub imports: &'q Vec<(String, String)>,
    pub mark: &'q Option<String>,
    /// One level deeper than the expression the operator stands in.
    pub depth: usize,
}

pub open spec fn operand_of<'q, 'a,
    A1: Fn(&Expr, &str, &Vec<(String, String)>, usize) -> Result<Value, String>,
    A2: Fn(&ClassDef, &Vec<Value>) -> Option<usize>,
    A3: Fn(&Vec<Value>, usize, usize) -> Result<Vec<Expr>, String>,
    A4: Fn(&str, &Vec<Expr>, usize) -> Result<Value, String>,
    A5: Fn(&ClassDef, &Vec<Expr>, &Vec<Vec<i64>>, usize) -> Result<Vec<(String, Expr)>, String>,
>(h: Operating<A1, A2, A3, A4, A5>, q: Operand<'q, 'a>) -> OperandV<'a> {
    OperandV {
        h: operating_of(h),
        classes: q.registry@,
        record: q.record@,
        symbol: q.symbol@,
        scope: q.scope@,
        imports: q.imports.deep_view(),
        mark: q.mark.deep_view(),
        depth: q.depth,
    }
}

/// What the first `n` arguments stand for.
pub open spec fn args_expanded(k: OperandV, args: Seq<ExprV>, n: nat) -> Result<
    Seq<ValueV>,
    Seq<char>,
>
    decreases n,
{
    if n == 0 || n > args.len() {
        Ok(Seq::empty())
    } else {
        match args_expanded(k, args, (n - 1) as nat) {
            Err(why) => Err(why),
            Ok(before) => match (k.h.expand)(args[n - 1], k.scope, k.imports, k.depth) {
                Err(why) => Err(why),
                Ok(value) => Ok(before.push(value)),
            },
        }
    }
}

/// Whether an input is one record of more than one field.
pub open spec fn wants_record(k: OperandV, function: ClassDef, input: ComponentV) -> bool {
    input.dimensions.len() == 0 && (match input_fields(k.classes, function, input, k.mark) {
        Some(fields) => fields.len() > 1,
        None => false,
    })
}

/// A value handed to an input: a number standing where a record is wanted is
/// that record built from it.
pub open spec fn converted(
    k: OperandV,
    function: ClassDef,
    input: ComponentV,
    value: ValueV,
) -> Result<
    ValueV,
    Seq<char>,
> {
    match value {
        ValueV::Scalar(e) => if wants_record(k, function, input) {
            (k.h.expand)(
                ExprV::Call(input.of_type, seq![e]),
                function.name@,
                function.imports.deep_view(),
                k.depth,
            )
        } else {
            Ok(value)
        },
        ValueV::Array(_) => Ok(value),
    }
}

/// The first `n` values with every number that stands where a record is wanted
/// made one.
pub open spec fn all_converted(
    k: OperandV,
    function: ClassDef,
    inputs: Seq<ComponentV>,
    values: Seq<ValueV>,
    n: nat,
) -> Result<Seq<ValueV>, Seq<char>>
    decreases n,
{
    if n == 0 || n > values.len() {
        Ok(Seq::empty())
    } else {
        match all_converted(k, function, inputs, values, (n - 1) as nat) {
            Err(why) => Err(why),
            Ok(before) => if n - 1 < inputs.len() {
                match converted(k, function, inputs[n - 1], values[n - 1]) {
                    Err(why) => Err(why),
                    Ok(value) => Ok(before.push(value)),
                }
            } else {
                Ok(before.push(values[n - 1]))
            },
        }
    }
}

/// Whether two values are vectors of the record, to be multiplied into one.
pub open spec fn is_scalar_product(k: OperandV, function: ClassDef, values: Seq<ValueV>) -> bool {
    &&& k.symbol == "*"@
    &&& values.len() == 2
    &&& values[0] is Array
    &&& values[1] is Array
    &&& (k.h.spread)(function, seq![values[0]]) is Some
    &&& (k.h.spread)(function, seq![values[1]]) is Some
    &&& operator_meant(k.classes, k.record, "+"@, 2) is Some
}

/// The sum of the products of the first `n` pairs, with the record's own `+`.
pub open spec fn pairs_summed(k: OperandV, values: Seq<ValueV>, many: usize, n: nat) -> Result<
    Option<ValueV>,
    Seq<char>,
>
    decreases n,
{
    if n == 0 {
        Ok(None)
    } else {
        match pairs_summed(k, values, many, (n - 1) as nat) {
            Err(why) => Err(why),
            Ok(before) => match (k.h.each)(values, many, (n - 1) as usize) {
                Err(why) => Err(why),
                Ok(pair) => match (k.h.again)(k.symbol, pair, k.depth) {
                    Err(why) => Err(why),
                    Ok(product) => match before {
                        None => Ok(Some(product)),
                        Some(so_far) => match (k.h.again)(
                            "+"@,
                            seq![written_out(so_far), written_out(product)],
                            k.depth,
                        ) {
                            Err(why) => Err(why),
                            Ok(total) => Ok(Some(total)),
                        },
                    },
                },
            },
        }
    }
}

/// What the operator comes to on each of the first `n` records of an array.
pub open spec fn each_worked(k: OperandV, values: Seq<ValueV>, many: usize, n: nat) -> Result<
    Seq<ValueV>,
    Seq<char>,
>
    decreases n,
{
    if n == 0 {
        Ok(Seq::empty())
    } else {
        match each_worked(k, values, many, (n - 1) as nat) {
            Err(why) => Err(why),
            Ok(before) => match (k.h.each)(values, many, (n - 1) as usize) {
                Err(why) => Err(why),
                Ok(one) => match (k.h.again)(k.symbol, one, k.depth) {
                    Err(why) => Err(why),
                    Ok(value) => Ok(before.push(value)),
                },
            },
        }
    }
}

/// What the operator comes to where it is worked once, or on each record of an
/// array in turn.
pub open spec fn worked_through(k: OperandV, function: ClassDef, values: Seq<ValueV>) -> Result<
    ValueV,
    Seq<char>,
> {
    match (k.h.spread)(function, values) {
        Some(many) => match each_worked(k, values, many, many as nat) {
            Err(why) => Err(why),
            Ok(items) => Ok(ValueV::Array(items)),
        },
        None => match (k.h.outputs)(
            function,
            Seq::new(values.len(), |i: int| written_out(values[i])),
            Seq::new(values.len(), |i: int| lengths_of(values[i])),
            k.depth,
        ) {
            Err(why) => Err(why),
            Ok(list) => (k.h.expand)(list[0].1, k.scope, k.imports, k.depth),
        },
    }
}

/// What an overloaded operator comes to on values of the right kinds.
pub open spec fn values_worked(k: OperandV, function: ClassDef, values: Seq<ValueV>) -> Result<
    ValueV,
    Seq<char>,
> {
    if is_scalar_product(k, function, values) {
        let left = values[0]->Array_0.len();
        let right = values[1]->Array_0.len();
        if left != right {
            Err(
                "a scalar product of `"@ + k.record + "` needs equal lengths, got "@ + digits(left)
                    + " and "@ + digits(right),
            )
        } else {
            match pairs_summed(k, values, left as usize, left) {
                Err(why) => Err(why),
                Ok(Some(total)) => Ok(total),
                Ok(None) => worked_through(k, function, values),
            }
        }
    } else {
        worked_through(k, function, values)
    }
}

/// What an overloaded operator comes to.
pub open spec fn operator_worked(k: OperandV, args: Seq<ExprV>) -> Result<ValueV, Seq<char>> {
    match operator_meant(k.classes, k.record, k.symbol, args.len()) {
        None => Err(
            "`"@ + k.record + "` has no operator `"@ + k.symbol + "` taking "@ + digits(args.len())
                + " argument(s)"@,
        ),
        Some(function) => match args_expanded(k, args, args.len()) {
            Err(why) => Err(why),
            Ok(values) => match all_converted(
                k,
                function,
                inputs_of(k.classes, function),
                values,
                values.len(),
            ) {
                Err(why) => Err(why),
                Ok(values) => values_worked(k, function, values),
            },
        },
    }
}

proof fn lemma_args_stop(k: OperandV, args: Seq<ExprV>, n: nat, all: nat)
    requires
        n <= all <= args.len(),
        args_expanded(k, args, n) is Err,
    ensures
        args_expanded(k, args, all) == args_expanded(k, args, n),
    decreases all - n,
{
    if n < all {
        lemma_args_stop(k, args, n, (all - 1) as nat);
    }
}

fn expand_args<
    A1: Fn(&Expr, &str, &Vec<(String, String)>, usize) -> Result<Value, String>,
    A2: Fn(&ClassDef, &Vec<Value>) -> Option<usize>,
    A3: Fn(&Vec<Value>, usize, usize) -> Result<Vec<Expr>, String>,
    A4: Fn(&str, &Vec<Expr>, usize) -> Result<Value, String>,
    A5: Fn(&ClassDef, &Vec<Expr>, &Vec<Vec<i64>>, usize) -> Result<Vec<(String, Expr)>, String>,
>(h: &Operating<A1, A2, A3, A4, A5>, q: &Operand, args: &Vec<Expr>) -> (r: Result<
    Vec<Value>,
    String,
>)
    requires
        operates_true(*h),
    ensures
        told(r) == args_expanded(
            operand_of(*h, *q),
            args.deep_view(),
            args.deep_view().len(),
        ),
{
    let ghost k = operand_of(*h, *q);
    let ghost av = args.deep_view();
    assert(av.len() == args@.len());
    let mut out: Vec<Value> = Vec::new();
    let mut i: usize = 0;
    assert(out.deep_view() =~= Seq::empty());
    while i < args.len()
        invariant
            i <= args.len(),
            operates_true(*h),
            k == operand_of(*h, *q),
            av == args.deep_view(),
            av.len() == args@.len(),
            args_expanded(k, av, i as nat) == Ok::<Seq<ValueV>, Seq<char>>(out.deep_view()),
        decreases args.len() - i,
    {
        let ghost before = out.deep_view();
        assert(av[i as int] == args@[i as int].deep_view());
        match h.do_expand(&args[i], q.scope, q.imports, q.depth) {
            Ok(value) => {
                let ghost vv = value.deep_view();
                out.push(value);
                assert(out.deep_view() =~= before.push(vv));
            },
            Err(why) => {
                proof {
                    lemma_args_stop(k, av, (i + 1) as nat, av.len());
                }
                return Err(why);
            },
        }
        i = i + 1;
    }
    Ok(out)
}

fn convert<
    A1: Fn(&Expr, &str, &Vec<(String, String)>, usize) -> Result<Value, String>,
    A2: Fn(&ClassDef, &Vec<Value>) -> Option<usize>,
    A3: Fn(&Vec<Value>, usize, usize) -> Result<Vec<Expr>, String>,
    A4: Fn(&str, &Vec<Expr>, usize) -> Result<Value, String>,
    A5: Fn(&ClassDef, &Vec<Expr>, &Vec<Vec<i64>>, usize) -> Result<Vec<(String, Expr)>, String>,
>(
    h: &Operating<A1, A2, A3, A4, A5>,
    q: &Operand,
    function: &ClassDef,
    input: &Component,
    value: &Value,
) -> (r: Result<Value, String>)
    requires
        operates_true(*h),
    ensures
        told(r) == converted(
            operand_of(*h, *q),
            *function,
            input.deep_view(),
            value.deep_view(),
        ),
{
    assert(input.dimensions.deep_view().len() == input.dimensions@.len());
    if let Value::Scalar(e) = value {
        if input.dimensions.len() == 0 {
            if let Some(fields) = record_input_fields(q.registry, function, input, q.mark) {
                assert(crate::text::texts(fields@).len() == fields@.len());
                if fields.len() > 1 {
                    let built = make::call1(input.of_type.as_str(), e.clone());
                    return h.do_expand(
                        &built,
                        function.name.as_str(),
                        &function.imports,
                        q.depth,
                    );
                }
            }
        }
    }
    Ok(copy_value(value))
}

proof fn lemma_converted_stop(
    k: OperandV,
    function: ClassDef,
    inputs: Seq<ComponentV>,
    values: Seq<ValueV>,
    n: nat,
    all: nat,
)
    requires
        n <= all <= values.len(),
        all_converted(k, function, inputs, values, n) is Err,
    ensures
        all_converted(k, function, inputs, values, all) == all_converted(
            k,
            function,
            inputs,
            values,
            n,
        ),
    decreases all - n,
{
    if n < all {
        lemma_converted_stop(k, function, inputs, values, n, (all - 1) as nat);
    }
}

fn convert_all<
    A1: Fn(&Expr, &str, &Vec<(String, String)>, usize) -> Result<Value, String>,
    A2: Fn(&ClassDef, &Vec<Value>) -> Option<usize>,
    A3: Fn(&Vec<Value>, usize, usize) -> Result<Vec<Expr>, String>,
    A4: Fn(&str, &Vec<Expr>, usize) -> Result<Value, String>,
    A5: Fn(&ClassDef, &Vec<Expr>, &Vec<Vec<i64>>, usize) -> Result<Vec<(String, Expr)>, String>,
>(
    h: &Operating<A1, A2, A3, A4, A5>,
    q: &Operand,
    function: &ClassDef,
    values: &Vec<Value>,
) -> (r: Result<Vec<Value>, String>)
    requires
        operates_true(*h),
    ensures
        told(r) == all_converted(
            operand_of(*h, *q),
            *function,
            inputs_of(q.registry@, *function),
            values.deep_view(),
            values.deep_view().len(),
        ),
{
    let ghost k = operand_of(*h, *q);
    let inputs = list_inputs(q.registry, function);
    let ghost iv = inputs.deep_view();
    let ghost vv = values.deep_view();
    assert(vv.len() == values@.len());
    assert(iv.len() == inputs@.len());
    let mut out: Vec<Value> = Vec::new();
    let mut i: usize = 0;
    assert(out.deep_view() =~= Seq::empty());
    while i < values.len()
        invariant
            i <= values.len(),
            operates_true(*h),
            k == operand_of(*h, *q),
            iv == inputs.deep_view(),
            iv.len() == inputs@.len(),
            iv == inputs_of(q.registry@, *function),
            vv == values.deep_view(),
            vv.len() == values@.len(),
            all_converted(k, *function, iv, vv, i as nat) == Ok::<Seq<ValueV>, Seq<char>>(
                out.deep_view(),
            ),
        decreases values.len() - i,
    {
        let ghost before = out.deep_view();
        assert(vv[i as int] == values@[i as int].deep_view());
        let made = if i < inputs.len() {
            assert(iv[i as int] == inputs@[i as int].deep_view());
            match convert(h, q, function, &inputs[i], &values[i]) {
                Ok(made) => made,
                Err(why) => {
                    proof {
                        lemma_converted_stop(k, *function, iv, vv, (i + 1) as nat, vv.len());
                    }
                    return Err(why);
                },
            }
        } else {
            copy_value(&values[i])
        };
        let ghost mv = made.deep_view();
        out.push(made);
        assert(out.deep_view() =~= before.push(mv));
        i = i + 1;
    }
    Ok(out)
}

fn spreads_alone<
    A1: Fn(&Expr, &str, &Vec<(String, String)>, usize) -> Result<Value, String>,
    A2: Fn(&ClassDef, &Vec<Value>) -> Option<usize>,
    A3: Fn(&Vec<Value>, usize, usize) -> Result<Vec<Expr>, String>,
    A4: Fn(&str, &Vec<Expr>, usize) -> Result<Value, String>,
    A5: Fn(&ClassDef, &Vec<Expr>, &Vec<Vec<i64>>, usize) -> Result<Vec<(String, Expr)>, String>,
>(h: &Operating<A1, A2, A3, A4, A5>, function: &ClassDef, value: &Value) -> (r: bool)
    requires
        operates_true(*h),
    ensures
        r == ((operating_of(*h).spread)(*function, seq![value.deep_view()]) is Some),
{
    let mut one: Vec<Value> = Vec::new();
    one.push(copy_value(value));
    assert(one.deep_view() =~= seq![value.deep_view()]);
    h.do_spread(function, &one).is_some()
}

fn count_items(value: &Value) -> (r: Option<usize>)
    ensures
        match r {
            Some(n) => value.deep_view() is Array && value.deep_view()->Array_0.len() == n,
            None => value.deep_view() is Scalar,
        },
{
    match value {
        Value::Array(items) => {
            proof {
                lemma_values(*items);
            }
            assert(items.deep_view().len() == items@.len());
            Some(items.len())
        },
        Value::Scalar(_) => None,
    }
}

proof fn lemma_pairs_stop(k: OperandV, values: Seq<ValueV>, many: usize, n: nat, all: nat)
    requires
        n <= all,
        pairs_summed(k, values, many, n) is Err,
    ensures
        pairs_summed(k, values, many, all) == pairs_summed(k, values, many, n),
    decreases all - n,
{
    if n < all {
        lemma_pairs_stop(k, values, many, n, (all - 1) as nat);
    }
}

fn sum_pairs<
    A1: Fn(&Expr, &str, &Vec<(String, String)>, usize) -> Result<Value, String>,
    A2: Fn(&ClassDef, &Vec<Value>) -> Option<usize>,
    A3: Fn(&Vec<Value>, usize, usize) -> Result<Vec<Expr>, String>,
    A4: Fn(&str, &Vec<Expr>, usize) -> Result<Value, String>,
    A5: Fn(&ClassDef, &Vec<Expr>, &Vec<Vec<i64>>, usize) -> Result<Vec<(String, Expr)>, String>,
>(h: &Operating<A1, A2, A3, A4, A5>, q: &Operand, values: &Vec<Value>, many: usize) -> (r: Result<
    Option<Value>,
    String,
>)
    requires
        operates_true(*h),
    ensures
        told(r) == pairs_summed(operand_of(*h, *q), values.deep_view(), many, many as nat),
{
    let ghost k = operand_of(*h, *q);
    let ghost vv = values.deep_view();
    let mut total: Option<Value> = None;
    let mut i: usize = 0;
    while i < many
        invariant
            i <= many,
            operates_true(*h),
            k == operand_of(*h, *q),
            vv == values.deep_view(),
            pairs_summed(k, vv, many, i as nat) == Ok::<Option<ValueV>, Seq<char>>(
                total.deep_view(),
            ),
        decreases many - i,
    {
        proof {
            if pairs_summed(k, vv, many, (i + 1) as nat) is Err {
                lemma_pairs_stop(k, vv, many, (i + 1) as nat, many as nat);
            }
        }
        let pair = match h.do_each(values, many, i) {
            Ok(pair) => pair,
            Err(why) => {
                return Err(why);
            },
        };
        let product = match h.do_again(q.symbol, &pair, q.depth) {
            Ok(product) => product,
            Err(why) => {
                return Err(why);
            },
        };
        total = match total {
            None => Some(product),
            Some(so_far) => {
                let mut both: Vec<Expr> = Vec::new();
                both.push(so_far.into_expr());
                both.push(product.into_expr());
                assert(both.deep_view() =~= seq![
                    written_out(so_far.deep_view()),
                    written_out(product.deep_view()),
                ]);
                match h.do_again("+", &both, q.depth) {
                    Ok(sum) => Some(sum),
                    Err(why) => {
                        return Err(why);
                    },
                }
            },
        };
        i = i + 1;
    }
    Ok(total)
}

proof fn lemma_each_stop(k: OperandV, values: Seq<ValueV>, many: usize, n: nat, all: nat)
    requires
        n <= all,
        each_worked(k, values, many, n) is Err,
    ensures
        each_worked(k, values, many, all) == each_worked(k, values, many, n),
    decreases all - n,
{
    if n < all {
        lemma_each_stop(k, values, many, n, (all - 1) as nat);
    }
}

fn work_each<
    A1: Fn(&Expr, &str, &Vec<(String, String)>, usize) -> Result<Value, String>,
    A2: Fn(&ClassDef, &Vec<Value>) -> Option<usize>,
    A3: Fn(&Vec<Value>, usize, usize) -> Result<Vec<Expr>, String>,
    A4: Fn(&str, &Vec<Expr>, usize) -> Result<Value, String>,
    A5: Fn(&ClassDef, &Vec<Expr>, &Vec<Vec<i64>>, usize) -> Result<Vec<(String, Expr)>, String>,
>(h: &Operating<A1, A2, A3, A4, A5>, q: &Operand, values: &Vec<Value>, many: usize) -> (r: Result<
    Vec<Value>,
    String,
>)
    requires
        operates_true(*h),
    ensures
        told(r) == each_worked(operand_of(*h, *q), values.deep_view(), many, many as nat),
{
    let ghost k = operand_of(*h, *q);
    let ghost vv = values.deep_view();
    let mut out: Vec<Value> = Vec::new();
    let mut i: usize = 0;
    assert(out.deep_view() =~= Seq::empty());
    while i < many
        invariant
            i <= many,
            operates_true(*h),
            k == operand_of(*h, *q),
            vv == values.deep_view(),
            each_worked(k, vv, many, i as nat) == Ok::<Seq<ValueV>, Seq<char>>(out.deep_view()),
        decreases many - i,
    {
        let ghost before = out.deep_view();
        proof {
            if each_worked(k, vv, many, (i + 1) as nat) is Err {
                lemma_each_stop(k, vv, many, (i + 1) as nat, many as nat);
            }
        }
        let one = match h.do_each(values, many, i) {
            Ok(one) => one,
            Err(why) => {
                return Err(why);
            },
        };
        match h.do_again(q.symbol, &one, q.depth) {
            Ok(value) => {
                let ghost mv = value.deep_view();
                out.push(value);
                assert(out.deep_view() =~= before.push(mv));
            },
            Err(why) => {
                return Err(why);
            },
        }
        i = i + 1;
    }
    Ok(out)
}

fn work_through<
    A1: Fn(&Expr, &str, &Vec<(String, String)>, usize) -> Result<Value, String>,
    A2: Fn(&ClassDef, &Vec<Value>) -> Option<usize>,
    A3: Fn(&Vec<Value>, usize, usize) -> Result<Vec<Expr>, String>,
    A4: Fn(&str, &Vec<Expr>, usize) -> Result<Value, String>,
    A5: Fn(&ClassDef, &Vec<Expr>, &Vec<Vec<i64>>, usize) -> Result<Vec<(String, Expr)>, String>,
>(
    h: &Operating<A1, A2, A3, A4, A5>,
    q: &Operand,
    function: &ClassDef,
    values: &Vec<Value>,
) -> (r: Result<Value, String>)
    requires
        operates_true(*h),
        comes_to_something(operating_of(*h)),
    ensures
        told(r) == worked_through(operand_of(*h, *q), *function, values.deep_view()),
{
    if let Some(many) = h.do_spread(function, values) {
        return match work_each(h, q, values, many) {
            Ok(items) => {
                proof {
                    lemma_values(items);
                }
                Ok(Value::Array(items))
            },
            Err(why) => Err(why),
        };
    }
    let ghost vv = values.deep_view();
    let ghost wrote = Seq::new(vv.len(), |i: int| written_out(vv[i]));
    let ghost shaped = Seq::new(vv.len(), |i: int| lengths_of(vv[i]));
    let mut args: Vec<Expr> = Vec::new();
    let mut shapes: Vec<Vec<i64>> = Vec::new();
    let mut i: usize = 0;
    assert(args.deep_view() =~= wrote.take(0));
    assert(shapes.deep_view() =~= shaped.take(0));
    while i < values.len()
        invariant
            i <= values.len(),
            vv == values.deep_view(),
            wrote == Seq::new(vv.len(), |i: int| written_out(vv[i])),
            shaped == Seq::new(vv.len(), |i: int| lengths_of(vv[i])),
            args.deep_view() == wrote.take(i as int),
            shapes.deep_view() == shaped.take(i as int),
        decreases values.len() - i,
    {
        let ghost before = args.deep_view();
        let ghost earlier = shapes.deep_view();
        assert(vv[i as int] == values@[i as int].deep_view());
        args.push(values[i].into_expr());
        let shape = shape_i64(&values[i]);
        assert(shape.deep_view() =~= shape@);
        shapes.push(shape);
        assert(args.deep_view() =~= before.push(wrote[i as int]));
        assert(before.push(wrote[i as int]) =~= wrote.take(i + 1));
        assert(shapes.deep_view() =~= earlier.push(shaped[i as int]));
        assert(earlier.push(shaped[i as int]) =~= shaped.take(i + 1));
        i = i + 1;
    }
    assert(wrote.take(i as int) =~= wrote);
    assert(shaped.take(i as int) =~= shaped);
    match h.do_outputs(function, &args, &shapes, q.depth) {
        Err(why) => Err(why),
        Ok(list) => {
            assert(list.deep_view().len() == list@.len());
            assert((operating_of(*h).outputs)(*function, wrote, shaped, q.depth) == Ok::<
                Seq<(Seq<char>, ExprV)>,
                Seq<char>,
            >(list.deep_view()));
            assert(list.deep_view()[0] == list@[0].deep_view());
            h.do_expand(&list[0].1, q.scope, q.imports, q.depth)
        },
    }
}

fn work_values<
    A1: Fn(&Expr, &str, &Vec<(String, String)>, usize) -> Result<Value, String>,
    A2: Fn(&ClassDef, &Vec<Value>) -> Option<usize>,
    A3: Fn(&Vec<Value>, usize, usize) -> Result<Vec<Expr>, String>,
    A4: Fn(&str, &Vec<Expr>, usize) -> Result<Value, String>,
    A5: Fn(&ClassDef, &Vec<Expr>, &Vec<Vec<i64>>, usize) -> Result<Vec<(String, Expr)>, String>,
>(
    h: &Operating<A1, A2, A3, A4, A5>,
    q: &Operand,
    function: &ClassDef,
    values: &Vec<Value>,
) -> (r: Result<Value, String>)
    requires
        operates_true(*h),
        comes_to_something(operating_of(*h)),
    ensures
        told(r) == values_worked(operand_of(*h, *q), *function, values.deep_view()),
{
    assert(values.deep_view().len() == values@.len());
    if same(q.symbol, "*") && values.len() == 2 {
        assert(values.deep_view()[0] == values@[0].deep_view());
        assert(values.deep_view()[1] == values@[1].deep_view());
        if let (Some(left), Some(right)) = (count_items(&values[0]), count_items(&values[1])) {
            if spreads_alone(h, function, &values[0]) && spreads_alone(h, function, &values[1])
                && operator_function(q.registry, q.record, "+", 2).is_some() {
                if left != right {
                    let a = decimal(left as u64);
                    let b = decimal(right as u64);
                    let head = join4(
                        "a scalar product of `",
                        q.record,
                        "` needs equal lengths, got ",
                        a.as_str(),
                    );
                    return Err(crate::text::join3(head.as_str(), " and ", b.as_str()));
                }
                match sum_pairs(h, q, values, left) {
                    Err(why) => {
                        return Err(why);
                    },
                    Ok(Some(total)) => {
                        return Ok(total);
                    },
                    Ok(None) => {},
                }
            }
        }
    }
    work_through(h, q, function, values)
}

/// Work an overloaded operator, or say why the record cannot.
///
/// A number standing where the operator wants a record is that record built
/// from it. Two vectors of the record multiplied are their scalar product,
/// summed with the record's own `+`; any other operator handed whole arrays of
/// records works on each in turn.
pub fn apply_operator<
    A1: Fn(&Expr, &str, &Vec<(String, String)>, usize) -> Result<Value, String>,
    A2: Fn(&ClassDef, &Vec<Value>) -> Option<usize>,
    A3: Fn(&Vec<Value>, usize, usize) -> Result<Vec<Expr>, String>,
    A4: Fn(&str, &Vec<Expr>, usize) -> Result<Value, String>,
    A5: Fn(&ClassDef, &Vec<Expr>, &Vec<Vec<i64>>, usize) -> Result<Vec<(String, Expr)>, String>,
>(h: &Operating<A1, A2, A3, A4, A5>, q: &Operand, args: &Vec<Expr>) -> (r: Result<
    Value,
    String,
>)
    requires
        operates_true(*h),
        comes_to_something(operating_of(*h)),
    ensures
        told(r) == operator_worked(operand_of(*h, *q), args.deep_view()),
{
    assert(args.deep_view().len() == args@.len());
    let function = match operator_function(q.registry, q.record, q.symbol, args.len()) {
        Some(function) => function,
        None => {
            let many = decimal(args.len() as u64);
            return Err(
                join7(
                    "`",
                    q.record,
                    "` has no operator `",
                    q.symbol,
                    "` taking ",
                    many.as_str(),
                    " argument(s)",
                ),
            );
        },
    };
    let expanded = match expand_args(h, q, args) {
        Ok(values) => values,
        Err(why) => {
            return Err(why);
        },
    };
    match convert_all(h, q, function, &expanded) {
        Ok(values) => work_values(h, q, function, &values),
        Err(why) => Err(why),
    }
}

/// An operator that a record does not declare for so many arguments is refused
/// whatever the arguments are.
pub proof fn law_an_undeclared_operator_is_refused(k: OperandV, args: Seq<ExprV>)
    requires
        operator_meant(k.classes, k.record, k.symbol, args.len()) is None,
    ensures
        operator_worked(k, args) is Err,
{
}

}
