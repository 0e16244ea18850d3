//! Expressions, and the two ways of going through one: by its children, and
//! by rebuilding it over new ones.
use crate::number::Number;
use crate::text::same;
use vstd::prelude::*;

verus! {

#[derive(Clone, Copy, Debug, PartialEq, Eq, Structural)]
pub enum BinOp {
    Add,
    Sub,
    Mul,
    Div,
    Pow,
}

#[derive(Clone, Copy, Debug, PartialEq, Eq, Structural)]
pub enum RelOp {
    Lt,
    Le,
    Gt,
    Ge,
    Eq,
    Ne,
}

/// An expression as a class writes it.
#[derive(Debug)]
pub enum Expr {
    Number(Number),
    Bool(bool),
    Str(String),
    Ref(String),
    Time,
    Neg(Box<Expr>),
    Not(Box<Expr>),
    Bin(BinOp, Box<Expr>, Box<Expr>),
    /// An operator taken element by element: `.+`, `.*`.
    Elementwise(BinOp, Box<Expr>, Box<Expr>),
    Rel(RelOp, Box<Expr>, Box<Expr>),
    And(Box<Expr>, Box<Expr>),
    Or(Box<Expr>, Box<Expr>),
    If(Box<Expr>, Box<Expr>, Box<Expr>),
    Call(String, Vec<Expr>),
    Index(Box<Expr>, Vec<Expr>),
    Member(Box<Expr>, String),
    Array(Vec<Expr>),
    MatrixRows(Vec<Vec<Expr>>),
    Range(Box<Expr>, Option<Box<Expr>>, Box<Expr>),
    /// The body, the loop variable and what it ranges over.
    Comprehension(Box<Expr>, String, Box<Expr>),
    ColonSubscript,
    EndSubscript,
    NamedArg(String, Box<Expr>),
    Tuple(Vec<Option<Expr>>),
    /// A value, the body of its derivative and what that body names.
    WithDerivative(Box<Expr>, Box<Expr>, Vec<(String, Expr)>),
}

/// What an expression is, mathematically.
pub ghost enum ExprV {
    Number(Number),
    Bool(bool),
    Str(Seq<char>),
    Ref(Seq<char>),
    Time,
    Neg(Box<ExprV>),
    Not(Box<ExprV>),
    Bin(BinOp, Box<ExprV>, Box<ExprV>),
    Elementwise(BinOp, Box<ExprV>, Box<ExprV>),
    Rel(RelOp, Box<ExprV>, Box<ExprV>),
    And(Box<ExprV>, Box<ExprV>),
    Or(Box<ExprV>, Box<ExprV>),
    If(Box<ExprV>, Box<ExprV>, Box<ExprV>),
    Call(Seq<char>, Seq<ExprV>),
    Index(Box<ExprV>, Seq<ExprV>),
    Member(Box<ExprV>, Seq<char>),
    Array(Seq<ExprV>),
    MatrixRows(Seq<Seq<ExprV>>),
    Range(Box<ExprV>, Option<Box<ExprV>>, Box<ExprV>),
    Comprehension(Box<ExprV>, Seq<char>, Box<ExprV>),
    ColonSubscript,
    EndSubscript,
    NamedArg(Seq<char>, Box<ExprV>),
    Tuple(Seq<Option<ExprV>>),
    WithDerivative(Box<ExprV>, Box<ExprV>, Seq<(Seq<char>, ExprV)>),
}

pub open spec fn expr_views(s: Seq<Expr>) -> Seq<ExprV>
    decreases s,
{
    Seq::new(
        s.len(),
        |i: int|
            if 0 <= i < s.len() {
                expr_view(s[i])
            } else {
                arbitrary()
            },
    )
}

/// The expression behind the one that is held.
pub open spec fn expr_view(e: Expr) -> ExprV
    decreases e,
{
    match e {
        Expr::Number(n) => ExprV::Number(n),
        Expr::Bool(b) => ExprV::Bool(b),
        Expr::Str(s) => ExprV::Str(s@),
        Expr::Ref(s) => ExprV::Ref(s@),
        Expr::Time => ExprV::Time,
        Expr::Neg(a) => ExprV::Neg(Box::new(expr_view(*a))),
        Expr::Not(a) => ExprV::Not(Box::new(expr_view(*a))),
        Expr::Bin(op, a, b) => ExprV::Bin(op, Box::new(expr_view(*a)), Box::new(expr_view(*b))),
        Expr::Elementwise(op, a, b) => ExprV::Elementwise(
            op,
            Box::new(expr_view(*a)),
            Box::new(expr_view(*b)),
        ),
        Expr::Rel(op, a, b) => ExprV::Rel(op, Box::new(expr_view(*a)), Box::new(expr_view(*b))),
        Expr::And(a, b) => ExprV::And(Box::new(expr_view(*a)), Box::new(expr_view(*b))),
        Expr::Or(a, b) => ExprV::Or(Box::new(expr_view(*a)), Box::new(expr_view(*b))),
        Expr::If(c, a, b) => ExprV::If(
            Box::new(expr_view(*c)),
            Box::new(expr_view(*a)),
            Box::new(expr_view(*b)),
        ),
        Expr::Call(f, args) => ExprV::Call(f@, expr_views(args@)),
        Expr::Index(a, subs) => ExprV::Index(Box::new(expr_view(*a)), expr_views(subs@)),
        Expr::Member(a, m) => ExprV::Member(Box::new(expr_view(*a)), m@),
        Expr::Array(items) => ExprV::Array(expr_views(items@)),
        Expr::MatrixRows(rows) => ExprV::MatrixRows(
            Seq::new(
                rows@.len(),
                |i: int|
                    if 0 <= i < rows@.len() {
                        expr_views(rows@[i]@)
                    } else {
                        Seq::empty()
                    },
            ),
        ),
        Expr::Range(a, s, b) => ExprV::Range(
            Box::new(expr_view(*a)),
            match s {
                Some(s) => Some(Box::new(expr_view(*s))),
                None => None,
            },
            Box::new(expr_view(*b)),
        ),
        Expr::Comprehension(a, v, b) => ExprV::Comprehension(
            Box::new(expr_view(*a)),
            v@,
            Box::new(expr_view(*b)),
        ),
        Expr::ColonSubscript => ExprV::ColonSubscript,
        Expr::EndSubscript => ExprV::EndSubscript,
        Expr::NamedArg(n, a) => ExprV::NamedArg(n@, Box::new(expr_view(*a))),
        Expr::Tuple(items) => ExprV::Tuple(
            Seq::new(
                items@.len(),
                |i: int|
                    if 0 <= i < items@.len() {
                        match items@[i] {
                            Some(item) => Some(expr_view(item)),
                            None => None,
                        }
                    } else {
                        None
                    },
            ),
        ),
        Expr::WithDerivative(a, b, named) => ExprV::WithDerivative(
            Box::new(expr_view(*a)),
            Box::new(expr_view(*b)),
            Seq::new(
                named@.len(),
                |i: int|
                    if 0 <= i < named@.len() {
                        (named@[i].0@, expr_view(named@[i].1))
                    } else {
                        arbitrary()
                    },
            ),
        ),
    }
}

impl DeepView for Expr {
    type V = ExprV;

    open spec fn deep_view(&self) -> ExprV {
        expr_view(*self)
    }
}

pub proof fn lemma_views(items: Vec<Expr>)
    ensures
        items.deep_view() == expr_views(items@),
{
    assert(items.deep_view() =~= expr_views(items@));
}

pub proof fn lemma_rows(rows: Vec<Vec<Expr>>)
    ensures
        Expr::MatrixRows(rows).deep_view() == ExprV::MatrixRows(rows.deep_view()),
{
    assert forall|i: int| 0 <= i < rows@.len() implies expr_views((#[trigger] rows@[i])@)
        == rows@[i].deep_view() by {
        lemma_views(rows@[i]);
    }
    assert(expr_view(Expr::MatrixRows(rows))->MatrixRows_0 =~= rows.deep_view());
}

pub proof fn lemma_tuple_view(items: Vec<Option<Expr>>)
    ensures
        expr_view(Expr::Tuple(items)) == ExprV::Tuple(items.deep_view()),
{
    assert(expr_view(Expr::Tuple(items))->Tuple_0 =~= items.deep_view());
}

/// The cells of a matrix, row after row.
pub open spec fn cells(rows: Seq<Seq<ExprV>>) -> Seq<ExprV>
    decreases rows.len(),
{
    if rows.len() == 0 {
        Seq::empty()
    } else {
        cells(rows.drop_last()) + rows.last()
    }
}

/// New cells set out in rows as long as the old ones.
pub open spec fn recell(rows: Seq<Seq<ExprV>>, new: Seq<ExprV>) -> Seq<Seq<ExprV>>
    decreases rows.len(),
{
    if rows.len() == 0 {
        Seq::empty()
    } else {
        let held = rows.last().len() as int;
        recell(rows.drop_last(), new.take(new.len() - held)).push(new.skip(new.len() - held))
    }
}

/// The places of a tuple that hold something.
pub open spec fn held(items: Seq<Option<ExprV>>) -> Seq<ExprV>
    decreases items.len(),
{
    if items.len() == 0 {
        Seq::empty()
    } else {
        match items.last() {
            Some(item) => held(items.drop_last()).push(item),
            None => held(items.drop_last()),
        }
    }
}

/// The same places filled with something else.
pub open spec fn reheld(items: Seq<Option<ExprV>>, new: Seq<ExprV>) -> Seq<Option<ExprV>>
    decreases items.len(),
{
    if items.len() == 0 {
        Seq::empty()
    } else {
        match items.last() {
            Some(_) => reheld(items.drop_last(), new.drop_last()).push(Some(new.last())),
            None => reheld(items.drop_last(), new).push(None),
        }
    }
}

pub open spec fn values_of(named: Seq<(Seq<char>, ExprV)>) -> Seq<ExprV> {
    Seq::new(named.len(), |i: int| named[i].1)
}

pub open spec fn revalued(named: Seq<(Seq<char>, ExprV)>, new: Seq<ExprV>) -> Seq<
    (Seq<char>, ExprV),
> {
    Seq::new(named.len(), |i: int| (named[i].0, new[i]))
}

/// The expressions an expression is made of, in the order they are written.
pub open spec fn kids(e: ExprV) -> Seq<ExprV> {
    match e {
        ExprV::Neg(a) => seq![*a],
        ExprV::Not(a) => seq![*a],
        ExprV::Bin(_, a, b) => seq![*a, *b],
        ExprV::Elementwise(_, a, b) => seq![*a, *b],
        ExprV::Rel(_, a, b) => seq![*a, *b],
        ExprV::And(a, b) => seq![*a, *b],
        ExprV::Or(a, b) => seq![*a, *b],
        ExprV::If(c, a, b) => seq![*c, *a, *b],
        ExprV::Call(_, args) => args,
        ExprV::Index(a, subs) => seq![*a] + subs,
        ExprV::Member(a, _) => seq![*a],
        ExprV::Array(items) => items,
        ExprV::MatrixRows(rows) => cells(rows),
        ExprV::Range(a, Some(s), b) => seq![*a, *s, *b],
        ExprV::Range(a, None, b) => seq![*a, *b],
        ExprV::Comprehension(a, _, b) => seq![*a, *b],
        ExprV::NamedArg(_, a) => seq![*a],
        ExprV::Tuple(items) => held(items),
        ExprV::WithDerivative(a, b, named) => seq![*a, *b] + values_of(named),
        _ => Seq::empty(),
    }
}

/// The same expression made of others.
pub open spec fn with_kids(e: ExprV, new: Seq<ExprV>) -> ExprV {
    match e {
        ExprV::Neg(_) => ExprV::Neg(Box::new(new[0])),
        ExprV::Not(_) => ExprV::Not(Box::new(new[0])),
        ExprV::Bin(op, _, _) => ExprV::Bin(op, Box::new(new[0]), Box::new(new[1])),
        ExprV::Elementwise(op, _, _) => ExprV::Elementwise(
            op,
            Box::new(new[0]),
            Box::new(new[1]),
        ),
        ExprV::Rel(op, _, _) => ExprV::Rel(op, Box::new(new[0]), Box::new(new[1])),
        ExprV::And(_, _) => ExprV::And(Box::new(new[0]), Box::new(new[1])),
        ExprV::Or(_, _) => ExprV::Or(Box::new(new[0]), Box::new(new[1])),
        ExprV::If(_, _, _) => ExprV::If(Box::new(new[0]), Box::new(new[1]), Box::new(new[2])),
        ExprV::Call(f, _) => ExprV::Call(f, new),
        ExprV::Index(_, _) => ExprV::Index(Box::new(new[0]), new.drop_first()),
        ExprV::Member(_, m) => ExprV::Member(Box::new(new[0]), m),
        ExprV::Array(_) => ExprV::Array(new),
        ExprV::MatrixRows(rows) => ExprV::MatrixRows(recell(rows, new)),
        ExprV::Range(_, Some(_), _) => ExprV::Range(
            Box::new(new[0]),
            Some(Box::new(new[1])),
            Box::new(new[2]),
        ),
        ExprV::Range(_, None, _) => ExprV::Range(Box::new(new[0]), None, Box::new(new[1])),
        ExprV::Comprehension(_, v, _) => ExprV::Comprehension(
            Box::new(new[0]),
            v,
            Box::new(new[1]),
        ),
        ExprV::NamedArg(n, _) => ExprV::NamedArg(n, Box::new(new[0])),
        ExprV::Tuple(items) => ExprV::Tuple(reheld(items, new)),
        ExprV::WithDerivative(_, _, named) => ExprV::WithDerivative(
            Box::new(new[0]),
            Box::new(new[1]),
            revalued(named, new.skip(2)),
        ),
        other => other,
    }
}

/// Whether an expression is a call of that name with that many arguments.
pub open spec fn is_call(e: ExprV, name: Seq<char>, n: int) -> bool {
    e matches ExprV::Call(called, args) && called == name && args.len() == n
}

proof fn lemma_cells_smaller(rows: Seq<Seq<ExprV>>, i: int)
    requires
        0 <= i < cells(rows).len(),
    ensures
        exists|r: int, c: int|
            0 <= r < rows.len() && 0 <= c < rows[r].len() && #[trigger] rows[r][c] == cells(
                rows,
            )[i],
    decreases rows.len(),
{
    if rows.len() > 0 {
        let front = cells(rows.drop_last());
        if i < front.len() {
            lemma_cells_smaller(rows.drop_last(), i);
            let (r, c) = choose|r: int, c: int|
                0 <= r < rows.drop_last().len() && 0 <= c < rows.drop_last()[r].len()
                    && #[trigger] rows.drop_last()[r][c] == front[i];
            assert(rows[r][c] == cells(rows)[i]);
        } else {
            assert(rows[rows.len() - 1][i - front.len()] == cells(rows)[i]);
        }
    }
}

proof fn lemma_held_smaller(items: Seq<Option<ExprV>>, i: int)
    requires
        0 <= i < held(items).len(),
    ensures
        exists|k: int| 0 <= k < items.len() && #[trigger] items[k] == Some(held(items)[i]),
    decreases items.len(),
{
    if items.len() > 0 {
        let front = held(items.drop_last());
        if i < front.len() {
            lemma_held_smaller(items.drop_last(), i);
            let k = choose|k: int|
                0 <= k < items.drop_last().len() && #[trigger] items.drop_last()[k] == Some(
                    front[i],
                );
            assert(items[k] == Some(held(items)[i]));
        } else {
            assert(items[items.len() - 1] == Some(held(items)[i]));
        }
    }
}

/// What an expression is made of is smaller than the expression.
pub proof fn lemma_kids_smaller(e: ExprV)
    ensures
        forall|i: int| 0 <= i < kids(e).len() ==> (#[trigger] decreases_to!(e => kids(e)[i])),
{
    assert forall|i: int| 0 <= i < kids(e).len() implies #[trigger] decreases_to!(e => kids(e)[i]) by {
        match e {
            ExprV::MatrixRows(rows) => {
                lemma_cells_smaller(rows, i);
                let (r, c) = choose|r: int, c: int|
                    0 <= r < rows.len() && 0 <= c < rows[r].len() && #[trigger] rows[r][c] == cells(
                        rows,
                    )[i];
                assert(decreases_to!(e => rows));
                assert(decreases_to!(rows => rows[r]));
                assert(decreases_to!(rows[r] => rows[r][c]));
            },
            ExprV::Tuple(items) => {
                lemma_held_smaller(items, i);
                let k = choose|k: int| 0 <= k < items.len() && #[trigger] items[k] == Some(held(items)[i]);
                assert(decreases_to!(e => items));
                assert(decreases_to!(items => items[k]));
                assert(decreases_to!(items[k] => items[k]->0));
            },
            ExprV::WithDerivative(a, b, named) => {
                if i >= 2 {
                    assert(kids(e)[i] == named[i - 2].1);
                    assert(decreases_to!(e => named));
                    assert(decreases_to!(named => named[i - 2]));
                    assert(decreases_to!(named[i - 2] => named[i - 2].1));
                }
            },
            ExprV::Index(a, subs) => {
                if i >= 1 {
                    assert(kids(e)[i] == subs[i - 1]);
                    assert(decreases_to!(e => subs));
                }
            },
            ExprV::Call(_, args) => {
                assert(decreases_to!(e => args));
            },
            ExprV::Array(args) => {
                assert(decreases_to!(e => args));
            },
            _ => {},
        }
    }
}

proof fn lemma_recell(rows: Seq<Seq<ExprV>>, new: Seq<ExprV>)
    requires
        new.len() == cells(rows).len(),
    ensures
        recell(rows, new).len() == rows.len(),
        forall|i: int| 0 <= i < rows.len() ==> #[trigger] recell(rows, new)[i].len() == rows[i].len(),
        cells(recell(rows, new)) == new,
        new == cells(rows) ==> recell(rows, new) == rows,
    decreases rows.len(),
{
    if rows.len() > 0 {
        let held = rows.last().len() as int;
        let front = new.take(new.len() - held);
        let back = new.skip(new.len() - held);
        lemma_recell(rows.drop_last(), front);
        assert(recell(rows, new).drop_last() =~= recell(rows.drop_last(), front));
        assert(front + back =~= new);
        assert forall|i: int| 0 <= i < rows.len() implies #[trigger] recell(rows, new)[i].len()
            == rows[i].len() by {
            if i < rows.len() - 1 {
                assert(recell(rows, new)[i] == recell(rows.drop_last(), front)[i]);
                assert(rows.drop_last()[i] == rows[i]);
            }
        }
        if new == cells(rows) {
            assert(front =~= cells(rows.drop_last()));
            assert(back =~= rows.last());
            assert(recell(rows, new) =~= rows);
        }
    } else {
        assert(recell(rows, new) =~= rows);
        assert(new =~= cells(rows));
    }
}

proof fn lemma_reheld(items: Seq<Option<ExprV>>, new: Seq<ExprV>)
    requires
        new.len() == held(items).len(),
    ensures
        reheld(items, new).len() == items.len(),
        held(reheld(items, new)) == new,
        new == held(items) ==> reheld(items, new) == items,
    decreases items.len(),
{
    if items.len() > 0 {
        match items.last() {
            Some(item) => {
                lemma_reheld(items.drop_last(), new.drop_last());
                assert(reheld(items, new).drop_last() =~= reheld(
                    items.drop_last(),
                    new.drop_last(),
                ));
                assert(new.drop_last().push(new.last()) =~= new);
                if new == held(items) {
                    assert(new.drop_last() =~= held(items.drop_last()));
                    assert(reheld(items, new) =~= items);
                }
            },
            None => {
                lemma_reheld(items.drop_last(), new);
                assert(reheld(items, new).drop_last() =~= reheld(items.drop_last(), new));
                if new == held(items) {
                    assert(reheld(items, new) =~= items);
                }
            },
        }
    } else {
        assert(reheld(items, new) =~= items);
        assert(new =~= held(items));
    }
}

/// An expression rebuilt over its own children is itself, and one rebuilt
/// over others has those for its children.
pub proof fn law_rebuilding(e: ExprV, new: Seq<ExprV>)
    requires
        new.len() == kids(e).len(),
    ensures
        kids(with_kids(e, new)) == new,
        new == kids(e) ==> with_kids(e, new) == e,
{
    match e {
        ExprV::MatrixRows(rows) => {
            lemma_recell(rows, new);
        },
        ExprV::Tuple(items) => {
            lemma_reheld(items, new);
        },
        ExprV::WithDerivative(a, b, named) => {
            assert(kids(with_kids(e, new)) =~= new);
            if new == kids(e) {
                assert(revalued(named, new.skip(2)) =~= named);
            }
        },
        ExprV::Index(a, subs) => {
            assert(kids(with_kids(e, new)) =~= new);
            if new == kids(e) {
                assert(new.drop_first() =~= subs);
            }
        },
        _ => {
            assert(kids(with_kids(e, new)) =~= new);
        },
    }
}

impl Expr {
    /// The expressions this one is made of, in the order they are written.
    pub fn children(&self) -> (r: Vec<&Expr>)
        ensures
            r.deep_view() == kids(self.deep_view()),
    {
        let mut out: Vec<&Expr> = Vec::new();
        match self {
            Expr::Neg(a) | Expr::Not(a) | Expr::Member(a, _) | Expr::NamedArg(_, a) => {
                out.push(&**a);
                assert(out.deep_view() =~= kids(self.deep_view()));
            },
            Expr::Bin(_, a, b)
            | Expr::Elementwise(_, a, b)
            | Expr::Rel(_, a, b)
            | Expr::And(a, b)
            | Expr::Or(a, b)
            | Expr::Comprehension(a, _, b) => {
                out.push(&**a);
                out.push(&**b);
                assert(out.deep_view() =~= kids(self.deep_view()));
            },
            Expr::If(c, a, b) => {
                out.push(&**c);
                out.push(&**a);
                out.push(&**b);
                assert(out.deep_view() =~= kids(self.deep_view()));
            },
            Expr::Call(_, args) => {
                push_refs(&mut out, args);
                assert(out.deep_view() =~= kids(self.deep_view()));
            },
            Expr::Array(args) => {
                push_refs(&mut out, args);
                assert(out.deep_view() =~= kids(self.deep_view()));
            },
            Expr::Index(a, subs) => {
                out.push(&**a);
                push_refs(&mut out, subs);
                assert(out.deep_view() =~= kids(self.deep_view()));
            },
            Expr::MatrixRows(rows) => {
                let ghost all = self.deep_view()->MatrixRows_0;
                let mut i: usize = 0;
                while i < rows.len()
                    invariant
                        i <= rows.len(),
                        all == expr_view(Expr::MatrixRows(*rows))->MatrixRows_0,
                        all.len() == rows.len(),
                        out.deep_view() == cells(all.take(i as int)),
                    decreases rows.len() - i,
                {
                    push_refs(&mut out, &rows[i]);
                    assert(all.take(i + 1).drop_last() =~= all.take(i as int));
                    assert(all[i as int] == expr_views(rows@[i as int]@));
                    i = i + 1;
                }
                assert(all.take(i as int) =~= all);
            },
            Expr::Range(a, s, b) => {
                out.push(&**a);
                if let Some(step) = s {
                    out.push(&**step);
                }
                out.push(&**b);
                assert(out.deep_view() =~= kids(self.deep_view()));
            },
            Expr::Tuple(items) => {
                let ghost all = self.deep_view()->Tuple_0;
                let mut i: usize = 0;
                while i < items.len()
                    invariant
                        i <= items.len(),
                        all == expr_view(Expr::Tuple(*items))->Tuple_0,
                        all.len() == items.len(),
                        out.deep_view() == held(all.take(i as int)),
                    decreases items.len() - i,
                {
                    assert(all.take(i + 1).drop_last() =~= all.take(i as int));
                    if let Some(item) = &items[i] {
                        out.push(item);
                        assert(out.deep_view() =~= held(all.take(i as int)).push(item.deep_view()));
                    }
                    i = i + 1;
                }
                assert(all.take(i as int) =~= all);
            },
            Expr::WithDerivative(a, b, named) => {
                out.push(&**a);
                out.push(&**b);
                let ghost all = self.deep_view()->WithDerivative_2;
                let ghost front = seq![(**a).deep_view(), (**b).deep_view()];
                let mut i: usize = 0;
                assert(out.deep_view() =~= front + values_of(all.take(0)));
                while i < named.len()
                    invariant
                        i <= named.len(),
                        all == expr_view(Expr::WithDerivative(*a, *b, *named))->WithDerivative_2,
                        all.len() == named.len(),
                        out.deep_view() == front + values_of(all.take(i as int)),
                    decreases named.len() - i,
                {
                    let ghost before = out.deep_view();
                    out.push(&named[i].1);
                    assert(out.deep_view() =~= before.push(named[i as int].1.deep_view()));
                    assert(out.deep_view() =~= front + values_of(all.take(i + 1)));
                    i = i + 1;
                }
                assert(all.take(i as int) =~= all);
                assert(out.deep_view() =~= kids(self.deep_view()));
            },
            _ => {
                assert(out.deep_view() =~= kids(self.deep_view()));
            },
        }
        out
    }

    /// This expression made of others.
    pub fn with_children(&self, new: Vec<Expr>) -> (r: Expr)
        requires
            new.len() == kids(self.deep_view()).len(),
        ensures
            r.deep_view() == with_kids(self.deep_view(), new.deep_view()),
    {
        let mut new = new;
        let ghost was = new.deep_view();
        match self {
            Expr::Number(n) => Expr::Number(*n),
            Expr::Bool(b) => Expr::Bool(*b),
            Expr::Str(s) => Expr::Str(s.clone()),
            Expr::Ref(s) => Expr::Ref(s.clone()),
            Expr::Time => Expr::Time,
            Expr::ColonSubscript => Expr::ColonSubscript,
            Expr::EndSubscript => Expr::EndSubscript,
            Expr::Neg(_) => Expr::Neg(Box::new(new.remove(0))),
            Expr::Not(_) => Expr::Not(Box::new(new.remove(0))),
            Expr::Bin(op, _, _) => {
                let a = new.remove(0);
                Expr::Bin(*op, Box::new(a), Box::new(new.remove(0)))
            },
            Expr::Elementwise(op, _, _) => {
                let a = new.remove(0);
                Expr::Elementwise(*op, Box::new(a), Box::new(new.remove(0)))
            },
            Expr::Rel(op, _, _) => {
                let a = new.remove(0);
                Expr::Rel(*op, Box::new(a), Box::new(new.remove(0)))
            },
            Expr::And(_, _) => {
                let a = new.remove(0);
                Expr::And(Box::new(a), Box::new(new.remove(0)))
            },
            Expr::Or(_, _) => {
                let a = new.remove(0);
                Expr::Or(Box::new(a), Box::new(new.remove(0)))
            },
            Expr::If(_, _, _) => {
                let c = new.remove(0);
                let a = new.remove(0);
                Expr::If(Box::new(c), Box::new(a), Box::new(new.remove(0)))
            },
            Expr::Call(f, _) => {
                proof {
                    lemma_views(new);
                }
                Expr::Call(f.clone(), new)
            },
            Expr::Array(_) => {
                proof {
                    lemma_views(new);
                }
                Expr::Array(new)
            },
            Expr::Index(_, _) => {
                let a = new.remove(0);
                proof {
                    lemma_views(new);
                    assert(new.deep_view() =~= was.drop_first());
                }
                Expr::Index(Box::new(a), new)
            },
            Expr::Member(_, m) => Expr::Member(Box::new(new.remove(0)), m.clone()),
            Expr::MatrixRows(rows) => {
                assert(row_views(rows@) =~= self.deep_view()->MatrixRows_0);
                let out = in_rows(rows, new);
                assert(row_views(out@) =~= expr_view(Expr::MatrixRows(out))->MatrixRows_0);
                Expr::MatrixRows(out)
            },
            Expr::Range(_, s, _) => {
                let a = new.remove(0);
                match s {
                    Some(_) => {
                        let step = new.remove(0);
                        Expr::Range(Box::new(a), Some(Box::new(step)), Box::new(new.remove(0)))
                    },
                    None => Expr::Range(Box::new(a), None, Box::new(new.remove(0))),
                }
            },
            Expr::Comprehension(_, v, _) => {
                let a = new.remove(0);
                Expr::Comprehension(Box::new(a), v.clone(), Box::new(new.remove(0)))
            },
            Expr::NamedArg(n, _) => Expr::NamedArg(n.clone(), Box::new(new.remove(0))),
            Expr::Tuple(items) => {
                assert(place_views(items@) =~= self.deep_view()->Tuple_0);
                let out = in_places(items, new);
                assert(place_views(out@) =~= expr_view(Expr::Tuple(out))->Tuple_0);
                Expr::Tuple(out)
            },
            Expr::WithDerivative(_, _, named) => {
                let a = new.remove(0);
                let b = new.remove(0);
                assert(new.deep_view() =~= was.skip(2));
                assert(named.deep_view() =~= self.deep_view()->WithDerivative_2);
                let out = under_names(named, new);
                assert(out.deep_view() =~= expr_view(
                    Expr::WithDerivative(Box::new(a), Box::new(b), out),
                )->WithDerivative_2);
                Expr::WithDerivative(Box::new(a), Box::new(b), out)
            },
        }
    }
}

fn push_refs<'a>(out: &mut Vec<&'a Expr>, items: &'a Vec<Expr>)
    ensures
        final(out).deep_view() == old(out).deep_view() + expr_views(items@),
{
    let ghost was = out.deep_view();
    let mut i: usize = 0;
    assert(out.deep_view() =~= was + expr_views(items@).take(0));
    while i < items.len()
        invariant
            i <= items.len(),
            out.deep_view() == was + expr_views(items@).take(i as int),
        decreases items.len() - i,
    {
        let ghost before = out.deep_view();
        out.push(&items[i]);
        assert(out.deep_view() =~= before.push(items[i as int].deep_view()));
        assert(out.deep_view() =~= was + expr_views(items@).take(i + 1));
        i = i + 1;
    }
    assert(expr_views(items@).take(i as int) =~= expr_views(items@));
}

spec fn row_views(rows: Seq<Vec<Expr>>) -> Seq<Seq<ExprV>> {
    Seq::new(rows.len(), |i: int| expr_views(rows[i]@))
}

fn in_rows(rows: &Vec<Vec<Expr>>, new: Vec<Expr>) -> (r: Vec<Vec<Expr>>)
    requires
        new.len() == cells(row_views(rows@)).len(),
    ensures
        row_views(r@) == recell(row_views(rows@), new.deep_view()),
{
    let ghost all = row_views(rows@);
    let ghost was = new.deep_view();
    let mut new = new;
    let mut out: Vec<Vec<Expr>> = Vec::new();
    let mut i: usize = rows.len();
    // The rows are taken off the end, so they come out backwards.
    let mut backwards: Vec<Vec<Expr>> = Vec::new();
    proof {
        lemma_recell(all, was);
        assert(all.take(i as int) =~= all);
    }
    while i > 0
        invariant
            i <= rows.len(),
            all == row_views(rows@),
            all.len() == rows.len(),
            recell(all, was).len() == rows.len(),
            backwards.len() == rows.len() - i,
            new.len() == cells(all.take(i as int)).len(),
            recell(all.take(i as int), new.deep_view()) == recell(all, was).take(i as int),
            forall|k: int|
                i <= k < rows.len() ==> expr_views(#[trigger] backwards@[rows.len() - 1 - k]@)
                    == recell(all, was)[k],
        decreases i,
    {
        let ghost here = all.take(i as int);
        let ghost before = new.deep_view();
        i = i - 1;
        let held: usize = rows[i].len();
        proof {
            assert(here.drop_last() =~= all.take(i as int));
            assert(here.last() == expr_views(rows@[i as int]@));
            lemma_recell(here, before);
        }
        let at: usize = new.len() - held;
        let row = new.split_off(at);
        proof {
            lemma_views(row);
            assert(row.deep_view() =~= before.skip(at as int));
            assert(new.deep_view() =~= before.take(at as int));
            assert(recell(here, before).last() == recell(all, was)[i as int]);
            assert(recell(here, before).drop_last() =~= recell(all, was).take(i as int));
        }
        backwards.push(row);
    }
    let mut left: usize = rows.len();
    while left > 0
        invariant
            left <= rows.len(),
            all == row_views(rows@),
            recell(all, was).len() == rows.len(),
            backwards.len() == left,
            out.len() == rows.len() - left,
            forall|k: int|
                rows.len() - left <= k < rows.len() ==> expr_views(
                    #[trigger] backwards@[rows.len() - 1 - k]@,
                ) == recell(all, was)[k],
            forall|k: int|
                0 <= k < rows.len() - left ==> expr_views(#[trigger] out@[k]@) == recell(all, was)[k],
        decreases left,
    {
        let ghost next = rows.len() - left;
        match backwards.pop() {
            Some(row) => {
                assert(row == backwards@.push(row)[rows.len() - 1 - next]);
                out.push(row);
            },
            None => {},
        }
        left = left - 1;
    }
    assert(row_views(out@) =~= recell(all, was));
    out
}

spec fn place_views(items: Seq<Option<Expr>>) -> Seq<Option<ExprV>> {
    Seq::new(
        items.len(),
        |i: int|
            match items[i] {
                Some(item) => Some(expr_view(item)),
                None => None,
            },
    )
}

fn in_places(items: &Vec<Option<Expr>>, new: Vec<Expr>) -> (r: Vec<Option<Expr>>)
    requires
        new.len() == held(place_views(items@)).len(),
    ensures
        place_views(r@) == reheld(place_views(items@), new.deep_view()),
{
    let ghost all = place_views(items@);
    let ghost was = new.deep_view();
    let mut new = new;
    let mut backwards: Vec<Option<Expr>> = Vec::new();
    let mut i: usize = items.len();
    proof {
        lemma_reheld(all, was);
        assert(all.take(i as int) =~= all);
    }
    while i > 0
        invariant
            i <= items.len(),
            all == place_views(items@),
            reheld(all, was).len() == items.len(),
            backwards.len() == items.len() - i,
            new.len() == held(all.take(i as int)).len(),
            reheld(all.take(i as int), new.deep_view()) == reheld(all, was).take(i as int),
            forall|k: int|
                i <= k < items.len() ==> (#[trigger] backwards@[items.len() - 1 - k]).deep_view()
                    == reheld(all, was)[k],
        decreases i,
    {
        let ghost here = all.take(i as int);
        let ghost before = new.deep_view();
        i = i - 1;
        proof {
            assert(here.drop_last() =~= all.take(i as int));
            lemma_reheld(here, before);
            assert(reheld(here, before).last() == reheld(all, was)[i as int]);
        }
        match &items[i] {
            Some(_) => {
                assert(here.last() is Some);
                let item = new.pop();
                assert(new.deep_view() =~= before.drop_last());
                assert(reheld(here, before).drop_last() =~= reheld(all, was).take(i as int));
                backwards.push(item);
            },
            None => {
                assert(here.last() is None);
                assert(reheld(here, before).drop_last() =~= reheld(all, was).take(i as int));
                backwards.push(None);
            },
        }
    }
    let mut out: Vec<Option<Expr>> = Vec::new();
    let mut left: usize = items.len();
    while left > 0
        invariant
            left <= items.len(),
            reheld(all, was).len() == items.len(),
            backwards.len() == left,
            out.len() == items.len() - left,
            forall|k: int|
                items.len() - left <= k < items.len() ==> (#[trigger] backwards@[items.len() - 1
                    - k]).deep_view() == reheld(all, was)[k],
            forall|k: int|
                0 <= k < items.len() - left ==> (#[trigger] out@[k]).deep_view() == reheld(all, was)[k],
        decreases left,
    {
        let ghost next = items.len() - left;
        match backwards.pop() {
            Some(item) => {
                assert(item == backwards@.push(item)[items.len() - 1 - next]);
                out.push(item);
            },
            None => {},
        }
        left = left - 1;
    }
    assert(place_views(out@) =~= reheld(all, was));
    out
}

fn under_names(named: &Vec<(String, Expr)>, new: Vec<Expr>) -> (r: Vec<(String, Expr)>)
    requires
        new.len() == named.len(),
    ensures
        r.deep_view() == revalued(named.deep_view(), new.deep_view()),
{
    let mut new = new;
    let ghost was = new.deep_view();
    let mut out: Vec<(String, Expr)> = Vec::new();
    let mut i: usize = 0;
    while i < named.len()
        invariant
            i <= named.len(),
            was.len() == named.len(),
            new.len() == named.len() - i,
            new.deep_view() == was.skip(i as int),
            out.len() == i,
            forall|k: int|
                0 <= k < i ==> (#[trigger] out@[k]).0@ == named@[k].0@ && out@[k].1.deep_view()
                    == was[k],
        decreases named.len() - i,
    {
        let ghost before = new.deep_view();
        let value = new.remove(0);
        assert(new.deep_view() =~= before.drop_first());
        assert(new.deep_view() =~= was.skip(i + 1));
        assert(value.deep_view() == was.skip(i as int)[0]);
        out.push((named[i].0.clone(), value));
        i = i + 1;
    }
    assert(out.deep_view() =~= revalued(named.deep_view(), was));
    out
}

impl Clone for Expr {
    fn clone(&self) -> (r: Self)
        ensures
            r.deep_view() == self.deep_view(),
        decreases self.deep_view(),
    {
        let parts = self.children();
        let mut new: Vec<Expr> = Vec::new();
        let mut i: usize = 0;
        proof {
            lemma_kids_smaller(self.deep_view());
        }
        while i < parts.len()
            invariant
                i <= parts.len(),
                parts.deep_view() == kids(self.deep_view()),
                forall|k: int|
                    0 <= k < kids(self.deep_view()).len() ==> (#[trigger] decreases_to!(
                        self.deep_view() => kids(self.deep_view())[k])),
                new.len() == i,
                forall|k: int|
                    0 <= k < i ==> (#[trigger] new@[k]).deep_view() == kids(self.deep_view())[k],
            decreases parts.len() - i,
        {
            assert(parts.deep_view()[i as int] == parts@[i as int].deep_view());
            assert(decreases_to!(self.deep_view() => kids(self.deep_view())[i as int]));
            let part: &Expr = parts[i];
            new.push(part.clone());
            i = i + 1;
        }
        assert(new.deep_view() =~= kids(self.deep_view()));
        proof {
            law_rebuilding(self.deep_view(), new.deep_view());
        }
        self.with_children(new)
    }
}


/// What a fallible step came to.
pub open spec fn told<T: DeepView>(r: Result<T, String>) -> Result<T::V, Seq<char>> {
    match r {
        Ok(value) => Ok(value.deep_view()),
        Err(why) => Err(why@),
    }
}

/// A list of outcomes as the outcome of a list: the first failure, or every
/// value.
pub open spec fn gathered<V>(all: Seq<Result<V, Seq<char>>>) -> Result<Seq<V>, Seq<char>>
    decreases all.len(),
{
    if all.len() == 0 {
        Ok(Seq::empty())
    } else {
        match gathered(all.drop_last()) {
            Ok(values) => match all.last() {
                Ok(value) => Ok(values.push(value)),
                Err(why) => Err(why),
            },
            Err(why) => Err(why),
        }
    }
}

/// A failure among the first outcomes is the failure of all.
pub proof fn lemma_gathered_stops<V>(all: Seq<Result<V, Seq<char>>>, n: int)
    requires
        0 <= n <= all.len(),
        gathered(all.take(n)) is Err,
    ensures
        gathered(all) == gathered(all.take(n)),
    decreases all.len() - n,
{
    if n < all.len() {
        assert(all.take(n + 1).drop_last() =~= all.take(n));
        lemma_gathered_stops(all, n + 1);
    } else {
        assert(all.take(n) =~= all);
    }
}

pub proof fn lemma_gathered_len<V>(all: Seq<Result<V, Seq<char>>>)
    ensures
        gathered(all) matches Ok(values) ==> values.len() == all.len(),
    decreases all.len(),
{
    if all.len() > 0 {
        lemma_gathered_len(all.drop_last());
    }
}

/// Copies of a list of expressions.
pub fn copy_all(list: &Vec<Expr>) -> (r: Vec<Expr>)
    ensures
        r.deep_view() == list.deep_view(),
{
    let ghost all = list.deep_view();
    let mut out: Vec<Expr> = Vec::new();
    let mut i: usize = 0;
    while i < list.len()
        invariant
            i <= list.len(),
            all == list.deep_view(),
            out.deep_view() == all.take(i as int),
        decreases list.len() - i,
    {
        let ghost before = out.deep_view();
        assert(all[i as int] == list@[i as int].deep_view());
        out.push(list[i].clone());
        assert(out.deep_view() =~= before.push(all[i as int]));
        assert(before.push(all[i as int]) =~= all.take(i + 1));
        i = i + 1;
    }
    assert(all.take(i as int) =~= all);
    out
}

}
