//! Bodies written outside Modelica that are answered for here.
//!
//! A name here means that the call is left standing rather than refused, for
//! whoever can work it out to work it out.
use crate::class::{ComponentV, EquationV};
use crate::expr::{kids, lemma_kids_smaller, Expr, ExprV};
use crate::flat::{Model, ModelV};
use crate::folding::{const_eval, evaluated, Worths};
use crate::number::{
    from_count, from_int, larger, larger_of, nearest, nearest_to, one, smaller, smaller_of, Number,
};
use crate::sums::{is_steady, sums_of, Arith, Sums, SumsV};
use crate::table::Table;
use crate::text::{
    begins_with, blank, chars_of, comes_before, cut_first, head_of, is_blank, join3, precedes, same,
    split_first, until_first, without_head,
};
use vstd::prelude::*;
use vstd::utf8::encode_utf8;

verus! {

/// The outside names that are answered for.
pub open spec fn is_answered_here(called: Seq<char>) -> bool {
    ||| called == "ModelicaStrings_length"@
    ||| called == "ModelicaStrings_hashString"@
    ||| called == "ModelicaStrings_substring"@
    ||| called == "ModelicaStrings_compare"@
    ||| called == "ModelicaStrings_skipWhiteSpace"@
    ||| called == "ModelicaStandardTables_CombiTable1D_minimumAbscissa"@
    ||| called == "ModelicaStandardTables_CombiTable1D_maximumAbscissa"@
    ||| called == "ModelicaStandardTables_CombiTable1D_getValue"@
    ||| called == "ModelicaStandardTables_CombiTable1D_getDerValue"@
    ||| called == "ModelicaStandardTables_CombiTimeTable_minimumTime"@
    ||| called == "ModelicaStandardTables_CombiTimeTable_maximumTime"@
    ||| called == "ModelicaStandardTables_CombiTimeTable_getValue"@
    ||| called == "ModelicaStandardTables_CombiTimeTable_getDerValue"@
    ||| called == "ModelicaStandardTables_CombiTimeTable_nextTimeEvent"@
    ||| called == "ModelicaStandardTables_CombiTable2D_minimumAbscissa"@
    ||| called == "ModelicaStandardTables_CombiTable2D_maximumAbscissa"@
    ||| called == "ModelicaStandardTables_CombiTable2D_getValue"@
    ||| called == "ModelicaStandardTables_CombiTable2D_getDerValue"@
}

/// Whether an outside name is answered for here.
///
/// A function whose outside name is one of these is called by that name,
/// which then stands until something works it out.
pub fn answered_here(called: &str) -> (r: bool)
    ensures
        r == is_answered_here(called@),
{
    same(called, "ModelicaStrings_length") || same(called, "ModelicaStrings_hashString") || same(
        called,
        "ModelicaStrings_substring",
    ) || same(called, "ModelicaStrings_compare") || same(called, "ModelicaStrings_skipWhiteSpace")
        || same(called, "ModelicaStandardTables_CombiTable1D_minimumAbscissa") || same(
        called,
        "ModelicaStandardTables_CombiTable1D_maximumAbscissa",
    ) || same(called, "ModelicaStandardTables_CombiTable1D_getValue") || same(
        called,
        "ModelicaStandardTables_CombiTable1D_getDerValue",
    ) || same(called, "ModelicaStandardTables_CombiTimeTable_minimumTime") || same(
        called,
        "ModelicaStandardTables_CombiTimeTable_maximumTime",
    ) || same(called, "ModelicaStandardTables_CombiTimeTable_getValue") || same(
        called,
        "ModelicaStandardTables_CombiTimeTable_getDerValue",
    ) || same(called, "ModelicaStandardTables_CombiTimeTable_nextTimeEvent") || same(
        called,
        "ModelicaStandardTables_CombiTable2D_minimumAbscissa",
    ) || same(called, "ModelicaStandardTables_CombiTable2D_maximumAbscissa") || same(
        called,
        "ModelicaStandardTables_CombiTable2D_getValue",
    ) || same(called, "ModelicaStandardTables_CombiTable2D_getDerValue")
}

/// The first call of a name answered for here that stands in an expression,
/// the expression itself before what stands in it.
pub open spec fn standing_in(e: ExprV) -> Option<Seq<char>>
    decreases e, kids(e).len() + 1,
{
    match e {
        ExprV::Call(name, _) => if is_answered_here(name) {
            Some(name)
        } else {
            standing_below(e, 0)
        },
        _ => standing_below(e, 0),
    }
}

/// The same from the `i`-th child on.
pub open spec fn standing_below(e: ExprV, i: nat) -> Option<Seq<char>>
    decreases e, kids(e).len() - i,
{
    proof {
        lemma_kids_smaller(e);
    }
    if i >= kids(e).len() {
        None
    } else {
        match standing_in(kids(e)[i as int]) {
            Some(name) => Some(name),
            None => standing_below(e, i + 1),
        }
    }
}

fn find_standing(expr: &Expr) -> (r: Option<String>)
    ensures
        r.deep_view() == standing_in(expr.deep_view()),
    decreases expr.deep_view(),
{
    let ghost shape = expr.deep_view();
    if let Expr::Call(name, _) = expr {
        if answered_here(name.as_str()) {
            return Some(name.clone());
        }
    }
    let below = expr.children();
    let mut i: usize = 0;
    proof {
        lemma_kids_smaller(shape);
    }
    while i < below.len()
        invariant
            i <= below.len(),
            shape == expr.deep_view(),
            below.deep_view() == kids(shape),
            forall|k: int|
                0 <= k < kids(shape).len() ==> (#[trigger] decreases_to!(shape => kids(shape)[k])),
            standing_in(shape) == standing_below(shape, i as nat),
        decreases below.len() - i,
    {
        assert(below.deep_view()[i as int] == below@[i as int].deep_view());
        assert(decreases_to!(shape => kids(shape)[i as int]));
        if let Some(name) = find_standing(below[i]) {
            return Some(name);
        }
        i = i + 1;
    }
    None
}

/// The values of a model that may still hold such a call, in the order they
/// are looked at: equations, declarations, checks.
pub open spec fn values_looked_at(model: ModelV) -> Seq<ExprV> {
    both_sides(model.equations, model.equations.len()) + both_sides(
        model.initial_equations,
        model.initial_equations.len(),
    ) + said_by(model.components, model.components.len()) + Seq::new(
        model.asserts.len(),
        |i: int| model.asserts[i].0,
    )
}

pub open spec fn both_sides(list: Seq<EquationV>, n: nat) -> Seq<ExprV>
    decreases n,
{
    if n == 0 || n > list.len() {
        Seq::empty()
    } else {
        both_sides(list, (n - 1) as nat).push(list[n - 1].lhs).push(list[n - 1].rhs)
    }
}

pub open spec fn with_value(list: Seq<ExprV>, value: Option<ExprV>) -> Seq<ExprV> {
    match value {
        Some(value) => list.push(value),
        None => list,
    }
}

pub open spec fn said_by(list: Seq<ComponentV>, n: nat) -> Seq<ExprV>
    decreases n,
{
    if n == 0 || n > list.len() {
        Seq::empty()
    } else {
        with_value(
            with_value(said_by(list, (n - 1) as nat), list[n - 1].binding),
            list[n - 1].start,
        )
    }
}

/// The first such call among the values from the `i`-th on.
pub open spec fn first_standing(values: Seq<ExprV>, i: nat) -> Option<Seq<char>>
    decreases values.len() - i,
{
    if i >= values.len() {
        None
    } else {
        match standing_in(values[i as int]) {
            Some(name) => Some(name),
            None => first_standing(values, i + 1),
        }
    }
}

/// What a call that nothing worked out is told.
pub open spec fn unanswered(name: Seq<char>) -> Seq<char> {
    "`"@ + name
        + "` is written outside Modelica. This compiler answers for that name where what it needs is in the model - a table written as a matrix, a string it can read - and this call is not one of those"@
}

fn gather_values(model: &Model) -> (r: Vec<&Expr>)
    ensures
        r.deep_view() == values_looked_at(model.deep_view()),
{
    let mut out: Vec<&Expr> = Vec::new();
    let ghost all = model.equations.deep_view();
    let mut i: usize = 0;
    assert(out.deep_view() =~= Seq::empty());
    while i < model.equations.len()
        invariant
            i <= model.equations.len(),
            all == model.equations.deep_view(),
            out.deep_view() == both_sides(all, i as nat),
        decreases model.equations.len() - i,
    {
        let ghost before = out.deep_view();
        let one = &model.equations[i];
        assert(all[i as int] == one.deep_view());
        out.push(&one.lhs);
        out.push(&one.rhs);
        assert(out.deep_view() =~= before.push(all[i as int].lhs).push(all[i as int].rhs));
        i = i + 1;
    }
    let ghost first = out.deep_view();
    let ghost all = model.initial_equations.deep_view();
    let mut i: usize = 0;
    assert(out.deep_view() =~= first + both_sides(all, 0));
    while i < model.initial_equations.len()
        invariant
            i <= model.initial_equations.len(),
            all == model.initial_equations.deep_view(),
            out.deep_view() == first + both_sides(all, i as nat),
        decreases model.initial_equations.len() - i,
    {
        let ghost before = out.deep_view();
        let one = &model.initial_equations[i];
        assert(all[i as int] == one.deep_view());
        out.push(&one.lhs);
        out.push(&one.rhs);
        assert(out.deep_view() =~= before.push(all[i as int].lhs).push(all[i as int].rhs));
        assert(out.deep_view() =~= first + both_sides(all, (i + 1) as nat));
        i = i + 1;
    }
    let ghost second = out.deep_view();
    let ghost all = model.components.deep_view();
    let mut i: usize = 0;
    assert(out.deep_view() =~= second + said_by(all, 0));
    while i < model.components.len()
        invariant
            i <= model.components.len(),
            all == model.components.deep_view(),
            out.deep_view() == second + said_by(all, i as nat),
        decreases model.components.len() - i,
    {
        let ghost before = out.deep_view();
        let ghost held = said_by(all, i as nat);
        let one = &model.components[i];
        assert(all[i as int] == one.deep_view());
        if let Some(value) = &one.binding {
            out.push(value);
            assert(out.deep_view() =~= before.push(value.deep_view()));
        }
        assert(out.deep_view() =~= second + with_value(held, all[i as int].binding));
        let ghost middle = out.deep_view();
        if let Some(value) = &one.start {
            out.push(value);
            assert(out.deep_view() =~= middle.push(value.deep_view()));
        }
        assert(out.deep_view() =~= second + said_by(all, (i + 1) as nat));
        i = i + 1;
    }
    let ghost third = out.deep_view();
    let ghost all = model.asserts.deep_view();
    let ghost conditions = Seq::new(model.asserts@.len(), |i: int| all[i].0);
    let mut i: usize = 0;
    assert(out.deep_view() =~= third + conditions.take(0));
    while i < model.asserts.len()
        invariant
            i <= model.asserts.len(),
            all == model.asserts.deep_view(),
            conditions == Seq::new(model.asserts@.len(), |i: int| all[i].0),
            out.deep_view() == third + conditions.take(i as int),
        decreases model.asserts.len() - i,
    {
        let ghost before = out.deep_view();
        assert(all[i as int] == model.asserts@[i as int].deep_view());
        out.push(&model.asserts[i].0);
        assert(out.deep_view() =~= before.push(conditions[i as int]));
        assert(out.deep_view() =~= third + conditions.take(i + 1));
        i = i + 1;
    }
    assert(conditions.take(i as int) =~= conditions);
    out
}

/// Refuse anything that was said to be answered for and then was not: a call
/// standing in a flat model with nobody to run it would be worse than a
/// refusal.
pub fn nothing_left_unanswered(model: &Model) -> (r: Result<(), String>)
    ensures
        match first_standing(values_looked_at(model.deep_view()), 0) {
            None => r is Ok,
            Some(name) => r matches Err(why) && why@ == unanswered(name),
        },
{
    let values = gather_values(model);
    let ghost all = values.deep_view();
    let mut i: usize = 0;
    while i < values.len()
        invariant
            i <= values.len(),
            all == values.deep_view(),
            all == values_looked_at(model.deep_view()),
            first_standing(all, 0) == first_standing(all, i as nat),
        decreases values.len() - i,
    {
        assert(all[i as int] == values@[i as int].deep_view());
        if let Some(name) = find_standing(values[i]) {
            return Err(
                join3(
                    "`",
                    name.as_str(),
                    "` is written outside Modelica. This compiler answers for that name where what it needs is in the model - a table written as a matrix, a string it can read - and this call is not one of those",
                ),
            );
        }
        i = i + 1;
    }
    Ok(())
}

/// The characters of a text from the place `first` to the place `last`, both
/// counted from one and both included: a start below one is one, an end past
/// the text is its end, and an end before the start is nothing.
pub open spec fn cut_out(text: Seq<char>, first: Number, last: Number, v: SumsV) -> Seq<char> {
    let from = larger_of(first, one());
    let to = smaller_of(last, nearest(text.len()));
    if to.below(from) {
        Seq::empty()
    } else {
        let skipped = text.skip(least(from.counted() - 1, text.len() as int));
        skipped.take(least((v.work)(Arith::Sub, to, from).counted() as int + 1, skipped.len() as int))
    }
}

pub open spec fn least(a: int, b: int) -> int {
    if a < 0 {
        0
    } else if a < b {
        a
    } else {
        b
    }
}

/// The substring of `text` from `first` to `last`, both counted from one and
/// both included.
pub fn substring<
    W: Fn(Arith, Number, Number) -> Number,
    O: Fn(&str, &Vec<Number>) -> Option<Vec<Number>>,
    N: Fn(&str) -> String,
>(text: &str, first: Number, last: Number, sums: &Sums<W, O, N>) -> (r: String)
    requires
        is_steady(*sums),
    ensures
        r@ == cut_out(text@, first, last, sums_of(*sums)),
{
    let length: usize = text.unicode_len();
    let from = larger(first, one());
    let to = smaller(last, from_count(length as u64));
    if to.less(from) {
        let none = String::new();
        assert(none@ =~= Seq::empty());
        return none;
    }
    let start: u64 = from.to_count();
    let skip: usize = if start == 0 {
        0
    } else if start - 1 < length as u64 {
        (start - 1) as usize
    } else {
        length
    };
    let many: u64 = sums.step(Arith::Sub, to, from).to_count();
    let left: usize = length - skip;
    let take: usize = if many < left as u64 {
        (many + 1) as usize
    } else {
        left
    };
    let out = text.substring_char(skip, skip + take);
    assert(out@ =~= text@.skip(skip as int).take(take as int));
    out.to_owned()
}

/// A text with every letter lowered.
pub uninterp spec fn lowered(text: Seq<char>) -> Seq<char>;

/// `str::to_lowercase`. What it writes is the same for the same text, and is
/// given a name here rather than spelled out.
#[verifier::external_body]
fn lower(text: &str) -> (r: String)
    ensures
        r@ == lowered(text@),
{
    text.to_lowercase()
}

/// How two texts stand to one another, less being one, equal two and greater
/// three; where case does not matter both are lowered first.
pub open spec fn standing_of(left: Seq<char>, right: Seq<char>, case_matters: bool) -> int {
    let a = if case_matters {
        left
    } else {
        lowered(left)
    };
    let b = if case_matters {
        right
    } else {
        lowered(right)
    };
    if precedes(a, b) {
        1
    } else if a == b {
        2
    } else {
        3
    }
}

/// How two lowered or unlowered texts compare, in the order of their
/// characters.
pub fn ranked(left: &str, right: &str) -> (r: i64)
    ensures
        r == (if precedes(left@, right@) {
            1int
        } else if left@ == right@ {
            2int
        } else {
            3int
        }),
{
    if comes_before(left, right) {
        1
    } else if same(left, right) {
        2
    } else {
        3
    }
}

/// How two strings compare, as the standard library numbers it: less is one,
/// equal two, greater three. Told to ignore case, both sides are lowered
/// first.
pub fn compare(left: &str, right: &str, case_matters: bool) -> (r: Number)
    ensures
        r == nearest_to(standing_of(left@, right@, case_matters)),
{
    let rank: i64 = if case_matters {
        ranked(left, right)
    } else {
        let a = lower(left);
        let b = lower(right);
        ranked(a.as_str(), b.as_str())
    };
    from_int(rank)
}

/// One more byte of a hash, at an even or an odd place.
pub open spec fn hashed_byte(hash: u32, byte: u8, even: bool) -> u32 {
    if even {
        hash ^ ((hash << 7u32) ^ (byte as u32).wrapping_mul(hash >> 3u32))
    } else {
        hash ^ !((hash << 11u32).wrapping_add((byte as u32) ^ (hash >> 5u32)))
    }
}

/// A hash over the first `n` bytes.
pub open spec fn hashed(bytes: Seq<u8>, n: nat) -> u32
    decreases n,
{
    if n == 0 {
        0xAAAA_AAAA
    } else {
        hashed_byte(
            hashed(bytes, (n - 1) as nat),
            bytes[n - 1],
            (n - 1) % 2 == 0,
        )
    }
}

/// A word of 32 bits read as a signed integer.
pub open spec fn as_signed(word: u32) -> int {
    if word >= 0x8000_0000 {
        word - 0x1_0000_0000
    } else {
        word as int
    }
}

/// A hash of a string over the bytes of the text, the result read back as a
/// signed integer: the noise blocks seed themselves from where they sit in the
/// model, so the same model run twice draws the same numbers.
pub fn hash_string(text: &str) -> (r: Number)
    ensures
        r == nearest_to(as_signed(hashed(encode_utf8(text@), encode_utf8(text@).len()))),
{
    let bytes: Vec<u8> = text.as_bytes_vec();
    let ghost all = encode_utf8(text@);
    let mut hash: u32 = 0xAAAA_AAAA;
    let mut i: usize = 0;
    while i < bytes.len()
        invariant
            i <= bytes.len(),
            all == bytes@,
            hash == hashed(all, i as nat),
        decreases bytes.len() - i,
    {
        let byte: u32 = bytes[i] as u32;
        hash = if i % 2 == 0 {
            hash ^ ((hash << 7u32) ^ byte.wrapping_mul(hash >> 3u32))
        } else {
            hash ^ !((hash << 11u32).wrapping_add(byte ^ (hash >> 5u32)))
        };
        i = i + 1;
    }
    let value: i64 = if hash >= 0x8000_0000 {
        hash as i64 - 0x1_0000_0000
    } else {
        hash as i64
    };
    from_int(value)
}

/// How many blanks a text begins with.
pub open spec fn blanks_ahead(text: Seq<char>) -> nat
    decreases text.len(),
{
    if text.len() > 0 && is_blank(text[0]) {
        1 + blanks_ahead(text.drop_first())
    } else {
        0
    }
}

fn count_blanks(text: &str, from: usize) -> (r: usize)
    requires
        from <= text@.len(),
    ensures
        r == blanks_ahead(text@.skip(from as int)),
        from + r <= text@.len(),
{
    let all = chars_of(text);
    let mut i: usize = from;
    while i < all.len() && blank(all[i])
        invariant
            from <= i <= all.len(),
            all@ == text@,
            blanks_ahead(text@.skip(from as int)) == (i - from) + blanks_ahead(
                text@.skip(i as int),
            ),
        decreases all.len() - i,
    {
        assert(text@.skip(i as int).drop_first() =~= text@.skip(i + 1));
        i = i + 1;
    }
    i - from
}

/// What settles a string argument.
pub struct Reader<T> {
    pub read: T,
    /// What it answers, mathematically.
    pub model: Ghost<spec_fn(ExprV) -> Option<Seq<char>>>,
}

/// Whether it may be asked anything, and answers as `m` says.
pub open spec fn reads_to<T: Fn(&Expr) -> Option<String>>(
    read: T,
    m: spec_fn(ExprV) -> Option<Seq<char>>,
) -> bool {
    &&& forall|e: &Expr| #[trigger] call_requires(read, (e,))
    &&& forall|e: &Expr, r: Option<String>| #[trigger]
        call_ensures(read, (e,), r) ==> r.deep_view() == m(e.deep_view())
}

/// Whether it may be asked anything, and answers as its model says.
pub open spec fn reads<T: Fn(&Expr) -> Option<String>>(reader: Reader<T>) -> bool {
    reads_to(reader.read, reader.model@)
}

/// What it answers, mathematically.
pub open spec fn read_by<T: Fn(&Expr) -> Option<String>>(reader: Reader<T>) -> spec_fn(
    ExprV,
) -> Option<Seq<char>> {
    reader.model@
}

impl<T: Fn(&Expr) -> Option<String>> Reader<T> {
    /// What settles a string argument, where there is anything it answers at
    /// all.
    pub fn new(read: T) -> (r: Self)
        requires
            exists|m: spec_fn(ExprV) -> Option<Seq<char>>| #[trigger] reads_to(read, m),
        ensures
            reads(r),
            r.read == read,
    {
        Reader {
            read,
            model: Ghost(
                choose|m: spec_fn(ExprV) -> Option<Seq<char>>| #[trigger] reads_to(read, m),
            ),
        }
    }
}

fn read_text<T: Fn(&Expr) -> Option<String>>(reader: &Reader<T>, expr: &Expr) -> (r: Option<String>)
    requires
        reads(*reader),
    ensures
        r.deep_view() == (read_by(*reader))(expr.deep_view()),
{
    let f = &reader.read;
    f(expr)
}

/// Where looking for something other than a blank starts, counted from one.
pub open spec fn started(args: Seq<ExprV>, numbers: Worths, v: SumsV) -> Option<nat> {
    if args.len() < 2 {
        Some(one().counted())
    } else {
        match evaluated(args[1], numbers, v) {
            Some(value) => Some(larger_of(value, one()).counted()),
            None => None,
        }
    }
}

/// What an outside call that is answered for comes to, where its arguments
/// are strings that are settled and its answer is a number.
pub open spec fn number_answered(
    name: Seq<char>,
    args: Seq<ExprV>,
    read: spec_fn(ExprV) -> Option<Seq<char>>,
    numbers: Worths,
    v: SumsV,
) -> Option<Number> {
    if name == "ModelicaStrings_length"@ && args.len() == 1 {
        match read(args[0]) {
            Some(text) => Some(nearest(text.len())),
            None => None,
        }
    } else if name == "ModelicaStrings_skipWhiteSpace"@ && (args.len() == 1 || args.len() == 2) {
        match (read(args[0]), started(args, numbers, v)) {
            (Some(text), Some(from)) => {
                let past = if from - 1 <= text.len() {
                    from + blanks_ahead(text.skip(from - 1))
                } else {
                    from
                };
                if past <= u64::MAX {
                    Some(nearest(past))
                } else {
                    None
                }
            },
            _ => None,
        }
    } else if name == "ModelicaStrings_compare"@ && args.len() == 3 {
        match (evaluated(args[2], numbers, v), read(args[0]), read(args[1])) {
            (Some(matters), Some(left), Some(right)) => Some(
                nearest_to(standing_of(left, right, !matters.is_nought())),
            ),
            _ => None,
        }
    } else if name == "ModelicaStrings_hashString"@ && args.len() == 1 {
        match read(args[0]) {
            Some(text) => Some(
                nearest_to(as_signed(hashed(encode_utf8(text), encode_utf8(text).len()))),
            ),
            None => None,
        }
    } else {
        None
    }
}

proof fn lemma_one_counted()
    ensures
        one().counted() == 1,
        forall|value: Number| #[trigger] larger_of(value, one()).counted() >= 1,
{
    crate::number::lemma_at_least_one();
}

/// What an outside call that is answered for comes to, where its arguments
/// are strings that are settled and its answer is a number; `read` is what
/// settles a string.
///
/// `None` where the name is not one of these or an argument is not settled
/// yet - the call stands.
pub fn number_of<
    W: Fn(Arith, Number, Number) -> Number,
    O: Fn(&str, &Vec<Number>) -> Option<Vec<Number>>,
    N: Fn(&str) -> String,
    T: Fn(&Expr) -> Option<String>,
>(
    name: &str,
    args: &Vec<Expr>,
    read: &Reader<T>,
    numbers: &Table<Number>,
    sums: &Sums<W, O, N>,
) -> (r: Option<Number>)
    requires
        is_steady(*sums),
        reads(*read),
    ensures
        r == number_answered(
            name@,
            args.deep_view(),
            read_by(*read),
            numbers.deep_view(),
            sums_of(*sums),
        ),
{
    let ghost all = args.deep_view();
    if args.len() >= 1 {
        assert(all[0] == args@[0].deep_view());
    }
    if args.len() >= 2 {
        assert(all[1] == args@[1].deep_view());
    }
    if args.len() >= 3 {
        assert(all[2] == args@[2].deep_view());
    }
    if same(name, "ModelicaStrings_length") && args.len() == 1 {
        return match read_text(read, &args[0]) {
            Some(text) => Some(from_count(text.as_str().unicode_len() as u64)),
            None => None,
        };
    }
    if same(name, "ModelicaStrings_skipWhiteSpace") && (args.len() == 1 || args.len() == 2) {
        proof {
            lemma_one_counted();
        }
        let text = match read_text(read, &args[0]) {
            Some(text) => text,
            None => return None,
        };
        let from: u64 = if args.len() == 1 {
            one().to_count()
        } else {
            match const_eval(&args[1], numbers, sums) {
                Some(value) => larger(value, one()).to_count(),
                None => return None,
            }
        };
        let length: usize = text.as_str().unicode_len();
        if from - 1 > length as u64 {
            return Some(from_count(from));
        }
        let past: usize = count_blanks(text.as_str(), (from - 1) as usize);
        return match from.checked_add(past as u64) {
            Some(end) => Some(from_count(end)),
            None => None,
        };
    }
    if same(name, "ModelicaStrings_compare") && args.len() == 3 {
        let matters = match const_eval(&args[2], numbers, sums) {
            Some(matters) => matters,
            None => return None,
        };
        let left = match read_text(read, &args[0]) {
            Some(left) => left,
            None => return None,
        };
        let right = match read_text(read, &args[1]) {
            Some(right) => right,
            None => return None,
        };
        return Some(compare(left.as_str(), right.as_str(), !matters.is_zero()));
    }
    if same(name, "ModelicaStrings_hashString") && args.len() == 1 {
        return match read_text(read, &args[0]) {
            Some(text) => Some(hash_string(text.as_str())),
            None => None,
        };
    }
    None
}

/// The library a resource is written under and its path there, where a text
/// names one: the first part of what follows `modelica://` is the library, and
/// what follows the first slash is the path.
pub open spec fn resource_of(uri: Seq<char>) -> Option<(Seq<char>, Seq<char>)> {
    if !begins_with(uri, "modelica://"@) {
        None
    } else {
        match cut_first(uri.skip("modelica://"@.len() as int), '/') {
            None => None,
            Some((named, path)) => Some((until_first(named, '.'), path)),
        }
    }
}

/// The library a resource is written under and its path there. The library part
/// may be a class inside one, so it is its first segment that names the
/// directory.
pub fn resource_asked(uri: &str) -> (r: Option<(String, String)>)
    ensures
        r.deep_view() == resource_of(uri@),
{
    let rest = match without_head(uri, "modelica://") {
        Some(rest) => rest,
        None => {
            return None;
        },
    };
    match split_first(rest.as_str(), '/') {
        None => None,
        Some((named, path)) => Some((head_of(named.as_str(), '.'), path)),
    }
}

}
