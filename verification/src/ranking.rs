//! Whose value a parameter takes: what is handed down to the instance before what
//! an `extends` clause says, and that before what the declaration says itself.
use crate::class::{ClassDef, ComponentV, MAX_DEPTH};
use crate::expr::ExprV;
use crate::folding::{evaluated, Worths};
use crate::functions::gathered_over;
use crate::info::is_settled;
use crate::inheritance::{base_of, handed_down, parameters_from, said_of};
use crate::instantiate::{
    base_values, early_asked, early_course, early_round, early_settled, early_value, fields_asked,
    inners_settled, is_fixed, measured_course, nothing_settled, part_asked, part_value, parts_asked,
    parts_of, purse_settled, put_here, record_asked, texts_put, CourseV, EarlyV, EnvV, GroundV,
    MovedV, PreparedV, PurseV, ROUNDS, StandV,
};
use crate::lookup::meaning;
use crate::number::Number;
use crate::shapes::{measured_in, Lengths};
use crate::table::all_prefixed;
use crate::text::{begins_with, dotted};
use vstd::prelude::*;

verus! {

/// Whether the first of a list of modifiers that speaks of a name gives it a
/// number.
pub open spec fn says_first(said: Seq<(Seq<char>, ExprV)>, name: Seq<char>, n: Number) -> bool {
    exists|i: int|
        0 <= i < said.len() && #[trigger] said[i] == (name, ExprV::Number(n)) && forall|k: int|
            0 <= k < i ==> (#[trigger] said[k]).0 != name
}

/// Whether no modifier of a list speaks of a name.
pub open spec fn says_nothing(said: Seq<(Seq<char>, ExprV)>, name: Seq<char>) -> bool {
    forall|i: int| 0 <= i < said.len() ==> (#[trigger] said[i]).0 != name
}

/// Whether a name is one a class declares, and a prefix one of an instance path.
pub open spec fn is_local_name(name: Seq<char>, prefix: Seq<char>) -> bool {
    !name.contains('.') && (prefix.len() == 0 || prefix.contains('.'))
}

/// Whether a class ends up with a parameter worth a number: under the name the
/// class knows it by, and under its instance path in the class and in the model.
pub open spec fn settles_at(
    g: GroundV,
    class: ClassDef,
    env: EnvV,
    p: PreparedV,
    course: CourseV,
    name: Seq<char>,
    n: Number,
) -> bool {
    let (after, built, _) = measured_course(g, class, env, p, course);
    let path = p.stand.naming.prefix + name;
    &&& built.local_consts.contains_key(name) && built.local_consts[name] == n
    &&& built.local_consts.contains_key(path) && built.local_consts[path] == n
    &&& after.flat.const_values.contains_key(path) && after.flat.const_values[path] == n
}

proof fn lemma_said_first(said: Seq<(Seq<char>, ExprV)>, name: Seq<char>, n: Number)
    requires
        says_first(said, name, n),
    ensures
        said_of(said, name) == Some(ExprV::Number(n)),
    decreases said.len(),
{
    let i = choose|i: int|
        0 <= i < said.len() && #[trigger] said[i] == (name, ExprV::Number(n)) && forall|k: int|
            0 <= k < i ==> (#[trigger] said[k]).0 != name;
    if i > 0 {
        assert(said[0].0 != name);
        let rest = said.drop_first();
        assert(rest[i - 1] == said[i]);
        assert forall|k: int| 0 <= k < i - 1 implies (#[trigger] rest[k]).0 != name by {
            assert(rest[k] == said[k + 1]);
        }
        assert(says_first(rest, name, n));
        lemma_said_first(rest, name, n);
    }
}

proof fn lemma_said_nothing(said: Seq<(Seq<char>, ExprV)>, name: Seq<char>)
    requires
        says_nothing(said, name),
    ensures
        said_of(said, name) is None,
    decreases said.len(),
{
    if said.len() > 0 {
        assert(said[0].0 != name);
        let rest = said.drop_first();
        assert forall|k: int| 0 <= k < rest.len() implies (#[trigger] rest[k]).0 != name by {
            assert(rest[k] == said[k + 1]);
        }
        lemma_said_nothing(rest, name);
    }
}

/// Whether a number that is settled under a name is the one it should be.
pub open spec fn is_kept(p: PurseV, prefix: Seq<char>, name: Seq<char>, n: Number) -> bool {
    p.local.contains_key(name) ==> p.local[name] == n && p.consts.contains_key(prefix + name)
        && p.consts[prefix + name] == n
}

proof fn lemma_apart(prefix: Seq<char>, a: Seq<char>, b: Seq<char>)
    requires
        a != b,
    ensures
        prefix + a != prefix + b,
{
    if prefix + a == prefix + b {
        assert((prefix + a).skip(prefix.len() as int) =~= a);
        assert((prefix + b).skip(prefix.len() as int) =~= b);
    }
}

proof fn lemma_dotted_is_another(outer: Seq<char>, inner: Seq<char>, name: Seq<char>)
    requires
        !name.contains('.'),
    ensures
        dotted(outer, inner) != name,
{
    reveal_strlit(".");
    let whole = dotted(outer, inner);
    assert(whole[outer.len() as int] == '.');
    assert(whole.contains('.'));
}

proof fn lemma_fields_keep(
    g: GroundV,
    s: StandV,
    c: ComponentV,
    fields: Seq<ComponentV>,
    start: MovedV,
    count: nat,
    name: Seq<char>,
    n: Number,
)
    requires
        !name.contains('.'),
        is_kept(start.purse, s.naming.prefix, name, n),
    ensures
        ({
            let after = fields_asked(g, s, c, fields, start, count).purse;
            &&& is_kept(after, s.naming.prefix, name, n)
            &&& start.purse.local.contains_key(name) ==> after.local.contains_key(name)
        }),
    decreases count,
{
    if count > 0 && count <= fields.len() {
        lemma_fields_keep(g, s, c, fields, start, (count - 1) as nat, name, n);
        let named = dotted(c.name, fields[count - 1].name);
        lemma_dotted_is_another(c.name, fields[count - 1].name, name);
        lemma_apart(s.naming.prefix, named, name);
    }
}

proof fn lemma_record_keeps(
    g: GroundV,
    s: StandV,
    c: ComponentV,
    from_extends: Option<ExprV>,
    start: MovedV,
    name: Seq<char>,
    n: Number,
)
    requires
        !name.contains('.'),
        is_kept(start.purse, s.naming.prefix, name, n),
    ensures
        ({
            let after = record_asked(g, s, c, from_extends, start).purse;
            &&& is_kept(after, s.naming.prefix, name, n)
            &&& start.purse.local.contains_key(name) ==> after.local.contains_key(name)
        }),
{
    if let Some(record) = meaning(g.classes, c.of_type, s.scope, s.imports) {
        let fields = gathered_over(g.classes, record, Seq::empty(), 0);
        lemma_fields_keep(g, s, c, fields, start, fields.len(), name, n);
    }
}

/// Whether every part by a name is given a number, whatever else is known.
pub open spec fn all_given(
    g: GroundV,
    s: StandV,
    said: Seq<(Seq<char>, ExprV)>,
    parts: Seq<(ComponentV, Option<ExprV>)>,
    name: Seq<char>,
    n: Number,
) -> bool {
    forall|i: int, shapes: Lengths, local: Worths|
        0 <= i < parts.len() && parts[i].0.name == name ==> #[trigger] part_value(
            g,
            s,
            said,
            shapes,
            local,
            parts[i],
        ) == Some(ExprV::Number(n))
}

proof fn lemma_number_as_text(n: Number, known: Map<Seq<char>, Seq<char>>)
    ensures
        texts_put(ExprV::Number(n), known) == ExprV::Number(n),
{
}

proof fn lemma_part_keeps(
    g: GroundV,
    s: StandV,
    said: Seq<(Seq<char>, ExprV)>,
    known: Map<Seq<char>, Seq<char>>,
    shapes: Lengths,
    parts: Seq<(ComponentV, Option<ExprV>)>,
    i: int,
    so_far: MovedV,
    name: Seq<char>,
    n: Number,
)
    requires
        !name.contains('.'),
        0 <= i < parts.len(),
        all_given(g, s, said, parts, name, n),
        is_kept(so_far.purse, s.naming.prefix, name, n),
    ensures
        ({
            let after = part_asked(g, s, said, known, shapes, parts[i], so_far).purse;
            &&& is_kept(after, s.naming.prefix, name, n)
            &&& so_far.purse.local.contains_key(name) ==> after.local.contains_key(name)
            &&& parts[i].0.name == name && is_fixed(parts[i].0.variability)
                ==> after.local.contains_key(name)
        }),
{
    let part = parts[i];
    if is_fixed(part.0.variability) {
        lemma_record_keeps(g, s, part.0, part.1, so_far, name, n);
        let before = record_asked(g, s, part.0, part.1, so_far);
        if !before.purse.local.contains_key(part.0.name) {
            let value = part_value(g, s, said, shapes, before.purse.local, part);
            if part.0.name == name {
                assert(value == Some(ExprV::Number(n)));
                lemma_number_as_text(n, known);
                assert(evaluated(ExprV::Number(n), before.purse.view, g.v) == Some(n));
            } else {
                lemma_apart(s.naming.prefix, part.0.name, name);
            }
        }
    }
}

proof fn lemma_parts_keep(
    g: GroundV,
    s: StandV,
    said: Seq<(Seq<char>, ExprV)>,
    known: Map<Seq<char>, Seq<char>>,
    shapes: Lengths,
    parts: Seq<(ComponentV, Option<ExprV>)>,
    start: PurseV,
    count: nat,
    name: Seq<char>,
    n: Number,
    at: int,
)
    requires
        !name.contains('.'),
        count <= parts.len(),
        all_given(g, s, said, parts, name, n),
        is_kept(start, s.naming.prefix, name, n),
        0 <= at < parts.len(),
        parts[at].0.name == name,
        is_fixed(parts[at].0.variability),
    ensures
        ({
            let after = parts_asked(g, s, said, known, shapes, parts, start, count).purse;
            &&& is_kept(after, s.naming.prefix, name, n)
            &&& start.local.contains_key(name) || at < count ==> after.local.contains_key(name)
        }),
    decreases count,
{
    if count > 0 {
        lemma_parts_keep(
            g,
            s,
            said,
            known,
            shapes,
            parts,
            start,
            (count - 1) as nat,
            name,
            n,
            at,
        );
        let so_far = parts_asked(g, s, said, known, shapes, parts, start, (count - 1) as nat);
        lemma_part_keeps(g, s, said, known, shapes, parts, count - 1, so_far, name, n);
    }
}

proof fn lemma_rounds_keep(
    g: GroundV,
    s: StandV,
    said: Seq<(Seq<char>, ExprV)>,
    known: Map<Seq<char>, Seq<char>>,
    class: ClassDef,
    parts: Seq<(ComponentV, Option<ExprV>)>,
    start: PurseV,
    rounds: nat,
    name: Seq<char>,
    n: Number,
    at: int,
)
    requires
        !name.contains('.'),
        all_given(g, s, said, parts, name, n),
        is_kept(start, s.naming.prefix, name, n),
        0 <= at < parts.len(),
        parts[at].0.name == name,
        is_fixed(parts[at].0.variability),
    ensures
        ({
            let after = purse_settled(g, s, said, known, class, parts, start, rounds);
            &&& is_kept(after, s.naming.prefix, name, n)
            &&& start.local.contains_key(name) || rounds > 0 ==> after.local.contains_key(name)
        }),
    decreases rounds,
{
    if rounds > 0 {
        let shapes = (g.h.measure)(class, start.local, said);
        lemma_parts_keep(g, s, said, known, shapes, parts, start, parts.len(), name, n, at);
        let next = parts_asked(g, s, said, known, shapes, parts, start, parts.len());
        if next.moved {
            lemma_rounds_keep(
                g,
                s,
                said,
                known,
                class,
                parts,
                next.purse,
                (rounds - 1) as nat,
                name,
                n,
                at,
            );
        }
    }
}

proof fn lemma_settles(
    g: GroundV,
    class: ClassDef,
    env: EnvV,
    p: PreparedV,
    course: CourseV,
    name: Seq<char>,
    n: Number,
    at: int,
)
    requires
        is_local_name(name, p.stand.naming.prefix),
        all_given(g, p.stand, env.overrides, parts_of(g.classes, class), name, n),
        0 <= at < parts_of(g.classes, class).len(),
        parts_of(g.classes, class)[at].0.name == name,
        is_fixed(parts_of(g.classes, class)[at].0.variability),
    ensures
        settles_at(g, class, env, p, course, name, n),
{
    let s = p.stand;
    let prefix = s.naming.prefix;
    let parts = parts_of(g.classes, class);
    let start = nothing_settled(course.flat.const_values);
    lemma_rounds_keep(
        g,
        s,
        env.overrides,
        p.local_texts,
        class,
        parts,
        start,
        ROUNDS as nat,
        name,
        n,
        at,
    );
    let done = purse_settled(
        g,
        s,
        env.overrides,
        p.local_texts,
        class,
        parts,
        start,
        ROUNDS as nat,
    );
    assert(done.local.contains_key(name) && done.local[name] == n);
    let path = prefix + name;
    let under = all_prefixed(done.local, prefix);
    assert(path.skip(prefix.len() as int) =~= name);
    assert(path.take(prefix.len() as int) =~= prefix);
    assert(under.contains_key(path) && under[path] == n);
    if prefix.len() > 0 {
        assert(!under.contains_key(name)) by {
            if begins_with(name, prefix) {
                let k = choose|k: int| 0 <= k < prefix.len() && prefix[k] == '.';
                assert(name.take(prefix.len() as int)[k] == name[k]);
                assert(name.contains('.'));
            }
        }
    } else {
        assert(path =~= name);
    }
}

/// A number handed down to an instance for one of the parameters its class declares
/// outranks what the declaration says: the parameter settles at that number whatever
/// it is bound to.
pub proof fn law_a_modifier_outranks_the_declaration(
    g: GroundV,
    class: ClassDef,
    env: EnvV,
    p: PreparedV,
    course: CourseV,
    name: Seq<char>,
    n: Number,
    at: int,
)
    requires
        is_local_name(name, p.stand.naming.prefix),
        says_first(env.overrides, name, n),
        0 <= at < class.components@.len(),
        class.components@[at].name@ == name,
        is_fixed(class.components@[at].variability),
    ensures
        settles_at(g, class, env, p, course, name, n),
{
    lemma_said_first(env.overrides, name, n);
    let parts = parts_of(g.classes, class);
    assert(parts[at].0 == class.components@[at].deep_view());
    lemma_settles(g, class, env, p, course, name, n, at);
}

/// A number handed down outranks an `extends` clause in the same way: an inherited
/// parameter settles at it whatever the clause that brought it says.
pub proof fn law_a_modifier_outranks_an_extends(
    g: GroundV,
    class: ClassDef,
    env: EnvV,
    p: PreparedV,
    course: CourseV,
    name: Seq<char>,
    n: Number,
    at: int,
)
    requires
        is_local_name(name, p.stand.naming.prefix),
        says_first(env.overrides, name, n),
        0 <= at < parts_of(g.classes, class).len(),
        parts_of(g.classes, class)[at].0.name == name,
        is_fixed(parts_of(g.classes, class)[at].0.variability),
    ensures
        settles_at(g, class, env, p, course, name, n),
{
    lemma_said_first(env.overrides, name, n);
    lemma_settles(g, class, env, p, course, name, n, at);
}

/// A number that an `extends` clause gives an inherited parameter outranks what the
/// declaration says, where nothing handed down speaks of it.
pub proof fn law_an_extends_outranks_the_declaration(
    g: GroundV,
    class: ClassDef,
    env: EnvV,
    p: PreparedV,
    course: CourseV,
    name: Seq<char>,
    n: Number,
    at: int,
)
    requires
        is_local_name(name, p.stand.naming.prefix),
        says_nothing(env.overrides, name),
        0 <= at < parts_of(g.classes, class).len(),
        parts_of(g.classes, class)[at].0.name == name,
        is_fixed(parts_of(g.classes, class)[at].0.variability),
        forall|i: int|
            0 <= i < parts_of(g.classes, class).len() && (#[trigger] parts_of(
                g.classes,
                class,
            )[i]).0.name == name ==> parts_of(g.classes, class)[i].1 == Some(ExprV::Number(n)),
    ensures
        settles_at(g, class, env, p, course, name, n),
{
    lemma_said_nothing(env.overrides, name);
    let parts = parts_of(g.classes, class);
    assert forall|i: int, shapes: Lengths, local: Worths|
        0 <= i < parts.len() && parts[i].0.name == name implies #[trigger] part_value(
        g,
        p.stand,
        env.overrides,
        shapes,
        local,
        parts[i],
    ) == Some(ExprV::Number(n)) by {
        assert(parts[i].1 == Some(ExprV::Number(n)));
        assert(measured_in(ExprV::Number(n), local, shapes, g.v) == ExprV::Number(n));
    }
    lemma_settles(g, class, env, p, course, name, n, at);
}

/// A parameter that nobody gives a value settles at the number its declaration is
/// bound to.
pub proof fn law_a_declaration_stands_where_nobody_speaks(
    g: GroundV,
    class: ClassDef,
    env: EnvV,
    p: PreparedV,
    course: CourseV,
    name: Seq<char>,
    n: Number,
    at: int,
)
    requires
        is_local_name(name, p.stand.naming.prefix),
        says_nothing(env.overrides, name),
        put_here(g, p.stand, ExprV::Number(n)) == ExprV::Number(n),
        0 <= at < parts_of(g.classes, class).len(),
        parts_of(g.classes, class)[at].0.name == name,
        is_fixed(parts_of(g.classes, class)[at].0.variability),
        forall|i: int|
            0 <= i < parts_of(g.classes, class).len() && (#[trigger] parts_of(
                g.classes,
                class,
            )[i]).0.name == name ==> parts_of(g.classes, class)[i].1 is None && parts_of(
                g.classes,
                class,
            )[i].0.binding == Some(ExprV::Number(n)),
    ensures
        settles_at(g, class, env, p, course, name, n),
{
    lemma_said_nothing(env.overrides, name);
    let parts = parts_of(g.classes, class);
    assert forall|i: int, shapes: Lengths, local: Worths|
        0 <= i < parts.len() && parts[i].0.name == name implies #[trigger] part_value(
        g,
        p.stand,
        env.overrides,
        shapes,
        local,
        parts[i],
    ) == Some(ExprV::Number(n)) by {
        assert(parts[i].1 is None && parts[i].0.binding == Some(ExprV::Number(n)));
    }
    lemma_settles(g, class, env, p, course, name, n, at);
}

/// What is handed down to a class outranks what its own `extends` clauses say: a
/// base is handed the same number first.
pub proof fn law_what_is_handed_down_reaches_the_bases_first(
    g: GroundV,
    class: ClassDef,
    env: EnvV,
    s: StandV,
    consts: Worths,
    i: int,
    name: Seq<char>,
    n: Number,
)
    requires
        says_first(env.overrides, name, n),
    ensures
        says_first(base_values(g, class, env, s, consts, class.extends@[i]), name, n),
{
    let said = env.overrides;
    let all = base_values(g, class, env, s, consts, class.extends@[i]);
    let k = choose|k: int|
        0 <= k < said.len() && #[trigger] said[k] == (name, ExprV::Number(n)) && forall|q: int|
            0 <= q < k ==> (#[trigger] said[q]).0 != name;
    assert(all[k] == said[k]);
    assert forall|q: int| 0 <= q < k implies (#[trigger] all[q]).0 != name by {
        assert(all[q] == said[q]);
    }
}

proof fn lemma_handed_down(
    base: ClassDef,
    count: nat,
    modifiers: Seq<(Seq<char>, ExprV)>,
    at: int,
)
    requires
        0 <= at < count <= base.components@.len(),
        is_settled(base.components@[at]),
    ensures
        handed_down(base, count, modifiers).contains(
            (
                base.components@[at].deep_view(),
                said_of(modifiers, base.components@[at].name@),
            ),
        ),
    decreases count,
{
    let wanted = (base.components@[at].deep_view(), said_of(modifiers, base.components@[at].name@));
    let all = handed_down(base, count, modifiers);
    let before = handed_down(base, (count - 1) as nat, modifiers);
    if at == count - 1 {
        assert(all[before.len() as int] == wanted);
    } else {
        lemma_handed_down(base, (count - 1) as nat, modifiers, at);
        let k = choose|k: int| 0 <= k < before.len() && before[k] == wanted;
        assert(all[k] == wanted);
    }
}

proof fn lemma_parameters_from(
    classes: Seq<&ClassDef>,
    class: ClassDef,
    count: nat,
    depth: nat,
    k: int,
    base: ClassDef,
    at: int,
)
    requires
        depth <= MAX_DEPTH,
        0 <= k < count <= class.extends@.len(),
        base_of(classes, class, k) == Some(base),
        0 <= at < base.components@.len(),
        is_settled(base.components@[at]),
    ensures
        parameters_from(classes, class, count, depth).contains(
            (
                base.components@[at].deep_view(),
                said_of(class.extends@[k].modifiers.deep_view(), base.components@[at].name@),
            ),
        ),
    decreases count,
{
    let modifiers = class.extends@[k].modifiers.deep_view();
    let wanted = (base.components@[at].deep_view(), said_of(modifiers, base.components@[at].name@));
    let all = parameters_from(classes, class, count, depth);
    let before = parameters_from(classes, class, (count - 1) as nat, depth);
    if k == count - 1 {
        lemma_handed_down(base, base.components@.len(), modifiers, at);
        let own = handed_down(base, base.components@.len(), modifiers);
        let j = choose|j: int| 0 <= j < own.len() && own[j] == wanted;
        assert(all[before.len() + j] == wanted);
    } else {
        lemma_parameters_from(classes, class, (count - 1) as nat, depth, k, base, at);
        let j = choose|j: int| 0 <= j < before.len() && before[j] == wanted;
        assert(all[j] == wanted);
    }
}

/// A number that an `extends` clause gives a parameter of its base is handed down
/// with the parameter.
pub proof fn law_an_extends_hands_its_numbers_down(
    classes: Seq<&ClassDef>,
    class: ClassDef,
    k: int,
    base: ClassDef,
    at: int,
    n: Number,
)
    requires
        0 <= k < class.extends@.len(),
        base_of(classes, class, k) == Some(base),
        0 <= at < base.components@.len(),
        is_fixed(base.components@[at].variability),
        says_first(class.extends@[k].modifiers.deep_view(), base.components@[at].name@, n),
    ensures
        parts_of(classes, class).contains(
            (base.components@[at].deep_view(), Some(ExprV::Number(n))),
        ),
{
    let name = base.components@[at].name@;
    lemma_said_first(class.extends@[k].modifiers.deep_view(), name, n);
    lemma_parameters_from(classes, class, class.extends@.len(), 0, k, base, at);
    let from = parameters_from(classes, class, class.extends@.len(), 0);
    let wanted = (base.components@[at].deep_view(), Some(ExprV::Number(n)));
    let j = choose|j: int| 0 <= j < from.len() && from[j] == wanted;
    assert(parts_of(classes, class)[class.components@.len() + j] == wanted);
}

/// Whether what has settled early under a path is the number it should be.
pub open spec fn is_kept_early(e: EarlyV, path: Seq<char>, n: Number) -> bool {
    e.settled.contains(path) ==> e.consts.contains_key(path) && e.consts[path] == n
}

proof fn lemma_early_round(
    g: GroundV,
    s: StandV,
    said: Seq<(Seq<char>, ExprV)>,
    class: ClassDef,
    start: EarlyV,
    count: nat,
    name: Seq<char>,
    n: Number,
    at: int,
)
    requires
        count <= class.components@.len(),
        said_of(said, name) == Some(ExprV::Number(n)),
        is_kept_early(start, s.naming.prefix + name, n),
        0 <= at < class.components@.len(),
        class.components@[at].name@ == name,
        is_fixed(class.components@[at].variability),
    ensures
        ({
            let after = early_round(g, s, said, class, start, count);
            let path = s.naming.prefix + name;
            &&& is_kept_early(after, path, n)
            &&& start.settled.contains(path) || at < count ==> after.settled.contains(path)
        }),
    decreases count,
{
    if count > 0 {
        lemma_early_round(g, s, said, class, start, (count - 1) as nat, name, n, at);
        let before = early_round(g, s, said, class, start, (count - 1) as nat);
        let c = class.components@[count - 1].deep_view();
        let path = s.naming.prefix + name;
        let named = s.naming.prefix + c.name;
        let after = early_asked(g, s, said, c, before);
        if c.name == name {
            assert(early_value(g, s, said, c) == Some(ExprV::Number(n)));
            assert(evaluated(ExprV::Number(n), before.consts, g.v) == Some(n));
        } else {
            lemma_apart(s.naming.prefix, c.name, name);
        }
        if after.settled != before.settled {
            assert(after.settled == before.settled.push(named));
            assert(after.settled[before.settled.len() as int] == named);
            if before.settled.contains(path) {
                let k = choose|k: int| 0 <= k < before.settled.len() && before.settled[k] == path;
                assert(after.settled[k] == path);
            }
        }
    }
}

proof fn lemma_early_settled(
    g: GroundV,
    s: StandV,
    said: Seq<(Seq<char>, ExprV)>,
    class: ClassDef,
    start: EarlyV,
    rounds: nat,
    name: Seq<char>,
    n: Number,
    at: int,
)
    requires
        said_of(said, name) == Some(ExprV::Number(n)),
        is_kept_early(start, s.naming.prefix + name, n),
        0 <= at < class.components@.len(),
        class.components@[at].name@ == name,
        is_fixed(class.components@[at].variability),
    ensures
        ({
            let after = early_settled(g, s, said, class, start, rounds);
            let path = s.naming.prefix + name;
            &&& is_kept_early(after, path, n)
            &&& start.settled.contains(path) || rounds > 0 ==> after.settled.contains(path)
        }),
    decreases rounds,
{
    if rounds > 0 {
        let count = class.components@.len();
        lemma_early_round(g, s, said, class, start, count, name, n, at);
        let next = early_round(g, s, said, class, start, count);
        if next.moved {
            lemma_early_settled(g, s, said, class, next, (rounds - 1) as nat, name, n, at);
        }
    }
}

/// The bases of a class are built with the number that was handed down for a
/// parameter of the class, whatever the declaration of it says.
pub proof fn law_a_modifier_is_in_force_before_the_bases(
    g: GroundV,
    class: ClassDef,
    env: EnvV,
    p: PreparedV,
    name: Seq<char>,
    n: Number,
    at: int,
)
    requires
        says_first(env.overrides, name, n),
        0 <= at < class.components@.len(),
        class.components@[at].name@ == name,
        is_fixed(class.components@[at].variability),
    ensures
        ({
            let path = p.stand.naming.prefix + name;
            let known = early_course(g, class, env, p).flat.const_values;
            known.contains_key(path) && known[path] == n
        }),
{
    lemma_said_first(env.overrides, name, n);
    let list = crate::instantiate::by_path(p.inners, p.inners.len());
    let consts = if crate::instantiate::shares(class) {
        inners_settled(g, p.stand, list, p.course.flat.const_values, list.len())
    } else {
        p.course.flat.const_values
    };
    lemma_early_settled(
        g,
        p.stand,
        env.overrides,
        class,
        EarlyV { consts, numbers: p.course.numbers, settled: Seq::empty(), moved: false },
        ROUNDS as nat,
        name,
        n,
        at,
    );
}

}
