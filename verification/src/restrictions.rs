//! What a class may hold, and who may reach into it.
//!
//! A declaration under `protected` is visible inside its own class and inside
//! classes extending it, and nowhere else. A `block` is a model whose
//! connectors all have a direction and whose outputs are settled inside it,
//! and a package holds classes and constants only.
use crate::class::{
    Causality, ClassDef, ClassKind, Component, Extends, Variability, MAX_DEPTH,
};
use crate::expr::{expr_view, kids, lemma_kids_smaller, Expr, ExprV};
use crate::lookup::{left, lookup, meaning, Pairs, Registry};
use crate::names::{is_primitive, is_primitive_name};
use crate::text::{
    cut_first, find_first, first_of, head_of, join5, join7, same, split_first, until_first,
};
use crate::values::{every_value, values_written};
use vstd::prelude::*;

verus! {

/// Whether a class of a name is on a list.
pub open spec fn is_visited(list: Seq<&ClassDef>, name: Seq<char>) -> bool {
    exists|i: int| 0 <= i < list.len() && (#[trigger] list[i]).name@ == name
}

/// A list with a class and then everything it extends added, each base before
/// its own bases, as far in as classes may stand. A class that is on the list
/// already is not visited again, however many roads lead to it.
pub open spec fn visited<'a>(
    classes: Seq<&'a ClassDef>,
    class: &'a ClassDef,
    depth: nat,
    list: Seq<&'a ClassDef>,
) -> Seq<&'a ClassDef>
    decreases left(depth), class.extends@.len() + 1,
{
    if is_visited(list, class.name@) {
        list
    } else if depth > MAX_DEPTH {
        list.push(class)
    } else {
        bases_visited(classes, class, class.extends@.len(), depth, list.push(class))
    }
}

/// The same for the first `n` bases of a class.
pub open spec fn bases_visited<'a>(
    classes: Seq<&'a ClassDef>,
    class: &'a ClassDef,
    n: nat,
    depth: nat,
    list: Seq<&'a ClassDef>,
) -> Seq<&'a ClassDef>
    decreases left(depth), n,
{
    if n == 0 || n > class.extends@.len() || depth > MAX_DEPTH {
        list
    } else {
        let before = bases_visited(classes, class, (n - 1) as nat, depth, list);
        match meaning(classes, class.extends@[n - 1].base@, class.name@, class.imports.deep_view()) {
            Some(base) => visited(classes, &base, depth + 1, before),
            None => before,
        }
    }
}

/// A class and everything it extends, once each.
pub open spec fn family<'a>(classes: Seq<&'a ClassDef>, class: &'a ClassDef, depth: nat) -> Seq<
    &'a ClassDef,
> {
    visited(classes, class, depth, Seq::empty())
}

fn has_visited(list: &Vec<&ClassDef>, name: &str) -> (r: bool)
    ensures
        r == is_visited(list@, name@),
{
    let mut i: usize = 0;
    while i < list.len()
        invariant
            i <= list.len(),
            forall|k: int| 0 <= k < i ==> (#[trigger] list@[k]).name@ != name@,
        decreases list.len() - i,
    {
        if same(list[i].name.as_str(), name) {
            assert(list@[i as int].name@ == name@);
            return true;
        }
        i = i + 1;
    }
    false
}

/// Add a class and every class it extends to a list, once each.
pub fn with_bases<'a>(
    registry: &Registry<'a>,
    class: &'a ClassDef,
    depth: usize,
    out: &mut Vec<&'a ClassDef>,
)
    ensures
        final(out)@ == visited(registry@, class, depth as nat, old(out)@),
    decreases left(depth as nat),
{
    if has_visited(out, class.name.as_str()) {
        return;
    }
    let ghost was = out@;
    out.push(class);
    if depth > MAX_DEPTH {
        return;
    }
    let mut i: usize = 0;
    while i < class.extends.len()
        invariant
            depth <= MAX_DEPTH,
            i <= class.extends.len(),
            out@ == bases_visited(registry@, class, i as nat, depth as nat, was.push(class)),
        decreases class.extends.len() - i,
    {
        if let Some(base) = lookup(
            registry,
            class.extends[i].base.as_str(),
            class.name.as_str(),
            &class.imports,
        ) {
            with_bases(registry, base, depth + 1, out);
        }
        i = i + 1;
    }
}

/// Whether no two classes of a list have one name.
pub open spec fn once_each(list: Seq<&ClassDef>) -> bool {
    forall|i: int, j: int|
        0 <= i < j < list.len() ==> (#[trigger] list[i]).name@ != (#[trigger] list[j]).name@
}

proof fn lemma_pushed_once(list: Seq<&ClassDef>, class: &ClassDef)
    requires
        once_each(list),
        !is_visited(list, class.name@),
    ensures
        once_each(list.push(class)),
{
    let more = list.push(class);
    assert forall|i: int, j: int| 0 <= i < j < more.len() implies (#[trigger] more[i]).name@
        != (#[trigger] more[j]).name@ by {
        assert(list[i] == more[i]);
        if j < list.len() {
            assert(list[j] == more[j]);
        }
    }
}

/// Each class is visited once, whatever roads lead to it: where two bases share
/// a base, that base is on the list once.
pub proof fn law_each_class_is_visited_once<'a>(
    classes: Seq<&'a ClassDef>,
    class: &'a ClassDef,
    depth: nat,
    list: Seq<&'a ClassDef>,
)
    requires
        once_each(list),
    ensures
        once_each(visited(classes, class, depth, list)),
        is_visited(visited(classes, class, depth, list), class.name@),
        list.is_prefix_of(visited(classes, class, depth, list)),
    decreases left(depth), class.extends@.len() + 1,
{
    if !is_visited(list, class.name@) {
        lemma_pushed_once(list, class);
        let more = list.push(class);
        assert(more[list.len() as int].name@ == class.name@);
        if depth <= MAX_DEPTH {
            lemma_bases_visited_once(classes, class, class.extends@.len(), depth, more);
            let made = visited(classes, class, depth, list);
            assert(made[list.len() as int] == more[list.len() as int]);
            assert(list.is_prefix_of(made)) by {
                assert(list =~= made.take(list.len() as int));
            }
        }
    }
}

proof fn lemma_bases_visited_once<'a>(
    classes: Seq<&'a ClassDef>,
    class: &'a ClassDef,
    n: nat,
    depth: nat,
    list: Seq<&'a ClassDef>,
)
    requires
        once_each(list),
    ensures
        once_each(bases_visited(classes, class, n, depth, list)),
        list.is_prefix_of(bases_visited(classes, class, n, depth, list)),
    decreases left(depth), n,
{
    if n == 0 || n > class.extends@.len() || depth > MAX_DEPTH {
    } else {
        lemma_bases_visited_once(classes, class, (n - 1) as nat, depth, list);
        let before = bases_visited(classes, class, (n - 1) as nat, depth, list);
        match meaning(classes, class.extends@[n - 1].base@, class.name@, class.imports.deep_view()) {
            Some(base) => {
                law_each_class_is_visited_once(classes, &base, depth + 1, before);
                let made = visited(classes, &base, depth + 1, before);
                assert(list =~= made.take(list.len() as int)) by {
                    assert(list =~= before.take(list.len() as int));
                    assert(before =~= made.take(before.len() as int));
                }
            },
            None => {},
        }
    }
}

/// The name a dotted or subscripted reference starts from.
pub open spec fn head_name(name: Seq<char>) -> Seq<char> {
    until_first(until_first(name, '.'), '[')
}

/// The name a dotted or subscripted reference starts from.
pub fn head(name: &str) -> (r: String)
    ensures
        r@ == head_name(name@),
{
    let before = head_of(name, '.');
    head_of(before.as_str(), '[')
}

/// What a subscripted expression is an element of.
pub open spec fn unsubscripted(e: ExprV) -> ExprV
    decreases e,
{
    match e {
        ExprV::Index(of, _) => unsubscripted(*of),
        _ => e,
    }
}

/// The component that one node of an expression reaches into, and the member
/// that it names.
pub open spec fn reach_of(e: ExprV) -> Option<(Seq<char>, Seq<char>)> {
    match e {
        ExprV::Ref(name) => match cut_first(name, '.') {
            Some((of, member)) => Some((of, until_first(member, '.'))),
            None => None,
        },
        ExprV::Member(base, member) => match unsubscripted(*base) {
            ExprV::Ref(name) => if first_of(name, '.') < name.len() {
                None
            } else {
                Some((name, member))
            },
            _ => None,
        },
        _ => None,
    }
}

fn find_reach(expr: &Expr) -> (r: Option<(String, String)>)
    ensures
        match r {
            Some((of, member)) => reach_of(expr.deep_view()) == Some((of@, member@)),
            None => reach_of(expr.deep_view()) is None,
        },
{
    match expr {
        Expr::Ref(name) => match split_first(name.as_str(), '.') {
            Some((of, member)) => Some((of, head_of(member.as_str(), '.'))),
            None => None,
        },
        Expr::Member(base, member) => {
            assert((**base).deep_view() == expr_view(**base));
            let below = strip(base);
            if let Expr::Ref(name) = below {
                let n: usize = name.as_str().unicode_len();
                if find_first(name.as_str(), '.') < n {
                    None
                } else {
                    Some((name.clone(), member.clone()))
                }
            } else {
                None
            }
        },
        _ => None,
    }
}

fn strip(expr: &Expr) -> (r: &Expr)
    ensures
        r.deep_view() == unsubscripted(expr.deep_view()),
    decreases *expr,
{
    match expr {
        Expr::Index(of, _) => {
            assert((**of).deep_view() == expr_view(**of));
            strip(of)
        },
        _ => expr,
    }
}

/// What a component of a class is of: the first declaration of that name in
/// the classes of a family, other than those of a type with no members.
pub open spec fn type_held(family: Seq<&ClassDef>, name: Seq<char>, i: nat) -> Option<Seq<char>>
    decreases family.len() - i,
{
    if i >= family.len() {
        None
    } else {
        match type_declared(family[i as int].components@, name, 0) {
            Some(of) => Some(of),
            None => type_held(family, name, i + 1),
        }
    }
}

pub open spec fn type_declared(list: Seq<Component>, name: Seq<char>, i: nat) -> Option<Seq<char>>
    decreases list.len() - i,
{
    if i >= list.len() {
        None
    } else if list[i as int].name@ == name && !is_primitive_name(list[i as int].of_type@) {
        Some(list[i as int].of_type@)
    } else {
        type_declared(list, name, i + 1)
    }
}

fn find_type<'a>(family: &Vec<&'a ClassDef>, name: &str) -> (r: Option<&'a String>)
    ensures
        match r {
            Some(of) => type_held(family@, name@, 0) == Some(of@),
            None => type_held(family@, name@, 0) is None,
        },
{
    let mut i: usize = 0;
    while i < family.len()
        invariant
            i <= family.len(),
            type_held(family@, name@, 0) == type_held(family@, name@, i as nat),
        decreases family.len() - i,
    {
        let class: &'a ClassDef = family[i];
        let mut k: usize = 0;
        while k < class.components.len()
            invariant
                i < family.len(),
                class == family@[i as int],
                k <= class.components.len(),
                type_held(family@, name@, 0) == type_held(family@, name@, i as nat),
                type_declared(class.components@, name@, 0) == type_declared(
                    class.components@,
                    name@,
                    k as nat,
                ),
            decreases class.components.len() - k,
        {
            let one: &'a Component = &class.components[k];
            if same(one.name.as_str(), name) && !is_primitive(one.of_type.as_str()) {
                return Some(&one.of_type);
            }
            k = k + 1;
        }
        i = i + 1;
    }
    None
}

/// Whether a class declares a member under `protected`.
pub open spec fn keeps_back(class: ClassDef, member: Seq<char>) -> bool {
    exists|i: int|
        0 <= i < class.components@.len() && (#[trigger] class.components@[i]).name@ == member
            && class.components@[i].protected
}

pub open spec fn any_keeps_back(family: Seq<&ClassDef>, member: Seq<char>) -> bool {
    exists|i: int| 0 <= i < family.len() && keeps_back(*#[trigger] family[i], member)
}

fn does_keep_back(class: &ClassDef, member: &str) -> (r: bool)
    ensures
        r == keeps_back(*class, member@),
{
    let mut i: usize = 0;
    while i < class.components.len()
        invariant
            i <= class.components.len(),
            forall|k: int|
                0 <= k < i ==> !((#[trigger] class.components@[k]).name@ == member@
                    && class.components@[k].protected),
        decreases class.components.len() - i,
    {
        if same(class.components[i].name.as_str(), member) && class.components[i].protected {
            assert(class.components@[i as int].name@ == member@);
            return true;
        }
        i = i + 1;
    }
    false
}

/// What a class is looked at with: itself, what it is found among, and what
/// its names stand for.
pub ghost struct ViewV<'a> {
    pub classes: Seq<&'a ClassDef>,
    pub class: &'a ClassDef,
    pub imports: Pairs,
}

/// Whether a member of a component is one that its class, or a class it
/// extends, keeps to itself: inheriting a declaration does not publish it.
pub open spec fn is_kept_back(view: ViewV, component: Seq<char>, member: Seq<char>) -> bool {
    match type_held(family(view.classes, view.class, 0), component, 0) {
        Some(of) => match meaning(view.classes, of, view.class.name@, view.imports) {
            Some(found) => any_keeps_back(family(view.classes, &found, 0), member),
            None => false,
        },
        None => false,
    }
}

fn find_kept_back<'a>(
    registry: &Registry<'a>,
    class: &'a ClassDef,
    imports: &Vec<(String, String)>,
    own: &Vec<&'a ClassDef>,
    component: &str,
    member: &str,
) -> (r: bool)
    requires
        own@ == family(registry@, class, 0),
    ensures
        r == is_kept_back(
            ViewV { classes: registry@, class, imports: imports.deep_view() },
            component@,
            member@,
        ),
{
    let of = match find_type(own, component) {
        Some(of) => of,
        None => return false,
    };
    let found = match lookup(registry, of.as_str(), class.name.as_str(), imports) {
        Some(found) => found,
        None => return false,
    };
    let mut bases: Vec<&'a ClassDef> = Vec::new();
    with_bases(registry, found, 0, &mut bases);
    assert(bases@ =~= family(registry@, found, 0));
    let mut i: usize = 0;
    while i < bases.len()
        invariant
            i <= bases.len(),
            bases@ == family(registry@, found, 0),
            type_held(own@, component@, 0) == Some(of@),
            own@ == family(registry@, class, 0),
            meaning(registry@, of@, class.name@, imports.deep_view()) == Some(*found),
            forall|k: int| 0 <= k < i ==> !keeps_back(*#[trigger] bases@[k], member@),
        decreases bases.len() - i,
    {
        if does_keep_back(bases[i], member) {
            assert(keeps_back(*bases@[i as int], member@));
            assert(any_keeps_back(bases@, member@));
            return true;
        }
        i = i + 1;
    }
    false
}

/// The first reach into something kept back that an expression makes, the
/// expression itself before what stands in it.
pub open spec fn first_reach(e: ExprV, view: ViewV) -> Option<(Seq<char>, Seq<char>)>
    decreases e, kids(e).len() + 1,
{
    match reach_of(e) {
        Some((of, member)) => if is_kept_back(view, of, member) {
            Some((of, member))
        } else {
            kids_reach(e, view, 0)
        },
        None => kids_reach(e, view, 0),
    }
}

/// The same from the `i`-th child on.
pub open spec fn kids_reach(e: ExprV, view: ViewV, i: nat) -> Option<(Seq<char>, Seq<char>)>
    decreases e, kids(e).len() - i,
{
    proof {
        lemma_kids_smaller(e);
    }
    if i >= kids(e).len() {
        None
    } else {
        match first_reach(kids(e)[i as int], view) {
            Some(reach) => Some(reach),
            None => kids_reach(e, view, i + 1),
        }
    }
}

/// The first reach into something kept back that an expression makes, as the
/// component reached into and the member named.
fn reaching<'a>(
    expr: &Expr,
    registry: &Registry<'a>,
    class: &'a ClassDef,
    imports: &Vec<(String, String)>,
    own: &Vec<&'a ClassDef>,
) -> (r: Option<(String, String)>)
    requires
        own@ == family(registry@, class, 0),
    ensures
        r.deep_view() == first_reach(
            expr.deep_view(),
            ViewV { classes: registry@, class, imports: imports.deep_view() },
        ),
    decreases expr.deep_view(),
{
    let ghost view = ViewV { classes: registry@, class, imports: imports.deep_view() };
    let ghost shape = expr.deep_view();
    if let Some((of, member)) = find_reach(expr) {
        if find_kept_back(registry, class, imports, own, of.as_str(), member.as_str()) {
            return Some((of, member));
        }
    }
    let below = expr.children();
    let mut i: usize = 0;
    proof {
        lemma_kids_smaller(shape);
    }
    while i < below.len()
        invariant
            i <= below.len(),
            own@ == family(registry@, class, 0),
            view == (ViewV { classes: registry@, class, imports: imports.deep_view() }),
            shape == expr.deep_view(),
            below.deep_view() == kids(shape),
            forall|k: int|
                0 <= k < kids(shape).len() ==> (#[trigger] decreases_to!(shape => kids(shape)[k])),
            first_reach(shape, view) == kids_reach(shape, view, i as nat),
        decreases below.len() - i,
    {
        assert(below.deep_view()[i as int] == below@[i as int].deep_view());
        assert(decreases_to!(shape => kids(shape)[i as int]));
        if let Some(reach) = reaching(below[i], registry, class, imports, own) {
            return Some(reach);
        }
        i = i + 1;
    }
    None
}

/// The first reach that the values from the `i`-th on make.
pub open spec fn values_reach(list: Seq<ExprV>, view: ViewV, i: nat) -> Option<
    (Seq<char>, Seq<char>),
>
    decreases list.len() - i,
{
    if i >= list.len() {
        None
    } else {
        match first_reach(list[i as int], view) {
            Some(reach) => Some(reach),
            None => values_reach(list, view, i + 1),
        }
    }
}

/// The first reach that the modifiers of a declaration make, from the `i`-th
/// on. A modifier path reaches the component's own member first.
pub open spec fn modifiers_reach(
    component: Component,
    view: ViewV,
    i: nat,
) -> Option<(Seq<char>, Seq<char>)>
    decreases component.modifiers@.len() - i,
{
    if i >= component.modifiers@.len() {
        None
    } else {
        let member = head_name(component.modifiers@[i as int].0@);
        if is_kept_back(view, component.name@, member) {
            Some((component.name@, member))
        } else {
            modifiers_reach(component, view, i + 1)
        }
    }
}

/// The same over the declarations from the `i`-th on.
pub open spec fn declarations_reach(
    list: Seq<Component>,
    view: ViewV,
    i: nat,
) -> Option<(Seq<char>, Seq<char>)>
    decreases list.len() - i,
{
    if i >= list.len() {
        None
    } else {
        match modifiers_reach(list[i as int], view, 0) {
            Some(reach) => Some(reach),
            None => declarations_reach(list, view, i + 1),
        }
    }
}

/// The first reach that a class makes into what one of its components keeps
/// to itself: by naming it, or by modifying it from a declaration.
pub open spec fn class_reach(view: ViewV) -> Option<(Seq<char>, Seq<char>)> {
    match values_reach(values_written(*view.class), view, 0) {
        Some(reach) => Some(reach),
        None => declarations_reach(view.class.components@, view, 0),
    }
}

/// What a class that reaches inside is told.
pub open spec fn reach_told(view: ViewV, reach: (Seq<char>, Seq<char>)) -> Seq<char> {
    "`"@ + reach.0 + "."@ + reach.1 + "` reaches a `protected` declaration of `"@ + (
    type_held(family(view.classes, view.class, 0), reach.0, 0)->0)
        + "`, which is visible only inside that class and the classes extending it"@
}

fn find_class_reach<'a>(
    registry: &Registry<'a>,
    class: &'a ClassDef,
    imports: &Vec<(String, String)>,
    own: &Vec<&'a ClassDef>,
) -> (r: Option<(String, String)>)
    requires
        own@ == family(registry@, class, 0),
    ensures
        r.deep_view() == class_reach(
            ViewV { classes: registry@, class, imports: imports.deep_view() },
        ),
{
    let ghost view = ViewV { classes: registry@, class, imports: imports.deep_view() };
    let values = every_value(class);
    let ghost all = values.deep_view();
    let mut i: usize = 0;
    while i < values.len()
        invariant
            i <= values.len(),
            own@ == family(registry@, class, 0),
            view == (ViewV { classes: registry@, class, imports: imports.deep_view() }),
            all == values.deep_view(),
            all == values_written(*class),
            values_reach(all, view, 0) == values_reach(all, view, i as nat),
        decreases values.len() - i,
    {
        assert(all[i as int] == values@[i as int].deep_view());
        if let Some(reach) = reaching(&values[i], registry, class, imports, own) {
            return Some(reach);
        }
        i = i + 1;
    }
    let mut i: usize = 0;
    while i < class.components.len()
        invariant
            i <= class.components.len(),
            own@ == family(registry@, class, 0),
            view == (ViewV { classes: registry@, class, imports: imports.deep_view() }),
            values_reach(values_written(*class), view, 0) is None,
            declarations_reach(class.components@, view, 0) == declarations_reach(
                class.components@,
                view,
                i as nat,
            ),
        decreases class.components.len() - i,
    {
        let component = &class.components[i];
        let mut k: usize = 0;
        while k < component.modifiers.len()
            invariant
                k <= component.modifiers.len(),
                i < class.components.len(),
                *component == class.components@[i as int],
                own@ == family(registry@, class, 0),
                view == (ViewV { classes: registry@, class, imports: imports.deep_view() }),
                values_reach(values_written(*class), view, 0) is None,
                declarations_reach(class.components@, view, 0) == declarations_reach(
                    class.components@,
                    view,
                    i as nat,
                ),
                modifiers_reach(*component, view, 0) == modifiers_reach(
                    *component,
                    view,
                    k as nat,
                ),
            decreases component.modifiers.len() - k,
        {
            let member = head(component.modifiers[k].0.as_str());
            if find_kept_back(
                registry,
                class,
                imports,
                own,
                component.name.as_str(),
                member.as_str(),
            ) {
                return Some((component.name.clone(), member));
            }
            k = k + 1;
        }
        i = i + 1;
    }
    None
}

/// Refuse any reach into what a component's class keeps to itself.
///
/// The check is of one class against the components it holds, the inherited
/// ones included.
pub fn nothing_reaches_inside<'a>(
    registry: &Registry<'a>,
    class: &'a ClassDef,
    imports: &Vec<(String, String)>,
) -> (r: Result<(), String>)
    ensures
        ({
            let view = ViewV { classes: registry@, class, imports: imports.deep_view() };
            match class_reach(view) {
                None => r is Ok,
                Some(reach) => r matches Err(why) && why@ == reach_told(view, reach),
            }
        }),
{
    let mut own: Vec<&'a ClassDef> = Vec::new();
    with_bases(registry, class, 0, &mut own);
    assert(own@ =~= family(registry@, class, 0));
    match find_class_reach(registry, class, imports, &own) {
        None => Ok(()),
        Some((component, member)) => {
            let of: String = match find_type(&own, component.as_str()) {
                Some(of) => of.clone(),
                None => {
                    proof {
                        let view = ViewV {
                            classes: registry@,
                            class,
                            imports: imports.deep_view(),
                        };
                        lemma_reach_is_kept_back(view);
                    }
                    String::new()
                },
            };
            Err(
                join7(
                    "`",
                    component.as_str(),
                    ".",
                    member.as_str(),
                    "` reaches a `protected` declaration of `",
                    of.as_str(),
                    "`, which is visible only inside that class and the classes extending it",
                ),
            )
        },
    }
}

proof fn lemma_first_reach(e: ExprV, view: ViewV)
    ensures
        first_reach(e, view) matches Some(reach) ==> is_kept_back(view, reach.0, reach.1),
    decreases e, kids(e).len() + 1,
{
    lemma_kids_reach(e, view, 0);
}

proof fn lemma_kids_reach(e: ExprV, view: ViewV, i: nat)
    ensures
        kids_reach(e, view, i) matches Some(reach) ==> is_kept_back(view, reach.0, reach.1),
    decreases e, kids(e).len() - i,
{
    lemma_kids_smaller(e);
    if i < kids(e).len() {
        assert(decreases_to!(e => kids(e)[i as int]));
        lemma_first_reach(kids(e)[i as int], view);
        lemma_kids_reach(e, view, i + 1);
    }
}

proof fn lemma_values_reach(list: Seq<ExprV>, view: ViewV, i: nat)
    ensures
        values_reach(list, view, i) matches Some(reach) ==> is_kept_back(view, reach.0, reach.1),
    decreases list.len() - i,
{
    if i < list.len() {
        lemma_first_reach(list[i as int], view);
        lemma_values_reach(list, view, i + 1);
    }
}

proof fn lemma_modifiers_reach(component: Component, view: ViewV, i: nat)
    ensures
        modifiers_reach(component, view, i) matches Some(reach) ==> is_kept_back(
            view,
            reach.0,
            reach.1,
        ),
    decreases component.modifiers@.len() - i,
{
    if i < component.modifiers@.len() {
        lemma_modifiers_reach(component, view, i + 1);
    }
}

proof fn lemma_declarations_reach(list: Seq<Component>, view: ViewV, i: nat)
    ensures
        declarations_reach(list, view, i) matches Some(reach) ==> is_kept_back(
            view,
            reach.0,
            reach.1,
        ),
    decreases list.len() - i,
{
    if i < list.len() {
        lemma_modifiers_reach(list[i as int], view, 0);
        lemma_declarations_reach(list, view, i + 1);
    }
}

proof fn lemma_reach_is_kept_back(view: ViewV)
    ensures
        class_reach(view) matches Some(reach) ==> is_kept_back(view, reach.0, reach.1),
{
    lemma_values_reach(values_written(*view.class), view, 0);
    lemma_declarations_reach(view.class.components@, view, 0);
}

/// A class is refused only for a member that the component's class, or one
/// that class extends, declares `protected`; where none does, every reach is
/// allowed.
pub proof fn law_only_protected_members_are_refused(view: ViewV)
    ensures
        class_reach(view) matches Some(reach) ==> is_kept_back(view, reach.0, reach.1),
        (forall|component: Seq<char>, member: Seq<char>|
            !#[trigger] is_kept_back(view, component, member)) ==> class_reach(view) is None,
{
    lemma_reach_is_kept_back(view);
    if let Some(reach) = class_reach(view) {
        assert(is_kept_back(view, reach.0, reach.1));
    }
}

/// Whether a declaration is a signal: a parameter is not, and says nothing
/// about which way a connector goes.
pub open spec fn is_signal(component: Component) -> bool {
    component.variability == Variability::Continuous || component.variability
        == Variability::Discrete
}

/// Whether a connector built of variables of its own says which way it goes:
/// it holds signals and every one of them does.
pub open spec fn signals_have_direction(list: Seq<Component>) -> bool {
    &&& exists|i: int| 0 <= i < list.len() && is_signal(#[trigger] list[i])
    &&& forall|i: int|
        0 <= i < list.len() && is_signal(#[trigger] list[i]) ==> list[i].causality
            != Causality::Acausal
}

/// Whether a declaration of a block is a connector that nothing gives a
/// direction: not the declaration, not the short definition the connector
/// came from, and not the variables it holds. A bus takes its direction from
/// what is connected to it.
pub open spec fn is_directionless(
    classes: Seq<&ClassDef>,
    class: ClassDef,
    component: Component,
) -> bool {
    component.causality == Causality::Acausal && match meaning(
        classes,
        component.of_type@,
        class.name@,
        class.imports.deep_view(),
    ) {
        Some(of) => of.kind == ClassKind::Connector && of.alias_causality == Causality::Acausal
            && !of.expandable && !signals_have_direction(of.components@),
        None => false,
    }
}

/// The first such declaration from the `i`-th on.
pub open spec fn first_directionless(classes: Seq<&ClassDef>, class: ClassDef, i: nat) -> Option<
    Seq<char>,
>
    decreases class.components@.len() - i,
{
    if i >= class.components@.len() {
        None
    } else if is_directionless(classes, class, class.components@[i as int]) {
        Some(class.components@[i as int].name@)
    } else {
        first_directionless(classes, class, i + 1)
    }
}

fn have_direction(list: &Vec<Component>) -> (r: bool)
    ensures
        r == signals_have_direction(list@),
{
    let mut any: bool = false;
    let mut i: usize = 0;
    while i < list.len()
        invariant
            i <= list.len(),
            any == exists|k: int| 0 <= k < i && is_signal(#[trigger] list@[k]),
            forall|k: int|
                0 <= k < i && is_signal(#[trigger] list@[k]) ==> list@[k].causality
                    != Causality::Acausal,
        decreases list.len() - i,
    {
        let one = &list[i];
        if one.variability == Variability::Continuous || one.variability == Variability::Discrete {
            assert(is_signal(list@[i as int]));
            if one.causality == Causality::Acausal {
                return false;
            }
            any = true;
        }
        i = i + 1;
    }
    any
}

/// Refuse a `block` that holds a connector nothing gave a direction.
///
/// The direction may be written on the component, on the short definition its
/// connector came from, or on every variable the connector declares.
pub fn every_connector_of_a_block_is_causal(registry: &Registry, class: &ClassDef) -> (r: Result<
    (),
    String,
>)
    ensures
        match first_directionless(registry@, *class, 0) {
            None => r is Ok,
            Some(name) => r matches Err(why) && why@ == "`"@ + class.name@ + "."@ + name
                + "` is a connector of a `block` and nothing says which way it goes; a block's connectors are `input` or `output`, written on the declaration, on the connector or on every variable it holds"@,
        },
{
    let mut i: usize = 0;
    while i < class.components.len()
        invariant
            i <= class.components.len(),
            first_directionless(registry@, *class, 0) == first_directionless(
                registry@,
                *class,
                i as nat,
            ),
        decreases class.components.len() - i,
    {
        let component = &class.components[i];
        if component.causality == Causality::Acausal {
            if let Some(of) = lookup(
                registry,
                component.of_type.as_str(),
                class.name.as_str(),
                &class.imports,
            ) {
                if of.kind == ClassKind::Connector && of.alias_causality == Causality::Acausal
                    && !of.expandable && !have_direction(&of.components) {
                    return Err(
                        join5(
                            "`",
                            class.name.as_str(),
                            ".",
                            component.name.as_str(),
                            "` is a connector of a `block` and nothing says which way it goes; a block's connectors are `input` or `output`, written on the declaration, on the connector or on every variable it holds",
                        ),
                    );
                }
            }
        }
        i = i + 1;
    }
    Ok(())
}

/// Whether an expression speaks of a name, under a dot or a subscript or not.
pub open spec fn speaks_of(e: ExprV, name: Seq<char>) -> bool
    decreases e, 1int,
{
    (e matches ExprV::Ref(said) && head_name(said) == name) || kids_speak_of(e, name)
}

pub open spec fn kids_speak_of(e: ExprV, name: Seq<char>) -> bool
    decreases e, 0int,
{
    proof {
        lemma_kids_smaller(e);
    }
    exists|i: int| 0 <= i < kids(e).len() && speaks_of(#[trigger] kids(e)[i], name)
}

fn does_speak_of(expr: &Expr, name: &str) -> (r: bool)
    ensures
        r == speaks_of(expr.deep_view(), name@),
    decreases expr.deep_view(),
{
    let ghost shape = expr.deep_view();
    if let Expr::Ref(said) = expr {
        let start = head(said.as_str());
        if same(start.as_str(), name) {
            return true;
        }
    }
    let below = expr.children();
    let mut i: usize = 0;
    proof {
        lemma_kids_smaller(shape);
    }
    while i < below.len()
        invariant
            i <= below.len(),
            shape == expr.deep_view(),
            !(shape matches ExprV::Ref(said) && head_name(said) == name@),
            below.deep_view() == kids(shape),
            forall|k: int|
                0 <= k < kids(shape).len() ==> (#[trigger] decreases_to!(shape => kids(shape)[k])),
            forall|k: int| 0 <= k < i ==> !speaks_of(#[trigger] kids(shape)[k], name@),
        decreases below.len() - i,
    {
        assert(below.deep_view()[i as int] == below@[i as int].deep_view());
        assert(decreases_to!(shape => kids(shape)[i as int]));
        if does_speak_of(below[i], name) {
            assert(speaks_of(kids(shape)[i as int], name@));
            assert(kids_speak_of(shape, name@));
            return true;
        }
        i = i + 1;
    }
    assert(!kids_speak_of(shape, name@));
    false
}

pub open spec fn is_bound(list: Seq<Component>, name: Seq<char>) -> bool {
    exists|i: int|
        0 <= i < list.len() && (#[trigger] list[i]).name@ == name && list[i].binding is Some
}

pub open spec fn is_modified(extend: Extends, name: Seq<char>) -> bool {
    exists|i: int|
        0 <= i < extend.modifiers@.len() && head_name((#[trigger] extend.modifiers@[i]).0@) == name
}

pub open spec fn is_modified_by_any(list: Seq<Extends>, name: Seq<char>) -> bool {
    exists|i: int| 0 <= i < list.len() && is_modified(#[trigger] list[i], name)
}

pub open spec fn is_spoken_of(values: Seq<ExprV>, name: Seq<char>) -> bool {
    exists|i: int| 0 <= i < values.len() && speaks_of(#[trigger] values[i], name)
}

/// Whether a class speaks of a name anywhere: in the value of its
/// declaration, in a modifier of an `extends`, or in any value it writes.
pub open spec fn class_speaks_of(class: ClassDef, name: Seq<char>) -> bool {
    is_bound(class.components@, name) || is_modified_by_any(class.extends@, name) || is_spoken_of(
        values_written(class),
        name,
    )
}

pub open spec fn family_speaks_of(family: Seq<&ClassDef>, name: Seq<char>) -> bool {
    exists|i: int| 0 <= i < family.len() && class_speaks_of(*#[trigger] family[i], name)
}

fn does_class_speak_of(class: &ClassDef, name: &str) -> (r: bool)
    ensures
        r == class_speaks_of(*class, name@),
{
    let mut i: usize = 0;
    while i < class.components.len()
        invariant
            i <= class.components.len(),
            forall|k: int|
                0 <= k < i ==> !((#[trigger] class.components@[k]).name@ == name@
                    && class.components@[k].binding is Some),
        decreases class.components.len() - i,
    {
        if same(class.components[i].name.as_str(), name) && class.components[i].binding.is_some() {
            assert(class.components@[i as int].name@ == name@);
            return true;
        }
        i = i + 1;
    }
    assert(!is_bound(class.components@, name@));
    let mut i: usize = 0;
    while i < class.extends.len()
        invariant
            i <= class.extends.len(),
            forall|k: int| 0 <= k < i ==> !is_modified(#[trigger] class.extends@[k], name@),
        decreases class.extends.len() - i,
    {
        let extend = &class.extends[i];
        let mut k: usize = 0;
        while k < extend.modifiers.len()
            invariant
                k <= extend.modifiers.len(),
                i < class.extends.len(),
                *extend == class.extends@[i as int],
                forall|j: int|
                    0 <= j < k ==> head_name((#[trigger] extend.modifiers@[j]).0@) != name@,
            decreases extend.modifiers.len() - k,
        {
            let start = head(extend.modifiers[k].0.as_str());
            if same(start.as_str(), name) {
                assert(head_name(extend.modifiers@[k as int].0@) == name@);
                assert(is_modified(class.extends@[i as int], name@));
                return true;
            }
            k = k + 1;
        }
        assert(!is_modified(*extend, name@));
        i = i + 1;
    }
    assert(!is_modified_by_any(class.extends@, name@));
    let values = every_value(class);
    let ghost all = values.deep_view();
    let mut i: usize = 0;
    while i < values.len()
        invariant
            i <= values.len(),
            all == values.deep_view(),
            all == values_written(*class),
            forall|k: int| 0 <= k < i ==> !speaks_of(#[trigger] all[k], name@),
        decreases values.len() - i,
    {
        assert(all[i as int] == values@[i as int].deep_view());
        if does_speak_of(&values[i], name) {
            assert(speaks_of(all[i as int], name@));
            return true;
        }
        i = i + 1;
    }
    false
}

fn does_family_speak_of(family: &Vec<&ClassDef>, name: &str) -> (r: bool)
    ensures
        r == family_speaks_of(family@, name@),
{
    let mut i: usize = 0;
    while i < family.len()
        invariant
            i <= family.len(),
            forall|k: int| 0 <= k < i ==> !class_speaks_of(*#[trigger] family@[k], name@),
        decreases family.len() - i,
    {
        if does_class_speak_of(family[i], name) {
            assert(class_speaks_of(*family@[i as int], name@));
            return true;
        }
        i = i + 1;
    }
    false
}

/// Whether a declaration is an output that is always there: by its own word
/// or by that of the connector it is of.
pub open spec fn is_output(classes: Seq<&ClassDef>, class: ClassDef, component: Component) -> bool {
    (component.causality == Causality::Output || match meaning(
        classes,
        component.of_type@,
        class.name@,
        class.imports.deep_view(),
    ) {
        Some(of) => of.alias_causality == Causality::Output,
        None => false,
    }) && component.condition is None
}

/// The first output of a class from its `k`-th declaration on that nothing in
/// the family speaks of.
pub open spec fn first_unsettled(
    classes: Seq<&ClassDef>,
    family: Seq<&ClassDef>,
    class: ClassDef,
    k: nat,
) -> Option<Seq<char>>
    decreases class.components@.len() - k,
{
    if k >= class.components@.len() {
        None
    } else if is_output(classes, class, class.components@[k as int]) && !family_speaks_of(
        family,
        class.components@[k as int].name@,
    ) {
        Some(class.components@[k as int].name@)
    } else {
        first_unsettled(classes, family, class, k + 1)
    }
}

/// The same over the classes of a family from the `i`-th on, with the class
/// it is an output of.
pub open spec fn family_unsettled(
    classes: Seq<&ClassDef>,
    family: Seq<&ClassDef>,
    i: nat,
) -> Option<(Seq<char>, Seq<char>)>
    decreases family.len() - i,
{
    if i >= family.len() {
        None
    } else {
        match first_unsettled(classes, family, *family[i as int], 0) {
            Some(name) => Some((name, family[i as int].name@)),
            None => family_unsettled(classes, family, i + 1),
        }
    }
}

/// What a block that leaves an output unsettled is told.
pub open spec fn unsettled_told(of: Seq<char>, name: Seq<char>) -> Seq<char> {
    "`"@ + of + "."@ + name
        + "` is an output of a `block` and nothing in the block settles it; a block's outputs are worked out inside it and its inputs come from outside, which is what makes it a block rather than a model"@
}

/// Refuse a `block` that leaves one of its own outputs to somebody else to
/// work out.
///
/// A `partial` block is exactly the case where the outputs are left for
/// whoever extends it, and is not asked. What counts as settling is wide on
/// purpose: the only thing refused is an output nobody speaks of at all.
pub fn every_output_of_a_block_is_settled_inside<'a>(
    registry: &Registry<'a>,
    class: &'a ClassDef,
) -> (r: Result<(), String>)
    ensures
        class.partial ==> r is Ok,
        !class.partial ==> match family_unsettled(registry@, family(registry@, class, 0), 0) {
            None => r is Ok,
            Some((name, of)) => r matches Err(why) && why@ == unsettled_told(of, name),
        },
{
    if class.partial {
        return Ok(());
    }
    let mut own: Vec<&'a ClassDef> = Vec::new();
    with_bases(registry, class, 0, &mut own);
    assert(own@ =~= family(registry@, class, 0));
    let mut i: usize = 0;
    while i < own.len()
        invariant
            i <= own.len(),
            !class.partial,
            own@ == family(registry@, class, 0),
            family_unsettled(registry@, own@, 0) == family_unsettled(registry@, own@, i as nat),
        decreases own.len() - i,
    {
        let of: &'a ClassDef = own[i];
        let mut k: usize = 0;
        while k < of.components.len()
            invariant
                i < own.len(),
                !class.partial,
                of == own@[i as int],
                k <= of.components.len(),
                own@ == family(registry@, class, 0),
                family_unsettled(registry@, own@, 0) == family_unsettled(
                    registry@,
                    own@,
                    i as nat,
                ),
                first_unsettled(registry@, own@, *of, 0) == first_unsettled(
                    registry@,
                    own@,
                    *of,
                    k as nat,
                ),
            decreases of.components.len() - k,
        {
            let component = &of.components[k];
            let said: bool = component.causality == Causality::Output || match lookup(
                registry,
                component.of_type.as_str(),
                of.name.as_str(),
                &of.imports,
            ) {
                Some(found) => found.alias_causality == Causality::Output,
                None => false,
            };
            if said && component.condition.is_none() && !does_family_speak_of(
                &own,
                component.name.as_str(),
            ) {
                return Err(
                    join5(
                        "`",
                        of.name.as_str(),
                        ".",
                        component.name.as_str(),
                        "` is an output of a `block` and nothing in the block settles it; a block's outputs are worked out inside it and its inputs come from outside, which is what makes it a block rather than a model",
                    ),
                );
            }
            k = k + 1;
        }
        i = i + 1;
    }
    Ok(())
}

/// The first declaration of a package, from the `k`-th on, that is not a
/// constant.
pub open spec fn first_loose(list: Seq<Component>, k: nat) -> Option<Component>
    decreases list.len() - k,
{
    if k >= list.len() {
        None
    } else if list[k as int].variability != Variability::Constant {
        Some(list[k as int])
    } else {
        first_loose(list, k + 1)
    }
}

pub open spec fn variability_word(variability: Variability) -> Seq<char> {
    match variability {
        Variability::Parameter => "parameter"@,
        Variability::Discrete => "discrete variable"@,
        _ => "variable"@,
    }
}

/// What is wrong with a package, where anything is: it has no instance for a
/// value to belong to.
pub open spec fn package_trouble(class: ClassDef) -> Option<Seq<char>> {
    if class.kind != ClassKind::Package {
        None
    } else {
        match first_loose(class.components@, 0) {
            Some(loose) => Some(
                "`"@ + class.name@ + "."@ + loose.name@ + "` is a "@ + variability_word(
                    loose.variability,
                ) + " in a package; a package may hold only classes and constants"@,
            ),
            None => None,
        }
    }
}

/// What is wrong with a block, where anything is.
pub open spec fn block_trouble(classes: Seq<&ClassDef>, class: &ClassDef) -> Option<Seq<char>> {
    if class.kind != ClassKind::Block {
        None
    } else {
        match first_directionless(classes, *class, 0) {
            Some(name) => Some(
                "`"@ + class.name@ + "."@ + name
                    + "` is a connector of a `block` and nothing says which way it goes; a block's connectors are `input` or `output`, written on the declaration, on the connector or on every variable it holds"@,
            ),
            None => if class.partial {
                None
            } else {
                match family_unsettled(classes, family(classes, class, 0), 0) {
                    Some((name, of)) => Some(unsettled_told(of, name)),
                    None => None,
                }
            },
        }
    }
}

/// The first trouble with a package from the `i`-th class on.
pub open spec fn packages_trouble(list: Seq<ClassDef>, i: nat) -> Option<Seq<char>>
    decreases list.len() - i,
{
    if i >= list.len() {
        None
    } else {
        match package_trouble(list[i as int]) {
            Some(why) => Some(why),
            None => packages_trouble(list, i + 1),
        }
    }
}

/// The first trouble with a block from the `i`-th class on.
pub open spec fn blocks_trouble(
    classes: Seq<&ClassDef>,
    list: Seq<ClassDef>,
    i: nat,
) -> Option<Seq<char>>
    decreases list.len() - i,
{
    if i >= list.len() {
        None
    } else {
        match block_trouble(classes, &list[i as int]) {
            Some(why) => Some(why),
            None => blocks_trouble(classes, list, i + 1),
        }
    }
}

/// What is wrong with a list of classes, packages first.
pub open spec fn classes_trouble(classes: Seq<&ClassDef>, list: Seq<ClassDef>) -> Option<
    Seq<char>,
> {
    match packages_trouble(list, 0) {
        Some(why) => Some(why),
        None => blocks_trouble(classes, list, 0),
    }
}

fn check_package(class: &ClassDef) -> (r: Result<(), String>)
    ensures
        match package_trouble(*class) {
            None => r is Ok,
            Some(trouble) => r matches Err(why) && why@ == trouble,
        },
{
    if class.kind != ClassKind::Package {
        return Ok(());
    }
    let mut k: usize = 0;
    while k < class.components.len()
        invariant
            k <= class.components.len(),
            class.kind == ClassKind::Package,
            first_loose(class.components@, 0) == first_loose(class.components@, k as nat),
        decreases class.components.len() - k,
    {
        let loose = &class.components[k];
        if loose.variability != Variability::Constant {
            let word: &str = match loose.variability {
                Variability::Parameter => "parameter",
                Variability::Discrete => "discrete variable",
                _ => "variable",
            };
            return Err(
                join7(
                    "`",
                    class.name.as_str(),
                    ".",
                    loose.name.as_str(),
                    "` is a ",
                    word,
                    " in a package; a package may hold only classes and constants",
                ),
            );
        }
        k = k + 1;
    }
    Ok(())
}

/// What the language asks of a class however it is used, checked over the
/// classes rather than the instances so that a `partial` one others are built
/// on is checked too.
pub fn what_a_class_may_hold<'a>(classes: &'a Vec<ClassDef>, registry: &Registry<'a>) -> (r: Result<
    (),
    String,
>)
    ensures
        match classes_trouble(registry@, classes@) {
            None => r is Ok,
            Some(trouble) => r matches Err(why) && why@ == trouble,
        },
{
    let mut i: usize = 0;
    while i < classes.len()
        invariant
            i <= classes.len(),
            packages_trouble(classes@, 0) == packages_trouble(classes@, i as nat),
        decreases classes.len() - i,
    {
        match check_package(&classes[i]) {
            Ok(_) => {},
            Err(why) => return Err(why),
        }
        i = i + 1;
    }
    let mut i: usize = 0;
    while i < classes.len()
        invariant
            i <= classes.len(),
            packages_trouble(classes@, 0) is None,
            blocks_trouble(registry@, classes@, 0) == blocks_trouble(
                registry@,
                classes@,
                i as nat,
            ),
        decreases classes.len() - i,
    {
        let class: &'a ClassDef = &classes[i];
        if class.kind == ClassKind::Block {
            match every_connector_of_a_block_is_causal(registry, class) {
                Ok(_) => {},
                Err(why) => return Err(why),
            }
            match every_output_of_a_block_is_settled_inside(registry, class) {
                Ok(_) => {},
                Err(why) => return Err(why),
            }
        }
        i = i + 1;
    }
    Ok(())
}

}
