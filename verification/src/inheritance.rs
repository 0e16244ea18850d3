//! What a class takes from the classes above it: its bases, the declarations
//! they hand down, and the redeclarations that replace them on the way.
use crate::class::{copied, ClassDef, Component, ComponentV, Redeclare, Variability, MAX_DEPTH};
use crate::expr::{Expr, ExprV};
use crate::info::is_settled;
use crate::lookup::{class_named, find_class, is_it, left, lookup, meaning, Pairs, Registry};
use crate::names::{is_primitive, is_primitive_name};
use crate::text::{cut_last, join5, join7, same, split_last};
use vstd::prelude::*;

verus! {

/// The class of a name declared by a base of `owner` from the `i`-th on, or
/// by a base of one of those, skipping the class that is asking.
pub open spec fn from_bases(
    classes: Seq<&ClassDef>,
    owner: ClassDef,
    i: nat,
    wanted: Seq<char>,
    asking: Seq<char>,
    depth: nat,
) -> Option<ClassDef>
    decreases left(depth), owner.extends@.len() - i,
{
    if depth > MAX_DEPTH || i >= owner.extends@.len() {
        None
    } else {
        let here = match meaning(
            classes,
            owner.extends@[i as int].base@,
            owner.name@,
            owner.imports.deep_view(),
        ) {
            Some(base) => match other_than(
                meaning(classes, wanted, base.name@, base.imports.deep_view()),
                asking,
            ) {
                Some(found) => Some(found),
                None => from_bases(classes, base, 0, wanted, asking, depth + 1),
            },
            None => None,
        };
        match here {
            Some(found) => Some(found),
            None => from_bases(classes, owner, i + 1, wanted, asking, depth),
        }
    }
}

/// What was found, unless it is the class of that name.
pub open spec fn other_than(found: Option<ClassDef>, name: Seq<char>) -> Option<ClassDef> {
    match found {
        Some(found) => if found.name@ != name {
            Some(found)
        } else {
            None
        },
        None => None,
    }
}

/// What a class written `redeclare X extends Name` extends: the `Name` that a
/// base of the class enclosing it declared.
pub open spec fn inherited_of(
    classes: Seq<&ClassDef>,
    class: ClassDef,
    wanted: Seq<char>,
    depth: nat,
) -> Option<ClassDef> {
    if depth > MAX_DEPTH {
        None
    } else {
        match cut_last(class.name@, '.') {
            Some((enclosing, _)) => match class_named(classes, enclosing) {
                Some(owner) => from_bases(classes, owner, 0, wanted, class.name@, depth),
                None => None,
            },
            None => None,
        }
    }
}

fn find_from_bases<'a>(
    registry: &Registry<'a>,
    owner: &ClassDef,
    wanted: &str,
    asking: &str,
    depth: usize,
) -> (r: Option<&'a ClassDef>)
    ensures
        is_it(r, from_bases(registry@, *owner, 0, wanted@, asking@, depth as nat)),
    decreases left(depth as nat),
{
    if depth > MAX_DEPTH {
        return None;
    }
    let mut i: usize = 0;
    while i < owner.extends.len()
        invariant
            depth <= MAX_DEPTH,
            i <= owner.extends.len(),
            from_bases(registry@, *owner, 0, wanted@, asking@, depth as nat) == from_bases(
                registry@,
                *owner,
                i as nat,
                wanted@,
                asking@,
                depth as nat,
            ),
        decreases owner.extends.len() - i,
    {
        if let Some(base) = lookup(
            registry,
            owner.extends[i].base.as_str(),
            owner.name.as_str(),
            &owner.imports,
        ) {
            if let Some(found) = lookup(registry, wanted, base.name.as_str(), &base.imports) {
                if !same(found.name.as_str(), asking) {
                    return Some(found);
                }
            }
            if let Some(found) = find_from_bases(registry, base, wanted, asking, depth + 1) {
                return Some(found);
            }
        }
        i = i + 1;
    }
    None
}

/// The class that a class written `redeclare X extends Name` extends.
pub fn inherited_class<'a>(
    registry: &Registry<'a>,
    class: &ClassDef,
    wanted: &str,
    depth: usize,
) -> (r: Option<&'a ClassDef>)
    ensures
        is_it(r, inherited_of(registry@, *class, wanted@, depth as nat)),
{
    if depth > MAX_DEPTH {
        return None;
    }
    let enclosing = match split_last(class.name.as_str(), '.') {
        Some((enclosing, _)) => enclosing,
        None => {
            return None;
        },
    };
    match find_class(registry, enclosing.as_str()) {
        Some(owner) => find_from_bases(registry, owner, wanted, class.name.as_str(), depth),
        None => None,
    }
}

/// What a list of modifiers says first under a name.
pub open spec fn said_of(modifiers: Seq<(Seq<char>, ExprV)>, name: Seq<char>) -> Option<ExprV>
    decreases modifiers.len(),
{
    if modifiers.len() == 0 {
        None
    } else if modifiers[0].0 == name {
        Some(modifiers[0].1)
    } else {
        said_of(modifiers.drop_first(), name)
    }
}

/// What a list of modifiers says first under a name.
pub fn find_said<'m>(modifiers: &'m Vec<(String, Expr)>, name: &str) -> (r: Option<&'m Expr>)
    ensures
        match r {
            Some(value) => said_of(modifiers.deep_view(), name@) == Some(value.deep_view()),
            None => said_of(modifiers.deep_view(), name@) is None,
        },
{
    let ghost all = modifiers.deep_view();
    let mut i: usize = 0;
    assert(all.skip(0) =~= all);
    while i < modifiers.len()
        invariant
            i <= modifiers.len(),
            all == modifiers.deep_view(),
            said_of(all, name@) == said_of(all.skip(i as int), name@),
        decreases modifiers.len() - i,
    {
        assert(all.skip(i as int)[0] == all[i as int]);
        assert(all.skip(i as int).drop_first() =~= all.skip(i + 1));
        if same(modifiers[i].0.as_str(), name) {
            return Some(&modifiers[i].1);
        }
        i = i + 1;
    }
    None
}

/// The parameters among the first `n` declarations of a base, each with what
/// the clause that brought them said.
pub open spec fn handed_down(
    base: ClassDef,
    n: nat,
    modifiers: Seq<(Seq<char>, ExprV)>,
) -> Seq<(ComponentV, Option<ExprV>)>
    decreases n,
{
    if n == 0 || n > base.components@.len() {
        Seq::empty()
    } else {
        let before = handed_down(base, (n - 1) as nat, modifiers);
        let component = base.components@[n - 1];
        if is_settled(component) {
            before.push((component.deep_view(), said_of(modifiers, component.name@)))
        } else {
            before
        }
    }
}

/// The base that an `extends` clause of a class means, where it means
/// another class.
pub open spec fn base_of(classes: Seq<&ClassDef>, class: ClassDef, i: int) -> Option<ClassDef> {
    let extend = class.extends@[i];
    other_than(
        if extend.from_base {
            inherited_of(classes, class, extend.base@, 0)
        } else {
            meaning(classes, extend.base@, class.name@, class.imports.deep_view())
        },
        class.name@,
    )
}

/// The base that an `extends` clause of a class means, where it means
/// another class.
pub fn find_base_of<'a>(registry: &Registry<'a>, class: &ClassDef, i: usize) -> (r: Option<
    &'a ClassDef,
>)
    requires
        i < class.extends@.len(),
    ensures
        is_it(r, base_of(registry@, *class, i as int)),
{
    let extend = &class.extends[i];
    let found = if extend.from_base {
        inherited_class(registry, class, extend.base.as_str(), 0)
    } else {
        lookup(registry, extend.base.as_str(), class.name.as_str(), &class.imports)
    };
    match found {
        Some(base) => if same(base.name.as_str(), class.name.as_str()) {
            None
        } else {
            Some(base)
        },
        None => None,
    }
}

/// The parameters and constants that the first `n` bases hand down.
pub open spec fn parameters_from(
    classes: Seq<&ClassDef>,
    class: ClassDef,
    n: nat,
    depth: nat,
) -> Seq<(ComponentV, Option<ExprV>)>
    decreases left(depth), n,
{
    if depth > MAX_DEPTH || n == 0 || n > class.extends@.len() {
        Seq::empty()
    } else {
        let before = parameters_from(classes, class, (n - 1) as nat, depth);
        match base_of(classes, class, n - 1) {
            Some(base) => before + handed_down(
                base,
                base.components@.len(),
                class.extends@[n - 1].modifiers.deep_view(),
            ) + parameters_from(classes, base, base.extends@.len(), depth + 1),
            None => before,
        }
    }
}

fn push_parameters(
    registry: &Registry,
    class: &ClassDef,
    depth: usize,
    out: &mut Vec<(Component, Option<Expr>)>,
)
    ensures
        final(out).deep_view() == old(out).deep_view() + parameters_from(
            registry@,
            *class,
            class.extends@.len(),
            depth as nat,
        ),
    decreases left(depth as nat),
{
    let ghost was = out.deep_view();
    if depth > MAX_DEPTH {
        assert(was =~= was + Seq::empty());
        return;
    }
    let mut i: usize = 0;
    assert(was =~= was + parameters_from(registry@, *class, 0, depth as nat));
    while i < class.extends.len()
        invariant
            depth <= MAX_DEPTH,
            i <= class.extends.len(),
            out.deep_view() == was + parameters_from(registry@, *class, i as nat, depth as nat),
        decreases class.extends.len() - i,
    {
        let extend = &class.extends[i];
        let found = if extend.from_base {
            inherited_class(registry, class, extend.base.as_str(), 0)
        } else {
            lookup(registry, extend.base.as_str(), class.name.as_str(), &class.imports)
        };
        let ghost before = out.deep_view();
        let ghost listed = extend.modifiers.deep_view();
        if let Some(base) = found {
            if !same(base.name.as_str(), class.name.as_str()) {
                let mut k: usize = 0;
                assert(before =~= before + handed_down(*base, 0, listed));
                while k < base.components.len()
                    invariant
                        k <= base.components.len(),
                        listed == extend.modifiers.deep_view(),
                        out.deep_view() == before + handed_down(*base, k as nat, listed),
                    decreases base.components.len() - k,
                {
                    let component = &base.components[k];
                    let ghost now = out.deep_view();
                    if matches!(
                        component.variability,
                        Variability::Parameter | Variability::Constant
                    ) {
                        let said: Option<Expr> = match find_said(
                            &extend.modifiers,
                            component.name.as_str(),
                        ) {
                            Some(value) => Some(value.clone()),
                            None => None,
                        };
                        out.push((component.clone(), said));
                        assert(out.deep_view() =~= now.push(
                            (component.deep_view(), said_of(listed, component.name@)),
                        ));
                    }
                    assert(out.deep_view() =~= before + handed_down(*base, (k + 1) as nat, listed));
                    k = k + 1;
                }
                push_parameters(registry, base, depth + 1, out);
            }
        }
        assert(out.deep_view() =~= was + parameters_from(
            registry@,
            *class,
            (i + 1) as nat,
            depth as nat,
        ));
        i = i + 1;
    }
}

/// The parameters and constants a class inherits, each with what the
/// `extends` clause that brought it said about its value.
pub fn inherited_parameters(registry: &Registry, class: &ClassDef, depth: usize) -> (r: Vec<
    (Component, Option<Expr>),
>)
    ensures
        r.deep_view() == parameters_from(registry@, *class, class.extends@.len(), depth as nat),
{
    let mut out: Vec<(Component, Option<Expr>)> = Vec::new();
    let ghost before = out.deep_view();
    push_parameters(registry, class, depth, &mut out);
    assert(out.deep_view() =~= parameters_from(
        registry@,
        *class,
        class.extends@.len(),
        depth as nat,
    ));
    out
}

/// Whether one of a class's bases from the `i`-th on is `target` or extends it.
pub open spec fn bases_extend(
    classes: Seq<&ClassDef>,
    class: ClassDef,
    i: nat,
    target: Seq<char>,
    depth: nat,
) -> bool
    decreases left(depth), class.extends@.len() - i, 0int,
{
    if depth > MAX_DEPTH || i >= class.extends@.len() {
        false
    } else {
        (match meaning(
            classes,
            class.extends@[i as int].base@,
            class.name@,
            class.imports.deep_view(),
        ) {
            Some(base) => is_or_extends(classes, base.name@, target, depth + 1),
            None => false,
        }) || bases_extend(classes, class, i + 1, target, depth)
    }
}

/// Whether `candidate` is `target` or extends it, directly or not.
pub open spec fn is_or_extends(
    classes: Seq<&ClassDef>,
    candidate: Seq<char>,
    target: Seq<char>,
    depth: nat,
) -> bool
    decreases
        left(depth),
        (match class_named(classes, candidate) {
            Some(class) => class.extends@.len(),
            None => 0,
        }),
        1int,
{
    if candidate == target {
        true
    } else if depth > MAX_DEPTH {
        false
    } else {
        match class_named(classes, candidate) {
            Some(class) => bases_extend(classes, class, 0, target, depth),
            None => false,
        }
    }
}

/// Whether `candidate` is `target` or extends it, directly or not.
pub fn extends_class(registry: &Registry, candidate: &str, target: &str, depth: usize) -> (r: bool)
    ensures
        r == is_or_extends(registry@, candidate@, target@, depth as nat),
    decreases left(depth as nat),
{
    if same(candidate, target) {
        return true;
    }
    if depth > MAX_DEPTH {
        return false;
    }
    let class = match find_class(registry, candidate) {
        Some(class) => class,
        None => {
            return false;
        },
    };
    let mut i: usize = 0;
    while i < class.extends.len()
        invariant
            depth <= MAX_DEPTH,
            i <= class.extends.len(),
            is_or_extends(registry@, candidate@, target@, depth as nat) == bases_extend(
                registry@,
                *class,
                i as nat,
                target@,
                depth as nat,
            ),
        decreases class.extends.len() - i,
    {
        if let Some(base) = lookup(
            registry,
            class.extends[i].base.as_str(),
            class.name.as_str(),
            &class.imports,
        ) {
            if extends_class(registry, base.name.as_str(), target, depth + 1) {
                return true;
            }
        }
        i = i + 1;
    }
    false
}

/// Whether one of a class's bases from the `i`-th on is a handle.
pub open spec fn bases_are_handles(
    classes: Seq<&ClassDef>,
    class: ClassDef,
    i: nat,
    depth: nat,
) -> bool
    decreases left(depth), class.extends@.len() - i, 0int,
{
    if depth > MAX_DEPTH || i >= class.extends@.len() {
        false
    } else {
        (match meaning(
            classes,
            class.extends@[i as int].base@,
            class.name@,
            class.imports.deep_view(),
        ) {
            Some(base) => is_handle(classes, base, depth + 1),
            None => false,
        }) || bases_are_handles(classes, class, i + 1, depth)
    }
}

/// Whether a class is a handle to something outside Modelica: itself
/// `ExternalObject`, or built on one.
pub open spec fn is_handle(classes: Seq<&ClassDef>, class: ClassDef, depth: nat) -> bool
    decreases left(depth), class.extends@.len(), 1int,
{
    class.name@ == "ExternalObject"@ || bases_are_handles(classes, class, 0, depth)
}

/// Whether a class is a handle to something outside Modelica.
pub fn descends_from_external_object(registry: &Registry, class: &ClassDef, depth: usize) -> (r:
    bool)
    ensures
        r == is_handle(registry@, *class, depth as nat),
    decreases left(depth as nat),
{
    if same(class.name.as_str(), "ExternalObject") {
        return true;
    }
    if depth > MAX_DEPTH {
        return false;
    }
    let mut i: usize = 0;
    while i < class.extends.len()
        invariant
            depth <= MAX_DEPTH,
            i <= class.extends.len(),
            is_handle(registry@, *class, depth as nat) == bases_are_handles(
                registry@,
                *class,
                i as nat,
                depth as nat,
            ),
        decreases class.extends.len() - i,
    {
        if let Some(base) = lookup(
            registry,
            class.extends[i].base.as_str(),
            class.name.as_str(),
            &class.imports,
        ) {
            if descends_from_external_object(registry, base, depth + 1) {
                return true;
            }
        }
        i = i + 1;
    }
    false
}

/// What stands in the way of a redeclaration, if anything.
pub open spec fn redeclare_trouble(
    classes: Seq<&ClassDef>,
    class: ClassDef,
    component: Component,
    redeclare: Redeclare,
) -> Option<Seq<char>> {
    if !component.replaceable {
        Some(
            "`"@ + component.name@ + "` of `"@ + class.name@
                + "` is redeclared but not declared replaceable"@,
        )
    } else {
        match component.constrained_by {
            None => None,
            Some(constraint) => match meaning(
                classes,
                constraint@,
                class.name@,
                class.imports.deep_view(),
            ) {
                None => Some(
                    "unknown constraining class `"@ + constraint@ + "` of `"@ + component.name@
                        + "`"@,
                ),
                Some(found) => if is_or_extends(classes, redeclare.of_type@, found.name@, 0) {
                    None
                } else {
                    Some(
                        "`"@ + redeclare.of_type@ + "` cannot replace `"@ + component.name@
                            + "`: it does not extend `"@ + found.name@ + "`"@,
                    )
                },
            },
        }
    }
}

/// Check that a declaration may be replaced by a redeclaration: it must be
/// `replaceable`, and the new type must meet the `constrainedby` interface
/// where one is given.
pub fn check_redeclare(
    registry: &Registry,
    class: &ClassDef,
    component: &Component,
    redeclare: &Redeclare,
) -> (r: Result<(), String>)
    ensures
        match (r, redeclare_trouble(registry@, *class, *component, *redeclare)) {
            (Ok(_), None) => true,
            (Err(why), Some(trouble)) => why@ == trouble,
            _ => false,
        },
{
    if !component.replaceable {
        return Err(
            join5(
                "`",
                component.name.as_str(),
                "` of `",
                class.name.as_str(),
                "` is redeclared but not declared replaceable",
            ),
        );
    }
    let constraint = match &component.constrained_by {
        None => {
            return Ok(());
        },
        Some(constraint) => constraint,
    };
    match lookup(registry, constraint.as_str(), class.name.as_str(), &class.imports) {
        None => Err(
            join5(
                "unknown constraining class `",
                constraint.as_str(),
                "` of `",
                component.name.as_str(),
                "`",
            ),
        ),
        Some(found) => {
            if extends_class(registry, redeclare.of_type.as_str(), found.name.as_str(), 0) {
                Ok(())
            } else {
                Err(
                    join7(
                        "`",
                        redeclare.of_type.as_str(),
                        "` cannot replace `",
                        component.name.as_str(),
                        "`: it does not extend `",
                        found.name.as_str(),
                        "`",
                    ),
                )
            }
        },
    }
}

/// What is there already, or else what was said.
pub open spec fn or_else<V>(there: Option<V>, said: Option<V>) -> Option<V> {
    if there is Some {
        there
    } else {
        said
    }
}

/// `true`, written out.
pub open spec fn is_true(e: ExprV) -> bool {
    e == ExprV::Bool(true)
}

/// What a list of attributes says a value is fixed as.
pub open spec fn fixed_of(attributes: Seq<(Seq<char>, ExprV)>) -> Option<bool> {
    match said_of(attributes, "fixed"@) {
        Some(value) => Some(is_true(value)),
        None => None,
    }
}

/// A declaration with the attributes it does not have yet.
pub open spec fn attributed(c: ComponentV, attributes: Seq<(Seq<char>, ExprV)>) -> ComponentV {
    ComponentV {
        start: or_else(c.start, said_of(attributes, "start"@)),
        fixed: or_else(c.fixed, fixed_of(attributes)),
        min: or_else(c.min, said_of(attributes, "min"@)),
        max: or_else(c.max, said_of(attributes, "max"@)),
        ..c
    }
}

pub open spec fn is_attribute(name: Seq<char>) -> bool {
    name == "start"@ || name == "fixed"@ || name == "min"@ || name == "max"@
}

/// The modifiers that are no attributes.
pub open spec fn unattributed(modifiers: Seq<(Seq<char>, ExprV)>) -> Seq<(Seq<char>, ExprV)>
    decreases modifiers.len(),
{
    if modifiers.len() == 0 {
        Seq::empty()
    } else {
        let before = unattributed(modifiers.drop_last());
        if is_attribute(modifiers.last().0) {
            before
        } else {
            before.push(modifiers.last())
        }
    }
}

/// Whether a declared type is one that takes attributes: a name for another
/// type, or an enumeration.
pub open spec fn takes_attributes(found: Option<ClassDef>) -> bool {
    match found {
        Some(class) => class.alias_of is Some || class.enumeration@.len() > 0,
        None => false,
    }
}

/// A declaration after one name its type stands for: a type that is an array
/// gives its dimensions after the declaration's own, and each name its unit
/// and attributes where there are none yet.
pub open spec fn one_step(
    c: ComponentV,
    class: ClassDef,
    base: Seq<char>,
    attributes: Seq<(Seq<char>, ExprV)>,
) -> ComponentV {
    attributed(
        ComponentV {
            of_type: base,
            dimensions: c.dimensions + class.alias_dimensions.deep_view(),
            unit: or_else(c.unit, class.alias_unit.deep_view()),
            ..c
        },
        attributes,
    )
}

/// A declaration followed down the names its type stands for, `n` steps at
/// the most.
pub open spec fn followed(
    classes: Seq<&ClassDef>,
    c: ComponentV,
    scope: Seq<char>,
    imports: Pairs,
    moved: bool,
    n: nat,
) -> ComponentV
    decreases n,
{
    if n == 0 || is_primitive_name(c.of_type) {
        c
    } else {
        match meaning(classes, c.of_type, scope, imports) {
            None => c,
            Some(class) => if class.enumeration@.len() > 0 {
                ComponentV { of_type: "Integer"@, ..c }
            } else {
                match class.alias_of {
                    None => if moved {
                        ComponentV { of_type: class.name@, ..c }
                    } else {
                        c
                    },
                    Some((base, attributes)) => followed(
                        classes,
                        one_step(c, class, base@, attributes.deep_view()),
                        class.name@,
                        class.imports.deep_view(),
                        true,
                        (n - 1) as nat,
                    ),
                }
            },
        }
    }
}

/// A declaration with its type resolved down to a primitive.
pub open spec fn resolved_type(
    classes: Seq<&ClassDef>,
    c: ComponentV,
    scope: Seq<char>,
    imports: Pairs,
) -> ComponentV {
    let own = if takes_attributes(meaning(classes, c.of_type, scope, imports)) {
        ComponentV { modifiers: unattributed(c.modifiers), ..attributed(c, c.modifiers) }
    } else {
        c
    };
    followed(classes, own, scope, imports, false, MAX_DEPTH as nat)
}

fn is_true_here(e: &Expr) -> (r: bool)
    ensures
        r == is_true(e.deep_view()),
{
    matches!(e, Expr::Bool(true))
}

fn or_said(there: &Option<Expr>, attributes: &Vec<(String, Expr)>, name: &str) -> (r: Option<Expr>)
    ensures
        r.deep_view() == or_else(there.deep_view(), said_of(attributes.deep_view(), name@)),
{
    match there {
        Some(value) => Some(value.clone()),
        None => match find_said(attributes, name) {
            Some(value) => Some(value.clone()),
            None => None,
        },
    }
}

/// Give a declaration the attributes it does not have yet.
fn take_attributes(component: &mut Component, attributes: &Vec<(String, Expr)>)
    ensures
        final(component).deep_view() == attributed(
            old(component).deep_view(),
            attributes.deep_view(),
        ),
{
    let start = or_said(&component.start, attributes, "start");
    let min = or_said(&component.min, attributes, "min");
    let max = or_said(&component.max, attributes, "max");
    let fixed: Option<bool> = match component.fixed {
        Some(value) => Some(value),
        None => match find_said(attributes, "fixed") {
            Some(value) => Some(is_true_here(value)),
            None => None,
        },
    };
    component.start = start;
    component.fixed = fixed;
    component.min = min;
    component.max = max;
}

fn without_attributes(modifiers: &Vec<(String, Expr)>) -> (r: Vec<(String, Expr)>)
    ensures
        r.deep_view() == unattributed(modifiers.deep_view()),
{
    let ghost all = modifiers.deep_view();
    let mut out: Vec<(String, Expr)> = Vec::new();
    let mut i: usize = 0;
    assert(out.deep_view() =~= unattributed(all.take(0)));
    while i < modifiers.len()
        invariant
            i <= modifiers.len(),
            all == modifiers.deep_view(),
            out.deep_view() == unattributed(all.take(i as int)),
        decreases modifiers.len() - i,
    {
        let ghost before = out.deep_view();
        let name = modifiers[i].0.as_str();
        assert(all.take(i + 1).drop_last() =~= all.take(i as int));
        if !(same(name, "start") || same(name, "fixed") || same(name, "min") || same(name, "max")) {
            out.push((modifiers[i].0.clone(), modifiers[i].1.clone()));
            assert(out.deep_view() =~= before.push(all[i as int]));
        }
        i = i + 1;
    }
    assert(all.take(i as int) =~= all);
    out
}

/// A copy of a list of imports.
pub fn same_pairs(pairs: &Vec<(String, String)>) -> (r: Vec<(String, String)>)
    ensures
        r.deep_view() == pairs.deep_view(),
{
    let mut out: Vec<(String, String)> = Vec::new();
    push_pairs(pairs, &mut out);
    assert(out.deep_view() =~= pairs.deep_view());
    out
}

/// Add a copy of every pair to a list.
pub fn push_pairs(pairs: &Vec<(String, String)>, out: &mut Vec<(String, String)>)
    ensures
        final(out).deep_view() == old(out).deep_view() + pairs.deep_view(),
{
    let ghost all = pairs.deep_view();
    let ghost was = out.deep_view();
    let mut i: usize = 0;
    assert(out.deep_view() =~= was + all.take(0));
    while i < pairs.len()
        invariant
            i <= pairs.len(),
            all == pairs.deep_view(),
            out.deep_view() == was + all.take(i as int),
        decreases pairs.len() - i,
    {
        let ghost before = out.deep_view();
        out.push((pairs[i].0.clone(), pairs[i].1.clone()));
        assert(out.deep_view() =~= before.push(all[i as int]));
        assert(out.deep_view() =~= was + all.take(i + 1));
        i = i + 1;
    }
    assert(all.take(i as int) =~= all);
}

fn take_step(
    component: &mut Component,
    class: &ClassDef,
    base: &String,
    attributes: &Vec<(String, Expr)>,
)
    ensures
        final(component).deep_view() == one_step(
            old(component).deep_view(),
            *class,
            base@,
            attributes.deep_view(),
        ),
{
    component.of_type = base.clone();
    let ghost before = component.dimensions.deep_view();
    let mut more = copied(&class.alias_dimensions);
    let ghost added = more.deep_view();
    component.dimensions.append(&mut more);
    assert(component.dimensions.deep_view() =~= before + added);
    if component.unit.is_none() {
        component.unit = class.alias_unit.clone();
    }
    take_attributes(component, attributes);
}

/// Resolve a declared type down to a primitive: `type` aliases chain, each
/// contributing its attribute defaults, and an enumeration is carried as an
/// `Integer` holding the position of its literal.
pub fn resolve_type(
    registry: &Registry,
    component: &mut Component,
    scope: &str,
    imports: &Vec<(String, String)>,
)
    ensures
        final(component).deep_view() == resolved_type(
            registry@,
            old(component).deep_view(),
            scope@,
            imports.deep_view(),
        ),
{
    let ghost given = component.deep_view();
    let has_attributes = match lookup(registry, component.of_type.as_str(), scope, imports) {
        Some(class) => class.alias_of.is_some() || class.enumeration.len() > 0,
        None => false,
    };
    if has_attributes {
        let left = without_attributes(&component.modifiers);
        let written = crate::class::copied_named(&component.modifiers);
        take_attributes(component, &written);
        component.modifiers = left;
    }
    let ghost own = component.deep_view();
    let ghost aim = followed(registry@, own, scope@, imports.deep_view(), false, MAX_DEPTH as nat);
    assert(aim == resolved_type(registry@, given, scope@, imports.deep_view()));
    let mut scope_now: String = scope.to_owned();
    let mut imports_now: Vec<(String, String)> = same_pairs(imports);
    let mut moved: bool = false;
    let mut n: usize = MAX_DEPTH;
    while n > 0
        invariant
            n <= MAX_DEPTH,
            given == old(component).deep_view(),
            aim == resolved_type(registry@, given, scope@, imports.deep_view()),
            aim == followed(
                registry@,
                component.deep_view(),
                scope_now@,
                imports_now.deep_view(),
                moved,
                n as nat,
            ),
        decreases n,
    {
        if is_primitive(component.of_type.as_str()) {
            return;
        }
        let class = match lookup(
            registry,
            component.of_type.as_str(),
            scope_now.as_str(),
            &imports_now,
        ) {
            Some(class) => class,
            None => {
                return;
            },
        };
        if class.enumeration.len() > 0 {
            component.of_type = "Integer".to_owned();
            return;
        }
        match &class.alias_of {
            None => {
                if moved {
                    component.of_type = class.name.clone();
                }
                return;
            },
            Some((base, attributes)) => {
                take_step(component, class, base, attributes);
            },
        }
        moved = true;
        scope_now = class.name.clone();
        imports_now = same_pairs(&class.imports);
        n = n - 1;
    }
}

}
