//! What tooling needs to know about a class to draw it: its connector ports
//! and its parameters, inherited members included.
use crate::class::{
    copied, ClassDef, ClassKind, Component, Scope, Variability, MAX_DEPTH,
};
use crate::expr::{Expr, ExprV};
use crate::lookup::{class_named, find_class, left, lookup, meaning, Registry};
use vstd::prelude::*;

verus! {

/// What tooling needs to know about a class to draw it.
#[derive(Debug)]
pub struct ClassInfo {
    /// Names of the connector components, in declaration order.
    pub ports: Vec<String>,
    /// Parameters with their default expressions, where declared.
    pub parameters: Vec<(String, Option<Expr>)>,
    /// The class description string.
    pub description: Option<String>,
    /// Whether the class can be instantiated as a component.
    pub instantiable: bool,
    /// What the class annotation said, as written.
    pub annotations: Vec<Expr>,
}

impl Default for ClassInfo {
    fn default() -> (r: Self)
        ensures
            r.ports@ == Seq::<String>::empty(),
            r.parameters@ == Seq::<(String, Option<Expr>)>::empty(),
            r.description is None,
            !r.instantiable,
            r.annotations@ == Seq::<Expr>::empty(),
    {
        ClassInfo {
            ports: Vec::new(),
            parameters: Vec::new(),
            description: None,
            instantiable: false,
            annotations: Vec::new(),
        }
    }
}

impl Clone for ClassInfo {
    fn clone(&self) -> (r: Self)
        ensures
            r.ports.deep_view() == self.ports.deep_view(),
            r.parameters.deep_view() == self.parameters.deep_view(),
            r.description.deep_view() == self.description.deep_view(),
            r.instantiable == self.instantiable,
            r.annotations.deep_view() == self.annotations.deep_view(),
    {
        let mut parameters: Vec<(String, Option<Expr>)> = Vec::new();
        let mut i: usize = 0;
        while i < self.parameters.len()
            invariant
                i <= self.parameters.len(),
                parameters.len() == i,
                forall|k: int|
                    0 <= k < i ==> (#[trigger] parameters@[k]).deep_view()
                        == self.parameters@[k].deep_view(),
            decreases self.parameters.len() - i,
        {
            parameters.push((self.parameters[i].0.clone(), self.parameters[i].1.clone()));
            i = i + 1;
        }
        assert(parameters.deep_view() =~= self.parameters.deep_view());
        ClassInfo {
            ports: copied(&self.ports),
            parameters,
            description: self.description.clone(),
            instantiable: self.instantiable,
            annotations: copied(&self.annotations),
        }
    }
}

/// A class after everything it extends, each base after its own bases, as
/// far in as classes may stand.
pub open spec fn lineage<'a>(classes: Seq<&'a ClassDef>, class: &'a ClassDef, depth: nat) -> Seq<
    &'a ClassDef,
>
    decreases left(depth), class.extends@.len() + 1,
{
    if depth > MAX_DEPTH {
        Seq::empty()
    } else {
        lineage_of_bases(classes, class, class.extends@.len(), depth).push(class)
    }
}

/// The same for the first `n` bases of a class.
pub open spec fn lineage_of_bases<'a>(
    classes: Seq<&'a ClassDef>,
    class: &'a ClassDef,
    n: nat,
    depth: nat,
) -> Seq<&'a ClassDef>
    decreases left(depth), n,
{
    if n == 0 || n > class.extends@.len() || depth > MAX_DEPTH {
        Seq::empty()
    } else {
        let before = lineage_of_bases(classes, class, (n - 1) as nat, depth);
        match meaning(classes, class.extends@[n - 1].base@, class.name@, class.imports.deep_view()) {
            Some(base) => before + lineage(classes, &base, depth + 1),
            None => before,
        }
    }
}

/// Add a class's lineage to a list.
pub fn push_lineage<'a>(
    registry: &Registry<'a>,
    class: &'a ClassDef,
    depth: usize,
    out: &mut Vec<&'a ClassDef>,
)
    ensures
        final(out)@ == old(out)@ + lineage(registry@, class, depth as nat),
    decreases left(depth as nat),
{
    if depth > MAX_DEPTH {
        assert(out@ =~= old(out)@ + lineage(registry@, class, depth as nat));
        return;
    }
    let ghost was = out@;
    let mut i: usize = 0;
    assert(out@ =~= was + lineage_of_bases(registry@, class, 0, depth as nat));
    while i < class.extends.len()
        invariant
            depth <= MAX_DEPTH,
            i <= class.extends.len(),
            out@ == was + lineage_of_bases(registry@, class, i as nat, depth as nat),
        decreases class.extends.len() - i,
    {
        let ghost before = out@;
        if let Some(base) = lookup(
            registry,
            class.extends[i].base.as_str(),
            class.name.as_str(),
            &class.imports,
        ) {
            push_lineage(registry, base, depth + 1, out);
        }
        assert(out@ =~= was + lineage_of_bases(registry@, class, (i + 1) as nat, depth as nat));
        i = i + 1;
    }
    out.push(class);
    assert(out@ =~= was + lineage(registry@, class, depth as nat));
}

/// Whether a declaration is one of a class's own at all: an `outer` one
/// refers to an instance owned elsewhere.
pub open spec fn is_own(component: Component) -> bool {
    component.scope != Scope::Outer
}

pub open spec fn is_settled(component: Component) -> bool {
    component.variability == Variability::Parameter || component.variability
        == Variability::Constant
}

/// Whether a declaration of a class is a connector.
pub open spec fn is_port(classes: Seq<&ClassDef>, class: ClassDef, component: Component) -> bool {
    &&& is_own(component)
    &&& !is_settled(component)
    &&& match meaning(classes, component.of_type@, class.name@, class.imports.deep_view()) {
        Some(of) => of.kind == ClassKind::Connector,
        None => false,
    }
}

/// The names of the ports among the first `n` declarations of a class.
pub open spec fn own_ports(classes: Seq<&ClassDef>, class: ClassDef, n: nat) -> Seq<Seq<char>>
    decreases n,
{
    if n == 0 || n > class.components@.len() {
        Seq::empty()
    } else {
        let before = own_ports(classes, class, (n - 1) as nat);
        let component = class.components@[n - 1];
        if is_port(classes, class, component) {
            before.push(component.name@)
        } else {
            before
        }
    }
}

/// The parameters among the first `n` declarations of a class.
pub open spec fn own_parameters(class: ClassDef, n: nat) -> Seq<(Seq<char>, Option<ExprV>)>
    decreases n,
{
    if n == 0 || n > class.components@.len() {
        Seq::empty()
    } else {
        let before = own_parameters(class, (n - 1) as nat);
        let component = class.components@[n - 1];
        if is_own(component) && is_settled(component) {
            before.push((component.name@, component.binding.deep_view()))
        } else {
            before
        }
    }
}

/// The ports of a list of classes, one after another.
pub open spec fn ports_of(classes: Seq<&ClassDef>, list: Seq<&ClassDef>) -> Seq<Seq<char>>
    decreases list.len(),
{
    if list.len() == 0 {
        Seq::empty()
    } else {
        ports_of(classes, list.drop_last()) + own_ports(
            classes,
            *list.last(),
            list.last().components@.len(),
        )
    }
}

/// The parameters of a list of classes, one after another.
pub open spec fn parameters_of(list: Seq<&ClassDef>) -> Seq<(Seq<char>, Option<ExprV>)>
    decreases list.len(),
{
    if list.len() == 0 {
        Seq::empty()
    } else {
        parameters_of(list.drop_last()) + own_parameters(
            *list.last(),
            list.last().components@.len(),
        )
    }
}

/// Walk a class and its bases, gathering ports and parameters.
pub fn collect_members<'a>(registry: &Registry<'a>, class: &'a ClassDef, info: &mut ClassInfo, depth: usize)
    ensures
        final(info).ports.deep_view() == old(info).ports.deep_view() + ports_of(
            registry@,
            lineage(registry@, class, depth as nat),
        ),
        final(info).parameters.deep_view() == old(info).parameters.deep_view() + parameters_of(
            lineage(registry@, class, depth as nat),
        ),
        final(info).description == old(info).description,
        final(info).instantiable == old(info).instantiable,
        final(info).annotations == old(info).annotations,
{
    let mut list: Vec<&'a ClassDef> = Vec::new();
    push_lineage(registry, class, depth, &mut list);
    assert(list@ =~= lineage(registry@, class, depth as nat));
    let ghost start = *info;
    let ghost ports = info.ports.deep_view();
    let ghost parameters = info.parameters.deep_view();
    let mut i: usize = 0;
    assert(list@.take(0) =~= Seq::empty());
    while i < list.len()
        invariant
            i <= list.len(),
            info.ports.deep_view() == ports + ports_of(registry@, list@.take(i as int)),
            info.parameters.deep_view() == parameters + parameters_of(list@.take(i as int)),
            info.description == start.description,
            info.instantiable == start.instantiable,
            info.annotations == start.annotations,
        decreases list.len() - i,
    {
        let of: &ClassDef = list[i];
        assert(list@.take(i + 1).drop_last() =~= list@.take(i as int));
        let ghost ports_before = info.ports.deep_view();
        let ghost parameters_before = info.parameters.deep_view();
        let mut k: usize = 0;
        while k < of.components.len()
            invariant
                k <= of.components.len(),
                info.ports.deep_view() == ports_before + own_ports(registry@, *of, k as nat),
                info.parameters.deep_view() == parameters_before + own_parameters(*of, k as nat),
                info.description == start.description,
                info.instantiable == start.instantiable,
                info.annotations == start.annotations,
            decreases of.components.len() - k,
        {
            let component = &of.components[k];
            let ghost ports_now = info.ports.deep_view();
            let ghost parameters_now = info.parameters.deep_view();
            if component.scope != Scope::Outer {
                match component.variability {
                    Variability::Parameter | Variability::Constant => {
                        info.parameters.push((component.name.clone(), component.binding.clone()));
                        assert(info.parameters.deep_view() =~= parameters_now.push(
                            (component.name@, component.binding.deep_view()),
                        ));
                    },
                    Variability::Continuous | Variability::Discrete => {
                        let is_connector = match lookup(
                            registry,
                            component.of_type.as_str(),
                            of.name.as_str(),
                            &of.imports,
                        ) {
                            Some(found) => found.kind == ClassKind::Connector,
                            None => false,
                        };
                        if is_connector {
                            info.ports.push(component.name.clone());
                            assert(info.ports.deep_view() =~= ports_now.push(component.name@));
                        }
                    },
                }
            }
            assert(info.ports.deep_view() =~= ports_before + own_ports(
                registry@,
                *of,
                (k + 1) as nat,
            ));
            assert(info.parameters.deep_view() =~= parameters_before + own_parameters(
                *of,
                (k + 1) as nat,
            ));
            k = k + 1;
        }
        assert(info.ports.deep_view() =~= ports + ports_of(registry@, list@.take(i + 1)));
        assert(info.parameters.deep_view() =~= parameters + parameters_of(list@.take(i + 1)));
        i = i + 1;
    }
    assert(list@.take(i as int) =~= list@);
}

/// A registry of a list of classes.
pub open spec fn registered<'a>(classes: Seq<ClassDef>) -> Seq<&'a ClassDef> {
    Seq::new(classes.len(), |i: int| &classes[i])
}

pub fn register<'a>(classes: &'a [ClassDef]) -> (r: Registry<'a>)
    ensures
        r@ == registered(classes@),
{
    let mut out: Registry<'a> = Vec::new();
    let mut i: usize = 0;
    while i < classes.len()
        invariant
            i <= classes.len(),
            out@ == registered(classes@).take(i as int),
        decreases classes.len() - i,
    {
        out.push(&classes[i]);
        assert(out@ =~= registered(classes@).take(i + 1));
        i = i + 1;
    }
    assert(registered(classes@).take(i as int) =~= registered(classes@));
    out
}

impl ClassKind {
    pub open spec fn is_modelled(self) -> bool {
        self == ClassKind::Class || self == ClassKind::Model || self == ClassKind::Block
    }

    /// Whether the class is one that a model may be made of.
    pub fn is_model(&self) -> (r: bool)
        ensures
            r == self.is_modelled(),
    {
        matches!(self, ClassKind::Class | ClassKind::Model | ClassKind::Block)
    }
}

/// Whether a class can be a component.
pub open spec fn can_stand(class: ClassDef) -> bool {
    !class.partial && (class.kind.is_modelled() || class.kind == ClassKind::Record)
}

/// Summarize a class for tooling.
pub fn class_info(classes: &[ClassDef], name: &str) -> (r: Option<ClassInfo>)
    ensures
        match (r, class_named(registered(classes@), name@)) {
            (Some(info), Some(class)) => {
                &&& info.ports.deep_view() == ports_of(
                    registered(classes@),
                    lineage(registered(classes@), &class, 0),
                )
                &&& info.parameters.deep_view() == parameters_of(
                    lineage(registered(classes@), &class, 0),
                )
                &&& info.description.deep_view() == class.description.deep_view()
                &&& info.instantiable == can_stand(class)
                &&& info.annotations.deep_view() == class.annotations.deep_view()
            },
            (None, None) => true,
            _ => false,
        },
{
    let registry = register(classes);
    let class = match find_class(&registry, name) {
        Some(class) => class,
        None => {
            return None;
        },
    };
    let mut info = ClassInfo {
        description: class.description.clone(),
        annotations: copied(&class.annotations),
        instantiable: !class.partial && (class.kind.is_model() || class.kind == ClassKind::Record),
        ports: Vec::new(),
        parameters: Vec::new(),
    };
    let ghost ports = info.ports.deep_view();
    let ghost parameters = info.parameters.deep_view();
    collect_members(&registry, class, &mut info, 0);
    assert(info.ports.deep_view() =~= ports_of(registry@, lineage(registry@, class, 0)));
    assert(info.parameters.deep_view() =~= parameters_of(lineage(registry@, class, 0)));
    Some(info)
}

/// The ports of the first `n` bases of a class, each summed up for itself.
pub open spec fn bases_ports<'a>(
    classes: Seq<&'a ClassDef>,
    class: &'a ClassDef,
    n: nat,
    depth: nat,
) -> Seq<Seq<char>>
    decreases n,
{
    if n == 0 || n > class.extends@.len() {
        Seq::empty()
    } else {
        let before = bases_ports(classes, class, (n - 1) as nat, depth);
        match meaning(classes, class.extends@[n - 1].base@, class.name@, class.imports.deep_view()) {
            Some(base) => before + ports_of(classes, lineage(classes, &base, depth + 1)),
            None => before,
        }
    }
}

/// The parameters of the first `n` bases of a class, each summed up for itself.
pub open spec fn bases_parameters<'a>(
    classes: Seq<&'a ClassDef>,
    class: &'a ClassDef,
    n: nat,
    depth: nat,
) -> Seq<(Seq<char>, Option<ExprV>)>
    decreases n,
{
    if n == 0 || n > class.extends@.len() {
        Seq::empty()
    } else {
        let before = bases_parameters(classes, class, (n - 1) as nat, depth);
        match meaning(classes, class.extends@[n - 1].base@, class.name@, class.imports.deep_view()) {
            Some(base) => before + parameters_of(lineage(classes, &base, depth + 1)),
            None => before,
        }
    }
}

proof fn lemma_summed_apart(classes: Seq<&ClassDef>, a: Seq<&ClassDef>, b: Seq<&ClassDef>)
    ensures
        ports_of(classes, a + b) == ports_of(classes, a) + ports_of(classes, b),
        parameters_of(a + b) == parameters_of(a) + parameters_of(b),
    decreases b.len(),
{
    if b.len() == 0 {
        assert(a + b =~= a);
        assert(ports_of(classes, a) + ports_of(classes, b) =~= ports_of(classes, a));
        assert(parameters_of(a) + parameters_of(b) =~= parameters_of(a));
    } else {
        lemma_summed_apart(classes, a, b.drop_last());
        assert((a + b).drop_last() =~= a + b.drop_last());
        assert((a + b).last() == b.last());
        assert(ports_of(classes, a + b) =~= ports_of(classes, a) + ports_of(classes, b));
        assert(parameters_of(a + b) =~= parameters_of(a) + parameters_of(b));
    }
}

proof fn lemma_bases_summed<'a>(
    classes: Seq<&'a ClassDef>,
    class: &'a ClassDef,
    n: nat,
    depth: nat,
)
    requires
        depth <= MAX_DEPTH,
    ensures
        ports_of(classes, lineage_of_bases(classes, class, n, depth)) == bases_ports(
            classes,
            class,
            n,
            depth,
        ),
        parameters_of(lineage_of_bases(classes, class, n, depth)) == bases_parameters(
            classes,
            class,
            n,
            depth,
        ),
    decreases n,
{
    if n > 0 && n <= class.extends@.len() {
        lemma_bases_summed(classes, class, (n - 1) as nat, depth);
        let before = lineage_of_bases(classes, class, (n - 1) as nat, depth);
        match meaning(classes, class.extends@[n - 1].base@, class.name@, class.imports.deep_view()) {
            Some(base) => {
                lemma_summed_apart(classes, before, lineage(classes, &base, depth + 1));
            },
            None => {},
        }
    }
}

/// Whether no chain of `extends` from a class on is longer than `n` classes.
pub open spec fn ends_within<'a>(classes: Seq<&'a ClassDef>, class: ClassDef, n: nat) -> bool
    decreases n,
{
    n > 0 && forall|i: int|
        0 <= i < class.extends@.len() ==> match meaning(
            classes,
            (#[trigger] class.extends@[i]).base@,
            class.name@,
            class.imports.deep_view(),
        ) {
            Some(base) => ends_within(classes, base, (n - 1) as nat),
            None => true,
        }
}

proof fn lemma_bases_however_deep<'a>(
    classes: Seq<&'a ClassDef>,
    class: &'a ClassDef,
    n: nat,
    most: nat,
    a: nat,
    b: nat,
)
    requires
        ends_within(classes, *class, most),
        a + most <= MAX_DEPTH + 1,
        b + most <= MAX_DEPTH + 1,
    ensures
        lineage_of_bases(classes, class, n, a) == lineage_of_bases(classes, class, n, b),
    decreases most, 0int, n,
{
    if n > 0 && n <= class.extends@.len() {
        lemma_bases_however_deep(classes, class, (n - 1) as nat, most, a, b);
        let said = class.extends@[n - 1];
        match meaning(classes, said.base@, class.name@, class.imports.deep_view()) {
            Some(base) => {
                assert(ends_within(classes, base, (most - 1) as nat));
                law_a_lineage_is_the_same_however_deep(
                    classes,
                    &base,
                    (most - 1) as nat,
                    a + 1,
                    b + 1,
                );
            },
            None => {},
        }
    }
}

/// A class has the same lineage however deep it stands, as long as the whole of
/// it is followed.
pub proof fn law_a_lineage_is_the_same_however_deep<'a>(
    classes: Seq<&'a ClassDef>,
    class: &'a ClassDef,
    most: nat,
    a: nat,
    b: nat,
)
    requires
        ends_within(classes, *class, most),
        a + most <= MAX_DEPTH + 1,
        b + most <= MAX_DEPTH + 1,
    ensures
        lineage(classes, class, a) == lineage(classes, class, b),
    decreases most, 1int, 0nat,
{
    lemma_bases_however_deep(classes, class, class.extends@.len(), most, a, b);
}

/// The ports that the first `n` bases of a class are summed up with, each as a
/// class asked for by itself.
pub open spec fn ports_of_bases<'a>(
    classes: Seq<&'a ClassDef>,
    class: &'a ClassDef,
    n: nat,
) -> Seq<Seq<char>>
    decreases n,
{
    if n == 0 || n > class.extends@.len() {
        Seq::empty()
    } else {
        let before = ports_of_bases(classes, class, (n - 1) as nat);
        match meaning(classes, class.extends@[n - 1].base@, class.name@, class.imports.deep_view()) {
            Some(base) => before + ports_of(classes, lineage(classes, &base, 0)),
            None => before,
        }
    }
}

/// The parameters that they are summed up with.
pub open spec fn parameters_of_bases<'a>(
    classes: Seq<&'a ClassDef>,
    class: &'a ClassDef,
    n: nat,
) -> Seq<(Seq<char>, Option<ExprV>)>
    decreases n,
{
    if n == 0 || n > class.extends@.len() {
        Seq::empty()
    } else {
        let before = parameters_of_bases(classes, class, (n - 1) as nat);
        match meaning(classes, class.extends@[n - 1].base@, class.name@, class.imports.deep_view()) {
            Some(base) => before + parameters_of(lineage(classes, &base, 0)),
            None => before,
        }
    }
}

proof fn lemma_bases_by_themselves<'a>(
    classes: Seq<&'a ClassDef>,
    class: &'a ClassDef,
    n: nat,
)
    requires
        ends_within(classes, *class, (MAX_DEPTH + 1) as nat),
    ensures
        bases_ports(classes, class, n, 0) == ports_of_bases(classes, class, n),
        bases_parameters(classes, class, n, 0) == parameters_of_bases(classes, class, n),
    decreases n,
{
    if n > 0 && n <= class.extends@.len() {
        lemma_bases_by_themselves(classes, class, (n - 1) as nat);
        let said = class.extends@[n - 1];
        match meaning(classes, said.base@, class.name@, class.imports.deep_view()) {
            Some(base) => {
                assert(ends_within(classes, base, MAX_DEPTH as nat));
                law_a_lineage_is_the_same_however_deep(classes, &base, MAX_DEPTH as nat, 1, 0);
            },
            None => {},
        }
    }
}

/// A class is summed up as its bases are, each asked for by itself, one after
/// another, and then as its own ports and parameters. A chain of `extends` that
/// is longer than the compiler follows, or that leads back to itself, is summed
/// up as far as it is followed, and nothing is said of it here.
pub proof fn law_a_summary_is_that_of_the_bases_and_its_own<'a>(
    classes: Seq<&'a ClassDef>,
    class: &'a ClassDef,
)
    requires
        ends_within(classes, *class, (MAX_DEPTH + 1) as nat),
    ensures
        ports_of(classes, lineage(classes, class, 0)) == ports_of_bases(
            classes,
            class,
            class.extends@.len(),
        ) + own_ports(classes, *class, class.components@.len()),
        parameters_of(lineage(classes, class, 0)) == parameters_of_bases(
            classes,
            class,
            class.extends@.len(),
        ) + own_parameters(*class, class.components@.len()),
{
    law_a_summary_begins_with_the_bases(classes, class, 0);
    lemma_bases_by_themselves(classes, class, class.extends@.len());
}

/// The summary of a class is that of its bases, one after another, followed by
/// its own ports and its own parameters.
pub proof fn law_a_summary_begins_with_the_bases<'a>(
    classes: Seq<&'a ClassDef>,
    class: &'a ClassDef,
    depth: nat,
)
    requires
        depth <= MAX_DEPTH,
    ensures
        ports_of(classes, lineage(classes, class, depth)) == bases_ports(
            classes,
            class,
            class.extends@.len(),
            depth,
        ) + own_ports(classes, *class, class.components@.len()),
        parameters_of(lineage(classes, class, depth)) == bases_parameters(
            classes,
            class,
            class.extends@.len(),
            depth,
        ) + own_parameters(*class, class.components@.len()),
{
    let before = lineage_of_bases(classes, class, class.extends@.len(), depth);
    lemma_bases_summed(classes, class, class.extends@.len(), depth);
    let all = lineage(classes, class, depth);
    assert(all.drop_last() =~= before);
    assert(all.last() == class);
}

}
