//! Where a name means what: the imports in force at a point, the `inner`
//! declarations an `outer` reaches up to, and which instances are records.
use crate::asked::{mark_resolving, record_asked_under, record_meant, resolving};
use crate::class::{
    copied_named, ClassAlias, ClassDef, ClassKind, Component, ComponentV, Redeclare, RedeclareV,
    Scope, MAX_DEPTH, WILDCARD_IMPORT,
};
use crate::expr::{told, Expr, ExprV};
use crate::inheritance::{
    extends_class, is_or_extends, resolve_type, resolved_type, same_pairs,
};
use crate::lookup::{find_import, import_of, is_it, lookup, meaning, Pairs, Registry};
use crate::names::{prefix_expr, prefixed_whole, Naming, NamingV};
use crate::table::Table;
use crate::text::{dot, dotted, holds, join2, join3, join5, join7, same, texts};
use vstd::prelude::*;

verus! {

/// A list of names with what another list brings that it does not have.
pub open spec fn added(list: Pairs, more: Pairs, n: nat) -> Pairs
    decreases n,
{
    if n == 0 || n > more.len() {
        list
    } else {
        let before = added(list, more, (n - 1) as nat);
        if import_of(before, more[n - 1].0) is Some {
            before
        } else {
            before.push(more[n - 1])
        }
    }
}

fn add_missing(list: Vec<(String, String)>, more: &Vec<(String, String)>) -> (r: Vec<
    (String, String),
>)
    ensures
        r.deep_view() == added(list.deep_view(), more.deep_view(), more@.len()),
{
    let ghost start = list.deep_view();
    let ghost mv = more.deep_view();
    let mut out = list;
    let mut i: usize = 0;
    while i < more.len()
        invariant
            i <= more.len(),
            mv == more.deep_view(),
            out.deep_view() == added(start, mv, i as nat),
        decreases more.len() - i,
    {
        let ghost before = out.deep_view();
        assert(mv[i as int] == more@[i as int].deep_view());
        let there = find_import(&out, more[i].0.as_str()).is_some();
        if !there {
            out.push((more[i].0.clone(), more[i].1.clone()));
            assert(out.deep_view() =~= before.push(mv[i as int]));
        }
        i = i + 1;
    }
    out
}

/// What a redeclaration or an alias wrote on a class, by the class it wrote
/// it on.
pub type Written = Seq<(Seq<char>, Seq<(Seq<char>, ExprV)>)>;

/// The imports in force, and what was learned on the way: the inputs an alias
/// or a redeclaration filled in, and the constants an alias gave a value.
#[derive(Debug)]
pub struct InForce {
    pub imports: Vec<(String, String)>,
    pub filled: Vec<(String, Vec<(String, Expr)>)>,
    pub given: Vec<(String, Vec<(String, Expr)>)>,
}

pub ghost struct InForceV {
    pub imports: Pairs,
    pub filled: Written,
    pub given: Written,
}

impl DeepView for InForce {
    type V = InForceV;

    open spec fn deep_view(&self) -> InForceV {
        InForceV {
            imports: self.imports.deep_view(),
            filled: self.filled.deep_view(),
            given: self.given.deep_view(),
        }
    }
}

/// What is fixed while imports are worked out.
pub ghost struct SiteV {
    pub scope: Seq<char>,
    pub redeclares: Seq<RedeclareV>,
    pub naming: NamingV,
    /// Whether what a redeclaration filled in takes the prefix as well.
    pub twice: bool,
}

/// Where imports are worked out.
#[derive(Debug)]
pub struct Site<'a> {
    pub scope: &'a str,
    pub redeclares: &'a Vec<Redeclare>,
    pub naming: &'a Naming,
    /// Whether what a redeclaration filled in takes the prefix as well, as
    /// though it had not been qualified where it was written.
    pub twice: bool,
}

impl<'a> DeepView for Site<'a> {
    type V = SiteV;

    open spec fn deep_view(&self) -> SiteV {
        SiteV {
            scope: self.scope@,
            redeclares: self.redeclares.deep_view(),
            naming: self.naming.deep_view(),
            twice: self.twice,
        }
    }
}

/// The first class-level redeclaration of a name.
pub open spec fn replaced(redeclares: Seq<RedeclareV>, name: Seq<char>) -> Option<RedeclareV>
    decreases redeclares.len(),
{
    if redeclares.len() == 0 {
        None
    } else if redeclares[0].class_level && redeclares[0].name == name {
        Some(redeclares[0])
    } else {
        replaced(redeclares.drop_first(), name)
    }
}

fn find_replaced<'r>(redeclares: &'r Vec<Redeclare>, name: &str) -> (r: Option<&'r Redeclare>)
    ensures
        match (r, replaced(redeclares.deep_view(), name@)) {
            (Some(found), Some(meant)) => found.deep_view() == meant,
            (None, None) => true,
            _ => false,
        },
{
    let ghost all = redeclares.deep_view();
    let mut i: usize = 0;
    assert(all.skip(0) =~= all);
    while i < redeclares.len()
        invariant
            i <= redeclares.len(),
            all == redeclares.deep_view(),
            replaced(all, name@) == replaced(all.skip(i as int), name@),
        decreases redeclares.len() - i,
    {
        assert(all.skip(i as int)[0] == redeclares@[i as int].deep_view());
        assert(all.skip(i as int).drop_first() =~= all.skip(i + 1));
        if redeclares[i].class_level && same(redeclares[i].name.as_str(), name) {
            return Some(&redeclares[i]);
        }
        i = i + 1;
    }
    assert(all.skip(i as int) =~= Seq::empty());
    None
}

/// Every value of a list of modifiers in the terms of the flat model.
pub open spec fn all_renamed(list: Seq<(Seq<char>, ExprV)>, naming: NamingV) -> Seq<
    (Seq<char>, ExprV),
> {
    Seq::new(list.len(), |i: int| (list[i].0, prefixed_whole(list[i].1, naming)))
}

fn rename_all(list: &Vec<(String, Expr)>, naming: &Naming) -> (r: Vec<(String, Expr)>)
    ensures
        r.deep_view() == all_renamed(list.deep_view(), naming.deep_view()),
{
    let ghost whole = all_renamed(list.deep_view(), naming.deep_view());
    let mut out: Vec<(String, Expr)> = Vec::new();
    let mut i: usize = 0;
    assert(out.deep_view() =~= whole.take(0));
    while i < list.len()
        invariant
            i <= list.len(),
            whole == all_renamed(list.deep_view(), naming.deep_view()),
            out.deep_view() == whole.take(i as int),
        decreases list.len() - i,
    {
        let ghost before = out.deep_view();
        assert(list.deep_view()[i as int] == list@[i as int].deep_view());
        out.push((list[i].0.clone(), prefix_expr(&list[i].1, naming)));
        assert(out.deep_view() =~= before.push(whole[i as int]));
        assert(before.push(whole[i as int]) =~= whole.take(i + 1));
        i = i + 1;
    }
    assert(whole.take(i as int) =~= whole);
    out
}

/// The class an alias stands for: what it was redeclared to be, and otherwise
/// what the class that wrote it calls by that name, or the site does.
pub open spec fn alias_target(
    classes: Seq<&ClassDef>,
    class: ClassDef,
    alias: ClassAlias,
    site: SiteV,
    imports: Pairs,
) -> Result<Seq<char>, Seq<char>> {
    match replaced(site.redeclares, alias.name@) {
        Some(by) => if alias.replaceable {
            Ok(by.of_type)
        } else {
            Err(
                "class `"@ + alias.name@ + "` of `"@ + class.name@
                    + "` is redeclared but not declared replaceable"@,
            )
        },
        None => match meaning(classes, alias.target@, class.name@, imports) {
            Some(found) => Ok(found.name@),
            None => match meaning(classes, alias.target@, site.scope, imports) {
                Some(found) => Ok(found.name@),
                None => Err(
                    "unknown class `"@ + alias.target@ + "` behind the alias `"@ + alias.name@
                        + "`"@,
                ),
            },
        },
    }
}

/// Whether a replacement honours the interface its alias was written against.
pub open spec fn alias_fits(
    classes: Seq<&ClassDef>,
    alias: ClassAlias,
    target: Seq<char>,
    site: SiteV,
    imports: Pairs,
) -> Result<(), Seq<char>> {
    match (alias.constrained_by, replaced(site.redeclares, alias.name@)) {
        (Some(constraint), Some(_)) => match meaning(
            classes,
            constraint@,
            site.scope,
            imports,
        ) {
            None => Err(
                "unknown constraining class `"@ + constraint@ + "` of `"@ + alias.name@ + "`"@,
            ),
            Some(interface) => if is_or_extends(classes, target, interface.name@, 0) {
                Ok(())
            } else {
                Err(
                    "`"@ + target + "` cannot replace `"@ + alias.name@
                        + "`: it does not extend `"@ + interface.name@ + "`"@,
                )
            },
        },
        _ => Ok(()),
    }
}

/// The inputs that a redeclaration, or else the alias, filled in on the
/// target: what a redeclaration wrote was qualified where it was written.
pub open spec fn alias_fills(alias: ClassAlias, site: SiteV) -> Option<Seq<(Seq<char>, ExprV)>> {
    let own = if alias.modifiers@.len() > 0 {
        Some(all_renamed(alias.modifiers.deep_view(), site.naming))
    } else {
        None
    };
    match replaced(site.redeclares, alias.name@) {
        Some(by) => if by.modifiers.len() > 0 {
            if site.twice {
                Some(all_renamed(by.modifiers, site.naming))
            } else {
                Some(by.modifiers)
            }
        } else {
            own
        },
        None => own,
    }
}

/// The names in force once an alias is in.
pub open spec fn alias_taken(
    classes: Seq<&ClassDef>,
    class: ClassDef,
    alias: ClassAlias,
    site: SiteV,
    so_far: InForceV,
) -> Result<InForceV, Seq<char>> {
    if alias.redeclaration {
        Ok(so_far)
    } else {
        match alias_target(classes, class, alias, site, so_far.imports) {
            Err(why) => Err(why),
            Ok(target) => match alias_fits(classes, alias, target, site, so_far.imports) {
                Err(why) => Err(why),
                Ok(()) => Ok(
                    InForceV {
                        imports: so_far.imports.push((alias.name@, target)),
                        filled: match alias_fills(alias, site) {
                            Some(list) => so_far.filled.push((target, list)),
                            None => so_far.filled,
                        },
                        given: if replaced(site.redeclares, alias.name@) is None
                            && alias.modifiers@.len() > 0 {
                            so_far.given.push((target, alias.modifiers.deep_view()))
                        } else {
                            so_far.given
                        },
                    },
                ),
            },
        }
    }
}

/// The names in force once the first `n` aliases of a class are in.
pub open spec fn aliases_taken(
    classes: Seq<&ClassDef>,
    class: ClassDef,
    site: SiteV,
    start: InForceV,
    n: nat,
) -> Result<InForceV, Seq<char>>
    decreases n,
{
    if n == 0 || n > class.class_aliases@.len() {
        Ok(start)
    } else {
        match aliases_taken(classes, class, site, start, (n - 1) as nat) {
            Err(why) => Err(why),
            Ok(so_far) => alias_taken(classes, class, class.class_aliases@[n - 1], site, so_far),
        }
    }
}

/// The names that a class's own imports and its first `n` bases bring.
pub open spec fn bases_bring(
    classes: Seq<&ClassDef>,
    class: ClassDef,
    site: SiteV,
    depth: nat,
    n: nat,
) -> Result<InForceV, Seq<char>>
    decreases MAX_DEPTH + 1 - depth, 0int, n,
{
    if n == 0 || n > class.extends@.len() || depth > MAX_DEPTH {
        Ok(
            InForceV {
                imports: class.imports.deep_view(),
                filled: Seq::empty(),
                given: Seq::empty(),
            },
        )
    } else {
        match bases_bring(classes, class, site, depth, (n - 1) as nat) {
            Err(why) => Err(why),
            Ok(so_far) => match meaning(
                classes,
                class.extends@[n - 1].base@,
                class.name@,
                so_far.imports,
            ) {
                None => Ok(so_far),
                Some(base) => match in_force(classes, base, site, depth + 1) {
                    Err(why) => Err(why),
                    Ok(held) => Ok(
                        InForceV {
                            imports: added(so_far.imports, held.imports, held.imports.len()),
                            filled: so_far.filled + held.filled,
                            given: so_far.given + held.given,
                        },
                    ),
                },
            },
        }
    }
}

/// The names in force inside a class: its imports, what its bases bring, and
/// its own aliases.
pub open spec fn in_force(
    classes: Seq<&ClassDef>,
    class: ClassDef,
    site: SiteV,
    depth: nat,
) -> Result<InForceV, Seq<char>>
    decreases MAX_DEPTH + 1 - depth, 1int, 0nat,
{
    match bases_bring(classes, class, site, depth, class.extends@.len()) {
        Err(why) => Err(why),
        Ok(start) => aliases_taken(classes, class, site, start, class.class_aliases@.len()),
    }
}

proof fn lemma_bases_stop(
    classes: Seq<&ClassDef>,
    class: ClassDef,
    site: SiteV,
    depth: nat,
    n: nat,
    all: nat,
)
    requires
        n <= all <= class.extends@.len(),
        depth <= MAX_DEPTH,
        bases_bring(classes, class, site, depth, n) is Err,
    ensures
        bases_bring(classes, class, site, depth, all) == bases_bring(
            classes,
            class,
            site,
            depth,
            n,
        ),
    decreases all - n,
{
    if n < all {
        lemma_bases_stop(classes, class, site, depth, n, (all - 1) as nat);
    }
}

proof fn lemma_aliases_stop(
    classes: Seq<&ClassDef>,
    class: ClassDef,
    site: SiteV,
    start: InForceV,
    n: nat,
    all: nat,
)
    requires
        n <= all <= class.class_aliases@.len(),
        aliases_taken(classes, class, site, start, n) is Err,
    ensures
        aliases_taken(classes, class, site, start, all) == aliases_taken(
            classes,
            class,
            site,
            start,
            n,
        ),
    decreases all - n,
{
    if n < all {
        lemma_aliases_stop(classes, class, site, start, n, (all - 1) as nat);
    }
}

fn find_target(
    registry: &Registry,
    class: &ClassDef,
    alias: &ClassAlias,
    site: &Site,
    imports: &Vec<(String, String)>,
) -> (r: Result<String, String>)
    ensures
        told(r) == alias_target(
            registry@,
            *class,
            *alias,
            site.deep_view(),
            imports.deep_view(),
        ),
{
    match find_replaced(site.redeclares, alias.name.as_str()) {
        Some(by) => if alias.replaceable {
            Ok(by.of_type.clone())
        } else {
            Err(
                join5(
                    "class `",
                    alias.name.as_str(),
                    "` of `",
                    class.name.as_str(),
                    "` is redeclared but not declared replaceable",
                ),
            )
        },
        None => match lookup(registry, alias.target.as_str(), class.name.as_str(), imports) {
            Some(found) => Ok(found.name.clone()),
            None => match lookup(registry, alias.target.as_str(), site.scope, imports) {
                Some(found) => Ok(found.name.clone()),
                None => Err(
                    join5(
                        "unknown class `",
                        alias.target.as_str(),
                        "` behind the alias `",
                        alias.name.as_str(),
                        "`",
                    ),
                ),
            },
        },
    }
}

fn check_fit(
    registry: &Registry,
    alias: &ClassAlias,
    target: &str,
    site: &Site,
    imports: &Vec<(String, String)>,
) -> (r: Result<(), String>)
    ensures
        match (r, alias_fits(
            registry@,
            *alias,
            target@,
            site.deep_view(),
            imports.deep_view(),
        )) {
            (Ok(()), Ok(())) => true,
            (Err(why), Err(said)) => why@ == said,
            _ => false,
        },
{
    let constraint = match &alias.constrained_by {
        Some(constraint) => constraint,
        None => {
            return Ok(());
        },
    };
    if find_replaced(site.redeclares, alias.name.as_str()).is_none() {
        return Ok(());
    }
    match lookup(registry, constraint.as_str(), site.scope, imports) {
        None => Err(
            join5(
                "unknown constraining class `",
                constraint.as_str(),
                "` of `",
                alias.name.as_str(),
                "`",
            ),
        ),
        Some(interface) => if extends_class(registry, target, interface.name.as_str(), 0) {
            Ok(())
        } else {
            Err(
                join7(
                    "`",
                    target,
                    "` cannot replace `",
                    alias.name.as_str(),
                    "`: it does not extend `",
                    interface.name.as_str(),
                    "`",
                ),
            )
        },
    }
}

fn find_fills(alias: &ClassAlias, site: &Site) -> (r: Option<Vec<(String, Expr)>>)
    ensures
        r.deep_view() == alias_fills(*alias, site.deep_view()),
{
    assert(alias.modifiers.deep_view().len() == alias.modifiers@.len());
    if let Some(by) = find_replaced(site.redeclares, alias.name.as_str()) {
        assert(by.modifiers.deep_view().len() == by.modifiers@.len());
        if by.modifiers.len() > 0 {
            return if site.twice {
                Some(rename_all(&by.modifiers, site.naming))
            } else {
                Some(copied_named(&by.modifiers))
            };
        }
    }
    if alias.modifiers.len() > 0 {
        Some(rename_all(&alias.modifiers, site.naming))
    } else {
        None
    }
}

fn take_alias(
    registry: &Registry,
    class: &ClassDef,
    alias: &ClassAlias,
    site: &Site,
    so_far: InForce,
) -> (r: Result<InForce, String>)
    ensures
        told(r) == alias_taken(
            registry@,
            *class,
            *alias,
            site.deep_view(),
            so_far.deep_view(),
        ),
{
    if alias.redeclaration {
        return Ok(so_far);
    }
    let target = match find_target(registry, class, alias, site, &so_far.imports) {
        Ok(target) => target,
        Err(why) => {
            return Err(why);
        },
    };
    if let Err(why) = check_fit(registry, alias, target.as_str(), site, &so_far.imports) {
        return Err(why);
    }
    let ghost start = so_far.deep_view();
    let replaced_here = find_replaced(site.redeclares, alias.name.as_str()).is_some();
    let mut filled = so_far.filled;
    let mut given = so_far.given;
    let mut imports = so_far.imports;
    if let Some(list) = find_fills(alias, site) {
        let ghost lv = list.deep_view();
        filled.push((target.clone(), list));
        assert(filled.deep_view() =~= start.filled.push((target@, lv)));
    }
    if !replaced_here && alias.modifiers.len() > 0 {
        given.push((target.clone(), copied_named(&alias.modifiers)));
        assert(given.deep_view() =~= start.given.push(
            (target@, alias.modifiers.deep_view()),
        ));
    }
    imports.push((alias.name.clone(), target));
    assert(imports.deep_view() =~= start.imports.push((alias.name@, target@)));
    Ok(InForce { imports, filled, given })
}

/// The imports a class resolves names through, with its class aliases folded
/// in as further entries.
///
/// `package Medium = Media.Water` makes `Medium.density` mean
/// `Media.Water.density` exactly the way an import would, so an alias becomes
/// an import entry. A redeclaration swaps the target before that, checked
/// against the alias's `constrainedby` interface. `depth` counts the bases
/// already walked, since a class may name a base that leads back to it.
pub fn effective_imports(registry: &Registry, class: &ClassDef, site: &Site, depth: usize) -> (r:
    Result<InForce, String>)
    ensures
        told(r) == in_force(registry@, *class, site.deep_view(), depth as nat),
    decreases MAX_DEPTH + 1 - depth,
{
    let ghost sv = site.deep_view();
    let ghost total = class.extends@.len();
    let mut now = InForce {
        imports: same_pairs(&class.imports),
        filled: Vec::new(),
        given: Vec::new(),
    };
    assert(now.filled.deep_view() =~= Seq::empty());
    assert(now.given.deep_view() =~= Seq::empty());
    if depth <= MAX_DEPTH {
        let mut i: usize = 0;
        while i < class.extends.len()
            invariant
                i <= class.extends.len(),
                depth <= MAX_DEPTH,
                sv == site.deep_view(),
                total == class.extends@.len(),
                told(Ok::<InForce, String>(now)) == bases_bring(
                    registry@,
                    *class,
                    sv,
                    depth as nat,
                    i as nat,
                ),
            decreases class.extends.len() - i,
        {
            let ghost so_far = now.deep_view();
            let found = lookup(
                registry,
                class.extends[i].base.as_str(),
                class.name.as_str(),
                &now.imports,
            );
            if let Some(base) = found {
                match effective_imports(registry, base, site, depth + 1) {
                    Ok(held) => {
                        let ghost hv = held.deep_view();
                        let imports = add_missing(now.imports, &held.imports);
                        let mut filled = now.filled;
                        let mut given = now.given;
                        let mut more_filled = held.filled;
                        let mut more_given = held.given;
                        filled.append(&mut more_filled);
                        given.append(&mut more_given);
                        assert(filled.deep_view() =~= so_far.filled + hv.filled);
                        assert(given.deep_view() =~= so_far.given + hv.given);
                        assert(hv.imports.len() == held.imports@.len());
                        now = InForce { imports, filled, given };
                    },
                    Err(why) => {
                        proof {
                            lemma_bases_stop(
                                registry@,
                                *class,
                                sv,
                                depth as nat,
                                (i + 1) as nat,
                                total,
                            );
                        }
                        return Err(why);
                    },
                }
            }
            i = i + 1;
        }
    }
    let ghost start = now.deep_view();
    let mut i: usize = 0;
    while i < class.class_aliases.len()
        invariant
            i <= class.class_aliases.len(),
            sv == site.deep_view(),
            in_force(registry@, *class, sv, depth as nat) == aliases_taken(
                registry@,
                *class,
                sv,
                start,
                class.class_aliases@.len(),
            ),
            told(Ok::<InForce, String>(now)) == aliases_taken(
                registry@,
                *class,
                sv,
                start,
                i as nat,
            ),
        decreases class.class_aliases.len() - i,
    {
        match take_alias(registry, class, &class.class_aliases[i], site, now) {
            Ok(next) => {
                now = next;
            },
            Err(why) => {
                proof {
                    lemma_aliases_stop(
                        registry@,
                        *class,
                        sv,
                        start,
                        (i + 1) as nat,
                        class.class_aliases@.len(),
                    );
                }
                return Err(why);
            },
        }
        i = i + 1;
    }
    Ok(now)
}

/// A shared instance, as an `outer` declaration finds it.
#[derive(Debug)]
pub struct InnerInstance {
    pub path: String,
    pub class: String,
    pub modifiers: Vec<(String, Expr)>,
}

pub ghost struct InnerV {
    pub path: Seq<char>,
    pub class: Seq<char>,
    pub modifiers: Seq<(Seq<char>, ExprV)>,
}

impl DeepView for InnerInstance {
    type V = InnerV;

    open spec fn deep_view(&self) -> InnerV {
        InnerV {
            path: self.path@,
            class: self.class@,
            modifiers: self.modifiers.deep_view(),
        }
    }
}

impl Clone for InnerInstance {
    fn clone(&self) -> (r: Self)
        ensures
            r.deep_view() == self.deep_view(),
    {
        InnerInstance {
            path: self.path.clone(),
            class: self.class.clone(),
            modifiers: copied_named(&self.modifiers),
        }
    }
}

/// Shared instances by the name they are declared under, each name once.
pub type Inners = Seq<(Seq<char>, InnerV)>;

/// The shared instance of a name.
pub open spec fn inner_of(list: Inners, name: Seq<char>) -> Option<InnerV>
    decreases list.len(),
{
    if list.len() == 0 {
        None
    } else if list[0].0 == name {
        Some(list[0].1)
    } else {
        inner_of(list.drop_first(), name)
    }
}

/// A list of shared instances with one put in: it takes the place of the one
/// of its name.
pub open spec fn inner_put(list: Inners, name: Seq<char>, inner: InnerV) -> Inners
    decreases list.len(),
{
    if list.len() == 0 {
        seq![(name, inner)]
    } else if list[0].0 == name {
        seq![(name, inner)] + list.drop_first()
    } else {
        seq![list[0]] + inner_put(list.drop_first(), name, inner)
    }
}

pub fn find_inner<'i>(list: &'i Vec<(String, InnerInstance)>, name: &str) -> (r: Option<
    &'i InnerInstance,
>)
    ensures
        match (r, inner_of(list.deep_view(), name@)) {
            (Some(found), Some(meant)) => found.deep_view() == meant,
            (None, None) => true,
            _ => false,
        },
{
    let ghost all = list.deep_view();
    let mut i: usize = 0;
    assert(all.skip(0) =~= all);
    while i < list.len()
        invariant
            i <= list.len(),
            all == list.deep_view(),
            inner_of(all, name@) == inner_of(all.skip(i as int), name@),
        decreases list.len() - i,
    {
        assert(all.skip(i as int)[0] == list@[i as int].deep_view());
        assert(all.skip(i as int).drop_first() =~= all.skip(i + 1));
        if same(list[i].0.as_str(), name) {
            return Some(&list[i].1);
        }
        i = i + 1;
    }
    assert(all.skip(i as int) =~= Seq::empty());
    None
}

fn put_inner(list: &mut Vec<(String, InnerInstance)>, name: String, inner: InnerInstance)
    ensures
        final(list).deep_view() == inner_put(old(list).deep_view(), name@, inner.deep_view()),
{
    let ghost all = list.deep_view();
    let ghost iv = inner.deep_view();
    let mut i: usize = 0;
    assert(all.skip(0) =~= all);
    assert(all.take(0) + inner_put(all, name@, iv) =~= inner_put(all, name@, iv));
    while i < list.len()
        invariant
            i <= list.len(),
            all == list.deep_view(),
            inner_put(all, name@, iv) == all.take(i as int) + inner_put(
                all.skip(i as int),
                name@,
                iv,
            ),
            iv == inner.deep_view(),
            all == old(list).deep_view(),
        decreases list.len() - i,
    {
        assert(all.skip(i as int)[0] == list@[i as int].deep_view());
        assert(all.skip(i as int).drop_first() =~= all.skip(i + 1));
        if same(list[i].0.as_str(), name.as_str()) {
            assert(all.skip(i as int)[0].0 == name@);
            assert(inner_put(all.skip(i as int), name@, iv) == seq![(name@, iv)] + all.skip(
                i as int,
            ).drop_first());
            list.set(i, (name, inner));
            assert(list.deep_view() =~= all.take(i as int) + (seq![(name@, iv)] + all.skip(
                i + 1,
            )));
            return;
        }
        assert(all.take(i + 1) =~= all.take(i as int) + seq![all[i as int]]);
        assert(all.take(i as int) + (seq![all[i as int]] + inner_put(all.skip(i + 1), name@, iv))
            =~= all.take(i + 1) + inner_put(all.skip(i + 1), name@, iv));
        i = i + 1;
    }
    assert(all.skip(i as int) =~= Seq::empty());
    list.push((name, inner));
    assert(list.deep_view() =~= all.take(i as int) + seq![(name@, iv)]);
}

/// The class a declaration's type names, and the type as it was written where
/// it names none.
pub open spec fn type_named(classes: Seq<&ClassDef>, class: ClassDef, c: Component) -> Seq<char> {
    match meaning(classes, c.of_type@, class.name@, class.imports.deep_view()) {
        Some(found) => found.name@,
        None => c.of_type@,
    }
}

fn name_type(registry: &Registry, class: &ClassDef, c: &Component) -> (r: String)
    ensures
        r@ == type_named(registry@, *class, *c),
{
    match lookup(registry, c.of_type.as_str(), class.name.as_str(), &class.imports) {
        Some(found) => found.name.clone(),
        None => c.of_type.clone(),
    }
}

/// The base that the `i`-th `extends` of a class names from where it stands.
pub open spec fn named_base(classes: Seq<&ClassDef>, class: ClassDef, i: int) -> Option<ClassDef> {
    meaning(classes, class.extends@[i].base@, class.name@, class.imports.deep_view())
}

fn find_named_base<'a>(registry: &Registry<'a>, class: &ClassDef, i: usize) -> (r: Option<
    &'a ClassDef,
>)
    requires
        i < class.extends@.len(),
    ensures
        is_it(r, named_base(registry@, *class, i as int)),
{
    lookup(registry, class.extends[i].base.as_str(), class.name.as_str(), &class.imports)
}

/// The shared instances once the first `n` declarations of a class are in.
pub open spec fn inners_declared(
    classes: Seq<&ClassDef>,
    class: ClassDef,
    prefix: Seq<char>,
    start: Inners,
    n: nat,
) -> Inners
    decreases n,
{
    if n == 0 || n > class.components@.len() {
        start
    } else {
        let before = inners_declared(classes, class, prefix, start, (n - 1) as nat);
        let c = class.components@[n - 1];
        if c.scope == Scope::Inner {
            inner_put(
                before,
                c.name@,
                InnerV {
                    path: prefix + c.name@,
                    class: type_named(classes, class, c),
                    modifiers: c.modifiers.deep_view(),
                },
            )
        } else {
            before
        }
    }
}

/// The shared instances once the first `n` bases of a class are in.
pub open spec fn inners_inherited(
    classes: Seq<&ClassDef>,
    class: ClassDef,
    prefix: Seq<char>,
    start: Inners,
    depth: nat,
    n: nat,
) -> Inners
    decreases MAX_DEPTH + 1 - depth, 0int, n,
{
    if n == 0 || n > class.extends@.len() || depth > MAX_DEPTH {
        start
    } else {
        let before = inners_inherited(classes, class, prefix, start, depth, (n - 1) as nat);
        match named_base(classes, class, n - 1) {
            Some(base) => inners_of(classes, base, prefix, before, depth + 1),
            None => before,
        }
    }
}

/// The shared instances once a class and its bases have declared theirs.
pub open spec fn inners_of(
    classes: Seq<&ClassDef>,
    class: ClassDef,
    prefix: Seq<char>,
    start: Inners,
    depth: nat,
) -> Inners
    decreases MAX_DEPTH + 1 - depth, 1int, 0nat,
{
    if depth > MAX_DEPTH {
        start
    } else {
        inners_declared(
            classes,
            class,
            prefix,
            inners_inherited(classes, class, prefix, start, depth, class.extends@.len()),
            class.components@.len(),
        )
    }
}

/// Collect the `inner` declarations of a class and of its bases.
pub fn collect_inners(
    registry: &Registry,
    class: &ClassDef,
    prefix: &str,
    out: &mut Vec<(String, InnerInstance)>,
    depth: usize,
)
    ensures
        final(out).deep_view() == inners_of(
            registry@,
            *class,
            prefix@,
            old(out).deep_view(),
            depth as nat,
        ),
    decreases MAX_DEPTH + 1 - depth,
{
    if depth > MAX_DEPTH {
        return;
    }
    let ghost start = out.deep_view();
    let mut i: usize = 0;
    while i < class.extends.len()
        invariant
            i <= class.extends.len(),
            depth <= MAX_DEPTH,
            out.deep_view() == inners_inherited(
                registry@,
                *class,
                prefix@,
                start,
                depth as nat,
                i as nat,
            ),
        decreases class.extends.len() - i,
    {
        if let Some(base) = find_named_base(registry, class, i) {
            collect_inners(registry, base, prefix, out, depth + 1);
        }
        i = i + 1;
    }
    let ghost inherited = out.deep_view();
    let mut i: usize = 0;
    while i < class.components.len()
        invariant
            i <= class.components.len(),
            out.deep_view() == inners_declared(registry@, *class, prefix@, inherited, i as nat),
        decreases class.components.len() - i,
    {
        let c = &class.components[i];
        if c.scope == Scope::Inner {
            let inner = InnerInstance {
                path: join2(prefix, c.name.as_str()),
                class: name_type(registry, class, c),
                modifiers: copied_named(&c.modifiers),
            };
            put_inner(out, c.name.clone(), inner);
        }
        i = i + 1;
    }
}

/// A table of paths with those of another put over it.
pub open spec fn over(under: Map<Seq<char>, Seq<char>>, more: Map<Seq<char>, Seq<char>>) -> Map<
    Seq<char>,
    Seq<char>,
> {
    under.union_prefer_right(more)
}

/// Put every entry of a table of texts into another.
pub fn put_texts(under: &mut Table<String>, more: &Table<String>)
    ensures
        final(under).deep_view() == over(old(under).deep_view(), more.deep_view()),
{
    let ghost start = under.deep_view();
    let ghost all = more.entries.deep_view();
    let mut i: usize = 0;
    assert(all.take(0) =~= Seq::empty());
    assert(under.deep_view() =~= over(start, crate::table::entered(all.take(0))));
    while i < more.entries.len()
        invariant
            i <= more.entries.len(),
            all == more.entries.deep_view(),
            under.deep_view() == over(start, crate::table::entered(all.take(i as int))),
        decreases more.entries.len() - i,
    {
        assert(all[i as int] == more.entries@[i as int].deep_view());
        assert(all.take(i + 1).drop_last() =~= all.take(i as int));
        under.put(more.entries[i].0.clone(), more.entries[i].1.clone());
        assert(under.deep_view() =~= over(start, crate::table::entered(all.take(i + 1))));
        i = i + 1;
    }
    assert(all.take(i as int) =~= all);
}

/// What the paths are once an `outer` declaration is bound.
pub open spec fn outer_bound(
    classes: Seq<&ClassDef>,
    class: ClassDef,
    c: Component,
    inners: Inners,
    so_far: Map<Seq<char>, Seq<char>>,
) -> Result<Map<Seq<char>, Seq<char>>, Seq<char>> {
    if c.scope != Scope::Outer {
        Ok(so_far)
    } else {
        match inner_of(inners, c.name@) {
            None => Err(
                "`outer "@ + c.of_type@ + " "@ + c.name@ + "` in `"@ + class.name@
                    + "` has no `inner` declaration above it"@,
            ),
            Some(inner) => if is_or_extends(classes, inner.class, type_named(classes, class, c), 0) {
                Ok(so_far.insert(c.name@, inner.path))
            } else {
                Err(
                    "`outer "@ + c.of_type@ + " "@ + c.name@
                        + "` does not match the `inner` instance, which is a `"@ + inner.class
                        + "`"@,
                )
            },
        }
    }
}

/// The paths once the first `n` declarations of a class are bound.
pub open spec fn outers_declared(
    classes: Seq<&ClassDef>,
    class: ClassDef,
    inners: Inners,
    start: Map<Seq<char>, Seq<char>>,
    n: nat,
) -> Result<Map<Seq<char>, Seq<char>>, Seq<char>>
    decreases n,
{
    if n == 0 || n > class.components@.len() {
        Ok(start)
    } else {
        match outers_declared(classes, class, inners, start, (n - 1) as nat) {
            Err(why) => Err(why),
            Ok(so_far) => outer_bound(classes, class, class.components@[n - 1], inners, so_far),
        }
    }
}

/// The paths once the first `n` declarations of a component's class are asked
/// for what they hold `outer`.
pub open spec fn outers_held(
    of: ClassDef,
    name: Seq<char>,
    inners: Inners,
    start: Map<Seq<char>, Seq<char>>,
    n: nat,
) -> Map<Seq<char>, Seq<char>>
    decreases n,
{
    if n == 0 || n > of.components@.len() {
        start
    } else {
        let before = outers_held(of, name, inners, start, (n - 1) as nat);
        let held = of.components@[n - 1];
        if held.scope == Scope::Outer {
            match inner_of(inners, held.name@) {
                Some(inner) => before.insert(dotted(name, held.name@), inner.path),
                None => before,
            }
        } else {
            before
        }
    }
}

/// The paths once the first `n` components of a class are asked for what they
/// hold `outer`, one level down.
pub open spec fn outers_below(
    classes: Seq<&ClassDef>,
    class: ClassDef,
    inners: Inners,
    start: Map<Seq<char>, Seq<char>>,
    n: nat,
) -> Map<Seq<char>, Seq<char>>
    decreases n,
{
    if n == 0 || n > class.components@.len() {
        start
    } else {
        let before = outers_below(classes, class, inners, start, (n - 1) as nat);
        let c = class.components@[n - 1];
        if c.scope == Scope::Outer {
            before
        } else {
            match meaning(classes, c.of_type@, class.name@, class.imports.deep_view()) {
                Some(of) => outers_held(of, c.name@, inners, before, of.components@.len()),
                None => before,
            }
        }
    }
}

/// The paths once the first `n` bases of a class have bound theirs.
pub open spec fn outers_inherited(
    classes: Seq<&ClassDef>,
    class: ClassDef,
    inners: Inners,
    depth: nat,
    n: nat,
) -> Result<Map<Seq<char>, Seq<char>>, Seq<char>>
    decreases MAX_DEPTH + 1 - depth, 0int, n,
{
    if n == 0 || n > class.extends@.len() || depth > MAX_DEPTH {
        Ok(Map::empty())
    } else {
        match outers_inherited(classes, class, inners, depth, (n - 1) as nat) {
            Err(why) => Err(why),
            Ok(so_far) => match named_base(classes, class, n - 1) {
                None => Ok(so_far),
                Some(base) => match outers_bound(classes, base, inners, depth + 1) {
                    Err(why) => Err(why),
                    Ok(more) => Ok(over(so_far, more)),
                },
            },
        }
    }
}

/// What every `outer` name in view of a class stands for.
pub open spec fn outers_bound(
    classes: Seq<&ClassDef>,
    class: ClassDef,
    inners: Inners,
    depth: nat,
) -> Result<Map<Seq<char>, Seq<char>>, Seq<char>>
    decreases MAX_DEPTH + 1 - depth, 1int, 0nat,
{
    if depth > MAX_DEPTH {
        Ok(Map::empty())
    } else {
        match outers_inherited(classes, class, inners, depth, class.extends@.len()) {
            Err(why) => Err(why),
            Ok(start) => match outers_declared(
                classes,
                class,
                inners,
                start,
                class.components@.len(),
            ) {
                Err(why) => Err(why),
                Ok(own) => Ok(
                    outers_below(classes, class, inners, own, class.components@.len()),
                ),
            },
        }
    }
}

proof fn lemma_inherited_stop(
    classes: Seq<&ClassDef>,
    class: ClassDef,
    inners: Inners,
    depth: nat,
    n: nat,
    all: nat,
)
    requires
        n <= all <= class.extends@.len(),
        depth <= MAX_DEPTH,
        outers_inherited(classes, class, inners, depth, n) is Err,
    ensures
        outers_inherited(classes, class, inners, depth, all) == outers_inherited(
            classes,
            class,
            inners,
            depth,
            n,
        ),
    decreases all - n,
{
    if n < all {
        lemma_inherited_stop(classes, class, inners, depth, n, (all - 1) as nat);
    }
}

proof fn lemma_declared_stop(
    classes: Seq<&ClassDef>,
    class: ClassDef,
    inners: Inners,
    start: Map<Seq<char>, Seq<char>>,
    n: nat,
    all: nat,
)
    requires
        n <= all <= class.components@.len(),
        outers_declared(classes, class, inners, start, n) is Err,
    ensures
        outers_declared(classes, class, inners, start, all) == outers_declared(
            classes,
            class,
            inners,
            start,
            n,
        ),
    decreases all - n,
{
    if n < all {
        lemma_declared_stop(classes, class, inners, start, n, (all - 1) as nat);
    }
}

fn bind_outer(
    registry: &Registry,
    class: &ClassDef,
    c: &Component,
    inners: &Vec<(String, InnerInstance)>,
    so_far: Table<String>,
) -> (r: Result<Table<String>, String>)
    ensures
        told(r) == outer_bound(
            registry@,
            *class,
            *c,
            inners.deep_view(),
            so_far.deep_view(),
        ),
{
    if c.scope != Scope::Outer {
        return Ok(so_far);
    }
    match find_inner(inners, c.name.as_str()) {
        None => Err(
            join7(
                "`outer ",
                c.of_type.as_str(),
                " ",
                c.name.as_str(),
                "` in `",
                class.name.as_str(),
                "` has no `inner` declaration above it",
            ),
        ),
        Some(inner) => {
            let declared = name_type(registry, class, c);
            if extends_class(registry, inner.class.as_str(), declared.as_str(), 0) {
                let mut out = so_far;
                out.put(c.name.clone(), inner.path.clone());
                Ok(out)
            } else {
                Err(
                    join7(
                        "`outer ",
                        c.of_type.as_str(),
                        " ",
                        c.name.as_str(),
                        "` does not match the `inner` instance, which is a `",
                        inner.class.as_str(),
                        "`",
                    ),
                )
            }
        },
    }
}

fn bind_held(
    of: &ClassDef,
    name: &str,
    inners: &Vec<(String, InnerInstance)>,
    out: &mut Table<String>,
)
    ensures
        final(out).deep_view() == outers_held(
            *of,
            name@,
            inners.deep_view(),
            old(out).deep_view(),
            of.components@.len(),
        ),
{
    let ghost start = out.deep_view();
    let mut i: usize = 0;
    while i < of.components.len()
        invariant
            i <= of.components.len(),
            out.deep_view() == outers_held(*of, name@, inners.deep_view(), start, i as nat),
        decreases of.components.len() - i,
    {
        let held = &of.components[i];
        if held.scope == Scope::Outer {
            if let Some(inner) = find_inner(inners, held.name.as_str()) {
                out.put(dot(name, held.name.as_str()), inner.path.clone());
            }
        }
        i = i + 1;
    }
}

/// Bind the `outer` declarations of a class to the visible `inner` instances,
/// yielding the name-to-path table references go through. `depth` counts the
/// bases already walked, since a class may name a base that leads back to it.
pub fn bind_outers_at(
    registry: &Registry,
    class: &ClassDef,
    inners: &Vec<(String, InnerInstance)>,
    depth: usize,
) -> (r: Result<Table<String>, String>)
    ensures
        told(r) == outers_bound(registry@, *class, inners.deep_view(), depth as nat),
    decreases MAX_DEPTH + 1 - depth,
{
    let ghost iv = inners.deep_view();
    let mut out: Table<String> = Table::new();
    if depth > MAX_DEPTH {
        return Ok(out);
    }
    let mut i: usize = 0;
    while i < class.extends.len()
        invariant
            i <= class.extends.len(),
            depth <= MAX_DEPTH,
            iv == inners.deep_view(),
            told(Ok::<Table<String>, String>(out)) == outers_inherited(
                registry@,
                *class,
                iv,
                depth as nat,
                i as nat,
            ),
        decreases class.extends.len() - i,
    {
        if let Some(base) = find_named_base(registry, class, i) {
            match bind_outers_at(registry, base, inners, depth + 1) {
                Ok(more) => {
                    put_texts(&mut out, &more);
                },
                Err(why) => {
                    proof {
                        lemma_inherited_stop(
                            registry@,
                            *class,
                            iv,
                            depth as nat,
                            (i + 1) as nat,
                            class.extends@.len(),
                        );
                    }
                    return Err(why);
                },
            }
        }
        i = i + 1;
    }
    let ghost start = out.deep_view();
    let mut i: usize = 0;
    while i < class.components.len()
        invariant
            i <= class.components.len(),
            depth <= MAX_DEPTH,
            iv == inners.deep_view(),
            outers_inherited(registry@, *class, iv, depth as nat, class.extends@.len()) == Ok::<
                Map<Seq<char>, Seq<char>>,
                Seq<char>,
            >(start),
            told(Ok::<Table<String>, String>(out)) == outers_declared(
                registry@,
                *class,
                iv,
                start,
                i as nat,
            ),
        decreases class.components.len() - i,
    {
        match bind_outer(registry, class, &class.components[i], inners, out) {
            Ok(next) => {
                out = next;
            },
            Err(why) => {
                proof {
                    lemma_declared_stop(
                        registry@,
                        *class,
                        iv,
                        start,
                        (i + 1) as nat,
                        class.components@.len(),
                    );
                }
                return Err(why);
            },
        }
        i = i + 1;
    }
    let ghost own = out.deep_view();
    let mut i: usize = 0;
    while i < class.components.len()
        invariant
            i <= class.components.len(),
            iv == inners.deep_view(),
            out.deep_view() == outers_below(registry@, *class, iv, own, i as nat),
        decreases class.components.len() - i,
    {
        let c = &class.components[i];
        if c.scope != Scope::Outer {
            let found = lookup(
                registry,
                c.of_type.as_str(),
                class.name.as_str(),
                &class.imports,
            );
            if let Some(of) = found {
                bind_held(of, c.name.as_str(), inners, &mut out);
            }
        }
        i = i + 1;
    }
    Ok(out)
}

/// Bind the `outer` declarations of a class to the visible `inner` instances.
pub fn bind_outers(
    registry: &Registry,
    class: &ClassDef,
    inners: &Vec<(String, InnerInstance)>,
) -> (r: Result<Table<String>, String>)
    ensures
        told(r) == outers_bound(registry@, *class, inners.deep_view(), 0),
{
    bind_outers_at(registry, class, inners, 0)
}

/// The names of a list that do not open a whole package.
pub open spec fn not_wild(list: Pairs) -> Pairs
    decreases list.len(),
{
    if list.len() == 0 {
        Seq::empty()
    } else {
        let before = not_wild(list.drop_last());
        if list.last().0 == WILDCARD_IMPORT@ {
            before
        } else {
            before.push(list.last())
        }
    }
}

fn drop_wild(list: &Vec<(String, String)>) -> (r: Vec<(String, String)>)
    ensures
        r.deep_view() == not_wild(list.deep_view()),
{
    let ghost all = list.deep_view();
    let mut out: Vec<(String, String)> = Vec::new();
    let mut i: usize = 0;
    assert(out.deep_view() =~= not_wild(all.take(0)));
    while i < list.len()
        invariant
            i <= list.len(),
            all == list.deep_view(),
            out.deep_view() == not_wild(all.take(i as int)),
        decreases list.len() - i,
    {
        let ghost before = out.deep_view();
        assert(all[i as int] == list@[i as int].deep_view());
        assert(all.take(i + 1).drop_last() =~= all.take(i as int));
        if !same(list[i].0.as_str(), WILDCARD_IMPORT) {
            out.push((list[i].0.clone(), list[i].1.clone()));
            assert(out.deep_view() =~= before.push(all[i as int]));
        }
        i = i + 1;
    }
    assert(all.take(i as int) =~= all);
    out
}

/// What the first `n` redeclarations of a component say a class is.
pub open spec fn redeclared_names(
    classes: Seq<&ClassDef>,
    redeclares: Seq<RedeclareV>,
    scope: Seq<char>,
    imports: Pairs,
    n: nat,
) -> Pairs
    decreases n,
{
    if n == 0 || n > redeclares.len() {
        Seq::empty()
    } else {
        let before = redeclared_names(classes, redeclares, scope, imports, (n - 1) as nat);
        let held = redeclares[n - 1];
        if held.class_level {
            match meaning(classes, held.of_type, scope, imports) {
                Some(found) => before.push((held.name, found.name@)),
                None => before,
            }
        } else {
            before
        }
    }
}

fn name_redeclared(
    registry: &Registry,
    redeclares: &Vec<Redeclare>,
    scope: &str,
    imports: &Vec<(String, String)>,
) -> (r: Vec<(String, String)>)
    ensures
        r.deep_view() == redeclared_names(
            registry@,
            redeclares.deep_view(),
            scope@,
            imports.deep_view(),
            redeclares@.len(),
        ),
{
    let ghost all = redeclares.deep_view();
    let mut out: Vec<(String, String)> = Vec::new();
    let mut i: usize = 0;
    assert(out.deep_view() =~= Seq::empty());
    while i < redeclares.len()
        invariant
            i <= redeclares.len(),
            all == redeclares.deep_view(),
            out.deep_view() == redeclared_names(
                registry@,
                all,
                scope@,
                imports.deep_view(),
                i as nat,
            ),
        decreases redeclares.len() - i,
    {
        let ghost before = out.deep_view();
        let held = &redeclares[i];
        assert(all[i as int] == held.deep_view());
        if held.class_level {
            if let Some(found) = lookup(registry, held.of_type.as_str(), scope, imports) {
                out.push((held.name.clone(), found.name.clone()));
                assert(out.deep_view() =~= before.push((held.name@, found.name@)));
            }
        }
        i = i + 1;
    }
    out
}

/// Whether a class holds parts of its own.
pub open spec fn has_parts(kind: ClassKind) -> bool {
    kind == ClassKind::Record || kind == ClassKind::Model || kind == ClassKind::Block || kind
        == ClassKind::Connector
}

/// Where a walk over records stands.
pub ghost struct WalkV {
    pub prefix: Seq<char>,
    pub scope: Seq<char>,
    pub imports: Pairs,
    pub mark: Option<Seq<char>>,
}

/// Where a walk over records stands, as it is held.
#[derive(Debug)]
pub struct Walk {
    pub prefix: String,
    pub scope: String,
    pub imports: Vec<(String, String)>,
    /// The package the class was asked under, where that is known.
    pub mark: Option<String>,
}

impl DeepView for Walk {
    type V = WalkV;

    open spec fn deep_view(&self) -> WalkV {
        WalkV {
            prefix: self.prefix@,
            scope: self.scope@,
            imports: self.imports.deep_view(),
            mark: self.mark.deep_view(),
        }
    }
}

/// What a mark is once a written path has been resolved: the new one where
/// there is one, and otherwise the one that stood.
pub open spec fn mark_after(new: Option<Seq<char>>, old_mark: Option<Seq<char>>) -> Option<
    Seq<char>,
> {
    match new {
        Some(_) => new,
        None => old_mark,
    }
}

/// The walk down into a base: under the names the class above had.
pub open spec fn walk_base(at: WalkV, base: ClassDef) -> WalkV {
    WalkV {
        prefix: at.prefix,
        scope: base.name@,
        imports: added(
            not_wild(at.imports),
            base.imports.deep_view(),
            base.imports.deep_view().len(),
        ),
        mark: at.mark,
    }
}

/// The class a component is of, a record asked under the name it was reached
/// by.
pub open spec fn part_class(classes: Seq<&ClassDef>, c: ComponentV, at: WalkV) -> Option<ClassDef> {
    match meaning(classes, c.of_type, at.scope, at.imports) {
        None => None,
        Some(of) => if of.kind == ClassKind::Record {
            Some(
                record_meant(
                    classes,
                    of,
                    mark_after(
                        mark_resolving(classes, c.of_type, of, at.scope, at.imports),
                        at.mark,
                    ),
                ),
            )
        } else {
            Some(of)
        },
    }
}

/// The walk down into a component: what the holding class knows a name to mean
/// outranks what the component's own class does.
pub open spec fn walk_part(
    classes: Seq<&ClassDef>,
    c: ComponentV,
    of: ClassDef,
    at: WalkV,
) -> WalkV {
    let named = redeclared_names(
        classes,
        c.redeclares,
        at.scope,
        at.imports,
        c.redeclares.len(),
    );
    let handed = not_wild(at.imports);
    let with_handed = added(named, handed, handed.len());
    WalkV {
        prefix: at.prefix + c.name + "."@,
        scope: of.name@,
        imports: added(with_handed, of.imports.deep_view(), of.imports.deep_view().len()),
        mark: mark_after(mark_resolving(classes, c.of_type, of, at.scope, at.imports), at.mark),
    }
}

/// The records known once a component is walked.
pub open spec fn records_of_part(
    classes: Seq<&ClassDef>,
    component: Component,
    at: WalkV,
    so_far: Map<Seq<char>, Seq<char>>,
    depth: nat,
) -> Map<Seq<char>, Seq<char>>
    decreases MAX_DEPTH + 1 - depth, 0int, 0nat,
{
    if depth > MAX_DEPTH {
        so_far
    } else {
        let c = resolved_type(classes, component.deep_view(), at.scope, at.imports);
        match part_class(classes, c, at) {
            None => so_far,
            Some(of) => {
                let named = if of.kind == ClassKind::Record {
                    so_far.insert(at.prefix + c.name, of.name@)
                } else {
                    so_far
                };
                if has_parts(of.kind) {
                    records_of(classes, of, walk_part(classes, c, of, at), named, depth + 1)
                } else {
                    named
                }
            },
        }
    }
}

/// The records known once the first `n` components of a class are walked.
pub open spec fn records_of_parts(
    classes: Seq<&ClassDef>,
    class: ClassDef,
    at: WalkV,
    start: Map<Seq<char>, Seq<char>>,
    depth: nat,
    n: nat,
) -> Map<Seq<char>, Seq<char>>
    decreases MAX_DEPTH + 1 - depth, 1int, n,
{
    if n == 0 || n > class.components@.len() || depth > MAX_DEPTH {
        start
    } else {
        records_of_part(
            classes,
            class.components@[n - 1],
            at,
            records_of_parts(classes, class, at, start, depth, (n - 1) as nat),
            depth,
        )
    }
}

/// The records known once the first `n` bases of a class are walked.
pub open spec fn records_of_bases(
    classes: Seq<&ClassDef>,
    class: ClassDef,
    at: WalkV,
    start: Map<Seq<char>, Seq<char>>,
    depth: nat,
    n: nat,
) -> Map<Seq<char>, Seq<char>>
    decreases MAX_DEPTH + 1 - depth, 1int, n,
{
    if n == 0 || n > class.extends@.len() || depth > MAX_DEPTH {
        start
    } else {
        let before = records_of_bases(classes, class, at, start, depth, (n - 1) as nat);
        match meaning(classes, class.extends@[n - 1].base@, at.scope, at.imports) {
            Some(base) => records_of(classes, base, walk_base(at, base), before, depth + 1),
            None => before,
        }
    }
}

/// Which of the instances below a class are records, and of what.
pub open spec fn records_of(
    classes: Seq<&ClassDef>,
    class: ClassDef,
    at: WalkV,
    start: Map<Seq<char>, Seq<char>>,
    depth: nat,
) -> Map<Seq<char>, Seq<char>>
    decreases MAX_DEPTH + 1 - depth, 2int, 0nat,
{
    if depth > MAX_DEPTH {
        start
    } else {
        records_of_parts(
            classes,
            class,
            at,
            records_of_bases(classes, class, at, start, depth, class.extends@.len()),
            depth,
            class.components@.len(),
        )
    }
}

fn copy_text(t: &Option<String>) -> (r: Option<String>)
    ensures
        r.deep_view() == t.deep_view(),
{
    match t {
        Some(t) => Some(t.clone()),
        None => None,
    }
}

fn step_into_base(at: &Walk, base: &ClassDef) -> (r: Walk)
    ensures
        r.deep_view() == walk_base(at.deep_view(), *base),
{
    let handed = drop_wild(&at.imports);
    assert(base.imports.deep_view().len() == base.imports@.len());
    Walk {
        prefix: at.prefix.clone(),
        scope: base.name.clone(),
        imports: add_missing(handed, &base.imports),
        mark: copy_text(&at.mark),
    }
}

fn find_mark(registry: &Registry, c: &Component, of: &ClassDef, at: &Walk) -> (r: Option<String>)
    ensures
        r.deep_view() == mark_after(
            mark_resolving(registry@, c.of_type@, *of, at.scope@, at.imports.deep_view()),
            at.mark.deep_view(),
        ),
{
    match resolving(registry, c.of_type.as_str(), of, at.scope.as_str(), &at.imports) {
        Some(mark) => Some(mark),
        None => copy_text(&at.mark),
    }
}

fn find_part_class<'a>(registry: &Registry<'a>, c: &Component, at: &Walk) -> (r: Option<
    &'a ClassDef,
>)
    ensures
        is_it(r, part_class(registry@, c.deep_view(), at.deep_view())),
{
    match lookup(registry, c.of_type.as_str(), at.scope.as_str(), &at.imports) {
        None => None,
        Some(of) => if of.kind == ClassKind::Record {
            let mark = find_mark(registry, c, of, at);
            Some(record_asked_under(of, registry, &mark))
        } else {
            Some(of)
        },
    }
}

fn step_into_part(registry: &Registry, c: &Component, of: &ClassDef, at: &Walk) -> (r: Walk)
    ensures
        r.deep_view() == walk_part(registry@, c.deep_view(), *of, at.deep_view()),
{
    let named = name_redeclared(registry, &c.redeclares, at.scope.as_str(), &at.imports);
    assert(c.redeclares.deep_view().len() == c.redeclares@.len());
    let handed = drop_wild(&at.imports);
    assert(handed.deep_view().len() == handed@.len());
    assert(of.imports.deep_view().len() == of.imports@.len());
    let with_handed = add_missing(named, &handed);
    Walk {
        prefix: join3(at.prefix.as_str(), c.name.as_str(), "."),
        scope: of.name.clone(),
        imports: add_missing(with_handed, &of.imports),
        mark: find_mark(registry, c, of, at),
    }
}

/// Collect which of the instances below a class are records, and of what.
///
/// An overloaded operator is chosen by the record its operands are of, and an
/// equation between records is one equation per member: both need to know a
/// record when they see one. The walk goes down through the whole tree,
/// because a record is as often a member of something as a component outright.
pub fn collect_records(
    registry: &Registry,
    class: &ClassDef,
    at: &Walk,
    out: &mut Table<String>,
    depth: usize,
)
    ensures
        final(out).deep_view() == records_of(
            registry@,
            *class,
            at.deep_view(),
            old(out).deep_view(),
            depth as nat,
        ),
    decreases MAX_DEPTH + 1 - depth,
{
    if depth > MAX_DEPTH {
        return;
    }
    let ghost av = at.deep_view();
    let ghost start = out.deep_view();
    let mut i: usize = 0;
    while i < class.extends.len()
        invariant
            i <= class.extends.len(),
            depth <= MAX_DEPTH,
            av == at.deep_view(),
            out.deep_view() == records_of_bases(
                registry@,
                *class,
                av,
                start,
                depth as nat,
                i as nat,
            ),
        decreases class.extends.len() - i,
    {
        let found = lookup(
            registry,
            class.extends[i].base.as_str(),
            at.scope.as_str(),
            &at.imports,
        );
        if let Some(base) = found {
            let below = step_into_base(at, base);
            collect_records(registry, base, &below, out, depth + 1);
        }
        i = i + 1;
    }
    let ghost inherited = out.deep_view();
    let mut i: usize = 0;
    while i < class.components.len()
        invariant
            i <= class.components.len(),
            depth <= MAX_DEPTH,
            av == at.deep_view(),
            out.deep_view() == records_of_parts(
                registry@,
                *class,
                av,
                inherited,
                depth as nat,
                i as nat,
            ),
        decreases class.components.len() - i,
    {
        let ghost before = out.deep_view();
        let mut c = class.components[i].clone();
        resolve_type(registry, &mut c, at.scope.as_str(), &at.imports);
        if let Some(of) = find_part_class(registry, &c, at) {
            if of.kind == ClassKind::Record {
                out.put(join2(at.prefix.as_str(), c.name.as_str()), of.name.clone());
            }
            if of.kind == ClassKind::Record || of.kind == ClassKind::Model || of.kind
                == ClassKind::Block || of.kind == ClassKind::Connector {
                let below = step_into_part(registry, &c, of, at);
                collect_records(registry, of, &below, out, depth + 1);
            }
        }
        assert(out.deep_view() == records_of_part(
            registry@,
            class.components@[i as int],
            av,
            before,
            depth as nat,
        ));
        i = i + 1;
    }
}

/// The `outer` declarations found once the first `n` bases of a class are
/// walked.
pub open spec fn orphans_of_bases(
    classes: Seq<&ClassDef>,
    class: ClassDef,
    visible: Inners,
    start: Pairs,
    seen: Seq<Seq<char>>,
    depth: nat,
    n: nat,
) -> Pairs
    decreases MAX_DEPTH + 1 - depth, 0int, n,
{
    if n == 0 || n > class.extends@.len() || depth > MAX_DEPTH {
        start
    } else {
        let before = orphans_of_bases(
            classes,
            class,
            visible,
            start,
            seen,
            depth,
            (n - 1) as nat,
        );
        match named_base(classes, class, n - 1) {
            Some(base) => orphans(classes, base, visible, before, seen, depth + 1),
            None => before,
        }
    }
}

/// The `outer` declarations found once the first `n` components of a class are
/// walked.
pub open spec fn orphans_of_parts(
    classes: Seq<&ClassDef>,
    class: ClassDef,
    visible: Inners,
    start: Pairs,
    seen: Seq<Seq<char>>,
    depth: nat,
    n: nat,
) -> Pairs
    decreases MAX_DEPTH + 1 - depth, 0int, n,
{
    if n == 0 || n > class.components@.len() || depth > MAX_DEPTH {
        start
    } else {
        let before = orphans_of_parts(
            classes,
            class,
            visible,
            start,
            seen,
            depth,
            (n - 1) as nat,
        );
        let c = class.components@[n - 1];
        match meaning(classes, c.of_type@, class.name@, class.imports.deep_view()) {
            None => before,
            Some(of) => if c.scope == Scope::Outer {
                if inner_of(visible, c.name@) is Some || import_of(before, c.name@) is Some {
                    before
                } else {
                    before.push((c.name@, of.name@))
                }
            } else {
                orphans(classes, of, visible, before, seen, depth + 1)
            },
        }
    }
}

/// The `outer` declarations under a class that no `inner` above them answers,
/// each with the class it was written against. `seen` holds the classes the
/// walk is inside of.
pub open spec fn orphans(
    classes: Seq<&ClassDef>,
    class: ClassDef,
    inners: Inners,
    start: Pairs,
    seen: Seq<Seq<char>>,
    depth: nat,
) -> Pairs
    decreases MAX_DEPTH + 1 - depth, 1int, 0nat,
{
    if depth > MAX_DEPTH || seen.contains(class.name@) {
        start
    } else {
        let visible = inners_of(classes, class, ""@, inners, 0);
        let inside = seen.push(class.name@);
        orphans_of_parts(
            classes,
            class,
            visible,
            orphans_of_bases(
                classes,
                class,
                visible,
                start,
                inside,
                depth,
                class.extends@.len(),
            ),
            inside,
            depth,
            class.components@.len(),
        )
    }
}

/// A copy of a list of shared instances.
pub fn copy_inners(list: &Vec<(String, InnerInstance)>) -> (r: Vec<(String, InnerInstance)>)
    ensures
        r.deep_view() == list.deep_view(),
{
    let mut out: Vec<(String, InnerInstance)> = Vec::new();
    let mut i: usize = 0;
    while i < list.len()
        invariant
            i <= list.len(),
            out.len() == i,
            forall|k: int| 0 <= k < i ==> (#[trigger] out@[k]).deep_view() == list@[k].deep_view(),
        decreases list.len() - i,
    {
        out.push((list[i].0.clone(), list[i].1.clone()));
        i = i + 1;
    }
    assert(out.deep_view() =~= list.deep_view());
    out
}

/// The `outer` declarations under a class that no `inner` above them answers,
/// each with the class it was written against.
///
/// A part of a library is written to sit inside a model that holds the shared
/// instance; checked on its own it has nothing above it, and the missing
/// `inner` is declared at the top of the model with its class's own defaults.
pub fn outers_with_no_inner(
    registry: &Registry,
    class: &ClassDef,
    inners: &Vec<(String, InnerInstance)>,
    out: &mut Vec<(String, String)>,
    seen: &mut Vec<String>,
    depth: usize,
)
    ensures
        final(out).deep_view() == orphans(
            registry@,
            *class,
            inners.deep_view(),
            old(out).deep_view(),
            texts(old(seen)@),
            depth as nat,
        ),
        final(seen)@ == old(seen)@,
    decreases MAX_DEPTH + 1 - depth,
{
    if depth > MAX_DEPTH || holds(seen, class.name.as_str()) {
        return;
    }
    let ghost start = out.deep_view();
    let ghost entered = seen@;
    seen.push(class.name.clone());
    let ghost standing = seen@;
    let ghost inside = texts(seen@);
    assert(inside =~= texts(entered).push(class.name@));
    let mut visible = copy_inners(inners);
    collect_inners(registry, class, "", &mut visible, 0);
    let ghost vv = visible.deep_view();
    let mut i: usize = 0;
    while i < class.extends.len()
        invariant
            i <= class.extends.len(),
            depth <= MAX_DEPTH,
            vv == visible.deep_view(),
            seen@ == standing,
            inside == texts(standing),
            out.deep_view() == orphans_of_bases(
                registry@,
                *class,
                vv,
                start,
                inside,
                depth as nat,
                i as nat,
            ),
        decreases class.extends.len() - i,
    {
        if let Some(base) = find_named_base(registry, class, i) {
            outers_with_no_inner(registry, base, &visible, out, seen, depth + 1);
        }
        i = i + 1;
    }
    let ghost inherited = out.deep_view();
    let mut i: usize = 0;
    while i < class.components.len()
        invariant
            i <= class.components.len(),
            depth <= MAX_DEPTH,
            vv == visible.deep_view(),
            seen@ == standing,
            inside == texts(standing),
            out.deep_view() == orphans_of_parts(
                registry@,
                *class,
                vv,
                inherited,
                inside,
                depth as nat,
                i as nat,
            ),
        decreases class.components.len() - i,
    {
        let c = &class.components[i];
        let found = lookup(registry, c.of_type.as_str(), class.name.as_str(), &class.imports);
        if let Some(of) = found {
            if c.scope == Scope::Outer {
                let ghost before = out.deep_view();
                let known = find_inner(&visible, c.name.as_str()).is_some() || find_import(
                    out,
                    c.name.as_str(),
                ).is_some();
                if !known {
                    out.push((c.name.clone(), of.name.clone()));
                    assert(out.deep_view() =~= before.push((c.name@, of.name@)));
                }
            } else {
                outers_with_no_inner(registry, of, &visible, out, seen, depth + 1);
            }
        }
        i = i + 1;
    }
    let dropped = seen.pop();
    assert(seen@ =~= entered);
}

/// Every `outer` declaration that is bound is bound to a path of a visible
/// `inner` instance.
pub proof fn law_outers_are_inners(
    classes: Seq<&ClassDef>,
    class: ClassDef,
    inners: Inners,
    c: Component,
    so_far: Map<Seq<char>, Seq<char>>,
)
    requires
        c.scope == Scope::Outer,
        outer_bound(classes, class, c, inners, so_far) is Ok,
    ensures
        inner_of(inners, c.name@) is Some,
        outer_bound(classes, class, c, inners, so_far)->Ok_0[c.name@] == inner_of(
            inners,
            c.name@,
        )->0.path,
{
}

/// A shared instance that is put under a name is the one found under it, and
/// every other name finds what it found before.
pub proof fn law_inner_put(list: Inners, name: Seq<char>, inner: InnerV, asked: Seq<char>)
    ensures
        inner_of(inner_put(list, name, inner), asked) == (if asked == name {
            Some(inner)
        } else {
            inner_of(list, asked)
        }),
    decreases list.len(),
{
    let put = inner_put(list, name, inner);
    reveal_with_fuel(inner_of, 2);
    if list.len() == 0 {
        assert(put[0] == (name, inner));
        assert(put.drop_first() =~= Seq::empty());
    } else if list[0].0 == name {
        assert(put[0] == (name, inner));
        assert(put.drop_first() =~= list.drop_first());
    } else {
        assert(put[0] == list[0]);
        law_inner_put(list.drop_first(), name, inner, asked);
        assert(put.drop_first() =~= inner_put(list.drop_first(), name, inner));
    }
}

}
