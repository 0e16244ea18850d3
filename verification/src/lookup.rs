//! Finding what a name means: the walk out of the enclosing packages, the
//! imports in force where it was written, and the bases a member may be
//! inherited from.
//!
//! A registry is the list of the classes in view. Where two have the same
//! name the later one is meant, so a library may declare its own of a class
//! that the language supplies.
use crate::class::{ClassAlias, ClassDef, ClassKind, Extends, MAX_DEPTH, WILDCARD_IMPORT};
use crate::text::{
    after_last, begins_with, cut_first, cut_last, dot, dotted, find_last, last_of, lemma_last_of,
    same, split_first, split_last, starts, tail_of, without_head,
};
use vstd::prelude::*;

verus! {

/// The pairs of an import list: the local name, and what it stands for.
pub type Pairs = Seq<(Seq<char>, Seq<char>)>;

/// The class of that name: the last one there is.
pub open spec fn class_named(classes: Seq<&ClassDef>, name: Seq<char>) -> Option<ClassDef>
    decreases classes.len(),
{
    if classes.len() == 0 {
        None
    } else if classes.last().name@ == name {
        Some(*classes.last())
    } else {
        class_named(classes.drop_last(), name)
    }
}

/// What an import list makes of a local name. The packages opened wholesale
/// have no name of their own.
pub open spec fn import_of(imports: Pairs, local: Seq<char>) -> Option<Seq<char>>
    decreases imports.len(),
{
    if imports.len() == 0 {
        None
    } else if imports[0].0 == local && imports[0].0 != WILDCARD_IMPORT@ {
        Some(imports[0].1)
    } else {
        import_of(imports.drop_first(), local)
    }
}

/// The short definition of that name, where one is there that redeclares nothing.
pub open spec fn alias_named(aliases: Seq<ClassAlias>, name: Seq<char>) -> Option<ClassAlias>
    decreases aliases.len(),
{
    if aliases.len() == 0 {
        None
    } else if aliases[0].name@ == name && !aliases[0].redeclaration {
        Some(aliases[0])
    } else {
        alias_named(aliases.drop_first(), name)
    }
}

/// The name of something looked for under a prefix, which may be the top.
pub open spec fn under(prefix: Seq<char>, name: Seq<char>) -> Seq<char> {
    if prefix.len() == 0 {
        name
    } else {
        dotted(prefix, name)
    }
}

/// The prefix enclosing this one; the top encloses every name without a dot.
pub open spec fn outwards(prefix: Seq<char>) -> Seq<char> {
    match cut_last(prefix, '.') {
        Some((head, _)) => head,
        None => Seq::empty(),
    }
}

/// How much further the search may go into itself.
pub open spec fn going(looking: nat) -> nat {
    if looking <= MAX_DEPTH + 1 {
        (MAX_DEPTH + 1 - looking) as nat
    } else {
        0
    }
}

/// How much further a chain of names for names may go.
pub open spec fn left(depth: nat) -> nat {
    if depth <= MAX_DEPTH {
        (MAX_DEPTH + 1 - depth) as nat
    } else {
        0
    }
}

/// What stands for a name with a head and perhaps more after it.
pub open spec fn extended(target: Seq<char>, rest: Option<Seq<char>>) -> Seq<char> {
    match rest {
        Some(rest) => dotted(target, rest),
        None => target,
    }
}

/// The first part of a name, and the rest where there is one.
pub open spec fn parted(name: Seq<char>) -> (Seq<char>, Option<Seq<char>>) {
    match cut_first(name, '.') {
        Some((head, rest)) => (head, Some(rest)),
        None => (name, None),
    }
}

/// The class a short definition inside a package stands for, asked of every
/// way of cutting the name, longest holder first.
pub open spec fn through_alias(
    classes: Seq<&ClassDef>,
    name: Seq<char>,
    depth: nat,
    looking: nat,
) -> Option<ClassDef>
    decreases going(looking), 1int, 2 * left(depth) + 1, 0int,
{
    if depth > MAX_DEPTH {
        None
    } else {
        alias_before(classes, name, last_of(name, '.'), depth, looking)
    }
}

/// The same, asked of the cut at `cut` and of those before it.
pub open spec fn alias_before(
    classes: Seq<&ClassDef>,
    name: Seq<char>,
    cut: int,
    depth: nat,
    looking: nat,
) -> Option<ClassDef>
    decreases going(looking), 1int, 2 * left(depth), cut + 1,
{
    if cut < 0 || cut >= name.len() || depth > MAX_DEPTH {
        None
    } else {
        let holder = name.take(cut);
        let rest = name.skip(cut + 1);
        let here = match class_named(classes, holder) {
            Some(owner) => {
                let (member, tail) = parted(rest);
                match alias_named(owner.class_aliases@, member) {
                    Some(alias) => {
                        let target = extended(alias.target@, tail);
                        match lookup_from(classes, target, holder, owner.imports.deep_view(), looking) {
                            Some(found) => Some(found),
                            None => through_alias(classes, target, depth + 1, looking),
                        }
                    },
                    None => None,
                }
            },
            None => None,
        };
        proof {
            lemma_last_of(holder, '.');
        }
        match here {
            Some(found) => Some(found),
            None => alias_before(classes, name, last_of(holder, '.'), depth, looking),
        }
    }
}

/// A class by name, without asking what anything inherits: this prefix and
/// then the ones that enclose it.
pub open spec fn plain_from(
    classes: Seq<&ClassDef>,
    name: Seq<char>,
    prefix: Seq<char>,
    looking: nat,
) -> Option<ClassDef>
    decreases going(looking), 2int, prefix.len(), 0int,
{
    let candidate = under(prefix, name);
    match class_named(classes, candidate) {
        Some(class) => Some(class),
        None => match through_alias(classes, candidate, 0, looking) {
            Some(class) => Some(class),
            None => if prefix.len() == 0 {
                None
            } else {
                proof {
                    lemma_last_of(prefix, '.');
                }
                plain_from(classes, name, outwards(prefix), looking)
            },
        },
    }
}

pub open spec fn bare(name: Seq<char>) -> Seq<char> {
    if name.len() > 0 && name[0] == '.' {
        name.drop_first()
    } else {
        name
    }
}

pub open spec fn plain_lookup(
    classes: Seq<&ClassDef>,
    name: Seq<char>,
    scope: Seq<char>,
    looking: nat,
) -> Option<ClassDef>
    decreases going(looking), 2int, scope.len(), 1int,
{
    plain_from(classes, bare(name), scope, looking)
}

/// A member a class inherits rather than declares.
pub open spec fn member_of_base(
    classes: Seq<&ClassDef>,
    name: Seq<char>,
    depth: nat,
    looking: nat,
) -> Option<ClassDef>
    decreases going(looking), 3int, 2 * left(depth) + 1, 0int,
{
    if depth > MAX_DEPTH {
        None
    } else {
        match cut_last(name, '.') {
            Some((holder, member)) => match class_named(classes, holder) {
                Some(owner) => member_of_bases(
                    classes,
                    owner.extends@,
                    holder,
                    member,
                    depth,
                    looking,
                ),
                None => None,
            },
            None => None,
        }
    }
}

/// The same, asked of a list of bases, first come first served.
pub open spec fn member_of_bases(
    classes: Seq<&ClassDef>,
    bases: Seq<Extends>,
    holder: Seq<char>,
    member: Seq<char>,
    depth: nat,
    looking: nat,
) -> Option<ClassDef>
    decreases going(looking), 3int, 2 * left(depth), bases.len(),
{
    if bases.len() == 0 || depth > MAX_DEPTH {
        None
    } else {
        let here = match plain_lookup(classes, bases[0].base@, holder, looking) {
            Some(base) => {
                let reached = dotted(base.name@, member);
                match class_named(classes, reached) {
                    Some(class) => Some(class),
                    None => match through_alias(classes, reached, depth + 1, looking) {
                        Some(class) => Some(class),
                        None => member_of_base(classes, reached, depth + 1, looking),
                    },
                }
            },
            None => None,
        };
        match here {
            Some(class) => Some(class),
            None => member_of_bases(
                classes,
                bases.drop_first(),
                holder,
                member,
                depth,
                looking,
            ),
        }
    }
}

/// A class named through one import list.
pub open spec fn named_import(
    classes: Seq<&ClassDef>,
    head: Seq<char>,
    rest: Option<Seq<char>>,
    imports: Pairs,
    looking: nat,
) -> Option<ClassDef>
    decreases going(looking), 4int, 0int, 0int,
{
    match import_of(imports, head) {
        Some(target) => {
            let qualified = extended(target, rest);
            match class_named(classes, qualified) {
                Some(class) => Some(class),
                None => match through_alias(classes, qualified, 0, looking) {
                    Some(class) => Some(class),
                    None => member_of_base(classes, qualified, 0, looking),
                },
            }
        },
        None => None,
    }
}

/// Whether a class is a wall that a name inside it does not reach past: an
/// encapsulated package, unless it gathers the overloads of an operator.
pub open spec fn is_wall(class: ClassDef) -> bool {
    class.encapsulated && class.kind == ClassKind::Package && !begins_with(
        after_last(class.name@, '.'),
        "'"@,
    )
}

/// The walk out of the enclosing packages.
pub open spec fn walk_out(
    classes: Seq<&ClassDef>,
    name: Seq<char>,
    prefix: Seq<char>,
    looking: nat,
) -> Option<ClassDef>
    decreases going(looking), 5int, prefix.len(), 0int,
{
    let candidate = under(prefix, name);
    let (head, rest) = parted(name);
    match class_named(classes, candidate) {
        Some(class) => Some(class),
        None => match through_alias(classes, candidate, 0, looking) {
            Some(class) => Some(class),
            None => match member_of_base(classes, candidate, 0, looking) {
                Some(class) => Some(class),
                None => {
                    let enclosing = class_named(classes, prefix);
                    let brought = match enclosing {
                        Some(enclosing) => named_import(
                            classes,
                            head,
                            rest,
                            enclosing.imports.deep_view(),
                            looking,
                        ),
                        None => None,
                    };
                    proof {
                        lemma_last_of(prefix, '.');
                    }
                    if brought is Some {
                        brought
                    } else if enclosing is Some && is_wall(enclosing->0) {
                        None
                    } else if prefix.len() == 0 {
                        None
                    } else {
                        walk_out(classes, name, outwards(prefix), looking)
                    }
                },
            },
        },
    }
}

/// The packages opened wholesale, in the order they were.
pub open spec fn wildcard(classes: Seq<&ClassDef>, name: Seq<char>, imports: Pairs) -> Option<
    ClassDef,
>
    decreases imports.len(),
{
    if imports.len() == 0 {
        None
    } else {
        let here = if imports[0].0 == WILDCARD_IMPORT@ {
            class_named(classes, dotted(imports[0].1, name))
        } else {
            None
        };
        match here {
            Some(class) => Some(class),
            None => wildcard(classes, name, imports.drop_first()),
        }
    }
}

/// One step of the search: a leading dot means the global name and nothing
/// else; then an import, then the walk out, then what was opened wholesale.
pub open spec fn lookup_at(
    classes: Seq<&ClassDef>,
    name: Seq<char>,
    scope: Seq<char>,
    imports: Pairs,
    looking: nat,
) -> Option<ClassDef>
    decreases going(looking), 6int, 0int, 0int,
{
    if begins_with(name, "."@) {
        class_named(classes, name.skip(1))
    } else {
        let (head, rest) = parted(name);
        match named_import(classes, head, rest, imports, looking) {
            Some(class) => Some(class),
            None => match walk_out(classes, name, scope, looking) {
                Some(class) => Some(class),
                None => wildcard(classes, name, imports),
            },
        }
    }
}

/// The search, counted: two libraries naming each other would send it round
/// for ever.
pub open spec fn lookup_from(
    classes: Seq<&ClassDef>,
    name: Seq<char>,
    scope: Seq<char>,
    imports: Pairs,
    looking: nat,
) -> Option<ClassDef>
    decreases going(looking), 0int, 0int, 0int,
{
    if looking > MAX_DEPTH {
        None
    } else {
        lookup_at(classes, name, scope, imports, looking + 1)
    }
}

/// What a class name means where it is written.
#[verifier::opaque]
pub open spec fn meaning(
    classes: Seq<&ClassDef>,
    name: Seq<char>,
    scope: Seq<char>,
    imports: Pairs,
) -> Option<ClassDef> {
    lookup_from(classes, name, scope, imports, 0)
}


/// A registry as it is held: a reference to every class in view.
pub type Registry<'a> = Vec<&'a ClassDef>;

/// Whether what was found is what was meant.
pub open spec fn is_it(found: Option<&ClassDef>, meant: Option<ClassDef>) -> bool {
    match (found, meant) {
        (Some(found), Some(meant)) => *found == meant,
        (None, None) => true,
        _ => false,
    }
}

/// The class of that name.
pub fn find_class<'a>(registry: &Registry<'a>, name: &str) -> (r: Option<&'a ClassDef>)
    ensures
        is_it(r, class_named(registry@, name@)),
{
    let wanted: String = name.to_owned();
    let mut i: usize = registry.len();
    assert(registry@.take(i as int) =~= registry@);
    while i > 0
        invariant
            i <= registry.len(),
            wanted@ == name@,
            class_named(registry@, name@) == class_named(registry@.take(i as int), name@),
        decreases i,
    {
        let ghost here = registry@.take(i as int);
        i = i - 1;
        assert(here.drop_last() =~= registry@.take(i as int));
        assert(here.last() == registry@[i as int]);
        if registry[i].name == wanted {
            return Some(registry[i]);
        }
    }
    None
}

/// What the imports make of a local name.
pub fn find_import<'i>(imports: &'i Vec<(String, String)>, local: &str) -> (r: Option<&'i String>)
    ensures
        match r {
            Some(target) => import_of(imports.deep_view(), local@) == Some(target@),
            None => import_of(imports.deep_view(), local@) is None,
        },
{
    let ghost all = imports.deep_view();
    let mut i: usize = 0;
    assert(all.skip(0) =~= all);
    while i < imports.len()
        invariant
            i <= imports.len(),
            all == imports.deep_view(),
            import_of(all, local@) == import_of(all.skip(i as int), local@),
        decreases imports.len() - i,
    {
        assert(all.skip(i as int)[0] == all[i as int]);
        assert(all.skip(i as int).drop_first() =~= all.skip(i + 1));
        if same(imports[i].0.as_str(), local) && !same(imports[i].0.as_str(), WILDCARD_IMPORT) {
            return Some(&imports[i].1);
        }
        i = i + 1;
    }
    None
}

/// The short definition of that name.
pub fn find_alias<'c>(aliases: &'c Vec<ClassAlias>, name: &str) -> (r: Option<&'c ClassAlias>)
    ensures
        match r {
            Some(alias) => alias_named(aliases@, name@) == Some(*alias),
            None => alias_named(aliases@, name@) is None,
        },
{
    let mut i: usize = 0;
    assert(aliases@.skip(0) =~= aliases@);
    while i < aliases.len()
        invariant
            i <= aliases.len(),
            alias_named(aliases@, name@) == alias_named(aliases@.skip(i as int), name@),
        decreases aliases.len() - i,
    {
        assert(aliases@.skip(i as int)[0] == aliases@[i as int]);
        assert(aliases@.skip(i as int).drop_first() =~= aliases@.skip(i + 1));
        if same(aliases[i].name.as_str(), name) && !aliases[i].redeclaration {
            return Some(&aliases[i]);
        }
        i = i + 1;
    }
    None
}

fn name_under(prefix: &str, name: &str) -> (r: String)
    ensures
        r@ == under(prefix@, name@),
{
    if prefix.unicode_len() == 0 {
        name.to_owned()
    } else {
        dot(prefix, name)
    }
}

fn one_out(prefix: &str) -> (r: String)
    ensures
        r@ == outwards(prefix@),
{
    match split_last(prefix, '.') {
        Some((head, _)) => head,
        None => String::new(),
    }
}

fn with_rest(target: &str, rest: &Option<String>) -> (r: String)
    ensures
        r@ == extended(target@, rest.deep_view()),
{
    match rest {
        Some(rest) => dot(target, rest.as_str()),
        None => target.to_owned(),
    }
}

/// The first part of a name, and the rest where there is one.
pub fn part(name: &str) -> (r: (String, Option<String>))
    ensures
        (r.0@, r.1.deep_view()) == parted(name@),
{
    match split_first(name, '.') {
        Some((head, rest)) => (head, Some(rest)),
        None => (name.to_owned(), None),
    }
}

fn find_through_alias<'a>(
    registry: &Registry<'a>,
    name: &str,
    depth: usize,
    looking: usize,
) -> (r: Option<&'a ClassDef>)
    ensures
        is_it(r, through_alias(registry@, name@, depth as nat, looking as nat)),
    decreases going(looking as nat), 1int, 2 * left(depth as nat) + 1, 0int,
{
    if depth > MAX_DEPTH {
        return None;
    }
    proof {
        lemma_last_of(name@, '.');
    }
    let mut cut: usize = match find_last(name, '.') {
        Some(cut) => cut,
        None => {
            return None;
        },
    };
    let len: usize = name.unicode_len();
    loop
        invariant
            depth <= MAX_DEPTH,
            0 <= cut < name@.len(),
            len == name@.len(),
            through_alias(registry@, name@, depth as nat, looking as nat) == alias_before(
                registry@,
                name@,
                cut as int,
                depth as nat,
                looking as nat,
            ),
        decreases cut,
    {
        let holder = name.substring_char(0, cut);
        let rest = name.substring_char(cut + 1, len);
        assert(holder@ =~= name@.take(cut as int));
        assert(rest@ =~= name@.skip(cut + 1));
        if let Some(owner) = find_class(registry, holder) {
            let (member, tail) = part(rest);
            if let Some(alias) = find_alias(&owner.class_aliases, member.as_str()) {
                let target = with_rest(alias.target.as_str(), &tail);
                let found = match look_up(registry, target.as_str(), holder, &owner.imports, looking) {
                    Some(found) => Some(found),
                    None => find_through_alias(registry, target.as_str(), depth + 1, looking),
                };
                if found.is_some() {
                    return found;
                }
            }
        }
        proof {
            lemma_last_of(holder@, '.');
        }
        match find_last(holder, '.') {
            Some(next) => {
                cut = next;
            },
            None => {
                assert(alias_before(registry@, name@, -1, depth as nat, looking as nat) is None);
                return None;
            },
        }
    }
}

fn find_plain<'a>(registry: &Registry<'a>, name: &str, scope: &str, looking: usize) -> (r: Option<
    &'a ClassDef,
>)
    ensures
        is_it(r, plain_lookup(registry@, name@, scope@, looking as nat)),
    decreases going(looking as nat), 2int, scope@.len(), 1int,
{
    proof {
        reveal_strlit(".");
    }
    let stripped = without_head(name, ".");
    let bare_name: String = match stripped {
        Some(rest) => {
            assert(name@.take(1)[0] == '.');
            assert(rest@ =~= name@.drop_first());
            rest
        },
        None => {
            proof {
                if name@.len() > 0 && name@[0] == '.' {
                    assert(name@.take(1) =~= "."@);
                }
            }
            name.to_owned()
        },
    };
    assert(bare_name@ == bare(name@));
    let mut prefix: String = scope.to_owned();
    loop
        invariant
            plain_from(registry@, bare_name@, prefix@, looking as nat) == plain_lookup(
                registry@,
                name@,
                scope@,
                looking as nat,
            ),
        decreases prefix@.len(),
    {
        let candidate = name_under(prefix.as_str(), bare_name.as_str());
        if let Some(class) = find_class(registry, candidate.as_str()) {
            return Some(class);
        }
        if let Some(class) = find_through_alias(registry, candidate.as_str(), 0, looking) {
            return Some(class);
        }
        if prefix.as_str().unicode_len() == 0 {
            return None;
        }
        proof {
            lemma_last_of(prefix@, '.');
        }
        prefix = one_out(prefix.as_str());
    }
}

fn find_in_bases<'a>(registry: &Registry<'a>, name: &str, depth: usize, looking: usize) -> (r:
    Option<&'a ClassDef>)
    ensures
        is_it(r, member_of_base(registry@, name@, depth as nat, looking as nat)),
    decreases going(looking as nat), 3int, 2 * left(depth as nat) + 1, 0int,
{
    if depth > MAX_DEPTH {
        return None;
    }
    let (holder, member) = match split_last(name, '.') {
        Some(cut) => cut,
        None => {
            return None;
        },
    };
    let owner = match find_class(registry, holder.as_str()) {
        Some(owner) => owner,
        None => {
            return None;
        },
    };
    let ghost bases = owner.extends@;
    let mut i: usize = 0;
    assert(bases.skip(0) =~= bases);
    while i < owner.extends.len()
        invariant
            depth <= MAX_DEPTH,
            bases == owner.extends@,
            i <= owner.extends.len(),
            member_of_base(registry@, name@, depth as nat, looking as nat) == member_of_bases(
                registry@,
                bases.skip(i as int),
                holder@,
                member@,
                depth as nat,
                looking as nat,
            ),
        decreases owner.extends.len() - i,
    {
        assert(bases.skip(i as int)[0] == bases[i as int]);
        assert(bases.skip(i as int).drop_first() =~= bases.skip(i + 1));
        if let Some(base) = find_plain(
            registry,
            owner.extends[i].base.as_str(),
            holder.as_str(),
            looking,
        ) {
            let reached = dot(base.name.as_str(), member.as_str());
            if let Some(class) = find_class(registry, reached.as_str()) {
                return Some(class);
            }
            if let Some(class) = find_through_alias(registry, reached.as_str(), depth + 1, looking) {
                return Some(class);
            }
            if let Some(class) = find_in_bases(registry, reached.as_str(), depth + 1, looking) {
                return Some(class);
            }
        }
        i = i + 1;
    }
    None
}

fn find_imported<'a>(
    registry: &Registry<'a>,
    head: &str,
    rest: &Option<String>,
    imports: &Vec<(String, String)>,
    looking: usize,
) -> (r: Option<&'a ClassDef>)
    ensures
        is_it(
            r,
            named_import(
                registry@,
                head@,
                rest.deep_view(),
                imports.deep_view(),
                looking as nat,
            ),
        ),
    decreases going(looking as nat), 4int, 0int, 0int,
{
    let target = match find_import(imports, head) {
        Some(target) => target,
        None => {
            return None;
        },
    };
    let qualified = with_rest(target.as_str(), rest);
    if let Some(class) = find_class(registry, qualified.as_str()) {
        return Some(class);
    }
    if let Some(class) = find_through_alias(registry, qualified.as_str(), 0, looking) {
        return Some(class);
    }
    find_in_bases(registry, qualified.as_str(), 0, looking)
}

fn stops_here(class: &ClassDef) -> (r: bool)
    ensures
        r == is_wall(*class),
{
    let last = tail_of(class.name.as_str(), '.');
    class.encapsulated && class.kind == ClassKind::Package && !starts(last.as_str(), "'")
}

fn find_walking_out<'a>(registry: &Registry<'a>, name: &str, scope: &str, looking: usize) -> (r:
    Option<&'a ClassDef>)
    ensures
        is_it(r, walk_out(registry@, name@, scope@, looking as nat)),
    decreases going(looking as nat), 5int, scope@.len(), 0int,
{
    let (head, rest) = part(name);
    let mut prefix: String = scope.to_owned();
    loop
        invariant
            (head@, rest.deep_view()) == parted(name@),
            walk_out(registry@, name@, prefix@, looking as nat) == walk_out(
                registry@,
                name@,
                scope@,
                looking as nat,
            ),
        decreases prefix@.len(),
    {
        let candidate = name_under(prefix.as_str(), name);
        if let Some(class) = find_class(registry, candidate.as_str()) {
            return Some(class);
        }
        if let Some(class) = find_through_alias(registry, candidate.as_str(), 0, looking) {
            return Some(class);
        }
        if let Some(class) = find_in_bases(registry, candidate.as_str(), 0, looking) {
            return Some(class);
        }
        if let Some(enclosing) = find_class(registry, prefix.as_str()) {
            if let Some(class) = find_imported(
                registry,
                head.as_str(),
                &rest,
                &enclosing.imports,
                looking,
            ) {
                return Some(class);
            }
            if stops_here(enclosing) {
                return None;
            }
        }
        if prefix.as_str().unicode_len() == 0 {
            return None;
        }
        proof {
            lemma_last_of(prefix@, '.');
        }
        prefix = one_out(prefix.as_str());
    }
}

fn find_wildcard<'a>(registry: &Registry<'a>, name: &str, imports: &Vec<(String, String)>) -> (r:
    Option<&'a ClassDef>)
    ensures
        is_it(r, wildcard(registry@, name@, imports.deep_view())),
{
    let ghost all = imports.deep_view();
    let mut i: usize = 0;
    assert(all.skip(0) =~= all);
    while i < imports.len()
        invariant
            i <= imports.len(),
            all == imports.deep_view(),
            wildcard(registry@, name@, all) == wildcard(registry@, name@, all.skip(i as int)),
        decreases imports.len() - i,
    {
        assert(all.skip(i as int)[0] == all[i as int]);
        assert(all.skip(i as int).drop_first() =~= all.skip(i + 1));
        if same(imports[i].0.as_str(), WILDCARD_IMPORT) {
            let candidate = dot(imports[i].1.as_str(), name);
            if let Some(class) = find_class(registry, candidate.as_str()) {
                return Some(class);
            }
        }
        i = i + 1;
    }
    None
}

fn look_at<'a>(
    registry: &Registry<'a>,
    name: &str,
    scope: &str,
    imports: &Vec<(String, String)>,
    looking: usize,
) -> (r: Option<&'a ClassDef>)
    ensures
        is_it(r, lookup_at(registry@, name@, scope@, imports.deep_view(), looking as nat)),
    decreases going(looking as nat), 6int, 0int, 0int,
{
    proof {
        reveal_strlit(".");
    }
    if let Some(global) = without_head(name, ".") {
        assert(global@ =~= name@.skip(1));
        return find_class(registry, global.as_str());
    }
    let (head, rest) = part(name);
    if let Some(class) = find_imported(registry, head.as_str(), &rest, imports, looking) {
        return Some(class);
    }
    if let Some(class) = find_walking_out(registry, name, scope, looking) {
        return Some(class);
    }
    find_wildcard(registry, name, imports)
}

fn look_up<'a>(
    registry: &Registry<'a>,
    name: &str,
    scope: &str,
    imports: &Vec<(String, String)>,
    looking: usize,
) -> (r: Option<&'a ClassDef>)
    ensures
        is_it(r, lookup_from(registry@, name@, scope@, imports.deep_view(), looking as nat)),
    decreases going(looking as nat), 0int, 0int, 0int,
{
    if looking > MAX_DEPTH {
        return None;
    }
    look_at(registry, name, scope, imports, looking + 1)
}

/// Resolve a class name the way Modelica scoping does: an import alias
/// first, then the class's own nested classes, then the enclosing packages
/// from the inside out, then the global name.
///
/// `scope` is the qualified name of the class doing the looking, not its
/// parent, so that a connector declared inside a model is found by the
/// components of that model itself.
pub fn lookup<'a>(
    registry: &Registry<'a>,
    name: &str,
    scope: &str,
    imports: &Vec<(String, String)>,
) -> (r: Option<&'a ClassDef>)
    ensures
        is_it(r, meaning(registry@, name@, scope@, imports.deep_view())),
{
    proof {
        reveal(meaning);
    }
    look_up(registry, name, scope, imports, 0)
}

/// What a name means read out of its scope alone, without imports or what a
/// class inherits.
#[verifier::opaque]
pub open spec fn plain_meaning(classes: Seq<&ClassDef>, name: Seq<char>, scope: Seq<char>) -> Option<
    ClassDef,
> {
    plain_lookup(classes, name, scope, 0)
}

pub fn lookup_plainly<'a>(registry: &Registry<'a>, name: &str, scope: &str) -> (r: Option<
    &'a ClassDef,
>)
    ensures
        is_it(r, plain_meaning(registry@, name@, scope@)),
{
    proof {
        reveal(plain_meaning);
    }
    find_plain(registry, name, scope, 0)
}


/// Whether one of the short definitions gives that name to a connector.
pub open spec fn gives_connector(aliases: Seq<ClassAlias>, member: Seq<char>) -> bool {
    exists|i: int| 0 <= i < aliases.len() && (#[trigger] aliases[i]).name@ == member && aliases[i].connector
}

/// The same, asked of a class that may not be there.
pub open spec fn told_connector(owner: Option<ClassDef>, member: Seq<char>) -> bool {
    match owner {
        Some(owner) => gives_connector(owner.class_aliases@, member),
        None => false,
    }
}

/// The same, asked of the class at a prefix and of every one enclosing it.
pub open spec fn connector_outwards(
    classes: Seq<&ClassDef>,
    name: Seq<char>,
    prefix: Seq<char>,
) -> bool
    decreases prefix.len(),
{
    if told_connector(class_named(classes, prefix), name) {
        true
    } else {
        match cut_last(prefix, '.') {
            Some((head, _)) => {
                proof {
                    lemma_last_of(prefix, '.');
                }
                connector_outwards(classes, name, head)
            },
            None => false,
        }
    }
}

/// What an import list makes of a local name, the name of the packages
/// opened wholesale included.
pub open spec fn brought_as(imports: Pairs, local: Seq<char>) -> Option<Seq<char>>
    decreases imports.len(),
{
    if imports.len() == 0 {
        None
    } else if imports[0].0 == local {
        Some(imports[0].1)
    } else {
        brought_as(imports.drop_first(), local)
    }
}

/// Whether a name is one that a short `connector` definition gave. A dotted
/// name is asked of the class holding it; a plain one of what it was
/// imported as, and otherwise of every class the scope is written inside.
pub open spec fn is_connector_name(
    classes: Seq<&ClassDef>,
    name: Seq<char>,
    scope: Seq<char>,
    imports: Pairs,
) -> bool {
    match cut_last(name, '.') {
        Some((holder, member)) => told_connector(plain_lookup(classes, holder, scope, 0), member),
        None => {
            let brought = match brought_as(imports, name) {
                Some(target) => cut_last(target, '.'),
                None => None,
            };
            match brought {
                Some((holder, member)) => told_connector(
                    plain_lookup(classes, holder, scope, 0),
                    member,
                ),
                None => connector_outwards(classes, name, scope),
            }
        },
    }
}

fn defines_connector(owner: &ClassDef, member: &str) -> (r: bool)
    ensures
        r == gives_connector(owner.class_aliases@, member@),
{
    let aliases = &owner.class_aliases;
    let mut i: usize = 0;
    while i < aliases.len()
        invariant
            i <= aliases.len(),
            aliases == owner.class_aliases,
            forall|k: int|
                0 <= k < i ==> !((#[trigger] aliases@[k]).name@ == member@ && aliases@[k].connector),
        decreases aliases.len() - i,
    {
        if same(aliases[i].name.as_str(), member) && aliases[i].connector {
            return true;
        }
        i = i + 1;
    }
    false
}

fn find_brought<'i>(imports: &'i Vec<(String, String)>, local: &str) -> (r: Option<&'i String>)
    ensures
        match r {
            Some(target) => brought_as(imports.deep_view(), local@) == Some(target@),
            None => brought_as(imports.deep_view(), local@) is None,
        },
{
    let ghost all = imports.deep_view();
    let mut i: usize = 0;
    assert(all.skip(0) =~= all);
    while i < imports.len()
        invariant
            i <= imports.len(),
            all == imports.deep_view(),
            brought_as(all, local@) == brought_as(all.skip(i as int), local@),
        decreases imports.len() - i,
    {
        assert(all.skip(i as int)[0] == all[i as int]);
        assert(all.skip(i as int).drop_first() =~= all.skip(i + 1));
        if same(imports[i].0.as_str(), local) {
            return Some(&imports[i].1);
        }
        i = i + 1;
    }
    None
}

fn holder_defines_connector(
    registry: &Registry,
    holder: &str,
    member: &str,
    scope: &str,
) -> (r: bool)
    ensures
        r == told_connector(plain_lookup(registry@, holder@, scope@, 0), member@),
{
    match find_plain(registry, holder, scope, 0) {
        Some(owner) => defines_connector(owner, member),
        None => false,
    }
}

/// Whether a name is one a short `connector` definition gave to a class of
/// its own: `connector ComplexOutput = output Complex`.
pub fn names_a_connector(
    registry: &Registry,
    name: &str,
    scope: &str,
    imports: &Vec<(String, String)>,
) -> (r: bool)
    ensures
        r == is_connector_name(registry@, name@, scope@, imports.deep_view()),
{
    if let Some((holder, member)) = split_last(name, '.') {
        return holder_defines_connector(registry, holder.as_str(), member.as_str(), scope);
    }
    if let Some(target) = find_brought(imports, name) {
        if let Some((holder, member)) = split_last(target.as_str(), '.') {
            return holder_defines_connector(registry, holder.as_str(), member.as_str(), scope);
        }
    }
    let mut prefix: String = scope.to_owned();
    loop
        invariant
            connector_outwards(registry@, name@, prefix@) == is_connector_name(
                registry@,
                name@,
                scope@,
                imports.deep_view(),
            ),
        decreases prefix@.len(),
    {
        if let Some(owner) = find_class(registry, prefix.as_str()) {
            if defines_connector(owner, name) {
                return true;
            }
        }
        proof {
            lemma_last_of(prefix@, '.');
        }
        match split_last(prefix.as_str(), '.') {
            Some((head, _)) => {
                prefix = head;
            },
            None => {
                return false;
            },
        }
    }
}

/// A name with a leading dot means the global name and nothing else, whatever
/// class it is written in and whatever that class imports.
pub proof fn law_a_leading_dot_is_global(
    classes: Seq<&ClassDef>,
    name: Seq<char>,
    scope: Seq<char>,
    imports: Pairs,
)
    requires
        begins_with(name, "."@),
    ensures
        meaning(classes, name, scope, imports) == class_named(classes, name.skip(1)),
{
    reveal(meaning);
    reveal_with_fuel(lookup_from, 2);
}

/// What an import names is what the name means, whatever the enclosing packages
/// declare under it.
pub proof fn law_an_import_outranks_the_walk(
    classes: Seq<&ClassDef>,
    name: Seq<char>,
    scope: Seq<char>,
    imports: Pairs,
    target: Seq<char>,
    class: ClassDef,
)
    requires
        !begins_with(name, "."@),
        import_of(imports, parted(name).0) == Some(target),
        class_named(classes, extended(target, parted(name).1)) == Some(class),
    ensures
        meaning(classes, name, scope, imports) == Some(class),
{
    reveal(meaning);
    assert(named_import(classes, parted(name).0, parted(name).1, imports, 1) == Some(class));
    assert(lookup_at(classes, name, scope, imports, 1) == Some(class));
}

/// Whether what was found is one of the classes at hand.
pub open spec fn is_at_hand(classes: Seq<&ClassDef>, found: Option<ClassDef>) -> bool {
    found matches Some(class) ==> exists|i: int|
        0 <= i < classes.len() && *(#[trigger] classes[i]) == class
}

proof fn lemma_named_at_hand(classes: Seq<&ClassDef>, name: Seq<char>)
    ensures
        is_at_hand(classes, class_named(classes, name)),
    decreases classes.len(),
{
    if classes.len() > 0 {
        assert(*classes[classes.len() - 1] == *classes.last());
        if classes.last().name@ != name {
            lemma_named_at_hand(classes.drop_last(), name);
            if let Some(class) = class_named(classes, name) {
                let i = choose|i: int|
                    0 <= i < classes.drop_last().len() && *(#[trigger] classes.drop_last()[i])
                        == class;
                assert(*classes[i] == class);
            }
        }
    }
}

proof fn lemma_alias_at_hand(
    classes: Seq<&ClassDef>,
    name: Seq<char>,
    depth: nat,
    looking: nat,
)
    ensures
        is_at_hand(classes, through_alias(classes, name, depth, looking)),
    decreases going(looking), 1int, 2 * left(depth) + 1, 0int,
{
    if depth <= MAX_DEPTH {
        lemma_alias_before_at_hand(classes, name, last_of(name, '.'), depth, looking);
    }
}

proof fn lemma_alias_before_at_hand(
    classes: Seq<&ClassDef>,
    name: Seq<char>,
    cut: int,
    depth: nat,
    looking: nat,
)
    ensures
        is_at_hand(classes, alias_before(classes, name, cut, depth, looking)),
    decreases going(looking), 1int, 2 * left(depth), cut + 1,
{
    if cut < 0 || cut >= name.len() || depth > MAX_DEPTH {
    } else {
        let holder = name.take(cut);
        let rest = name.skip(cut + 1);
        if let Some(owner) = class_named(classes, holder) {
            let (member, tail) = parted(rest);
            if let Some(alias) = alias_named(owner.class_aliases@, member) {
                let target = extended(alias.target@, tail);
                lemma_lookup_at_hand(
                    classes,
                    target,
                    holder,
                    owner.imports.deep_view(),
                    looking,
                );
                lemma_alias_at_hand(classes, target, depth + 1, looking);
            }
        }
        lemma_last_of(holder, '.');
        lemma_alias_before_at_hand(classes, name, last_of(holder, '.'), depth, looking);
    }
}

proof fn lemma_plain_at_hand(
    classes: Seq<&ClassDef>,
    name: Seq<char>,
    prefix: Seq<char>,
    looking: nat,
)
    ensures
        is_at_hand(classes, plain_from(classes, name, prefix, looking)),
    decreases going(looking), 2int, prefix.len(), 0int,
{
    let candidate = under(prefix, name);
    lemma_named_at_hand(classes, candidate);
    lemma_alias_at_hand(classes, candidate, 0, looking);
    if prefix.len() > 0 {
        lemma_last_of(prefix, '.');
        lemma_plain_at_hand(classes, name, outwards(prefix), looking);
    }
}

proof fn lemma_member_at_hand(classes: Seq<&ClassDef>, name: Seq<char>, depth: nat, looking: nat)
    ensures
        is_at_hand(classes, member_of_base(classes, name, depth, looking)),
    decreases going(looking), 3int, 2 * left(depth) + 1, 0int,
{
    if depth <= MAX_DEPTH {
        if let Some((holder, member)) = cut_last(name, '.') {
            if let Some(owner) = class_named(classes, holder) {
                lemma_members_at_hand(classes, owner.extends@, holder, member, depth, looking);
            }
        }
    }
}

proof fn lemma_members_at_hand(
    classes: Seq<&ClassDef>,
    bases: Seq<Extends>,
    holder: Seq<char>,
    member: Seq<char>,
    depth: nat,
    looking: nat,
)
    ensures
        is_at_hand(classes, member_of_bases(classes, bases, holder, member, depth, looking)),
    decreases going(looking), 3int, 2 * left(depth), bases.len(),
{
    if bases.len() == 0 || depth > MAX_DEPTH {
    } else {
        if let Some(base) = plain_lookup(classes, bases[0].base@, holder, looking) {
            let reached = dotted(base.name@, member);
            lemma_named_at_hand(classes, reached);
            lemma_alias_at_hand(classes, reached, depth + 1, looking);
            lemma_member_at_hand(classes, reached, depth + 1, looking);
        }
        lemma_members_at_hand(classes, bases.drop_first(), holder, member, depth, looking);
    }
}

proof fn lemma_import_at_hand(
    classes: Seq<&ClassDef>,
    head: Seq<char>,
    rest: Option<Seq<char>>,
    imports: Pairs,
    looking: nat,
)
    ensures
        is_at_hand(classes, named_import(classes, head, rest, imports, looking)),
    decreases going(looking), 4int, 0int, 0int,
{
    if let Some(target) = import_of(imports, head) {
        let qualified = extended(target, rest);
        lemma_named_at_hand(classes, qualified);
        lemma_alias_at_hand(classes, qualified, 0, looking);
        lemma_member_at_hand(classes, qualified, 0, looking);
    }
}

proof fn lemma_walk_at_hand(
    classes: Seq<&ClassDef>,
    name: Seq<char>,
    prefix: Seq<char>,
    looking: nat,
)
    ensures
        is_at_hand(classes, walk_out(classes, name, prefix, looking)),
    decreases going(looking), 5int, prefix.len(), 0int,
{
    let candidate = under(prefix, name);
    let (head, rest) = parted(name);
    lemma_named_at_hand(classes, candidate);
    lemma_alias_at_hand(classes, candidate, 0, looking);
    lemma_member_at_hand(classes, candidate, 0, looking);
    if let Some(enclosing) = class_named(classes, prefix) {
        lemma_import_at_hand(classes, head, rest, enclosing.imports.deep_view(), looking);
    }
    if prefix.len() > 0 {
        lemma_last_of(prefix, '.');
        lemma_walk_at_hand(classes, name, outwards(prefix), looking);
    }
}

proof fn lemma_opened_at_hand(classes: Seq<&ClassDef>, name: Seq<char>, imports: Pairs)
    ensures
        is_at_hand(classes, wildcard(classes, name, imports)),
    decreases imports.len(),
{
    if imports.len() > 0 {
        lemma_named_at_hand(classes, dotted(imports[0].1, name));
        lemma_opened_at_hand(classes, name, imports.drop_first());
    }
}

proof fn lemma_lookup_at_hand(
    classes: Seq<&ClassDef>,
    name: Seq<char>,
    scope: Seq<char>,
    imports: Pairs,
    looking: nat,
)
    ensures
        is_at_hand(classes, lookup_from(classes, name, scope, imports, looking)),
    decreases going(looking), 0int, 0int, 0int,
{
    if looking <= MAX_DEPTH {
        lemma_named_at_hand(classes, name.skip(1));
        let (head, rest) = parted(name);
        lemma_import_at_hand(classes, head, rest, imports, looking + 1);
        lemma_walk_at_hand(classes, name, scope, looking + 1);
        lemma_opened_at_hand(classes, name, imports);
        assert(is_at_hand(classes, lookup_at(classes, name, scope, imports, looking + 1)));
    }
}

/// What a name is found to mean is one of the classes at hand, by its scope
/// alone or with all that a class imports and inherits: nothing is made up on
/// the way.
pub proof fn law_what_is_found_is_at_hand(
    classes: Seq<&ClassDef>,
    name: Seq<char>,
    scope: Seq<char>,
    imports: Pairs,
)
    ensures
        is_at_hand(classes, meaning(classes, name, scope, imports)),
        is_at_hand(classes, plain_meaning(classes, name, scope)),
{
    reveal(meaning);
    reveal(plain_meaning);
    lemma_lookup_at_hand(classes, name, scope, imports, 0);
    lemma_plain_at_hand(classes, bare(name), scope, 0);
}

/// A name that an encapsulated package neither declares, inherits nor imports
/// is not looked for outside it.
pub proof fn law_nothing_reaches_past_a_wall(
    classes: Seq<&ClassDef>,
    name: Seq<char>,
    prefix: Seq<char>,
    looking: nat,
    package: ClassDef,
)
    requires
        class_named(classes, prefix) == Some(package),
        is_wall(package),
        class_named(classes, under(prefix, name)) is None,
        through_alias(classes, under(prefix, name), 0, looking) is None,
        member_of_base(classes, under(prefix, name), 0, looking) is None,
        named_import(
            classes,
            parted(name).0,
            parted(name).1,
            package.imports.deep_view(),
            looking,
        ) is None,
    ensures
        walk_out(classes, name, prefix, looking) is None,
{
}

}
