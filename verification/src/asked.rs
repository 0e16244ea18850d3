//! The name a body was asked for: what the class alone cannot say.
//!
//! A function is written once in a partial package and called through a
//! package that extends it. Its body then asks for names under the package
//! that wrote it, where the one it was called through is meant. What was
//! called through is carried along as a mark, and every question about it is
//! asked only where the mark descends from the package in question.
use crate::class::{ClassDef, ClassKind, MAX_DEPTH};
use crate::lookup::{
    class_named, find_class, is_it, left, lookup, lookup_plainly, meaning, plain_meaning, Pairs,
    Registry,
};
use crate::text::{cut_last, same, split_last};
use vstd::prelude::*;

verus! {

/// Whether one class reaches another by extending it, however many steps away.
pub open spec fn descends(classes: Seq<&ClassDef>, from: Seq<char>, wanted: Seq<char>, depth: nat) -> bool
    decreases left(depth), 0nat,
{
    if from == wanted {
        true
    } else if depth > MAX_DEPTH {
        false
    } else {
        match class_named(classes, from) {
            Some(class) => bases_descend(classes, class, class.extends@.len(), wanted, depth + 1),
            None => false,
        }
    }
}

/// The same of one of the first `n` bases of a class.
pub open spec fn bases_descend(
    classes: Seq<&ClassDef>,
    class: ClassDef,
    n: nat,
    wanted: Seq<char>,
    depth: nat,
) -> bool
    decreases left(depth), n + 1,
{
    if n == 0 || n > class.extends@.len() {
        false
    } else {
        bases_descend(classes, class, (n - 1) as nat, wanted, depth) || match plain_meaning(
            classes,
            class.extends@[n - 1].base@,
            class.name@,
        ) {
            Some(base) => descends(classes, base.name@, wanted, depth),
            None => false,
        }
    }
}

proof fn lemma_bases_descend(
    classes: Seq<&ClassDef>,
    class: ClassDef,
    n: nat,
    all: nat,
    wanted: Seq<char>,
    depth: nat,
)
    requires
        n <= all <= class.extends@.len(),
        bases_descend(classes, class, n, wanted, depth),
    ensures
        bases_descend(classes, class, all, wanted, depth),
    decreases all,
{
    if n < all {
        lemma_bases_descend(classes, class, n, (all - 1) as nat, wanted, depth);
    }
}

/// Whether one class reaches another by extending it.
pub fn reaches(registry: &Registry, from: &str, wanted: &str, depth: usize) -> (r: bool)
    ensures
        r == descends(registry@, from@, wanted@, depth as nat),
    decreases left(depth as nat),
{
    if same(from, wanted) {
        return true;
    }
    if depth > MAX_DEPTH {
        return false;
    }
    let class = match find_class(registry, from) {
        Some(class) => class,
        None => return false,
    };
    let mut i: usize = 0;
    while i < class.extends.len()
        invariant
            depth <= MAX_DEPTH,
            i <= class.extends.len(),
            from@ != wanted@,
            class_named(registry@, from@) == Some(*class),
            !bases_descend(registry@, *class, i as nat, wanted@, (depth + 1) as nat),
        decreases class.extends.len() - i,
    {
        if let Some(base) = lookup_plainly(
            registry,
            class.extends[i].base.as_str(),
            class.name.as_str(),
        ) {
            if reaches(registry, base.name.as_str(), wanted, depth + 1) {
                proof {
                    lemma_bases_descend(
                        registry@,
                        *class,
                        (i + 1) as nat,
                        class.extends@.len(),
                        wanted@,
                        (depth + 1) as nat,
                    );
                }
                return true;
            }
        }
        i = i + 1;
    }
    false
}

/// The scope a body is being worked out under: what it was asked as, where
/// that is known, and the class that wrote it otherwise.
pub open spec fn scope_asked(class: ClassDef, mark: Option<Seq<char>>) -> Seq<char> {
    match mark {
        Some(under) => under,
        None => class.name@,
    }
}

/// The scope a body is being worked out under.
pub fn asked_under(class: &ClassDef, mark: &Option<String>) -> (r: String)
    ensures
        r@ == scope_asked(*class, mark.deep_view()),
{
    match mark {
        Some(under) => under.clone(),
        None => class.name.clone(),
    }
}

/// Whether a record keeps a place for another to fill: one with no fields at
/// all, or one that adds to whatever the class below it says.
pub open spec fn keeps_a_place(record: ClassDef) -> bool {
    record.kind == ClassKind::Record && (record.components@.len() == 0 || exists|i: int|
        0 <= i < record.extends@.len() && (#[trigger] record.extends@[i]).from_base)
}

/// The record a class keeps a place for, as the class asked under redeclared
/// it.
pub open spec fn record_meant(
    classes: Seq<&ClassDef>,
    record: ClassDef,
    mark: Option<Seq<char>>,
) -> ClassDef {
    let under = scope_asked(record, mark);
    if keeps_a_place(record) && under != record.name@ {
        match cut_last(record.name@, '.') {
            Some((_, tail)) => match meaning(classes, tail, under, record.imports.deep_view()) {
                Some(found) => if found.kind == ClassKind::Record && found.name@ != record.name@ {
                    found
                } else {
                    record
                },
                None => record,
            },
            None => record,
        }
    } else {
        record
    }
}

fn does_keep_a_place(record: &ClassDef) -> (r: bool)
    ensures
        r == keeps_a_place(*record),
{
    if record.kind != ClassKind::Record {
        return false;
    }
    if record.components.len() == 0 {
        return true;
    }
    let mut i: usize = 0;
    while i < record.extends.len()
        invariant
            i <= record.extends.len(),
            record.kind == ClassKind::Record,
            record.components@.len() > 0,
            forall|k: int| 0 <= k < i ==> !(#[trigger] record.extends@[k]).from_base,
        decreases record.extends.len() - i,
    {
        if record.extends[i].from_base {
            assert(record.extends@[i as int].from_base);
            return true;
        }
        i = i + 1;
    }
    false
}

/// The record a class keeps a place for, as the class asked under redeclared
/// it: a body of the base building that record has to build the package's
/// own, or it builds a record with nothing in it.
pub fn record_asked_under<'a>(
    record: &'a ClassDef,
    registry: &Registry<'a>,
    mark: &Option<String>,
) -> (r: &'a ClassDef)
    ensures
        *r == record_meant(registry@, *record, mark.deep_view()),
{
    if !does_keep_a_place(record) {
        return record;
    }
    let under = asked_under(record, mark);
    if same(under.as_str(), record.name.as_str()) {
        return record;
    }
    match split_last(record.name.as_str(), '.') {
        Some((_, tail)) => match lookup(registry, tail.as_str(), under.as_str(), &record.imports) {
            Some(found) => if found.kind == ClassKind::Record && !same(
                found.name.as_str(),
                record.name.as_str(),
            ) {
                found
            } else {
                record
            },
            None => record,
        },
        None => record,
    }
}

/// The function a call really means, where the name it was asked under
/// redeclared what the class it resolved to declares.
pub open spec fn function_meant(
    classes: Seq<&ClassDef>,
    class: ClassDef,
    mark: Option<Seq<char>>,
) -> ClassDef {
    match (mark, cut_last(class.name@, '.')) {
        (Some(under), Some((wrote, tail))) => if class.kind == ClassKind::Function && under != wrote
            && descends(classes, under, wrote, 0) {
            match meaning(classes, tail, under, class.imports.deep_view()) {
                Some(found) => if found.kind == ClassKind::Function && found.name@ != class.name@ {
                    found
                } else {
                    class
                },
                None => class,
            }
        } else {
            class
        },
        _ => class,
    }
}

/// The function a call really means: asked under a package, the package's
/// own function is what the call means, and everything about it - the
/// inputs, the body - is read from that one class.
pub fn function_asked_under<'a>(
    class: &'a ClassDef,
    registry: &Registry<'a>,
    mark: &Option<String>,
) -> (r: &'a ClassDef)
    ensures
        *r == function_meant(registry@, *class, mark.deep_view()),
{
    if class.kind != ClassKind::Function {
        return class;
    }
    let under = match mark {
        Some(under) => under,
        None => return class,
    };
    let (wrote, tail) = match split_last(class.name.as_str(), '.') {
        Some(cut) => cut,
        None => return class,
    };
    if same(under.as_str(), wrote.as_str()) || !reaches(
        registry,
        under.as_str(),
        wrote.as_str(),
        0,
    ) {
        return class;
    }
    match lookup(registry, tail.as_str(), under.as_str(), &class.imports) {
        Some(found) => if found.kind == ClassKind::Function && !same(
            found.name.as_str(),
            class.name.as_str(),
        ) {
            found
        } else {
            class
        },
        None => class,
    }
}

/// A name looked for once more under the name the body was reached by, where
/// that is a relative of the class the body belongs to.
pub open spec fn meaning_asked(
    classes: Seq<&ClassDef>,
    name: Seq<char>,
    scope: Seq<char>,
    imports: Pairs,
    mark: Option<Seq<char>>,
) -> Option<ClassDef> {
    match (mark, cut_last(scope, '.')) {
        (Some(under), Some((package, _))) => if under != scope && descends(
            classes,
            under,
            package,
            0,
        ) {
            meaning(classes, name, under, imports)
        } else {
            None
        },
        _ => None,
    }
}

/// A name that could not be found where it was written, looked for once more
/// under the name the body was reached by. Only the one name already in hand
/// is tried.
pub fn found_under_the_asked_name<'a>(
    registry: &Registry<'a>,
    name: &str,
    scope: &str,
    imports: &Vec<(String, String)>,
    mark: &Option<String>,
) -> (r: Option<&'a ClassDef>)
    ensures
        is_it(r, meaning_asked(registry@, name@, scope@, imports.deep_view(), mark.deep_view())),
{
    let under = match mark {
        Some(under) => under,
        None => return None,
    };
    if same(under.as_str(), scope) {
        return None;
    }
    let (package, _) = match split_last(scope, '.') {
        Some(cut) => cut,
        None => return None,
    };
    if !reaches(registry, under.as_str(), package.as_str(), 0) {
        return None;
    }
    lookup(registry, name, under.as_str(), imports)
}

/// The package on the mark, where it descends from the one that declared what
/// is being asked.
pub open spec fn package_asked(
    classes: Seq<&ClassDef>,
    owner: Seq<char>,
    mark: Option<Seq<char>>,
) -> Option<Seq<char>> {
    match mark {
        Some(under) => if under != owner && descends(classes, under, owner, 0) {
            match class_named(classes, under) {
                Some(found) => if found.kind == ClassKind::Package {
                    Some(under)
                } else {
                    None
                },
                None => None,
            }
        } else {
            None
        },
        None => None,
    }
}

/// The package on the mark, where it descends from the one that declared what
/// is being asked: a mark left standing by an unrelated caller says nothing
/// about a name of this package.
pub fn asked_as_package(registry: &Registry, owner: &str, mark: &Option<String>) -> (r: Option<
    String,
>)
    ensures
        r.deep_view() == package_asked(registry@, owner@, mark.deep_view()),
{
    let under = match mark {
        Some(under) => under,
        None => return None,
    };
    if same(under.as_str(), owner) || !reaches(registry, under.as_str(), owner, 0) {
        return None;
    }
    match find_class(registry, under.as_str()) {
        Some(found) => if found.kind == ClassKind::Package {
            Some(under.clone())
        } else {
            None
        },
        None => None,
    }
}

/// The mark that a written path leaves: the class its head names, where that
/// is not the class that was found.
pub open spec fn mark_resolving(
    classes: Seq<&ClassDef>,
    written: Seq<char>,
    found: ClassDef,
    scope: Seq<char>,
    imports: Pairs,
) -> Option<Seq<char>> {
    match cut_last(written, '.') {
        Some((head, _)) => match meaning(classes, head, scope, imports) {
            Some(named) => if found.name@ == named.name@ {
                None
            } else {
                Some(named.name@)
            },
            None => None,
        },
        None => None,
    }
}

/// The name a written path was asked as, where resolving it walked out of the
/// class that was named: the head is the package that the bases of what was
/// found are about to climb out of.
pub fn resolving(
    registry: &Registry,
    written: &str,
    found: &ClassDef,
    scope: &str,
    imports: &Vec<(String, String)>,
) -> (r: Option<String>)
    ensures
        r.deep_view() == mark_resolving(
            registry@,
            written@,
            *found,
            scope@,
            imports.deep_view(),
        ),
{
    let (head, _) = match split_last(written, '.') {
        Some(cut) => cut,
        None => return None,
    };
    match lookup(registry, head.as_str(), scope, imports) {
        Some(named) => if same(found.name.as_str(), named.name.as_str()) {
            None
        } else {
            Some(named.name.clone())
        },
        None => None,
    }
}

/// A mark that is no relative of the class in question changes nothing: the
/// function is the one that was found, and nothing is found that was not.
pub proof fn law_a_stranger_says_nothing(
    classes: Seq<&ClassDef>,
    class: ClassDef,
    name: Seq<char>,
    imports: Pairs,
    under: Seq<char>,
    wrote: Seq<char>,
)
    requires
        cut_last(class.name@, '.') matches Some((package, _)) && package == wrote,
        !descends(classes, under, wrote, 0),
    ensures
        function_meant(classes, class, Some(under)) == class,
        meaning_asked(classes, name, class.name@, imports, Some(under)) is None,
        package_asked(classes, wrote, Some(under)) is None,
{
}

}
