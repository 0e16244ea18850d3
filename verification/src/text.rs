//! Reading and writing the text of names and messages.
//!
//! A name is a sequence of characters. Its parts are separated by dots, and
//! the questions asked of it are where the first and the last dot stand, what
//! lies on either side, and whether two names are the same.
use vstd::prelude::*;

verus! {

/// The position of the first `c` in `s`, or the length of `s` where there is none.
pub open spec fn first_of(s: Seq<char>, c: char) -> int
    decreases s.len(),
{
    if s.len() == 0 {
        0
    } else if s[0] == c {
        0
    } else {
        1 + first_of(s.drop_first(), c)
    }
}

/// The position of the last `c` in `s`, or `-1` where there is none.
pub open spec fn last_of(s: Seq<char>, c: char) -> int
    decreases s.len(),
{
    if s.len() == 0 {
        -1
    } else if s.last() == c {
        s.len() - 1
    } else {
        last_of(s.drop_last(), c)
    }
}

/// `s` cut at its first `c`: what comes before and what comes after.
pub open spec fn cut_first(s: Seq<char>, c: char) -> Option<(Seq<char>, Seq<char>)> {
    let at = first_of(s, c);
    if at < s.len() {
        Some((s.take(at), s.skip(at + 1)))
    } else {
        None
    }
}

/// `s` cut at its last `c`: what comes before and what comes after.
pub open spec fn cut_last(s: Seq<char>, c: char) -> Option<(Seq<char>, Seq<char>)> {
    let at = last_of(s, c);
    if at >= 0 {
        Some((s.take(at), s.skip(at + 1)))
    } else {
        None
    }
}

/// What comes before the first `c`, or the whole of `s` where there is none.
pub open spec fn until_first(s: Seq<char>, c: char) -> Seq<char> {
    s.take(first_of(s, c))
}

/// What comes after the last `c`, or the whole of `s` where there is none.
pub open spec fn after_last(s: Seq<char>, c: char) -> Seq<char> {
    s.skip(last_of(s, c) + 1)
}

pub open spec fn begins_with(s: Seq<char>, head: Seq<char>) -> bool {
    s.len() >= head.len() && s.take(head.len() as int) == head
}

pub open spec fn closes_with(s: Seq<char>, tail: Seq<char>) -> bool {
    s.len() >= tail.len() && s.skip(s.len() - tail.len()) == tail
}

/// The decimal digits of a natural number, without leading zeros.
pub open spec fn digits(n: nat) -> Seq<char>
    decreases n,
{
    if n < 10 {
        seq![digit(n)]
    } else {
        digits(n / 10).push(digit(n % 10))
    }
}

pub open spec fn digit(n: nat) -> char {
    (48 + n) as char
}

/// An integer as it is written: its digits, after a minus sign where it is negative.
pub open spec fn signed(n: int) -> Seq<char> {
    if n < 0 {
        seq!['-'] + digits((-n) as nat)
    } else {
        digits(n as nat)
    }
}

/// The list's items one after another, with `between` between every two.
pub open spec fn joined(items: Seq<Seq<char>>, between: Seq<char>) -> Seq<char>
    decreases items.len(),
{
    if items.len() == 0 {
        Seq::empty()
    } else if items.len() == 1 {
        items[0]
    } else {
        joined(items.drop_last(), between) + between + items.last()
    }
}

/// The texts of a list of strings.
pub open spec fn texts(items: Seq<String>) -> Seq<Seq<char>> {
    Seq::new(items.len(), |i: int| items[i]@)
}

pub proof fn lemma_first_of(s: Seq<char>, c: char)
    ensures
        0 <= first_of(s, c) <= s.len(),
        first_of(s, c) < s.len() ==> s[first_of(s, c)] == c,
        forall|i: int| 0 <= i < first_of(s, c) ==> s[i] != c,
    decreases s.len(),
{
    if s.len() > 0 && s[0] != c {
        lemma_first_of(s.drop_first(), c);
        assert forall|i: int| 0 <= i < first_of(s, c) implies s[i] != c by {
            if i > 0 {
                assert(s[i] == s.drop_first()[i - 1]);
            }
        }
    }
}

pub proof fn lemma_last_of(s: Seq<char>, c: char)
    ensures
        -1 <= last_of(s, c) < s.len(),
        last_of(s, c) >= 0 ==> s[last_of(s, c)] == c,
        forall|i: int| last_of(s, c) < i < s.len() ==> s[i] != c,
    decreases s.len(),
{
    if s.len() > 0 && s.last() != c {
        lemma_last_of(s.drop_last(), c);
        assert forall|i: int| last_of(s, c) < i < s.len() implies s[i] != c by {
            if i < s.len() - 1 {
                assert(s[i] == s.drop_last()[i]);
            }
        }
    }
}

/// The first place is the only one with the character there and nowhere before it.
pub proof fn lemma_first_of_is(s: Seq<char>, c: char, at: int)
    requires
        0 <= at <= s.len(),
        at < s.len() ==> s[at] == c,
        forall|i: int| 0 <= i < at ==> s[i] != c,
    ensures
        first_of(s, c) == at,
{
    lemma_first_of(s, c);
    let found = first_of(s, c);
    if found < at {
        assert(s[found] != c);
    }
}

/// The last place is the only one with the character there and nowhere after it.
pub proof fn lemma_last_of_is(s: Seq<char>, c: char, at: int)
    requires
        -1 <= at < s.len(),
        at >= 0 ==> s[at] == c,
        forall|i: int| at < i < s.len() ==> s[i] != c,
    ensures
        last_of(s, c) == at,
{
    lemma_last_of(s, c);
    let found = last_of(s, c);
    if found > at {
        assert(s[found] != c);
    }
}

/// Cutting a name at its last separator and putting the two parts back
/// together round it gives the name again.
pub proof fn law_cut_last_joins_back(s: Seq<char>, c: char)
    ensures
        match cut_last(s, c) {
            Some((before, after)) => before.push(c) + after == s && last_of(after, c) == -1,
            None => last_of(s, c) == -1,
        },
{
    lemma_last_of(s, c);
    let at = last_of(s, c);
    if at >= 0 {
        assert(s.take(at).push(c) + s.skip(at + 1) =~= s);
        let after = s.skip(at + 1);
        assert forall|i: int| -1 < i < after.len() implies after[i] != c by {
            assert(after[i] == s[at + 1 + i]);
        }
        lemma_last_of_is(after, c, -1);
    }
}

/// Cutting a name at its first separator and putting the two parts back
/// together round it gives the name again.
pub proof fn law_cut_first_joins_back(s: Seq<char>, c: char)
    ensures
        match cut_first(s, c) {
            Some((before, after)) => before.push(c) + after == s && first_of(before, c)
                == before.len(),
            None => first_of(s, c) == s.len(),
        },
{
    lemma_first_of(s, c);
    let at = first_of(s, c);
    if at < s.len() {
        assert(s.take(at).push(c) + s.skip(at + 1) =~= s);
        let before = s.take(at);
        assert forall|i: int| 0 <= i < before.len() implies before[i] != c by {
            assert(before[i] == s[i]);
        }
        lemma_first_of_is(before, c, before.len() as int);
    }
}

/// Whether two texts are the same.
pub fn same(a: &str, b: &str) -> (r: bool)
    ensures
        r == (a@ == b@),
{
    a.to_owned() == b.to_owned()
}

/// Where the first `c` stands, or the length where there is none.
pub fn find_first(s: &str, c: char) -> (r: usize)
    ensures
        r == first_of(s@, c),
{
    let n: usize = s.unicode_len();
    let mut at: usize = 0;
    let mut found: Option<usize> = None;
    for x in it: s.chars()
        invariant
            n == s@.len(),
            it.seq() == s@,
            at == it.index(),
            match found {
                Some(k) => k < at && s@[k as int] == c && forall|i: int| 0 <= i < k ==> s@[i] != c,
                None => forall|i: int| 0 <= i < at ==> s@[i] != c,
            },
    {
        if found.is_none() && x == c {
            found = Some(at);
        }
        at = at + 1;
    }
    match found {
        Some(k) => {
            proof {
                lemma_first_of_is(s@, c, k as int);
            }
            k
        },
        None => {
            proof {
                lemma_first_of_is(s@, c, s@.len() as int);
            }
            n
        },
    }
}

/// Where the last `c` stands, if it does.
pub fn find_last(s: &str, c: char) -> (r: Option<usize>)
    ensures
        match r {
            Some(at) => at == last_of(s@, c),
            None => last_of(s@, c) == -1,
        },
{
    let n: usize = s.unicode_len();
    let mut at: usize = 0;
    let mut found: Option<usize> = None;
    for x in it: s.chars()
        invariant
            n == s@.len(),
            it.seq() == s@,
            at == it.index(),
            match found {
                Some(k) => k < at && s@[k as int] == c && forall|i: int|
                    k < i < at ==> s@[i] != c,
                None => forall|i: int| 0 <= i < at ==> s@[i] != c,
            },
    {
        if x == c {
            found = Some(at);
        }
        at = at + 1;
    }
    proof {
        match found {
            Some(k) => lemma_last_of_is(s@, c, k as int),
            None => lemma_last_of_is(s@, c, -1),
        }
    }
    found
}

/// The two sides of the first `c`.
pub fn split_first(s: &str, c: char) -> (r: Option<(String, String)>)
    ensures
        match r {
            Some((before, after)) => cut_first(s@, c) == Some((before@, after@)),
            None => cut_first(s@, c) is None,
        },
{
    let n: usize = s.unicode_len();
    let at: usize = find_first(s, c);
    proof {
        lemma_first_of(s@, c);
    }
    if at < n {
        let before = s.substring_char(0, at);
        let after = s.substring_char(at + 1, n);
        assert(before@ =~= s@.take(at as int));
        assert(after@ =~= s@.skip(at + 1));
        Some((before.to_owned(), after.to_owned()))
    } else {
        None
    }
}

/// The two sides of the last `c`.
pub fn split_last(s: &str, c: char) -> (r: Option<(String, String)>)
    ensures
        match r {
            Some((before, after)) => cut_last(s@, c) == Some((before@, after@)),
            None => cut_last(s@, c) is None,
        },
{
    let n: usize = s.unicode_len();
    proof {
        lemma_last_of(s@, c);
    }
    match find_last(s, c) {
        Some(at) => {
            let before = s.substring_char(0, at);
            let after = s.substring_char(at + 1, n);
            assert(before@ =~= s@.take(at as int));
            assert(after@ =~= s@.skip(at + 1));
            Some((before.to_owned(), after.to_owned()))
        },
        None => None,
    }
}

/// What comes before the first `c`, or everything.
pub fn head_of(s: &str, c: char) -> (r: String)
    ensures
        r@ == until_first(s@, c),
{
    let at: usize = find_first(s, c);
    proof {
        lemma_first_of(s@, c);
    }
    let before = s.substring_char(0, at);
    assert(before@ =~= s@.take(at as int));
    before.to_owned()
}

/// What comes after the last `c`, or everything.
pub fn tail_of(s: &str, c: char) -> (r: String)
    ensures
        r@ == after_last(s@, c),
{
    let n: usize = s.unicode_len();
    proof {
        lemma_last_of(s@, c);
    }
    match find_last(s, c) {
        Some(at) => {
            let after = s.substring_char(at + 1, n);
            assert(after@ =~= s@.skip(at + 1));
            after.to_owned()
        },
        None => {
            assert(s@ =~= s@.skip(0));
            s.to_owned()
        },
    }
}

/// Whether `s` begins with `head`.
pub fn starts(s: &str, head: &str) -> (r: bool)
    ensures
        r == begins_with(s@, head@),
{
    let n: usize = s.unicode_len();
    let m: usize = head.unicode_len();
    if n < m {
        return false;
    }
    let front = s.substring_char(0, m);
    assert(front@ =~= s@.take(m as int));
    same(front, head)
}

/// What is left of `s` after `head`, where it begins with that.
pub fn without_head(s: &str, head: &str) -> (r: Option<String>)
    ensures
        match r {
            Some(rest) => begins_with(s@, head@) && rest@ == s@.skip(head@.len() as int),
            None => !begins_with(s@, head@),
        },
{
    let n: usize = s.unicode_len();
    let m: usize = head.unicode_len();
    if starts(s, head) {
        let rest = s.substring_char(m, n);
        assert(rest@ =~= s@.skip(m as int));
        Some(rest.to_owned())
    } else {
        None
    }
}

/// Whether `s` ends with `tail`.
pub fn ends(s: &str, tail: &str) -> (r: bool)
    ensures
        r == closes_with(s@, tail@),
{
    let n: usize = s.unicode_len();
    let m: usize = tail.unicode_len();
    if n < m {
        return false;
    }
    let back = s.substring_char(n - m, n);
    assert(back@ =~= s@.skip(n - m));
    same(back, tail)
}

pub fn join2(a: &str, b: &str) -> (r: String)
    ensures
        r@ == a@ + b@,
{
    let mut out: String = a.to_owned();
    out.append(b);
    out
}

pub fn join3(a: &str, b: &str, c: &str) -> (r: String)
    ensures
        r@ == a@ + b@ + c@,
{
    let mut out: String = join2(a, b);
    out.append(c);
    out
}

pub fn join4(a: &str, b: &str, c: &str, d: &str) -> (r: String)
    ensures
        r@ == a@ + b@ + c@ + d@,
{
    let mut out: String = join3(a, b, c);
    out.append(d);
    out
}

pub fn join5(a: &str, b: &str, c: &str, d: &str, e: &str) -> (r: String)
    ensures
        r@ == a@ + b@ + c@ + d@ + e@,
{
    let mut out: String = join4(a, b, c, d);
    out.append(e);
    out
}

pub fn join7(a: &str, b: &str, c: &str, d: &str, e: &str, f: &str, g: &str) -> (r: String)
    ensures
        r@ == a@ + b@ + c@ + d@ + e@ + f@ + g@,
{
    let mut out: String = join5(a, b, c, d, e);
    out.append(f);
    out.append(g);
    out
}

/// `outer.inner`, the name of a part inside something.
pub open spec fn dotted(outer: Seq<char>, inner: Seq<char>) -> Seq<char> {
    outer + "."@ + inner
}

pub fn dot(outer: &str, inner: &str) -> (r: String)
    ensures
        r@ == dotted(outer@, inner@),
{
    join3(outer, ".", inner)
}

/// One decimal digit.
pub fn one_digit(n: u64) -> (r: String)
    requires
        n < 10,
    ensures
        r@ == seq![digit(n as nat)],
{
    proof {
        reveal_strlit("0");
        reveal_strlit("1");
        reveal_strlit("2");
        reveal_strlit("3");
        reveal_strlit("4");
        reveal_strlit("5");
        reveal_strlit("6");
        reveal_strlit("7");
        reveal_strlit("8");
        reveal_strlit("9");
    }
    let out: String = match n {
        0 => "0".to_owned(),
        1 => "1".to_owned(),
        2 => "2".to_owned(),
        3 => "3".to_owned(),
        4 => "4".to_owned(),
        5 => "5".to_owned(),
        6 => "6".to_owned(),
        7 => "7".to_owned(),
        8 => "8".to_owned(),
        _ => "9".to_owned(),
    };
    assert(out@ =~= seq![digit(n as nat)]);
    out
}

/// A natural number in decimal.
pub fn decimal(n: u64) -> (r: String)
    ensures
        r@ == digits(n as nat),
    decreases n,
{
    if n < 10 {
        one_digit(n)
    } else {
        let mut out: String = decimal(n / 10);
        let last = one_digit(n % 10);
        out.append(last.as_str());
        assert(out@ =~= digits(n as nat / 10).push(digit(n as nat % 10)));
        out
    }
}

/// An integer in decimal.
pub fn whole(n: i64) -> (r: String)
    ensures
        r@ == signed(n as int),
{
    if n < 0 {
        proof {
            reveal_strlit("-");
        }
        let size: u64 = (-(n as i128)) as u64;
        let digits_of_it = decimal(size);
        let out = join2("-", digits_of_it.as_str());
        assert(out@ =~= seq!['-'] + digits((-n) as nat));
        out
    } else {
        decimal(n as u64)
    }
}

/// The items one after another, with `between` between every two.
pub fn join_all(items: &Vec<String>, between: &str) -> (r: String)
    ensures
        r@ == joined(texts(items@), between@),
{
    let ghost all = texts(items@);
    if items.len() == 0 {
        return String::new();
    }
    let mut out: String = items[0].clone();
    let mut i: usize = 1;
    assert(all.take(1)[0] == all[0]);
    while i < items.len()
        invariant
            1 <= i <= items.len(),
            all == texts(items@),
            out@ == joined(all.take(i as int), between@),
        decreases items.len() - i,
    {
        out.append(between);
        out.append(items[i].as_str());
        assert(all.take(i + 1).drop_last() =~= all.take(i as int));
        i = i + 1;
    }
    assert(all.take(i as int) =~= all);
    out
}

/// Whether the list holds the text.
pub fn holds(items: &Vec<String>, text: &str) -> (r: bool)
    ensures
        r == texts(items@).contains(text@),
{
    let wanted: String = text.to_owned();
    let mut i: usize = 0;
    while i < items.len()
        invariant
            i <= items.len(),
            wanted@ == text@,
            forall|k: int| 0 <= k < i ==> items@[k]@ != text@,
        decreases items.len() - i,
    {
        if items[i] == wanted {
            assert(texts(items@)[i as int] == text@);
            return true;
        }
        i = i + 1;
    }
    assert forall|k: int| 0 <= k < texts(items@).len() implies texts(items@)[k] != text@ by {
        assert(items@[k]@ != text@);
    }
    false
}


/// Whether one text comes before another, character by character; a text
/// comes before any that it begins.
pub open spec fn precedes(a: Seq<char>, b: Seq<char>) -> bool
    decreases a.len(),
{
    if b.len() == 0 {
        false
    } else if a.len() == 0 {
        true
    } else if a[0] != b[0] {
        (a[0] as int) < (b[0] as int)
    } else {
        precedes(a.drop_first(), b.drop_first())
    }
}

/// The order of texts is a strict total order: no text comes before itself,
/// of two different ones exactly one comes first, and what comes before what
/// comes before a third comes before that.
pub proof fn law_text_order(a: Seq<char>, b: Seq<char>, c: Seq<char>)
    ensures
        !precedes(a, a),
        a != b ==> (precedes(a, b) <==> !precedes(b, a)),
        precedes(a, b) && precedes(b, c) ==> precedes(a, c),
    decreases a.len(),
{
    if a.len() > 0 && b.len() > 0 && c.len() > 0 {
        law_text_order(a.drop_first(), b.drop_first(), c.drop_first());
        if a[0] == b[0] && a != b {
            if a.drop_first() == b.drop_first() {
                assert(a =~= seq![a[0]] + a.drop_first());
                assert(b =~= seq![b[0]] + b.drop_first());
            }
        }
    } else if a.len() > 0 && b.len() > 0 {
        law_text_order(a.drop_first(), b.drop_first(), Seq::empty());
        if a[0] == b[0] && a != b {
            if a.drop_first() == b.drop_first() {
                assert(a =~= seq![a[0]] + a.drop_first());
                assert(b =~= seq![b[0]] + b.drop_first());
            }
        }
    } else if a.len() > 0 {
        law_text_order(a.drop_first(), Seq::empty(), Seq::empty());
    } else if b.len() == 0 {
        assert(a =~= b);
    }
}

/// The characters of a text.
pub fn chars_of(s: &str) -> (r: Vec<char>)
    ensures
        r@ == s@,
{
    let mut out: Vec<char> = Vec::new();
    for x in it: s.chars()
        invariant
            it.seq() == s@,
            out@ == s@.take(it.index() as int),
    {
        out.push(x);
        assert(out@ =~= s@.take(it.index() + 1));
    }
    assert(out@ =~= s@);
    out
}

/// Where a character stands among the others.
pub fn code(c: char) -> (r: u32)
    ensures
        r == c as int,
{
    c as u32
}

/// Whether one text comes before another.
pub fn comes_before(a: &str, b: &str) -> (r: bool)
    ensures
        r == precedes(a@, b@),
{
    let one = chars_of(a);
    let two = chars_of(b);
    let mut i: usize = 0;
    assert(one@.skip(0) =~= one@);
    assert(two@.skip(0) =~= two@);
    while i < one.len() && i < two.len()
        invariant
            i <= one.len(),
            i <= two.len(),
            one@ == a@,
            two@ == b@,
            precedes(a@, b@) == precedes(one@.skip(i as int), two@.skip(i as int)),
        decreases one.len() - i,
    {
        assert(one@.skip(i as int).drop_first() =~= one@.skip(i + 1));
        assert(two@.skip(i as int).drop_first() =~= two@.skip(i + 1));
        if one[i] != two[i] {
            return code(one[i]) < code(two[i]);
        }
        i = i + 1;
    }
    i < two.len()
}

/// A list of texts as it is written for a reader who has to tell them apart:
/// each in quotes, what is not printable escaped, all in brackets.
pub uninterp spec fn quoted_list(items: Seq<Seq<char>>) -> Seq<char>;

/// `std`'s debug formatting of a list of strings. What it writes is the same
/// for the same texts, and is given a name here rather than spelled out.
#[verifier::external_body]
pub(crate) fn quoted(items: &Vec<String>) -> (r: String)
    ensures
        r@ == quoted_list(texts(items@)),
{
    format!("{:?}", items)
}

/// The characters that are blank: the white space of Unicode.
pub open spec fn is_blank(c: char) -> bool {
    let n = c as int;
    9 <= n <= 13 || n == 32 || n == 0x85 || n == 0xA0 || n == 0x1680 || 0x2000 <= n <= 0x200A || n
        == 0x2028 || n == 0x2029 || n == 0x202F || n == 0x205F || n == 0x3000
}

/// What is left of a text once the blanks before it are gone.
pub open spec fn trimmed_left(s: Seq<char>) -> Seq<char>
    decreases s.len(),
{
    if s.len() > 0 && is_blank(s[0]) {
        trimmed_left(s.drop_first())
    } else {
        s
    }
}

/// What is left of a text once the blanks after it are gone.
pub open spec fn trimmed_right(s: Seq<char>) -> Seq<char>
    decreases s.len(),
{
    if s.len() > 0 && is_blank(s.last()) {
        trimmed_right(s.drop_last())
    } else {
        s
    }
}

/// A text without the blanks around it.
pub open spec fn trimmed(s: Seq<char>) -> Seq<char> {
    trimmed_right(trimmed_left(s))
}

/// A text without the `c` that it ends in, however many there are.
pub open spec fn cleared(s: Seq<char>, c: char) -> Seq<char>
    decreases s.len(),
{
    if s.len() > 0 && s.last() == c {
        cleared(s.drop_last(), c)
    } else {
        s
    }
}

/// The parts that a text falls into at every `c`.
pub open spec fn parts(s: Seq<char>, c: char) -> Seq<Seq<char>>
    decreases s.len(),
{
    proof {
        lemma_first_of(s, c);
    }
    match cut_first(s, c) {
        Some((before, after)) => seq![before] + parts(after, c),
        None => seq![s],
    }
}

pub open spec fn is_digit(c: char) -> bool {
    48 <= c as int <= 57
}

/// What a run of decimal digits is worth.
pub open spec fn worth(s: Seq<char>) -> int
    decreases s.len(),
{
    if s.len() == 0 {
        0
    } else {
        worth(s.drop_last()) * 10 + (s.last() as int - 48)
    }
}

pub open spec fn all_digits(s: Seq<char>) -> bool {
    s.len() > 0 && forall|i: int| 0 <= i < s.len() ==> is_digit(#[trigger] s[i])
}

/// The integer that a text writes, where it writes one that a signed word of
/// 64 bits holds: decimal digits, after a sign or none.
pub open spec fn written_int(s: Seq<char>) -> Option<int> {
    let signs = s.len() > 0 && (s[0] == '-' || s[0] == '+');
    let run = if signs {
        s.skip(1)
    } else {
        s
    };
    if !all_digits(run) {
        None
    } else {
        let value = if signs && s[0] == '-' {
            -worth(run)
        } else {
            worth(run)
        };
        if i64::MIN <= value <= i64::MAX {
            Some(value)
        } else {
            None
        }
    }
}

pub fn blank(c: char) -> (r: bool)
    ensures
        r == is_blank(c),
{
    let n: u32 = code(c);
    (9 <= n && n <= 13) || n == 32 || n == 0x85 || n == 0xA0 || n == 0x1680 || (0x2000 <= n && n
        <= 0x200A) || n == 0x2028 || n == 0x2029 || n == 0x202F || n == 0x205F || n == 0x3000
}

/// The blanks around a text taken off.
pub fn trim(s: &str) -> (r: String)
    ensures
        r@ == trimmed(s@),
{
    let all = chars_of(s);
    let n: usize = s.unicode_len();
    let ghost whole_text = s@;
    let mut from: usize = 0;
    assert(whole_text.skip(0) =~= whole_text);
    while from < n && blank(all[from])
        invariant
            from <= n,
            n == s@.len(),
            all@ == s@,
            whole_text == s@,
            trimmed_left(whole_text) == trimmed_left(whole_text.skip(from as int)),
        decreases n - from,
    {
        assert(whole_text.skip(from as int).drop_first() =~= whole_text.skip(from + 1));
        from = from + 1;
    }
    let ghost rest = whole_text.skip(from as int);
    assert(trimmed_left(whole_text) == rest);
    let mut to: usize = n;
    assert(rest.take(to - from) =~= rest);
    while to > from && blank(all[to - 1])
        invariant
            from <= to <= n,
            n == s@.len(),
            all@ == s@,
            rest == s@.skip(from as int),
            trimmed_right(rest) == trimmed_right(rest.take(to - from)),
        decreases to,
    {
        assert(rest.take(to - from).drop_last() =~= rest.take(to - from - 1));
        to = to - 1;
    }
    let out = s.substring_char(from, to);
    assert(out@ =~= rest.take(to - from));
    out.to_owned()
}

/// The `c` that a text ends in taken off, however many there are.
pub fn clear_end(s: &str, c: char) -> (r: String)
    ensures
        r@ == cleared(s@, c),
{
    let all = chars_of(s);
    let n: usize = s.unicode_len();
    let mut to: usize = n;
    assert(s@.take(to as int) =~= s@);
    while to > 0 && all[to - 1] == c
        invariant
            to <= n,
            n == s@.len(),
            all@ == s@,
            cleared(s@, c) == cleared(s@.take(to as int), c),
        decreases to,
    {
        assert(s@.take(to as int).drop_last() =~= s@.take(to - 1));
        to = to - 1;
    }
    let out = s.substring_char(0, to);
    assert(out@ =~= s@.take(to as int));
    out.to_owned()
}

/// A text taken apart at every `c`.
pub fn split_all(s: &str, c: char) -> (r: Vec<String>)
    ensures
        texts(r@) == parts(s@, c),
{
    let ghost whole_text = s@;
    let mut out: Vec<String> = Vec::new();
    let mut rest: String = s.to_owned();
    assert(texts(out@) + parts(rest@, c) =~= parts(whole_text, c));
    let mut left: usize = s.unicode_len();
    loop
        invariant_except_break
            left == rest@.len(),
            texts(out@) + parts(rest@, c) == parts(whole_text, c),
        ensures
            texts(out@) == parts(whole_text, c),
        decreases left,
    {
        let ghost before = texts(out@);
        proof {
            lemma_first_of(rest@, c);
        }
        match split_first(rest.as_str(), c) {
            Some((one, after)) => {
                assert(before + (seq![one@] + parts(after@, c)) =~= before.push(one@) + parts(
                    after@,
                    c,
                ));
                out.push(one);
                assert(texts(out@) =~= before.push(one@));
                left = after.as_str().unicode_len();
                rest = after;
            },
            None => {
                assert(before + seq![rest@] =~= before.push(rest@));
                let ghost last = rest@;
                out.push(rest);
                assert(texts(out@) =~= before.push(last));
                break;
            },
        }
    }
    out
}

proof fn lemma_worth_grows(s: Seq<char>, n: int)
    requires
        0 <= n <= s.len(),
        forall|i: int| 0 <= i < s.len() ==> is_digit(#[trigger] s[i]),
    ensures
        0 <= worth(s.take(n)) <= worth(s),
    decreases s.len(),
{
    if n < s.len() {
        let front = s.drop_last();
        assert(front.take(n) =~= s.take(n));
        assert(forall|i: int| 0 <= i < front.len() ==> front[i] == s[i]);
        lemma_worth_grows(front, n);
        assert(is_digit(s[s.len() - 1]));
    } else {
        assert(s.take(n) =~= s);
        if n > 0 {
            let front = s.drop_last();
            assert(forall|i: int| 0 <= i < front.len() ==> front[i] == s[i]);
            lemma_worth_grows(front, front.len() as int);
            assert(front.take(front.len() as int) =~= front);
            assert(is_digit(s[s.len() - 1]));
        }
    }
}

/// Whether there is something in a run of characters, and all of it digits.
fn digits_only(run: &Vec<char>) -> (r: bool)
    ensures
        r == all_digits(run@),
{
    let mut i: usize = 0;
    while i < run.len()
        invariant
            i <= run.len(),
            forall|k: int| 0 <= k < i ==> is_digit(#[trigger] run@[k]),
        decreases run.len() - i,
    {
        let d: u32 = code(run[i]);
        if d < 48 || d > 57 {
            assert(!is_digit(run@[i as int]));
            return false;
        }
        i = i + 1;
    }
    run.len() > 0
}

/// What a run of digits is worth, where that is at most two to the sixty-third.
fn worth_of(run: &Vec<char>) -> (r: Option<u64>)
    requires
        all_digits(run@),
    ensures
        match r {
            Some(value) => value == worth(run@) && value <= 0x8000_0000_0000_0000,
            None => worth(run@) > 0x8000_0000_0000_0000,
        },
{
    let mut value: u128 = 0;
    let mut i: usize = 0;
    assert(run@.take(0) =~= Seq::empty());
    while i < run.len()
        invariant
            i <= run.len(),
            all_digits(run@),
            value == worth(run@.take(i as int)),
            value <= 0x8000_0000_0000_0000,
        decreases run.len() - i,
    {
        let d: u32 = code(run[i]);
        assert(is_digit(run@[i as int]));
        assert(run@.take(i + 1).drop_last() =~= run@.take(i as int));
        value = value * 10 + (d - 48) as u128;
        assert(value == worth(run@.take(i + 1)));
        if value > 0x8000_0000_0000_0000 {
            proof {
                lemma_worth_grows(run@, i + 1);
            }
            return None;
        }
        i = i + 1;
    }
    assert(run@.take(i as int) =~= run@);
    Some(value as u64)
}

/// The integer that a text writes.
pub fn read_int(s: &str) -> (r: Option<i64>)
    ensures
        match r {
            Some(value) => written_int(s@) == Some(value as int),
            None => written_int(s@) is None,
        },
{
    let n: usize = s.unicode_len();
    let minus: bool = n > 0 && s.get_char(0) == '-';
    let signs: bool = minus || (n > 0 && s.get_char(0) == '+');
    let run = if signs {
        chars_of(s.substring_char(1, n))
    } else {
        chars_of(s)
    };
    assert(run@ =~= if signs {
        s@.skip(1)
    } else {
        s@
    });
    if !digits_only(&run) {
        return None;
    }
    match worth_of(&run) {
        None => None,
        Some(value) => if minus {
            if value == 0x8000_0000_0000_0000 {
                Some(i64::MIN)
            } else {
                Some(-(value as i64))
            }
        } else if value == 0x8000_0000_0000_0000 {
            None
        } else {
            Some(value as i64)
        },
    }
}

}
