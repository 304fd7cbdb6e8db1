//! Recipe names qualified by modules, such as `build::compile`.

use crate::text::from_chars;
use crate::text::to_chars;
use vstd::prelude::*;

verus! {

/// The separator between a module and what it holds.
pub open spec fn separator() -> Seq<char> {
    seq![':', ':']
}

/// Whether a separator stands at position `i`.
pub open spec fn separator_at(s: Seq<char>, i: int) -> bool {
    0 <= i && i + 1 < s.len() && s[i] == ':' && s[i + 1] == ':'
}

/// Whether a separator stands anywhere in `s`.
pub open spec fn is_qualified(s: Seq<char>) -> bool {
    exists|i: int| separator_at(s, i)
}

/// The position of the last separator, or -1 where there is none.
pub open spec fn last_separator(s: Seq<char>) -> int
    decreases s.len(),
{
    if s.len() < 2 {
        -1
    } else if separator_at(s, s.len() - 2) {
        s.len() - 2
    } else {
        last_separator(s.drop_last())
    }
}

/// The module that a name path names: what stands before the last separator.
pub open spec fn module_of(s: Seq<char>) -> Seq<char> {
    if is_qualified(s) {
        s.take(last_separator(s))
    } else {
        Seq::empty()
    }
}

/// The number of separators, counted from the left without overlap.
pub open spec fn separator_count(s: Seq<char>) -> nat
    decreases s.len(),
{
    if s.len() < 2 {
        0
    } else if separator_at(s, 0) {
        1 + separator_count(s.skip(2))
    } else {
        separator_count(s.skip(1))
    }
}

/// `name` within the module `module`; the root module has the empty name.
pub open spec fn within(module: Seq<char>, name: Seq<char>) -> Seq<char> {
    if module.len() == 0 {
        name
    } else {
        module + separator() + name
    }
}

/// The last separator is a separator, and none follows it.
pub proof fn lemma_last_separator(s: Seq<char>)
    ensures
        is_qualified(s) <==> last_separator(s) >= 0,
        is_qualified(s) ==> separator_at(s, last_separator(s)),
        forall|i: int| separator_at(s, i) ==> i <= last_separator(s),
        last_separator(s) >= -1,
    decreases s.len(),
{
    if s.len() < 2 {
    } else if separator_at(s, s.len() - 2) {
    } else {
        let t = s.drop_last();
        lemma_last_separator(t);
        assert forall|i: int| separator_at(s, i) implies i <= last_separator(s) by {
            assert(i != s.len() - 2);
            assert(separator_at(t, i));
        }
        if is_qualified(t) {
            assert(separator_at(s, last_separator(t)));
        }
    }
}

/// Whether `s` holds a separator.
pub fn has_separator(s: &str) -> (r: bool)
    ensures
        r == is_qualified(s@),
{
    let v: Vec<char> = to_chars(s);
    let mut i: usize = 1;
    while i < v.len()
        invariant
            1 <= i,
            v@ == s@,
            forall|j: int| j + 1 < i ==> !#[trigger] separator_at(s@, j),
        decreases v.len() - i,
    {
        if v[i - 1] == ':' && v[i] == ':' {
            assert(separator_at(s@, i - 1));
            return true;
        }
        assert(!separator_at(s@, i - 1));
        i = i + 1;
    }
    false
}

/// The module that the name path `s` names.
pub fn module_prefix(s: &str) -> (r: String)
    ensures
        r@ == module_of(s@),
{
    let v: Vec<char> = to_chars(s);
    let mut n: usize = v.len();
    proof {
        lemma_last_separator(s@);
        assert(v@.take(n as int) =~= v@);
    }
    while n >= 2
        invariant
            n <= v.len(),
            v@ == s@,
            last_separator(v@.take(n as int)) == last_separator(s@),
            is_qualified(s@) <==> last_separator(s@) >= 0,
        decreases n,
    {
        if v[n - 2] == ':' && v[n - 1] == ':' {
            assert(separator_at(v@.take(n as int), n - 2));
            return from_chars(&v, 0, n - 2);
        }
        assert(v@.take(n as int).drop_last() =~= v@.take(n - 1));
        n = n - 1;
    }
    String::new()
}

/// The number of separators in `s`.
pub fn count_separators(s: &str) -> (r: usize)
    ensures
        r == separator_count(s@),
{
    let v: Vec<char> = to_chars(s);
    let n: usize = v.len();
    let mut i: usize = 0;
    let mut count: usize = 0;
    assert(v@.skip(0) =~= v@);
    while i < n && n - i >= 2
        invariant
            i <= n == v.len(),
            v@ == s@,
            count <= i,
            count + separator_count(v@.skip(i as int)) == separator_count(s@),
        decreases n - i,
    {
        let ghost rest = v@.skip(i as int);
        if v[i] == ':' && v[i + 1] == ':' {
            assert(separator_at(rest, 0));
            assert(rest.skip(2) =~= v@.skip(i + 2));
            count = count + 1;
            i = i + 2;
        } else {
            assert(!separator_at(rest, 0));
            assert(rest.skip(1) =~= v@.skip(i + 1));
            i = i + 1;
        }
    }
    count
}

/// `name` within the module `module`.
pub fn qualify(module: &str, name: &str) -> (r: String)
    ensures
        r@ == within(module@, name@),
{
    if module.is_empty() {
        name.to_owned()
    } else {
        let mut r: String = module.to_owned();
        r.append("::");
        r.append(name);
        proof {
            reveal_strlit("::");
            assert("::"@ =~= separator());
        }
        r
    }
}

/// Whether the characters of `part` stand in `v` from position `at` on.
fn matches_at(v: &Vec<char>, at: usize, part: &Vec<char>) -> (r: bool)
    requires
        at + part.len() <= v.len(),
    ensures
        r == (v@.subrange(at as int, at + part@.len()) == part@),
{
    let ghost piece = v@.subrange(at as int, at + part@.len());
    for i in 0..part.len()
        invariant
            at + part.len() <= v.len(),
            piece == v@.subrange(at as int, at + part@.len()),
            forall|j: int| 0 <= j < i ==> piece[j] == part@[j],
    {
        if v[at + i] != part[i] {
            assert(piece[i as int] != part@[i as int]);
            return false;
        }
    }
    assert(piece =~= part@);
    true
}

/// Whether `s` begins with `part`.
pub fn begins_with(s: &str, part: &str) -> (r: bool)
    ensures
        r == part@.is_prefix_of(s@),
{
    let v: Vec<char> = to_chars(s);
    let p: Vec<char> = to_chars(part);
    p.len() <= v.len() && matches_at(&v, 0, &p)
}

/// Whether `s` ends with `part`.
pub fn finishes_with(s: &str, part: &str) -> (r: bool)
    ensures
        r == part@.is_suffix_of(s@),
{
    let v: Vec<char> = to_chars(s);
    let p: Vec<char> = to_chars(part);
    p.len() <= v.len() && matches_at(&v, v.len() - p.len(), &p)
}

/// A text without colons.
pub open spec fn colon_free(s: Seq<char>) -> bool {
    forall|i: int| 0 <= i < s.len() ==> #[trigger] s[i] != ':'
}

/// A name is qualified exactly where `::` stands between two parts of it.
pub proof fn qualified_names_have_two_parts(s: Seq<char>)
    ensures
        is_qualified(s) <==> exists|i: int|
            0 <= i && i + 2 <= s.len() && #[trigger] s.subrange(i, i + 2) == "::"@,
{
    reveal_strlit("::");
    if is_qualified(s) {
        let i = choose|i: int| separator_at(s, i);
        assert(s.subrange(i, i + 2) =~= "::"@);
    }
    if exists|i: int| 0 <= i && i + 2 <= s.len() && #[trigger] s.subrange(i, i + 2) == "::"@ {
        let i = choose|i: int|
            0 <= i && i + 2 <= s.len() && #[trigger] s.subrange(i, i + 2) == "::"@;
        assert(s.subrange(i, i + 2)[0] == ':');
        assert(s.subrange(i, i + 2)[1] == ':');
        assert(separator_at(s, i));
    }
}

/// The module of `m::n` is `m`, where `n` holds no `::` and begins with no colon. A name without
/// `::` is in no module.
pub proof fn module_stands_before_the_name(m: Seq<char>, n: Seq<char>)
    requires
        !is_qualified(n),
    ensures
        n.len() == 0 || n[0] != ':' ==> module_of(m + "::"@ + n) == m,
        module_of(n) == Seq::<char>::empty(),
{
    reveal_strlit("::");
    let s = m + "::"@ + n;
    lemma_last_separator(s);
    assert(separator_at(s, m.len() as int));
    let k = last_separator(s);
    if n.len() == 0 || n[0] != ':' {
        assert(k == m.len()) by {
            if k == m.len() + 1 {
                assert(s[k + 1] == n[0]);
            } else if k > m.len() + 1 {
                assert(s[k] == n[k - m.len() - 2]);
                assert(s[k + 1] == n[k + 1 - m.len() - 2]);
                assert(separator_at(n, k - m.len() - 2));
            }
        }
        assert(s.take(k) =~= m);
    }
}

/// A name within the root module is the name itself, and `m::n` within the module `m`.
pub proof fn within_puts_the_module_in_front(m: Seq<char>, n: Seq<char>)
    ensures
        within(m, n) == if m.len() == 0 {
            n
        } else {
            m + "::"@ + n
        },
{
    reveal_strlit("::");
    assert("::"@ =~= separator());
}

/// `a::b` has one separator more than its two parts have.
pub proof fn separators_add_up(a: Seq<char>, b: Seq<char>)
    requires
        a.len() > 0 ==> a.last() != ':',
    ensures
        separator_count(a + "::"@ + b) == separator_count(a) + 1 + separator_count(b),
    decreases a.len(),
{
    reveal_strlit("::");
    let s = a + "::"@ + b;
    if a.len() == 0 {
        assert(separator_at(s, 0));
        assert(s.skip(2) =~= b);
    } else if a.len() == 1 {
        assert(s[0] == a[0]);
        assert(!separator_at(s, 0));
        assert(s.skip(1) =~= a.skip(1) + "::"@ + b);
        separators_add_up(a.skip(1), b);
    } else {
        assert(s[0] == a[0]);
        assert(s[1] == a[1]);
        assert(separator_at(s, 0) == separator_at(a, 0));
        if separator_at(a, 0) {
            assert(s.skip(2) =~= a.skip(2) + "::"@ + b);
            separators_add_up(a.skip(2), b);
        } else {
            assert(s.skip(1) =~= a.skip(1) + "::"@ + b);
            separators_add_up(a.skip(1), b);
        }
    }
}

/// A name that is not qualified has no separators, and a name without colons is not qualified.
pub proof fn plain_names_have_no_separators(s: Seq<char>)
    ensures
        !is_qualified(s) ==> separator_count(s) == 0,
        colon_free(s) ==> !is_qualified(s),
    decreases s.len(),
{
    if colon_free(s) && is_qualified(s) {
        let i = choose|i: int| separator_at(s, i);
        assert(s[i] == ':');
    }
    if s.len() >= 2 && !is_qualified(s) {
        assert(!separator_at(s, 0));
        let t = s.skip(1);
        if is_qualified(t) {
            let i = choose|i: int| separator_at(t, i);
            assert(separator_at(s, i + 1));
        }
        plain_names_have_no_separators(t);
    }
}

} // verus!
