//! Keys as text: the prefix test of the bulk operations and the order in
//! which a scan lists its keys.

use vstd::prelude::*;
use vstd::std_specs::iter::IteratorSpec;

verus! {

/// `a` comes strictly before `b` in lexicographic order, characters compared
/// by code point; a proper prefix comes before the longer text.
pub open spec fn precedes(a: Seq<char>, b: Seq<char>) -> bool
    decreases a.len(),
{
    if b.len() == 0 {
        false
    } else if a.len() == 0 {
        true
    } else if a[0] != b[0] {
        (a[0] as int) < (b[0] as int)
    } else {
        precedes(a.drop_first(), b.drop_first())
    }
}

/// Whether `text` begins with `prefix`. The empty prefix begins every text.
pub fn starts_with(text: &str, prefix: &str) -> (r: bool)
    ensures
        r == prefix@.is_prefix_of(text@),
{
    broadcast use vstd::string::group_string_axioms;

    let mut rest = text.chars();
    let mut wanted = prefix.chars();
    let ghost mut n: int = 0;
    loop
        invariant
            0 <= n <= prefix@.len(),
            n <= text@.len(),
            wanted.remaining() == prefix@.subrange(n, prefix@.len() as int),
            rest.remaining() == text@.subrange(n, text@.len() as int),
            prefix@.subrange(0, n) == text@.subrange(0, n),
        decreases prefix@.len() - n,
    {
        match wanted.next() {
            None => {
                assert(prefix@.subrange(0, n) == prefix@);
                return true;
            },
            Some(p) => {
                match rest.next() {
                    None => {
                        return false;
                    },
                    Some(t) => {
                        if p != t {
                            assert(prefix@[n] != text@[n]);
                            return false;
                        }
                        proof {
                            assert(prefix@.subrange(0, n + 1) == prefix@.subrange(0, n).push(p));
                            assert(text@.subrange(0, n + 1) == text@.subrange(0, n).push(t));
                            assert(prefix@.subrange(n, prefix@.len() as int).drop_first()
                                == prefix@.subrange(n + 1, prefix@.len() as int));
                            assert(text@.subrange(n, text@.len() as int).drop_first()
                                == text@.subrange(n + 1, text@.len() as int));
                            n = n + 1;
                        }
                    },
                }
            },
        }
    }
}

/// Whether `a` comes strictly before `b` in the order of [`precedes`].
pub fn comes_before(a: &str, b: &str) -> (r: bool)
    ensures
        r == precedes(a@, b@),
{
    broadcast use vstd::string::group_string_axioms;

    let mut left = a.chars();
    let mut right = b.chars();
    let ghost mut n: int = 0;
    loop
        invariant
            0 <= n <= a@.len(),
            n <= b@.len(),
            left.remaining() == a@.subrange(n, a@.len() as int),
            right.remaining() == b@.subrange(n, b@.len() as int),
            precedes(a@, b@) == precedes(left.remaining(), right.remaining()),
        decreases a@.len() - n,
    {
        let ghost l = left.remaining();
        let ghost r = right.remaining();
        match right.next() {
            None => {
                return false;
            },
            Some(y) => {
                match left.next() {
                    None => {
                        return true;
                    },
                    Some(x) => {
                        if x != y {
                            return x < y;
                        }
                        proof {
                            assert(l.drop_first() == a@.subrange(n + 1, a@.len() as int));
                            assert(r.drop_first() == b@.subrange(n + 1, b@.len() as int));
                            n = n + 1;
                        }
                    },
                }
            },
        }
    }
}

/// No text comes before itself.
pub proof fn precedes_irreflexive(a: Seq<char>)
    ensures
        !precedes(a, a),
    decreases a.len(),
{
    if a.len() > 0 {
        precedes_irreflexive(a.drop_first());
    }
}

/// Of two different texts, one comes before the other.
pub proof fn precedes_total(a: Seq<char>, b: Seq<char>)
    ensures
        a == b || precedes(a, b) || precedes(b, a),
    decreases a.len(),
{
    if a.len() > 0 && b.len() > 0 && a[0] == b[0] {
        precedes_total(a.drop_first(), b.drop_first());
        if a.drop_first() == b.drop_first() {
            assert(a =~= seq![a[0]] + a.drop_first());
            assert(b =~= seq![b[0]] + b.drop_first());
        }
    } else if a.len() == 0 && b.len() == 0 {
        assert(a =~= b);
    }
}

/// The order is transitive.
pub proof fn precedes_transitive(a: Seq<char>, b: Seq<char>, c: Seq<char>)
    requires
        precedes(a, b),
        precedes(b, c),
    ensures
        precedes(a, c),
    decreases a.len(),
{
    if a.len() > 0 && a[0] == b[0] && b[0] == c[0] {
        precedes_transitive(a.drop_first(), b.drop_first(), c.drop_first());
    }
}

} // verus!
