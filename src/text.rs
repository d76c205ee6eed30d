//! Order and prefixes on keys. Keys compare character by character, by code
//! point, the way a sorted partition orders its sort keys.
use vstd::prelude::*;
use vstd::std_specs::iter::IteratorSpec;
use vstd::string::{axiom_spec_iter, next_postcondition};
use crate::keys::is_prefix;

verus! {

/// Strict lexicographic order on character sequences.
pub open spec fn seq_lt(a: Seq<char>, b: Seq<char>) -> bool
    decreases a.len(),
{
    if a.len() == 0 {
        b.len() > 0
    } else if b.len() == 0 {
        false
    } else if a[0] != b[0] {
        (a[0] as int) < (b[0] as int)
    } else {
        seq_lt(a.drop_first(), b.drop_first())
    }
}

pub proof fn lemma_lt_irreflexive(a: Seq<char>)
    ensures
        !seq_lt(a, a),
    decreases a.len(),
{
    if a.len() > 0 {
        lemma_lt_irreflexive(a.drop_first());
    }
}

pub proof fn lemma_lt_asymmetric(a: Seq<char>, b: Seq<char>)
    ensures
        !(seq_lt(a, b) && seq_lt(b, a)),
    decreases a.len(),
{
    if a.len() > 0 && b.len() > 0 && a[0] == b[0] {
        lemma_lt_asymmetric(a.drop_first(), b.drop_first());
    }
}

pub proof fn lemma_lt_total(a: Seq<char>, b: Seq<char>)
    ensures
        a != b ==> seq_lt(a, b) || seq_lt(b, a),
    decreases a.len(),
{
    if a.len() > 0 && b.len() > 0 {
        if a[0] == b[0] {
            lemma_lt_total(a.drop_first(), b.drop_first());
            if a.drop_first() == b.drop_first() {
                assert(a =~= seq![a[0]] + a.drop_first());
                assert(b =~= seq![b[0]] + b.drop_first());
            }
        } else {
            assert((a[0] as int) != (b[0] as int));
        }
    } else if a.len() == 0 && b.len() == 0 {
        assert(a =~= b);
    }
}

pub proof fn lemma_lt_transitive(a: Seq<char>, b: Seq<char>, c: Seq<char>)
    requires
        seq_lt(a, b),
        seq_lt(b, c),
    ensures
        seq_lt(a, c),
    decreases a.len(),
{
    if a.len() > 0 && b.len() > 0 && c.len() > 0 && a[0] == b[0] && b[0] == c[0] {
        lemma_lt_transitive(a.drop_first(), b.drop_first(), c.drop_first());
    }
}

/// A common prefix does not change the order.
pub proof fn lemma_lt_common_prefix(p: Seq<char>, a: Seq<char>, b: Seq<char>)
    ensures
        seq_lt(p + a, p + b) == seq_lt(a, b),
    decreases p.len(),
{
    if p.len() > 0 {
        assert((p + a).drop_first() =~= p.drop_first() + a);
        assert((p + b).drop_first() =~= p.drop_first() + b);
        lemma_lt_common_prefix(p.drop_first(), a, b);
    } else {
        assert(p + a =~= a);
        assert(p + b =~= b);
    }
}

/// Prefix test written as a recursion, to step through two iterators.
pub open spec fn prefix_of(p: Seq<char>, s: Seq<char>) -> bool
    decreases p.len(),
{
    if p.len() == 0 {
        true
    } else if s.len() == 0 {
        false
    } else {
        p[0] == s[0] && prefix_of(p.drop_first(), s.drop_first())
    }
}

pub proof fn lemma_prefix_of(p: Seq<char>, s: Seq<char>)
    ensures
        prefix_of(p, s) == is_prefix(p, s),
    decreases p.len(),
{
    if p.len() == 0 {
        assert(s.subrange(0, 0) =~= p);
    } else if s.len() > 0 {
        lemma_prefix_of(p.drop_first(), s.drop_first());
        if is_prefix(p, s) {
            assert(s.subrange(0, p.len() as int)[0] == p[0]);
            assert(s.drop_first().subrange(0, p.len() - 1) =~= p.drop_first());
        }
        if p[0] == s[0] && is_prefix(p.drop_first(), s.drop_first()) {
            assert forall|i: int| 0 <= i < p.len() implies s.subrange(0, p.len() as int)[i] == p[i] by {
                if i > 0 {
                    assert(s.drop_first().subrange(0, p.len() - 1)[i - 1] == p.drop_first()[i - 1]);
                }
            }
            assert(s.subrange(0, p.len() as int) =~= p);
        }
    }
}

/// Whether `a` comes strictly before `b`.
pub fn str_lt(a: &str, b: &str) -> (r: bool)
    ensures
        r == seq_lt(a@, b@),
{
    broadcast use axiom_spec_iter, next_postcondition;

    let mut ia = a.chars();
    let mut ib = b.chars();
    loop
        invariant
            seq_lt(a@, b@) == seq_lt(ia.remaining(), ib.remaining()),
            ia.decrease() is Some,
        decreases ia.decrease()->0,
    {
        let ca = ia.next();
        let cb = ib.next();
        match (ca, cb) {
            (None, None) => return false,
            (None, Some(_)) => return true,
            (Some(_), None) => return false,
            (Some(x), Some(y)) => {
                if x != y {
                    return x < y;
                }
            },
        }
    }
}

/// Whether `p` is a prefix of `s`.
pub fn str_starts_with(s: &str, p: &str) -> (r: bool)
    ensures
        r == is_prefix(p@, s@),
{
    broadcast use axiom_spec_iter, next_postcondition;

    proof {
        lemma_prefix_of(p@, s@);
    }
    let mut is = s.chars();
    let mut ip = p.chars();
    loop
        invariant
            is_prefix(p@, s@) == prefix_of(ip.remaining(), is.remaining()),
            ip.decrease() is Some,
        decreases ip.decrease()->0,
    {
        let cp = ip.next();
        let cs = is.next();
        match (cp, cs) {
            (None, _) => return true,
            (Some(_), None) => return false,
            (Some(x), Some(y)) => {
                if x != y {
                    return false;
                }
            },
        }
    }
}

} // verus!
