//! Canonical ordering of account identities and lookup in a sorted list of them.
//!
//! Accounts are compared character by character (by code point), which is the
//! order `String`'s own `Ord` gives, since UTF-8 preserves code-point order.
use vstd::prelude::*;

verus! {

/// Strict lexicographic order on account identities.
pub open spec fn lex_lt(a: Seq<char>, b: Seq<char>) -> bool
    decreases a.len(),
{
    if a.len() == 0 {
        b.len() > 0
    } else if b.len() == 0 {
        false
    } else if a[0] != b[0] {
        (a[0] as int) < (b[0] as int)
    } else {
        lex_lt(a.drop_first(), b.drop_first())
    }
}

/// Accounts listed in strictly ascending order (so each at most once).
pub open spec fn sorted_accounts(s: Seq<String>) -> bool {
    forall|i: int, j: int| 0 <= i < j < s.len() ==> lex_lt(#[trigger] s[i]@, #[trigger] s[j]@)
}

/// Whether the account `a` appears in `s`.
pub open spec fn lists(s: Seq<String>, a: Seq<char>) -> bool {
    exists|i: int| 0 <= i < s.len() && #[trigger] s[i]@ == a
}

pub proof fn lemma_lex_irreflexive(a: Seq<char>)
    ensures
        !lex_lt(a, a),
    decreases a.len(),
{
    if a.len() > 0 {
        lemma_lex_irreflexive(a.drop_first());
    }
}

pub proof fn lemma_lex_total(a: Seq<char>, b: Seq<char>)
    ensures
        a == b || lex_lt(a, b) || lex_lt(b, a),
    decreases a.len(),
{
    if a.len() > 0 && b.len() > 0 {
        if a[0] == b[0] {
            lemma_lex_total(a.drop_first(), b.drop_first());
            if a.drop_first() == b.drop_first() {
                assert(a =~= seq![a[0]] + a.drop_first());
                assert(b =~= seq![b[0]] + b.drop_first());
            }
        } else {
            assert((a[0] as int) != (b[0] as int));
        }
    } else if a.len() == 0 && b.len() == 0 {
        assert(a =~= b);
    }
}

pub proof fn lemma_lex_asymmetric(a: Seq<char>, b: Seq<char>)
    requires
        lex_lt(a, b),
    ensures
        !lex_lt(b, a),
    decreases a.len(),
{
    if a.len() > 0 && b.len() > 0 && a[0] == b[0] {
        lemma_lex_asymmetric(a.drop_first(), b.drop_first());
    }
}

pub proof fn lemma_lex_transitive(a: Seq<char>, b: Seq<char>, c: Seq<char>)
    requires
        lex_lt(a, b),
        lex_lt(b, c),
    ensures
        lex_lt(a, c),
    decreases a.len(),
{
    if a.len() > 0 && b.len() > 0 && c.len() > 0 && a[0] == b[0] && b[0] == c[0] {
        lemma_lex_transitive(a.drop_first(), b.drop_first(), c.drop_first());
    }
}

/// Two sorted account lists with the same members are the same list.
pub proof fn lemma_sorted_unique(s1: Seq<String>, s2: Seq<String>)
    requires
        sorted_accounts(s1),
        sorted_accounts(s2),
        forall|a: Seq<char>| lists(s1, a) == lists(s2, a),
    ensures
        s1.len() == s2.len(),
        forall|i: int| 0 <= i < s1.len() ==> #[trigger] s1[i]@ == s2[i]@,
    decreases s1.len() + s2.len(),
{
    if s1.len() == 0 || s2.len() == 0 {
        if s1.len() > 0 {
            assert(lists(s1, s1[0]@));
        }
        if s2.len() > 0 {
            assert(lists(s2, s2[0]@));
        }
        return;
    }
    assert(lists(s1, s1[0]@));
    assert(lists(s2, s2[0]@));
    let j = choose|j: int| 0 <= j < s2.len() && #[trigger] s2[j]@ == s1[0]@;
    let k = choose|k: int| 0 <= k < s1.len() && #[trigger] s1[k]@ == s2[0]@;
    if j > 0 {
        assert(lex_lt(s2[0]@, s2[j]@));
        lemma_lex_irreflexive(s1[0]@);
        if k > 0 {
            assert(lex_lt(s1[0]@, s1[k]@));
            lemma_lex_asymmetric(s1[0]@, s1[k]@);
        }
    }
    let first = s1[0]@;
    let t1 = s1.drop_first();
    let t2 = s2.drop_first();
    assert forall|a: Seq<char>| lists(t1, a) == lists(t2, a) by {
        lemma_lex_irreflexive(first);
        if lists(t1, a) {
            let i = choose|i: int| 0 <= i < t1.len() && #[trigger] t1[i]@ == a;
            assert(lex_lt(s1[0]@, s1[i + 1]@));
            assert(lists(s1, a));
            let m = choose|m: int| 0 <= m < s2.len() && #[trigger] s2[m]@ == a;
            assert(m != 0);
            assert(t2[m - 1]@ == a);
        }
        if lists(t2, a) {
            let i = choose|i: int| 0 <= i < t2.len() && #[trigger] t2[i]@ == a;
            assert(lex_lt(s2[0]@, s2[i + 1]@));
            assert(lists(s2, a));
            let m = choose|m: int| 0 <= m < s1.len() && #[trigger] s1[m]@ == a;
            assert(m != 0);
            assert(t1[m - 1]@ == a);
        }
    }
    lemma_sorted_unique(t1, t2);
    assert forall|i: int| 0 <= i < s1.len() implies #[trigger] s1[i]@ == s2[i]@ by {
        if i > 0 {
            assert(t1[i - 1]@ == t2[i - 1]@);
        }
    }
}

/// Whether `a` comes strictly before `b` in the canonical account order.
pub fn account_lt(a: &String, b: &String) -> (r: bool)
    ensures
        r == lex_lt(a@, b@),
{
    let sa = a.as_str();
    let sb = b.as_str();
    let na = sa.unicode_len();
    let nb = sb.unicode_len();
    let mut i: usize = 0;
    proof {
        assert(a@.skip(0) =~= a@);
        assert(b@.skip(0) =~= b@);
    }
    while i < na && i < nb
        invariant
            sa@ == a@,
            sb@ == b@,
            na == a@.len(),
            nb == b@.len(),
            i <= na,
            i <= nb,
            lex_lt(a@, b@) == lex_lt(a@.skip(i as int), b@.skip(i as int)),
        decreases na - i,
    {
        let ca = sa.get_char(i);
        let cb = sb.get_char(i);
        if ca != cb {
            proof {
                assert(a@.skip(i as int)[0] == ca);
                assert(b@.skip(i as int)[0] == cb);
            }
            return (ca as u32) < (cb as u32);
        }
        proof {
            assert(a@.skip(i as int).drop_first() =~= a@.skip(i + 1));
            assert(b@.skip(i as int).drop_first() =~= b@.skip(i + 1));
        }
        i = i + 1;
    }
    i < nb
}

/// Position of `a` in the sorted list `accounts`: `Ok(i)` where it stands,
/// or `Err(i)` where it would have to be inserted to keep the list sorted.
pub fn find_account(accounts: &Vec<String>, a: &String) -> (r: Result<usize, usize>)
    requires
        sorted_accounts(accounts@),
    ensures
        match r {
            Ok(i) => i < accounts@.len() && accounts@[i as int]@ == a@,
            Err(i) => i <= accounts@.len()
                && (forall|j: int| 0 <= j < i ==> lex_lt(#[trigger] accounts@[j]@, a@))
                && (forall|j: int| i <= j < accounts@.len() ==> lex_lt(a@, #[trigger] accounts@[j]@)),
        },
{
    let mut i: usize = 0;
    while i < accounts.len()
        invariant
            sorted_accounts(accounts@),
            i <= accounts@.len(),
            forall|j: int| 0 <= j < i ==> lex_lt(#[trigger] accounts@[j]@, a@),
        decreases accounts.len() - i,
    {
        if accounts[i] == *a {
            return Ok(i);
        }
        if !account_lt(&accounts[i], a) {
            proof {
                lemma_lex_total(accounts@[i as int]@, a@);
                assert forall|j: int| i <= j < accounts@.len() implies lex_lt(
                    a@,
                    #[trigger] accounts@[j]@,
                ) by {
                    if j > i {
                        lemma_lex_transitive(a@, accounts@[i as int]@, accounts@[j]@);
                    }
                }
            }
            return Err(i);
        }
        i = i + 1;
    }
    Err(i)
}

} // verus!
