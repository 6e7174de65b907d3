//! A confirmation token commits to one change of one entry in one agent.

use vstd::prelude::*;
use crate::mcp_library::drift_commitment;
use crate::text::{decimal, decimal_nat, digit_char};

verus! {

proof fn lemma_decimal_nat_injective(m: nat, n: nat)
    requires
        decimal_nat(m) == decimal_nat(n),
    ensures
        m == n,
    decreases m,
{
    let a = decimal_nat(m);
    let b = decimal_nat(n);
    lemma_digits_start(m);
    lemma_digits_start(n);
    assert(a.last() == digit_char((m % 10) as int));
    assert(b.last() == digit_char((n % 10) as int));
    assert(m % 10 == n % 10);
    if m < 10 {
        assert(a.len() == 1);
        if n >= 10 {
            lemma_digits_start(n / 10);
        }
    } else {
        lemma_digits_start(m / 10);
        if n < 10 {
            assert(b.len() == 1);
        } else {
            assert(a.drop_last() =~= decimal_nat(m / 10));
            assert(b.drop_last() =~= decimal_nat(n / 10));
            lemma_decimal_nat_injective(m / 10, n / 10);
        }
    }
}

// Decimal digits are not empty and do not begin with a sign.
proof fn lemma_digits_start(n: nat)
    ensures
        decimal_nat(n).len() > 0,
        '0' <= decimal_nat(n)[0] <= '9',
    decreases n,
{
    if n >= 10 {
        lemma_digits_start(n / 10);
    }
}

/// Numbers with the same decimal text are the same.
pub proof fn law_decimal_injective(m: int, n: int)
    requires
        decimal(m) == decimal(n),
    ensures
        m == n,
{
    let a = if m < 0 {
        (-m) as nat
    } else {
        m as nat
    };
    let b = if n < 0 {
        (-n) as nat
    } else {
        n as nat
    };
    lemma_digits_start(a);
    lemma_digits_start(b);
    if m < 0 {
        assert(decimal(m)[0] == '-');
    } else {
        assert(decimal(m)[0] != '-');
    }
    if n < 0 {
        assert(decimal(n)[0] == '-');
    } else {
        assert(decimal(n)[0] != '-');
    }
    if m < 0 {
        assert(decimal(m).skip(1) =~= decimal_nat(a));
        assert(decimal(n).skip(1) =~= decimal_nat(b));
    }
    lemma_decimal_nat_injective(a, b);
}

pub open spec fn no_nul(s: Seq<char>) -> bool {
    forall|i: int| 0 <= i < s.len() ==> #[trigger] s[i] != '\0'
}

// What stands before the first NUL and what stands behind it.
proof fn lemma_cut_at_nul(a: Seq<char>, x: Seq<char>, b: Seq<char>, y: Seq<char>)
    requires
        no_nul(a),
        no_nul(b),
        a + seq!['\0'] + x == b + seq!['\0'] + y,
    ensures
        a == b,
        x == y,
{
    let s = a + seq!['\0'] + x;
    let t = b + seq!['\0'] + y;
    if a.len() < b.len() {
        assert(s[a.len() as int] == '\0');
        assert(t[a.len() as int] == b[a.len() as int]);
    }
    if b.len() < a.len() {
        assert(t[b.len() as int] == '\0');
        assert(s[b.len() as int] == a[b.len() as int]);
    }
    assert(a =~= s.take(a.len() as int));
    assert(b =~= t.take(b.len() as int));
    assert(x =~= s.skip(a.len() as int + 1));
    assert(y =~= t.skip(b.len() as int + 1));
}

/// What a token is the digest of tells apart any two changes: another agent, entry, state on
/// disk or revision is another commitment. Names of agents and entries and fingerprints have no
/// NUL in them.
pub proof fn law_commitment_binds_the_change(
    agent: Seq<char>,
    name: Seq<char>,
    basis: Seq<char>,
    revision: i64,
    agent2: Seq<char>,
    name2: Seq<char>,
    basis2: Seq<char>,
    revision2: i64,
)
    requires
        no_nul(agent) && no_nul(name) && no_nul(basis),
        no_nul(agent2) && no_nul(name2) && no_nul(basis2),
        drift_commitment(agent, name, basis, revision) == drift_commitment(
            agent2,
            name2,
            basis2,
            revision2,
        ),
    ensures
        agent == agent2,
        name == name2,
        basis == basis2,
        revision == revision2,
{
    let nul = seq!['\0'];
    let head = "mcp-drift-v1"@ + nul;
    let d = decimal(revision as int);
    let d2 = decimal(revision2 as int);
    let c = basis + nul + d;
    let c2 = basis2 + nul + d2;
    let b = name + nul + c;
    let b2 = name2 + nul + c2;
    let a = agent + nul + b;
    let a2 = agent2 + nul + b2;
    let s = drift_commitment(agent, name, basis, revision);
    let t = drift_commitment(agent2, name2, basis2, revision2);
    assert(s =~= head + a);
    assert(t =~= head + a2);
    assert(a =~= s.skip(head.len() as int));
    assert(a2 =~= t.skip(head.len() as int));
    lemma_cut_at_nul(agent, b, agent2, b2);
    lemma_cut_at_nul(name, c, name2, c2);
    lemma_cut_at_nul(basis, d, basis2, d2);
    law_decimal_injective(revision as int, revision2 as int);
}

} // verus!
