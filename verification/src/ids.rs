//! Identifiers that are unique across the cluster.
//!
//! An identifier is the id of the node that issues it, a hyphen, and the
//! decimal numeral of that node's message counter.

use vstd::prelude::*;

verus! {

/// The character that writes the digit `d`.
pub open spec fn digit(d: int) -> char {
    if d == 0 {
        '0'
    } else if d == 1 {
        '1'
    } else if d == 2 {
        '2'
    } else if d == 3 {
        '3'
    } else if d == 4 {
        '4'
    } else if d == 5 {
        '5'
    } else if d == 6 {
        '6'
    } else if d == 7 {
        '7'
    } else if d == 8 {
        '8'
    } else {
        '9'
    }
}

/// The decimal numeral of `n`, without leading zeros.
pub open spec fn decimal(n: nat) -> Seq<char>
    decreases n,
{
    if n < 10 {
        seq![digit(n as int)]
    } else {
        decimal(n / 10).push(digit((n % 10) as int))
    }
}

/// The identifier that the node `node_id` issues at message counter `counter`.
pub open spec fn unique_id(node_id: Seq<char>, counter: nat) -> Seq<char> {
    node_id + seq!['-'] + decimal(counter)
}

fn digit_str(d: usize) -> (text: &'static str)
    requires
        d < 10,
    ensures
        text@ == seq![digit(d as int)],
{
    proof {
        reveal_strlit("0");
        reveal_strlit("1");
        reveal_strlit("2");
        reveal_strlit("3");
        reveal_strlit("4");
        reveal_strlit("5");
        reveal_strlit("6");
        reveal_strlit("7");
        reveal_strlit("8");
        reveal_strlit("9");
    }
    let text = if d == 0 {
        "0"
    } else if d == 1 {
        "1"
    } else if d == 2 {
        "2"
    } else if d == 3 {
        "3"
    } else if d == 4 {
        "4"
    } else if d == 5 {
        "5"
    } else if d == 6 {
        "6"
    } else if d == 7 {
        "7"
    } else if d == 8 {
        "8"
    } else {
        "9"
    };
    assert(text@ =~= seq![digit(d as int)]);
    text
}

/// Writes `n` as a decimal numeral.
pub fn decimal_string(n: usize) -> (text: String)
    ensures
        text@ == decimal(n as nat),
    decreases n,
{
    if n < 10 {
        String::from_str(digit_str(n))
    } else {
        let mut text = decimal_string(n / 10);
        text.append(digit_str(n % 10));
        assert(text@ =~= decimal(n as nat));
        text
    }
}

/// Writes the identifier that the node `node_id` issues at message counter `counter`.
pub fn generate_id(node_id: &String, counter: usize) -> (id: String)
    ensures
        id@ == unique_id(node_id@, counter as nat),
{
    proof {
        reveal_strlit("-");
    }
    let mut id = node_id.clone();
    id.append("-");
    let numeral = decimal_string(counter);
    id.append(numeral.as_str());
    assert(id@ =~= unique_id(node_id@, counter as nat));
    id
}

/// A numeral is never empty and holds digits only.
pub proof fn lemma_decimal_digits(n: nat)
    ensures
        decimal(n).len() > 0,
        forall|i: int| 0 <= i < decimal(n).len() ==> #[trigger] decimal(n)[i] != '-',
    decreases n,
{
    if n >= 10 {
        lemma_decimal_digits(n / 10);
    }
}

/// Different numbers have different numerals.
pub proof fn lemma_decimal_injective(n: nat, m: nat)
    requires
        decimal(n) == decimal(m),
    ensures
        n == m,
    decreases n,
{
    lemma_decimal_digits(n / 10);
    lemma_decimal_digits(m / 10);
    if n < 10 && m < 10 {
        assert(seq![digit(n as int)][0] == digit(n as int));
        assert(seq![digit(m as int)][0] == digit(m as int));
    } else if n >= 10 && m >= 10 {
        let a = decimal(n / 10);
        let b = decimal(m / 10);
        assert(a.push(digit((n % 10) as int)).drop_last() == a);
        assert(b.push(digit((m % 10) as int)).drop_last() == b);
        assert(a.push(digit((n % 10) as int)).last() == digit((n % 10) as int));
        assert(b.push(digit((m % 10) as int)).last() == digit((m % 10) as int));
        lemma_decimal_injective(n / 10, m / 10);
    } else {
        assert(decimal(n).len() != decimal(m).len());
    }
}

/// Two identifiers are equal only if they were issued by the same node at the
/// same counter value: no two nodes, and no two counter values of one node,
/// ever yield the same identifier.
pub proof fn lemma_unique_id_injective(a: Seq<char>, n: nat, b: Seq<char>, m: nat)
    requires
        unique_id(a, n) == unique_id(b, m),
    ensures
        a == b,
        n == m,
{
    lemma_decimal_digits(n);
    lemma_decimal_digits(m);
    let x = unique_id(a, n);
    let y = unique_id(b, m);
    let p = decimal(n);
    let q = decimal(m);
    assert(x.len() == a.len() + 1 + p.len());
    assert(y.len() == b.len() + 1 + q.len());
    if p.len() < q.len() {
        let at = a.len() as int;
        assert(x[at] == '-');
        assert(y[at] == q[at - b.len() - 1]);
        assert(false);
    }
    if q.len() < p.len() {
        let at = b.len() as int;
        assert(y[at] == '-');
        assert(x[at] == p[at - a.len() - 1]);
        assert(false);
    }
    assert(a.len() == b.len());
    assert forall|i: int| 0 <= i < a.len() implies a[i] == b[i] by {
        assert(x[i] == a[i]);
        assert(y[i] == b[i]);
    }
    assert(a =~= b);
    assert forall|i: int| 0 <= i < p.len() implies p[i] == q[i] by {
        assert(x[a.len() + 1 + i] == p[i]);
        assert(y[b.len() + 1 + i] == q[i]);
    }
    assert(p =~= q);
    lemma_decimal_injective(n, m);
}

} // verus!
