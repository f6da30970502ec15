//! Ordering pairs: what the [Order] rules say goes before what, and whether a load
//! order follows them.
use vstd::prelude::*;

use crate::rules::{EOrderRule, ERule, Order};
use crate::wildcard::{strings_view, wild_contains, wild_contains_spec};

verus! {

pub type Pairs = Seq<(Seq<char>, Seq<char>)>;

pub open spec fn pairs_view(v: Seq<(String, String)>) -> Pairs {
    v.map_values(|p: (String, String)| (p.0@, p.1@))
}

/// The pairs of `names[i]` with each later name.
pub open spec fn row(names: Seq<Seq<char>>, i: int) -> Pairs {
    Seq::new((names.len() - i - 1) as nat, |k: int| (names[i], names[i + 1 + k]))
}

/// The rows of the first `n` names.
pub open spec fn rows_upto(names: Seq<Seq<char>>, n: int) -> Pairs
    decreases n,
{
    if n <= 0 {
        seq![]
    } else {
        rows_upto(names, n - 1) + row(names, n - 1)
    }
}

/// Every pair `(names[i], names[j])` with `i < j`, ordered by `i`, then by `j`.
pub open spec fn pair_permutations(names: Seq<Seq<char>>) -> Pairs {
    rows_upto(names, names.len() - 1)
}

/// Each name paired with every name after it: `[a, b, c]` gives `(a, b), (a, c), (b, c)`.
pub fn generate_pair_permutations(input: &[String]) -> (r: Vec<(String, String)>)
    requires
        input@.len() > 0,
    ensures
        pairs_view(r@) == pair_permutations(strings_view(input@)),
{
    let ghost names = strings_view(input@);
    let mut permutations: Vec<(String, String)> = Vec::new();
    let mut i: usize = 0;
    while i < input.len() - 1
        invariant
            input@.len() > 0,
            names == strings_view(input@),
            0 <= i <= input@.len() - 1,
            pairs_view(permutations@) == rows_upto(names, i as int),
        decreases input@.len() - 1 - i,
    {
        let mut j = i + 1;
        while j < input.len()
            invariant
                input@.len() > 0,
                names == strings_view(input@),
                0 <= i < input@.len() - 1,
                i + 1 <= j <= input@.len(),
                pairs_view(permutations@) == rows_upto(names, i as int) + row(names, i as int).subrange(
                    0,
                    j - i - 1,
                ),
            decreases input@.len() - j,
        {
            let ghost prev = pairs_view(permutations@);
            permutations.push((input[i].clone(), input[j].clone()));
            assert(pairs_view(permutations@) =~= prev.push((names[i as int], names[j as int])));
            j = j + 1;
            assert(pairs_view(permutations@) =~= rows_upto(names, i as int) + row(
                names,
                i as int,
            ).subrange(0, j - i - 1));
        }
        assert(row(names, i as int).subrange(0, j - i - 1) =~= row(names, i as int));
        i = i + 1;
    }
    permutations
}

/// The ordering pairs of one rule: those of an [Order] rule with at least two names.
pub open spec fn rule_pairs(r: EOrderRule) -> Pairs {
    match r {
        EOrderRule::Order(o) => order_pairs(o),
        _ => seq![],
    }
}

pub open spec fn order_pairs(o: Order) -> Pairs {
    if o.names@.len() >= 2 {
        pair_permutations(strings_view(o.names@))
    } else {
        seq![]
    }
}

/// The ordering pairs of the order rules, rule by rule.
pub open spec fn ordering_of(rules: Seq<EOrderRule>) -> Pairs
    decreases rules.len(),
{
    if rules.len() == 0 {
        seq![]
    } else {
        ordering_of(rules.subrange(0, rules.len() - 1)) + rule_pairs(rules[rules.len() - 1])
    }
}

pub open spec fn erule_pairs(r: ERule) -> Pairs {
    match r {
        ERule::EOrderRule(o) => rule_pairs(o),
        _ => seq![],
    }
}

pub open spec fn ordering_of_rules(rules: Seq<ERule>) -> Pairs
    decreases rules.len(),
{
    if rules.len() == 0 {
        seq![]
    } else {
        ordering_of_rules(rules.subrange(0, rules.len() - 1)) + erule_pairs(rules[rules.len() - 1])
    }
}

pub open spec fn ordering_of_orders(rules: Seq<Order>) -> Pairs
    decreases rules.len(),
{
    if rules.len() == 0 {
        seq![]
    } else {
        ordering_of_orders(rules.subrange(0, rules.len() - 1)) + order_pairs(rules[rules.len() - 1])
    }
}

/// Adds the pairs of an [Order] rule; a rule with fewer than two names adds nothing.
fn get_permutations(o: &Order, orders: &mut Vec<(String, String)>)
    ensures
        pairs_view(final(orders)@) == pairs_view(old(orders)@) + order_pairs(*o),
{
    if o.names.len() < 2 {
        assert(pairs_view(orders@) + seq![] =~= pairs_view(orders@));
        return ;
    }
    let mut p = generate_pair_permutations(o.names.as_slice());
    let ghost a = orders@;
    let ghost b = p@;
    orders.append(&mut p);
    assert(pairs_view(orders@) =~= pairs_view(a) + pairs_view(b));
}

/// Extracts the ordering pairs from the order rules.
pub fn get_ordering(rules: &Vec<ERule>) -> (r: Vec<(String, String)>)
    ensures
        pairs_view(r@) == ordering_of_rules(rules@),
{
    let mut orders: Vec<(String, String)> = Vec::new();
    let mut i: usize = 0;
    while i < rules.len()
        invariant
            0 <= i <= rules@.len(),
            pairs_view(orders@) == ordering_of_rules(rules@.subrange(0, i as int)),
        decreases rules@.len() - i,
    {
        let ghost pre = rules@.subrange(0, i + 1);
        assert(pre.subrange(0, pre.len() - 1) =~= rules@.subrange(0, i as int));
        if let ERule::EOrderRule(EOrderRule::Order(o)) = &rules[i] {
            get_permutations(o, &mut orders);
        } else {
            assert(pairs_view(orders@) + seq![] =~= pairs_view(orders@));
        }
        i = i + 1;
    }
    assert(rules@.subrange(0, rules@.len() as int) =~= rules@);
    orders
}

/// Extracts the ordering pairs from the order rules.
pub fn get_ordering_from_order_rules(rules: &[EOrderRule]) -> (r: Vec<(String, String)>)
    ensures
        pairs_view(r@) == ordering_of(rules@),
{
    let mut orders: Vec<(String, String)> = Vec::new();
    let mut i: usize = 0;
    while i < rules.len()
        invariant
            0 <= i <= rules@.len(),
            pairs_view(orders@) == ordering_of(rules@.subrange(0, i as int)),
        decreases rules@.len() - i,
    {
        let ghost pre = rules@.subrange(0, i + 1);
        assert(pre.subrange(0, pre.len() - 1) =~= rules@.subrange(0, i as int));
        if let EOrderRule::Order(o) = &rules[i] {
            get_permutations(o, &mut orders);
        } else {
            assert(pairs_view(orders@) + seq![] =~= pairs_view(orders@));
        }
        i = i + 1;
    }
    assert(rules@.subrange(0, rules@.len() as int) =~= rules@);
    orders
}

/// Extracts the ordering pairs from [Order] rules.
pub fn get_ordering_from_orders(rules: &Vec<Order>) -> (r: Vec<(String, String)>)
    ensures
        pairs_view(r@) == ordering_of_orders(rules@),
{
    let mut orders: Vec<(String, String)> = Vec::new();
    let mut i: usize = 0;
    while i < rules.len()
        invariant
            0 <= i <= rules@.len(),
            pairs_view(orders@) == ordering_of_orders(rules@.subrange(0, i as int)),
        decreases rules@.len() - i,
    {
        let ghost pre = rules@.subrange(0, i + 1);
        assert(pre.subrange(0, pre.len() - 1) =~= rules@.subrange(0, i as int));
        get_permutations(&rules[i], &mut orders);
        i = i + 1;
    }
    assert(rules@.subrange(0, rules@.len() as int) =~= rules@);
    orders
}

/// The index of the first occurrence of `x`, or -1.
pub open spec fn position(s: Seq<Seq<char>>, x: Seq<char>) -> int
    decreases s.len(),
{
    if s.len() == 0 {
        -1
    } else if s[0] == x {
        0
    } else {
        let r = position(s.drop_first(), x);
        if r < 0 {
            -1
        } else {
            r + 1
        }
    }
}

pub proof fn lemma_position(s: Seq<Seq<char>>, x: Seq<char>, i: int)
    requires
        0 <= i <= s.len(),
        forall|k: int| 0 <= k < i ==> s[k] != x,
    ensures
        i < s.len() && s[i] == x ==> position(s, x) == i,
        i == s.len() ==> position(s, x) == -1,
    decreases i,
{
    if i > 0 {
        lemma_position(s.drop_first(), x, i - 1);
    }
}

pub proof fn lemma_position_bounds(s: Seq<Seq<char>>, x: Seq<char>)
    ensures
        -1 <= position(s, x) < s.len(),
        s.contains(x) ==> 0 <= position(s, x) && s[position(s, x)] == x,
        s.contains(x) ==> forall|k: int| 0 <= k < position(s, x) ==> s[k] != x,
        !s.contains(x) ==> position(s, x) == -1,
    decreases s.len(),
{
    if s.len() > 0 {
        lemma_position_bounds(s.drop_first(), x);
        if s[0] != x && s.contains(x) {
            let k = choose|k: int| 0 <= k < s.len() && s[k] == x;
            assert(s.drop_first()[k - 1] == x);
        }
        if s[0] != x && s.contains(x) {
            assert forall|k: int| 0 <= k < position(s, x) implies s[k] != x by {
                if k > 0 {
                    assert(s[k] == s.drop_first()[k - 1]);
                }
            }
        }
        if s[0] != x && s.drop_first().contains(x) {
            let k = choose|k: int| 0 <= k < s.drop_first().len() && s.drop_first()[k] == x;
            assert(s[k + 1] == x);
        }
    }
}

/// The first index of `x` in the list.
pub fn position_of(list: &[String], x: &String) -> (r: Option<usize>)
    ensures
        match r {
            Some(i) => i as int == position(strings_view(list@), x@) && i < list@.len(),
            None => position(strings_view(list@), x@) == -1,
        },
{
    let ghost s = strings_view(list@);
    let mut i: usize = 0;
    while i < list.len()
        invariant
            0 <= i <= list@.len(),
            s == strings_view(list@),
            forall|k: int| 0 <= k < i ==> s[k] != x@,
        decreases list@.len() - i,
    {
        if list[i] == *x {
            proof {
                lemma_position(s, x@, i as int);
            }
            return Some(i);
        }
        i = i + 1;
    }
    proof {
        lemma_position(s, x@, i as int);
    }
    None
}

/// Whether the names that `a` refers to all come no later than those `b` refers to.
pub open spec fn pair_followed(result: Seq<Seq<char>>, a: Seq<char>, b: Seq<char>) -> bool {
    let ra = wild_contains_spec(result, a);
    let rb = wild_contains_spec(result, b);
    ra is Some && rb is Some ==> forall|x: int, y: int|
        0 <= x < ra->0.len() && 0 <= y < rb->0.len() ==> position(result, #[trigger] ra->0[x])
            <= position(result, #[trigger] rb->0[y])
}

proof fn lemma_pair_broken(
    s: Seq<Seq<char>>,
    a: Seq<char>,
    b: Seq<char>,
    ra: Seq<Seq<char>>,
    rb: Seq<Seq<char>>,
    x: int,
    y: int,
)
    requires
        wild_contains_spec(s, a) == Some(ra),
        wild_contains_spec(s, b) == Some(rb),
        0 <= x < ra.len(),
        0 <= y < rb.len(),
        position(s, ra[x]) > position(s, rb[y]),
    ensures
        !pair_followed(s, a, b),
{
    assert(wild_contains_spec(s, a)->0[x] == ra[x]);
    assert(wild_contains_spec(s, b)->0[y] == rb[y]);
}

/// Whether the load order follows every ordering pair of the rules.
pub open spec fn order_followed(result: Seq<Seq<char>>, rules: Seq<EOrderRule>) -> bool {
    forall|k: int|
        0 <= k < ordering_of(rules).len() ==> pair_followed(
            result,
            (#[trigger] ordering_of(rules)[k]).0,
            ordering_of(rules)[k].1,
        )
}

/// The names that a name or pattern refers to are in the list.
pub proof fn lemma_wild_in_list(list: Seq<Seq<char>>, p: Seq<char>, r: Seq<Seq<char>>)
    requires
        wild_contains_spec(list, p) == Some(r),
    ensures
        forall|k: int| 0 <= k < r.len() ==> list.contains(#[trigger] r[k]),
{
    if crate::wildcard::is_wild(p) {
        let pred = |x: Seq<char>| crate::wildcard::regex_is_match(crate::wildcard::wild_regex(p), x);
        assert(r == list.filter(pred));
        assert forall|k: int| 0 <= k < r.len() implies list.contains(#[trigger] r[k]) by {
            list.lemma_filter_contains_rev(pred, r[k]);
            assert(list.filter(pred).contains(r[k]));
        }
    }
}

/// Checks whether the load order follows the order rules.
#[verifier::loop_isolation(false)]
pub fn check_order(result: &[String], order_rules: &[EOrderRule]) -> (r: bool)
    ensures
        r == order_followed(strings_view(result@), order_rules@),
{
    let ghost s = strings_view(result@);
    let pairs = get_ordering_from_order_rules(order_rules);
    let ghost ps = ordering_of(order_rules@);
    let mut k: usize = 0;
    while k < pairs.len()
        invariant
            0 <= k <= pairs@.len(),
            s == strings_view(result@),
            ps == ordering_of(order_rules@),
            pairs_view(pairs@) == ps,
            forall|m: int| 0 <= m < k ==> pair_followed(s, (#[trigger] ps[m]).0, ps[m].1),
        decreases pairs@.len() - k,
    {
        let (a, b) = &pairs[k];
        assert(ps[k as int] == (a@, b@));
        if let Some(results_for_a) = wild_contains(result, a) {
            if let Some(results_for_b) = wild_contains(result, b) {
                let ghost ra = strings_view(results_for_a@);
                let ghost rb = strings_view(results_for_b@);
                assert(wild_contains_spec(s, a@) == Some(ra));
                assert(wild_contains_spec(s, b@) == Some(rb));
                proof {
                    lemma_wild_in_list(s, a@, ra);
                    lemma_wild_in_list(s, b@, rb);
                }
                let mut i: usize = 0;
                while i < results_for_a.len()
                    invariant
                        0 <= i <= results_for_a@.len(),
                        s == strings_view(result@),
                        ra == strings_view(results_for_a@),
                        rb == strings_view(results_for_b@),
                        forall|x: int| 0 <= x < ra.len() ==> s.contains(#[trigger] ra[x]),
                        forall|y: int| 0 <= y < rb.len() ==> s.contains(#[trigger] rb[y]),
                        forall|x: int, y: int|
                            0 <= x < i && 0 <= y < rb.len() ==> position(s, #[trigger] ra[x])
                                <= position(s, #[trigger] rb[y]),
                    decreases results_for_a@.len() - i,
                {
                    let mut j: usize = 0;
                    while j < results_for_b.len()
                        invariant
                            0 <= i < results_for_a@.len(),
                            0 <= j <= results_for_b@.len(),
                            s == strings_view(result@),
                            ra == strings_view(results_for_a@),
                            rb == strings_view(results_for_b@),
                            forall|x: int| 0 <= x < ra.len() ==> s.contains(#[trigger] ra[x]),
                            forall|y: int| 0 <= y < rb.len() ==> s.contains(#[trigger] rb[y]),
                            forall|x: int, y: int|
                                0 <= x < i && 0 <= y < rb.len() ==> position(s, #[trigger] ra[x])
                                    <= position(s, #[trigger] rb[y]),
                            forall|y: int|
                                0 <= y < j ==> position(s, ra[i as int]) <= position(
                                    s,
                                    #[trigger] rb[y],
                                ),
                        decreases results_for_b@.len() - j,
                    {
                        let pa = position_of(result, &results_for_a[i]);
                        let pb = position_of(result, &results_for_b[j]);
                        proof {
                            assert(ra[i as int] == results_for_a@[i as int]@);
                            assert(rb[j as int] == results_for_b@[j as int]@);
                            lemma_position_bounds(s, ra[i as int]);
                            lemma_position_bounds(s, rb[j as int]);
                            assert(s.contains(ra[i as int]));
                            assert(s.contains(rb[j as int]));
                        }
                        match (pa, pb) {
                            (Some(pos_a), Some(pos_b)) => {
                                if pos_a > pos_b {
                                    assert(position(s, ra[i as int]) > position(s, rb[j as int]));
                                    proof {
                                        lemma_pair_broken(s, a@, b@, ra, rb, i as int, j as int);
                                    }
                                    assert(!order_followed(s, order_rules@)) by {
                                        assert(ps[k as int] == (a@, b@));
                                    }
                                    return false;
                                }
                            },
                            _ => {
                                assert(false);
                            },
                        }
                        j = j + 1;
                    }
                    i = i + 1;
                }
            }
        }
        k = k + 1;
    }
    true
}

} // verus!
