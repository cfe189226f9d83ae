//! Priority order: rules arranged by descending specificity, rules of equal
//! specificity in the order of their declaration.

use vstd::prelude::*;

use crate::rules::{Rule, RuleView};

verus! {

/// Whether the item declared at `i` goes before the item declared at `j`:
/// it has the larger key, or the same key and the earlier declaration.
pub open spec fn outranks(keys: Seq<nat>, i: int, j: int) -> bool {
    keys[i] > keys[j] || (keys[i] == keys[j] && i < j)
}

/// Whether `origins` lists the declaration indices of `keys` in priority
/// order: every index occurs, and each entry outranks all that follow it.
pub open spec fn is_priority_order(keys: Seq<nat>, origins: Seq<int>) -> bool {
    &&& origins.len() == keys.len()
    &&& forall|p: int| 0 <= p < origins.len() ==> 0 <= #[trigger] origins[p] < keys.len()
    &&& forall|i: int| 0 <= i < keys.len() ==> #[trigger] origins.contains(i)
    &&& forall|p: int, q: int|
        0 <= p < q < origins.len() ==> outranks(keys, #[trigger] origins[p], #[trigger] origins[q])
}

/// The declaration indices of `keys` in priority order.
pub open spec fn priority_origins(keys: Seq<nat>) -> Seq<int> {
    choose|origins: Seq<int>| is_priority_order(keys, origins)
}

/// The items of `items` in the order that `origins` lists.
pub open spec fn arrange<T>(items: Seq<T>, origins: Seq<int>) -> Seq<T> {
    Seq::new(origins.len(), |p: int| items[origins[p]])
}

/// The specificity of each rule, in order.
pub open spec fn specificities(rules: Seq<RuleView>) -> Seq<nat> {
    Seq::new(rules.len(), |i: int| rules[i].pattern.specificity())
}

/// The mathematical content of each rule, in order.
pub open spec fn rule_views(rules: Seq<Rule>) -> Seq<RuleView> {
    Seq::new(rules.len(), |i: int| rules[i]@)
}

/// The rules of `declared` in priority order.
pub open spec fn priority_order(declared: Seq<RuleView>) -> Seq<RuleView> {
    arrange(declared, priority_origins(specificities(declared)))
}

/// Placing the last declared item into the priority order of the others,
/// behind every item whose key is at least as large and before every item
/// whose key is smaller, gives the priority order of all.
pub proof fn lemma_place_newcomer(keys: Seq<nat>, origins: Seq<int>, slot: int)
    requires
        keys.len() > 0,
        is_priority_order(keys.drop_last(), origins),
        0 <= slot <= origins.len(),
        forall|p: int| 0 <= p < slot ==> keys[#[trigger] origins[p]] >= keys.last(),
        forall|p: int| slot <= p < origins.len() ==> keys[#[trigger] origins[p]] < keys.last(),
    ensures
        is_priority_order(keys, origins.insert(slot, keys.len() - 1)),
{
    let newcomer = keys.len() - 1;
    let placed = origins.insert(slot, newcomer);
    let earlier = keys.drop_last();
    assert forall|i: int| 0 <= i < keys.len() implies #[trigger] placed.contains(i) by {
        if i == newcomer {
            assert(placed[slot] == i);
        } else {
            assert(origins.contains(i));
            let p = choose|p: int| 0 <= p < origins.len() && origins[p] == i;
            if p < slot {
                assert(placed[p] == i);
            } else {
                assert(placed[p + 1] == i);
            }
        }
    }
    assert forall|p: int, q: int| 0 <= p < q < placed.len() implies outranks(
        keys,
        #[trigger] placed[p],
        #[trigger] placed[q],
    ) by {
        if p == slot {
            assert(placed[q] == origins[q - 1]);
        } else if q == slot {
            assert(placed[p] == origins[p]);
        } else {
            let before_p = if p < slot { p } else { p - 1 };
            let before_q = if q < slot { q } else { q - 1 };
            assert(placed[p] == origins[before_p]);
            assert(placed[q] == origins[before_q]);
            assert(outranks(earlier, origins[before_p], origins[before_q]));
        }
    }
}

/// In a priority order, the items whose key is at least `key` form a
/// leading run; the result is its length.
proof fn lemma_find_slot(keys: Seq<nat>, origins: Seq<int>, key: nat, upper: int) -> (slot: int)
    requires
        is_priority_order(keys, origins),
        0 <= upper <= origins.len(),
        forall|p: int| upper <= p < origins.len() ==> keys[#[trigger] origins[p]] < key,
    ensures
        0 <= slot <= origins.len(),
        forall|p: int| 0 <= p < slot ==> keys[#[trigger] origins[p]] >= key,
        forall|p: int| slot <= p < origins.len() ==> keys[#[trigger] origins[p]] < key,
    decreases upper,
{
    if upper == 0 {
        0
    } else if keys[origins[upper - 1]] >= key {
        assert forall|p: int| 0 <= p < upper implies keys[#[trigger] origins[p]] >= key by {
            if p < upper - 1 {
                assert(outranks(keys, origins[p], origins[upper - 1]));
            }
        }
        upper
    } else {
        lemma_find_slot(keys, origins, key, upper - 1)
    }
}

/// Every sequence of keys has a priority order.
pub proof fn lemma_priority_order_exists(keys: Seq<nat>)
    ensures
        is_priority_order(keys, priority_origins(keys)),
    decreases keys.len(),
{
    if keys.len() == 0 {
        assert(is_priority_order(keys, Seq::<int>::empty()));
    } else {
        let earlier = keys.drop_last();
        lemma_priority_order_exists(earlier);
        let origins = priority_origins(earlier);
        let slot = lemma_find_slot(earlier, origins, keys.last(), origins.len() as int);
        lemma_place_newcomer(keys, origins, slot);
    }
}

/// Two priority orders of the same keys agree on their first `upto` entries.
proof fn lemma_priority_orders_agree(keys: Seq<nat>, a: Seq<int>, b: Seq<int>, upto: int)
    requires
        is_priority_order(keys, a),
        is_priority_order(keys, b),
        0 <= upto <= keys.len(),
    ensures
        forall|p: int| 0 <= p < upto ==> a[p] == b[p],
    decreases upto,
{
    if upto > 0 {
        lemma_priority_orders_agree(keys, a, b, upto - 1);
        let p = upto - 1;
        if a[p] != b[p] {
            assert(b.contains(a[p]));
            let q = choose|q: int| 0 <= q < b.len() && b[q] == a[p];
            assert(a.contains(b[p]));
            let r = choose|r: int| 0 <= r < a.len() && a[r] == b[p];
            if q < p {
                assert(outranks(keys, a[q], a[p]));
            } else if r < p {
                assert(outranks(keys, b[r], b[p]));
            } else {
                assert(outranks(keys, b[p], b[q]));
                assert(outranks(keys, a[p], a[r]));
            }
        }
    }
}

/// The priority order of a sequence of keys is unique.
pub proof fn lemma_priority_order_unique(keys: Seq<nat>, origins: Seq<int>)
    requires
        is_priority_order(keys, origins),
    ensures
        origins == priority_origins(keys),
{
    lemma_priority_order_exists(keys);
    lemma_priority_orders_agree(keys, origins, priority_origins(keys), keys.len() as int);
    assert(origins =~= priority_origins(keys));
}

/// The place of the item declared at `i` in the priority order of `keys`.
pub open spec fn position_of(keys: Seq<nat>, i: int) -> int {
    priority_origins(keys).index_of(i)
}

/// Every declared item has exactly one place in the priority order, and the
/// order lists it there.
pub proof fn law_every_item_has_one_place(keys: Seq<nat>, i: int)
    requires
        0 <= i < keys.len(),
    ensures
        0 <= position_of(keys, i) < keys.len(),
        priority_origins(keys)[position_of(keys, i)] == i,
        forall|p: int|
            0 <= p < keys.len() && priority_origins(keys)[p] == i ==> p == position_of(keys, i),
{
    lemma_priority_order_exists(keys);
    let origins = priority_origins(keys);
    assert(origins.contains(i));
    let at = position_of(keys, i);
    assert forall|p: int| 0 <= p < keys.len() && origins[p] == i implies p == at by {
        if p < at {
            assert(outranks(keys, origins[p], origins[at]));
        } else if at < p {
            assert(outranks(keys, origins[at], origins[p]));
        }
    }
}

/// Of two declared items, the one with the larger key comes first in
/// priority order; with equal keys, the one declared first.
pub proof fn law_priority_positions(keys: Seq<nat>, i: int, j: int)
    requires
        0 <= i < keys.len(),
        0 <= j < keys.len(),
        i != j,
    ensures
        position_of(keys, i) < position_of(keys, j) <==> outranks(keys, i, j),
{
    lemma_priority_order_exists(keys);
    law_every_item_has_one_place(keys, i);
    law_every_item_has_one_place(keys, j);
    let origins = priority_origins(keys);
    let p = position_of(keys, i);
    let q = position_of(keys, j);
    if p < q {
        assert(outranks(keys, origins[p], origins[q]));
    } else if q < p {
        assert(outranks(keys, origins[q], origins[p]));
    }
}

/// Items with equal keys keep the order of their declaration.
pub proof fn law_ties_keep_declaration_order(keys: Seq<nat>, i: int, j: int)
    requires
        0 <= i < j < keys.len(),
        keys[i] == keys[j],
    ensures
        position_of(keys, i) < position_of(keys, j),
{
    law_priority_positions(keys, i, j);
}

/// An item with a larger key comes before one with a smaller key, wherever
/// the two were declared.
pub proof fn law_larger_key_comes_first(keys: Seq<nat>, i: int, j: int)
    requires
        0 <= i < keys.len(),
        0 <= j < keys.len(),
        keys[i] > keys[j],
    ensures
        position_of(keys, i) < position_of(keys, j),
{
    law_priority_positions(keys, i, j);
}

/// The priority order of rules holds each declared rule once, at the place
/// of its declaration index, and its specificities never rise.
pub proof fn law_priority_order_rearranges(declared: Seq<RuleView>)
    ensures
        priority_order(declared).len() == declared.len(),
        forall|i: int|
            0 <= i < declared.len() ==> priority_order(declared)[position_of(
                specificities(declared),
                i,
            )] == #[trigger] declared[i],
        forall|p: int, q: int|
            0 <= p < q < declared.len() ==> priority_order(declared)[p].pattern.specificity()
                >= priority_order(declared)[q].pattern.specificity(),
{
    let keys = specificities(declared);
    lemma_priority_order_exists(keys);
    let origins = priority_origins(keys);
    assert forall|i: int| 0 <= i < declared.len() implies priority_order(declared)[position_of(
        keys,
        i,
    )] == #[trigger] declared[i] by {
        law_every_item_has_one_place(keys, i);
    }
    assert forall|p: int, q: int| 0 <= p < q < declared.len() implies priority_order(
        declared,
    )[p].pattern.specificity() >= priority_order(declared)[q].pattern.specificity() by {
        assert(outranks(keys, origins[p], origins[q]));
    }
}

/// Sorts `rules` into priority order.
pub fn sort_by_priority(rules: Vec<Rule>) -> (sorted: Vec<Rule>)
    ensures
        sorted@ == arrange(rules@, priority_origins(specificities(rule_views(rules@)))),
{
    let ghost declared = rules@;
    let ghost keys = specificities(rule_views(declared));
    let ghost mut origins: Seq<int> = Seq::empty();
    let mut sorted: Vec<Rule> = Vec::new();
    let mut sorted_keys: Vec<u128> = Vec::new();
    proof {
        assert(is_priority_order(keys.take(0), origins));
    }
    for rule in pending: rules
        invariant
            keys == specificities(rule_views(declared)),
            pending.seq() == declared,
            is_priority_order(keys.take(pending.index() as int), origins),
            sorted@ == arrange(declared, origins),
            sorted_keys@.len() == origins.len(),
            forall|p: int| 0 <= p < origins.len() ==> sorted_keys@[p] == keys[#[trigger] origins[p]],
    {
        let ghost taken = pending.index() as int;
        assert(rule == declared[taken]);
        let key: u128 = rule.pattern.sort_key();
        assert(key == keys[taken]);
        let mut slot: usize = sorted_keys.len();
        while slot > 0 && sorted_keys[slot - 1] < key
            invariant
                slot <= sorted_keys@.len(),
                sorted_keys@.len() == origins.len(),
                forall|p: int|
                    0 <= p < origins.len() ==> sorted_keys@[p] == keys[#[trigger] origins[p]],
                forall|p: int| slot <= p < origins.len() ==> keys[#[trigger] origins[p]] < key,
            decreases slot,
        {
            slot -= 1;
        }
        proof {
            let upto = keys.take(taken + 1);
            assert(upto.drop_last() =~= keys.take(taken));
            assert forall|p: int| 0 <= p < slot implies upto[#[trigger] origins[p]]
                >= upto.last() by {
                if p < slot - 1 {
                    assert(outranks(keys.take(taken), origins[p], origins[slot - 1]));
                }
            }
            lemma_place_newcomer(upto, origins, slot as int);
            assert(sorted@.insert(slot as int, rule) =~= arrange(
                declared,
                origins.insert(slot as int, taken),
            ));
            origins = origins.insert(slot as int, taken);
        }
        sorted.insert(slot, rule);
        sorted_keys.insert(slot, key);
    }
    proof {
        assert(keys.take(declared.len() as int) =~= keys);
        lemma_priority_order_unique(keys, origins);
    }
    sorted
}

} // verus!
