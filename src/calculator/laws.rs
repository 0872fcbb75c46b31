//! Properties that relate the calculator's operations to each other.
use super::rules::{acyclic, consumes, is_ranking, Operation, Rule, Rules};
use super::{
    apply, grows_by_values, input_value, invalidated, is_stale_path, input_touched, operands_touched, touched, lemma_stale_ranks_above, value,
    without_stale, EvalError,
};
use crate::scalar::Scalar;
use vstd::prelude::*;

verus! {

/// A key with neither a rule nor a cached value reads as zero.
pub proof fn lemma_unset_key_reads_zero<V: Scalar>(rs: Rules, c: Map<u64, V>, k: u64)
    requires
        !c.contains_key(k),
        !rs.rule_map().contains_key(k),
    ensures
        value(rs, c, k) == Ok::<V, EvalError>(V::spec_zero()),
{
}

/// After `set` writes `val` over a cached `key`, every key whose rule consumes
/// `key` is no longer cached, so reading it computes it again from its rule, in
/// which `key` reads `val`. Keys ranked below `key` (among them every key that
/// `key` is computed from) keep their cached state.
pub proof fn lemma_set_recomputes_consumers<V: Scalar>(
    rs: Rules,
    c: Map<u64, V>,
    key: u64,
    val: V,
    p: u64,
)
    requires
        rs.wf(),
        c.contains_key(key),
        consumes(rs.rule_map(), p, key),
    ensures
        ({
            let c2 = without_stale(rs, c.insert(key, val), key);
            &&& !c2.contains_key(p)
            &&& value(rs, c2, p) == apply(
                rs,
                c2,
                rs.rule_map()[p].spec_op(),
                rs.rule_map()[p].spec_inputs(),
                rs.rank_of(p),
            )
            &&& input_value(rs, c2, key, rs.rank_of(p)) == Ok::<V, EvalError>(val)
            &&& forall|d: u64|
                #![trigger c2.contains_key(d)]
                #![trigger c.contains_key(d)]
                rs.rank_of(d) < rs.rank_of(key) ==> (c2.contains_key(d) == c.contains_key(d) && (
                c.contains_key(d) ==> c2[d] == c[d]))
        }),
{
    let c1 = c.insert(key, val);
    let c2 = without_stale(rs, c1, key);
    if c1.contains_key(p) {
        let path = seq![key, p];
        assert(path[0] == key);
        assert(path[1] == p);
        assert(is_stale_path(rs, c1, key, path));
        assert(invalidated(rs, c1, key, p));
    }
    if invalidated(rs, c1, key, key) {
        lemma_stale_ranks_above(rs, c1, key, key);
    }
    assert(rs.rule_map()[p].spec_inputs().contains(key));
    let i = choose|i: int|
        0 <= i < rs.rule_map()[p].spec_inputs().len() && rs.rule_map()[p].spec_inputs()[i] == key;
    rs.lemma_input_rank(p, i);
    assert forall|d: u64| rs.rank_of(d) < rs.rank_of(key) implies (#[trigger] c2.contains_key(d)
        == c.contains_key(d) && (c.contains_key(d) ==> c2[d] == c[d])) by {
        if invalidated(rs, c1, key, d) {
            lemma_stale_ranks_above(rs, c1, key, d);
        }
    }
}

/// A successful read of a key whose rule sums or multiplies its inputs leaves
/// every input cached (`get` adds exactly the keys of `touched`), so that a
/// later `set` on an input reaches the key.
pub proof fn lemma_read_caches_inputs<V: Scalar>(rs: Rules, c: Map<u64, V>, p: u64, x: u64)
    requires
        rs.wf(),
        !c.contains_key(p),
        consumes(rs.rule_map(), p, x),
        rs.rule_map()[p].spec_op() == Operation::Sum || rs.rule_map()[p].spec_op()
            == Operation::Product || rs.rule_map()[p].spec_op() == Operation::SumPlusOne,
    ensures
        c.contains_key(x) || touched(rs, c, p).contains(x),
{
    let inputs = rs.rule_map()[p].spec_inputs();
    if !c.contains_key(x) {
        let i = choose|i: int| 0 <= i < inputs.len() && inputs[i] == x;
        rs.lemma_input_rank(p, i);
        lemma_operands_touched_contains(rs, c, inputs, rs.rank_of(p), i);
    }
}

proof fn lemma_operands_touched_contains<V: Scalar>(
    rs: Rules,
    c: Map<u64, V>,
    inputs: Seq<u64>,
    b: nat,
    i: int,
)
    requires
        0 <= i < inputs.len(),
        rs.rank_of(inputs[i]) < b,
        !c.contains_key(inputs[i]),
    ensures
        operands_touched(rs, c, inputs, b).contains(inputs[i]),
    decreases inputs.len(),
{
    assert(operands_touched(rs, c, inputs, b) == operands_touched(rs, c, inputs.drop_last(), b).union(
        input_touched(rs, c, inputs.last(), b),
    ));
    if i == inputs.len() - 1 {
        assert(input_touched(rs, c, inputs.last(), b) == touched(rs, c, inputs[i]));
        assert(touched(rs, c, inputs[i]).contains(inputs[i]));
    } else {
        assert(inputs.drop_last()[i] == inputs[i]);
        lemma_operands_touched_contains(rs, c, inputs.drop_last(), b, i);
    }
}

/// After `place` writes `val` for `key`, `key` reads `val`, while a cached
/// consumer of it keeps, and reads, the value it had.
pub proof fn lemma_place_keeps_consumers<V: Scalar>(
    rs: Rules,
    c: Map<u64, V>,
    key: u64,
    val: V,
    p: u64,
)
    requires
        c.contains_key(p),
        p != key,
    ensures
        value(rs, c.insert(key, val), key) == Ok::<V, EvalError>(val),
        value(rs, c.insert(key, val), p) == Ok::<V, EvalError>(c[p]),
{
}

/// A second read right after a successful one, on the cache the first read
/// left, returns the same value (and, by `get`'s contract, computes nothing).
pub proof fn lemma_get_idempotent<V: Scalar>(rs: Rules, c0: Map<u64, V>, c1: Map<u64, V>, key: u64)
    requires
        value(rs, c0, key) is Ok,
        grows_by_values(rs, c0, c1),
        c1.contains_key(key),
        c1[key] == value(rs, c0, key)->Ok_0,
    ensures
        value(rs, c1, key) == value(rs, c0, key),
{
}

/// Rules in which a chain of consumers leads from a key back to itself have no
/// ranking, so `Rules::new` refuses them.
pub proof fn lemma_cycle_not_acyclic(m: Map<u64, Rule>, path: Seq<u64>)
    requires
        path.len() >= 2,
        path[0] == path.last(),
        forall|i: int| 0 <= i < path.len() - 1 ==> consumes(m, path[i + 1], #[trigger] path[i]),
    ensures
        !acyclic(m),
{
    if acyclic(m) {
        let r = choose|r: Map<u64, nat>| is_ranking(m, r);
        lemma_ranks_climb(m, r, path, path.len() - 1);
    }
}

proof fn lemma_ranks_climb(m: Map<u64, Rule>, r: Map<u64, nat>, path: Seq<u64>, i: int)
    requires
        is_ranking(m, r),
        path.len() >= 2,
        path[0] == path.last(),
        forall|j: int| 0 <= j < path.len() - 1 ==> consumes(m, path[j + 1], #[trigger] path[j]),
        1 <= i < path.len(),
    ensures
        r[path[i]] >= r[path[0]] + i,
    decreases i,
{
    assert(consumes(m, path[1], path[0]));
    assert(consumes(m, path[i], path[i - 1]));
    assert(m.contains_key(path[0])) by {
        assert(consumes(m, path[path.len() - 1], path[path.len() - 2]));
    }
    if i > 1 {
        lemma_ranks_climb(m, r, path, i - 1);
        assert(m.contains_key(path[i - 1])) by {
            assert(consumes(m, path[i - 1], path[i - 2]));
        }
    }
}

} // verus!
