use crate::scalar::Scalar;
use rules::{consumes, Operation, Rules};
use std::collections::HashMap;
use vstd::prelude::*;

pub mod laws;
pub mod rules;

verus! {

broadcast use vstd::std_specs::hash::group_hash_axioms;

/// Why a value could not be computed.
#[derive(Clone, Copy, Debug, PartialEq, Eq, Structural)]
pub enum EvalError {
    /// A negation or a mux rule has no input. `Rules::new` refuses such rules,
    /// so a calculator over a rule set it built never reports this.
    MissingOperand,
    /// A strict mux rule's selector points past its inputs.
    SelectorOutOfRange,
}

/// The sum of `vs`, added from the left and starting from zero.
pub open spec fn sum_of<V: Scalar>(vs: Seq<V>) -> V
    decreases vs.len(),
{
    if vs.len() == 0 {
        V::spec_zero()
    } else {
        V::spec_add(sum_of(vs.drop_last()), vs.last())
    }
}

/// The product of `vs`, multiplied from the left and starting from one.
pub open spec fn product_of<V: Scalar>(vs: Seq<V>) -> V
    decreases vs.len(),
{
    if vs.len() == 0 {
        V::spec_one()
    } else {
        V::spec_mul(product_of(vs.drop_last()), vs.last())
    }
}

/// The value of `k` under the rules `rs` with the cache `c`: the cached value if
/// there is one, else what its rule computes from the values of its inputs, else
/// zero.
pub open spec fn value<V: Scalar>(rs: Rules, c: Map<u64, V>, k: u64) -> Result<V, EvalError>
    decreases rs.rank_of(k), 2nat, 0nat,
{
    if c.contains_key(k) {
        Ok(c[k])
    } else if rs.rule_map().contains_key(k) {
        apply(rs, c, rs.rule_map()[k].spec_op(), rs.rule_map()[k].spec_inputs(), rs.rank_of(k))
    } else {
        Ok(V::spec_zero())
    }
}

/// The value of an input `x` of a rule whose key ranks `b`. In a well-formed rule
/// set every input ranks below its rule, so the error branch is never taken
/// there; it only bounds the recursion.
pub open spec fn input_value<V: Scalar>(rs: Rules, c: Map<u64, V>, x: u64, b: nat) -> Result<
    V,
    EvalError,
>
    decreases b, 0nat, 0nat,
{
    if rs.rank_of(x) < b {
        value(rs, c, x)
    } else {
        Err(EvalError::MissingOperand)
    }
}

/// The values of `inputs` read from left to right, or the first error among them.
pub open spec fn operand_values<V: Scalar>(
    rs: Rules,
    c: Map<u64, V>,
    inputs: Seq<u64>,
    b: nat,
) -> Result<Seq<V>, EvalError>
    decreases b, 0nat, inputs.len(),
{
    if inputs.len() == 0 {
        Ok(Seq::empty())
    } else {
        match operand_values(rs, c, inputs.drop_last(), b) {
            Err(e) => Err(e),
            Ok(vs) => match input_value(rs, c, inputs.last(), b) {
                Err(e) => Err(e),
                Ok(v) => Ok(vs.push(v)),
            },
        }
    }
}

/// What operation `op` gives on the values of `inputs`. A mux reads only its
/// selector and the input that the selector picks; a selector that picks no
/// input after itself (position zero, or past the end) is out of range.
pub open spec fn apply<V: Scalar>(
    rs: Rules,
    c: Map<u64, V>,
    op: Operation,
    inputs: Seq<u64>,
    b: nat,
) -> Result<V, EvalError>
    decreases b, 1nat, 0nat,
{
    match op {
        Operation::Sum => match operand_values(rs, c, inputs, b) {
            Ok(vs) => Ok(sum_of(vs)),
            Err(e) => Err(e),
        },
        Operation::Product => match operand_values(rs, c, inputs, b) {
            Ok(vs) => Ok(product_of(vs)),
            Err(e) => Err(e),
        },
        Operation::SumPlusOne => match operand_values(rs, c, inputs, b) {
            Ok(vs) => Ok(V::spec_add(sum_of(vs), V::spec_one())),
            Err(e) => Err(e),
        },
        Operation::Negate => if inputs.len() == 0 {
            Err(EvalError::MissingOperand)
        } else {
            match input_value(rs, c, inputs[0], b) {
                Ok(v) => Ok(V::spec_neg(v)),
                Err(e) => Err(e),
            }
        },
        _ => if inputs.len() == 0 {
            Err(EvalError::MissingOperand)
        } else {
            match input_value(rs, c, inputs[0], b) {
                Err(e) => Err(e),
                Ok(s) => {
                    let p = V::spec_mux_position(s);
                    if 1 <= p < inputs.len() {
                        input_value(rs, c, inputs[p as int], b)
                    } else if op == Operation::MuxOrOne {
                        Ok(V::spec_one())
                    } else if op == Operation::MuxOrZero {
                        Ok(V::spec_zero())
                    } else {
                        Err(EvalError::SelectorOutOfRange)
                    }
                }
            }
        },
    }
}

/// The keys that a read of `k` computes and caches, starting from the cache `c`:
/// none when `k` is cached; else `k` itself and, for a rule, the keys that its
/// operation reads (a mux reads only its selector and the input it picks).
pub open spec fn touched<V: Scalar>(rs: Rules, c: Map<u64, V>, k: u64) -> Set<u64>
    decreases rs.rank_of(k), 2nat, 0nat,
{
    if c.contains_key(k) {
        Set::empty()
    } else if rs.rule_map().contains_key(k) {
        apply_touched(
            rs,
            c,
            rs.rule_map()[k].spec_op(),
            rs.rule_map()[k].spec_inputs(),
            rs.rank_of(k),
        ).insert(k)
    } else {
        Set::empty().insert(k)
    }
}

/// The keys that a read of the input `x` of a rule ranked `b` caches.
pub open spec fn input_touched<V: Scalar>(rs: Rules, c: Map<u64, V>, x: u64, b: nat) -> Set<u64>
    decreases b, 0nat, 0nat,
{
    if rs.rank_of(x) < b {
        touched(rs, c, x)
    } else {
        Set::empty()
    }
}

/// The keys that reading all of `inputs` caches.
pub open spec fn operands_touched<V: Scalar>(
    rs: Rules,
    c: Map<u64, V>,
    inputs: Seq<u64>,
    b: nat,
) -> Set<u64>
    decreases b, 0nat, inputs.len(),
{
    if inputs.len() == 0 {
        Set::empty()
    } else {
        operands_touched(rs, c, inputs.drop_last(), b).union(input_touched(rs, c, inputs.last(), b))
    }
}

/// The keys that applying `op` to `inputs` caches.
pub open spec fn apply_touched<V: Scalar>(
    rs: Rules,
    c: Map<u64, V>,
    op: Operation,
    inputs: Seq<u64>,
    b: nat,
) -> Set<u64>
    decreases b, 1nat, 0nat,
{
    if op == Operation::Sum || op == Operation::Product || op == Operation::SumPlusOne {
        operands_touched(rs, c, inputs, b)
    } else if inputs.len() == 0 {
        Set::empty()
    } else if op == Operation::Negate {
        input_touched(rs, c, inputs[0], b)
    } else {
        let sel = input_touched(rs, c, inputs[0], b);
        match input_value(rs, c, inputs[0], b) {
            Ok(s) => {
                let p = V::spec_mux_position(s);
                if 1 <= p < inputs.len() {
                    sel.union(input_touched(rs, c, inputs[p as int], b))
                } else {
                    sel
                }
            },
            Err(_) => sel,
        }
    }
}

/// Every key of `s` reads, from `c`, only keys of `s`.
pub open spec fn reads_within<V: Scalar>(rs: Rules, c: Map<u64, V>, s: Set<u64>) -> bool {
    forall|k: u64| #[trigger] s.contains(k) ==> touched(rs, c, k).subset_of(s)
}

/// A key that a read caches reads only keys that the same read caches.
proof fn lemma_touched_closed<V: Scalar>(rs: Rules, c: Map<u64, V>, k: u64)
    ensures
        reads_within(rs, c, touched(rs, c, k)),
    decreases rs.rank_of(k), 2nat, 0nat,
{
    if !c.contains_key(k) && rs.rule_map().contains_key(k) {
        let op = rs.rule_map()[k].spec_op();
        let inputs = rs.rule_map()[k].spec_inputs();
        lemma_apply_touched_closed(rs, c, op, inputs, rs.rank_of(k));
        let t = touched(rs, c, k);
        assert forall|j: u64| #[trigger] t.contains(j) implies touched(rs, c, j).subset_of(t) by {
            if j != k {
                assert(apply_touched(rs, c, op, inputs, rs.rank_of(k)).contains(j));
            }
        }
    } else if !c.contains_key(k) {
        let t = touched(rs, c, k);
        assert forall|j: u64| #[trigger] t.contains(j) implies touched(rs, c, j).subset_of(t) by {
            assert(j == k);
        }
    }
}

proof fn lemma_input_touched_closed<V: Scalar>(rs: Rules, c: Map<u64, V>, x: u64, b: nat)
    ensures
        reads_within(rs, c, input_touched(rs, c, x, b)),
    decreases b, 0nat, 0nat,
{
    if rs.rank_of(x) < b {
        lemma_touched_closed(rs, c, x);
    }
}

proof fn lemma_union_closed<V: Scalar>(rs: Rules, c: Map<u64, V>, s: Set<u64>, t: Set<u64>)
    requires
        reads_within(rs, c, s),
        reads_within(rs, c, t),
    ensures
        reads_within(rs, c, s.union(t)),
{
    assert forall|k: u64| #[trigger] s.union(t).contains(k) implies touched(rs, c, k).subset_of(
        s.union(t),
    ) by {
        if s.contains(k) {
            assert(touched(rs, c, k).subset_of(s));
        } else {
            assert(touched(rs, c, k).subset_of(t));
        }
    }
}

proof fn lemma_operands_touched_closed<V: Scalar>(
    rs: Rules,
    c: Map<u64, V>,
    inputs: Seq<u64>,
    b: nat,
)
    ensures
        reads_within(rs, c, operands_touched(rs, c, inputs, b)),
    decreases b, 0nat, inputs.len(),
{
    if inputs.len() > 0 {
        lemma_operands_touched_closed(rs, c, inputs.drop_last(), b);
        lemma_input_touched_closed(rs, c, inputs.last(), b);
        lemma_union_closed(
            rs,
            c,
            operands_touched(rs, c, inputs.drop_last(), b),
            input_touched(rs, c, inputs.last(), b),
        );
    }
}

proof fn lemma_apply_touched_closed<V: Scalar>(
    rs: Rules,
    c: Map<u64, V>,
    op: Operation,
    inputs: Seq<u64>,
    b: nat,
)
    ensures
        reads_within(rs, c, apply_touched(rs, c, op, inputs, b)),
    decreases b, 1nat, 0nat,
{
    lemma_operands_touched_closed(rs, c, inputs, b);
    if inputs.len() > 0 {
        lemma_input_touched_closed(rs, c, inputs[0], b);
        match input_value(rs, c, inputs[0], b) {
            Ok(s) => {
                let p = V::spec_mux_position(s);
                if 1 <= p < inputs.len() {
                    lemma_input_touched_closed(rs, c, inputs[p as int], b);
                    lemma_union_closed(
                        rs,
                        c,
                        input_touched(rs, c, inputs[0], b),
                        input_touched(rs, c, inputs[p as int], b),
                    );
                }
            },
            Err(_) => {},
        }
    }
}

/// Reading from a cache that already holds the values of a set `s` of keys, read
/// from `c`, caches the same keys as reading from `c`, apart from those of `s`.
proof fn lemma_touched_shift<V: Scalar>(
    rs: Rules,
    c: Map<u64, V>,
    c1: Map<u64, V>,
    s: Set<u64>,
    k: u64,
)
    requires
        grows_by_values(rs, c, c1),
        forall|j: u64| #[trigger] c1.contains_key(j) <==> c.contains_key(j) || s.contains(j),
        reads_within(rs, c, s),
    ensures
        touched(rs, c1, k).union(s) == touched(rs, c, k).union(s),
    decreases rs.rank_of(k), 2nat, 0nat,
{
    if c1.contains_key(k) {
        if !c.contains_key(k) {
            assert(s.contains(k));
            assert(touched(rs, c, k).subset_of(s));
        }
        assert(touched(rs, c1, k).union(s) =~= touched(rs, c, k).union(s));
    } else if rs.rule_map().contains_key(k) {
        let op = rs.rule_map()[k].spec_op();
        let inputs = rs.rule_map()[k].spec_inputs();
        lemma_apply_touched_shift(rs, c, c1, s, op, inputs, rs.rank_of(k));
        let a1 = apply_touched(rs, c1, op, inputs, rs.rank_of(k));
        let a0 = apply_touched(rs, c, op, inputs, rs.rank_of(k));
        assert(!c.contains_key(k));
        assert(touched(rs, c1, k) == a1.insert(k));
        assert(touched(rs, c, k) == a0.insert(k));
        assert forall|j: u64| a1.insert(k).union(s).contains(j) <==> a0.insert(k).union(s).contains(
            j,
        ) by {
            assert(a1.union(s).contains(j) == a0.union(s).contains(j));
        }
        assert(touched(rs, c1, k).union(s) =~= touched(rs, c, k).union(s));
    } else {
        assert(touched(rs, c1, k).union(s) =~= touched(rs, c, k).union(s));
    }
}

proof fn lemma_input_touched_shift<V: Scalar>(
    rs: Rules,
    c: Map<u64, V>,
    c1: Map<u64, V>,
    s: Set<u64>,
    x: u64,
    b: nat,
)
    requires
        grows_by_values(rs, c, c1),
        forall|j: u64| #[trigger] c1.contains_key(j) <==> c.contains_key(j) || s.contains(j),
        reads_within(rs, c, s),
    ensures
        input_touched(rs, c1, x, b).union(s) == input_touched(rs, c, x, b).union(s),
    decreases b, 0nat, 0nat,
{
    if rs.rank_of(x) < b {
        lemma_touched_shift(rs, c, c1, s, x);
    }
}

proof fn lemma_operands_touched_shift<V: Scalar>(
    rs: Rules,
    c: Map<u64, V>,
    c1: Map<u64, V>,
    s: Set<u64>,
    inputs: Seq<u64>,
    b: nat,
)
    requires
        grows_by_values(rs, c, c1),
        forall|j: u64| #[trigger] c1.contains_key(j) <==> c.contains_key(j) || s.contains(j),
        reads_within(rs, c, s),
    ensures
        operands_touched(rs, c1, inputs, b).union(s) == operands_touched(rs, c, inputs, b).union(s),
    decreases b, 0nat, inputs.len(),
{
    if inputs.len() > 0 {
        lemma_operands_touched_shift(rs, c, c1, s, inputs.drop_last(), b);
        lemma_input_touched_shift(rs, c, c1, s, inputs.last(), b);
        let a1 = operands_touched(rs, c1, inputs.drop_last(), b);
        let a0 = operands_touched(rs, c, inputs.drop_last(), b);
        let i1 = input_touched(rs, c1, inputs.last(), b);
        let i0 = input_touched(rs, c, inputs.last(), b);
        assert(a1.union(s) =~= a0.union(s) ==> i1.union(s) =~= i0.union(s) ==> a1.union(i1).union(s)
            =~= a0.union(i0).union(s)) by {
            if a1.union(s) =~= a0.union(s) && i1.union(s) =~= i0.union(s) {
                assert forall|j: u64| a1.union(i1).union(s).contains(j) <==> a0.union(i0).union(
                    s,
                ).contains(j) by {
                    assert(a1.union(s).contains(j) == a0.union(s).contains(j));
                    assert(i1.union(s).contains(j) == i0.union(s).contains(j));
                }
            }
        }
        assert(a1.union(s) =~= a0.union(s));
        assert(i1.union(s) =~= i0.union(s));
        assert(operands_touched(rs, c1, inputs, b).union(s) =~= operands_touched(rs, c, inputs, b).union(s));
    }
}

proof fn lemma_apply_touched_shift<V: Scalar>(
    rs: Rules,
    c: Map<u64, V>,
    c1: Map<u64, V>,
    s: Set<u64>,
    op: Operation,
    inputs: Seq<u64>,
    b: nat,
)
    requires
        grows_by_values(rs, c, c1),
        forall|j: u64| #[trigger] c1.contains_key(j) <==> c.contains_key(j) || s.contains(j),
        reads_within(rs, c, s),
    ensures
        apply_touched(rs, c1, op, inputs, b).union(s) == apply_touched(rs, c, op, inputs, b).union(s),
    decreases b, 1nat, 0nat,
{
    lemma_operands_touched_shift(rs, c, c1, s, inputs, b);
    if inputs.len() > 0 {
        lemma_input_touched_shift(rs, c, c1, s, inputs[0], b);
        lemma_stable_input(rs, c, c1, inputs[0], b);
        let s1 = input_touched(rs, c1, inputs[0], b);
        let s0 = input_touched(rs, c, inputs[0], b);
        assert(s1.union(s) =~= s0.union(s));
        match input_value(rs, c, inputs[0], b) {
            Ok(v) => {
                let p = V::spec_mux_position(v);
                if 1 <= p < inputs.len() {
                    lemma_input_touched_shift(rs, c, c1, s, inputs[p as int], b);
                    let t1 = input_touched(rs, c1, inputs[p as int], b);
                    let t0 = input_touched(rs, c, inputs[p as int], b);
                    assert(t1.union(s) =~= t0.union(s));
                    assert forall|j: u64| s1.union(t1).union(s).contains(j) <==> s0.union(t0).union(
                        s,
                    ).contains(j) by {
                        assert(s1.union(s).contains(j) == s0.union(s).contains(j));
                        assert(t1.union(s).contains(j) == t0.union(s).contains(j));
                    }
                    assert(s1.union(t1).union(s) =~= s0.union(t0).union(s));
                }
            },
            Err(_) => {},
        }
        assert(apply_touched(rs, c1, op, inputs, b).union(s) =~= apply_touched(rs, c, op, inputs, b).union(s));
    }
}

/// `c2` keeps every entry of `c` and adds only entries that hold their key's
/// value under `c`.
pub open spec fn grows_by_values<V: Scalar>(rs: Rules, c: Map<u64, V>, c2: Map<u64, V>) -> bool {
    &&& forall|k: u64| #[trigger] c.contains_key(k) ==> c2.contains_key(k) && c2[k] == c[k]
    &&& forall|k: u64|
        #[trigger] c2.contains_key(k) && !c.contains_key(k) ==> value(rs, c, k) == Ok::<
            V,
            EvalError,
        >(c2[k])
}

/// `path` climbs from `key` through consumers: each key after the first
/// consumes the one before it and is cached in `c`.
pub open spec fn is_stale_path<V>(rs: Rules, c: Map<u64, V>, key: u64, path: Seq<u64>) -> bool {
    &&& path.len() >= 2
    &&& path[0] == key
    &&& forall|i: int|
        0 <= i < path.len() - 1 ==> consumes(rs.rule_map(), path[i + 1], #[trigger] path[i])
    &&& forall|i: int| 1 <= i < path.len() ==> c.contains_key(#[trigger] path[i])
}

/// `k` was computed, directly or through cached keys, from `key`: a chain of
/// cached consumers leads from `key` up to `k`.
pub open spec fn invalidated<V>(rs: Rules, c: Map<u64, V>, key: u64, k: u64) -> bool {
    exists|path: Seq<u64>| #[trigger] is_stale_path(rs, c, key, path) && path.last() == k
}

/// The cache `c` without the values computed from `key`.
pub open spec fn without_stale<V>(rs: Rules, c: Map<u64, V>, key: u64) -> Map<u64, V> {
    Map::new(|k: u64| c.contains_key(k) && !invalidated(rs, c, key, k), |k: u64| c[k])
}

/// Values computed from `key` belong to keys ranked above it.
pub proof fn lemma_stale_ranks_above<V>(rs: Rules, c: Map<u64, V>, key: u64, k: u64)
    requires
        rs.wf(),
        invalidated(rs, c, key, k),
    ensures
        rs.rank_of(k) > rs.rank_of(key),
{
    let path = choose|path: Seq<u64>| #[trigger] is_stale_path(rs, c, key, path) && path.last() == k;
    lemma_path_ranks(rs, c, key, path, path.len() - 1);
}

proof fn lemma_path_ranks<V>(rs: Rules, c: Map<u64, V>, key: u64, path: Seq<u64>, i: int)
    requires
        rs.wf(),
        is_stale_path(rs, c, key, path),
        1 <= i < path.len(),
    ensures
        rs.rank_of(path[i]) > rs.rank_of(key),
    decreases i,
{
    assert(consumes(rs.rule_map(), path[i], path[i - 1]));
    if i > 1 {
        lemma_path_ranks(rs, c, key, path, i - 1);
    }
}

/// No key that consumes `u` is cached in `cur`.
spec fn all_parents_gone<V>(rs: Rules, cur: Map<u64, V>, u: u64) -> bool {
    forall|p: u64| #[trigger] consumes(rs.rule_map(), p, u) ==> !cur.contains_key(p)
}

/// A cached consumer of `key`, or of a key computed from it, is computed from it.
proof fn lemma_extend_stale<V>(rs: Rules, c: Map<u64, V>, key: u64, w: u64, p: u64)
    requires
        w == key || invalidated(rs, c, key, w),
        consumes(rs.rule_map(), p, w),
        c.contains_key(p),
    ensures
        invalidated(rs, c, key, p),
{
    if w == key {
        let path = seq![key, p];
        assert(is_stale_path(rs, c, key, path));
    } else {
        let path = choose|path: Seq<u64>| #[trigger] is_stale_path(rs, c, key, path) && path.last() == w;
        let np = path.push(p);
        assert forall|i: int| 0 <= i < np.len() - 1 implies consumes(
            rs.rule_map(),
            np[i + 1],
            #[trigger] np[i],
        ) by {
            if i < path.len() - 1 {
                assert(np[i] == path[i]);
                assert(np[i + 1] == path[i + 1]);
            } else {
                assert(np[i] == w);
            }
        }
        assert forall|i: int| 1 <= i < np.len() implies c.contains_key(#[trigger] np[i]) by {
            if i < path.len() {
                assert(np[i] == path[i]);
            }
        }
        assert(is_stale_path(rs, c, key, np));
        assert(np.last() == p);
    }
}

/// Along a stale path, no key after the first is left in a cache in which `key`
/// and every key removed from `c` have lost all their consumers.
proof fn lemma_path_gone<V>(rs: Rules, c: Map<u64, V>, cur: Map<u64, V>, key: u64, path: Seq<u64>, i: int)
    requires
        is_stale_path(rs, c, key, path),
        1 <= i < path.len(),
        forall|u: u64|
            (u == key || (c.contains_key(u) && !cur.contains_key(u))) ==> #[trigger] all_parents_gone(
                rs,
                cur,
                u,
            ),
    ensures
        !cur.contains_key(path[i]),
    decreases i,
{
    let prev = path[i - 1];
    assert(consumes(rs.rule_map(), path[i], path[i - 1]));
    if i > 1 {
        lemma_path_gone(rs, c, cur, key, path, i - 1);
        assert(c.contains_key(path[i - 1]));
    }
    assert(all_parents_gone(rs, cur, prev));
}

/// Adding entries that hold their keys' values changes no key's value.
proof fn lemma_stable_value<V: Scalar>(rs: Rules, c: Map<u64, V>, c2: Map<u64, V>, k: u64)
    requires
        grows_by_values(rs, c, c2),
    ensures
        value(rs, c2, k) == value(rs, c, k),
    decreases rs.rank_of(k), 2nat, 0nat,
{
    if c2.contains_key(k) {
    } else if rs.rule_map().contains_key(k) {
        lemma_stable_apply(
            rs,
            c,
            c2,
            rs.rule_map()[k].spec_op(),
            rs.rule_map()[k].spec_inputs(),
            rs.rank_of(k),
        );
    }
}

proof fn lemma_stable_input<V: Scalar>(
    rs: Rules,
    c: Map<u64, V>,
    c2: Map<u64, V>,
    x: u64,
    b: nat,
)
    requires
        grows_by_values(rs, c, c2),
    ensures
        input_value(rs, c2, x, b) == input_value(rs, c, x, b),
    decreases b, 0nat, 0nat,
{
    if rs.rank_of(x) < b {
        lemma_stable_value(rs, c, c2, x);
    }
}

proof fn lemma_stable_operands<V: Scalar>(
    rs: Rules,
    c: Map<u64, V>,
    c2: Map<u64, V>,
    inputs: Seq<u64>,
    b: nat,
)
    requires
        grows_by_values(rs, c, c2),
    ensures
        operand_values(rs, c2, inputs, b) == operand_values(rs, c, inputs, b),
    decreases b, 0nat, inputs.len(),
{
    if inputs.len() > 0 {
        lemma_stable_operands(rs, c, c2, inputs.drop_last(), b);
        lemma_stable_input(rs, c, c2, inputs.last(), b);
    }
}

proof fn lemma_stable_apply<V: Scalar>(
    rs: Rules,
    c: Map<u64, V>,
    c2: Map<u64, V>,
    op: Operation,
    inputs: Seq<u64>,
    b: nat,
)
    requires
        grows_by_values(rs, c, c2),
    ensures
        apply(rs, c2, op, inputs, b) == apply(rs, c, op, inputs, b),
    decreases b, 1nat, 0nat,
{
    lemma_stable_operands(rs, c, c2, inputs, b);
    if inputs.len() > 0 {
        lemma_stable_input(rs, c, c2, inputs[0], b);
        match input_value(rs, c, inputs[0], b) {
            Ok(s) => {
                let p = V::spec_mux_position(s);
                if p < inputs.len() {
                    lemma_stable_input(rs, c, c2, inputs[p as int], b);
                }
            },
            Err(_) => {},
        }
    }
}

/// Growth by values composes.
proof fn lemma_grows_trans<V: Scalar>(rs: Rules, c0: Map<u64, V>, c1: Map<u64, V>, c2: Map<u64, V>)
    requires
        grows_by_values(rs, c0, c1),
        grows_by_values(rs, c1, c2),
    ensures
        grows_by_values(rs, c0, c2),
{
    assert forall|k: u64| #[trigger] c2.contains_key(k) && !c0.contains_key(k) implies value(
        rs,
        c0,
        k,
    ) == Ok::<V, EvalError>(c2[k]) by {
        if !c1.contains_key(k) {
            lemma_stable_value(rs, c0, c1, k);
        }
    }
}

/// Once an operand list fails, every longer list with that prefix fails the same way.
proof fn lemma_operands_err_extends<V: Scalar>(
    rs: Rules,
    c: Map<u64, V>,
    inputs: Seq<u64>,
    i: int,
    b: nat,
)
    requires
        0 <= i <= inputs.len(),
        operand_values(rs, c, inputs.take(i), b) is Err,
    ensures
        operand_values(rs, c, inputs, b) == operand_values(rs, c, inputs.take(i), b),
    decreases inputs.len() - i,
{
    if i < inputs.len() {
        assert(inputs.take(i + 1).drop_last() =~= inputs.take(i));
        lemma_operands_err_extends(rs, c, inputs, i + 1, b);
    } else {
        assert(inputs.take(i) =~= inputs);
    }
}

/// The sum of `values`, added from the left and starting from zero.
pub fn sum<V: Scalar>(values: &[V]) -> (r: V)
    ensures
        r == sum_of(values@),
{
    let mut acc = V::zero();
    let mut i: usize = 0;
    while i < values.len()
        invariant
            0 <= i <= values.len(),
            acc == sum_of(values@.take(i as int)),
        decreases values.len() - i,
    {
        assert(values@.take(i + 1).drop_last() =~= values@.take(i as int));
        acc = V::add(acc, values[i]);
        i = i + 1;
    }
    assert(values@.take(values.len() as int) =~= values@);
    acc
}

/// The product of `values`, multiplied from the left and starting from one.
pub fn product<V: Scalar>(values: &[V]) -> (r: V)
    ensures
        r == product_of(values@),
{
    let mut acc = V::one();
    let mut i: usize = 0;
    while i < values.len()
        invariant
            0 <= i <= values.len(),
            acc == product_of(values@.take(i as int)),
        decreases values.len() - i,
    {
        assert(values@.take(i + 1).drop_last() =~= values@.take(i as int));
        acc = V::mul(acc, values[i]);
        i = i + 1;
    }
    assert(values@.take(values.len() as int) =~= values@);
    acc
}

/// One plus the sum of `values`.
pub fn sum_plus_one<V: Scalar>(values: &[V]) -> (r: V)
    ensures
        r == V::spec_add(sum_of(values@), V::spec_one()),
{
    V::add(sum(values), V::one())
}

/// The negation of a value.
pub fn neg<V: Scalar>(value: V) -> (r: V)
    ensures
        r == V::spec_neg(value),
{
    V::neg(value)
}

/// A cache of values over a shared, immutable rule set. Reading a key computes
/// it from its rule on demand and caches the result; writing a key can drop the
/// cached values that were computed from it.
pub struct Calculator<'a, V> {
    values: HashMap<u64, V>,
    rules: &'a Rules,
}

impl<'a, V: Scalar> Calculator<'a, V> {
    /// The cached values.
    pub closed spec fn cache(&self) -> Map<u64, V> {
        self.values@
    }

    /// The rule set the calculator reads.
    pub closed spec fn rule_set(&self) -> Rules {
        *self.rules
    }

    pub open spec fn wf(&self) -> bool {
        self.rule_set().wf()
    }

    /// A calculator over `rules` whose cache starts with `values`.
    pub fn from_components(values: HashMap<u64, V>, rules: &'a Rules) -> (r: Self)
        requires
            rules.wf(),
        ensures
            r.wf(),
            r.cache() == values@,
            r.rule_set() == *rules,
    {
        Calculator { values, rules }
    }

    /// A calculator over `rules` with an empty cache.
    pub fn new(rules: &'a Rules) -> (r: Self)
        requires
            rules.wf(),
        ensures
            r.wf(),
            r.cache() == Map::<u64, V>::empty(),
            r.rule_set() == *rules,
    {
        Calculator { values: HashMap::new(), rules }
    }

    /// The value of `key`: the cached one, else what its rule computes from its
    /// inputs (read left to right, each in the same way), else zero. On success
    /// exactly the keys of `touched` are added to the cache, each with its value:
    /// every value computed on the way, the zero of a key without rule too. On an
    /// error the cache is left as it was.
    pub fn get(&mut self, key: u64) -> (r: Result<V, EvalError>)
        requires
            old(self).wf(),
        ensures
            final(self).wf(),
            final(self).rule_set() == old(self).rule_set(),
            r == value(old(self).rule_set(), old(self).cache(), key),
            r is Ok ==> grows_by_values(old(self).rule_set(), old(self).cache(), final(self).cache())
                && final(self).cache().contains_key(key) && final(self).cache()[key] == r->Ok_0,
            r is Ok ==> forall|k: u64|
                #[trigger] final(self).cache().contains_key(k) <==> (old(self).cache().contains_key(k)
                    || touched(old(self).rule_set(), old(self).cache(), key).contains(k)),
            r is Ok ==> forall|k: u64|
                #[trigger] touched(old(self).rule_set(), old(self).cache(), key).contains(k) ==> value(
                    old(self).rule_set(),
                    old(self).cache(),
                    k,
                ) == Ok::<V, EvalError>(final(self).cache()[k]),
            r is Err ==> final(self).cache() == old(self).cache(),
            old(self).cache().contains_key(key) ==> final(self).cache() == old(self).cache(),
    {
        let ghost c0 = self.values@;
        let mut log: Vec<u64> = Vec::new();
        let r = self.resolve(key, &mut log);
        proof {
            if r is Ok {
                let t = touched(*self.rules, c0, key);
                assert forall|k: u64| #[trigger] t.contains(k) implies value(*self.rules, c0, k) == Ok::<
                    V,
                    EvalError,
                >(self.values@[k]) by {
                    assert(self.values@.contains_key(k));
                    if c0.contains_key(k) {
                        assert(self.values@[k] == c0[k]);
                    }
                }
            }
        }
        if r.is_err() {
            let ghost c1 = self.values@;
            let mut i: usize = 0;
            while i < log.len()
                invariant
                    self.rules == old(self).rules,
                    0 <= i <= log.len(),
                    forall|k: u64| #[trigger] c0.contains_key(k) ==> c1.contains_key(k) && c1[k] == c0[k],
                    forall|k: u64|
                        #[trigger] c1.contains_key(k) && !c0.contains_key(k) ==> log@.contains(k),
                    forall|k: u64| #[trigger] log@.contains(k) ==> c1.contains_key(k) && !c0.contains_key(k),
                    forall|k: u64|
                        #[trigger] self.values@.contains_key(k) <==> (c1.contains_key(k)
                            && !log@.take(i as int).contains(k)),
                    forall|k: u64| #[trigger] self.values@.contains_key(k) ==> self.values@[k] == c1[k],
                decreases log.len() - i,
            {
                let k = log[i];
                self.values.remove(&k);
                proof {
                    assert(log@.take(i + 1) =~= log@.take(i as int).push(k));
                    broadcast use vstd::seq_lib::lemma_seq_contains_after_push;
                }
                i = i + 1;
            }
            proof {
                assert(log@.take(log@.len() as int) =~= log@);
                assert forall|k: u64| self.values@.contains_key(k) <==> c0.contains_key(k) by {
                    if c0.contains_key(k) {
                        assert(!log@.contains(k));
                    }
                }
                assert(self.values@ =~= c0);
            }
        }
        r
    }

    /// Writes `val` for `key`. When `key` already had a cached value, every value
    /// computed from it (through cached consumers, all of them where several
    /// rules consume one key) is dropped, so that it is computed again on the
    /// next read. When it had none, nothing else changes: reads cache the zero of
    /// an unset key, so no cached value can have been computed from it, unless
    /// `place` or `delete` bypassed that.
    pub fn set(&mut self, key: u64, val: V)
        requires
            old(self).wf(),
        ensures
            final(self).wf(),
            final(self).rule_set() == old(self).rule_set(),
            final(self).cache() == (if old(self).cache().contains_key(key) {
                without_stale(old(self).rule_set(), old(self).cache().insert(key, val), key)
            } else {
                old(self).cache().insert(key, val)
            }),
            final(self).cache().contains_key(key) && final(self).cache()[key] == val,
    {
        let ghost c1 = self.values@.insert(key, val);
        if self.values.insert(key, val).is_some() {
            self.remove_parents(key);
            proof {
                if invalidated(*self.rules, c1, key, key) {
                    lemma_stale_ranks_above(*self.rules, c1, key, key);
                }
            }
        }
    }

    /// Drops the cached value of `key`, and every value computed from it, and
    /// returns what `key` held.
    pub fn remove(&mut self, key: u64) -> (r: Option<V>)
        requires
            old(self).wf(),
        ensures
            final(self).wf(),
            final(self).rule_set() == old(self).rule_set(),
            final(self).cache() == without_stale(old(self).rule_set(), old(self).cache(), key).remove(
                key,
            ),
            r == (if old(self).cache().contains_key(key) {
                Some(old(self).cache()[key])
            } else {
                None::<V>
            }),
    {
        let ghost c0 = self.values@;
        self.remove_parents(key);
        proof {
            if invalidated(*self.rules, c0, key, key) {
                lemma_stale_ranks_above(*self.rules, c0, key, key);
            }
        }
        self.values.remove(&key)
    }

    /// Writes `val` for `key` and nothing else: values already computed from the
    /// old value of `key` stay cached, and reads return them until they are
    /// dropped. Returns what `key` held.
    pub fn place(&mut self, key: u64, val: V) -> (r: Option<V>)
        requires
            old(self).wf(),
        ensures
            final(self).wf(),
            final(self).rule_set() == old(self).rule_set(),
            final(self).cache() == old(self).cache().insert(key, val),
            r == (if old(self).cache().contains_key(key) {
                Some(old(self).cache()[key])
            } else {
                None::<V>
            }),
    {
        self.values.insert(key, val)
    }

    /// Drops the cached value of `key` and nothing else: values already computed
    /// from it stay cached. Returns what `key` held.
    pub fn delete(&mut self, key: u64) -> (r: Option<V>)
        requires
            old(self).wf(),
        ensures
            final(self).wf(),
            final(self).rule_set() == old(self).rule_set(),
            final(self).cache() == old(self).cache().remove(key),
            r == (if old(self).cache().contains_key(key) {
                Some(old(self).cache()[key])
            } else {
                None::<V>
            }),
    {
        self.values.remove(&key)
    }

    /// Drops from the cache every value computed, directly or through other
    /// cached values, from `key`; `key` itself stays.
    fn remove_parents(&mut self, key: u64)
        requires
            old(self).wf(),
        ensures
            final(self).rules == old(self).rules,
            final(self).values@ == without_stale(*old(self).rules, old(self).values@, key),
    {
        let ghost rs = *self.rules;
        let ghost c = self.values@;
        let rules: &'a Rules = self.rules;
        let mut work: Vec<u64> = Vec::new();
        work.push(key);
        assert(self.values@.dom().finite());
        assert(work@[0] == key);
        assert(work@.contains(key));
        while work.len() > 0
            invariant
                self.rules == old(self).rules,
                *rules == rs,
                rs == *old(self).rules,
                c == old(self).values@,
                rs.wf(),
                self.values@.dom().finite(),
                forall|k: u64|
                    #[trigger] self.values@.contains_key(k) ==> c.contains_key(k) && self.values@[k]
                        == c[k],
                forall|k: u64|
                    #[trigger] c.contains_key(k) && !self.values@.contains_key(k) ==> invalidated(
                        rs,
                        c,
                        key,
                        k,
                    ),
                forall|i: int|
                    0 <= i < work.len() ==> #[trigger] work@[i] == key || invalidated(rs, c, key, work@[i]),
                forall|u: u64|
                    (u == key || (c.contains_key(u) && !self.values@.contains_key(u))) ==> (
                    work@.contains(u) || #[trigger] all_parents_gone(rs, self.values@, u)),
            decreases self.values@.dom().len() + work.len(),
        {
            let ghost m0 = self.values@.dom().len() + work.len();
            let ghost work0 = work@;
            let w = work.pop().unwrap();
            assert(work0[work0.len() - 1] == w);
            assert(w == key || invalidated(rs, c, key, w));
            proof {
                assert forall|u: u64| work0.contains(u) implies work@.contains(u) || u == w by {
                    let i = choose|i: int| 0 <= i < work0.len() && work0[i] == u;
                    if i < work0.len() - 1 {
                        assert(work@[i] == u);
                    }
                }
            }
            let ps = rules.get_parent(w);
            let mut j: usize = 0;
            while j < ps.len()
                invariant
                    self.rules == old(self).rules,
                    *rules == rs,
                    rs == *old(self).rules,
                    c == old(self).values@,
                    rs.wf(),
                    ps@ == rs.parents_of(w),
                    w == key || invalidated(rs, c, key, w),
                    0 <= j <= ps.len(),
                    self.values@.dom().finite(),
                    self.values@.dom().len() + work.len() + 1 == m0,
                    forall|k: u64|
                        #[trigger] self.values@.contains_key(k) ==> c.contains_key(k)
                            && self.values@[k] == c[k],
                    forall|k: u64|
                        #[trigger] c.contains_key(k) && !self.values@.contains_key(k) ==> invalidated(
                            rs,
                            c,
                            key,
                            k,
                        ),
                    forall|i: int|
                        0 <= i < work.len() ==> #[trigger] work@[i] == key || invalidated(
                            rs,
                            c,
                            key,
                            work@[i],
                        ),
                    forall|u: u64|
                        (u == key || (c.contains_key(u) && !self.values@.contains_key(u))) ==> (
                        work@.contains(u) || u == w || #[trigger] all_parents_gone(rs, self.values@, u)),
                    forall|i: int| 0 <= i < j ==> !self.values@.contains_key(#[trigger] ps@[i]),
                decreases ps.len() - j,
            {
                let p = ps[j];
                let ghost before = self.values@;
                let ghost work1 = work@;
                if self.values.remove(&p).is_some() {
                    proof {
                        assert(ps@.contains(p));
                        assert(rs.parents_of(w).contains(p));
                        lemma_extend_stale(rs, c, key, w, p);
                    }
                    work.push(p);
                    proof {
                        broadcast use vstd::seq_lib::lemma_seq_contains_after_push;

                        assert forall|u: u64|
                            (u == key || (c.contains_key(u) && !self.values@.contains_key(u))) implies (
                            work@.contains(u) || u == w || #[trigger] all_parents_gone(rs, self.values@, u)) by {
                            if u != p && !work1.contains(u) && u != w {
                                assert(all_parents_gone(rs, before, u));
                            }
                        }
                        assert forall|i: int| 0 <= i < work.len() implies #[trigger] work@[i] == key
                            || invalidated(rs, c, key, work@[i]) by {
                            if i < work1.len() {
                                assert(work@[i] == work1[i]);
                            }
                        }
                    }
                } else {
                    assert(self.values@ =~= before);
                }
                j = j + 1;
            }
            proof {
                assert forall|p: u64| #[trigger] consumes(rs.rule_map(), p, w) implies !self.values@.contains_key(p) by {
                    assert(rs.parents_of(w).contains(p));
                    let i = choose|i: int| 0 <= i < ps@.len() && ps@[i] == p;
                }
                assert(all_parents_gone(rs, self.values@, w));
                assert forall|u: u64|
                    (u == key || (c.contains_key(u) && !self.values@.contains_key(u))) implies (
                    work@.contains(u) || #[trigger] all_parents_gone(rs, self.values@, u)) by {}
            }
        }
        proof {
            assert forall|k: u64| #[trigger] self.values@.contains_key(k) <==> (c.contains_key(k)
                && !invalidated(rs, c, key, k)) by {
                if self.values@.contains_key(k) && invalidated(rs, c, key, k) {
                    let path = choose|path: Seq<u64>| #[trigger] is_stale_path(rs, c, key, path) && path.last() == k;
                    lemma_path_gone(rs, c, self.values@, key, path, path.len() - 1);
                }
            }
            assert(self.values@ =~= without_stale(rs, c, key));
        }
    }

    /// Computes `key` against the cache, caching every value it computes, and
    /// records each newly cached key in `log`.
    fn resolve(&mut self, key: u64, log: &mut Vec<u64>) -> (r: Result<V, EvalError>)
        requires
            old(self).wf(),
        ensures
            final(self).rules == old(self).rules,
            grows_by_values(*old(self).rules, old(self).values@, final(self).values@),
            r == value(*old(self).rules, old(self).values@, key),
            r is Ok ==> final(self).values@.contains_key(key),
            r is Ok ==> forall|k: u64|
                #[trigger] final(self).values@.contains_key(k) <==> (old(self).values@.contains_key(k)
                    || touched(*old(self).rules, old(self).values@, key).contains(k)),
            old(self).values@.contains_key(key) ==> final(self).values@ == old(self).values@,
            forall|k: u64|
                #[trigger] final(self).values@.contains_key(k) && !old(self).values@.contains_key(k)
                    ==> final(log)@.contains(k),
            forall|k: u64|
                #[trigger] final(log)@.contains(k) ==> old(log)@.contains(k) || (final(self).values@.contains_key(k) && !old(self).values@.contains_key(k)),
            forall|k: u64| #[trigger] old(log)@.contains(k) ==> final(log)@.contains(k),
        decreases old(self).rules.rank_of(key), 2nat,
    {
        broadcast use vstd::seq_lib::lemma_seq_contains_after_push;

        if let Some(v) = self.values.get(&key) {
            return Ok(*v);
        }
        let rules: &'a Rules = self.rules;
        match rules.get(key) {
            None => {
                let z = V::zero();
                self.values.insert(key, z);
                log.push(key);
                proof {
                    assert(touched(*rules, old(self).values@, key) == Set::<u64>::empty().insert(key));
                }
                Ok(z)
            },
            Some(rule) => {
                proof {
                    assert forall|i: int| 0 <= i < rule.spec_inputs().len() implies rules.rank_of(
                        #[trigger] rule.spec_inputs()[i],
                    ) < rules.rank_of(key) by {
                        rules.lemma_input_rank(key, i);
                    }
                }
                let r = self.evaluate(rule.op(), rule.keys(), Ghost(rules.rank_of(key)), log);
                if let Ok(v) = r {
                    self.values.insert(key, v);
                    log.push(key);
                    proof {
                        assert(touched(*rules, old(self).values@, key) == apply_touched(
                            *rules,
                            old(self).values@,
                            rule.spec_op(),
                            rule.spec_inputs(),
                            rules.rank_of(key),
                        ).insert(key));
                    }
                }
                r
            },
        }
    }

    /// Applies `op` to the values of `inputs`, all ranked below `b`.
    fn evaluate(&mut self, op: Operation, inputs: &[u64], b: Ghost<nat>, log: &mut Vec<u64>) -> (r:
        Result<V, EvalError>)
        requires
            old(self).wf(),
            forall|i: int| 0 <= i < inputs@.len() ==> old(self).rules.rank_of(#[trigger] inputs@[i]) < b@,
        ensures
            final(self).rules == old(self).rules,
            grows_by_values(*old(self).rules, old(self).values@, final(self).values@),
            r == apply(*old(self).rules, old(self).values@, op, inputs@, b@),
            r is Ok ==> forall|k: u64|
                #[trigger] final(self).values@.contains_key(k) <==> (old(self).values@.contains_key(k)
                    || apply_touched(*old(self).rules, old(self).values@, op, inputs@, b@).contains(k)),
            forall|k: u64|
                #[trigger] final(self).values@.contains_key(k) && !old(self).values@.contains_key(k)
                    ==> final(log)@.contains(k),
            forall|k: u64|
                #[trigger] final(log)@.contains(k) ==> old(log)@.contains(k) || (final(self).values@.contains_key(k) && !old(self).values@.contains_key(k)),
            forall|k: u64| #[trigger] old(log)@.contains(k) ==> final(log)@.contains(k),
        decreases b@, 1nat,
    {
        let ghost rs = *self.rules;
        let ghost c0 = self.values@;
        match op {
            Operation::Sum | Operation::Product | Operation::SumPlusOne => {
                let vs = match self.operands(inputs, b, log) {
                    Ok(vs) => vs,
                    Err(e) => return Err(e),
                };
                match op {
                    Operation::Sum => Ok(sum(vs.as_slice())),
                    Operation::Product => Ok(product(vs.as_slice())),
                    _ => Ok(sum_plus_one(vs.as_slice())),
                }
            },
            Operation::Negate => {
                if inputs.len() == 0 {
                    return Err(EvalError::MissingOperand);
                }
                proof {
                    assert(rs.rank_of(inputs@[0]) < b@);
                }
                match self.resolve(inputs[0], log) {
                    Ok(v) => Ok(neg(v)),
                    Err(e) => Err(e),
                }
            },
            _ => {
                if inputs.len() == 0 {
                    return Err(EvalError::MissingOperand);
                }
                proof {
                    assert(rs.rank_of(inputs@[0]) < b@);
                }
                let s = match self.resolve(inputs[0], log) {
                    Ok(s) => s,
                    Err(e) => return Err(e),
                };
                let ghost sel = touched(rs, c0, inputs@[0]);
                let p = V::mux_position(s);
                if 1 <= p && p < inputs.len() {
                    let ghost c1 = self.values@;
                    let r = self.resolve(inputs[p], log);
                    proof {
                        let y = inputs@[p as int];
                        assert(rs.rank_of(y) < b@);
                        lemma_stable_value(rs, c0, c1, y);
                        lemma_grows_trans(rs, c0, c1, self.values@);
                        lemma_touched_closed(rs, c0, inputs@[0]);
                        lemma_touched_shift(rs, c0, c1, sel, y);
                        assert(apply_touched(rs, c0, op, inputs@, b@) == sel.union(
                            touched(rs, c0, y),
                        ));
                        if r is Ok {
                            assert forall|k: u64| #[trigger]
                                self.values@.contains_key(k) <==> (c0.contains_key(k) || sel.union(
                                    touched(rs, c0, y),
                                ).contains(k)) by {
                                assert(touched(rs, c1, y).union(sel).contains(k) == touched(
                                    rs,
                                    c0,
                                    y,
                                ).union(sel).contains(k));
                            }
                        }
                    }
                    r
                } else if op == Operation::MuxOrOne {
                    Ok(V::one())
                } else if op == Operation::MuxOrZero {
                    Ok(V::zero())
                } else {
                    Err(EvalError::SelectorOutOfRange)
                }
            },
        }
    }

    /// The values of `inputs`, all ranked below `b`, read from left to right.
    fn operands(&mut self, inputs: &[u64], b: Ghost<nat>, log: &mut Vec<u64>) -> (r: Result<
        Vec<V>,
        EvalError,
    >)
        requires
            old(self).wf(),
            forall|i: int| 0 <= i < inputs@.len() ==> old(self).rules.rank_of(#[trigger] inputs@[i]) < b@,
        ensures
            final(self).rules == old(self).rules,
            grows_by_values(*old(self).rules, old(self).values@, final(self).values@),
            match r {
                Ok(vs) => operand_values(*old(self).rules, old(self).values@, inputs@, b@) == Ok::<
                    Seq<V>,
                    EvalError,
                >(vs@),
                Err(e) => operand_values(*old(self).rules, old(self).values@, inputs@, b@) == Err::<
                    Seq<V>,
                    EvalError,
                >(e),
            },
            r is Ok ==> forall|k: u64|
                #[trigger] final(self).values@.contains_key(k) <==> (old(self).values@.contains_key(k)
                    || operands_touched(*old(self).rules, old(self).values@, inputs@, b@).contains(k)),
            forall|k: u64|
                #[trigger] final(self).values@.contains_key(k) && !old(self).values@.contains_key(k)
                    ==> final(log)@.contains(k),
            forall|k: u64|
                #[trigger] final(log)@.contains(k) ==> old(log)@.contains(k) || (final(self).values@.contains_key(k) && !old(self).values@.contains_key(k)),
            forall|k: u64| #[trigger] old(log)@.contains(k) ==> final(log)@.contains(k),
        decreases b@, 0nat,
    {
        let ghost rs = *self.rules;
        let ghost c0 = self.values@;
        let ghost log0 = log@;
        let mut vs: Vec<V> = Vec::new();
        let mut i: usize = 0;
        assert(inputs@.take(0).len() == 0);
        while i < inputs.len()
            invariant
                self.wf(),
                *self.rules == rs,
                self.rules == old(self).rules,
                rs == *old(self).rules,
                c0 == old(self).values@,
                log0 == old(log)@,
                0 <= i <= inputs.len(),
                forall|j: int| 0 <= j < inputs@.len() ==> rs.rank_of(#[trigger] inputs@[j]) < b@,
                grows_by_values(rs, c0, self.values@),
                operand_values(rs, c0, inputs@.take(i as int), b@) == Ok::<Seq<V>, EvalError>(vs@),
                forall|k: u64|
                    #[trigger] self.values@.contains_key(k) <==> (c0.contains_key(k)
                        || operands_touched(rs, c0, inputs@.take(i as int), b@).contains(k)),
                reads_within(rs, c0, operands_touched(rs, c0, inputs@.take(i as int), b@)),
                forall|k: u64|
                    #[trigger] self.values@.contains_key(k) && !c0.contains_key(k) ==> log@.contains(k),
                forall|k: u64|
                    #[trigger] log@.contains(k) ==> log0.contains(k) || (self.values@.contains_key(k)
                        && !c0.contains_key(k)),
                forall|k: u64| #[trigger] log0.contains(k) ==> log@.contains(k),
            decreases inputs.len() - i,
        {
            let ghost c1 = self.values@;
            let ghost si = operands_touched(rs, c0, inputs@.take(i as int), b@);
            let x = inputs[i];
            let r = self.resolve(x, log);
            proof {
                lemma_stable_value(rs, c0, c1, x);
                lemma_touched_shift(rs, c0, c1, si, x);
                lemma_touched_closed(rs, c0, x);
                lemma_union_closed(rs, c0, si, touched(rs, c0, x));
                lemma_grows_trans(rs, c0, c1, self.values@);
                assert(inputs@.take(i + 1).drop_last() =~= inputs@.take(i as int));
                assert(inputs@.take(i + 1).last() == x);
                assert(rs.rank_of(x) < b@);
                assert(input_value(rs, c0, x, b@) == value(rs, c0, x));
                assert(operand_values(rs, c0, inputs@.take(i + 1), b@) == match operand_values(
                    rs,
                    c0,
                    inputs@.take(i as int),
                    b@,
                ) {
                    Err(e) => Err(e),
                    Ok(vs) => match input_value(rs, c0, x, b@) {
                        Err(e) => Err(e),
                        Ok(v) => Ok(vs.push(v)),
                    },
                });
                assert(input_touched(rs, c0, x, b@) == touched(rs, c0, x));
                assert(operands_touched(rs, c0, inputs@.take(i + 1), b@) == si.union(
                    touched(rs, c0, x),
                ));
                if r is Ok {
                    assert forall|k: u64| #[trigger]
                        self.values@.contains_key(k) <==> (c0.contains_key(k) || si.union(
                            touched(rs, c0, x),
                        ).contains(k)) by {
                        assert(touched(rs, c1, x).union(si).contains(k) == touched(rs, c0, x).union(
                            si,
                        ).contains(k));
                    }
                }
            }
            match r {
                Ok(v) => {
                    vs.push(v);
                },
                Err(e) => {
                    proof {
                        lemma_operands_err_extends(rs, c0, inputs@, i + 1, b@);
                    }
                    return Err(e);
                },
            }
            i = i + 1;
        }
        proof {
            assert(inputs@.take(inputs@.len() as int) =~= inputs@);
        }
        Ok(vs)
    }
}

} // verus!
