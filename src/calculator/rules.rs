use std::collections::HashMap;
use std::collections::HashSet;
use vstd::prelude::*;

verus! {

broadcast use vstd::std_specs::hash::group_hash_axioms, vstd::seq_lib::lemma_seq_contains_after_push;

/// How a rule combines the values of its input keys.
#[derive(Clone, Copy, Debug, PartialEq, Eq, Structural)]
pub enum Operation {
    /// Adds all inputs, starting from zero.
    Sum,
    /// Multiplies all inputs, starting from one.
    Product,
    /// One plus the sum of all inputs.
    SumPlusOne,
    /// The negation of the first input.
    Negate,
    /// The first input selects one of the others; a selection past the end is an error.
    Mux,
    /// As `Mux`, but a selection past the end gives one.
    MuxOrOne,
    /// As `Mux`, but a selection past the end gives zero.
    MuxOrZero,
}

/// How one key's value is derived: an operation over the values of an ordered
/// list of input keys.
#[derive(Clone, Debug)]
pub struct Rule {
    operation: Operation,
    keys: Vec<u64>,
}

impl Rule {
    pub closed spec fn spec_op(&self) -> Operation {
        self.operation
    }

    pub closed spec fn spec_inputs(&self) -> Seq<u64> {
        self.keys@
    }

    pub fn new(operation: Operation, keys: Vec<u64>) -> (r: Self)
        ensures
            r.spec_op() == operation,
            r.spec_inputs() == keys@,
    {
        Rule { operation, keys }
    }

    /// The input keys, in the order the operation reads them.
    pub fn keys(&self) -> (r: &[u64])
        ensures
            r@ == self.spec_inputs(),
    {
        self.keys.as_slice()
    }

    pub fn op(&self) -> (r: Operation)
        ensures
            r == self.spec_op(),
    {
        self.operation
    }
}

/// Why a set of rules was refused.
#[derive(Clone, Copy, Debug, PartialEq, Eq, Structural)]
pub enum RulesError {
    /// Two rules produce the same key.
    DuplicateRule,
    /// A negation or a mux rule has no input.
    MissingOperand,
    /// The rules depend on each other in a cycle.
    Cycle,
}

/// The rule that `k` has in `m` consumes `x` as an input.
pub open spec fn consumes(m: Map<u64, Rule>, k: u64, x: u64) -> bool {
    m.contains_key(k) && m[k].spec_inputs().contains(x)
}

/// `rank` numbers the keys of `m` so that every rule's inputs that have rules
/// come strictly before it.
pub open spec fn is_ranking(m: Map<u64, Rule>, rank: Map<u64, nat>) -> bool {
    &&& m.dom().subset_of(rank.dom())
    &&& forall|k: u64, x: u64|
        #[trigger] consumes(m, k, x) && m.contains_key(x) ==> rank[x] < rank[k]
}

/// No rule of `m` depends, directly or through others, on itself.
pub open spec fn acyclic(m: Map<u64, Rule>) -> bool {
    exists|rank: Map<u64, nat>| is_ranking(m, rank)
}

/// The operation reads a first operand, which must therefore exist.
pub open spec fn needs_operand(op: Operation) -> bool {
    op == Operation::Negate || op == Operation::Mux || op == Operation::MuxOrOne || op
        == Operation::MuxOrZero
}

/// Every rule of `m` whose operation reads a first operand has an input.
pub open spec fn has_operands(m: Map<u64, Rule>) -> bool {
    forall|k: u64|
        #[trigger] m.contains_key(k) && needs_operand(m[k].spec_op()) ==> m[k].spec_inputs().len()
            > 0
}

/// No two entries produce the same key.
pub open spec fn keys_unique(entries: Seq<(u64, Rule)>) -> bool {
    forall|i: int, j: int| 0 <= i < j < entries.len() ==> entries[i].0 != entries[j].0
}

/// The map from each produced key to its rule (for entries with unique keys).
pub open spec fn rules_of(entries: Seq<(u64, Rule)>) -> Map<u64, Rule> {
    Map::new(
        |k: u64| exists|i: int| 0 <= i < entries.len() && entries[i].0 == k,
        |k: u64| entries[choose|i: int| 0 <= i < entries.len() && entries[i].0 == k].1,
    )
}

/// An immutable set of rules, indexed by the key each produces, with the reverse
/// index from each key to the keys whose rules consume it.
pub struct Rules {
    rules: HashMap<u64, Rule>,
    parents: HashMap<u64, Vec<u64>>,
    rank: Ghost<Map<u64, nat>>,
}

impl Rules {
    /// Each key that has a rule, with that rule.
    pub closed spec fn rule_map(&self) -> Map<u64, Rule> {
        self.rules@
    }

    /// The keys whose rules consume `x`.
    pub closed spec fn parents_of(&self, x: u64) -> Seq<u64> {
        if self.parents@.contains_key(x) {
            self.parents@[x]@
        } else {
            Seq::empty()
        }
    }

    pub closed spec fn ranks(&self) -> Map<u64, nat> {
        self.rank@
    }

    /// A bound on the depth of dependencies below `k`: zero for a key without rule.
    pub open spec fn rank_of(&self, k: u64) -> nat {
        if self.rule_map().contains_key(k) {
            self.ranks()[k]
        } else {
            0
        }
    }

    pub open spec fn wf(&self) -> bool {
        &&& is_ranking(self.rule_map(), self.ranks())
        &&& has_operands(self.rule_map())
        &&& forall|k: u64| #[trigger] self.rule_map().contains_key(k) ==> self.ranks()[k] >= 1
        &&& forall|x: u64, k: u64|
            #[trigger] self.parents_of(x).contains(k) <==> consumes(self.rule_map(), k, x)
    }

    /// Every input of a rule ranks strictly below the rule's key.
    pub proof fn lemma_input_rank(&self, k: u64, i: int)
        requires
            self.wf(),
            self.rule_map().contains_key(k),
            0 <= i < self.rule_map()[k].spec_inputs().len(),
        ensures
            self.rank_of(self.rule_map()[k].spec_inputs()[i]) < self.rank_of(k),
    {
        let x = self.rule_map()[k].spec_inputs()[i];
        assert(self.rule_map()[k].spec_inputs().contains(x));
        assert(consumes(self.rule_map(), k, x));
    }

    /// Builds the rule set from `(key, rule)` entries and derives, for every key,
    /// the keys whose rules consume it (all of them: a key may feed several
    /// rules). Refuses, in this order: two rules for one key; a negation or mux
    /// rule without inputs; rules that depend, directly or through others, on
    /// themselves.
    pub fn new(entries: Vec<(u64, Rule)>) -> (r: Result<Rules, RulesError>)
        ensures
            r == Err::<Rules, RulesError>(RulesError::DuplicateRule) <==> !keys_unique(entries@),
            r == Err::<Rules, RulesError>(RulesError::MissingOperand) <==> keys_unique(entries@)
                && !has_operands(rules_of(entries@)),
            r == Err::<Rules, RulesError>(RulesError::Cycle) <==> keys_unique(entries@)
                && has_operands(rules_of(entries@)) && !acyclic(rules_of(entries@)),
            r is Ok ==> r->Ok_0.wf() && r->Ok_0.rule_map() == rules_of(entries@),
    {
        let (rules, keys) = match collect_rules(entries) {
            Some(found) => found,
            None => return Err(RulesError::DuplicateRule),
        };
        if !operands_present(&rules, &keys) {
            return Err(RulesError::MissingOperand);
        }
        let parents = consumers_of(&rules, &keys);
        let rank = match rank_rules(&rules, &keys) {
            Some(rank) => rank,
            None => return Err(RulesError::Cycle),
        };
        let r = Rules { rules, parents, rank };
        proof {
            assert forall|x: u64, k: u64|
                #[trigger] r.parents_of(x).contains(k) <==> consumes(r.rule_map(), k, x) by {
                assert(lists(r.parents@, x, k) <==> consumes(r.rule_map(), k, x));
            }
        }
        Ok(r)
    }

    /// The rule that produces `key`, or `None` when `key` is a leaf.
    pub fn get(&self, key: u64) -> (r: Option<&Rule>)
        ensures
            r is Some <==> self.rule_map().contains_key(key),
            r is Some ==> *r->Some_0 == self.rule_map()[key],
    {
        self.rules.get(&key)
    }

    /// The keys whose rules consume `key` (empty when no rule does).
    pub fn get_parent(&self, key: u64) -> (r: &[u64])
        ensures
            r@ == self.parents_of(key),
    {
        match self.parents.get(&key) {
            Some(list) => list.as_slice(),
            None => &[],
        }
    }
}

/// Moves the entries into a map keyed by the key each rule produces, with the
/// list of those keys; `None` when two entries produce one key.
fn collect_rules(entries: Vec<(u64, Rule)>) -> (r: Option<(HashMap<u64, Rule>, Vec<u64>)>)
    ensures
        r is None <==> !keys_unique(entries@),
        r is Some ==> ({
            let (m, keys) = r->Some_0;
            &&& m@ == rules_of(entries@)
            &&& forall|k: u64| m@.contains_key(k) <==> keys@.contains(k)
        }),
{
    let ghost all = entries@;
    let mut rest = entries;
    let mut rules: HashMap<u64, Rule> = HashMap::new();
    let mut keys: Vec<u64> = Vec::new();
    while rest.len() > 0
        invariant
            all == entries@,
            rest.len() <= all.len(),
            forall|i: int| 0 <= i < rest.len() ==> rest@[i] == all[i],
            forall|i: int|
                rest.len() <= i < all.len() ==> rules@.contains_key(#[trigger] all[i].0)
                    && rules@[all[i].0] == all[i].1,
            forall|k: u64|
                rules@.contains_key(k) ==> exists|i: int|
                    rest.len() <= i < all.len() && #[trigger] all[i].0 == k,
            forall|i: int, j: int|
                rest.len() <= i < j < all.len() ==> #[trigger] all[i].0 != #[trigger] all[j].0,
            forall|k: u64| rules@.contains_key(k) <==> keys@.contains(k),
        decreases rest.len(),
    {
        let ghost n = rest.len() - 1;
        assert(rest@[n] == all[n]);
        let (k, rule) = rest.pop().unwrap();
        if rules.contains_key(&k) {
            proof {
                let i = choose|i: int| n + 1 <= i < all.len() && #[trigger] all[i].0 == k;
                assert(all[n].0 == all[i].0);
                assert(!keys_unique(all));
            }
            return None;
        }
        rules.insert(k, rule);
        keys.push(k);
        proof {
            assert forall|k2: u64| rules@.contains_key(k2) implies exists|i: int|
                n <= i < all.len() && #[trigger] all[i].0 == k2 by {
                if k2 == k {
                    assert(all[n].0 == k2);
                }
            }
        }
    }
    proof {
        assert forall|k: u64| #[trigger] rules@.contains_key(k) implies rules_of(all).contains_key(k)
            && rules@[k] == rules_of(all)[k] by {
            let i = choose|i: int| 0 <= i < all.len() && #[trigger] all[i].0 == k;
            let c = choose|c: int| 0 <= c < all.len() && all[c].0 == k;
            if c != i {
                if c < i {
                    assert(all[c].0 != all[i].0);
                } else {
                    assert(all[i].0 != all[c].0);
                }
            }
        }
        assert forall|k: u64| rules_of(all).contains_key(k) implies #[trigger] rules@.contains_key(k) by {
            let i = choose|i: int| 0 <= i < all.len() && all[i].0 == k;
            assert(rules@.contains_key(all[i].0));
        }
        assert(rules@ =~= rules_of(all));
    }
    Some((rules, keys))
}

/// Whether every negation or mux rule has an input.
fn operands_present(rules: &HashMap<u64, Rule>, keys: &Vec<u64>) -> (r: bool)
    requires
        forall|k: u64| rules@.contains_key(k) <==> keys@.contains(k),
    ensures
        r == has_operands(rules@),
{
    let mut i: usize = 0;
    while i < keys.len()
        invariant
            0 <= i <= keys.len(),
            forall|k: u64| rules@.contains_key(k) <==> keys@.contains(k),
            forall|j: int|
                0 <= j < i ==> (needs_operand(rules@[#[trigger] keys@[j]].spec_op())
                    ==> rules@[keys@[j]].spec_inputs().len() > 0),
        decreases keys.len() - i,
    {
        let k = keys[i];
        assert(keys@.contains(k));
        let rule = rules.get(&k).unwrap();
        let needs = match rule.op() {
            Operation::Negate | Operation::Mux | Operation::MuxOrOne | Operation::MuxOrZero => true,
            _ => false,
        };
        if needs && rule.keys().len() == 0 {
            return false;
        }
        i = i + 1;
    }
    proof {
        assert forall|k: u64|
            #[trigger] rules@.contains_key(k) && needs_operand(rules@[k].spec_op()) implies rules@[k].spec_inputs().len()
                > 0 by {
            assert(keys@.contains(k));
            let j = choose|j: int| 0 <= j < keys@.len() && keys@[j] == k;
            assert(needs_operand(rules@[keys@[j]].spec_op()) ==> rules@[keys@[j]].spec_inputs().len() > 0);
        }
    }
    true
}

/// The index `p` lists `k` among the consumers of `x`.
spec fn lists(p: Map<u64, Vec<u64>>, x: u64, k: u64) -> bool {
    p.contains_key(x) && p[x]@.contains(k)
}

/// For every key, the keys whose rules consume it.
fn consumers_of(rules: &HashMap<u64, Rule>, keys: &Vec<u64>) -> (p: HashMap<u64, Vec<u64>>)
    requires
        forall|k: u64| rules@.contains_key(k) <==> keys@.contains(k),
    ensures
        forall|x: u64, k: u64| #[trigger] lists(p@, x, k) <==> consumes(rules@, k, x),
{
    let ghost m = rules@;
    let mut parents: HashMap<u64, Vec<u64>> = HashMap::new();
    let mut a: usize = 0;
    while a < keys.len()
        invariant
            rules@ == m,
            0 <= a <= keys.len(),
            forall|k: u64| m.contains_key(k) <==> keys@.contains(k),
            forall|x: u64, k: u64|
                #[trigger] lists(parents@, x, k) <==> (keys@.take(a as int).contains(k) && consumes(
                    m,
                    k,
                    x,
                )),
        decreases keys.len() - a,
    {
        let k = keys[a];
        assert(keys@.contains(k));
        let rule = rules.get(&k).unwrap();
        let inputs = rule.keys();
        let ghost before = keys@.take(a as int);
        let mut b: usize = 0;
        assert(inputs@.take(0) =~= Seq::<u64>::empty());
        while b < inputs.len()
            invariant
                rules@ == m,
                0 <= b <= inputs.len(),
                m.contains_key(k),
                inputs@ == m[k].spec_inputs(),
                forall|x: u64, k2: u64|
                    #[trigger] lists(parents@, x, k2) <==> ((before.contains(k2) && consumes(m, k2, x))
                        || (k2 == k && inputs@.take(b as int).contains(x))),
            decreases inputs.len() - b,
        {
            let x = inputs[b];
            let ghost old_parents = parents@;
            let mut list: Vec<u64> = match parents.remove(&x) {
                Some(v) => v,
                None => Vec::new(),
            };
            let ghost old_list = list@;
            list.push(k);
            parents.insert(x, list);
            proof {
                let s0 = inputs@.take(b as int);
                let s1 = inputs@.take(b + 1);
                assert(s1 =~= s0.push(x));
                assert(old_parents.contains_key(x) ==> old_list == old_parents[x]@);
                assert(!old_parents.contains_key(x) ==> old_list =~= Seq::<u64>::empty());
                assert forall|y: u64, k2: u64|
                    #[trigger] lists(parents@, y, k2) <==> ((before.contains(k2) && consumes(m, k2, y))
                        || (k2 == k && s1.contains(y))) by {
                    assert(lists(old_parents, y, k2) <==> ((before.contains(k2) && consumes(m, k2, y))
                        || (k2 == k && s0.contains(y))));
                    if y == x {
                        assert(parents@[y]@ == old_list.push(k));
                    } else {
                        assert(lists(parents@, y, k2) == lists(old_parents, y, k2));
                    }
                }
            }
            b = b + 1;
        }
        proof {
            let after = keys@.take(a + 1);
            assert(after =~= before.push(k));
            assert(inputs@.take(inputs@.len() as int) =~= inputs@);
            assert forall|x: u64, k2: u64|
                #[trigger] lists(parents@, x, k2) <==> (after.contains(k2) && consumes(m, k2, x)) by {
                assert(lists(parents@, x, k2) <==> ((before.contains(k2) && consumes(m, k2, x)) || (k2
                    == k && inputs@.contains(x))));
            }
        }
        a = a + 1;
    }
    proof {
        assert(keys@.take(keys@.len() as int) =~= keys@);
        assert forall|x: u64, k: u64| #[trigger] lists(parents@, x, k) <==> consumes(m, k, x) by {
            assert(lists(parents@, x, k) <==> (keys@.take(keys@.len() as int).contains(k)
                && consumes(m, k, x)));
        }
    }
    parents
}

/// Whether every input of a rule that has a rule itself is among `done`.
fn inputs_ready(rules: &HashMap<u64, Rule>, done: &HashSet<u64>, inputs: &[u64]) -> (r: bool)
    ensures
        r <==> forall|x: u64| inputs@.contains(x) && rules@.contains_key(x) ==> done@.contains(x),
{
    let mut b: usize = 0;
    while b < inputs.len()
        invariant
            0 <= b <= inputs.len(),
            forall|c: int| 0 <= c < b && rules@.contains_key(#[trigger] inputs@[c]) ==> done@.contains(inputs@[c]),
        decreases inputs.len() - b,
    {
        let x = inputs[b];
        if rules.contains_key(&x) && !done.contains(&x) {
            assert(inputs@.contains(x));
            return false;
        }
        b = b + 1;
    }
    true
}

/// Numbers the rules so that each comes after the rules of its inputs; `None`
/// when no such numbering exists.
fn rank_rules(rules: &HashMap<u64, Rule>, keys: &Vec<u64>) -> (r: Option<Ghost<Map<u64, nat>>>)
    requires
        forall|k: u64| rules@.contains_key(k) <==> keys@.contains(k),
    ensures
        r is None <==> !acyclic(rules@),
        r is Some ==> ({
            let rank = r->Some_0@;
            &&& is_ranking(rules@, rank)
            &&& forall|k: u64| #[trigger] rules@.contains_key(k) ==> rank[k] >= 1
        }),
{
    let ghost m = rules@;
    let mut done: HashSet<u64> = HashSet::new();
    let ghost mut rank: Map<u64, nat> = Map::empty();
    let ghost mut next: nat = 1;
    assert(rules@.dom().finite());
    loop
        invariant
            rules@ == m,
            m.dom().finite(),
            forall|k: u64| m.contains_key(k) <==> keys@.contains(k),
            done@.subset_of(m.dom()),
            rank.dom() == done@,
            next >= 1,
            forall|k: u64| #[trigger] done@.contains(k) ==> 1 <= rank[k] < next,
            forall|k: u64, x: u64|
                done@.contains(k) && #[trigger] consumes(m, k, x) && m.contains_key(x)
                    ==> done@.contains(x) && rank[x] < rank[k],
        decreases m.dom().len() - done@.len(),
    {
        let ghost start = done@;
        let mut progressed = false;
        let mut all_done = true;
        let mut i: usize = 0;
        while i < keys.len()
            invariant
                rules@ == m,
                m.dom().finite(),
                0 <= i <= keys.len(),
                forall|k: u64| m.contains_key(k) <==> keys@.contains(k),
                done@.subset_of(m.dom()),
                start.subset_of(done@),
                !progressed ==> done@ == start,
                progressed ==> done@.len() > start.len(),
                rank.dom() == done@,
                next >= 1,
                forall|k: u64| #[trigger] done@.contains(k) ==> 1 <= rank[k] < next,
                forall|k: u64, x: u64|
                    done@.contains(k) && #[trigger] consumes(m, k, x) && m.contains_key(x)
                        ==> done@.contains(x) && rank[x] < rank[k],
                all_done ==> forall|j: int| 0 <= j < i ==> done@.contains(#[trigger] keys@[j]),
                !progressed ==> forall|j: int|
                    0 <= j < i && !done@.contains(#[trigger] keys@[j]) ==> blocked_in(
                        m,
                        m.dom().difference(done@),
                        keys@[j],
                    ),
                !progressed && !all_done ==> exists|j: int| 0 <= j < i && !done@.contains(#[trigger] keys@[j]),
            decreases keys.len() - i,
        {
            let k = keys[i];
            assert(keys@.contains(k));
            if !done.contains(&k) {
                let rule = rules.get(&k).unwrap();
                if inputs_ready(rules, &done, rule.keys()) {
                    proof {
                        assert forall|x: u64| #[trigger]
                            consumes(m, k, x) && m.contains_key(x) implies done@.contains(x)
                            && rank[x] < next by {}
                        rank = rank.insert(k, next);
                        next = next + 1;
                    }
                    done.insert(k);
                    progressed = true;
                    proof {
                        vstd::set_lib::lemma_len_subset(start, done@.remove(k));
                    }
                } else {
                    all_done = false;
                    proof {
                        let x = choose|x: u64|
                            !(rule.spec_inputs().contains(x) && m.contains_key(x) ==> done@.contains(x));
                        assert(consumes(m, k, x));
                        assert(m.dom().difference(done@).contains(x));
                        assert(blocked_in(m, m.dom().difference(done@), k));
                    }
                }
            }
            i = i + 1;
        }
        proof {
            vstd::set_lib::lemma_len_subset(done@, m.dom());
        }
        if all_done {
            proof {
                assert forall|k: u64| m.contains_key(k) implies done@.contains(k) by {
                    let j = choose|j: int| 0 <= j < keys.len() && keys@[j] == k;
                }
                assert(is_ranking(m, rank));
            }
            return Some(Ghost(rank));
        }
        if !progressed {
            proof {
                let left = m.dom().difference(done@);
                let j0 = choose|j: int| 0 <= j < keys.len() && !done@.contains(#[trigger] keys@[j]);
                assert forall|k: u64| #[trigger] left.contains(k) implies blocked_in(m, left, k) by {
                    let j = choose|j: int| 0 <= j < keys.len() && keys@[j] == k;
                    assert(!done@.contains(keys@[j]));
                }
                lemma_no_descent(m, left, keys@[j0]);
            }
            return None;
        }
    }
}

/// The rule of `k` consumes some member of `s`.
spec fn blocked_in(m: Map<u64, Rule>, s: Set<u64>, k: u64) -> bool {
    exists|x: u64| consumes(m, k, x) && s.contains(x)
}

/// Ranks only grow along consumption, so a set of keys in which every key
/// consumes another member ranks above every bound.
proof fn lemma_rank_at_least(m: Map<u64, Rule>, r: Map<u64, nat>, left: Set<u64>, n: nat)
    requires
        is_ranking(m, r),
        left.subset_of(m.dom()),
        forall|k: u64| #[trigger] left.contains(k) ==> blocked_in(m, left, k),
    ensures
        forall|k: u64| #[trigger] left.contains(k) ==> r[k] >= n,
    decreases n,
{
    if n > 0 {
        lemma_rank_at_least(m, r, left, (n - 1) as nat);
        assert forall|k: u64| #[trigger] left.contains(k) implies r[k] >= n by {
            let x = choose|x: u64| consumes(m, k, x) && left.contains(x);
            assert(r[x] >= n - 1);
        }
    }
}

/// A nonempty set of keys in which every key consumes another member admits no ranking.
proof fn lemma_no_descent(m: Map<u64, Rule>, left: Set<u64>, k0: u64)
    requires
        left.subset_of(m.dom()),
        left.contains(k0),
        forall|k: u64| #[trigger] left.contains(k) ==> blocked_in(m, left, k),
    ensures
        !acyclic(m),
{
    if acyclic(m) {
        let r = choose|r: Map<u64, nat>| is_ranking(m, r);
        lemma_rank_at_least(m, r, left, r[k0] + 1);
    }
}

} // verus!
