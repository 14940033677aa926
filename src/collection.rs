use crate::operation::{OpView, Operation};
use vstd::prelude::*;

verus! {

/// Whether no two records of `s` share a `tx_id`.
pub open spec fn unique_ids(s: Seq<OpView>) -> bool {
    forall|i: int, j: int| 0 <= i < j < s.len() ==> s[i].tx_id != s[j].tx_id
}

/// Whether some record of `s` has the identifier `id`.
pub open spec fn has_id(s: Seq<OpView>, id: u64) -> bool {
    exists|i: int| 0 <= i < s.len() && s[i].tx_id == id
}

/// Adds `op` to the keyed sequence `s`: a record with the same `tx_id` is replaced in place,
/// else `op` goes at the end.
pub open spec fn insert_spec(s: Seq<OpView>, op: OpView) -> Seq<OpView> {
    if has_id(s, op.tx_id) {
        s.update(choose|i: int| 0 <= i < s.len() && s[i].tx_id == op.tx_id, op)
    } else {
        s.push(op)
    }
}

/// The collection built by inserting the records of `ops` in order: one record per `tx_id`,
/// the later one winning.
pub open spec fn collect(ops: Seq<OpView>) -> Seq<OpView>
    decreases ops.len(),
{
    if ops.len() == 0 {
        seq![]
    } else {
        insert_spec(collect(ops.drop_last()), ops.last())
    }
}

/// A set of operations keyed by `tx_id`, kept in a stable order.
#[derive(Debug, Clone)]
pub struct OperationSet {
    ops: Vec<Operation>,
}

impl View for OperationSet {
    type V = Seq<OpView>;

    closed spec fn view(&self) -> Seq<OpView> {
        self.ops@.map_values(|o: Operation| o@)
    }
}

impl OperationSet {
    /// No two records share a `tx_id`.
    pub open spec fn wf(&self) -> bool {
        unique_ids(self@)
    }

    pub fn new() -> (r: OperationSet)
        ensures
            r@ == Seq::<OpView>::empty(),
            r.wf(),
    {
        let r = OperationSet { ops: Vec::new() };
        assert(r@ =~= Seq::<OpView>::empty());
        r
    }

    pub fn len(&self) -> (r: usize)
        ensures
            r == self@.len(),
    {
        self.ops.len()
    }

    /// The record at position `i` of the stable order.
    pub fn get(&self, i: usize) -> (r: &Operation)
        requires
            i < self@.len(),
        ensures
            r@ == self@[i as int],
    {
        &self.ops[i]
    }

    /// The position of the record with identifier `id`, if any.
    pub fn position(&self, id: u64) -> (r: Option<usize>)
        ensures
            r is None <==> !has_id(self@, id),
            r matches Some(i) ==> i < self@.len() && self@[i as int].tx_id == id,
    {
        let mut i: usize = 0;
        while i < self.ops.len()
            invariant
                i <= self.ops@.len(),
                self@.len() == self.ops@.len(),
                forall|j: int| 0 <= j < i ==> self@[j].tx_id != id,
            decreases self.ops@.len() - i,
        {
            if self.ops[i].tx_id == id {
                return Some(i);
            }
            i += 1;
        }
        None
    }

    /// Whether a record with identifier `id` is present.
    pub fn contains_id(&self, id: u64) -> (r: bool)
        ensures
            r == has_id(self@, id),
    {
        self.position(id).is_some()
    }

    /// Adds `op`; a record with the same `tx_id` is replaced by it.
    pub fn insert(&mut self, op: Operation)
        requires
            old(self).wf(),
        ensures
            final(self)@ == insert_spec(old(self)@, op@),
            final(self).wf(),
    {
        let ghost s = self@;
        match self.position(op.tx_id) {
            Some(i) => {
                proof {
                    let j = choose|j: int| 0 <= j < s.len() && s[j].tx_id == op.tx_id;
                    assert(j == i);
                }
                self.ops.set(i, op);
                assert(self@ =~= s.update(i as int, op@));
            },
            None => {
                self.ops.push(op);
                assert(self@ =~= s.push(op@));
            },
        }
        proof {
            lemma_insert_unique(s, op@);
        }
    }
}

/// Inserting into a set with unique identifiers keeps them unique.
pub proof fn lemma_insert_unique(s: Seq<OpView>, op: OpView)
    requires
        unique_ids(s),
    ensures
        unique_ids(insert_spec(s, op)),
{
}

/// Records are kept by identity alone: collecting two records that share a `tx_id`, whatever
/// their other fields, leaves one record, the later.
pub proof fn lemma_same_id_collapses(a: OpView, b: OpView)
    requires
        a.tx_id == b.tx_id,
    ensures
        collect(seq![a, b]) == seq![b],
        collect(seq![a, b]).len() == 1,
{
    assert(seq![a, b].drop_last() =~= seq![a]);
    assert(seq![a].drop_last() =~= Seq::<OpView>::empty());
    let e = Seq::<OpView>::empty();
    assert(collect(e) == e);
    assert(collect(seq![a]) == insert_spec(collect(e), a));
    assert(!has_id(e, a.tx_id));
    assert(e.push(a) =~= seq![a]);
    assert(has_id(seq![a], b.tx_id)) by {
        assert(seq![a][0].tx_id == b.tx_id);
    }
    assert(seq![a].update(0, b) =~= seq![b]);
}

/// Collecting records whose identifiers are distinct keeps them all, in order.
pub proof fn lemma_collect_unique(ops: Seq<OpView>)
    requires
        unique_ids(ops),
    ensures
        collect(ops) == ops,
    decreases ops.len(),
{
    if ops.len() > 0 {
        let init = ops.drop_last();
        lemma_collect_unique(init);
        assert(!has_id(init, ops.last().tx_id)) by {
            if has_id(init, ops.last().tx_id) {
                let i = choose|i: int| 0 <= i < init.len() && init[i].tx_id == ops.last().tx_id;
                assert(ops[i].tx_id == ops[ops.len() - 1].tx_id);
            }
        }
        assert(init.push(ops.last()) =~= ops);
    }
}

/// How two sets of operations compare by identifier.
#[derive(Debug, Clone, Copy, PartialEq, Eq, Structural)]
pub enum Comparison {
    /// The sets hold different numbers of records: the first's, then the second's.
    CountMismatch(usize, usize),
    /// A record of the first set whose `tx_id` the second lacks.
    Differs(u64),
    /// Every record of the first set has a match in the second, and the sizes agree.
    Identical,
}

/// Compares two sets by size, then by the identifiers of the first.
pub fn compare(a: &OperationSet, b: &OperationSet) -> (r: Comparison)
    ensures
        match r {
            Comparison::CountMismatch(x, y) => x == a@.len() && y == b@.len() && x != y,
            Comparison::Differs(id) => a@.len() == b@.len() && has_id(a@, id) && !has_id(b@, id),
            Comparison::Identical => a@.len() == b@.len() && forall|i: int|
                0 <= i < a@.len() ==> has_id(b@, #[trigger] a@[i].tx_id),
        },
{
    if a.len() != b.len() {
        return Comparison::CountMismatch(a.len(), b.len());
    }
    let mut i: usize = 0;
    while i < a.len()
        invariant
            i <= a@.len(),
            a@.len() == b@.len(),
            forall|j: int| 0 <= j < i ==> has_id(b@, #[trigger] a@[j].tx_id),
        decreases a@.len() - i,
    {
        let id = a.get(i).tx_id;
        if !b.contains_id(id) {
            assert(a@[i as int].tx_id == id);
            return Comparison::Differs(id);
        }
        i += 1;
    }
    Comparison::Identical
}

/// Two sets are equal when they are the same size and each holds every identifier of the other.
impl PartialEq for OperationSet {
    fn eq(&self, other: &OperationSet) -> (r: bool) {
        compare(self, other) == Comparison::Identical && compare(other, self)
            == Comparison::Identical
    }
}

impl vstd::std_specs::cmp::PartialEqSpecImpl for OperationSet {
    open spec fn obeys_eq_spec() -> bool {
        true
    }

    open spec fn eq_spec(&self, other: &OperationSet) -> bool {
        &&& self@.len() == other@.len()
        &&& forall|i: int| 0 <= i < self@.len() ==> has_id(other@, #[trigger] self@[i].tx_id)
        &&& forall|i: int| 0 <= i < other@.len() ==> has_id(self@, #[trigger] other@[i].tx_id)
    }
}

} // verus!
