use vstd::prelude::*;

verus! {

/// One modifier of a stat, tagged by the component type that contributes it.
pub struct StatEntry<Op> {
    /// The contributing component type, as a number that identifies it.
    pub source: u64,
    /// The contributing component type's name, for diagnostics.
    pub source_name: &'static str,
    pub op: Op,
}

impl<Op: Copy> Clone for StatEntry<Op> {
    fn clone(&self) -> (r: Self)
        ensures
            r == *self,
    {
        *self
    }
}

impl<Op: Copy> Copy for StatEntry<Op> {}

/// The modifiers of one stat of an item, at most one per source, in the
/// order their sources first set them. The stat's base value is never
/// written: the effective value is a fold of these entries over the base.
pub struct StatModifiers<Op> {
    entries: Vec<StatEntry<Op>>,
}

/// No two entries share a source.
pub open spec fn spec_sources_unique<Op>(s: Seq<StatEntry<Op>>) -> bool {
    forall|i: int, j: int| 0 <= i < s.len() && 0 <= j < s.len() && i != j
        ==> #[trigger] s[i].source != #[trigger] s[j].source
}

pub open spec fn spec_has_source<Op>(s: Seq<StatEntry<Op>>, source: u64) -> bool {
    exists|i: int| 0 <= i < s.len() && s[i].source == source
}

pub open spec fn spec_source_index<Op>(s: Seq<StatEntry<Op>>, source: u64) -> int {
    choose|i: int| 0 <= i < s.len() && s[i].source == source
}

/// `source`'s entry set to `op`: replaced in place if the source already
/// has one (keeping its position and name), appended otherwise.
pub open spec fn spec_set<Op>(s: Seq<StatEntry<Op>>, source: u64, source_name: &'static str, op: Op) -> Seq<StatEntry<Op>> {
    if spec_has_source(s, source) {
        let i = spec_source_index(s, source);
        s.update(i, StatEntry { source, source_name: s[i].source_name, op })
    } else {
        s.push(StatEntry { source, source_name, op })
    }
}

/// The entries whose source is not `source`, in order.
pub open spec fn spec_without_source<Op>(s: Seq<StatEntry<Op>>, source: u64) -> Seq<StatEntry<Op>>
    decreases s.len(),
{
    if s.len() == 0 {
        Seq::empty()
    } else if s.last().source == source {
        spec_without_source(s.drop_last(), source)
    } else {
        spec_without_source(s.drop_last(), source).push(s.last())
    }
}

/// The entries as a map from source to modifier.
pub open spec fn spec_ops_by_source<Op>(s: Seq<StatEntry<Op>>) -> Map<u64, Op> {
    Map::new(|source: u64| spec_has_source(s, source), |source: u64| s[spec_source_index(s, source)].op)
}

impl<Op> View for StatModifiers<Op> {
    type V = Seq<StatEntry<Op>>;

    closed spec fn view(&self) -> Seq<StatEntry<Op>> {
        self.entries@
    }
}

impl<Op> StatModifiers<Op> {
    #[verifier::type_invariant]
    spec fn sources_unique(self) -> bool {
        spec_sources_unique(self.entries@)
    }
}

impl<Op: Copy> StatModifiers<Op> {
    /// No modifiers: the stat is its base value.
    pub fn new() -> (r: StatModifiers<Op>)
        ensures
            r@ == Seq::<StatEntry<Op>>::empty(),
    {
        StatModifiers { entries: Vec::new() }
    }

    /// Sets `source`'s modifier to `op`. A source that already has an
    /// entry has it replaced, never stacked.
    pub fn set(&mut self, source: u64, source_name: &'static str, op: Op)
        ensures
            final(self)@ == spec_set(old(self)@, source, source_name, op),
            spec_sources_unique(final(self)@),
    {
        proof {
            use_type_invariant(&*self);
        }
        let ghost s = self.entries@;
        let n = self.entries.len();
        let mut i: usize = 0;
        while i < n
            invariant
                s == self.entries@,
                s == old(self)@,
                spec_sources_unique(s),
                n == s.len(),
                i <= n,
                forall|k: int| 0 <= k < i ==> s[k].source != source,
            decreases n - i,
        {
            if self.entries[i].source == source {
                let name = self.entries[i].source_name;
                let mut entries: Vec<StatEntry<Op>> = Vec::new();
                std::mem::swap(&mut entries, &mut self.entries);
                entries.set(i, StatEntry { source, source_name: name, op });
                proof {
                    let c = spec_source_index(s, source);
                    assert(s[c].source == source);
                    assert(c == i);
                    assert(entries@ =~= spec_set(s, source, source_name, op));
                    assert forall|a: int, b: int| 0 <= a < entries@.len() && 0 <= b < entries@.len() && a != b
                        implies #[trigger] entries@[a].source != #[trigger] entries@[b].source by {
                        assert(entries@[a].source == s[a].source && entries@[b].source == s[b].source);
                    }
                }
                self.entries = entries;
                return;
            }
            i = i + 1;
        }
        let mut entries: Vec<StatEntry<Op>> = Vec::new();
        std::mem::swap(&mut entries, &mut self.entries);
        entries.push(StatEntry { source, source_name, op });
        proof {
            assert(!spec_has_source(s, source));
            assert(entries@ =~= spec_set(s, source, source_name, op));
            assert forall|a: int, b: int| 0 <= a < entries@.len() && 0 <= b < entries@.len() && a != b
                implies #[trigger] entries@[a].source != #[trigger] entries@[b].source by {
                if a < n && b < n {
                    assert(entries@[a] == s[a] && entries@[b] == s[b]);
                } else if a < n {
                    assert(entries@[a] == s[a]);
                } else {
                    assert(entries@[b] == s[b]);
                }
            }
        }
        self.entries = entries;
    }

    /// Drops `source`'s modifier, if it has one.
    pub fn remove(&mut self, source: u64)
        ensures
            final(self)@ == spec_without_source(old(self)@, source),
            spec_sources_unique(final(self)@),
    {
        proof {
            use_type_invariant(&*self);
        }
        let ghost s = self.entries@;
        let mut kept: Vec<StatEntry<Op>> = Vec::new();
        let n = self.entries.len();
        let mut i: usize = 0;
        assert(s.take(0) =~= Seq::<StatEntry<Op>>::empty());
        while i < n
            invariant
                s == self.entries@,
                n == s.len(),
                i <= n,
                spec_sources_unique(s),
                kept@ == spec_without_source(s.take(i as int), source),
                forall|k: int| 0 <= k < kept@.len() ==> exists|j: int| 0 <= j < i && #[trigger] kept@[k] == s[j],
                spec_sources_unique(kept@),
            decreases n - i,
        {
            let e = self.entries[i];
            assert(s.take(i + 1).drop_last() =~= s.take(i as int));
            if e.source != source {
                proof {
                    assert forall|k: int| 0 <= k < kept@.len() implies kept@[k].source != e.source by {
                        let j = choose|j: int| 0 <= j < i && kept@[k] == s[j];
                        assert(s[j].source != s[i as int].source);
                    }
                }
                kept.push(e);
                proof {
                    assert forall|k: int| 0 <= k < kept@.len() implies exists|j: int| 0 <= j < i + 1 && #[trigger] kept@[k] == s[j] by {
                        if k == kept@.len() - 1 {
                            assert(kept@[k] == s[i as int]);
                        } else {
                            let j = choose|j: int| 0 <= j < i && kept@[k] == s[j];
                            assert(kept@[k] == s[j]);
                        }
                    }
                }
            }
            i = i + 1;
        }
        assert(s.take(n as int) =~= s);
        self.entries = kept;
    }

    /// True when no source contributes a modifier.
    pub fn is_empty(&self) -> (r: bool)
        ensures
            r == (self@.len() == 0),
    {
        self.entries.len() == 0
    }

    /// The entries, in order, for folding over a base value.
    pub fn entries(&self) -> (r: &[StatEntry<Op>])
        ensures
            r@ == self@,
            spec_sources_unique(r@),
    {
        proof {
            use_type_invariant(self);
        }
        self.entries.as_slice()
    }
}

impl<Op: Copy> Default for StatModifiers<Op> {
    fn default() -> (r: Self)
        ensures
            r@ == Seq::<StatEntry<Op>>::empty(),
    {
        StatModifiers { entries: Vec::new() }
    }
}

/// Setting a source is inserting into the map of modifiers by source.
pub proof fn lemma_set_ops<Op>(s: Seq<StatEntry<Op>>, source: u64, source_name: &'static str, op: Op)
    requires
        spec_sources_unique(s),
    ensures
        spec_sources_unique(spec_set(s, source, source_name, op)),
        spec_ops_by_source(spec_set(s, source, source_name, op)) == spec_ops_by_source(s).insert(source, op),
{
    let t = spec_set(s, source, source_name, op);
    if spec_has_source(s, source) {
        let i = spec_source_index(s, source);
        assert forall|a: int, b: int| 0 <= a < t.len() && 0 <= b < t.len() && a != b
            implies #[trigger] t[a].source != #[trigger] t[b].source by {
            assert(t[a].source == s[a].source && t[b].source == s[b].source);
        }
        assert forall|k: u64| spec_has_source(t, k) <==> spec_has_source(s, k) || k == source by {
            if spec_has_source(s, k) {
                let j = spec_source_index(s, k);
                assert(t[j].source == k);
            }
            if spec_has_source(t, k) {
                let j = spec_source_index(t, k);
                assert(s[j].source == k);
            }
        }
    } else {
        assert forall|a: int, b: int| 0 <= a < t.len() && 0 <= b < t.len() && a != b
            implies #[trigger] t[a].source != #[trigger] t[b].source by {
            if a < s.len() && b < s.len() {
                assert(t[a] == s[a] && t[b] == s[b]);
            } else if a < s.len() {
                assert(t[a] == s[a]);
            } else {
                assert(t[b] == s[b]);
            }
        }
        assert forall|k: u64| spec_has_source(t, k) <==> spec_has_source(s, k) || k == source by {
            if spec_has_source(s, k) {
                let j = spec_source_index(s, k);
                assert(t[j].source == k);
            }
            if spec_has_source(t, k) && k != source {
                let j = spec_source_index(t, k);
                assert(j < s.len());
                assert(s[j].source == k);
            }
            if k == source {
                assert(t[s.len() as int].source == k);
            }
        }
    }
    let m = spec_ops_by_source(s).insert(source, op);
    assert forall|k: u64| #[trigger] spec_ops_by_source(t).contains_key(k) implies spec_ops_by_source(t)[k] == m[k] by {
        let j = spec_source_index(t, k);
        assert(t[j].source == k);
        if k != source {
            let j0 = spec_source_index(s, k);
            assert(s[j0].source == k);
            assert(t[j0].source == k);
            assert(j0 == j);
        }
    }
    assert(spec_ops_by_source(t) =~= m);
}

/// Appending an entry for a new source inserts it into the map.
pub proof fn lemma_ops_push<Op>(s: Seq<StatEntry<Op>>, e: StatEntry<Op>)
    requires
        spec_sources_unique(s),
        !spec_has_source(s, e.source),
    ensures
        spec_sources_unique(s.push(e)),
        spec_ops_by_source(s.push(e)) == spec_ops_by_source(s).insert(e.source, e.op),
{
    let t = s.push(e);
    assert forall|a: int, b: int| 0 <= a < t.len() && 0 <= b < t.len() && a != b
        implies #[trigger] t[a].source != #[trigger] t[b].source by {
        if a < s.len() && b < s.len() {
            assert(t[a] == s[a] && t[b] == s[b]);
        } else if a < s.len() {
            assert(t[a] == s[a]);
        } else {
            assert(t[b] == s[b]);
        }
    }
    assert(spec_set(s, e.source, e.source_name, e.op) == t);
    lemma_set_ops(s, e.source, e.source_name, e.op);
}

/// The last entry's source appears nowhere before it.
pub proof fn lemma_unique_init<Op>(s: Seq<StatEntry<Op>>)
    requires
        spec_sources_unique(s),
        s.len() > 0,
    ensures
        spec_sources_unique(s.drop_last()),
        !spec_has_source(s.drop_last(), s.last().source),
        s.drop_last().push(s.last()) == s,
{
    let init = s.drop_last();
    assert forall|a: int, b: int| 0 <= a < init.len() && 0 <= b < init.len() && a != b
        implies #[trigger] init[a].source != #[trigger] init[b].source by {
        assert(init[a] == s[a] && init[b] == s[b]);
    }
    if spec_has_source(init, s.last().source) {
        let j = spec_source_index(init, s.last().source);
        assert(init[j] == s[j]);
    }
    assert(init.push(s.last()) =~= s);
}

/// Removing a source is removing it from the map of modifiers by source.
pub proof fn lemma_without_ops<Op>(s: Seq<StatEntry<Op>>, source: u64)
    requires
        spec_sources_unique(s),
    ensures
        spec_sources_unique(spec_without_source(s, source)),
        spec_ops_by_source(spec_without_source(s, source)) == spec_ops_by_source(s).remove(source),
    decreases s.len(),
{
    let t = spec_without_source(s, source);
    if s.len() == 0 {
        assert(spec_ops_by_source(t) =~= spec_ops_by_source(s).remove(source));
    } else {
        let init = s.drop_last();
        let e = s.last();
        lemma_unique_init(s);
        lemma_without_ops(init, source);
        lemma_ops_push(init, e);
        let ti = spec_without_source(init, source);
        if e.source == source {
            assert(t == ti);
            assert(spec_ops_by_source(init).remove(source) =~= spec_ops_by_source(init).insert(source, e.op).remove(source));
        } else {
            assert(t == ti.push(e));
            assert(!spec_has_source(ti, e.source)) by {
                if spec_has_source(ti, e.source) {
                    assert(spec_ops_by_source(ti).contains_key(e.source));
                }
            }
            lemma_ops_push(ti, e);
            assert(spec_ops_by_source(init).remove(source).insert(e.source, e.op)
                =~= spec_ops_by_source(init).insert(e.source, e.op).remove(source));
        }
    }
}

/// Re-setting a source replaces its modifier, never stacks: the number of
/// entries stays the same and the source's modifier is the new one.
pub proof fn law_set_replaces_never_stacks<Op>(s: Seq<StatEntry<Op>>, source: u64, source_name: &'static str, op: Op)
    requires
        spec_sources_unique(s),
        spec_has_source(s, source),
    ensures
        spec_set(s, source, source_name, op).len() == s.len(),
        spec_ops_by_source(spec_set(s, source, source_name, op))[source] == op,
{
    lemma_set_ops(s, source, source_name, op);
}

/// Modifiers un-apply cleanly: removing a source that was just set brings
/// back exactly the entries there were before.
pub proof fn law_remove_undoes_set<Op>(s: Seq<StatEntry<Op>>, source: u64, source_name: &'static str, op: Op)
    requires
        spec_sources_unique(s),
        !spec_has_source(s, source),
    ensures
        spec_without_source(spec_set(s, source, source_name, op), source) == s,
{
    lemma_without_absent(s, source);
    let t = spec_set(s, source, source_name, op);
    assert(t.drop_last() =~= s);
}

/// Removing a source that has no entry changes nothing.
pub proof fn lemma_without_absent<Op>(s: Seq<StatEntry<Op>>, source: u64)
    requires
        !spec_has_source(s, source),
    ensures
        spec_without_source(s, source) == s,
    decreases s.len(),
{
    if s.len() > 0 {
        let init = s.drop_last();
        assert(!spec_has_source(init, source)) by {
            if spec_has_source(init, source) {
                let j = spec_source_index(init, source);
                assert(s[j] == init[j]);
            }
        }
        lemma_without_absent(init, source);
        assert(s.last().source != source);
        assert(init.push(s.last()) =~= s);
    }
}

/// The order in which sources set their modifiers does not matter: the
/// modifiers by source come out the same.
pub proof fn law_set_order_irrelevant<Op>(
    s: Seq<StatEntry<Op>>,
    a: u64,
    a_name: &'static str,
    a_op: Op,
    b: u64,
    b_name: &'static str,
    b_op: Op,
)
    requires
        spec_sources_unique(s),
        a != b,
    ensures
        spec_ops_by_source(spec_set(spec_set(s, a, a_name, a_op), b, b_name, b_op))
            == spec_ops_by_source(spec_set(spec_set(s, b, b_name, b_op), a, a_name, a_op)),
{
    lemma_set_ops(s, a, a_name, a_op);
    lemma_set_ops(spec_set(s, a, a_name, a_op), b, b_name, b_op);
    lemma_set_ops(s, b, b_name, b_op);
    lemma_set_ops(spec_set(s, b, b_name, b_op), a, a_name, a_op);
    assert(spec_ops_by_source(s).insert(a, a_op).insert(b, b_op) =~= spec_ops_by_source(s).insert(b, b_op).insert(a, a_op));
}

/// After a source is removed it contributes nothing, and every other
/// source keeps its modifier.
pub proof fn law_remove_clears_only_its_source<Op>(s: Seq<StatEntry<Op>>, source: u64)
    requires
        spec_sources_unique(s),
    ensures
        spec_ops_by_source(spec_without_source(s, source)) == spec_ops_by_source(s).remove(source),
        !spec_has_source(spec_without_source(s, source), source),
{
    lemma_without_ops(s, source);
    assert(!spec_ops_by_source(spec_without_source(s, source)).contains_key(source));
}

} // verus!
