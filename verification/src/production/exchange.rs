//! Query and registration interface of the commodity exchange. The exchange
//! tracks, per commodity, how much is required, available and used, and which
//! producers exist; the arithmetic that moves those numbers is owned by the
//! simulation host, not by this core.

use vstd::prelude::*;

verus! {

/// A producer registration: something on the grid that yields a commodity.
#[derive(Clone, Debug)]
pub struct Producer {
    pub commodity: String,
}

/// Per-commodity ledger amounts.
#[derive(Clone, Copy, PartialEq, Eq, Structural, Debug)]
pub struct CommodityState {
    pub required: u32,
    pub available: u32,
    pub used: u32,
}

/// The ledger: commodity amounts keyed by name, plus registered producers.
pub struct CommodityExchange {
    commodities: Vec<(String, CommodityState)>,
    producers: Vec<Producer>,
}

/// No two records in `entries` share a name.
pub open spec fn names_unique(entries: Seq<(String, CommodityState)>) -> bool {
    forall|i: int, j: int|
        0 <= i < j < entries.len() ==> (#[trigger] entries[i]).0@ != (#[trigger] entries[j]).0@
}

/// The first ledger entry for `name`, if any.
pub open spec fn spec_lookup(entries: Seq<(String, CommodityState)>, name: Seq<char>) -> Option<
    CommodityState,
>
    decreases entries.len(),
{
    if entries.len() == 0 {
        None
    } else if entries[0].0@ == name {
        Some(entries[0].1)
    } else {
        spec_lookup(entries.drop_first(), name)
    }
}

/// The indices below `n` of producers of commodity `name`, in registration
/// order.
pub open spec fn producer_indices_upto(producers: Seq<Producer>, name: Seq<char>, n: int) -> Seq<
    int,
>
    decreases n,
{
    if n <= 0 {
        Seq::empty()
    } else if producers[n - 1].commodity@ == name {
        producer_indices_upto(producers, name, n - 1).push(n - 1)
    } else {
        producer_indices_upto(producers, name, n - 1)
    }
}

/// The indices of the registered producers of commodity `name`, in
/// registration order.
pub open spec fn spec_producer_indices(producers: Seq<Producer>, name: Seq<char>) -> Seq<int> {
    producer_indices_upto(producers, name, producers.len() as int)
}

impl CommodityExchange {
    /// The ledger entries, by insertion order.
    pub closed spec fn commodities_seq(&self) -> Seq<(String, CommodityState)> {
        self.commodities@
    }

    /// The registered producers, by registration order.
    pub closed spec fn producers_seq(&self) -> Seq<Producer> {
        self.producers@
    }

    /// The ledger amounts recorded for `name`: absent commodities count as
    /// all-zero.
    pub open spec fn spec_amounts_of(&self, name: Seq<char>) -> CommodityState {
        match spec_lookup(self.commodities_seq(), name) {
            Some(st) => st,
            None => CommodityState { required: 0, available: 0, used: 0 },
        }
    }

    /// No two ledger entries share a name.
    pub open spec fn wf(&self) -> bool {
        names_unique(self.commodities_seq())
    }

    /// An empty exchange: no commodities, no producers.
    pub fn new() -> (r: CommodityExchange)
        ensures
            r.commodities_seq() == Seq::<(String, CommodityState)>::empty(),
            r.producers_seq() == Seq::<Producer>::empty(),
            r.wf(),
    {
        CommodityExchange { commodities: Vec::new(), producers: Vec::new() }
    }

    /// Registers one more producer.
    pub fn register_producer(&mut self, p: Producer)
        requires
            old(self).wf(),
        ensures
            final(self).producers_seq() == old(self).producers_seq().push(p),
            final(self).commodities_seq() == old(self).commodities_seq(),
            final(self).wf(),
    {
        self.producers.push(p);
    }

    /// Records the ledger amounts for `name`, replacing any earlier record.
    pub fn set_amounts(&mut self, name: String, st: CommodityState)
        requires
            old(self).wf(),
        ensures
            final(self).wf(),
            final(self).producers_seq() == old(self).producers_seq(),
            final(self).spec_amounts_of(name@) == st,
            forall|other: Seq<char>|
                other != name@ ==> final(self).spec_amounts_of(other) == old(self).spec_amounts_of(
                    other,
                ),
    {
        let n = self.commodities.len();
        let mut i: usize = 0;
        while i < n
            invariant
                old(self).wf(),
                n == self.commodities@.len(),
                i <= n,
                *self == *old(self),
                forall|k: int| 0 <= k < i ==> self.commodities@[k].0@ != name@,
            decreases n - i,
        {
            if self.commodities[i].0 == name {
                let ghost pre = self.commodities@;
                self.commodities[i] = (name, st);
                proof {
                    lemma_lookup_update(pre, self.commodities@, i as int, name@, st);
                    assert forall|p: int, q: int|
                        0 <= p < q < self.commodities@.len() implies self.commodities@[p].0@
                        != self.commodities@[q].0@ by {
                        assert(names_unique(pre));
                        assert(pre[p].0@ != pre[q].0@);
                        assert(self.commodities@[p].0@ == pre[p].0@);
                        assert(self.commodities@[q].0@ == pre[q].0@);
                    }
                }
                return ;
            }
            i += 1;
        }
        let ghost pre = self.commodities@;
        self.commodities.push((name, st));
        proof {
            lemma_lookup_push(pre, (name, st), name@);
            assert forall|p: int, q: int|
                0 <= p < q < self.commodities@.len() implies self.commodities@[p].0@
                != self.commodities@[q].0@ by {
                assert(names_unique(pre));
                if q < pre.len() {
                    assert(pre[p].0@ != pre[q].0@);
                    assert(self.commodities@[p] == pre[p]);
                    assert(self.commodities@[q] == pre[q]);
                } else {
                    assert(self.commodities@[p] == pre[p]);
                    assert(self.commodities@[q].0@ == name@);
                }
            }
        }
    }

    /// The registered producers of `commodity`, as indices into the
    /// registration order.
    pub fn producers_of(&self, commodity: &String) -> (r: Vec<usize>)
        ensures
            r@.map_values(|u: usize| u as int) == spec_producer_indices(
                self.producers_seq(),
                commodity@,
            ),
    {
        let mut r: Vec<usize> = Vec::new();
        let n = self.producers.len();
        let mut i: usize = 0;
        while i < n
            invariant
                n == self.producers@.len(),
                i <= n,
                r@.map_values(|u: usize| u as int) == producer_indices_upto(
                    self.producers@,
                    commodity@,
                    i as int,
                ),
            decreases n - i,
        {
            if self.producers[i].commodity == *commodity {
                r.push(i);
                proof {
                    assert(r@.map_values(|u: usize| u as int) =~= producer_indices_upto(
                        self.producers@,
                        commodity@,
                        i + 1,
                    ));
                }
            }
            i += 1;
        }
        r
    }

    /// How much of `commodity` consumers currently require.
    pub fn amount_required_of(&self, commodity: &String) -> (r: u32)
        ensures
            r == self.spec_amounts_of(commodity@).required,
    {
        self.amounts_of(commodity).required
    }

    /// How much of `commodity` producers have made available.
    pub fn amount_available_of(&self, commodity: &String) -> (r: u32)
        ensures
            r == self.spec_amounts_of(commodity@).available,
    {
        self.amounts_of(commodity).available
    }

    /// How much of `commodity` consumers have already drawn.
    pub fn amount_used_of(&self, commodity: &String) -> (r: u32)
        ensures
            r == self.spec_amounts_of(commodity@).used,
    {
        self.amounts_of(commodity).used
    }

    /// The full amount record for `commodity`; all-zero when unknown.
    pub fn amounts_of(&self, commodity: &String) -> (r: CommodityState)
        ensures
            r == self.spec_amounts_of(commodity@),
    {
        let n = self.commodities.len();
        let mut i: usize = 0;
        proof {
            assert(self.commodities@.skip(0) =~= self.commodities@);
        }
        while i < n
            invariant
                n == self.commodities@.len(),
                i <= n,
                spec_lookup(self.commodities@, commodity@) == spec_lookup(
                    self.commodities@.skip(i as int),
                    commodity@,
                ),
            decreases n - i,
        {
            proof {
                assert(self.commodities@.skip(i as int).drop_first() =~= self.commodities@.skip(
                    i + 1,
                ));
            }
            if self.commodities[i].0 == *commodity {
                return self.commodities[i].1;
            }
            i += 1;
        }
        proof {
            assert(self.commodities@.skip(n as int) =~= Seq::<(String, CommodityState)>::empty());
        }
        CommodityState { required: 0, available: 0, used: 0 }
    }
}

/// Updating the entry that holds `name` makes `spec_lookup` return the new
/// amounts for `name` and leaves every other name's lookup unchanged.
proof fn lemma_lookup_update(
    pre: Seq<(String, CommodityState)>,
    post: Seq<(String, CommodityState)>,
    i: int,
    name: Seq<char>,
    st: CommodityState,
)
    requires
        0 <= i < pre.len(),
        post.len() == pre.len(),
        forall|k: int| 0 <= k < pre.len() && k != i ==> post[k] == pre[k],
        post[i].0@ == name && post[i].1 == st,
        pre[i].0@ == name,
        forall|k: int| 0 <= k < i ==> pre[k].0@ != name,
    ensures
        spec_lookup(post, name) == Some(st),
        forall|other: Seq<char>| other != name ==> spec_lookup(post, other) == spec_lookup(
            pre,
            other,
        ),
    decreases pre.len(),
{
    if i == 0 {
        assert forall|other: Seq<char>| other != name implies spec_lookup(post, other)
            == spec_lookup(pre, other) by {
            assert(post.drop_first() =~= pre.drop_first());
        }
    } else {
        assert(post[0] == pre[0]);
        assert(post.drop_first() =~= post.skip(1));
        lemma_lookup_update(pre.drop_first(), post.drop_first(), i - 1, name, st);
        assert forall|other: Seq<char>| other != name implies spec_lookup(post, other)
            == spec_lookup(pre, other) by {
            if pre[0].0@ != other {
                assert(spec_lookup(post, other) == spec_lookup(post.drop_first(), other));
                assert(spec_lookup(pre, other) == spec_lookup(pre.drop_first(), other));
            }
        }
    }
}

/// Appending a record for a name that no entry holds makes `spec_lookup`
/// return its amounts for that name and leaves every other name's lookup
/// unchanged.
proof fn lemma_lookup_push(
    pre: Seq<(String, CommodityState)>,
    rec: (String, CommodityState),
    name: Seq<char>,
)
    requires
        rec.0@ == name,
        forall|k: int| 0 <= k < pre.len() ==> pre[k].0@ != name,
    ensures
        spec_lookup(pre.push(rec), name) == Some(rec.1),
        forall|other: Seq<char>| other != name ==> spec_lookup(pre.push(rec), other) == spec_lookup(
            pre,
            other,
        ),
    decreases pre.len(),
{
    if pre.len() == 0 {
        assert(pre.push(rec)[0] == rec);
        assert forall|other: Seq<char>| other != name implies spec_lookup(pre.push(rec), other)
            == spec_lookup(pre, other) by {
            assert(pre.push(rec).drop_first() =~= Seq::<(String, CommodityState)>::empty());
            assert(spec_lookup(pre.push(rec), other) == spec_lookup(
                pre.push(rec).drop_first(),
                other,
            ));
        }
    } else {
        lemma_lookup_push(pre.drop_first(), rec, name);
        assert(pre.push(rec).drop_first() =~= pre.drop_first().push(rec));
        assert(pre.push(rec)[0] == pre[0]);
        assert forall|other: Seq<char>| other != name implies spec_lookup(pre.push(rec), other)
            == spec_lookup(pre, other) by {
            if pre[0].0@ != other {
                assert(spec_lookup(pre.push(rec), other) == spec_lookup(
                    pre.drop_first().push(rec),
                    other,
                ));
                assert(spec_lookup(pre, other) == spec_lookup(pre.drop_first(), other));
            }
        }
    }
}

} // verus!
