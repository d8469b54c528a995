//! Walking a map of providers in increasing order.

use std::collections::BTreeMap;

use vstd::prelude::*;
use vstd::std_specs::cmp::OrdSpec;
use vstd::std_specs::iter::IteratorSpec;

use crate::providers::RpcNodeProvider;

verus! {

broadcast use vstd::laws_cmp::group_laws_cmp;

/// Whether the providers stand in strictly increasing order.
pub open spec fn ascending(providers: Seq<RpcNodeProvider>) -> bool {
    forall|i: int, j: int| 0 <= i < j < providers.len() ==> providers[i] < providers[j]
}

/// The members of a finite set of providers, in increasing order.
pub open spec fn in_order(providers: Set<RpcNodeProvider>) -> Seq<RpcNodeProvider> {
    choose|s: Seq<RpcNodeProvider>| ascending(s) && s.to_set() == providers
}

/// The pairs of a map from providers, in increasing order of provider.
pub open spec fn entries<V>(m: Map<RpcNodeProvider, V>) -> Seq<(RpcNodeProvider, V)> {
    in_order(m.dom()).map_values(|p: RpcNodeProvider| (p, m[p]))
}

/// The map that a sequence of pairs builds up: the last pair of a provider counts.
pub open spec fn collected<V>(pairs: Seq<(RpcNodeProvider, V)>) -> Map<RpcNodeProvider, V>
    decreases pairs.len(),
{
    if pairs.len() == 0 {
        Map::empty()
    } else {
        collected(pairs.drop_last()).insert(pairs.last().0, pairs.last().1)
    }
}

/// Two increasing sequences with the same members are the same sequence.
proof fn lemma_ascending_unique(a: Seq<RpcNodeProvider>, b: Seq<RpcNodeProvider>)
    requires
        ascending(a),
        ascending(b),
        a.to_set() == b.to_set(),
    ensures
        a == b,
    decreases a.len(),
{
    if a.len() == 0 {
        if b.len() > 0 {
            assert(b.to_set().contains(b[0]));
        }
    } else if b.len() == 0 {
        assert(a.to_set().contains(a[0]));
    } else {
        assert(a.to_set().contains(a.last()) && b.to_set().contains(b.last()));
        let i = choose|i: int| 0 <= i < a.len() && a[i] == b.last();
        let j = choose|j: int| 0 <= j < b.len() && b[j] == a.last();
        assert(a.last() == b.last());
        assert forall|p: RpcNodeProvider|
            a.drop_last().to_set().contains(p) == b.drop_last().to_set().contains(p) by {
            if a.drop_last().contains(p) {
                let k = choose|k: int| 0 <= k < a.drop_last().len() && a.drop_last()[k] == p;
                assert(a[k] == p && a.to_set().contains(p));
                let l = choose|l: int| 0 <= l < b.len() && b[l] == p;
                assert(l < b.len() - 1 && b.drop_last()[l] == p);
            }
            if b.drop_last().contains(p) {
                let k = choose|k: int| 0 <= k < b.drop_last().len() && b.drop_last()[k] == p;
                assert(b[k] == p && b.to_set().contains(p));
                let l = choose|l: int| 0 <= l < a.len() && a[l] == p;
                assert(l < a.len() - 1 && a.drop_last()[l] == p);
            }
        }
        assert(a.drop_last().to_set() =~= b.drop_last().to_set());
        lemma_ascending_unique(a.drop_last(), b.drop_last());
        assert(a =~= a.drop_last().push(a.last()));
        assert(b =~= b.drop_last().push(b.last()));
    }
}

/// A finite, non-empty set of providers has a greatest member.
proof fn lemma_greatest(providers: Set<RpcNodeProvider>) -> (greatest: RpcNodeProvider)
    requires
        providers.finite(),
        providers.len() > 0,
    ensures
        providers.contains(greatest),
        forall|p: RpcNodeProvider| providers.contains(p) ==> p <= greatest,
    decreases providers.len(),
{
    let p = providers.choose();
    let rest = providers.remove(p);
    if rest.len() == 0 {
        assert forall|q: RpcNodeProvider| providers.contains(q) implies q <= p by {
            if q != p {
                assert(rest.contains(q));
            }
        }
        p
    } else {
        let q = lemma_greatest(rest);
        let greatest = if p <= q { q } else { p };
        assert forall|r: RpcNodeProvider| providers.contains(r) implies r <= greatest by {
            if r != p {
                assert(rest.contains(r));
            }
        }
        greatest
    }
}

/// Every finite set of providers can be walked in increasing order.
pub proof fn lemma_in_order(providers: Set<RpcNodeProvider>)
    requires
        providers.finite(),
    ensures
        ascending(in_order(providers)),
        in_order(providers).to_set() == providers,
        in_order(providers).len() == providers.len(),
        forall|p: RpcNodeProvider| #[trigger]
            in_order(providers).contains(p) <==> providers.contains(p),
    decreases providers.len(),
{
    if providers.len() == 0 {
        let s = Seq::<RpcNodeProvider>::empty();
        assert(s.to_set() =~= providers);
        lemma_ascending_unique(s, in_order(providers));
    } else {
        let greatest = lemma_greatest(providers);
        let rest = providers.remove(greatest);
        lemma_in_order(rest);
        let front = in_order(rest);
        let s = front.push(greatest);
        assert forall|i: int, j: int| 0 <= i < j < s.len() implies s[i] < s[j] by {
            assert(front.contains(front[i]));
        }
        assert forall|p: RpcNodeProvider| s.to_set().contains(p) == providers.contains(p) by {
            if providers.contains(p) && p != greatest {
                assert(front.contains(p));
                let i = choose|i: int| 0 <= i < front.len() && front[i] == p;
                assert(s[i] == p);
            }
            if s.contains(p) {
                let i = choose|i: int| 0 <= i < s.len() && s[i] == p;
                if i < front.len() {
                    assert(front.contains(front[i]));
                }
            }
            if p == greatest {
                assert(s[front.len() as int] == p);
            }
        }
        assert(s.to_set() =~= providers);
        lemma_ascending_unique(s, in_order(providers));
    }
    assert forall|p: RpcNodeProvider| #[trigger]
        in_order(providers).contains(p) <==> providers.contains(p) by {
        assert(in_order(providers).contains(p) <==> in_order(providers).to_set().contains(p));
    }
}

/// The pairs of a finite map are its keys in increasing order, each with its value.
pub proof fn lemma_entries<V>(m: Map<RpcNodeProvider, V>)
    requires
        m.dom().finite(),
    ensures
        entries(m).len() == m.dom().len(),
        forall|i: int, j: int|
            0 <= i < j < entries(m).len() ==> #[trigger] entries(m)[i].0 < #[trigger] entries(
                m,
            )[j].0,
        forall|i: int|
            0 <= i < entries(m).len() ==> m.contains_key((#[trigger] entries(m)[i]).0)
                && m[entries(m)[i].0] == entries(m)[i].1,
        forall|p: RpcNodeProvider| #[trigger]
            m.contains_key(p) ==> entries(m).contains((p, m[p])),
{
    lemma_in_order(m.dom());
    let order = in_order(m.dom());
    assert forall|i: int| 0 <= i < entries(m).len() implies m.contains_key(
        (#[trigger] entries(m)[i]).0,
    ) && m[entries(m)[i].0] == entries(m)[i].1 by {
        assert(order.contains(order[i]));
    }
    assert forall|p: RpcNodeProvider| #[trigger] m.contains_key(p) implies entries(m).contains(
        (p, m[p]),
    ) by {
        assert(order.contains(p));
        let i = choose|i: int| 0 <= i < order.len() && order[i] == p;
        assert(entries(m)[i] == (p, m[p]));
    }
}

/// The map that pairs build up has the providers of the pairs as its keys.
pub proof fn lemma_collected<V>(pairs: Seq<(RpcNodeProvider, V)>)
    ensures
        collected(pairs).dom().finite(),
        pairs.len() > 0 ==> collected(pairs).len() > 0,
        forall|p: RpcNodeProvider| #[trigger]
            collected(pairs).contains_key(p) <==> exists|i: int|
                0 <= i < pairs.len() && (#[trigger] pairs[i]).0 == p,
    decreases pairs.len(),
{
    if pairs.len() > 0 {
        let front = pairs.drop_last();
        lemma_collected(front);
        assert forall|p: RpcNodeProvider| #[trigger]
            collected(pairs).contains_key(p) <==> exists|i: int|
                0 <= i < pairs.len() && (#[trigger] pairs[i]).0 == p by {
            if collected(front).contains_key(p) {
                let i = choose|i: int| 0 <= i < front.len() && (#[trigger] front[i]).0 == p;
                assert(pairs[i].0 == p);
            }
            if p == pairs.last().0 {
                assert(pairs[pairs.len() - 1].0 == p);
            }
            if exists|i: int| 0 <= i < pairs.len() && (#[trigger] pairs[i]).0 == p {
                let i = choose|i: int| 0 <= i < pairs.len() && (#[trigger] pairs[i]).0 == p;
                if i < front.len() {
                    assert(front[i].0 == p);
                }
            }
        }
    }
}

/// Pairs of a map build up a part of it.
pub proof fn lemma_collected_submap<V>(
    pairs: Seq<(RpcNodeProvider, V)>,
    m: Map<RpcNodeProvider, V>,
)
    requires
        forall|k: int|
            0 <= k < pairs.len() ==> m.contains_key((#[trigger] pairs[k]).0) && m[pairs[k].0]
                == pairs[k].1,
    ensures
        collected(pairs).submap_of(m),
    decreases pairs.len(),
{
    if pairs.len() > 0 {
        let front = pairs.drop_last();
        assert forall|k: int| 0 <= k < front.len() implies m.contains_key((#[trigger] front[k]).0)
            && m[front[k].0] == front[k].1 by {
            assert(front[k] == pairs[k]);
        }
        lemma_collected_submap(front, m);
        assert(m.contains_key(pairs[pairs.len() - 1].0));
    }
}

/// The members of a map's key set, in increasing order.
pub fn ordered_providers<V>(m: &BTreeMap<RpcNodeProvider, V>) -> (r: Vec<RpcNodeProvider>)
    ensures
        ascending(r@),
        r@.to_set() == m@.dom(),
        r@ == in_order(m@.dom()),
{
    let keys = m.keys();
    let ghost walked = keys.remaining();
    proof {
        assert(vstd::laws_cmp::obeys_cmp::<RpcNodeProvider>());
        assert(vstd::laws_cmp::obeys_cmp::<&RpcNodeProvider>());
        assert(vstd::std_specs::btree::increasing_seq(walked));
    }
    let mut r: Vec<RpcNodeProvider> = Vec::new();
    for p in it: keys
        invariant
            it.seq() == walked,
            r@.len() == it.index(),
            forall|j: int| 0 <= j < r@.len() ==> r@[j] == *walked[j],
    {
        r.push(*p);
    }
    proof {
        assert(r@ =~= walked.unref());
        assert forall|i: int, j: int| 0 <= i < j < r@.len() implies r@[i] < r@[j] by {
            assert(OrdSpec::cmp_spec(&walked[i], &walked[j]) is Less);
        }
        lemma_ascending_unique(r@, in_order(m@.dom()));
    }
    r
}

/// Takes a map apart into its pairs, in increasing order of provider.
pub fn into_entries<V>(m: BTreeMap<RpcNodeProvider, V>) -> (r: Vec<(RpcNodeProvider, V)>)
    ensures
        r@ == entries(m@),
{
    let order = ordered_providers(&m);
    let ghost all = m@;
    let mut m = m;
    let mut r: Vec<(RpcNodeProvider, V)> = Vec::new();
    let mut i: usize = 0;
    while i < order.len()
        invariant
            i <= order@.len(),
            ascending(order@),
            order@ == in_order(all.dom()),
            order@.to_set() == all.dom(),
            forall|j: int|
                i <= j < order@.len() ==> m@.contains_key(order@[j]) && m@[order@[j]]
                    == all[order@[j]],
            r@ == entries(all).take(i as int),
        decreases order@.len() - i,
    {
        let p: RpcNodeProvider = order[i];
        match m.remove(&p) {
            Some(value) => {
                r.push((p, value));
            },
            None => {
                assert(false);
            },
        }
        i += 1;
        assert(r@ =~= entries(all).take(i as int));
    }
    assert(entries(all).take(i as int) =~= entries(all));
    r
}

/// Builds a map from pairs; the last pair of a provider counts.
pub fn from_pairs<V>(pairs: Vec<(RpcNodeProvider, V)>) -> (r: BTreeMap<RpcNodeProvider, V>)
    ensures
        r@ == collected(pairs@),
{
    let mut r: BTreeMap<RpcNodeProvider, V> = BTreeMap::new();
    let ghost all = pairs@;
    for pair in it: pairs.into_iter()
        invariant
            it.seq() == all,
            r@ == collected(all.take(it.index())),
    {
        proof {
            let next = all.take(it.index() + 1);
            assert(next.drop_last() =~= all.take(it.index()));
        }
        r.insert(pair.0, pair.1);
    }
    assert(all.take(all.len() as int) =~= all);
    r
}

} // verus!
