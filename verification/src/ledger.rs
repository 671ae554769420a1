//! The fills of each order, kept in the order of the order ids.
use crate::order_id::{
    id_lt, lemma_id_lt_asymmetric, lemma_id_lt_irreflexive, lemma_id_lt_total,
    lemma_id_lt_transitive, order_ids, IdOrder,
};
use crate::totals::targets;
use crate::types::FillEvent;
use vstd::multiset::Multiset;
use vstd::prelude::*;

verus! {

/// The ids of `dom`, each once, every id before the ids that are greater.
pub open spec fn is_id_order(ids: Seq<Seq<char>>, dom: Set<Seq<char>>) -> bool {
    &&& forall|i: int, j: int|
        0 <= i < j < ids.len() ==> id_lt(#[trigger] ids[i], #[trigger] ids[j])
    &&& ids.to_set() == dom
}

/// The ids of `dom` in their order.
pub open spec fn in_id_order(dom: Set<Seq<char>>) -> Seq<Seq<char>> {
    choose|ids: Seq<Seq<char>>| is_id_order(ids, dom)
}

/// The fills under each of `ids`, one id after the other.
pub open spec fn fills_of(
    m: Map<Seq<char>, Seq<FillEvent>>,
    ids: Seq<Seq<char>>,
) -> Seq<FillEvent>
    decreases ids.len(),
{
    if ids.len() == 0 {
        Seq::empty()
    } else {
        fills_of(m, ids.drop_last()) + m[ids.last()]
    }
}

/// All fills, in the order of their order ids and under one id in the order in which they came.
pub open spec fn all_fills(m: Map<Seq<char>, Seq<FillEvent>>) -> Seq<FillEvent> {
    fills_of(m, in_id_order(m.dom()))
}

/// The fills under an id, none if there is no such id.
pub open spec fn fills_under(
    m: Map<Seq<char>, Seq<FillEvent>>,
    id: Seq<char>,
) -> Seq<FillEvent> {
    if m.contains_key(id) {
        m[id]
    } else {
        Seq::empty()
    }
}

/// `kept` is what is left of `m` once all but `n` orders are dropped, those with the smallest
/// ids first.
pub open spec fn keeps_greatest(
    m: Map<Seq<char>, Seq<FillEvent>>,
    kept: Map<Seq<char>, Seq<FillEvent>>,
    n: nat,
) -> bool {
    &&& kept.submap_of(m)
    &&& kept.dom().finite()
    &&& kept.len() == n
    &&& forall|dropped: Seq<char>, id: Seq<char>|
        #![trigger m.contains_key(dropped), kept.contains_key(id)]
        m.contains_key(dropped) && !kept.contains_key(dropped) && kept.contains_key(id) ==> id_lt(
            dropped,
            id,
        )
}

/// `kept` is what is left of `m` once orders are dropped, those with the smallest ids first, until
/// no more than `max` fills are left; nothing is dropped as long as there are no more.
pub open spec fn cut_to(
    m: Map<Seq<char>, Seq<FillEvent>>,
    max: nat,
    kept: Map<Seq<char>, Seq<FillEvent>>,
) -> bool {
    if all_fills(m).len() <= max {
        kept == m
    } else {
        &&& keeps_greatest(m, kept, kept.len())
        &&& all_fills(kept).len() <= max
        &&& forall|more: Map<Seq<char>, Seq<FillEvent>>| #[trigger]
            keeps_greatest(m, more, kept.len() + 1) ==> all_fills(more).len() > max
    }
}

/// Every order has fills, and all of them are its own.
pub open spec fn holds_own_fills(m: Map<Seq<char>, Seq<FillEvent>>) -> bool {
    forall|id: Seq<char>| #[trigger]
        m.contains_key(id) ==> m[id].len() > 0 && forall|i: int|
            0 <= i < m[id].len() ==> (#[trigger] m[id][i]).order_id@ == id
}

/// Of finitely many ids one is the greatest.
proof fn lemma_greatest(dom: Set<Seq<char>>) -> (greatest: Seq<char>)
    requires
        dom.finite(),
        dom.len() > 0,
    ensures
        dom.contains(greatest),
        forall|id: Seq<char>| #[trigger]
            dom.contains(id) && id != greatest ==> id_lt(id, greatest),
    decreases dom.len(),
{
    let some = dom.choose();
    let rest = dom.remove(some);
    if rest.len() == 0 {
        assert forall|id: Seq<char>| #[trigger] dom.contains(id) && id != some implies id_lt(
            id,
            some,
        ) by {
            assert(rest.contains(id));
        }
        some
    } else {
        let other = lemma_greatest(rest);
        lemma_id_lt_total(some, other);
        let greatest = if id_lt(some, other) {
            other
        } else {
            some
        };
        assert forall|id: Seq<char>| #[trigger] dom.contains(id) && id != greatest implies id_lt(
            id,
            greatest,
        ) by {
            if id != some && id != other {
                assert(rest.contains(id));
                if greatest == some {
                    lemma_id_lt_transitive(id, other, some);
                }
            }
        }
        greatest
    }
}

/// Finitely many ids can be put in order.
pub proof fn lemma_id_order_exists(dom: Set<Seq<char>>)
    requires
        dom.finite(),
    ensures
        is_id_order(in_id_order(dom), dom),
    decreases dom.len(),
{
    if dom.len() == 0 {
        let none = Seq::<Seq<char>>::empty();
        assert(none.to_set() =~= dom);
        assert(is_id_order(none, dom));
    } else {
        let greatest = lemma_greatest(dom);
        let rest = dom.remove(greatest);
        lemma_id_order_exists(rest);
        let front = in_id_order(rest);
        let ids = front.push(greatest);
        assert forall|i: int, j: int| 0 <= i < j < ids.len() implies id_lt(
            #[trigger] ids[i],
            #[trigger] ids[j],
        ) by {
            assert(ids[i] == front[i]);
            assert(front.to_set().contains(front[i]));
            if j < front.len() {
                assert(ids[j] == front[j]);
            }
        }
        assert forall|id: Seq<char>| ids.to_set().contains(id) implies dom.contains(id) by {
            let i = choose|i: int| 0 <= i < ids.len() && ids[i] == id;
            if i < front.len() {
                assert(front[i] == id);
                assert(front.to_set().contains(id));
            }
        }
        assert forall|id: Seq<char>| dom.contains(id) implies ids.to_set().contains(id) by {
            if id == greatest {
                assert(ids[front.len() as int] == id);
            } else {
                assert(front.to_set().contains(id));
                let i = choose|i: int| 0 <= i < front.len() && front[i] == id;
                assert(ids[i] == id);
            }
        }
        assert(ids.to_set() =~= dom);
        assert(is_id_order(ids, dom));
    }
}

/// Cutting down twice is cutting down once to the smaller number.
pub proof fn lemma_keeps_greatest_transitive(
    m: Map<Seq<char>, Seq<FillEvent>>,
    a: Map<Seq<char>, Seq<FillEvent>>,
    b: Map<Seq<char>, Seq<FillEvent>>,
    n: nat,
    k: nat,
)
    requires
        keeps_greatest(m, a, n),
        keeps_greatest(a, b, k),
    ensures
        keeps_greatest(m, b, k),
{
    assert forall|id: Seq<char>| #[trigger] b.dom().contains(id) implies m.dom().contains(id)
        && b[id] == m[id] by {
        assert(a.dom().contains(id));
        assert(m.dom().contains(id));
    }
    assert forall|dropped: Seq<char>, id: Seq<char>|
        #![trigger m.contains_key(dropped), b.contains_key(id)]
        m.contains_key(dropped) && !b.contains_key(dropped) && b.contains_key(id) implies id_lt(
        dropped,
        id,
    ) by {
        assert(a.dom().contains(id));
        assert(a.contains_key(id));
        assert(a.contains_key(dropped) ==> id_lt(dropped, id));
    }
}

/// Of two cuts the one to fewer orders is a cut of the other.
pub proof fn lemma_keeps_greatest_nested(
    m: Map<Seq<char>, Seq<FillEvent>>,
    a: Map<Seq<char>, Seq<FillEvent>>,
    b: Map<Seq<char>, Seq<FillEvent>>,
    n: nat,
    k: nat,
)
    requires
        keeps_greatest(m, a, n),
        keeps_greatest(m, b, k),
        k <= n,
    ensures
        keeps_greatest(a, b, k),
{
    assert forall|x: Seq<char>| b.dom().contains(x) implies a.dom().contains(x) by {
        if !a.dom().contains(x) {
            if a.dom().subset_of(b.dom()) {
                vstd::set_lib::lemma_len_subset(a.dom(), b.dom());
                vstd::set_lib::lemma_subset_equality(a.dom(), b.dom());
                assert(false);
            }
            let y = choose|y: Seq<char>| a.dom().contains(y) && !b.dom().contains(y);
            assert(m.dom().contains(x) && m.dom().contains(y));
            assert(m.contains_key(x) && m.contains_key(y));
            assert(a.contains_key(y) && b.contains_key(x));
            assert(id_lt(y, x));
            assert(id_lt(x, y));
            lemma_id_lt_asymmetric(x, y);
        }
    }
    assert forall|x: Seq<char>| b.dom().contains(x) implies a.dom().contains(x) && b[x]
        == a[x] by {
        assert(m.dom().contains(x));
        assert(a.dom().contains(x));
    }
    assert forall|dropped: Seq<char>, id: Seq<char>|
        #![trigger a.contains_key(dropped), b.contains_key(id)]
        a.contains_key(dropped) && !b.contains_key(dropped) && b.contains_key(id) implies id_lt(
        dropped,
        id,
    ) by {
        assert(a.dom().contains(dropped));
        assert(m.dom().contains(dropped));
        assert(m.contains_key(dropped));
    }
}

/// There is only one way to cut down to a number of orders.
pub proof fn lemma_keeps_greatest_unique(
    m: Map<Seq<char>, Seq<FillEvent>>,
    a: Map<Seq<char>, Seq<FillEvent>>,
    b: Map<Seq<char>, Seq<FillEvent>>,
    n: nat,
)
    requires
        keeps_greatest(m, a, n),
        keeps_greatest(m, b, n),
    ensures
        a == b,
{
    if !a.dom().subset_of(b.dom()) {
        let x = choose|x: Seq<char>| a.dom().contains(x) && !b.dom().contains(x);
        if b.dom().subset_of(a.dom()) {
            vstd::set_lib::lemma_subset_equality(b.dom(), a.dom());
            assert(false);
        }
        let y = choose|y: Seq<char>| b.dom().contains(y) && !a.dom().contains(y);
        assert(m.contains_key(x) && m.contains_key(y));
        assert(a.contains_key(x) && b.contains_key(y));
        assert(id_lt(y, x));
        assert(id_lt(x, y));
        lemma_id_lt_asymmetric(x, y);
    } else {
        vstd::set_lib::lemma_subset_equality(a.dom(), b.dom());
    }
    assert forall|k: Seq<char>| a.contains_key(k) implies b.contains_key(k) && a[k] == b[k] by {
        assert(a.dom().contains(k) && b.dom().contains(k));
        assert(m.dom().contains(k));
    }
    assert(a =~= b);
}

/// Keeping as many orders as there are is keeping all of them.
pub proof fn lemma_keeps_all(m: Map<Seq<char>, Seq<FillEvent>>)
    requires
        m.dom().finite(),
    ensures
        keeps_greatest(m, m, m.len()),
{
}

/// Without orders there are no fills.
pub proof fn lemma_no_orders_no_fills()
    ensures
        all_fills(Map::<Seq<char>, Seq<FillEvent>>::empty()).len() == 0,
{
    let none = Map::<Seq<char>, Seq<FillEvent>>::empty();
    lemma_id_order_exists(none.dom());
    let ids = in_id_order(none.dom());
    if ids.len() > 0 {
        assert(ids.to_set().contains(ids[0]));
        assert(none.dom().contains(ids[0]));
    }
}

/// There is only one way to put a set of ids in order.
pub proof fn lemma_id_order_unique(s: Seq<Seq<char>>, t: Seq<Seq<char>>, dom: Set<Seq<char>>)
    requires
        is_id_order(s, dom),
        is_id_order(t, dom),
    ensures
        s == t,
    decreases s.len(),
{
    if s.len() == 0 {
        if t.len() > 0 {
            assert(t.to_set().contains(t[0]));
            assert(s.to_set().contains(t[0]));
        }
        assert(s =~= t);
    } else {
        assert(s.to_set().contains(s.last()));
        assert(t.to_set().contains(s.last()));
        let j = choose|j: int| 0 <= j < t.len() && t[j] == s.last();
        assert(t.to_set().contains(t.last()));
        assert(s.to_set().contains(t.last()));
        let i = choose|i: int| 0 <= i < s.len() && s[i] == t.last();
        assert(s.last() == t.last()) by {
            if j < t.len() - 1 {
                assert(id_lt(t[j], t[t.len() - 1]));
                lemma_id_lt_asymmetric(t[j], t[t.len() - 1]);
                if i < s.len() - 1 {
                    assert(id_lt(s[i], s[s.len() - 1]));
                }
            }
        }
        let rest = dom.remove(s.last());
        lemma_id_order_front(s, dom);
        lemma_id_order_front(t, dom);
        lemma_id_order_unique(s.drop_last(), t.drop_last(), rest);
        assert(s =~= s.drop_last().push(s.last()));
        assert(t =~= t.drop_last().push(t.last()));
    }
}

proof fn lemma_id_order_front(s: Seq<Seq<char>>, dom: Set<Seq<char>>)
    requires
        is_id_order(s, dom),
        s.len() > 0,
    ensures
        is_id_order(s.drop_last(), dom.remove(s.last())),
{
    let front = s.drop_last();
    assert forall|id: Seq<char>| front.to_set().contains(id) implies dom.remove(
        s.last(),
    ).contains(id) by {
        let i = choose|i: int| 0 <= i < front.len() && front[i] == id;
        assert(s[i] == id);
        assert(s.to_set().contains(id));
        assert(id_lt(s[i], s[s.len() - 1]));
        lemma_id_lt_asymmetric(s[i], s[s.len() - 1]);
    }
    assert forall|id: Seq<char>| dom.remove(s.last()).contains(id) implies front.to_set().contains(
        id,
    ) by {
        assert(s.to_set().contains(id));
        let i = choose|i: int| 0 <= i < s.len() && s[i] == id;
        assert(front[i] == id);
    }
    assert(front.to_set() =~= dom.remove(s.last()));
}

proof fn lemma_fills_of_contains(
    m: Map<Seq<char>, Seq<FillEvent>>,
    ids: Seq<Seq<char>>,
    fill: FillEvent,
)
    ensures
        fills_of(m, ids).contains(fill) <==> exists|i: int|
            0 <= i < ids.len() && m[#[trigger] ids[i]].contains(fill),
    decreases ids.len(),
{
    if ids.len() > 0 {
        let front = ids.drop_last();
        lemma_fills_of_contains(m, front, fill);
        let (a, b) = (fills_of(m, front), m[ids.last()]);
        if fills_of(m, ids).contains(fill) {
            let k = choose|k: int| 0 <= k < (a + b).len() && (a + b)[k] == fill;
            if k < a.len() {
                assert(a[k] == fill);
                let i = choose|i: int|
                    0 <= i < front.len() && m[#[trigger] front[i]].contains(fill);
                assert(m[ids[i]].contains(fill));
            } else {
                assert(b[k - a.len()] == fill);
                assert(m[ids[ids.len() - 1]].contains(fill));
            }
        }
        if exists|i: int| 0 <= i < ids.len() && m[#[trigger] ids[i]].contains(fill) {
            let i = choose|i: int| 0 <= i < ids.len() && m[#[trigger] ids[i]].contains(fill);
            if i < front.len() {
                assert(m[front[i]].contains(fill));
                let k = choose|k: int| 0 <= k < a.len() && a[k] == fill;
                assert((a + b)[k] == fill);
            } else {
                let k = choose|k: int| 0 <= k < b.len() && b[k] == fill;
                assert((a + b)[a.len() + k] == fill);
            }
        }
    }
}

/// One order and its fills.
#[derive(Debug)]
struct Entry {
    order_id: String,
    fills: Vec<FillEvent>,
}

type Pair = (Seq<char>, Seq<FillEvent>);

spec fn sorted(p: Seq<Pair>) -> bool {
    forall|i: int, j: int| 0 <= i < j < p.len() ==> id_lt(#[trigger] p[i].0, #[trigger] p[j].0)
}

spec fn holds(p: Seq<Pair>, id: Seq<char>, i: int) -> bool {
    0 <= i < p.len() && p[i].0 == id
}

spec fn to_map(p: Seq<Pair>) -> Map<Seq<char>, Seq<FillEvent>> {
    Map::new(
        |id: Seq<char>| exists|i: int| holds(p, id, i),
        |id: Seq<char>| p[choose|i: int| holds(p, id, i)].1,
    )
}

proof fn lemma_sorted_distinct(p: Seq<Pair>, i: int, j: int)
    requires
        sorted(p),
        0 <= i < p.len(),
        0 <= j < p.len(),
        p[i].0 == p[j].0,
    ensures
        i == j,
{
    lemma_id_lt_irreflexive(p[i].0);
    if i < j {
        assert(id_lt(p[i].0, p[j].0));
    }
    if j < i {
        assert(id_lt(p[j].0, p[i].0));
    }
}

proof fn lemma_to_map(p: Seq<Pair>)
    requires
        sorted(p),
    ensures
        forall|i: int|
            0 <= i < p.len() ==> to_map(p).contains_key(#[trigger] p[i].0) && to_map(p)[p[i].0]
                == p[i].1,
{
    assert forall|i: int| 0 <= i < p.len() implies to_map(p).contains_key(#[trigger] p[i].0)
        && to_map(p)[p[i].0] == p[i].1 by {
        assert(holds(p, p[i].0, i));
        let j = choose|j: int| holds(p, p[i].0, j);
        lemma_sorted_distinct(p, i, j);
    }
}

proof fn lemma_domain(p: Seq<Pair>)
    requires
        sorted(p),
    ensures
        to_map(p).dom().finite(),
        to_map(p).len() == p.len(),
        is_id_order(p.map_values(|e: Pair| e.0), to_map(p).dom()),
{
    let ids = p.map_values(|e: Pair| e.0);
    assert(ids.no_duplicates()) by {
        assert forall|i: int, j: int|
            0 <= i < ids.len() && 0 <= j < ids.len() && i != j implies ids[i] != ids[j] by {
            if ids[i] == ids[j] {
                lemma_sorted_distinct(p, i, j);
            }
        }
    }
    ids.unique_seq_to_set();
    vstd::seq_lib::seq_to_set_is_finite(ids);
    assert(ids.to_set() =~= to_map(p).dom()) by {
        assert forall|id: Seq<char>| ids.to_set().contains(id) implies to_map(p).dom().contains(
            id,
        ) by {
            let i = choose|i: int| 0 <= i < ids.len() && ids[i] == id;
            assert(holds(p, id, i));
        }
        assert forall|id: Seq<char>| to_map(p).dom().contains(id) implies ids.to_set().contains(
            id,
        ) by {
            let i = choose|i: int| holds(p, id, i);
            assert(ids[i] == id);
        }
    }
}

/// An id that stands between two neighbours stands nowhere else.
proof fn lemma_absent(p: Seq<Pair>, id: Seq<char>, at: int)
    requires
        sorted(p),
        0 <= at <= p.len(),
        forall|i: int| 0 <= i < at ==> id_lt(#[trigger] p[i].0, id),
        forall|i: int| at <= i < p.len() ==> id_lt(id, #[trigger] p[i].0),
    ensures
        !to_map(p).contains_key(id),
{
    lemma_id_lt_irreflexive(id);
    if to_map(p).contains_key(id) {
        let i = choose|i: int| holds(p, id, i);
        assert(p[i].0 == id);
    }
}

proof fn lemma_insert(p: Seq<Pair>, at: int, id: Seq<char>, fills: Seq<FillEvent>)
    requires
        sorted(p),
        0 <= at <= p.len(),
        forall|i: int| 0 <= i < at ==> id_lt(#[trigger] p[i].0, id),
        forall|i: int| at <= i < p.len() ==> id_lt(id, #[trigger] p[i].0),
    ensures
        sorted(p.insert(at, (id, fills))),
        to_map(p.insert(at, (id, fills))) == to_map(p).insert(id, fills),
{
    let q = p.insert(at, (id, fills));
    assert forall|i: int, j: int| 0 <= i < j < q.len() implies id_lt(
        #[trigger] q[i].0,
        #[trigger] q[j].0,
    ) by {
        if i != at && j != at {
            let a = if i < at { i } else { i - 1 };
            let b = if j < at { j } else { j - 1 };
            assert(q[i] == p[a] && q[j] == p[b]);
            assert(id_lt(p[a].0, p[b].0));
        } else if i == at {
            assert(q[j] == p[j - 1]);
        } else {
            assert(q[i] == p[i]);
        }
    }
    lemma_to_map(p);
    lemma_to_map(q);
    let m = to_map(p).insert(id, fills);
    assert(q[at] == (id, fills));
    assert forall|k: Seq<char>| to_map(q).contains_key(k) implies m.contains_key(k) && m[k]
        == to_map(q)[k] by {
        let i = choose|i: int| holds(q, k, i);
        assert(q[i].0 == k);
        if i != at {
            let a = if i < at { i } else { i - 1 };
            assert(q[i] == p[a]);
            assert(q[i].0 == p[a].0);
            lemma_id_lt_irreflexive(id);
        }
    }
    assert forall|k: Seq<char>| m.contains_key(k) implies to_map(q).contains_key(k) by {
        if k != id {
            let i = choose|i: int| holds(p, k, i);
            let a = if i < at { i } else { i + 1 };
            assert(q[a] == p[i]);
            assert(holds(q, k, a));
        } else {
            assert(holds(q, k, at));
        }
    }
    assert(to_map(q) =~= m);
}

proof fn lemma_update(p: Seq<Pair>, at: int, fills: Seq<FillEvent>)
    requires
        sorted(p),
        0 <= at < p.len(),
    ensures
        sorted(p.update(at, (p[at].0, fills))),
        to_map(p.update(at, (p[at].0, fills))) == to_map(p).insert(p[at].0, fills),
{
    let q = p.update(at, (p[at].0, fills));
    assert forall|i: int| 0 <= i < q.len() implies #[trigger] q[i].0 == p[i].0 by {}
    assert(sorted(q)) by {
        assert forall|i: int, j: int| 0 <= i < j < q.len() implies id_lt(
            #[trigger] q[i].0,
            #[trigger] q[j].0,
        ) by {
            assert(id_lt(p[i].0, p[j].0));
        }
    }
    lemma_to_map(p);
    lemma_to_map(q);
    let m = to_map(p).insert(p[at].0, fills);
    assert forall|k: Seq<char>| to_map(q).contains_key(k) implies m.contains_key(k) && m[k]
        == to_map(q)[k] by {
        let i = choose|i: int| holds(q, k, i);
        assert(q[i].0 == p[i].0);
        if i != at {
            assert(q[i] == p[i]);
            if p[i].0 == p[at].0 {
                lemma_sorted_distinct(p, i, at);
            }
        }
    }
    assert forall|k: Seq<char>| m.contains_key(k) implies to_map(q).contains_key(k) by {
        if k != p[at].0 {
            let i = choose|i: int| holds(p, k, i);
            assert(holds(q, k, i));
        } else {
            assert(holds(q, k, at));
        }
    }
    assert(to_map(q) =~= m);
}

proof fn lemma_remove(p: Seq<Pair>, at: int)
    requires
        sorted(p),
        0 <= at < p.len(),
    ensures
        sorted(p.remove(at)),
        to_map(p.remove(at)) == to_map(p).remove(p[at].0),
{
    let q = p.remove(at);
    assert forall|i: int, j: int| 0 <= i < j < q.len() implies id_lt(
        #[trigger] q[i].0,
        #[trigger] q[j].0,
    ) by {
        let a = if i < at { i } else { i + 1 };
        let b = if j < at { j } else { j + 1 };
        assert(q[i] == p[a] && q[j] == p[b]);
        assert(id_lt(p[a].0, p[b].0));
    }
    lemma_to_map(p);
    lemma_to_map(q);
    let m = to_map(p).remove(p[at].0);
    assert forall|k: Seq<char>| to_map(q).contains_key(k) implies m.contains_key(k) && m[k]
        == to_map(q)[k] by {
        let i = choose|i: int| holds(q, k, i);
        let a = if i < at { i } else { i + 1 };
        assert(q[i] == p[a]);
        assert(q[i].0 == p[a].0);
        if k == p[at].0 {
            lemma_sorted_distinct(p, a, at);
        }
    }
    assert forall|k: Seq<char>| m.contains_key(k) implies to_map(q).contains_key(k) by {
        let i = choose|i: int| holds(p, k, i);
        let a = if i < at { i } else { i - 1 };
        assert(q[a] == p[i]);
        assert(holds(q, k, a));
    }
    assert(to_map(q) =~= m);
}

proof fn lemma_skip(p: Seq<Pair>, n: int)
    requires
        sorted(p),
        0 <= n <= p.len(),
    ensures
        sorted(p.skip(n)),
        keeps_greatest(to_map(p), to_map(p.skip(n)), (p.len() - n) as nat),
{
    let q = p.skip(n);
    assert forall|i: int, j: int| 0 <= i < j < q.len() implies id_lt(
        #[trigger] q[i].0,
        #[trigger] q[j].0,
    ) by {
        assert(id_lt(p[i + n].0, p[j + n].0));
    }
    lemma_to_map(p);
    lemma_to_map(q);
    lemma_domain(q);
    assert forall|k: Seq<char>| to_map(q).contains_key(k) implies to_map(p).contains_key(k)
        && to_map(p)[k] == to_map(q)[k] by {
        let i = choose|i: int| holds(q, k, i);
        assert(q[i] == p[i + n]);
        assert(q[i].0 == p[i + n].0);
    }
    assert forall|dropped: Seq<char>, id: Seq<char>|
        #![trigger to_map(p).contains_key(dropped), to_map(q).contains_key(id)]
        to_map(p).contains_key(dropped) && !to_map(q).contains_key(dropped)
            && to_map(q).contains_key(id) implies id_lt(dropped, id) by {
        let i = choose|i: int| holds(p, dropped, i);
        let j = choose|j: int| holds(q, id, j);
        if i >= n {
            assert(holds(q, dropped, i - n));
        }
        assert(q[j] == p[j + n]);
        assert(id_lt(p[i].0, p[j + n].0));
    }
}

/// The number of fills in entries.
spec fn count(p: Seq<Pair>) -> nat
    decreases p.len(),
{
    if p.len() == 0 {
        0
    } else {
        count(p.drop_last()) + p.last().1.len()
    }
}

proof fn lemma_count_remove(p: Seq<Pair>, i: int)
    requires
        0 <= i < p.len(),
    ensures
        count(p) == count(p.remove(i)) + p[i].1.len(),
    decreases p.len(),
{
    if i == p.len() - 1 {
        assert(p.remove(i) =~= p.drop_last());
    } else {
        lemma_count_remove(p.drop_last(), i);
        assert(p.remove(i).drop_last() =~= p.drop_last().remove(i));
    }
}

proof fn lemma_count_skip(p: Seq<Pair>, n: int)
    requires
        0 <= n <= p.len(),
    ensures
        count(p.skip(n)) <= count(p),
        n > 0 ==> count(p.skip(n - 1)) == count(p.skip(n)) + p[n - 1].1.len(),
    decreases n,
{
    if n == 0 {
        assert(p.skip(0) =~= p);
    } else {
        lemma_count_skip(p, n - 1);
        lemma_count_remove(p.skip(n - 1), 0);
        assert(p.skip(n - 1).remove(0) =~= p.skip(n));
    }
}

proof fn lemma_count_of(p: Seq<Pair>, m: Map<Seq<char>, Seq<FillEvent>>)
    requires
        forall|i: int| 0 <= i < p.len() ==> m[#[trigger] p[i].0] == p[i].1,
    ensures
        fills_of(m, p.map_values(|e: Pair| e.0)).len() == count(p),
    decreases p.len(),
{
    if p.len() > 0 {
        let front = p.drop_last();
        assert forall|i: int| 0 <= i < front.len() implies m[#[trigger] front[i].0]
            == front[i].1 by {
            assert(front[i].0 == p[i].0);
        }
        lemma_count_of(front, m);
        assert(p.map_values(|e: Pair| e.0).drop_last() =~= front.map_values(|e: Pair| e.0));
        assert(m[p[p.len() - 1].0] == p[p.len() - 1].1);
    }
}

/// The fills in entries, each as often as it stands there.
spec fn bag(p: Seq<Pair>) -> Multiset<FillEvent>
    decreases p.len(),
{
    if p.len() == 0 {
        Multiset::empty()
    } else {
        bag(p.drop_last()).add(p.last().1.to_multiset())
    }
}

proof fn lemma_bag_remove(p: Seq<Pair>, i: int)
    requires
        0 <= i < p.len(),
    ensures
        bag(p) == bag(p.remove(i)).add(p[i].1.to_multiset()),
    decreases p.len(),
{
    if i == p.len() - 1 {
        assert(p.remove(i) =~= p.drop_last());
    } else {
        lemma_bag_remove(p.drop_last(), i);
        assert(p.remove(i).drop_last() =~= p.drop_last().remove(i));
        assert(bag(p) =~= bag(p.remove(i)).add(p[i].1.to_multiset()));
    }
}

proof fn lemma_bag_of(p: Seq<Pair>, m: Map<Seq<char>, Seq<FillEvent>>)
    requires
        forall|i: int| 0 <= i < p.len() ==> m[#[trigger] p[i].0] == p[i].1,
    ensures
        fills_of(m, p.map_values(|e: Pair| e.0)).to_multiset() == bag(p),
    decreases p.len(),
{
    if p.len() > 0 {
        let front = p.drop_last();
        assert forall|i: int| 0 <= i < front.len() implies m[#[trigger] front[i].0]
            == front[i].1 by {
            assert(front[i].0 == p[i].0);
        }
        lemma_bag_of(front, m);
        let ids = p.map_values(|e: Pair| e.0);
        assert(ids.drop_last() =~= front.map_values(|e: Pair| e.0));
        assert(m[p[p.len() - 1].0] == p[p.len() - 1].1);
        vstd::seq_lib::lemma_multiset_commutative(fills_of(m, ids.drop_last()), m[ids.last()]);
    } else {
        let none = fills_of(m, p.map_values(|e: Pair| e.0));
        none.to_multiset_ensures();
        assert(none.to_multiset() =~= Multiset::empty());
    }
}

/// Entries in order hold the fills that are listed of their map.
proof fn lemma_bag(p: Seq<Pair>)
    requires
        sorted(p),
    ensures
        all_fills(to_map(p)).to_multiset() == bag(p),
{
    let ids = p.map_values(|e: Pair| e.0);
    let dom = to_map(p).dom();
    lemma_to_map(p);
    lemma_domain(p);
    lemma_id_order_unique(ids, in_id_order(dom), dom);
    lemma_bag_of(p, to_map(p));
}

proof fn lemma_bag_without(
    p: Seq<Pair>,
    q: Seq<Pair>,
    m: Map<Seq<char>, Seq<FillEvent>>,
    id: Seq<char>,
)
    requires
        sorted(p),
        sorted(q),
        m == to_map(p),
        to_map(q) =~= m.remove(id),
    ensures
        m.contains_key(id) ==> bag(p) == bag(q).add(m[id].to_multiset()),
        !m.contains_key(id) ==> bag(p) == bag(q),
{
    lemma_bag(p);
    lemma_bag(q);
    lemma_to_map(p);
    if m.contains_key(id) {
        let at = choose|i: int| holds(p, id, i);
        assert(to_map(p)[p[at].0] == p[at].1);
        lemma_remove(p, at);
        lemma_bag(p.remove(at));
        lemma_bag_remove(p, at);
    } else {
        assert(m.remove(id) =~= m);
    }
}

/// All fills are listed, each once for each time it stands under an order: the list of a map with
/// one order more holds the fills of that order in addition, and nothing is listed without orders.
pub proof fn lemma_all_fills_are_listed(
    m: Map<Seq<char>, Seq<FillEvent>>,
    id: Seq<char>,
    fills: Seq<FillEvent>,
)
    requires
        m.dom().finite(),
        !m.contains_key(id),
    ensures
        all_fills(m.insert(id, fills)).to_multiset() == all_fills(m).to_multiset().add(
            fills.to_multiset(),
        ),
        all_fills(m.insert(id, fills)).len() == all_fills(m).len() + fills.len(),
        all_fills(Map::empty()).len() == 0,
{
    let p = lemma_entries_of(m);
    let r = lemma_entries_of(m.insert(id, fills));
    lemma_bag(p);
    lemma_bag(r);
    assert(m.insert(id, fills).remove(id) =~= m);
    lemma_bag_without(r, p, m.insert(id, fills), id);
    lemma_count_insert(m, id, fills);
    lemma_no_orders_no_fills();
}

/// Entries in order hold as many fills as are listed of their map.
proof fn lemma_count(p: Seq<Pair>)
    requires
        sorted(p),
    ensures
        all_fills(to_map(p)).len() == count(p),
{
    let ids = p.map_values(|e: Pair| e.0);
    let dom = to_map(p).dom();
    lemma_to_map(p);
    lemma_domain(p);
    lemma_id_order_unique(ids, in_id_order(dom), dom);
    lemma_count_of(p, to_map(p));
}

/// Every finite map is that of entries in order.
proof fn lemma_entries_of(m: Map<Seq<char>, Seq<FillEvent>>) -> (p: Seq<Pair>)
    requires
        m.dom().finite(),
    ensures
        sorted(p),
        to_map(p) == m,
        p.len() == m.len(),
{
    lemma_id_order_exists(m.dom());
    let ids = in_id_order(m.dom());
    let p = Seq::new(ids.len(), |i: int| (ids[i], m[ids[i]]));
    assert forall|i: int, j: int| 0 <= i < j < p.len() implies id_lt(
        #[trigger] p[i].0,
        #[trigger] p[j].0,
    ) by {
        assert(id_lt(ids[i], ids[j]));
    }
    lemma_to_map(p);
    lemma_domain(p);
    assert(p.map_values(|e: Pair| e.0) =~= ids);
    assert forall|id: Seq<char>| to_map(p).contains_key(id) implies to_map(p)[id] == m[id] by {
        let i = choose|i: int| holds(p, id, i);
        assert(to_map(p)[p[i].0] == p[i].1);
    }
    assert(to_map(p) =~= m);
    p
}

/// Where every order has fills, there are no more orders than fills.
pub proof fn lemma_orders_at_most_fills(m: Map<Seq<char>, Seq<FillEvent>>)
    requires
        m.dom().finite(),
        forall|id: Seq<char>| #[trigger] m.contains_key(id) ==> m[id].len() > 0,
    ensures
        m.len() <= all_fills(m).len(),
{
    let p = lemma_entries_of(m);
    lemma_to_map(p);
    lemma_count(p);
    assert forall|i: int| 0 <= i < p.len() implies (#[trigger] p[i]).1.len() > 0 by {
        assert(m.contains_key(p[i].0));
    }
    lemma_count_at_least(p);
}

proof fn lemma_count_at_least(p: Seq<Pair>)
    requires
        forall|i: int| 0 <= i < p.len() ==> (#[trigger] p[i]).1.len() > 0,
    ensures
        p.len() <= count(p),
    decreases p.len(),
{
    if p.len() > 0 {
        let front = p.drop_last();
        assert forall|i: int| 0 <= i < front.len() implies (#[trigger] front[i]).1.len() > 0 by {
            assert(front[i] == p[i]);
        }
        lemma_count_at_least(front);
        assert(p[p.len() - 1].1.len() > 0);
    }
}

/// Putting fills under an order adds them to those listed, less those that it had.
pub proof fn lemma_count_insert(
    m: Map<Seq<char>, Seq<FillEvent>>,
    id: Seq<char>,
    fills: Seq<FillEvent>,
)
    requires
        m.dom().finite(),
    ensures
        all_fills(m.insert(id, fills)).len() + fills_under(m, id).len() == all_fills(m).len()
            + fills.len(),
{
    let p = lemma_entries_of(m);
    let q = lemma_entries_of(m.remove(id));
    let r = lemma_entries_of(m.insert(id, fills));
    lemma_count(p);
    lemma_count(q);
    lemma_count(r);
    lemma_count_without(p, q, m, id);
    lemma_count_without(r, q, m.insert(id, fills), id);
    assert(m.insert(id, fills).remove(id) =~= m.remove(id));
}

proof fn lemma_count_without(
    p: Seq<Pair>,
    q: Seq<Pair>,
    m: Map<Seq<char>, Seq<FillEvent>>,
    id: Seq<char>,
)
    requires
        sorted(p),
        sorted(q),
        m == to_map(p),
        to_map(q) =~= m.remove(id),
    ensures
        count(p) == count(q) + fills_under(m, id).len(),
{
    lemma_count(p);
    lemma_count(q);
    lemma_to_map(p);
    if m.contains_key(id) {
        let at = choose|i: int| holds(p, id, i);
        assert(to_map(p)[p[at].0] == p[at].1);
        lemma_remove(p, at);
        lemma_count(p.remove(at));
        lemma_count_remove(p, at);
    } else {
        assert(m.remove(id) =~= m);
    }
}

/// There are cuts to every number of orders, and none has more fills than there are.
proof fn lemma_cut_exists(m: Map<Seq<char>, Seq<FillEvent>>, n: nat) -> (kept: Map<
    Seq<char>,
    Seq<FillEvent>,
>)
    requires
        m.dom().finite(),
        n <= m.len(),
    ensures
        keeps_greatest(m, kept, n),
        all_fills(kept).len() <= all_fills(m).len(),
{
    let p = lemma_entries_of(m);
    let k = p.len() - n;
    lemma_skip(p, k);
    lemma_count(p);
    lemma_count(p.skip(k));
    lemma_count_skip(p, k);
    to_map(p.skip(k))
}

/// There is only one way to cut down to a number of fills.
pub proof fn lemma_cut_is_unique(
    m: Map<Seq<char>, Seq<FillEvent>>,
    max: nat,
    a: Map<Seq<char>, Seq<FillEvent>>,
    b: Map<Seq<char>, Seq<FillEvent>>,
)
    requires
        cut_to(m, max, a),
        cut_to(m, max, b),
    ensures
        a == b,
{
    if all_fills(m).len() > max {
        if a.len() == b.len() {
            lemma_keeps_greatest_unique(m, a, b, a.len());
        } else if a.len() < b.len() {
            let more = lemma_cut_exists(b, a.len() + 1);
            lemma_keeps_greatest_transitive(m, b, more, b.len(), a.len() + 1);
        } else {
            let more = lemma_cut_exists(a, b.len() + 1);
            lemma_keeps_greatest_transitive(m, a, more, a.len(), b.len() + 1);
        }
    }
}

/// Where every order has fills, dropping first the orders beyond a number and then those beyond as
/// many fills is cutting down to that many fills.
pub proof fn lemma_cut_in_two_steps(
    m: Map<Seq<char>, Seq<FillEvent>>,
    first: Map<Seq<char>, Seq<FillEvent>>,
    kept: Map<Seq<char>, Seq<FillEvent>>,
    max: nat,
)
    requires
        m.dom().finite(),
        forall|id: Seq<char>| #[trigger] m.contains_key(id) ==> m[id].len() > 0,
        m.len() > max,
        keeps_greatest(m, first, max),
        cut_to(first, max, kept),
    ensures
        cut_to(m, max, kept),
{
    lemma_orders_at_most_fills(m);
    if all_fills(first).len() > max {
        lemma_keeps_greatest_transitive(m, first, kept, max, kept.len());
    }
    assert forall|more: Map<Seq<char>, Seq<FillEvent>>| #[trigger]
        keeps_greatest(m, more, kept.len() + 1) implies all_fills(more).len() > max by {
        if kept.len() + 1 <= max {
            lemma_keeps_greatest_nested(m, first, more, max, kept.len() + 1);
            if all_fills(first).len() <= max {
                assert(kept.len() == max);
            }
        } else {
            assert forall|id: Seq<char>| #[trigger] more.contains_key(id) implies more[id].len()
                > 0 by {
                assert(more.dom().contains(id) && m.dom().contains(id));
                assert(m.contains_key(id));
            }
            lemma_orders_at_most_fills(more);
        }
    }
}

/// The fills of each order.
#[derive(Debug)]
pub struct FillLedger {
    entries: Vec<Entry>,
}

impl View for FillLedger {
    type V = Map<Seq<char>, Seq<FillEvent>>;

    closed spec fn view(&self) -> Map<Seq<char>, Seq<FillEvent>> {
        to_map(self.pairs())
    }
}

impl FillLedger {
    closed spec fn pairs(&self) -> Seq<Pair> {
        self.entries@.map_values(|e: Entry| (e.order_id@, e.fills@))
    }

    /// The orders stand in the order of their ids, none twice.
    pub closed spec fn wf(&self) -> bool {
        sorted(self.pairs())
    }

    /// A ledger has finitely many orders.
    pub proof fn lemma_finite(&self)
        requires
            self.wf(),
        ensures
            self@.dom().finite(),
    {
        lemma_domain(self.pairs());
    }

    /// A fill is listed exactly if it stands under some order.
    pub proof fn lemma_listed(&self, fill: FillEvent)
        requires
            self.wf(),
        ensures
            all_fills(self@).contains(fill) <==> exists|id: Seq<char>| #[trigger]
                self@.contains_key(id) && self@[id].contains(fill),
    {
        let p = self.pairs();
        lemma_domain(p);
        let ids = in_id_order(self@.dom());
        assert(is_id_order(p.map_values(|e: Pair| e.0), self@.dom()));
        lemma_fills_of_contains(self@, ids, fill);
        if all_fills(self@).contains(fill) {
            let i = choose|i: int|
                0 <= i < ids.len() && self@[#[trigger] ids[i]].contains(fill);
            assert(ids.to_set().contains(ids[i]));
            assert(self@.contains_key(ids[i]));
        }
        if exists|id: Seq<char>| #[trigger]
            self@.contains_key(id) && self@[id].contains(fill) {
            let id = choose|id: Seq<char>| #[trigger]
                self@.contains_key(id) && self@[id].contains(fill);
            assert(ids.to_set().contains(id));
            let i = choose|i: int| 0 <= i < ids.len() && ids[i] == id;
            assert(self@[ids[i]].contains(fill));
        }
    }

    /// A ledger without orders.
    pub fn new() -> (r: FillLedger)
        ensures
            r.wf(),
            r@ == Map::<Seq<char>, Seq<FillEvent>>::empty(),
    {
        let r = FillLedger { entries: Vec::new() };
        assert(r@ =~= Map::<Seq<char>, Seq<FillEvent>>::empty());
        r
    }

    /// The position of an order, or where it would stand, and whether it is there.
    fn position(&self, order_id: &str) -> (r: (usize, bool))
        requires
            self.wf(),
        ensures
            r.0 <= self.entries@.len(),
            r.1 == self@.contains_key(order_id@),
            r.1 ==> r.0 < self.entries@.len() && self.pairs()[r.0 as int].0 == order_id@
                && self.pairs()[r.0 as int].1 == self@[order_id@],
            !r.1 ==> forall|i: int| 0 <= i < r.0 ==> id_lt(#[trigger] self.pairs()[i].0, order_id@),
            !r.1 ==> forall|i: int|
                r.0 <= i < self.pairs().len() ==> id_lt(order_id@, #[trigger] self.pairs()[i].0),
    {
        let mut lo: usize = 0;
        let mut hi: usize = self.entries.len();
        let ghost p = self.pairs();
        proof {
            lemma_to_map(p);
        }
        while lo < hi
            invariant
                p == self.pairs(),
                sorted(p),
                0 <= lo <= hi <= p.len(),
                p.len() == self.entries@.len(),
                forall|i: int|
                    0 <= i < p.len() ==> to_map(p).contains_key(#[trigger] p[i].0)
                        && to_map(p)[p[i].0] == p[i].1,
                forall|i: int| 0 <= i < lo ==> id_lt(#[trigger] p[i].0, order_id@),
                forall|i: int| hi <= i < p.len() ==> id_lt(order_id@, #[trigger] p[i].0),
            decreases hi - lo,
        {
            let mid: usize = lo + (hi - lo) / 2;
            let order = order_ids(order_id, self.entries[mid].order_id.as_str());
            assert(p[mid as int].0 == self.entries@[mid as int].order_id@);
            match order {
                IdOrder::Same => {
                    return (mid, true);
                },
                IdOrder::Before => {
                    proof {
                        assert forall|i: int| mid <= i < p.len() implies id_lt(
                            order_id@,
                            #[trigger] p[i].0,
                        ) by {
                            if mid < i {
                                assert(id_lt(p[mid as int].0, p[i].0));
                                lemma_id_lt_transitive(order_id@, p[mid as int].0, p[i].0);
                            }
                        }
                    }
                    hi = mid;
                },
                IdOrder::After => {
                    proof {
                        assert forall|i: int| 0 <= i <= mid implies id_lt(
                            #[trigger] p[i].0,
                            order_id@,
                        ) by {
                            if i < mid {
                                assert(id_lt(p[i].0, p[mid as int].0));
                                lemma_id_lt_transitive(p[i].0, p[mid as int].0, order_id@);
                            }
                        }
                    }
                    lo = mid + 1;
                },
            }
        }
        proof {
            lemma_absent(p, order_id@, lo as int);
        }
        (lo, false)
    }

    /// The number of orders.
    pub fn len(&self) -> (r: usize)
        requires
            self.wf(),
        ensures
            self@.dom().finite(),
            r == self@.len(),
    {
        proof {
            lemma_domain(self.pairs());
        }
        self.entries.len()
    }

    /// The fills of an order.
    pub fn get(&self, order_id: &str) -> (r: Option<&[FillEvent]>)
        requires
            self.wf(),
        ensures
            r is Some <==> self@.contains_key(order_id@),
            r matches Some(fills) ==> fills@ == self@[order_id@],
    {
        let (at, found) = self.position(order_id);
        if found {
            Some(self.entries[at].fills.as_slice())
        } else {
            None
        }
    }

    /// Puts these fills under an order, in place of those it had.
    pub fn insert(&mut self, order_id: String, fills: Vec<FillEvent>)
        requires
            old(self).wf(),
        ensures
            final(self).wf(),
            final(self)@ == old(self)@.insert(order_id@, fills@),
    {
        let (at, found) = self.position(order_id.as_str());
        let ghost p = self.pairs();
        if found {
            let ghost id = order_id@;
            let ghost view = fills@;
            self.entries.set(at, Entry { order_id, fills });
            proof {
                lemma_update(p, at as int, view);
                assert(self.pairs() =~= p.update(at as int, (id, view)));
            }
        } else {
            let ghost id = order_id@;
            let ghost view = fills@;
            self.entries.insert(at, Entry { order_id, fills });
            proof {
                lemma_insert(p, at as int, id, view);
                assert(self.pairs() =~= p.insert(at as int, (id, view)));
            }
        }
    }

    /// Adds a fill behind those that an order has.
    pub fn append(&mut self, order_id: String, fill: FillEvent)
        requires
            old(self).wf(),
        ensures
            final(self).wf(),
            final(self)@ == old(self)@.insert(
                order_id@,
                fills_under(old(self)@, order_id@).push(fill),
            ),
    {
        let (at, found) = self.position(order_id.as_str());
        let ghost p = self.pairs();
        if found {
            self.entries[at].fills.push(fill);
            proof {
                let view = fills_under(old(self)@, order_id@).push(fill);
                lemma_update(p, at as int, view);
                assert(self.pairs() =~= p.update(at as int, (order_id@, view)));
            }
        } else {
            let mut fills: Vec<FillEvent> = Vec::new();
            fills.push(fill);
            let ghost id = order_id@;
            let ghost view = fills@;
            assert(view =~= Seq::<FillEvent>::empty().push(fill));
            self.entries.insert(at, Entry { order_id, fills });
            proof {
                lemma_insert(p, at as int, id, view);
                assert(self.pairs() =~= p.insert(at as int, (id, view)));
            }
        }
    }

    /// Takes an order out, and its fills with it.
    pub fn remove(&mut self, order_id: &str) -> (r: Option<Vec<FillEvent>>)
        requires
            old(self).wf(),
        ensures
            final(self).wf(),
            final(self)@ == old(self)@.remove(order_id@),
            r is Some <==> old(self)@.contains_key(order_id@),
            r matches Some(fills) ==> fills@ == old(self)@[order_id@],
    {
        let (at, found) = self.position(order_id);
        let ghost p = self.pairs();
        if found {
            let entry = self.entries.remove(at);
            proof {
                lemma_remove(p, at as int);
                assert(self.pairs() =~= p.remove(at as int));
            }
            Some(entry.fills)
        } else {
            assert(self@ =~= old(self)@.remove(order_id@));
            None
        }
    }

    /// Drops the orders with the smallest ids.
    pub fn drop_smallest(&mut self, count: usize)
        requires
            old(self).wf(),
            count <= old(self)@.len(),
        ensures
            final(self).wf(),
            keeps_greatest(old(self)@, final(self)@, (old(self)@.len() - count) as nat),
    {
        let ghost p = self.pairs();
        proof {
            lemma_domain(p);
            lemma_skip(p, count as int);
        }
        let rest = self.entries.split_off(count);
        self.entries = rest;
        assert(self.pairs() =~= p.skip(count as int));
    }

    /// Drops the orders with the smallest ids until no more than `max` fills are left.
    pub fn keep_within(&mut self, max: usize)
        requires
            old(self).wf(),
        ensures
            final(self).wf(),
            cut_to(old(self)@, max as nat, final(self)@),
    {
        let ghost p = self.pairs();
        let mut from: usize = self.entries.len();
        let mut total: usize = 0;
        proof {
            assert(p.skip(from as int) =~= Seq::<Pair>::empty());
        }
        while from > 0 && self.entries[from - 1].fills.len() <= max - total
            invariant
                p == self.pairs(),
                p.len() == self.entries@.len(),
                0 <= from <= p.len(),
                total == count(p.skip(from as int)),
                total <= max,
            decreases from,
        {
            proof {
                lemma_count_skip(p, from as int);
                assert(p[from - 1].1 == self.entries@[from - 1].fills@);
            }
            total = total + self.entries[from - 1].fills.len();
            from = from - 1;
        }
        let ghost n = (p.len() - from) as nat;
        proof {
            lemma_count(p);
            lemma_skip(p, from as int);
            lemma_count(p.skip(from as int));
            if from == 0 {
                assert(p.skip(0) =~= p);
            } else {
                assert(p[from - 1].1 == self.entries@[from - 1].fills@);
                lemma_count_skip(p, from as int);
                lemma_count_skip(p, from - 1);
                lemma_skip(p, from - 1);
                lemma_count(p.skip(from - 1));
                assert forall|more: Map<Seq<char>, Seq<FillEvent>>| #[trigger]
                    keeps_greatest(to_map(p), more, n + 1) implies all_fills(more).len() > max by {
                    lemma_keeps_greatest_unique(
                        to_map(p),
                        more,
                        to_map(p.skip(from - 1)),
                        n + 1,
                    );
                }
            }
        }
        let rest = self.entries.split_off(from);
        self.entries = rest;
        assert(self.pairs() =~= p.skip(from as int));
    }

    /// All fills, in the order of their order ids.
    pub fn all(&self) -> (r: Vec<&FillEvent>)
        requires
            self.wf(),
        ensures
            targets(r@) == all_fills(self@),
    {
        let ghost p = self.pairs();
        let ghost ids = p.map_values(|e: Pair| e.0);
        proof {
            lemma_to_map(p);
            lemma_domain(p);
            lemma_id_order_unique(ids, in_id_order(self@.dom()), self@.dom());
        }
        let mut r: Vec<&FillEvent> = Vec::new();
        let mut i: usize = 0;
        while i < self.entries.len()
            invariant
                p == self.pairs(),
                p.len() == self.entries@.len(),
                ids == p.map_values(|e: Pair| e.0),
                forall|i: int|
                    0 <= i < p.len() ==> to_map(p).contains_key(#[trigger] p[i].0)
                        && to_map(p)[p[i].0] == p[i].1,
                0 <= i <= p.len(),
                targets(r@) =~= fills_of(self@, ids.take(i as int)),
            decreases p.len() - i,
        {
            let ghost done = fills_of(self@, ids.take(i as int));
            let ghost next = p[i as int].1;
            let mut j: usize = 0;
            while j < self.entries[i].fills.len()
                invariant
                    p == self.pairs(),
                    p.len() == self.entries@.len(),
                    0 <= i < p.len(),
                    next == p[i as int].1,
                    next == self.entries@[i as int].fills@,
                    0 <= j <= next.len(),
                    targets(r@) =~= done + next.take(j as int),
                decreases next.len() - j,
            {
                let ghost before = targets(r@);
                r.push(&self.entries[i].fills[j]);
                proof {
                    assert(targets(r@) =~= before.push(next[j as int]));
                    assert(next.take(j + 1) =~= next.take(j as int).push(next[j as int]));
                }
                j += 1;
            }
            proof {
                assert(next.take(j as int) =~= next);
                assert(ids.take(i + 1).drop_last() =~= ids.take(i as int));
                assert(ids.take(i + 1).last() == p[i as int].0);
            }
            i += 1;
        }
        assert(ids.take(i as int) =~= ids);
        r
    }
}

} // verus!
