//! The order of order ids: code point by code point, as `String` orders its values.
use vstd::prelude::*;

verus! {

/// `a` and `b` agree before position `k`, where `a` ends or has the smaller character.
pub open spec fn smaller_at(a: Seq<char>, b: Seq<char>, k: int) -> bool {
    &&& 0 <= k < b.len()
    &&& k <= a.len()
    &&& forall|j: int| 0 <= j < k ==> a[j] == b[j]
    &&& k < a.len() ==> a[k] < b[k]
}

/// `a` comes before `b`.
pub open spec fn id_lt(a: Seq<char>, b: Seq<char>) -> bool {
    exists|k: int| smaller_at(a, b, k)
}

/// No id comes before itself.
pub proof fn lemma_id_lt_irreflexive(a: Seq<char>)
    ensures
        !id_lt(a, a),
{
}

/// An id that comes before another does not come after it.
pub proof fn lemma_id_lt_asymmetric(a: Seq<char>, b: Seq<char>)
    requires
        id_lt(a, b),
    ensures
        !id_lt(b, a),
        a != b,
{
    lemma_id_lt_irreflexive(a);
    if id_lt(b, a) {
        lemma_id_lt_transitive(a, b, a);
    }
}

/// The order of ids is transitive.
pub proof fn lemma_id_lt_transitive(a: Seq<char>, b: Seq<char>, c: Seq<char>)
    requires
        id_lt(a, b),
        id_lt(b, c),
    ensures
        id_lt(a, c),
{
    let k = choose|k: int| smaller_at(a, b, k);
    let l = choose|l: int| smaller_at(b, c, l);
    if k <= l {
        assert(smaller_at(a, c, k));
    } else {
        assert(smaller_at(a, c, l));
    }
}

/// Of two ids one comes before the other, unless they are the same.
pub proof fn lemma_id_lt_total(a: Seq<char>, b: Seq<char>)
    ensures
        a == b || id_lt(a, b) || id_lt(b, a),
    decreases a.len(),
{
    if a.len() == 0 {
        if b.len() > 0 {
            assert(smaller_at(a, b, 0));
        } else {
            assert(a =~= b);
        }
    } else if b.len() == 0 {
        assert(smaller_at(b, a, 0));
    } else {
        let (x, y) = (a.drop_last(), b);
        lemma_id_lt_total(x, y);
        let n = x.len() as int;
        if x == y {
            assert(smaller_at(b, a, n));
        } else if id_lt(x, y) {
            let k = choose|k: int| smaller_at(x, y, k);
            if k < n {
                assert(smaller_at(a, b, k));
            } else if a[n] < b[n] {
                assert(smaller_at(a, b, n));
            } else if b[n] < a[n] {
                assert(smaller_at(b, a, n));
            } else if b.len() > a.len() {
                assert(smaller_at(a, b, n + 1));
            } else {
                assert(a =~= b);
            }
        } else {
            let k = choose|k: int| smaller_at(y, x, k);
            assert(smaller_at(b, a, k));
        }
    }
}

/// The first character in which two ids differ decides which comes before the other, the rest
/// does not matter; and an id comes before every longer one that starts with it.
pub proof fn lemma_first_difference_decides(a: Seq<char>, b: Seq<char>, k: int)
    requires
        0 <= k < b.len(),
        k <= a.len(),
        forall|j: int| 0 <= j < k ==> a[j] == b[j],
    ensures
        k < a.len() && a[k] < b[k] ==> id_lt(a, b) && !id_lt(b, a),
        k < a.len() && b[k] < a[k] ==> id_lt(b, a) && !id_lt(a, b),
        k == a.len() ==> id_lt(a, b) && !id_lt(b, a),
{
    if k == a.len() || a[k] < b[k] {
        assert(smaller_at(a, b, k));
        lemma_id_lt_asymmetric(a, b);
    } else if b[k] < a[k] {
        assert(smaller_at(b, a, k));
        lemma_id_lt_asymmetric(b, a);
    }
}

/// How an id stands to another.
#[derive(Clone, Copy, Debug, PartialEq, Eq, Structural)]
pub enum IdOrder {
    Before,
    Same,
    After,
}

/// How `a` stands to `b`.
pub fn order_ids(a: &str, b: &str) -> (r: IdOrder)
    ensures
        r is Before <==> id_lt(a@, b@),
        r is Same <==> a@ == b@,
        r is After <==> id_lt(b@, a@),
{
    broadcast use vstd::string::group_string_axioms;

    let mut x = a.chars();
    let mut y = b.chars();
    let ghost mut k: int = 0;
    proof {
        assert(a@.skip(0) =~= a@);
        assert(b@.skip(0) =~= b@);
    }
    loop
        invariant
            0 <= k <= a@.len(),
            k <= b@.len(),
            vstd::std_specs::iter::IteratorSpec::remaining(&x) == a@.skip(k),
            vstd::std_specs::iter::IteratorSpec::remaining(&y) == b@.skip(k),
            forall|j: int| 0 <= j < k ==> a@[j] == b@[j],
        decreases a@.len() - k,
    {
        let c = x.next();
        let d = y.next();
        match (c, d) {
            (None, None) => {
                assert(a@ =~= b@);
                proof {
                    lemma_id_lt_irreflexive(a@);
                }
                return IdOrder::Same;
            },
            (None, Some(_)) => {
                assert(smaller_at(a@, b@, k));
                proof {
                    lemma_id_lt_asymmetric(a@, b@);
                }
                return IdOrder::Before;
            },
            (Some(_), None) => {
                assert(smaller_at(b@, a@, k));
                proof {
                    lemma_id_lt_asymmetric(b@, a@);
                }
                return IdOrder::After;
            },
            (Some(c), Some(d)) => {
                if c < d {
                    assert(smaller_at(a@, b@, k));
                    proof {
                        lemma_id_lt_asymmetric(a@, b@);
                    }
                    return IdOrder::Before;
                }
                if d < c {
                    assert(smaller_at(b@, a@, k));
                    proof {
                        lemma_id_lt_asymmetric(b@, a@);
                    }
                    return IdOrder::After;
                }
                proof {
                    assert(a@.skip(k).drop_first() =~= a@.skip(k + 1));
                    assert(b@.skip(k).drop_first() =~= b@.skip(k + 1));
                    k = k + 1;
                }
            },
        }
    }
}

} // verus!
