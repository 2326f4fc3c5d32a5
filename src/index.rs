use vstd::prelude::*;

verus! {

/// Number of ids a page holds when the caller gives no limit.
pub const DEFAULT_PAGE_LIMIT: u32 = 10;

/// Largest page size; larger requested limits are clamped to it.
pub const MAX_PAGE_LIMIT: u32 = 30;

/// Every element is strictly smaller than the ones after it.
pub open spec fn strictly_sorted(s: Seq<u32>) -> bool {
    forall|i: int, j: int| 0 <= i < j < s.len() ==> s[i] < s[j]
}

/// Whether `x` lies after the cursor of a page request.
pub open spec fn is_after(start_after: Option<u32>, x: u32) -> bool {
    match start_after {
        Some(s) => s < x,
        None => true,
    }
}

/// At most `n` leading elements of `s`.
pub open spec fn capped(s: Seq<u32>, n: nat) -> Seq<u32> {
    if s.len() <= n {
        s
    } else {
        s.take(n as int)
    }
}

/// The page of `s` that holds the elements after `start_after`, at most `n` of them.
pub open spec fn page(s: Seq<u32>, start_after: Option<u32>, n: nat) -> Seq<u32> {
    capped(s.filter(|x: u32| is_after(start_after, x)), n)
}

/// The page size that a request for `limit` gets.
pub open spec fn effective_limit(limit: Option<u32>) -> nat {
    match limit {
        Some(l) => if l <= MAX_PAGE_LIMIT { l as nat } else { MAX_PAGE_LIMIT as nat },
        None => DEFAULT_PAGE_LIMIT as nat,
    }
}

/// The strictly increasing enumeration of a finite set of ids.
pub open spec fn sorted_of(s: Set<u32>) -> Seq<u32> {
    choose|q: Seq<u32>| strictly_sorted(q) && q.to_set() == s
}

proof fn lemma_sorted_drop_first(a: Seq<u32>)
    requires
        strictly_sorted(a),
        a.len() > 0,
    ensures
        a.drop_first().to_set() == a.to_set().remove(a[0]),
{
    assert forall|x: u32| a.drop_first().contains(x) <==> (a.contains(x) && x != a[0]) by {
        if a.contains(x) && x != a[0] {
            let i = choose|i: int| 0 <= i < a.len() && a[i] == x;
            assert(i > 0);
            assert(a.drop_first()[i - 1] == x);
        }
        if a.drop_first().contains(x) {
            let i = choose|i: int| 0 <= i < a.len() - 1 && a.drop_first()[i] == x;
            assert(a[i + 1] == x);
        }
    }
    assert(a.drop_first().to_set() =~= a.to_set().remove(a[0]));
}

/// Two strictly increasing sequences with the same elements are equal.
pub proof fn lemma_sorted_unique(a: Seq<u32>, b: Seq<u32>)
    requires
        strictly_sorted(a),
        strictly_sorted(b),
        a.to_set() == b.to_set(),
    ensures
        a == b,
    decreases a.len(),
{
    if a.len() == 0 {
        if b.len() > 0 {
            assert(b.to_set().contains(b[0]));
        }
        assert(a =~= b);
    } else {
        if b.len() == 0 {
            assert(a.to_set().contains(a[0]));
            assert(false);
        }
        assert(b.to_set().contains(a[0]));
        assert(a.to_set().contains(b[0]));
        let i = choose|i: int| 0 <= i < b.len() && b[i] == a[0];
        let j = choose|j: int| 0 <= j < a.len() && a[j] == b[0];
        assert(b[0] <= a[0]) by {
            if i > 0 {
                assert(b[0] < b[i]);
            }
        }
        assert(a[0] <= b[0]) by {
            if j > 0 {
                assert(a[0] < a[j]);
            }
        }
        lemma_sorted_drop_first(a);
        lemma_sorted_drop_first(b);
        lemma_sorted_unique(a.drop_first(), b.drop_first());
        assert(a =~= b) by {
            assert forall|k: int| 0 <= k < a.len() implies a[k] == b[k] by {
                if k > 0 {
                    assert(a[k] == a.drop_first()[k - 1]);
                    assert(b[k] == b.drop_first()[k - 1]);
                }
            }
        }
    }
}

/// A strictly increasing sequence is the enumeration of its own elements.
pub proof fn lemma_sorted_of(a: Seq<u32>)
    requires
        strictly_sorted(a),
    ensures
        sorted_of(a.to_set()) == a,
{
    let q = sorted_of(a.to_set());
    assert(strictly_sorted(q) && q.to_set() == a.to_set());
    lemma_sorted_unique(q, a);
}

/// Adds `x` to a strictly increasing list of ids, keeping it strictly increasing.
pub fn insert_sorted(v: &mut Vec<u32>, x: u32)
    requires
        strictly_sorted(old(v)@),
    ensures
        strictly_sorted(final(v)@),
        final(v)@.to_set() == old(v)@.to_set().insert(x),
{
    let mut i: usize = 0;
    while i < v.len() && v[i] < x
        invariant
            0 <= i <= v.len(),
            forall|k: int| 0 <= k < i ==> v@[k] < x,
        decreases v.len() - i,
    {
        i = i + 1;
    }
    if i < v.len() && v[i] == x {
        assert(v@.to_set() =~= v@.to_set().insert(x)) by {
            assert(v@.contains(x));
        }
        return;
    }
    let ghost s = v@;
    v.insert(i, x);
    assert(strictly_sorted(v@)) by {
        assert forall|a: int, b: int| 0 <= a < b < v@.len() implies v@[a] < v@[b] by {
            if b < i {
            } else if a < i && b == i {
            } else if a < i {
                assert(v@[b] == s[b - 1]);
                assert(s[a] < x);
                assert(x < s[i as int] || x == s[i as int] || s[i as int] < x);
            } else if a == i {
                assert(v@[b] == s[b - 1]);
                assert(x < s[i as int]);
                if b - 1 > i {
                    assert(s[i as int] < s[b - 1]);
                }
            } else {
                assert(v@[a] == s[a - 1]);
                assert(v@[b] == s[b - 1]);
            }
        }
    }
    assert(v@.to_set() =~= s.to_set().insert(x)) by {
        assert forall|y: u32| #[trigger] v@.to_set().contains(y) <==> s.to_set().insert(x).contains(y) by {
            if s.contains(y) {
                let k = choose|k: int| 0 <= k < s.len() && s[k] == y;
                if k < i {
                    assert(v@[k] == y);
                } else {
                    assert(v@[k + 1] == y);
                }
            }
            if y == x {
                assert(v@[i as int] == x);
            }
            if v@.contains(y) {
                let k = choose|k: int| 0 <= k < v@.len() && v@[k] == y;
                if k < i {
                    assert(s[k] == y);
                } else if k > i {
                    assert(s[k - 1] == y);
                }
            }
        }
    }
}

/// Takes `x` out of a strictly increasing list of ids; absent ids leave it as it is.
pub fn remove_sorted(v: &mut Vec<u32>, x: u32)
    requires
        strictly_sorted(old(v)@),
    ensures
        strictly_sorted(final(v)@),
        final(v)@.to_set() == old(v)@.to_set().remove(x),
{
    let mut i: usize = 0;
    while i < v.len() && v[i] != x
        invariant
            0 <= i <= v.len(),
            forall|k: int| 0 <= k < i ==> v@[k] != x,
        decreases v.len() - i,
    {
        i = i + 1;
    }
    if i == v.len() {
        assert(v@.to_set() =~= v@.to_set().remove(x));
        return;
    }
    let ghost s = v@;
    v.remove(i);
    assert(strictly_sorted(v@)) by {
        assert forall|a: int, b: int| 0 <= a < b < v@.len() implies v@[a] < v@[b] by {
            if a < i && b >= i {
                assert(v@[b] == s[b + 1]);
            } else if a >= i {
                assert(v@[a] == s[a + 1]);
                assert(v@[b] == s[b + 1]);
            }
        }
    }
    assert(v@.to_set() =~= s.to_set().remove(x)) by {
        assert forall|y: u32| v@.contains(y) <==> (s.contains(y) && y != x) by {
            if s.contains(y) && y != x {
                let k = choose|k: int| 0 <= k < s.len() && s[k] == y;
                if k < i {
                    assert(v@[k] == y);
                } else {
                    assert(k > i);
                    assert(v@[k - 1] == y);
                }
            }
            if v@.contains(y) {
                let k = choose|k: int| 0 <= k < v@.len() && v@[k] == y;
                if k < i {
                    assert(s[k] == y);
                } else {
                    assert(s[k + 1] == y);
                    assert(s[i as int] < s[k + 1]);
                }
            }
        }
    }
}

/// The page of `v` after `start_after`, with at most `limit` ids.
pub fn page_of(v: &Vec<u32>, start_after: Option<u32>, limit: u32) -> (r: Vec<u32>)
    ensures
        r@ == page(v@, start_after, limit as nat),
{
    let mut r: Vec<u32> = Vec::new();
    let mut i: usize = 0;
    let ghost f = |x: u32| is_after(start_after, x);
    while i < v.len()
        invariant
            0 <= i <= v.len(),
            f == (|x: u32| is_after(start_after, x)),
            r@ == capped(v@.take(i as int).filter(f), limit as nat),
        decreases v.len() - i,
    {
        let x = v[i];
        let keep = match start_after {
            Some(s) => s < x,
            None => true,
        };
        proof {
            let q = v@.take(i as int);
            assert(v@.take(i + 1).drop_last() =~= q);
            reveal(Seq::filter);
            assert(v@.take(i + 1).last() == x);
        }
        if keep && r.len() < limit as usize {
            r.push(x);
        }
        proof {
            let q = v@.take(i as int).filter(f);
            let q1 = v@.take(i + 1).filter(f);
            if keep {
                assert(q1 =~= q.push(x));
                if q.len() < limit {
                    assert(r@ =~= capped(q1, limit as nat));
                } else {
                    assert(capped(q1, limit as nat) =~= capped(q, limit as nat));
                }
            } else {
                assert(q1 =~= q);
            }
        }
        i = i + 1;
    }
    assert(v@.take(v.len() as int) =~= v@);
    r
}

} // verus!
