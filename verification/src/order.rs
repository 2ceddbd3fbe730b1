//! Identifiers in ascending order.

use vstd::prelude::*;

verus! {

/// Whether every identifier is smaller than all that come after it.
pub open spec fn ascending(s: Seq<usize>) -> bool {
    forall|i: int, j: int| 0 <= i < j < s.len() ==> s[i] < s[j]
}

/// An ascending sequence names nothing twice.
pub proof fn lemma_ascending_distinct(s: Seq<usize>)
    requires
        ascending(s),
    ensures
        s.no_duplicates(),
{
    assert forall|i: int, j: int| 0 <= i < s.len() && 0 <= j < s.len() && i != j implies s[i]
        != s[j] by {
        if i < j {
            assert(s[i] < s[j]);
        } else {
            assert(s[j] < s[i]);
        }
    }
}

/// Two ascending sequences of the same identifiers are the same sequence.
pub proof fn lemma_ascending_unique(a: Seq<usize>, b: Seq<usize>)
    requires
        ascending(a),
        ascending(b),
        a.to_set() == b.to_set(),
    ensures
        a == b,
    decreases a.len(),
{
    lemma_ascending_distinct(a);
    lemma_ascending_distinct(b);
    a.unique_seq_to_set();
    b.unique_seq_to_set();
    if a.len() == 0 {
        assert(a =~= b);
    } else {
        let x = a.last();
        let y = b.last();
        assert(a.contains(x));
        assert(b.contains(y));
        assert(b.to_set().contains(x));
        assert(a.to_set().contains(y));
        let i = choose|i: int| 0 <= i < b.len() && b[i] == x;
        let j = choose|j: int| 0 <= j < a.len() && a[j] == y;
        assert(x <= y) by {
            if i < b.len() - 1 {
                assert(b[i] < b[b.len() - 1]);
            }
        }
        assert(y <= x) by {
            if j < a.len() - 1 {
                assert(a[j] < a[a.len() - 1]);
            }
        }
        let front_a = a.drop_last();
        let front_b = b.drop_last();
        assert forall|v: usize| front_a.contains(v) <==> front_b.contains(v) by {
            if front_a.contains(v) {
                let k = choose|k: int| 0 <= k < front_a.len() && front_a[k] == v;
                assert(a[k] < a[a.len() - 1]);
                assert(a.contains(a[k]));
                assert(b.to_set().contains(v));
                let m = choose|m: int| 0 <= m < b.len() && b[m] == v;
                assert(front_b[m] == v);
            }
            if front_b.contains(v) {
                let k = choose|k: int| 0 <= k < front_b.len() && front_b[k] == v;
                assert(b[k] < b[b.len() - 1]);
                assert(b.contains(b[k]));
                assert(a.to_set().contains(v));
                let m = choose|m: int| 0 <= m < a.len() && a[m] == v;
                assert(front_a[m] == v);
            }
        }
        assert(front_a.to_set() =~= front_b.to_set());
        lemma_ascending_unique(front_a, front_b);
        assert(a =~= front_a.push(x));
        assert(b =~= front_b.push(y));
    }
}

/// The same identifiers in ascending order, each once.
pub fn sorted(ids: &Vec<usize>) -> (out: Vec<usize>)
    ensures
        ascending(out@),
        out@.to_set() == ids@.to_set(),
{
    let mut out: Vec<usize> = Vec::new();
    let mut i: usize = 0;
    while i < ids.len()
        invariant
            i <= ids.len(),
            ascending(out@),
            forall|v: usize| out@.contains(v) <==> ids@.subrange(0, i as int).contains(v),
        decreases ids.len() - i,
    {
        let x = ids[i];
        let mut p: usize = 0;
        while p < out.len() && out[p] < x
            invariant
                p <= out.len(),
                forall|k: int| 0 <= k < p ==> out@[k] < x,
            decreases out.len() - p,
        {
            p += 1;
        }
        let ghost before = out@;
        let ghost seen = ids@.subrange(0, i as int);
        let ghost next = ids@.subrange(0, i + 1);
        proof {
            assert forall|v: usize| next.contains(v) <==> v == x || seen.contains(v) by {
                if next.contains(v) {
                    let k = choose|k: int| 0 <= k < next.len() && next[k] == v;
                    if k < i {
                        assert(seen[k] == v);
                    }
                }
                if seen.contains(v) {
                    let k = choose|k: int| 0 <= k < seen.len() && seen[k] == v;
                    assert(next[k] == v);
                }
                assert(next[i as int] == x);
            }
        }
        if p == out.len() || out[p] != x {
            out.insert(p, x);
            proof {
                before.insert_ensures(p as int, x);
                assert forall|a: int, b: int| 0 <= a < b < out@.len() implies out@[a]
                    < out@[b] by {
                    let u = if a < p {
                        a
                    } else {
                        a - 1
                    };
                    let w = if b < p {
                        b
                    } else {
                        b - 1
                    };
                    if a != p && b != p {
                        assert(before[u] < before[w]);
                    } else if a == p {
                        assert(out@[b] == before[w]);
                        if w > p {
                            assert(before[p as int] < before[w]);
                        }
                    }
                }
                assert forall|v: usize| out@.contains(v) <==> v == x || before.contains(v) by {
                    if out@.contains(v) {
                        let k = choose|k: int| 0 <= k < out@.len() && out@[k] == v;
                        if k < p {
                            assert(before[k] == v);
                        } else if k > p {
                            assert(before[k - 1] == v);
                        }
                    }
                    if before.contains(v) {
                        let k = choose|k: int| 0 <= k < before.len() && before[k] == v;
                        if k < p {
                            assert(out@[k] == v);
                        } else {
                            assert(out@[k + 1] == v);
                        }
                    }
                    assert(out@[p as int] == x);
                }
            }
        } else {
            assert(before[p as int] == x);
        }
        proof {
            assert forall|v: usize| out@.contains(v) <==> next.contains(v) by {
                assert(before.contains(v) <==> seen.contains(v));
                assert(next.contains(v) <==> v == x || seen.contains(v));
                if out@ != before {
                    assert(out@.contains(v) <==> v == x || before.contains(v));
                } else if v == x {
                    assert(before.contains(x));
                }
            }
        }
        i += 1;
    }
    proof {
        assert(ids@.subrange(0, ids@.len() as int) =~= ids@);
        assert(out@.to_set() =~= ids@.to_set());
    }
    out
}

} // verus!
