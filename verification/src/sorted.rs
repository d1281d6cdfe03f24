use vstd::prelude::*;

verus! {

/// `s` is strictly increasing.
pub open spec fn strictly_increasing(s: Seq<usize>) -> bool {
    forall|i: int, j: int| 0 <= i < j < s.len() ==> s[i] < s[j]
}

/// The numbers below `n` that satisfy `p`, in increasing order.
pub open spec fn range_filter(n: nat, p: spec_fn(usize) -> bool) -> Seq<usize> {
    Seq::new(n, |i: int| i as usize).filter(p)
}

/// The filter of `0..n` is strictly increasing and holds exactly the numbers
/// below `n` that satisfy `p`.
pub proof fn lemma_range_filter(n: nat, p: spec_fn(usize) -> bool)
    requires
        n <= usize::MAX + 1,
    ensures
        strictly_increasing(range_filter(n, p)),
        forall|x: usize| #[trigger] range_filter(n, p).contains(x) <==> (x < n && p(x)),
    decreases n,
{
    reveal(Seq::filter);
    let t = range_filter(n, p);
    if n > 0 {
        let m = (n - 1) as nat;
        lemma_range_filter(m, p);
        let r = Seq::new(n, |i: int| i as usize);
        assert(r.drop_last() =~= Seq::new(m, |i: int| i as usize));
        assert(r.last() == m as usize);
        let prev = range_filter(m, p);
        assert(t == if p(m as usize) { prev.push(m as usize) } else { prev });
        assert forall|k: int| 0 <= k < prev.len() implies prev[k] < m by {
            assert(prev.contains(prev[k]));
        }
        assert forall|x: usize| #[trigger] t.contains(x) <==> (x < n && p(x)) by {
            if x < m {
                if p(x) {
                    assert(prev.contains(x));
                    let k = choose|k: int| 0 <= k < prev.len() && prev[k] == x;
                    assert(t[k] == x);
                }
                if t.contains(x) {
                    let k = choose|k: int| 0 <= k < t.len() && t[k] == x;
                    if k < prev.len() {
                        assert(prev[k] == x);
                    }
                }
            } else if x == m {
                if p(x) {
                    assert(t[t.len() - 1] == x);
                }
                if t.contains(x) {
                    let k = choose|k: int| 0 <= k < t.len() && t[k] == x;
                    if k < prev.len() {
                        assert(prev[k] == x);
                    }
                }
            } else {
                if t.contains(x) {
                    let k = choose|k: int| 0 <= k < t.len() && t[k] == x;
                    if k < prev.len() {
                        assert(prev[k] == x);
                    }
                }
            }
        }
    }
}

/// Extending the range by `n` appends `n` where it satisfies `p`.
pub proof fn lemma_range_filter_push(n: nat, p: spec_fn(usize) -> bool)
    ensures
        range_filter(n + 1, p) == if p(n as usize) {
            range_filter(n, p).push(n as usize)
        } else {
            range_filter(n, p)
        },
{
    reveal(Seq::filter);
    let r = Seq::new(n + 1, |i: int| i as usize);
    assert(r.drop_last() =~= Seq::new(n, |i: int| i as usize));
}

/// Filtering keeps a sequence strictly increasing.
pub proof fn lemma_filter_increasing(s: Seq<usize>, p: spec_fn(usize) -> bool)
    requires
        strictly_increasing(s),
    ensures
        strictly_increasing(s.filter(p)),
    decreases s.len(),
{
    reveal(Seq::filter);
    if s.len() > 0 {
        let d = s.drop_last();
        lemma_filter_increasing(d, p);
        let fd = d.filter(p);
        if p(s.last()) {
            assert forall|k: int| 0 <= k < fd.len() implies fd[k] < s.last() by {
                assert(fd.contains(fd[k]));
                d.lemma_filter_contains_rev(p, fd[k]);
                let idx = choose|idx: int| 0 <= idx < d.len() && d[idx] == fd[k];
            }
            assert(s.filter(p) == fd.push(s.last()));
        }
    }
}

/// Two strictly increasing sequences with the same elements are equal.
pub proof fn lemma_increasing_unique(a: Seq<usize>, b: Seq<usize>)
    requires
        strictly_increasing(a),
        strictly_increasing(b),
        forall|x: usize| a.contains(x) <==> b.contains(x),
    ensures
        a == b,
    decreases a.len(),
{
    if a.len() == 0 {
        if b.len() > 0 {
            assert(b.contains(b[0]));
        }
        assert(a =~= b);
    } else {
        assert(a.contains(a[0]));
        assert(b.len() > 0);
        assert(b.contains(b[0]));
        let ka = choose|k: int| 0 <= k < a.len() && a[k] == b[0];
        let kb = choose|k: int| 0 <= k < b.len() && b[k] == a[0];
        assert(a[0] == b[0]) by {
            if ka > 0 {
                assert(a[0] < a[ka]);
            }
            if kb > 0 {
                assert(b[0] < b[kb]);
            }
        }
        let a1 = a.drop_first();
        let b1 = b.drop_first();
        assert forall|x: usize| a1.contains(x) <==> b1.contains(x) by {
            if a1.contains(x) {
                let k = choose|k: int| 0 <= k < a1.len() && a1[k] == x;
                assert(a[k + 1] == x);
                assert(a.contains(x));
                assert(b.contains(x));
                let j = choose|j: int| 0 <= j < b.len() && b[j] == x;
                assert(x > a[0]);
                assert(j != 0);
                assert(b1[j - 1] == x);
            }
            if b1.contains(x) {
                let k = choose|k: int| 0 <= k < b1.len() && b1[k] == x;
                assert(b[k + 1] == x);
                assert(b.contains(x));
                assert(a.contains(x));
                let j = choose|j: int| 0 <= j < a.len() && a[j] == x;
                assert(x > b[0]);
                assert(j != 0);
                assert(a1[j - 1] == x);
            }
        }
        lemma_increasing_unique(a1, b1);
        assert(a =~= b) by {
            assert forall|i: int| 0 <= i < a.len() implies a[i] == b[i] by {
                if i > 0 {
                    assert(a[i] == a1[i - 1]);
                    assert(b[i] == b1[i - 1]);
                }
            }
        }
    }
}

} // verus!
