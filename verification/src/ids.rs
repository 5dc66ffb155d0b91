//! Sorting client ids.

use vstd::prelude::*;

verus! {

/// Whether the ids are in strictly ascending order.
pub open spec fn strictly_ascending(s: Seq<u16>) -> bool {
    forall|i: int, j: int| 0 <= i < j < s.len() ==> s[i] < s[j]
}

proof fn lemma_take_succ_contains(s: Seq<u16>, i: int)
    requires
        0 <= i < s.len(),
    ensures
        forall|x: u16| #[trigger]
            s.take(i + 1).contains(x) <==> s.take(i).contains(x) || x == s[i],
{
    assert forall|x: u16| #[trigger] s.take(i + 1).contains(x) implies s.take(i).contains(x)
        || x == s[i] by {
        let k = choose|k: int| 0 <= k < i + 1 && #[trigger] s.take(i + 1)[k] == x;
        if k < i {
            assert(s.take(i)[k] == x);
        }
    }
    assert forall|x: u16| s.take(i).contains(x) || x == s[i] implies #[trigger] s.take(
        i + 1,
    ).contains(x) by {
        if x == s[i] {
            assert(s.take(i + 1)[i] == x);
        } else {
            let k = choose|k: int| 0 <= k < i && #[trigger] s.take(i)[k] == x;
            assert(s.take(i + 1)[k] == x);
        }
    }
}

proof fn lemma_push_contains(s: Seq<u16>, y: u16)
    ensures
        forall|x: u16| #[trigger] s.push(y).contains(x) <==> s.contains(x) || x == y,
{
    assert forall|x: u16| #[trigger] s.push(y).contains(x) implies s.contains(x) || x == y by {
        let k = choose|k: int| 0 <= k < s.len() + 1 && #[trigger] s.push(y)[k] == x;
        if k < s.len() {
            assert(s[k] == x);
        }
    }
    assert forall|x: u16| s.contains(x) || x == y implies #[trigger] s.push(y).contains(x) by {
        if x == y {
            assert(s.push(y)[s.len() as int] == x);
        } else {
            let k = choose|k: int| 0 <= k < s.len() && #[trigger] s[k] == x;
            assert(s.push(y)[k] == x);
        }
    }
}

/// Merges two strictly ascending lists of ids into one that holds the ids
/// of both, each once.
fn merge_ids(a: &Vec<u16>, b: &Vec<u16>) -> (r: Vec<u16>)
    requires
        strictly_ascending(a@),
        strictly_ascending(b@),
    ensures
        strictly_ascending(r@),
        forall|x: u16| #[trigger] r@.contains(x) <==> a@.contains(x) || b@.contains(x),
{
    let mut r: Vec<u16> = Vec::new();
    let mut i: usize = 0;
    let mut j: usize = 0;
    while i < a.len() || j < b.len()
        invariant
            i <= a.len(),
            j <= b.len(),
            strictly_ascending(a@),
            strictly_ascending(b@),
            strictly_ascending(r@),
            forall|x: u16| #[trigger]
                r@.contains(x) <==> a@.take(i as int).contains(x) || b@.take(j as int).contains(x),
            r.len() > 0 ==> (i < a.len() ==> r@.last() < a@[i as int]) && (j < b.len()
                ==> r@.last() < b@[j as int]),
        decreases a.len() + b.len() - i - j,
    {
        let ghost before = r@;
        proof {
            if i < a.len() {
                lemma_take_succ_contains(a@, i as int);
            }
            if j < b.len() {
                lemma_take_succ_contains(b@, j as int);
            }
        }
        if j == b.len() || (i < a.len() && a[i] < b[j]) {
            let y = a[i];
            r.push(y);
            proof {
                lemma_push_contains(before, y);
            }
            i = i + 1;
        } else if i == a.len() || b[j] < a[i] {
            let y = b[j];
            r.push(y);
            proof {
                lemma_push_contains(before, y);
            }
            j = j + 1;
        } else {
            let y = a[i];
            r.push(y);
            proof {
                lemma_push_contains(before, y);
            }
            i = i + 1;
            j = j + 1;
        }
    }
    assert(a@.take(a.len() as int) == a@);
    assert(b@.take(b.len() as int) == b@);
    r
}

/// The distinct ids of `v[lo..hi]`, in strictly ascending order.
pub fn sorted_ids(v: &Vec<u16>, lo: usize, hi: usize) -> (r: Vec<u16>)
    requires
        lo <= hi <= v.len(),
    ensures
        strictly_ascending(r@),
        forall|x: u16| #[trigger] r@.contains(x) <==> v@.subrange(lo as int, hi as int).contains(x),
    decreases hi - lo,
{
    if hi - lo == 0 {
        let r: Vec<u16> = Vec::new();
        assert forall|x: u16| !v@.subrange(lo as int, hi as int).contains(x) by {}
        return r;
    }
    if hi - lo == 1 {
        let mut r: Vec<u16> = Vec::new();
        r.push(v[lo]);
        assert forall|x: u16| #[trigger] r@.contains(x) <==> v@.subrange(lo as int, hi as int).contains(x) by {
            if x == v@[lo as int] {
                assert(r@[0] == x);
                assert(v@.subrange(lo as int, hi as int)[0] == x);
            }
        }
        return r;
    }
    let mid = lo + (hi - lo) / 2;
    let left = sorted_ids(v, lo, mid);
    let right = sorted_ids(v, mid, hi);
    let r = merge_ids(&left, &right);
    assert forall|x: u16| #[trigger] r@.contains(x) <==> v@.subrange(lo as int, hi as int).contains(x) by {
        let whole = v@.subrange(lo as int, hi as int);
        let l = v@.subrange(lo as int, mid as int);
        let h = v@.subrange(mid as int, hi as int);
        if whole.contains(x) {
            let k = choose|k: int| 0 <= k < whole.len() && #[trigger] whole[k] == x;
            if k < mid - lo {
                assert(l[k] == x);
            } else {
                assert(h[k - (mid - lo)] == x);
            }
        }
        if l.contains(x) {
            let k = choose|k: int| 0 <= k < l.len() && #[trigger] l[k] == x;
            assert(whole[k] == x);
        }
        if h.contains(x) {
            let k = choose|k: int| 0 <= k < h.len() && #[trigger] h[k] == x;
            assert(whole[k + (mid - lo)] == x);
        }
    }
    r
}

} // verus!
