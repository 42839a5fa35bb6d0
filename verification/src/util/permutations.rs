use vstd::prelude::*;

verus! {

/// `s` is strictly increasing.
pub open spec fn increasing(s: Seq<u8>) -> bool {
    forall|i: int, j: int| 0 <= i < j < s.len() ==> s[i] < s[j]
}

/// `c` picks `k` elements of `s` in increasing order.
pub open spec fn picks(s: Seq<u8>, c: Seq<u8>, k: int) -> bool {
    &&& c.len() == k
    &&& increasing(c)
    &&& forall|i: int| 0 <= i < c.len() ==> s.contains(#[trigger] c[i])
}

/// The `k`-element selections of `values[start..]`, in lexicographic order.
fn combos(values: &Vec<u8>, start: usize, k: u8) -> (r: Vec<Vec<u8>>)
    requires
        start <= values@.len(),
        increasing(values@),
        k <= 9,
    ensures
        forall|j: int| 0 <= j < r@.len() ==> picks(values@.subrange(start as int, values@.len() as int), #[trigger] r@[j]@, k as int),
        forall|c: Seq<u8>|
            #[trigger] picks(values@.subrange(start as int, values@.len() as int), c, k as int) ==> exists|j: int|
                0 <= j < r@.len() && r@[j]@ == c,
    decreases k,
{
    let mut r: Vec<Vec<u8>> = Vec::new();
    if k == 0 {
        r.push(Vec::new());
        proof {
            assert forall|c: Seq<u8>| #[trigger] picks(values@.subrange(start as int, values@.len() as int), c, k as int) implies exists|
                j: int,
            | 0 <= j < r@.len() && r@[j]@ == c by {
                assert(r@[0]@ =~= c);
            }
        }
        return r;
    }
    let n = values.len();
    let ghost whole = values@.subrange(start as int, n as int);
    let mut i = start;
    while i < n
        invariant
            start <= i <= n == values@.len(),
            increasing(values@),
            1 <= k <= 9,
            whole == values@.subrange(start as int, n as int),
            forall|j: int| 0 <= j < r@.len() ==> picks(values@.subrange(start as int, n as int), #[trigger] r@[j]@, k as int),
            forall|c: Seq<u8>|
                #[trigger] picks(whole, c, k as int) && (exists|p: int| start <= p < i && values@[p] == c[0]) ==> exists|j: int|
                    0 <= j < r@.len() && r@[j]@ == c,
        decreases n - i,
    {
        let tails = combos(values, i + 1, k - 1);
        let ghost r0 = r@;
        let mut t: usize = 0;
        while t < tails.len()
            invariant
                start <= i < n == values@.len(),
                increasing(values@),
                1 <= k <= 9,
                t <= tails@.len(),
                forall|j: int| 0 <= j < tails@.len() ==> picks(values@.subrange(i + 1, n as int), #[trigger] tails@[j]@, k - 1),
                forall|j: int| 0 <= j < r@.len() ==> picks(values@.subrange(start as int, n as int), #[trigger] r@[j]@, k as int),
                r0.len() <= r@.len(),
                forall|j: int| 0 <= j < r0.len() ==> r@[j] == #[trigger] r0[j],
                forall|t2: int|
                    0 <= t2 < t ==> exists|j: int| 0 <= j < r@.len() && r@[j]@ == seq![values@[i as int]] + (#[trigger] tails@[t2])@,
            decreases tails@.len() - t,
        {
            let tail = &tails[t];
            let ghost tl = tail@;
            assert(picks(values@.subrange(i + 1, n as int), tl, k - 1));
            let mut c: Vec<u8> = Vec::new();
            c.push(values[i]);
            let mut q: usize = 0;
            while q < tail.len()
                invariant
                    q <= tail@.len(),
                    tl == tail@,
                    c@ == seq![values@[i as int]] + tl.subrange(0, q as int),
                decreases tail@.len() - q,
            {
                c.push(tail[q]);
                assert(c@ =~= seq![values@[i as int]] + tl.subrange(0, q + 1));
                q = q + 1;
            }
            proof {
                assert(tl.subrange(0, tl.len() as int) =~= tl);
                let whole = values@.subrange(start as int, n as int);
                assert forall|a: int| 0 <= a < c@.len() implies whole.contains(#[trigger] c@[a]) by {
                    if a == 0 {
                        assert(whole[i - start] == values@[i as int]);
                    } else {
                        assert(c@[a] == tl[a - 1]);
                        assert(values@.subrange(i + 1, n as int).contains(tl[a - 1]));
                        let p = choose|p: int| 0 <= p < n - i - 1 && #[trigger] values@.subrange(i + 1, n as int)[p] == tl[a - 1];
                        assert(whole[p + i + 1 - start] == tl[a - 1]);
                    }
                }
                assert forall|a: int, b: int| 0 <= a < b < c@.len() implies c@[a] < c@[b] by {
                    if a == 0 {
                        assert(values@.subrange(i + 1, n as int).contains(tl[b - 1]));
                        let p = choose|p: int| 0 <= p < n - i - 1 && #[trigger] values@.subrange(i + 1, n as int)[p] == tl[b - 1];
                        assert(values@[p + i + 1] == tl[b - 1]);
                    } else {
                        assert(c@[a] == tl[a - 1]);
                        assert(c@[b] == tl[b - 1]);
                    }
                }
            }
            let ghost rb = r@;
            r.push(c);
            proof {
                assert(r@[rb.len() as int]@ == seq![values@[i as int]] + tails@[t as int]@);
                assert forall|t2: int| 0 <= t2 < t + 1 implies exists|j: int|
                    0 <= j < r@.len() && r@[j]@ == seq![values@[i as int]] + (#[trigger] tails@[t2])@ by {
                    if t2 < t {
                        let j = choose|j: int| 0 <= j < rb.len() && rb[j]@ == seq![values@[i as int]] + tails@[t2]@;
                        assert(r@[j] == rb[j]);
                    }
                }
            }
            t = t + 1;
        }
        proof {
            assert forall|c: Seq<u8>|
                #[trigger] picks(whole, c, k as int) && (exists|p: int| start <= p < i + 1 && values@[p] == c[0]) implies exists|j: int|
                0 <= j < r@.len() && r@[j]@ == c by {
                let p = choose|p: int| start <= p < i + 1 && values@[p] == c[0];
                if p < i {
                    let j = choose|j: int| 0 <= j < r0.len() && r0[j]@ == c;
                    assert(r@[j] == r0[j]);
                } else {
                    let tl = c.subrange(1, k as int);
                    let sub = values@.subrange(i + 1, n as int);
                    assert forall|b: int| 0 <= b < tl.len() implies sub.contains(#[trigger] tl[b]) by {
                        assert(whole.contains(c[b + 1]));
                        let q = choose|q: int| 0 <= q < whole.len() && whole[q] == c[b + 1];
                        assert(c[0] < c[b + 1]);
                        assert(values@[start + q] == c[b + 1]);
                        if start + q <= i {
                            if start + q < i {
                                assert(values@[start + q] < values@[i as int]);
                            }
                        }
                        assert(sub[start + q - i - 1] == tl[b]);
                    }
                    assert(picks(sub, tl, k - 1));
                    let t2 = choose|t2: int| 0 <= t2 < tails@.len() && tails@[t2]@ == tl;
                    assert(seq![values@[i as int]] + tails@[t2]@ =~= c);
                    let j = choose|j: int| 0 <= j < r@.len() && r@[j]@ == seq![values@[i as int]] + (#[trigger] tails@[t2])@;
                }
            }
        }
        i = i + 1;
    }
    proof {
        assert forall|c: Seq<u8>| #[trigger] picks(values@.subrange(start as int, values@.len() as int), c, k as int) implies exists|
            j: int,
        | 0 <= j < r@.len() && r@[j]@ == c by {
            assert(whole.contains(c[0]));
            let q = choose|q: int| 0 <= q < whole.len() && whole[q] == c[0];
            assert(values@[start + q] == c[0]);
            assert(picks(whole, c, k as int));
        }
    }
    r
}

/// The `k`-element selections of `values` (given in increasing order), in lexicographic
/// order of positions.
pub fn create_permutations(values: Vec<u8>, k: u8) -> (r: Vec<Vec<u8>>)
    requires
        increasing(values@),
        k <= 9,
    ensures
        forall|j: int| 0 <= j < r@.len() ==> picks(values@, #[trigger] r@[j]@, k as int),
        forall|c: Seq<u8>| #[trigger] picks(values@, c, k as int) ==> exists|j: int| 0 <= j < r@.len() && r@[j]@ == c,
{
    let r = combos(&values, 0, k);
    assert(values@.subrange(0, values@.len() as int) =~= values@);
    r
}

} // verus!
