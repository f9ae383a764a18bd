use vstd::prelude::*;

verus! {

/// Whether `a` is nearer to the end than `b`. Both list what is left to do, the parts that take
/// all that follows with them first.
pub open spec fn nearer(a: Seq<nat>, b: Seq<nat>) -> bool {
    &&& a.len() == b.len()
    &&& exists|i: int| first_drop(a, b, i)
}

/// Whether the lists differ at `i` first, and `a` is smaller there.
pub open spec fn first_drop(a: Seq<nat>, b: Seq<nat>, i: int) -> bool {
    &&& 0 <= i < a.len()
    &&& a[i] < b[i]
    &&& forall|j: int| 0 <= j < i ==> #[trigger] a[j] == b[j]
}

/// Nothing left to do.
pub open spec fn no_work(n: nat) -> Seq<nat> {
    Seq::new(n, |i: int| 0nat)
}

/// Whether `a` is as near to the end as `b`, or nearer.
pub open spec fn not_farther(a: Seq<nat>, b: Seq<nat>) -> bool {
    a == b || nearer(a, b)
}

/// A list that grows nowhere before the place where it shrinks is nearer to the end.
pub proof fn nearer_at(a: Seq<nat>, b: Seq<nat>, i: int)
    requires
        a.len() == b.len(),
        0 <= i < a.len(),
        a[i] < b[i],
        forall|j: int| 0 <= j < i ==> #[trigger] a[j] <= b[j],
    ensures
        nearer(a, b),
    decreases i,
{
    if forall|j: int| 0 <= j < i ==> #[trigger] a[j] == b[j] {
        assert(first_drop(a, b, i));
    } else {
        let j = choose|j: int| 0 <= j < i && #[trigger] a[j] != b[j];
        nearer_at(a, b, j);
    }
}

/// A list that grows nowhere is not farther from the end.
pub proof fn not_farther_if(a: Seq<nat>, b: Seq<nat>)
    requires
        a.len() == b.len(),
        forall|j: int| 0 <= j < a.len() ==> #[trigger] a[j] <= b[j],
    ensures
        not_farther(a, b),
{
    if forall|j: int| 0 <= j < a.len() ==> #[trigger] a[j] == b[j] {
        assert(a =~= b);
    } else {
        let j = choose|j: int| 0 <= j < a.len() && #[trigger] a[j] != b[j];
        nearer_at(a, b, j);
    }
}

/// Nothing is nearer to the end than itself.
pub proof fn nearer_is_other(a: Seq<nat>, b: Seq<nat>)
    requires
        nearer(a, b),
    ensures
        a != b,
{
    let i = choose|i: int| first_drop(a, b, i);
    assert(a[i] < b[i]);
}

/// What is done first decides.
pub proof fn nearer_front(a: Seq<nat>, b: Seq<nat>, x: Seq<nat>, y: Seq<nat>)
    requires
        nearer(a, b),
        x.len() == y.len(),
    ensures
        nearer(a + x, b + y),
{
    let i = choose|i: int| first_drop(a, b, i);
    assert((a + x)[i] == a[i] && (b + y)[i] == b[i]);
    assert forall|j: int| 0 <= j < i implies #[trigger] (a + x)[j] == (b + y)[j] by {
        assert(a[j] == b[j]);
    }
    assert(first_drop(a + x, b + y, i));
}

/// Where what is done first stays, the rest decides.
pub proof fn nearer_back(a: Seq<nat>, x: Seq<nat>, y: Seq<nat>)
    requires
        nearer(x, y),
    ensures
        nearer(a + x, a + y),
{
    let i = choose|i: int| first_drop(x, y, i);
    let k = a.len() + i;
    assert((a + x)[k] == x[i] && (a + y)[k] == y[i]);
    assert forall|j: int| 0 <= j < k implies #[trigger] (a + x)[j] == (a + y)[j] by {
        if j >= a.len() {
            assert(x[j - a.len()] == y[j - a.len()]);
        }
    }
    assert(first_drop(a + x, a + y, k));
}

/// Nearer, and then nearer again, is nearer.
pub proof fn nearer_twice(a: Seq<nat>, b: Seq<nat>, c: Seq<nat>)
    requires
        not_farther(a, b),
        not_farther(b, c),
    ensures
        not_farther(a, c),
        nearer(a, b) || nearer(b, c) ==> nearer(a, c),
{
    if a != b && b != c {
        let i = choose|i: int| first_drop(a, b, i);
        let k = choose|k: int| first_drop(b, c, k);
        let m = if i < k {
            i
        } else {
            k
        };
        assert forall|j: int| 0 <= j < m implies #[trigger] a[j] == c[j] by {
            assert(a[j] == b[j]);
            assert(b[j] == c[j]);
        }
        assert(a[m] <= b[m]);
        assert(b[m] <= c[m]);
        assert(first_drop(a, c, m));
    }
}

/// Work that comes nearer to its end with every step does not go on for ever.
pub proof fn work_ends(work: spec_fn(nat) -> Seq<nat>)
    ensures
        exists|n: nat| !nearer(#[trigger] work(n + 1), work(n)),
{
    some_step_stays(work, work(0).len(), 0);
}

proof fn some_step_stays(work: spec_fn(nat) -> Seq<nat>, len: nat, m: nat)
    requires
        work(m).len() == len,
    ensures
        exists|n: nat| !nearer(#[trigger] work(n + 1), work(n)),
    decreases len, work(m)[0],
{
    if forall|n: nat| nearer(#[trigger] work(n + 1), work(n)) {
        assert(nearer(work(m + 1), work(m)));
        assert(len > 0);
        if exists|n: nat| n >= m && (#[trigger] work(n))[0] < work(m)[0] {
            let n = choose|n: nat| n >= m && (#[trigger] work(n))[0] < work(m)[0];
            lengths_stay(work, m, n);
            some_step_stays(work, len, n);
        } else {
            let tails = |k: nat| work(m + k).drop_first();
            assert forall|k: nat| nearer(#[trigger] tails(k + 1), tails(k)) by {
                let a = work(m + k + 1);
                let b = work(m + k);
                assert(nearer(work(m + k + 1), work(m + k)));
                lengths_stay(work, m, m + k);
                heads_stay(work, m, m + k);
                heads_stay(work, m, m + k + 1);
                let i = choose|i: int| first_drop(a, b, i);
                assert(i > 0);
                assert forall|j: int| 0 <= j < i - 1 implies #[trigger] a.drop_first()[j]
                    == b.drop_first()[j] by {
                    assert(a[j + 1] == b[j + 1]);
                }
                assert(first_drop(a.drop_first(), b.drop_first(), i - 1));
                assert(m + k + 1 == m + (k + 1));
            }
            assert(m + 0 == m);
            some_step_stays(tails, (len - 1) as nat, 0);
        }
    }
}

proof fn lengths_stay(work: spec_fn(nat) -> Seq<nat>, m: nat, n: nat)
    requires
        forall|n: nat| nearer(#[trigger] work(n + 1), work(n)),
        m <= n,
    ensures
        work(n).len() == work(m).len(),
    decreases n - m,
{
    if m < n {
        let k = (n - 1) as nat;
        lengths_stay(work, m, k);
        assert(nearer(work(k + 1), work(k)));
    }
}

proof fn heads_stay(work: spec_fn(nat) -> Seq<nat>, m: nat, n: nat)
    requires
        forall|n: nat| nearer(#[trigger] work(n + 1), work(n)),
        forall|n: nat| n >= m ==> (#[trigger] work(n))[0] >= work(m)[0],
        m <= n,
    ensures
        work(n)[0] == work(m)[0],
    decreases n - m,
{
    if m < n {
        let k = (n - 1) as nat;
        heads_stay(work, m, k);
        assert(nearer(work(k + 1), work(k)));
        let a = work(k + 1);
        let b = work(k);
        let i = choose|i: int| first_drop(a, b, i);
        if i > 0 {
            assert(work(k + 1)[0] == work(k)[0]);
        }
    }
}

} // verus!
