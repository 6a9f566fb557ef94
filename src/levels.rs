use vstd::prelude::*;

use crate::offsets::{lemma_offsets_sorted, offsets_valid};

verus! {

/// The offsets of one nesting level. `None` stands for a level fixed to one
/// entry per slot, whose offsets are implicitly `0, 1, 2, ...`.
pub open spec fn off(o: Option<Seq<int>>, k: int) -> int {
    match o {
        Some(s) => s[k],
        None => k,
    }
}

/// Number of slots of a level over `below` items.
pub open spec fn level_len(o: Option<Seq<int>>, below: int) -> int {
    match o {
        Some(s) => s.len() - 1,
        None => below,
    }
}

/// A level is well formed over `below` items: valid offsets ending at
/// `below`, each run short enough for a 32-bit count.
pub open spec fn level_wf(o: Option<Seq<int>>, below: int) -> bool {
    match o {
        Some(s) => {
            &&& offsets_valid(s)
            &&& s.last() == below
            &&& forall|k: int| 0 <= k < s.len() - 1 ==> #[trigger] s[k + 1] - s[k] <= u32::MAX
        },
        None => below >= 0,
    }
}

/// The runs that a level cuts out of `items`, one per slot.
pub open spec fn runs<T>(o: Option<Seq<int>>, items: Seq<T>) -> Seq<Seq<T>> {
    Seq::new(
        level_len(o, items.len() as int) as nat,
        |k: int| items.subrange(off(o, k), off(o, k + 1)),
    )
}

/// The level after one more run ends at `end`.
pub open spec fn level_push(o: Option<Seq<int>>, end: int) -> Option<Seq<int>> {
    match o {
        Some(s) => Some(s.push(end)),
        None => None,
    }
}

pub proof fn lemma_level_bounds(o: Option<Seq<int>>, below: int, k: int)
    requires
        level_wf(o, below),
        0 <= k < level_len(o, below),
    ensures
        0 <= off(o, k) <= off(o, k + 1) <= below,
        off(o, k + 1) - off(o, k) <= u32::MAX,
        o is None ==> off(o, k + 1) - off(o, k) == 1,
{
    if let Some(s) = o {
        lemma_offsets_sorted(s, k, k + 1);
        lemma_offsets_sorted(s, k + 1, s.len() - 1);
    }
}

/// Appending the items `x` and closing a run over them adds `x` as a new run.
pub proof fn lemma_runs_push<T>(o: Option<Seq<int>>, items: Seq<T>, x: Seq<T>)
    requires
        level_wf(o, items.len() as int),
        x.len() <= u32::MAX,
        o is None ==> x.len() == 1,
    ensures
        level_wf(level_push(o, (items.len() + x.len()) as int), (items.len() + x.len()) as int),
        runs(level_push(o, (items.len() + x.len()) as int), items + x) == runs(o, items).push(x),
{
    let o2 = level_push(o, (items.len() + x.len()) as int);
    let n = level_len(o, items.len() as int);
    let all = items + x;
    assert forall|k: int| 0 <= k < n implies #[trigger] all.subrange(off(o2, k), off(o2, k + 1))
        == items.subrange(off(o, k), off(o, k + 1)) by {
        lemma_level_bounds(o, items.len() as int, k);
        if let Some(s) = o {
            assert(o2->0[k] == s[k]);
            assert(o2->0[k + 1] == s[k + 1]);
        }
        assert(all.subrange(off(o2, k), off(o2, k + 1)) =~= items.subrange(off(o, k), off(o, k + 1)));
    }
    if let Some(s) = o {
        let s2 = s.push((items.len() + x.len()) as int);
        assert(s2[n] == items.len());
        assert(s2[n + 1] == (items.len() + x.len()) as int);
        assert forall|i: int| 0 <= i < s2.len() - 1 implies #[trigger] s2[i] <= s2[i + 1] by {
            if i < n {
                assert(s2[i] == s[i] && s2[i + 1] == s[i + 1]);
            }
        }
        assert forall|i: int| 0 <= i < s2.len() - 1 implies #[trigger] s2[i + 1] - s2[i]
            <= u32::MAX by {
            if i < n {
                assert(s2[i] == s[i] && s2[i + 1] == s[i + 1]);
            }
        }
    }
    assert(all.subrange(off(o2, n), off(o2, n + 1)) =~= x);
    assert(runs(o2, all) =~= runs(o, items).push(x));
}

/// The runs of `s`, one after another.
pub open spec fn flat<T>(s: Seq<Seq<T>>) -> Seq<T>
    decreases s.len(),
{
    if s.len() == 0 {
        Seq::empty()
    } else {
        flat(s.drop_last()) + s.last()
    }
}

pub proof fn lemma_flat_push<T>(s: Seq<Seq<T>>, x: Seq<T>)
    ensures
        flat(s.push(x)) == flat(s) + x,
{
    assert(s.push(x).drop_last() =~= s);
}

pub proof fn lemma_flat_concat<T>(a: Seq<Seq<T>>, b: Seq<Seq<T>>)
    ensures
        flat(a + b) == flat(a) + flat(b),
    decreases b.len(),
{
    if b.len() == 0 {
        assert(a + b =~= a);
        assert(flat(a) + flat(b) =~= flat(a));
    } else {
        lemma_flat_concat(a, b.drop_last());
        assert(a + b =~= (a + b.drop_last()).push(b.last()));
        lemma_flat_push(a + b.drop_last(), b.last());
        assert(flat(a) + flat(b) =~= flat(a) + flat(b.drop_last()) + b.last());
    }
}

/// A level without its last offset.
pub open spec fn level_drop(o: Option<Seq<int>>) -> Option<Seq<int>> {
    match o {
        Some(s) => Some(s.drop_last()),
        None => None,
    }
}

proof fn lemma_level_drop<T>(o: Option<Seq<int>>, items: Seq<T>)
    requires
        level_wf(o, items.len() as int),
        level_len(o, items.len() as int) > 0,
    ensures
        ({
            let n = level_len(o, items.len() as int);
            let m = off(o, n - 1);
            &&& 0 <= m <= items.len()
            &&& level_wf(level_drop(o), m)
            &&& level_len(level_drop(o), m) == n - 1
        }),
{
    let n = level_len(o, items.len() as int);
    lemma_level_bounds(o, items.len() as int, n - 1);
    if let Some(s) = o {
        let s2 = s.drop_last();
        assert forall|i: int| 0 <= i < s2.len() - 1 implies #[trigger] s2[i] <= s2[i + 1] by {
            assert(s[i] <= s[i + 1]);
        }
        assert forall|i: int| 0 <= i < s2.len() - 1 implies #[trigger] s2[i + 1] - s2[i]
            <= u32::MAX by {
            assert(s[i + 1] - s[i] <= u32::MAX);
        }
    }
}

proof fn lemma_runs_drop<T>(o: Option<Seq<int>>, items: Seq<T>)
    requires
        level_wf(o, items.len() as int),
        level_len(o, items.len() as int) > 0,
    ensures
        ({
            let n = level_len(o, items.len() as int);
            let m = off(o, n - 1);
            &&& runs(level_drop(o), items.subrange(0, m)) == runs(o, items).drop_last()
            &&& items == items.subrange(0, m) + runs(o, items).last()
        }),
{
    let n = level_len(o, items.len() as int);
    lemma_level_drop(o, items);
    let m = off(o, n - 1);
    let front = items.subrange(0, m);
    let o2 = level_drop(o);
    let r = runs(o, items);
    assert forall|k: int| 0 <= k < n - 1 implies #[trigger] runs(o2, front)[k] == r[k] by {
        lemma_level_bounds(o, items.len() as int, k);
        lemma_level_bounds(o2, m, k);
        assert(off(o2, k) == off(o, k) && off(o2, k + 1) == off(o, k + 1));
        assert(runs(o2, front)[k] =~= r[k]);
    }
    assert(runs(o2, front) =~= r.drop_last());
    lemma_level_bounds(o, items.len() as int, n - 1);
    assert(items =~= front + r.last());
}

/// The runs of a well-formed level, one after another, are the items.
pub proof fn lemma_flat_runs<T>(o: Option<Seq<int>>, items: Seq<T>)
    requires
        level_wf(o, items.len() as int),
    ensures
        flat(runs(o, items)) == items,
    decreases level_len(o, items.len() as int),
{
    let n = level_len(o, items.len() as int);
    if n == 0 {
        if let Some(s) = o {
            assert(s.last() == s[0]);
        }
        assert(runs(o, items) =~= Seq::<Seq<T>>::empty());
        assert(items =~= Seq::<T>::empty());
    } else {
        lemma_level_drop(o, items);
        lemma_runs_drop(o, items);
        let m = off(o, n - 1);
        lemma_flat_runs(level_drop(o), items.subrange(0, m));
    }
}

} // verus!
