use crate::cucumbers::{behind, front, leaves, lemma_front_behind, shifted, Space};
use vstd::prelude::*;
use vstd::relations::injective_on;
use vstd::set_lib::{lemma_int_range, lemma_len_subset, lemma_map_size, lemma_set_disjoint_lens, set_int_range};

verus! {

/// The places of the floor that hold `k`.
pub open spec fn places(data: Seq<Space>, k: Space) -> Set<int> {
    Set::new(|p: int| 0 <= p < data.len() && data[p] == k)
}

/// The places whose sea cucumber of the herd `s` takes a step.
pub open spec fn leaving(old: Seq<Space>, w: int, h: int, s: Space) -> Set<int> {
    Set::new(|p: int| 0 <= p < old.len() && leaves(old, w, h, s, p))
}

/// The free places that a sea cucumber of the herd `s` steps onto.
pub open spec fn coming(old: Seq<Space>, w: int, h: int, s: Space) -> Set<int> {
    Set::new(
        |p: int| 0 <= p < old.len() && old[p] == Space::Empty && old[behind(w, h, s, p)] == s,
    )
}

/// As many places are stepped onto as are left.
pub proof fn lemma_coming(old: Seq<Space>, w: int, h: int, s: Space)
    requires
        w > 0,
        h > 0,
        old.len() == w * h,
        s != Space::Empty,
    ensures
        leaving(old, w, h, s).finite(),
        coming(old, w, h, s).finite(),
        coming(old, w, h, s).len() == leaving(old, w, h, s).len(),
{
    let m = leaving(old, w, h, s);
    let a = coming(old, w, h, s);
    let f = |p: int| front(w, h, s, p);
    lemma_int_range(0, old.len() as int);
    lemma_len_subset(m, set_int_range(0, old.len() as int));
    assert forall|p: int, q: int| m.contains(p) && m.contains(q) && #[trigger] f(p) == #[trigger] f(
        q,
    ) implies p == q by {
        lemma_front_behind(w, h, s, p);
        lemma_front_behind(w, h, s, q);
    }
    assert(injective_on(f, m));
    assert forall|q: int| m.map(f).contains(q) <==> a.contains(q) by {
        if m.map(f).contains(q) {
            let p = choose|p: int| m.contains(p) && q == f(p);
            lemma_front_behind(w, h, s, p);
        }
        if a.contains(q) {
            lemma_front_behind(w, h, s, q);
            let p = behind(w, h, s, q);
            assert(m.contains(p));
            assert(f(p) == q);
        }
    }
    assert(m.map(f) =~= a);
    lemma_map_size(m, a, f);
}

/// A herd that moves leaves as many sea cucumbers of each herd on the
/// floor as there were, and as many free places.
pub proof fn lemma_herd_counts(old: Seq<Space>, w: int, h: int, s: Space, k: Space)
    requires
        w > 0,
        h > 0,
        old.len() == w * h,
        s != Space::Empty,
    ensures
        places(old, k).finite(),
        places(shifted(old, w, h, s), k).finite(),
        places(shifted(old, w, h, s), k).len() == places(old, k).len(),
{
    let new = shifted(old, w, h, s);
    let m = leaving(old, w, h, s);
    let a = coming(old, w, h, s);
    let all = set_int_range(0, old.len() as int);
    lemma_int_range(0, old.len() as int);
    lemma_len_subset(places(old, k), all);
    lemma_len_subset(places(new, k), all);
    lemma_coming(old, w, h, s);
    if k == s {
        let stay = places(old, s).difference(m);
        lemma_len_subset(stay, all);
        assert(places(old, s) =~= stay + m);
        assert(places(new, s) =~= stay + a);
        lemma_set_disjoint_lens(stay, m);
        lemma_set_disjoint_lens(stay, a);
    } else if k == Space::Empty {
        let stay = places(old, Space::Empty).difference(a);
        lemma_len_subset(stay, all);
        assert(places(old, Space::Empty) =~= stay + a);
        assert(places(new, Space::Empty) =~= stay + m);
        lemma_set_disjoint_lens(stay, a);
        lemma_set_disjoint_lens(stay, m);
    } else {
        assert(places(new, k) =~= places(old, k));
    }
}

} // verus!
