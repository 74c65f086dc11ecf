//! Light curves by band, and the order in which bands are taken.

use vstd::prelude::*;
use vstd::seq_lib::{group_to_multiset_ensures, to_multiset_contains};

use crate::word::Real;

verus! {

broadcast use group_to_multiset_ensures;

/// The measurements of one band.
#[derive(Debug)]
pub struct BandData {
    /// Times in days.
    pub times: Vec<Real>,
    /// Linear fluxes.
    pub values: Vec<Real>,
    /// Uncertainties of the fluxes.
    pub errors: Vec<Real>,
}

/// One band of a light curve.
#[derive(Debug)]
pub struct Band {
    /// The name of the band.
    pub name: String,
    /// Its effective wavelength in angstrom, where that is known.
    pub wavelength: Option<Real>,
    /// Its measurements.
    pub data: BandData,
}

/// `a` comes before `b` in lexicographic order of code points.
pub open spec fn precedes(a: Seq<char>, b: Seq<char>) -> bool
    decreases a.len(),
{
    if b.len() == 0 {
        false
    } else if a.len() == 0 {
        true
    } else if a[0] != b[0] {
        (a[0] as int) < (b[0] as int)
    } else {
        precedes(a.drop_first(), b.drop_first())
    }
}

/// No two bands have the same name.
pub open spec fn distinct(bands: Seq<Band>) -> bool {
    forall|i: int, j: int|
        0 <= i < j < bands.len() ==> (#[trigger] bands[i]).name@ != (#[trigger] bands[j]).name@
}

/// The names ascend.
pub open spec fn ascending(bands: Seq<Band>) -> bool {
    forall|i: int, j: int|
        0 <= i < j < bands.len() ==> precedes(
            (#[trigger] bands[i]).name@,
            (#[trigger] bands[j]).name@,
        )
}

/// The bands arranged so that their names ascend.
pub open spec fn in_name_order(bands: Seq<Band>) -> Seq<Band> {
    choose|s: Seq<Band>| #[trigger] ascending(s) && s.to_multiset() == bands.to_multiset()
}

/// The bands that `order` points at, in its order.
pub open spec fn arranged(bands: Seq<Band>, order: Seq<usize>) -> Seq<Band> {
    Seq::new(order.len(), |k: int| bands[order[k] as int])
}

/// No name precedes itself.
pub proof fn lemma_precedes_irreflexive(a: Seq<char>)
    ensures
        !precedes(a, a),
    decreases a.len(),
{
    if a.len() > 0 {
        lemma_precedes_irreflexive(a.drop_first());
    }
}

/// The order of names is transitive.
pub proof fn lemma_precedes_transitive(a: Seq<char>, b: Seq<char>, c: Seq<char>)
    requires
        precedes(a, b),
        precedes(b, c),
    ensures
        precedes(a, c),
    decreases a.len(),
{
    if a.len() > 0 && b.len() > 0 && c.len() > 0 && a[0] == b[0] && b[0] == c[0] {
        lemma_precedes_transitive(a.drop_first(), b.drop_first(), c.drop_first());
    }
}

/// Of two different names one precedes the other.
pub proof fn lemma_precedes_total(a: Seq<char>, b: Seq<char>)
    ensures
        a == b || precedes(a, b) || precedes(b, a),
    decreases a.len(),
{
    if a.len() > 0 && b.len() > 0 {
        if a[0] == b[0] {
            lemma_precedes_total(a.drop_first(), b.drop_first());
            if a.drop_first() == b.drop_first() {
                assert(a == seq![a[0]] + a.drop_first());
                assert(b == seq![b[0]] + b.drop_first());
            }
        }
    } else if a.len() == 0 && b.len() == 0 {
        assert(a =~= b);
    }
}

/// There is only one way to arrange given bands by name.
pub proof fn lemma_arrangement_unique(s: Seq<Band>, t: Seq<Band>)
    requires
        ascending(s),
        ascending(t),
        s.to_multiset() == t.to_multiset(),
    ensures
        s == t,
    decreases s.len(),
{
    assert(s.len() == s.to_multiset().len());
    assert(t.len() == t.to_multiset().len());
    if s.len() > 0 {
        let n = s.len() - 1;
        assert(s.contains(s[n]) && t.contains(t[n]));
        to_multiset_contains(s, s[n]);
        to_multiset_contains(t, s[n]);
        to_multiset_contains(s, t[n]);
        to_multiset_contains(t, t[n]);
        let j = choose|j: int| 0 <= j < t.len() && t[j] == s[n];
        let i = choose|i: int| 0 <= i < s.len() && s[i] == t[n];
        if j < n {
            assert(precedes(t[j].name@, t[n].name@));
            if i < n {
                assert(precedes(s[i].name@, s[n].name@));
                lemma_precedes_transitive(s[n].name@, t[n].name@, s[n].name@);
            }
            lemma_precedes_irreflexive(s[n].name@);
        }
        assert(s[n] == t[n]);
        assert(s.remove(n) == s.drop_last());
        assert(t.remove(n) == t.drop_last());
        lemma_arrangement_unique(s.drop_last(), t.drop_last());
        assert(s == s.drop_last().push(s[n]));
        assert(t == t.drop_last().push(t[n]));
    }
}

/// `x` has a place in the arrangement `t` of bands with other names.
proof fn lemma_insertion_place(t: Seq<Band>, x: Band) -> (k: int)
    requires
        ascending(t),
        forall|i: int| 0 <= i < t.len() ==> (#[trigger] t[i]).name@ != x.name@,
    ensures
        0 <= k <= t.len(),
        ascending(t.insert(k, x)),
        forall|i: int| 0 <= i < k ==> precedes((#[trigger] t[i]).name@, x.name@),
        forall|i: int| k <= i < t.len() ==> precedes(x.name@, (#[trigger] t[i]).name@),
    decreases t.len(),
{
    let mut k: int = t.len() as int;
    if t.len() > 0 {
        let n = t.len() - 1;
        lemma_precedes_total(t[n].name@, x.name@);
        if precedes(t[n].name@, x.name@) {
            assert forall|i: int| 0 <= i < t.len() implies precedes(
                (#[trigger] t[i]).name@,
                x.name@,
            ) by {
                if i < n {
                    lemma_precedes_transitive(t[i].name@, t[n].name@, x.name@);
                }
            }
        } else {
            let u = t.drop_last();
            assert forall|i: int| 0 <= i < u.len() implies (#[trigger] u[i]).name@ != x.name@ by {
                assert(u[i] == t[i]);
            }
            k = lemma_insertion_place(u, x);
            assert forall|i: int| 0 <= i < k implies precedes((#[trigger] t[i]).name@, x.name@) by {
                assert(u[i] == t[i]);
            }
            assert forall|i: int| k <= i < t.len() implies precedes(
                x.name@,
                (#[trigger] t[i]).name@,
            ) by {
                if i < n {
                    assert(u[i] == t[i]);
                }
            }
        }
    }
    let v = t.insert(k, x);
    assert forall|i: int, j: int| 0 <= i < j < v.len() implies precedes(
        (#[trigger] v[i]).name@,
        (#[trigger] v[j]).name@,
    ) by {
        let a = if i < k { t[i] } else if i == k { x } else { t[i - 1] };
        let b = if j < k { t[j] } else if j == k { x } else { t[j - 1] };
        assert(v[i] == a && v[j] == b);
    }
    k
}

/// Bands with different names can be arranged by name.
pub proof fn lemma_arrangement_exists(bands: Seq<Band>)
    requires
        distinct(bands),
    ensures
        ascending(in_name_order(bands)),
        in_name_order(bands).to_multiset() == bands.to_multiset(),
    decreases bands.len(),
{
    if bands.len() == 0 {
        assert(ascending(bands));
    } else {
        let before = bands.drop_last();
        let x = bands.last();
        assert forall|i: int, j: int| 0 <= i < j < before.len() implies (
        #[trigger] before[i]).name@ != (#[trigger] before[j]).name@ by {
            assert(before[i] == bands[i] && before[j] == bands[j]);
        }
        lemma_arrangement_exists(before);
        let t = in_name_order(before);
        assert forall|i: int| 0 <= i < t.len() implies (#[trigger] t[i]).name@ != x.name@ by {
            assert(t.contains(t[i]));
            assert(before.to_multiset().count(t[i]) > 0);
            assert(before.contains(t[i]));
            let j = choose|j: int| 0 <= j < before.len() && before[j] == t[i];
            assert(bands[j] == before[j]);
            assert(bands[bands.len() - 1] == x);
        }
        let k = lemma_insertion_place(t, x);
        assert(bands == before.push(x));
        let v = t.insert(k, x);
        assert(ascending(v) && v.to_multiset() == bands.to_multiset());
    }
}

/// Whether name `a` comes before name `b`.
pub fn name_precedes(a: &String, b: &String) -> (r: bool)
    ensures
        r == precedes(a@, b@),
{
    let a_str: &str = a.as_str();
    let b_str: &str = b.as_str();
    let a_len: usize = a_str.unicode_len();
    let b_len: usize = b_str.unicode_len();
    let mut i: usize = 0;
    assert(a@.skip(0) == a@ && b@.skip(0) == b@);
    while i < a_len && i < b_len
        invariant
            a_str@ == a@,
            b_str@ == b@,
            a_len == a@.len(),
            b_len == b@.len(),
            i <= a_len,
            i <= b_len,
            precedes(a@, b@) == precedes(a@.skip(i as int), b@.skip(i as int)),
        decreases a_len - i,
    {
        let x: char = a_str.get_char(i);
        let y: char = b_str.get_char(i);
        if x != y {
            return (x as u32) < (y as u32);
        }
        assert(a@.skip(i as int).drop_first() == a@.skip(i + 1));
        assert(b@.skip(i as int).drop_first() == b@.skip(i + 1));
        i = i + 1;
    }
    i < b_len
}

/// Finds the order of the bands by name.
pub fn sort_bands(bands: &Vec<Band>) -> (r: Vec<usize>)
    requires
        distinct(bands@),
    ensures
        r.len() == bands.len(),
        forall|k: int| 0 <= k < r.len() ==> (#[trigger] r@[k]) < bands.len(),
        forall|i: int, j: int|
            0 <= i < j < r.len() ==> precedes(
                bands@[#[trigger] r@[i] as int].name@,
                bands@[#[trigger] r@[j] as int].name@,
            ),
        ascending(arranged(bands@, r@)),
        arranged(bands@, r@) == in_name_order(bands@),
{
    let n: usize = bands.len();
    let mut order: Vec<usize> = Vec::new();
    let mut i: usize = 0;
    assert(arranged(bands@, order@) =~= bands@.take(0));
    while i < n
        invariant
            distinct(bands@),
            n == bands.len(),
            i <= n,
            order.len() == i,
            forall|k: int| 0 <= k < i ==> (#[trigger] order@[k]) < i,
            ascending(arranged(bands@, order@)),
            arranged(bands@, order@).to_multiset() == bands@.take(i as int).to_multiset(),
        decreases n - i,
    {
        let ghost before = arranged(bands@, order@);
        let mut k: usize = i;
        while k > 0 && name_precedes(&bands[i].name, &bands[order[k - 1]].name)
            invariant
                n == bands.len(),
                i < n,
                k <= i,
                order.len() == i,
                before == arranged(bands@, order@),
                forall|j: int| 0 <= j < i ==> (#[trigger] order@[j]) < i,
                ascending(before),
                forall|j: int|
                    k <= j < i ==> precedes(bands@[i as int].name@, (#[trigger] before[j]).name@),
            decreases k,
        {
            k = k - 1;
        }
        let ghost x = bands@[i as int];
        proof {
            assert forall|j: int| 0 <= j < k implies precedes(
                (#[trigger] before[j]).name@,
                x.name@,
            ) by {
                let last = before[k - 1].name@;
                assert(order@[k - 1] < i);
                lemma_precedes_total(last, x.name@);
                if j < k - 1 {
                    lemma_precedes_transitive(before[j].name@, last, x.name@);
                }
            }
        }
        order.insert(k, i);
        proof {
            assert(arranged(bands@, order@) =~= before.insert(k as int, x));
            assert(bands@.take(i + 1) == bands@.take(i as int).push(x));
        }
        i = i + 1;
    }
    assert(bands@.take(n as int) == bands@);
    proof {
        let s = arranged(bands@, order@);
        assert(ascending(s) && s.to_multiset() == bands@.to_multiset());
        lemma_arrangement_unique(s, in_name_order(bands@));
        assert forall|i: int, j: int| 0 <= i < j < order@.len() implies precedes(
            bands@[#[trigger] order@[i] as int].name@,
            bands@[#[trigger] order@[j] as int].name@,
        ) by {
            assert(precedes(s[i].name@, s[j].name@));
        }
    }
    order
}

} // verus!
