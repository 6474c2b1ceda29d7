//! The objects that depend on an object of a scene, directly or through
//! other objects: what has to go when the object goes.

use vstd::prelude::*;
use crate::scene_kinds::same_text;
use crate::scene_object::strings_view;

verus! {

/// Some name among `ds` is in `s`.
pub open spec fn depends_on_any(ds: Seq<Seq<char>>, s: Set<Seq<char>>) -> bool {
    exists|k: int| 0 <= k < ds.len() && s.contains(#[trigger] ds[k])
}

/// `s` holds `target` and every object that depends on a name in `s`.
pub open spec fn closed_under_deps(
    names: Seq<Seq<char>>,
    deps: Seq<Seq<Seq<char>>>,
    target: Seq<char>,
    s: Set<Seq<char>>,
) -> bool {
    &&& s.contains(target)
    &&& forall|i: int|
        0 <= i < names.len() && i < deps.len() && depends_on_any(#[trigger] deps[i], s) ==> s.contains(names[i])
}

/// The names of each object's dependencies, as texts.
pub open spec fn deps_view(deps: Seq<Vec<String>>) -> Seq<Seq<Seq<char>>> {
    Seq::new(deps.len(), |i: int| strings_view(deps[i]@))
}

/// `target` and the names of the objects marked in `marked`.
pub open spec fn marked_set(names: Seq<Seq<char>>, marked: Seq<bool>, target: Seq<char>) -> Set<Seq<char>> {
    Set::new(|x: Seq<char>| x == target || exists|j: int| 0 <= j < marked.len() && j < names.len() && marked[j] && #[trigger] names[j] == x)
}

/// Every name marked belongs to each set closed under the dependencies.
pub open spec fn marks_forced(
    names: Seq<Seq<char>>,
    deps: Seq<Seq<Seq<char>>>,
    marked: Seq<bool>,
    target: Seq<char>,
) -> bool {
    forall|j: int, s: Set<Seq<char>>|
        0 <= j < marked.len() && marked[j] && #[trigger] closed_under_deps(names, deps, target, s) ==> s.contains(
            #[trigger] names[j],
        )
}

/// The names in a list, as a set.
pub open spec fn name_set(r: Seq<Seq<char>>) -> Set<Seq<char>> {
    Set::new(|x: Seq<char>| r.contains(x))
}

/// How many of `m[..k]` are marked.
pub open spec fn count_marked(m: Seq<bool>, k: int) -> int
    decreases k,
{
    if k <= 0 {
        0
    } else {
        count_marked(m, k - 1) + (if m[k - 1] {
            1int
        } else {
            0
        })
    }
}

/// Marking one more object raises the count by one, and the count stays
/// within the number of objects.
proof fn lemma_count_marked(m: Seq<bool>, q: int, k: int)
    requires
        0 <= q < m.len(),
        0 <= k <= m.len(),
        !m[q],
    ensures
        count_marked(m.update(q, true), k) == count_marked(m, k) + (if q < k {
            1int
        } else {
            0
        }),
        0 <= count_marked(m, k) <= k,
    decreases k,
{
    if k > 0 {
        lemma_count_marked(m, q, k - 1);
    }
}

/// The count stays within the number of objects looked at.
proof fn lemma_count_bounds(m: Seq<bool>, k: int)
    requires
        0 <= k <= m.len(),
    ensures
        0 <= count_marked(m, k) <= k,
    decreases k,
{
    if k > 0 {
        lemma_count_bounds(m, k - 1);
    }
}

/// Whether `x` is `target` or the name of a marked object.
fn in_marked(names: &Vec<String>, marked: &Vec<bool>, target: &str, x: &str) -> (r: bool)
    requires
        names@.len() == marked@.len(),
    ensures
        r == marked_set(strings_view(names@), marked@, target@).contains(x@),
{
    if same_text(x, target) {
        return true;
    }
    let ghost ns = strings_view(names@);
    let mut j: usize = 0;
    while j < names.len()
        invariant
            ns == strings_view(names@),
            names@.len() == marked@.len(),
            j <= names@.len(),
            x@ != target@,
            forall|q: int| 0 <= q < j ==> !(marked@[q] && #[trigger] ns[q] == x@),
        decreases names@.len() - j,
    {
        if marked[j] && same_text(names[j].as_str(), x) {
            assert(ns[j as int] == x@);
            return true;
        }
        j = j + 1;
    }
    false
}

/// Whether some dependency of an object is `target` or a marked name.
fn any_marked(names: &Vec<String>, marked: &Vec<bool>, target: &str, ds: &Vec<String>) -> (r: bool)
    requires
        names@.len() == marked@.len(),
    ensures
        r == depends_on_any(strings_view(ds@), marked_set(strings_view(names@), marked@, target@)),
{
    let ghost s = marked_set(strings_view(names@), marked@, target@);
    let ghost dv = strings_view(ds@);
    let mut k: usize = 0;
    while k < ds.len()
        invariant
            dv == strings_view(ds@),
            s == marked_set(strings_view(names@), marked@, target@),
            names@.len() == marked@.len(),
            k <= ds@.len(),
            forall|q: int| 0 <= q < k ==> !s.contains(#[trigger] dv[q]),
        decreases ds@.len() - k,
    {
        if in_marked(names, marked, target, ds[k].as_str()) {
            assert(s.contains(dv[k as int]));
            return true;
        }
        k = k + 1;
    }
    false
}

/// The name of `target` and those of the objects that depend on it, directly
/// or through other objects: `names[i]` is an object's name and `deps[i]` the
/// names it depends on. The result, as a set, is the least one that holds
/// `target` and every object that depends on one of its names; `target`
/// comes first, then the names in the order of `names`.
pub fn dependent_objects(names: &Vec<String>, deps: &Vec<Vec<String>>, target: &str) -> (r: Vec<String>)
    requires
        names@.len() == deps@.len(),
    ensures
        closed_under_deps(strings_view(names@), deps_view(deps@), target@, name_set(strings_view(r@))),
        forall|s: Set<Seq<char>>|
            #[trigger] closed_under_deps(strings_view(names@), deps_view(deps@), target@, s) ==> name_set(
                strings_view(r@),
            ).subset_of(s),
{
    let ghost ns = strings_view(names@);
    let ghost dv = deps_view(deps@);
    let n = names.len();
    let mut marked: Vec<bool> = Vec::new();
    let mut i: usize = 0;
    while i < n
        invariant
            n == names@.len(),
            ns == strings_view(names@),
            i <= n,
            marked@.len() == i,
            forall|q: int| 0 <= q < i ==> #[trigger] marked@[q] == (ns[q] == target@),
        decreases n - i,
    {
        let m = same_text(names[i].as_str(), target);
        marked.push(m);
        i = i + 1;
    }
    proof {
        assert forall|j: int, s: Set<Seq<char>>|
            0 <= j < marked@.len() && marked@[j] && #[trigger] closed_under_deps(ns, dv, target@, s) implies s.contains(
                #[trigger] ns[j],
            ) by {
            assert(ns[j] == target@);
        }
    }
    let mut changed = true;
    while changed
        invariant
            n == names@.len(),
            n == deps@.len(),
            ns == strings_view(names@),
            dv == deps_view(deps@),
            marked@.len() == n,
            marks_forced(ns, dv, marked@, target@),
            !changed ==> forall|q: int|
                0 <= q < n ==> marked@[q] || !depends_on_any(#[trigger] dv[q], marked_set(ns, marked@, target@)),
        decreases n - count_marked(marked@, n as int), (if changed {
            1int
        } else {
            0int
        }),
    {
        let ghost count0 = count_marked(marked@, n as int);
        proof {
            assert forall|k: int| 0 <= k <= n implies 0 <= #[trigger] count_marked(marked@, k) <= k by {
                lemma_count_bounds(marked@, k);
            }
        }
        changed = false;
        let mut q: usize = 0;
        while q < n
            invariant
                n == names@.len(),
                n == deps@.len(),
                ns == strings_view(names@),
                dv == deps_view(deps@),
                marked@.len() == n,
                q <= n,
                marks_forced(ns, dv, marked@, target@),
                !changed ==> forall|t: int|
                    0 <= t < q ==> marked@[t] || !depends_on_any(#[trigger] dv[t], marked_set(ns, marked@, target@)),
                count_marked(marked@, n as int) >= count0,
                changed ==> count_marked(marked@, n as int) > count0,
                count_marked(marked@, n as int) <= n,
            decreases n - q,
        {
            if !marked[q] {
                assert(dv[q as int] == strings_view(deps@[q as int]@));
                if any_marked(names, &marked, target, &deps[q]) {
                    let ghost before = marked@;
                    marked.set(q, true);
                    proof {
                        lemma_count_marked(before, q as int, n as int);
                        lemma_count_bounds(marked@, n as int);
                        assert forall|j: int, s: Set<Seq<char>>|
                            0 <= j < marked@.len() && marked@[j] && #[trigger] closed_under_deps(ns, dv, target@, s)
                                implies s.contains(#[trigger] ns[j]) by {
                            if j != q {
                                assert(before[j]);
                            } else {
                                let sm = marked_set(ns, before, target@);
                                let k = choose|k: int| 0 <= k < dv[j].len() && sm.contains(#[trigger] dv[j][k]);
                                let x = dv[j][k];
                                if x != target@ {
                                    let j2 = choose|j2: int| 0 <= j2 < before.len() && j2 < ns.len() && before[j2] && #[trigger] ns[j2] == x;
                                    assert(s.contains(ns[j2]));
                                }
                                assert(s.contains(x));
                                assert(depends_on_any(dv[j], s));
                            }
                        }
                    }
                    changed = true;
                }
            }
            q = q + 1;
        }
    }
    let mut r: Vec<String> = Vec::new();
    r.push(String::from_str(target));
    let mut j: usize = 0;
    proof {
        assert forall|x: Seq<char>| #[trigger] name_set(strings_view(r@)).contains(x) == marked_set(
            ns,
            marked@.take(0),
            target@,
        ).contains(x) by {
            if x == target@ {
                assert(strings_view(r@)[0] == x);
            }
        }
        assert(name_set(strings_view(r@)) =~= marked_set(ns, marked@.take(0), target@));
    }
    while j < n
        invariant
            n == names@.len(),
            ns == strings_view(names@),
            marked@.len() == n,
            j <= n,
            r@.len() >= 1,
            strings_view(r@)[0] == target@,
            name_set(strings_view(r@)) == marked_set(ns, marked@.take(j as int), target@),
        decreases n - j,
    {
        let ghost before = strings_view(r@);
        let ghost m0 = marked@.take(j as int);
        let ghost m1 = marked@.take(j as int + 1);
        if marked[j] && !same_text(names[j].as_str(), target) {
            r.push(String::from_str(names[j].as_str()));
            assert(strings_view(r@) =~= before.push(ns[j as int]));
        }
        proof {
            let rv = strings_view(r@);
            assert forall|x: Seq<char>| #[trigger] name_set(rv).contains(x) == marked_set(ns, m1, target@).contains(x) by {
                if marked_set(ns, m0, target@).contains(x) && x != target@ {
                    let j2 = choose|j2: int| 0 <= j2 < m0.len() && j2 < ns.len() && m0[j2] && #[trigger] ns[j2] == x;
                    assert(m1[j2]);
                }
                if marked_set(ns, m1, target@).contains(x) && x != target@ {
                    let j2 = choose|j2: int| 0 <= j2 < m1.len() && j2 < ns.len() && m1[j2] && #[trigger] ns[j2] == x;
                    if j2 < j {
                        assert(m0[j2]);
                    }
                }
                if rv.contains(x) && !before.contains(x) {
                    assert(x == ns[j as int]);
                    assert(m1[j as int]);
                }
                if before.contains(x) {
                    let k = choose|k: int| 0 <= k < before.len() && before[k] == x;
                    assert(rv[k] == x);
                }
                if x == ns[j as int] && marked@[j as int] && x != target@ {
                    assert(rv[rv.len() - 1] == x);
                }
                if x == target@ {
                    assert(before[0] == x);
                    assert(rv[0] == x);
                }
            }
            assert(name_set(rv) =~= marked_set(ns, m1, target@));
        }
        j = j + 1;
    }
    proof {
        assert(marked@.take(n as int) =~= marked@);
        let sm = marked_set(ns, marked@, target@);
        assert forall|q: int|
            0 <= q < ns.len() && q < dv.len() && depends_on_any(#[trigger] dv[q], sm) implies sm.contains(ns[q]) by {
            assert(marked@[q]);
        }
        assert forall|s: Set<Seq<char>>| #[trigger] closed_under_deps(ns, dv, target@, s) implies sm.subset_of(s) by {
            assert forall|x: Seq<char>| sm.contains(x) implies s.contains(x) by {
                if x != target@ {
                    let j2 = choose|j2: int| 0 <= j2 < marked@.len() && j2 < ns.len() && marked@[j2] && #[trigger] ns[j2] == x;
                    assert(s.contains(ns[j2]));
                }
            }
        }
    }
    r
}

} // verus!
