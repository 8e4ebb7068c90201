//! Vectors used as finite sets.
//!
//! Variable names are held as `Vec<String>` and node indices as `Vec<usize>`,
//! both without repetitions.  The specification-level contents of such a
//! vector is a `Set`: [`name_set`] for names (each name viewed as its
//! character sequence) and the sequence itself for indices.

use vstd::prelude::*;

verus! {

/// The set of names held by `s`, each as its character sequence.
pub open spec fn name_set(s: Seq<String>) -> Set<Seq<char>> {
    Set::new(|x: Seq<char>| exists|i: int| 0 <= i < s.len() && s[i]@ == x)
}

/// No name occurs twice in `s`.
pub open spec fn no_dup_names(s: Seq<String>) -> bool {
    forall|i: int, j: int| #![trigger s[i], s[j]] 0 <= i < j < s.len() ==> s[i]@ != s[j]@
}

/// No index occurs twice in `s`.
pub open spec fn no_dup_idx(s: Seq<usize>) -> bool {
    forall|i: int, j: int| 0 <= i < j < s.len() ==> s[i] != s[j]
}

/// Appending one name adds exactly that name to the contents.
pub proof fn lemma_name_set_push(s: Seq<String>, x: String)
    ensures
        name_set(s.push(x)) == name_set(s).insert(x@),
{
    assert forall|y: Seq<char>| name_set(s.push(x)).contains(y) implies name_set(s).insert(
        x@,
    ).contains(y) by {
        let i = choose|i: int| 0 <= i < s.push(x).len() && s.push(x)[i]@ == y;
        if i < s.len() {
            assert(s[i]@ == y);
        } else {
            assert(x@ == y);
        }
    };
    assert forall|y: Seq<char>| name_set(s).insert(x@).contains(y) implies name_set(
        s.push(x),
    ).contains(y) by {
        if y == x@ {
            assert(s.push(x)[s.len() as int]@ == y);
        } else {
            let i = choose|i: int| 0 <= i < s.len() && s[i]@ == y;
            assert(s.push(x)[i]@ == y);
        }
    };
    assert(name_set(s.push(x)) =~= name_set(s).insert(x@));
}

/// A duplicate-free vector holds as many names as its contents has elements;
/// the contents is always finite and never larger than the vector.
pub proof fn lemma_name_set_card(s: Seq<String>)
    ensures
        name_set(s).finite(),
        name_set(s).len() <= s.len(),
        no_dup_names(s) ==> name_set(s).len() == s.len(),
    decreases s.len(),
{
    if s.len() == 0 {
        assert(name_set(s) =~= Set::<Seq<char>>::empty());
    } else {
        let rest = s.drop_last();
        lemma_name_set_card(rest);
        assert(rest.push(s.last()) =~= s);
        lemma_name_set_push(rest, s.last());
        assert(name_set(s) == name_set(rest).insert(s.last()@));
        if name_set(rest).contains(s.last()@) {
            let i = choose|i: int| 0 <= i < rest.len() && rest[i]@ == s.last()@;
            assert(s[i]@ == s[s.len() - 1]@);
            assert(!no_dup_names(s));
            assert(name_set(s) =~= name_set(rest));
        } else {
            assert(name_set(s).len() == name_set(rest).len() + 1);
            assert(no_dup_names(s) ==> no_dup_names(rest)) by {
                if no_dup_names(s) {
                    assert forall|i: int, j: int| 0 <= i < j < rest.len() implies rest[i]@
                        != rest[j]@ by {
                        assert(s[i]@ != s[j]@);
                    };
                }
            };
        }
    }
}

/// Whether the name `x` is among the contents of `v`.
pub fn contains_name(v: &Vec<String>, x: &String) -> (r: bool)
    ensures
        r == name_set(v@).contains(x@),
{
    let mut i: usize = 0;
    while i < v.len()
        invariant
            i <= v.len(),
            forall|k: int| 0 <= k < i ==> v@[k]@ != x@,
        decreases v.len() - i,
    {
        if v[i].eq(x) {
            return true;
        }
        i += 1;
    }
    proof {
        if name_set(v@).contains(x@) {
            let k = choose|k: int| 0 <= k < v@.len() && v@[k]@ == x@;
            assert(v@[k]@ != x@);
        }
    }
    false
}

/// Adds `x` to the contents of `v` (no change when already present).
pub fn insert_name(v: &mut Vec<String>, x: String)
    requires
        no_dup_names(old(v)@),
    ensures
        no_dup_names(final(v)@),
        name_set(final(v)@) == name_set(old(v)@).insert(x@),
{
    let present = contains_name(v, &x);
    if present {
        proof {
            assert(name_set(v@).insert(x@) =~= name_set(v@));
        }
    } else {
        let ghost pre = v@;
        v.push(x);
        proof {
            assert(v@ =~= pre.push(x));
            lemma_name_set_push(pre, x);
            assert forall|i: int, j: int| 0 <= i < j < v@.len() implies v@[i]@ != v@[j]@ by {
                if j < pre.len() {
                } else {
                    assert(v@[j]@ == x@);
                    assert(name_set(pre).contains(pre[i]@));
                }
            };
        }
    }
}

/// A copy of `v` holding equal strings.
pub fn copy_names(v: &Vec<String>) -> (r: Vec<String>)
    ensures
        r@ == v@,
{
    let mut r: Vec<String> = Vec::new();
    let mut i: usize = 0;
    while i < v.len()
        invariant
            i <= v.len(),
            r@ =~= v@.take(i as int),
        decreases v.len() - i,
    {
        r.push(v[i].clone());
        proof {
            assert(r@ =~= v@.take(i as int + 1));
        }
        i += 1;
    }
    proof {
        assert(v@.take(v@.len() as int) =~= v@);
    }
    r
}

/// Adds every name of `src` to the contents of `dst`.
pub fn union_into(dst: &mut Vec<String>, src: &Vec<String>)
    requires
        no_dup_names(old(dst)@),
    ensures
        no_dup_names(final(dst)@),
        name_set(final(dst)@) == name_set(old(dst)@).union(name_set(src@)),
{
    let mut i: usize = 0;
    while i < src.len()
        invariant
            i <= src.len(),
            no_dup_names(dst@),
            name_set(dst@) == name_set(old(dst)@).union(name_set(src@.take(i as int))),
        decreases src.len() - i,
    {
        proof {
            assert(name_set(src@.take(i as int)).finite()) by {
                lemma_name_set_card(src@.take(i as int));
            }
        }
        insert_name(dst, src[i].clone());
        proof {
            assert(src@.take(i as int).push(src@[i as int]) =~= src@.take(i as int + 1));
            lemma_name_set_push(src@.take(i as int), src@[i as int]);
            assert(name_set(dst@) =~= name_set(old(dst)@).union(name_set(src@.take(i as int + 1))));
        }
        i += 1;
    }
    proof {
        assert(src@.take(src@.len() as int) =~= src@);
    }
}

/// The names of `a` that are not names of `b`.
#[verifier::loop_isolation(false)]
pub fn diff_names(a: &Vec<String>, b: &Vec<String>) -> (r: Vec<String>)
    requires
        no_dup_names(a@),
    ensures
        no_dup_names(r@),
        name_set(r@) == name_set(a@).difference(name_set(b@)),
{
    let mut r: Vec<String> = Vec::new();
    let mut i: usize = 0;
    while i < a.len()
        invariant
            i <= a.len(),
            no_dup_names(r@),
            name_set(r@) == name_set(a@.take(i as int)).difference(name_set(b@)),
        decreases a.len() - i,
    {
        if !contains_name(b, &a[i]) {
            let ghost pre = r@;
            r.push(a[i].clone());
            proof {
                assert(r@ =~= pre.push(a@[i as int]));
                lemma_name_set_push(pre, a@[i as int]);
                assert forall|p: int, q: int| 0 <= p < q < r@.len() implies r@[p]@ != r@[q]@ by {
                    if q == r@.len() - 1 {
                        assert(r@[q]@ == a@[i as int]@);
                        assert(r@[p] == pre[p]);
                        assert(name_set(pre).contains(pre[p]@));
                        assert(name_set(pre) == name_set(a@.take(i as int)).difference(
                            name_set(b@),
                        ));
                        assert(name_set(a@.take(i as int)).contains(pre[p]@));
                        assert(a@.take(i as int).len() == i as int);
                        let k = choose|k: int|
                            0 <= k < a@.take(i as int).len() && a@.take(i as int)[k]@ == pre[p]@;
                        assert(a@.take(i as int)[k] == a@[k]);
                        assert(a@[k]@ == pre[p]@);
                        assert(0 <= k && k < i as int && (i as int) < a@.len());
                        assert(a@[k]@ != a@[i as int]@);
                    }
                };
            }
        }
        proof {
            assert(a@.take(i as int).push(a@[i as int]) =~= a@.take(i as int + 1));
            lemma_name_set_push(a@.take(i as int), a@[i as int]);
            assert(name_set(r@) =~= name_set(a@.take(i as int + 1)).difference(name_set(b@)));
        }
        i += 1;
    }
    proof {
        assert(a@.take(a@.len() as int) =~= a@);
    }
    r
}

/// Whether every name of `a` is a name of `b`.
pub fn subset_names(a: &Vec<String>, b: &Vec<String>) -> (r: bool)
    ensures
        r == name_set(a@).subset_of(name_set(b@)),
{
    let mut i: usize = 0;
    while i < a.len()
        invariant
            i <= a.len(),
            forall|k: int| 0 <= k < i ==> name_set(b@).contains(a@[k]@),
        decreases a.len() - i,
    {
        if !contains_name(b, &a[i]) {
            proof {
                assert(name_set(a@).contains(a@[i as int]@));
            }
            return false;
        }
        i += 1;
    }
    proof {
        assert forall|x: Seq<char>| name_set(a@).contains(x) implies name_set(b@).contains(x) by {
            let k = choose|k: int| 0 <= k < a@.len() && a@[k]@ == x;
            assert(name_set(b@).contains(a@[k]@));
        };
    }
    true
}

/// Whether `a` and `b` hold the same names.
pub fn same_names(a: &Vec<String>, b: &Vec<String>) -> (r: bool)
    ensures
        r == (name_set(a@) == name_set(b@)),
{
    let fwd = subset_names(a, b);
    let bwd = subset_names(b, a);
    proof {
        if fwd && bwd {
            assert(name_set(a@) =~= name_set(b@));
        }
    }
    fwd && bwd
}

/// Whether the index `x` occurs in `v`.
pub fn contains_idx(v: &Vec<usize>, x: usize) -> (r: bool)
    ensures
        r == v@.contains(x),
{
    let mut i: usize = 0;
    while i < v.len()
        invariant
            i <= v.len(),
            forall|k: int| 0 <= k < i ==> v@[k] != x,
        decreases v.len() - i,
    {
        if v[i] == x {
            return true;
        }
        i += 1;
    }
    false
}

/// Adds the index `x` to `v` (no change when already present).
pub fn insert_idx(v: &mut Vec<usize>, x: usize)
    requires
        no_dup_idx(old(v)@),
    ensures
        no_dup_idx(final(v)@),
        forall|y: usize| final(v)@.contains(y) <==> old(v)@.contains(y) || y == x,
{
    if !contains_idx(v, x) {
        let ghost pre = v@;
        v.push(x);
        proof {
            assert forall|y: usize| v@.contains(y) implies pre.contains(y) || y == x by {
                let k = choose|k: int| 0 <= k < v@.len() && v@[k] == y;
                if k < pre.len() {
                    assert(pre[k] == y);
                }
            };
            assert forall|y: usize| pre.contains(y) || y == x implies v@.contains(y) by {
                if pre.contains(y) {
                    let k = choose|k: int| 0 <= k < pre.len() && pre[k] == y;
                    assert(v@[k] == y);
                } else {
                    assert(v@[pre.len() as int] == y);
                }
            };
        }
    } else {
        proof {
            assert(v@.contains(x));
        }
    }
}

/// Removes the index `x` from `v` (no change when absent).
#[verifier::loop_isolation(false)]
pub fn remove_idx(v: &mut Vec<usize>, x: usize)
    requires
        no_dup_idx(old(v)@),
    ensures
        no_dup_idx(final(v)@),
        forall|y: usize| final(v)@.contains(y) <==> old(v)@.contains(y) && y != x,
{
    let mut i: usize = 0;
    while i < v.len()
        invariant
            i <= v@.len(),
            v@ == old(v)@,
            forall|k: int| 0 <= k < i ==> v@[k] != x,
        decreases v@.len() - i,
    {
        if v[i] == x {
            let ghost pre = v@;
            v.remove(i);
            proof {
                assert forall|y: usize| v@.contains(y) implies pre.contains(y) && y != x by {
                    let k = choose|k: int| 0 <= k < v@.len() && v@[k] == y;
                    if k < i {
                        assert(pre[k] == y);
                    } else {
                        assert(pre[k + 1] == y);
                    }
                };
                assert forall|y: usize| pre.contains(y) && y != x implies v@.contains(y) by {
                    let k = choose|k: int| 0 <= k < pre.len() && pre[k] == y;
                    if k < i {
                        assert(v@[k] == y);
                    } else {
                        assert(pre[i as int] == x);
                        assert(k != i);
                        assert(v@[k - 1] == y);
                    }
                };
                assert forall|p: int, q: int| 0 <= p < q < v@.len() implies v@[p] != v@[q] by {
                    let p0 = if p < i { p } else { p + 1 };
                    let q0 = if q < i { q } else { q + 1 };
                    assert(v@[p] == pre[p0] && v@[q] == pre[q0]);
                };
            }
            return ;
        }
        i += 1;
    }
    proof {
        assert forall|y: usize| #![trigger v@.contains(y)] v@.contains(y) implies y != x by {
            let k = choose|k: int| 0 <= k < v@.len() && v@[k] == y;
            assert(v@[k] != x);
        };
    }
}

/// The indices of `v` that are below `bound`, in order.
#[verifier::loop_isolation(false)]
pub fn filter_lt(v: &Vec<usize>, bound: usize) -> (r: Vec<usize>)
    requires
        no_dup_idx(v@),
    ensures
        no_dup_idx(r@),
        forall|y: usize| r@.contains(y) <==> v@.contains(y) && y < bound,
{
    let mut r: Vec<usize> = Vec::new();
    let mut i: usize = 0;
    while i < v.len()
        invariant
            i <= v@.len(),
            no_dup_idx(r@),
            forall|y: usize| r@.contains(y) <==> v@.take(i as int).contains(y) && y < bound,
        decreases v@.len() - i,
    {
        let ghost pre = r@;
        if v[i] < bound {
            r.push(v[i]);
            proof {
                assert forall|p: int, q: int| 0 <= p < q < r@.len() implies r@[p] != r@[q] by {
                    if q == r@.len() - 1 {
                        assert(pre.contains(pre[p]));
                        let k = choose|k: int|
                            0 <= k < v@.take(i as int).len() && v@.take(i as int)[k] == pre[p];
                        assert(v@[k] == pre[p]);
                        assert(v@[k] != v@[i as int]);
                    }
                };
            }
        }
        proof {
            assert forall|y: usize| r@.contains(y) implies v@.take(i as int + 1).contains(y) && y
                < bound by {
                let k = choose|k: int| 0 <= k < r@.len() && r@[k] == y;
                if k < pre.len() {
                    assert(pre.contains(y));
                    let m = choose|m: int|
                        0 <= m < v@.take(i as int).len() && v@.take(i as int)[m] == y;
                    assert(v@.take(i as int + 1)[m] == y);
                } else {
                    assert(y == v@[i as int]);
                    assert(v@.take(i as int + 1)[i as int] == y);
                }
            };
            assert forall|y: usize| #![trigger v@.take(i as int + 1).contains(y)] v@.take(
                i as int + 1,
            ).contains(y) && y < bound implies r@.contains(y) by {
                let k = choose|k: int|
                    0 <= k < v@.take(i as int + 1).len() && (#[trigger] v@.take(i as int + 1)[k])
                        == y;
                if k < i {
                    assert(v@.take(i as int).contains(y));
                    assert(pre.contains(y));
                    let m = choose|m: int| 0 <= m < pre.len() && pre[m] == y;
                    assert(r@[m] == y);
                } else {
                    assert(y == v@[i as int]);
                    assert(r@[r@.len() - 1] == y);
                }
            };
        }
        i += 1;
    }
    proof {
        assert(v@.take(v@.len() as int) =~= v@);
    }
    r
}

/// A copy of an index vector.
pub fn copy_idx(v: &Vec<usize>) -> (r: Vec<usize>)
    ensures
        r@ == v@,
{
    let mut r: Vec<usize> = Vec::new();
    let mut i: usize = 0;
    while i < v.len()
        invariant
            i <= v@.len(),
            r@ =~= v@.take(i as int),
        decreases v@.len() - i,
    {
        r.push(v[i]);
        proof {
            assert(r@ =~= v@.take(i as int + 1));
        }
        i += 1;
    }
    proof {
        assert(v@.take(v@.len() as int) =~= v@);
    }
    r
}

} // verus!
