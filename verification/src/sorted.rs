use crate::board::Pos;
use vstd::prelude::*;

verus! {

/// Whether `a` comes before `b`: by the abscissa first, then by the ordinate.
pub open spec fn before(a: Pos, b: Pos) -> bool {
    a.0 < b.0 || (a.0 == b.0 && a.1 < b.1)
}

/// Whether the positions stand in rising order with none of them twice.
pub open spec fn rising_points(s: Seq<Pos>) -> bool {
    forall|i: int, j: int| 0 <= i < j < s.len() ==> before(s[i], s[j])
}

/// Whether the numbers stand in rising order with none of them twice.
pub open spec fn rising(s: Seq<i64>) -> bool {
    forall|i: int, j: int| 0 <= i < j < s.len() ==> s[i] < s[j]
}

/// Puts `p` in its place in a rising list, unless the list holds it already.
pub fn insert_point(v: &mut Vec<Pos>, p: Pos)
    requires
        rising_points(old(v)@),
    ensures
        rising_points(final(v)@),
        forall|q: Pos| #[trigger] final(v)@.contains(q) <==> old(v)@.contains(q) || q == p,
        final(v)@.len() == old(v)@.len() + (if old(v)@.contains(p) {
            0int
        } else {
            1int
        }),
{
    let mut i: usize = 0;
    while i < v.len() && (v[i].0 < p.0 || (v[i].0 == p.0 && v[i].1 < p.1))
        invariant
            i <= v@.len(),
            v@ == old(v)@,
            rising_points(v@),
            forall|j: int| 0 <= j < i ==> before(#[trigger] v@[j], p),
        decreases v@.len() - i,
    {
        i = i + 1;
    }
    if i < v.len() && v[i].0 == p.0 && v[i].1 == p.1 {
        assert(v@[i as int] == p);
        return ;
    }
    proof {
        if old(v)@.contains(p) {
            let j = choose|j: int| 0 <= j < old(v)@.len() && old(v)@[j] == p;
            if j < i {
                assert(before(old(v)@[j], p));
            } else if j > i {
                assert(before(old(v)@[i as int], old(v)@[j]));
            }
        }
    }
    v.insert(i, p);
    proof {
        let a = old(v)@;
        let b = v@;
        assert(b[i as int] == p);
        assert forall|q: Pos| b.contains(q) <==> a.contains(q) || q == p by {
            if b.contains(q) {
                let j = choose|j: int| 0 <= j < b.len() && b[j] == q;
                if j < i {
                    assert(a[j] == q);
                } else if j > i {
                    assert(a[j - 1] == q);
                }
            }
            if a.contains(q) {
                let j = choose|j: int| 0 <= j < a.len() && a[j] == q;
                if j < i {
                    assert(b[j] == q);
                } else {
                    assert(b[j + 1] == q);
                }
            }
        }
        assert forall|j: int, k: int| 0 <= j < k < b.len() implies before(b[j], b[k]) by {
            let x = if j < i {
                a[j]
            } else if j == i {
                p
            } else {
                a[j - 1]
            };
            let y = if k < i {
                a[k]
            } else if k == i {
                p
            } else {
                a[k - 1]
            };
            assert(b[j] == x && b[k] == y);
            if k > i && j < i {
                assert(before(a[j], a[k - 1]) || j == k - 1);
            }
            if j == i && k > i {
                assert(k - 1 >= i);
                if k - 1 > i {
                    assert(before(a[i as int], a[k - 1]));
                }
            }
        }
    }
}

/// Puts `x` in its place in a rising list, unless the list holds it already.
pub fn insert_number(v: &mut Vec<i64>, x: i64)
    requires
        rising(old(v)@),
    ensures
        rising(final(v)@),
        forall|q: i64| final(v)@.contains(q) <==> old(v)@.contains(q) || q == x,
{
    let mut i: usize = 0;
    while i < v.len() && v[i] < x
        invariant
            i <= v@.len(),
            v@ == old(v)@,
            rising(v@),
            forall|j: int| 0 <= j < i ==> (#[trigger] v@[j]) < x,
        decreases v@.len() - i,
    {
        i = i + 1;
    }
    if i < v.len() && v[i] == x {
        return ;
    }
    v.insert(i, x);
    proof {
        let a = old(v)@;
        let b = v@;
        assert(b[i as int] == x);
        assert forall|q: i64| b.contains(q) <==> a.contains(q) || q == x by {
            if b.contains(q) {
                let j = choose|j: int| 0 <= j < b.len() && b[j] == q;
                if j < i {
                    assert(a[j] == q);
                } else if j > i {
                    assert(a[j - 1] == q);
                }
            }
            if a.contains(q) {
                let j = choose|j: int| 0 <= j < a.len() && a[j] == q;
                if j < i {
                    assert(b[j] == q);
                } else {
                    assert(b[j + 1] == q);
                }
            }
        }
        assert forall|j: int, k: int| 0 <= j < k < b.len() implies b[j] < b[k] by {
            if j < i && k > i {
                assert(b[j] == a[j] && b[k] == a[k - 1]);
            } else if j > i {
                assert(b[j] == a[j - 1] && b[k] == a[k - 1]);
            } else if k < i {
                assert(b[j] == a[j] && b[k] == a[k]);
            } else if j == i {
                assert(b[k] == a[k - 1]);
                assert(a[i as int] <= a[k - 1]);
            }
        }
    }
}

} // verus!
