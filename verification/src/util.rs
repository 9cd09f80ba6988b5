use vstd::prelude::*;

verus! {

/// Whether `x` occurs in `v`.
pub fn contains_u32(v: &Vec<u32>, x: u32) -> (r: bool)
    ensures
        r == v@.contains(x),
{
    let mut i: usize = 0;
    while i < v.len()
        invariant
            i <= v.len(),
            forall|j: int| 0 <= j < i ==> v@[j] != x,
        decreases v.len() - i,
    {
        if v[i] == x {
            return true;
        }
        i += 1;
    }
    false
}

/// Whether `x` occurs in `v`.
pub fn contains_usize(v: &Vec<usize>, x: usize) -> (r: bool)
    ensures
        r == v@.contains(x),
{
    let mut i: usize = 0;
    while i < v.len()
        invariant
            i <= v.len(),
            forall|j: int| 0 <= j < i ==> v@[j] != x,
        decreases v.len() - i,
    {
        if v[i] == x {
            return true;
        }
        i += 1;
    }
    false
}

/// The position of the first occurrence of `x` in `v`.
pub fn position_u32(v: &Vec<u32>, x: u32) -> (r: usize)
    requires
        v@.contains(x),
    ensures
        r < v.len(),
        v@[r as int] == x,
        forall|j: int| 0 <= j < r ==> v@[j] != x,
{
    let mut i: usize = 0;
    while i < v.len()
        invariant
            i <= v.len(),
            v@.contains(x),
            forall|j: int| 0 <= j < i ==> v@[j] != x,
        decreases v.len() - i,
    {
        if v[i] == x {
            return i;
        }
        i += 1;
    }
    proof {
        let k = choose|k: int| 0 <= k < v.len() && v@[k] == x;
        assert(v@[k] != x);
    }
    0
}

/// Removes the single occurrence of `x` from the duplicate-free `v`.
pub fn remove_value(v: &mut Vec<u32>, x: u32)
    requires
        old(v)@.no_duplicates(),
        old(v)@.contains(x),
    ensures
        final(v)@.no_duplicates(),
        forall|w: u32| final(v)@.contains(w) <==> (old(v)@.contains(w) && w != x),
        final(v)@.len() == old(v)@.len() - 1,
        exists|k: int| 0 <= k < old(v)@.len() && old(v)@[k] == x && final(v)@ == old(v)@.remove(k),
{
    let pos = position_u32(v, x);
    let ghost s = v@;
    v.remove(pos);
    proof {
        let t = v@;
        assert(t =~= s.remove(pos as int));
        assert forall|w: u32| t.contains(w) <==> (s.contains(w) && w != x) by {
            if t.contains(w) {
                let k = choose|k: int| 0 <= k < t.len() && t[k] == w;
                if k < pos {
                    assert(s[k] == w);
                    assert(k != pos);
                } else {
                    assert(s[k + 1] == w);
                    assert(k + 1 != pos);
                }
            }
            if s.contains(w) && w != x {
                let k = choose|k: int| 0 <= k < s.len() && s[k] == w;
                assert(k != pos);
                if k < pos {
                    assert(t[k] == w);
                } else {
                    assert(t[k - 1] == w);
                }
            }
        }
        assert forall|i: int, j: int| 0 <= i < t.len() && 0 <= j < t.len() && i != j implies t[i] != t[j] by {
            let i2 = if i < pos { i } else { i + 1 };
            let j2 = if j < pos { j } else { j + 1 };
            assert(t[i] == s[i2] && t[j] == s[j2]);
        }
    }
}

/// Appends `x` to the duplicate-free `v` unless it is already there.
pub fn push_absent(v: &mut Vec<u32>, x: u32)
    requires
        old(v)@.no_duplicates(),
    ensures
        final(v)@.no_duplicates(),
        forall|w: u32| final(v)@.contains(w) <==> (old(v)@.contains(w) || w == x),
        final(v)@ == (if old(v)@.contains(x) { old(v)@ } else { old(v)@.push(x) }),
{
    if !contains_u32(v, x) {
        let ghost s = v@;
        v.push(x);
        proof {
            assert forall|w: u32| v@.contains(w) <==> (s.contains(w) || w == x) by {
                if v@.contains(w) {
                    let k = choose|k: int| 0 <= k < v@.len() && v@[k] == w;
                    if k < s.len() {
                        assert(s[k] == w);
                    }
                }
                if s.contains(w) {
                    let k = choose|k: int| 0 <= k < s.len() && s[k] == w;
                    assert(v@[k] == w);
                }
                if w == x {
                    assert(v@[s.len() as int] == x);
                }
            }
        }
    }
}

} // verus!
