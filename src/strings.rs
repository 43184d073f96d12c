use vstd::prelude::*;

verus! {

/// The set of texts held by a vector of strings.
pub open spec fn strings_set(v: Seq<String>) -> Set<Seq<char>> {
    Set::new(|s: Seq<char>| exists|i: int| 0 <= i < v.len() && v[i]@ == s)
}

/// No text occurs twice in the vector.
pub open spec fn distinct_strings(v: Seq<String>) -> bool {
    forall|i: int, j: int| 0 <= i < v.len() && 0 <= j < v.len() && i != j ==> v[i]@ != v[j]@
}

pub fn contains_string(v: &Vec<String>, s: &String) -> (r: bool)
    ensures
        r == strings_set(v@).contains(s@),
{
    let mut i: usize = 0;
    while i < v.len()
        invariant
            0 <= i <= v.len(),
            forall|k: int| 0 <= k < i ==> v@[k]@ != s@,
        decreases v.len() - i,
    {
        if v[i] == *s {
            assert(v@[i as int]@ == s@);
            return true;
        }
        i += 1;
    }
    false
}

/// Adds `s` unless a string with the same text is already there.
pub fn add_string(v: &mut Vec<String>, s: String)
    requires
        distinct_strings(old(v)@),
    ensures
        distinct_strings(final(v)@),
        strings_set(final(v)@) == strings_set(old(v)@).insert(s@),
{
    if contains_string(v, &s) {
        assert(strings_set(v@) =~= strings_set(v@).insert(s@));
    } else {
        let ghost before = v@;
        v.push(s);
        assert(v@[before.len() as int] == s);
        assert(strings_set(v@) =~= strings_set(before).insert(s@)) by {
            assert forall|t: Seq<char>| strings_set(before).insert(s@).contains(t) implies
                strings_set(v@).contains(t) by {
                if t != s@ {
                    let i = choose|i: int| 0 <= i < before.len() && before[i]@ == t;
                    assert(v@[i]@ == t);
                }
            }
        }
    }
}

/// Adds every string of `w` to `v`, keeping `v` free of repeated texts.
pub fn add_all_strings(v: &mut Vec<String>, w: &Vec<String>)
    requires
        distinct_strings(old(v)@),
    ensures
        distinct_strings(final(v)@),
        strings_set(final(v)@) == strings_set(old(v)@).union(strings_set(w@)),
{
    let ghost start = strings_set(v@);
    let mut i: usize = 0;
    while i < w.len()
        invariant
            0 <= i <= w.len(),
            distinct_strings(v@),
            strings_set(v@) == start.union(strings_set(w@.subrange(0, i as int))),
        decreases w.len() - i,
    {
        let ghost before = strings_set(v@);
        add_string(v, w[i].clone());
        let ghost lo = w@.subrange(0, i as int);
        let ghost hi = w@.subrange(0, i + 1);
        assert(strings_set(hi) =~= strings_set(lo).insert(w@[i as int]@)) by {
            assert(hi[i as int] == w@[i as int]);
            assert forall|t: Seq<char>| strings_set(hi).contains(t) implies
                strings_set(lo).insert(w@[i as int]@).contains(t) by {
                let k = choose|k: int| 0 <= k < hi.len() && #[trigger] hi[k]@ == t;
                if k < i {
                    assert(lo[k] == hi[k]);
                }
            }
            assert forall|t: Seq<char>| strings_set(lo).contains(t) implies
                strings_set(hi).contains(t) by {
                let k = choose|k: int| 0 <= k < lo.len() && #[trigger] lo[k]@ == t;
                assert(hi[k] == lo[k]);
            }
        }
        i += 1;
    }
    assert(w@.subrange(0, w.len() as int) =~= w@);
}

} // verus!
