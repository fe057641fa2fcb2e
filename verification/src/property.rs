//! The tokenized property handed in by the surrounding calendar layer: a
//! name, an optional raw value, and named parameters.
use vstd::prelude::*;

verus! {

/// One already-tokenized property: `name`, optional raw `value` text, and a
/// parameter list of `(name, values)` pairs.
pub struct Property {
    pub name: String,
    pub value: Option<String>,
    pub params: Option<Vec<(String, Vec<String>)>>,
}

/// The first value of the first parameter literally named `TZID`, if any.
pub open spec fn find_tzid(ps: Seq<(String, Vec<String>)>) -> Option<Seq<char>>
    decreases ps.len(),
{
    if ps.len() == 0 {
        None
    } else if ps[0].0@ == "TZID"@ {
        if ps[0].1.len() > 0 {
            Some(ps[0].1[0]@)
        } else {
            None
        }
    } else {
        find_tzid(ps.drop_first())
    }
}

/// The timezone identifier carried by a property's parameters, if any.
pub open spec fn spec_tzid(p: Property) -> Option<Seq<char>> {
    match p.params {
        Some(ps) => find_tzid(ps@),
        None => None,
    }
}

proof fn lemma_find_tzid_step(ps: Seq<(String, Vec<String>)>, i: int)
    requires
        0 <= i <= ps.len(),
        forall|j: int| 0 <= j < i ==> (#[trigger] ps[j]).0@ != "TZID"@,
    ensures
        find_tzid(ps) == find_tzid(ps.subrange(i, ps.len() as int)),
    decreases i,
{
    if i == 0 {
        assert(ps.subrange(0, ps.len() as int) =~= ps);
    } else {
        lemma_find_tzid_step(ps, i - 1);
        let t = ps.subrange(i - 1, ps.len() as int);
        assert(t[0] == ps[i - 1]);
        assert(t[0].0@ != "TZID"@);
        assert(t.drop_first() =~= ps.subrange(i, ps.len() as int));
        assert(find_tzid(t) == find_tzid(t.drop_first()));
    }
}

/// Extracts the timezone identifier parameter (`TZID`) of a property.
pub fn get_tzid(property: &Property) -> (r: Option<String>)
    ensures
        match r {
            Some(s) => spec_tzid(*property) == Some(s@),
            None => spec_tzid(*property) is None,
        },
{
    let key: String = "TZID".to_owned();
    match &property.params {
        None => None,
        Some(ps) => {
            let n = ps.len();
            let mut i: usize = 0;
            while i < n
                invariant
                    property.params == Some(*ps),
                    n == ps.len(),
                    i <= n,
                    forall|j: int| 0 <= j < i ==> (#[trigger] ps@[j]).0@ != "TZID"@,
                    key@ == "TZID"@,
                decreases n - i,
            {
                if ps[i].0 == key {
                    proof {
                        lemma_find_tzid_step(ps@, i as int);
                        let t = ps@.subrange(i as int, n as int);
                        assert(t[0] == ps@[i as int]);
                        assert(t[0].0@ == "TZID"@);
                        assert(find_tzid(ps@) == find_tzid(t));
                        assert(find_tzid(t) == if t[0].1.len() > 0 {
                            Some(t[0].1[0]@)
                        } else {
                            None
                        });
                    }
                    if ps[i].1.len() > 0 {
                        return Some(ps[i].1[0].clone());
                    } else {
                        return None;
                    }
                }
                i = i + 1;
            }
            proof {
                lemma_find_tzid_step(ps@, n as int);
                assert(ps@.subrange(n as int, n as int) =~= Seq::<(String, Vec<String>)>::empty());
            }
            None
        },
    }
}

} // verus!
