//! Relabelling of community assignments: the raw community numbers that a
//! clustering pass leaves behind become the contiguous labels `0..k`, in the
//! order in which the communities first appear.

use std::collections::HashMap;

use vstd::prelude::*;

verus! {

broadcast use vstd::std_specs::hash::group_hash_axioms;

/// The distinct values of `s`, in the order of their first appearance.
pub open spec fn first_seen(s: Seq<usize>) -> Seq<usize>
    decreases s.len(),
{
    if s.len() == 0 {
        s
    } else {
        let prev = first_seen(s.drop_last());
        if prev.contains(s.last()) {
            prev
        } else {
            prev.push(s.last())
        }
    }
}

/// Every value of `s` is first seen once, and only values of `s` are.
pub proof fn lemma_first_seen(s: Seq<usize>)
    ensures
        first_seen(s).no_duplicates(),
        forall|i: int| 0 <= i < s.len() ==> first_seen(s).contains(#[trigger] s[i]),
        forall|j: int| 0 <= j < first_seen(s).len() ==> s.contains(#[trigger] first_seen(s)[j]),
    decreases s.len(),
{
    if s.len() > 0 {
        let d = s.drop_last();
        lemma_first_seen(d);
        assert forall|i: int| 0 <= i < s.len() implies first_seen(s).contains(#[trigger] s[i]) by {
            if i < s.len() - 1 {
                assert(d[i] == s[i]);
                assert(first_seen(d).contains(s[i]));
                if !first_seen(d).contains(s.last()) {
                    let w = choose|w: int| 0 <= w < first_seen(d).len() && first_seen(d)[w] == s[i];
                    assert(first_seen(s)[w] == s[i]);
                }
            } else if !first_seen(d).contains(s.last()) {
                assert(first_seen(s)[first_seen(s).len() - 1] == s[i]);
            }
        }
        assert forall|j: int| 0 <= j < first_seen(s).len() implies s.contains(#[trigger] first_seen(s)[j]) by {
            if j < first_seen(d).len() {
                assert(first_seen(s)[j] == first_seen(d)[j]);
                assert(d.contains(first_seen(d)[j]));
                let w = choose|w: int| 0 <= w < d.len() && d[w] == first_seen(d)[j];
                assert(s[w] == d[w]);
            } else {
                assert(s[s.len() - 1] == first_seen(s)[j]);
            }
        }
    }
}

/// Replace each raw community number by its contiguous label: the position
/// of the community among the communities in order of first appearance.
pub fn compact_labels(raw: &Vec<usize>) -> (r: Vec<usize>)
    ensures
        r@.len() == raw@.len(),
        first_seen(raw@).no_duplicates(),
        forall|i: int|
            0 <= i < raw@.len() ==> {
                &&& #[trigger] r@[i] < first_seen(raw@).len()
                &&& first_seen(raw@)[r@[i] as int] == raw@[i]
            },
{
    let mut label_map: HashMap<usize, usize> = HashMap::new();
    let mut next_label: usize = 0;
    let mut out: Vec<usize> = Vec::new();
    let mut i: usize = 0;
    proof {
        lemma_first_seen(raw@);
        assert(raw@.take(0) =~= Seq::<usize>::empty());
    }
    while i < raw.len()
        invariant
            i <= raw@.len(),
            out@.len() == i,
            first_seen(raw@.take(i as int)).no_duplicates(),
            next_label == first_seen(raw@.take(i as int)).len(),
            forall|v: usize| #[trigger] label_map@.contains_key(v) <==> first_seen(raw@.take(i as int)).contains(v),
            forall|j: int|
                0 <= j < first_seen(raw@.take(i as int)).len() ==> label_map@[#[trigger] first_seen(raw@.take(i as int))[j]] == j,
            forall|t: int|
                0 <= t < i ==> {
                    &&& #[trigger] out@[t] < first_seen(raw@.take(i as int)).len()
                    &&& first_seen(raw@.take(i as int))[out@[t] as int] == raw@[t]
                },
        decreases raw@.len() - i,
    {
        let ghost pre = raw@.take(i as int);
        let ghost post = raw@.take(i + 1);
        let v = raw[i];
        proof {
            assert(post.drop_last() =~= pre);
            assert(post.last() == v);
            lemma_first_seen(post);
            lemma_first_seen(pre);
            assert(first_seen(pre).len() <= pre.len()) by {
                lemma_first_seen_len(pre);
            }
        }
        let label = match label_map.get(&v) {
            Some(l) => {
                proof {
                    let fs = first_seen(pre);
                    let w = choose|w: int| 0 <= w < fs.len() && fs[w] == v;
                    assert(label_map@[fs[w]] == w);
                }
                *l
            },
            None => {
                let l = next_label;
                label_map.insert(v, l);
                next_label = next_label + 1;
                proof {
                    let fs = first_seen(pre);
                    assert(first_seen(post) == fs.push(v));
                    assert forall|j: int| 0 <= j < first_seen(post).len()
                        implies label_map@[#[trigger] first_seen(post)[j]] == j by {
                        if j < fs.len() {
                            assert(first_seen(post)[j] == fs[j]);
                            assert(fs[j] != v);
                        }
                    }
                }
                l
            },
        };
        out.push(label);
        proof {
            let fs = first_seen(pre);
            assert forall|t: int| 0 <= t < i + 1 implies {
                &&& #[trigger] out@[t] < first_seen(post).len()
                &&& first_seen(post)[out@[t] as int] == raw@[t]
            } by {
                if t < i {
                    assert(first_seen(post)[out@[t] as int] == fs[out@[t] as int]);
                }
            }
        }
        i = i + 1;
    }
    proof {
        assert(raw@.take(raw@.len() as int) =~= raw@);
    }
    out
}

proof fn lemma_first_seen_len(s: Seq<usize>)
    ensures
        first_seen(s).len() <= s.len(),
    decreases s.len(),
{
    if s.len() > 0 {
        lemma_first_seen_len(s.drop_last());
    }
}

} // verus!
