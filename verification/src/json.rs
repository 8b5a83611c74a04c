//! A JSON object as the graph's property updates see it: named fields with
//! distinct names, and the shallow merge that property updates use (each
//! field of the patch is inserted or overwrites the field of that name).

use vstd::prelude::*;

verus! {

/// The names of a sequence of fields, in order.
pub open spec fn field_names<V>(s: Seq<(String, V)>) -> Seq<Seq<char>> {
    s.map_values(|f: (String, V)| f.0@)
}

/// The map from names to values that a sequence of fields with distinct
/// names stands for.
pub open spec fn field_map<V>(s: Seq<(String, V)>) -> Map<Seq<char>, V> {
    Map::new(
        |k: Seq<char>| field_names(s).contains(k),
        |k: Seq<char>| s[field_names(s).index_of(k)].1,
    )
}

/// In a sequence with distinct names, the field at `i` is the one the map
/// holds for its name.
pub proof fn lemma_field_map_entry<V>(s: Seq<(String, V)>, i: int)
    requires
        field_names(s).no_duplicates(),
        0 <= i < s.len(),
    ensures
        field_map(s).contains_key(s[i].0@),
        field_map(s)[s[i].0@] == s[i].1,
{
    let names = field_names(s);
    assert(names[i] == s[i].0@);
    assert(names.contains(s[i].0@));
    let j = names.index_of(s[i].0@);
    assert(names[j] == s[i].0@);
}

/// A JSON object: fields with distinct names, in the order they were added.
pub struct JsonObject<V> {
    fields: Vec<(String, V)>,
}

impl<V> View for JsonObject<V> {
    type V = Map<Seq<char>, V>;

    closed spec fn view(&self) -> Map<Seq<char>, V> {
        field_map(self.fields@)
    }
}

impl<V> JsonObject<V> {
    #[verifier::type_invariant]
    spec fn distinct_names(self) -> bool {
        field_names(self.fields@).no_duplicates()
    }

    /// An object with no fields.
    pub fn new() -> (r: Self)
        ensures
            r@ == Map::<Seq<char>, V>::empty(),
    {
        let r = JsonObject { fields: Vec::new() };
        assert(field_map(r.fields@) =~= Map::<Seq<char>, V>::empty());
        r
    }

    fn find_in(fields: &Vec<(String, V)>, name: &String) -> (r: Option<usize>)
        ensures
            r matches Some(i) ==> i < fields@.len() && fields@[i as int].0@ == name@,
            r is None ==> !field_names(fields@).contains(name@),
    {
        let mut i: usize = 0;
        while i < fields.len()
            invariant
                i <= fields@.len(),
                forall|j: int| 0 <= j < i ==> fields@[j].0@ != name@,
            decreases fields@.len() - i,
        {
            if fields[i].0 == *name {
                return Some(i);
            }
            i = i + 1;
        }
        proof {
            if field_names(fields@).contains(name@) {
                let j = field_names(fields@).index_of(name@);
                assert(fields@[j].0@ == name@);
            }
        }
        None
    }

    /// Set the field `name` to `value`, overwriting a field of that name.
    pub fn insert(&mut self, name: String, value: V)
        ensures
            final(self)@ == old(self)@.insert(name@, value),
    {
        proof { use_type_invariant(&*self); }
        let ghost old_s = self.fields@;
        let ghost k = name@;
        let mut fields: Vec<(String, V)> = Vec::new();
        std::mem::swap(&mut fields, &mut self.fields);
        match Self::find_in(&fields, &name) {
            Some(i) => {
                fields.set(i, (name, value));
                proof {
                    let new_s = fields@;
                    assert(field_names(new_s) =~= field_names(old_s));
                    assert forall|key: Seq<char>| #[trigger] field_map(new_s).contains_key(key)
                        <==> field_map(old_s).insert(k, value).contains_key(key) by {
                        if key == k {
                            assert(field_names(new_s)[i as int] == k);
                        }
                    }
                    assert forall|key: Seq<char>| #[trigger] field_map(new_s).contains_key(key)
                        implies field_map(new_s)[key] == field_map(old_s).insert(k, value)[key] by {
                        let j = field_names(new_s).index_of(key);
                        assert(field_names(new_s)[j] == key);
                        assert(field_names(new_s)[i as int] == k);
                        lemma_field_map_entry(new_s, j);
                        if j != i {
                            assert(key != k);
                            assert(new_s[j] == old_s[j]);
                            lemma_field_map_entry(old_s, j);
                        }
                    }
                    assert(field_map(new_s) =~= field_map(old_s).insert(k, value));
                }
            },
            None => {
                fields.push((name, value));
                proof {
                    let new_s = fields@;
                    assert(field_names(new_s) =~= field_names(old_s).push(k));
                    assert forall|key: Seq<char>| #[trigger] field_map(new_s).contains_key(key)
                        <==> field_map(old_s).insert(k, value).contains_key(key) by {
                        if key == k {
                            assert(field_names(new_s)[old_s.len() as int] == k);
                        } else if field_names(old_s).contains(key) {
                            let j = field_names(old_s).index_of(key);
                            assert(field_names(new_s)[j] == key);
                        } else if field_names(new_s).contains(key) {
                            let j = field_names(new_s).index_of(key);
                            assert(field_names(old_s)[j] == key);
                        }
                    }
                    assert forall|key: Seq<char>| #[trigger] field_map(new_s).contains_key(key)
                        implies field_map(new_s)[key] == field_map(old_s).insert(k, value)[key] by {
                        let j = field_names(new_s).index_of(key);
                        lemma_field_map_entry(new_s, j);
                        if j != old_s.len() {
                            lemma_field_map_entry(old_s, j);
                        }
                    }
                    assert(field_map(new_s) =~= field_map(old_s).insert(k, value));
                }
            },
        }
        self.fields = fields;
    }

    /// Shallow-merge `patch` into this object: every field of the patch is
    /// inserted, overwriting the field of the same name; other fields stay.
    pub fn merge(&mut self, patch: JsonObject<V>)
        ensures
            final(self)@ == old(self)@.union_prefer_right(patch@),
    {
        proof { use_type_invariant(&patch); }
        let ghost ps = patch.fields@;
        let ghost start = self@;
        let mut rest = patch.fields;
        let mut taken: usize = 0;
        let ghost total = ps.len();
        proof {
            assert(total == rest.len());
            assert(field_map(ps.take(0)) =~= Map::<Seq<char>, V>::empty());
            assert(start.union_prefer_right(Map::<Seq<char>, V>::empty()) =~= start);
        }
        while rest.len() > 0
            invariant
                field_names(ps).no_duplicates(),
                total == ps.len(),
                total <= usize::MAX,
                taken + rest@.len() == total,
                rest@ == ps.skip(taken as int),
                self@ == start.union_prefer_right(field_map(ps.take(taken as int))),
            decreases rest@.len(),
        {
            let (name, value) = rest.remove(0);
            proof {
                assert((name, value) == ps[taken as int]);
                let pre = ps.take(taken as int);
                let post = ps.take(taken + 1);
                assert(post =~= pre.push(ps[taken as int]));
                assert(field_names(post) =~= field_names(pre).push(name@));
                assert(!field_names(pre).contains(name@)) by {
                    if field_names(pre).contains(name@) {
                        let j = field_names(pre).index_of(name@);
                        assert(field_names(ps)[j] == field_names(ps)[taken as int]);
                    }
                }
                assert(field_names(post).no_duplicates()) by {
                    assert forall|a: int, b: int| 0 <= a < b < post.len() implies field_names(post)[a] != field_names(post)[b] by {
                        assert(field_names(post)[a] == field_names(ps)[a]);
                        assert(field_names(post)[b] == field_names(ps)[b]);
                    }
                }
                assert(field_names(pre).no_duplicates()) by {
                    assert forall|a: int, b: int| 0 <= a < b < pre.len() implies field_names(pre)[a] != field_names(pre)[b] by {
                        assert(field_names(pre)[a] == field_names(ps)[a]);
                        assert(field_names(pre)[b] == field_names(ps)[b]);
                    }
                }
                assert forall|key: Seq<char>| #[trigger] field_map(post).contains_key(key)
                    <==> field_map(pre).insert(name@, value).contains_key(key) by {
                    if key == name@ {
                        assert(field_names(post)[taken as int] == key);
                    } else if field_names(pre).contains(key) {
                        let j = field_names(pre).index_of(key);
                        assert(field_names(post)[j] == key);
                    } else if field_names(post).contains(key) {
                        let j = field_names(post).index_of(key);
                        assert(field_names(pre)[j] == key);
                    }
                }
                assert forall|key: Seq<char>| #[trigger] field_map(post).contains_key(key)
                    implies field_map(post)[key] == field_map(pre).insert(name@, value)[key] by {
                    let j = field_names(post).index_of(key);
                    lemma_field_map_entry(post, j);
                    if j != taken {
                        lemma_field_map_entry(pre, j);
                    }
                }
                assert(field_map(post) =~= field_map(pre).insert(name@, value));
                assert(start.union_prefer_right(field_map(pre)).insert(name@, value)
                    =~= start.union_prefer_right(field_map(post)));
            }
            self.insert(name, value);
            taken = taken + 1;
        }
        proof {
            assert(ps.take(total as int) =~= ps);
        }
    }

    /// The fields, in the order they were added.
    pub fn into_fields(self) -> (r: Vec<(String, V)>)
        ensures
            field_names(r@).no_duplicates(),
            field_map(r@) == self@,
    {
        proof { use_type_invariant(&self); }
        self.fields
    }
}

} // verus!
