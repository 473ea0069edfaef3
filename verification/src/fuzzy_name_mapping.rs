//! Finding the component or resource type that a loosely written name means.

use vstd::prelude::*;
use vstd::string::StrSliceExecFns;
use crate::fraction::{
    fraction_is_less, fraction_less, lemma_fraction_less_trans, widening_product,
};
use crate::store::{find_component_type, ComponentTypeId, ResourceRecord, Store};
use crate::text::{
    edit_distance, levenshtein, lowercase, short_name, short_type_name, texts, to_lowercase, trim,
    trimmed,
};

verus! {

/// A name as it is compared: without whitespace at its ends, in lower case.
pub open spec fn normalized(name: Seq<char>) -> Seq<char> {
    lowercase(trimmed(name))
}

/// The length of the longer of two strings.
pub open spec fn longer(a: Seq<char>, b: Seq<char>) -> nat {
    if a.len() >= b.len() {
        a.len()
    } else {
        b.len()
    }
}

/// The name is similar enough to the query to stand for it: its
/// similarity, 1 less the share of the edit distance in the length of the
/// longer string, is at least three tenths.
pub open spec fn is_acceptable(query: Seq<char>, name: Seq<char>) -> bool {
    10 * edit_distance(query, name) <= 7 * longer(query, name)
}

/// `a` is more similar to the query than `b` is.
pub open spec fn is_more_similar(query: Seq<char>, a: Seq<char>, b: Seq<char>) -> bool {
    fraction_less(
        edit_distance(query, a),
        longer(query, a),
        edit_distance(query, b),
        longer(query, b),
    )
}

/// `choice` is the position of the name that the query means: the first
/// name that equals the query, where there is one; else the most similar
/// of the names that are similar enough, the first of them where several
/// are as similar; none where no name is similar enough.
pub open spec fn is_fuzzy_choice(query: Seq<char>, names: Seq<Seq<char>>, choice: Option<int>) -> bool {
    if exists|i: int| 0 <= i < names.len() && #[trigger] names[i] == query {
        &&& choice matches Some(c)
        &&& 0 <= c < names.len()
        &&& names[c] == query
        &&& forall|j: int| 0 <= j < c ==> #[trigger] names[j] != query
    } else {
        match choice {
            Some(c) => {
                &&& 0 <= c < names.len()
                &&& is_acceptable(query, names[c])
                &&& forall|j: int|
                    0 <= j < names.len() && is_acceptable(query, #[trigger] names[j])
                        ==> !is_more_similar(query, names[j], names[c])
                &&& forall|j: int|
                    0 <= j < c && is_acceptable(query, #[trigger] names[j]) ==> is_more_similar(
                        query,
                        names[c],
                        names[j],
                    )
            },
            None => forall|j: int| 0 <= j < names.len() ==> !is_acceptable(query, #[trigger] names[j]),
        }
    }
}

/// The name that equals the query is chosen, whatever names are similar to
/// it: the first such name is the one choice.
pub proof fn lemma_exact_match_wins(query: Seq<char>, names: Seq<Seq<char>>, position: int, choice: Option<int>)
    requires
        0 <= position < names.len(),
        names[position] == query,
        forall|j: int| 0 <= j < position ==> #[trigger] names[j] != query,
    ensures
        is_fuzzy_choice(query, names, Some(position)),
        is_fuzzy_choice(query, names, choice) ==> choice == Some(position),
{
    assert(names[position] == query);
    if is_fuzzy_choice(query, names, choice) {
        let c = choice->0;
        if c < position {
            assert(names[c] != query);
        }
        if position < c {
            assert(names[position] != query);
        }
    }
}

/// The position of the name that the query means; see [`is_fuzzy_choice`].
pub fn fuzzy_match(query: &String, names: &Vec<String>) -> (choice: Option<usize>)
    ensures
        is_fuzzy_choice(
            query@,
            texts(names@),
            match choice {
                Some(c) => Some(c as int),
                None => None,
            },
        ),
{
    let ghost all = texts(names@);
    let query_length = query.as_str().unicode_len();
    let mut best: Option<(usize, usize, usize)> = None;
    let mut i: usize = 0;
    while i < names.len()
        invariant
            i <= names.len(),
            all == texts(names@),
            query_length == query@.len(),
            forall|j: int| 0 <= j < i ==> #[trigger] all[j] != query@,
            match best {
                Some((c, distance, length)) => {
                    &&& c < i
                    &&& distance == edit_distance(query@, all[c as int])
                    &&& length == longer(query@, all[c as int])
                    &&& is_acceptable(query@, all[c as int])
                    &&& forall|j: int|
                        0 <= j < i && is_acceptable(query@, #[trigger] all[j]) ==> !is_more_similar(
                            query@,
                            all[j],
                            all[c as int],
                        )
                    &&& forall|j: int|
                        0 <= j < c && is_acceptable(query@, #[trigger] all[j]) ==> is_more_similar(
                            query@,
                            all[c as int],
                            all[j],
                        )
                },
                None => forall|j: int| 0 <= j < i ==> !is_acceptable(query@, #[trigger] all[j]),
            },
        decreases names.len() - i,
    {
        let name = &names[i];
        assert(all[i as int] == name@);
        if *name == *query {
            assert(all[i as int] == query@);
            return Some(i);
        }
        let distance = levenshtein(query.as_str(), name.as_str());
        let name_length = name.as_str().unicode_len();
        let length = if query_length >= name_length {
            query_length
        } else {
            name_length
        };
        proof {
            if length == 0 {
                assert(name@ =~= query@);
            }
        }
        let acceptable = widening_product(10, distance) <= widening_product(7, length);
        if acceptable {
            let better = match best {
                Some((_, best_distance, best_length)) => fraction_is_less(
                    distance,
                    length,
                    best_distance,
                    best_length,
                ),
                None => true,
            };
            if better {
                proof {
                    if let Some((c, best_distance, best_length)) = best {
                        if best_length == 0 {
                            assert(all[c as int] =~= query@);
                        }
                        assert forall|j: int|
                            0 <= j < i + 1 && is_acceptable(
                                query@,
                                #[trigger] all[j],
                            ) implies !is_more_similar(query@, all[j], all[i as int]) by {
                            if j < i && is_more_similar(query@, all[j], all[i as int]) {
                                if longer(query@, all[j]) == 0 {
                                    assert(all[j] =~= query@);
                                }
                                lemma_fraction_less_trans(
                                    edit_distance(query@, all[j]),
                                    longer(query@, all[j]),
                                    edit_distance(query@, all[i as int]),
                                    longer(query@, all[i as int]),
                                    edit_distance(query@, all[c as int]),
                                    longer(query@, all[c as int]),
                                );
                            }
                        }
                        assert forall|j: int|
                            0 <= j < i && is_acceptable(
                                query@,
                                #[trigger] all[j],
                            ) implies is_more_similar(query@, all[i as int], all[j]) by {
                            if longer(query@, all[j]) == 0 {
                                assert(all[j] =~= query@);
                            }
                            lemma_fraction_less_trans(
                                edit_distance(query@, all[i as int]),
                                longer(query@, all[i as int]),
                                edit_distance(query@, all[c as int]),
                                longer(query@, all[c as int]),
                                edit_distance(query@, all[j]),
                                longer(query@, all[j]),
                            );
                        }
                    }
                }
                best = Some((i, distance, length));
            }
        }
        i += 1;
    }
    match best {
        Some((c, _, _)) => Some(c),
        None => None,
    }
}

/// The registered component types as candidates: each with the short name
/// of its type, as it is compared.
pub open spec fn component_names(store: &Store) -> Seq<Seq<char>> {
    store.component_types@.map_values(
        |info: crate::store::ComponentTypeInfo| normalized(short_type_name(info.name@)),
    )
}

/// Makes a name ready to be compared.
pub fn normalize(name: &str) -> (ready: String)
    ensures
        ready@ == normalized(name@),
{
    to_lowercase(trim(name))
}

/// Finds the component type that a loosely written name means.
///
/// Names are compared without whitespace at their ends and without regard
/// to case, type names without their module paths. A type whose name equals
/// the query is the answer, the first registered of them; else the type
/// whose name is most similar, if it is similar enough.
pub fn fuzzy_component_name_to_id(store: &Store, fuzzy_name: &str) -> (found: Option<ComponentTypeId>)
    ensures
        match found {
            Some(id) => exists|i: int|
                0 <= i < store.component_types.len() && is_fuzzy_choice(
                    normalized(fuzzy_name@),
                    component_names(store),
                    Some(i),
                ) && id == (#[trigger] store.component_types@[i]).id,
            None => is_fuzzy_choice(normalized(fuzzy_name@), component_names(store), None),
        },
{
    let processed_fuzzy_name = normalize(fuzzy_name);
    let mut names: Vec<String> = Vec::new();
    let mut i: usize = 0;
    while i < store.component_types.len()
        invariant
            i <= store.component_types.len(),
            names.len() == i,
            forall|k: int| 0 <= k < i ==> (#[trigger] names@[k])@ == component_names(store)[k],
        decreases store.component_types.len() - i,
    {
        let short = short_name(store.component_types[i].name.as_str());
        names.push(normalize(short.as_str()));
        i += 1;
    }
    assert(texts(names@) =~= component_names(store));
    match fuzzy_match(&processed_fuzzy_name, &names) {
        Some(position) => Some(store.component_types[position].id),
        None => None,
    }
}

/// The resources as candidates: each resource whose type is registered,
/// with the identifier of its type and the short name of the type, as it
/// is compared.
pub open spec fn resource_candidates(store: &Store, resources: Seq<ResourceRecord>) -> Seq<
    (ComponentTypeId, Seq<char>),
>
    decreases resources.len(),
{
    if resources.len() == 0 {
        Seq::empty()
    } else {
        let rest = resource_candidates(store, resources.drop_last());
        match find_component_type(store.component_types@, resources.last().id) {
            Some(info) => rest.push(
                (resources.last().id, normalized(short_type_name(info.name@))),
            ),
            None => rest,
        }
    }
}

/// Finds the resource that a loosely written name means; see
/// [`fuzzy_component_name_to_id`].
pub fn fuzzy_resource_name_to_id(store: &Store, fuzzy_name: &str) -> (found: Option<ComponentTypeId>)
    ensures
        match found {
            Some(id) => exists|i: int|
                0 <= i < resource_candidates(store, store.resources@).len() && is_fuzzy_choice(
                    normalized(fuzzy_name@),
                    resource_candidates(store, store.resources@).map_values(
                        |c: (ComponentTypeId, Seq<char>)| c.1,
                    ),
                    Some(i),
                ) && id == (#[trigger] resource_candidates(store, store.resources@)[i]).0,
            None => is_fuzzy_choice(
                normalized(fuzzy_name@),
                resource_candidates(store, store.resources@).map_values(
                    |c: (ComponentTypeId, Seq<char>)| c.1,
                ),
                None,
            ),
        },
{
    let processed_fuzzy_name = normalize(fuzzy_name);
    let mut ids: Vec<ComponentTypeId> = Vec::new();
    let mut names: Vec<String> = Vec::new();
    let mut i: usize = 0;
    let ghost second = |c: (ComponentTypeId, Seq<char>)| c.1;
    proof {
        assert(store.resources@.take(0) =~= Seq::<ResourceRecord>::empty());
    }
    while i < store.resources.len()
        invariant
            i <= store.resources.len(),
            ids.len() == names.len(),
            ids.len() == resource_candidates(store, store.resources@.take(i as int)).len(),
            forall|k: int|
                0 <= k < ids.len() ==> (#[trigger] ids@[k]) == resource_candidates(
                    store,
                    store.resources@.take(i as int),
                )[k].0,
            forall|k: int|
                0 <= k < names.len() ==> (#[trigger] names@[k])@ == resource_candidates(
                    store,
                    store.resources@.take(i as int),
                )[k].1,
        decreases store.resources.len() - i,
    {
        let id = store.resources[i].id;
        proof {
            assert(store.resources@.take(i as int + 1).drop_last() == store.resources@.take(
                i as int,
            ));
            assert(store.resources@.take(i as int + 1).last() == store.resources@[i as int]);
        }
        match store.component_type(id) {
            Some(info) => {
                let short = short_name(info.name.as_str());
                ids.push(id);
                names.push(normalize(short.as_str()));
            },
            None => {},
        }
        i += 1;
    }
    proof {
        assert(store.resources@.take(store.resources.len() as int) == store.resources@);
        assert(texts(names@) =~= resource_candidates(store, store.resources@).map_values(second));
    }
    match fuzzy_match(&processed_fuzzy_name, &names) {
        Some(position) => Some(ids[position]),
        None => None,
    }
}

} // verus!
