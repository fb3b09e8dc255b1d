//! A unique collection of substance identities in canonical order.

use vstd::prelude::*;

use crate::identity::SubstanceId;
use crate::order::{
    compare_text, lemma_text_lt_irreflexive, lemma_text_lt_total, lemma_text_lt_transitive,
    text_lt, KeyOrder,
};
use crate::text::{append_str, text_of};

verus! {

/// The identity texts of a sequence of substances.
pub open spec fn substance_texts(ids: Seq<SubstanceId>) -> Seq<Seq<char>> {
    ids.map_values(|id: SubstanceId| id@)
}

/// Strictly increasing in canonical text order (hence free of repetitions).
pub open spec fn strictly_sorted(s: Seq<Seq<char>>) -> bool {
    forall|i: int, j: int| 0 <= i < j < s.len() ==> text_lt(#[trigger] s[i], #[trigger] s[j])
}

/// No text occurs twice.
pub open spec fn no_repeats(s: Seq<Seq<char>>) -> bool {
    forall|i: int, j: int| 0 <= i < j < s.len() ==> #[trigger] s[i] != #[trigger] s[j]
}

/// Position `j` holds the first repetition of an earlier text.
pub open spec fn first_repeat_at(s: Seq<Seq<char>>, j: int) -> bool {
    &&& 0 <= j < s.len()
    &&& exists|i: int| 0 <= i < j && #[trigger] s[i] == s[j]
    &&& no_repeats(s.take(j))
}

/// Canonical order does not depend on insertion order: two strictly sorted sequences with the
/// same members are identical, so registries built from any arrangement of the same identities
/// hold them in the same order.
pub proof fn law_canonical_order_independent_of_insertion(a: Seq<Seq<char>>, b: Seq<Seq<char>>)
    requires
        strictly_sorted(a),
        strictly_sorted(b),
        a.to_set() == b.to_set(),
    ensures
        a == b,
    decreases a.len(),
{
    if a.len() == 0 {
        if b.len() > 0 {
            assert(b.to_set().contains(b[0]));
        }
        assert(a =~= b);
    } else if b.len() == 0 {
        assert(a.to_set().contains(a[0]));
    } else {
        assert(a.to_set().contains(a[0]));
        assert(b.to_set().contains(b[0]));
        let i = choose|i: int| 0 <= i < b.len() && b[i] == a[0];
        let k = choose|k: int| 0 <= k < a.len() && a[k] == b[0];
        if i > 0 {
            assert(text_lt(b[0], b[i]));
            if k > 0 {
                assert(text_lt(a[0], a[k]));
                lemma_text_lt_total(a[0], b[0]);
            }
        }
        if k > 0 && i == 0 {
            assert(text_lt(a[0], a[k]));
            lemma_text_lt_irreflexive(a[0]);
        }
        assert(a[0] == b[0]);
        let ta = a.drop_first();
        let tb = b.drop_first();
        assert forall|x: Seq<char>| ta.to_set().contains(x) implies tb.to_set().contains(x) by {
            let p = choose|p: int| 0 <= p < ta.len() && ta[p] == x;
            assert(a.to_set().contains(a[p + 1]));
            let q = choose|q: int| 0 <= q < b.len() && b[q] == x;
            assert(text_lt(a[0], a[p + 1]));
            if q == 0 {
                lemma_text_lt_irreflexive(x);
            }
            assert(tb[q - 1] == x);
        }
        assert forall|x: Seq<char>| tb.to_set().contains(x) implies ta.to_set().contains(x) by {
            let p = choose|p: int| 0 <= p < tb.len() && tb[p] == x;
            assert(b.to_set().contains(b[p + 1]));
            let q = choose|q: int| 0 <= q < a.len() && a[q] == x;
            assert(text_lt(b[0], b[p + 1]));
            if q == 0 {
                lemma_text_lt_irreflexive(x);
            }
            assert(ta[q - 1] == x);
        }
        assert(ta.to_set() =~= tb.to_set());
        law_canonical_order_independent_of_insertion(ta, tb);
        assert(a =~= seq![a[0]] + ta);
        assert(b =~= seq![b[0]] + tb);
    }
}

/// A unique collection of substance identities in canonical order.
#[derive(Debug, PartialEq, Eq)]
pub struct SubstanceRegistry {
    ids: Vec<SubstanceId>,
}

impl View for SubstanceRegistry {
    type V = Seq<Seq<char>>;

    closed spec fn view(&self) -> Seq<Seq<char>> {
        substance_texts(self.ids@)
    }
}

impl SubstanceRegistry {
    /// The registry's members in canonical order are strictly increasing.
    #[verifier::type_invariant]
    closed spec fn sorted(self) -> bool {
        strictly_sorted(substance_texts(self.ids@))
    }

    /// Constructs a registry, rejecting the first repeated identity.
    pub fn new(ids: Vec<SubstanceId>) -> (result: Result<Self, SubstanceRegistryError>)
        ensures
            result is Ok <==> no_repeats(substance_texts(ids@)),
            result matches Ok(r) ==> r@.to_set() == substance_texts(ids@).to_set()
                && strictly_sorted(r@),
            result matches Err(SubstanceRegistryError::DuplicateSubstance { substance }) ==> exists|
                j: int,
            | first_repeat_at(substance_texts(ids@), j) && substance@ == ids@[j]@,
    {
        let ghost input = substance_texts(ids@);
        let mut sorted: Vec<SubstanceId> = Vec::new();
        let mut k: usize = 0;
        while k < ids.len()
            invariant
                input == substance_texts(ids@),
                k <= ids.len(),
                strictly_sorted(substance_texts(sorted@)),
                substance_texts(sorted@).to_set() == input.take(k as int).to_set(),
                no_repeats(input.take(k as int)),
            decreases ids.len() - k,
        {
            let x = &ids[k];
            let ghost xs = x@;
            let ghost before = substance_texts(sorted@);
            // Find the first position whose member is not below `x`.
            let mut p: usize = 0;
            while p < sorted.len() && compare_text(sorted[p].as_str(), x.as_str())
                == KeyOrder::Less
                invariant
                    p <= sorted.len(),
                    before == substance_texts(sorted@),
                    xs == x@,
                    forall|q: int| 0 <= q < p ==> text_lt(#[trigger] before[q], xs),
                decreases sorted.len() - p,
            {
                p = p + 1;
            }
            assert(input.take(k + 1) =~= input.take(k as int).push(xs));
            if p < sorted.len() && compare_text(sorted[p].as_str(), x.as_str())
                == KeyOrder::Equal {
                proof {
                    assert(before.to_set().contains(before[p as int]));
                    let i = choose|i: int| 0 <= i < k && input.take(k as int)[i] == xs;
                    assert(input[i] == input[k as int]);
                    assert(first_repeat_at(input, k as int));
                }
                return Err(SubstanceRegistryError::DuplicateSubstance { substance: x.clone() });
            }
            proof {
                if p < sorted.len() {
                    lemma_text_lt_total(before[p as int], xs);
                }
                assert forall|q: int| p <= q < before.len() implies text_lt(
                    xs,
                    #[trigger] before[q],
                ) by {
                    if q > p {
                        lemma_text_lt_transitive(xs, before[p as int], before[q]);
                    }
                }
                assert forall|i: int, j: int| 0 <= i < j < k + 1 implies #[trigger] input.take(
                    k + 1,
                )[i] != #[trigger] input.take(k + 1)[j] by {
                    if j == k {
                        assert(input.take(k as int)[i] == input[i]);
                        assert(input.take(k as int).to_set().contains(input[i]));
                        let q = choose|q: int| 0 <= q < before.len() && before[q] == input[i];
                        lemma_text_lt_irreflexive(xs);
                    } else {
                        assert(input.take(k as int)[i] != input.take(k as int)[j]);
                    }
                }
            }
            sorted.insert(p, x.clone());
            proof {
                let after = substance_texts(sorted@);
                assert(after =~= before.insert(p as int, xs));
                assert forall|i: int, j: int| 0 <= i < j < after.len() implies text_lt(
                    #[trigger] after[i],
                    #[trigger] after[j],
                ) by {
                    if j < p {
                    } else if j == p {
                    } else if i < p {
                        lemma_text_lt_transitive(after[i], xs, after[j]);
                    } else if i == p {
                    } else {
                    }
                }
                assert forall|y: Seq<char>| after.to_set().contains(y) <==> input.take(
                    k + 1,
                ).to_set().contains(y) by {
                    if after.to_set().contains(y) {
                        let q = choose|q: int| 0 <= q < after.len() && after[q] == y;
                        if q < p {
                            assert(before.to_set().contains(before[q]));
                        } else if q == p {
                            assert(input.take(k + 1)[k as int] == y);
                        } else {
                            assert(before.to_set().contains(before[q - 1]));
                        }
                    }
                    if input.take(k + 1).to_set().contains(y) {
                        let q = choose|q: int| 0 <= q < k + 1 && #[trigger] input.take(k + 1)[q] == y;
                        if q < k {
                            assert(input.take(k as int)[q] == y);
                            assert(before.to_set().contains(y));
                            let r = choose|r: int| 0 <= r < before.len() && before[r] == y;
                            if r < p {
                                assert(after[r] == y);
                            } else {
                                assert(after[r + 1] == y);
                            }
                        } else {
                            assert(after[p as int] == y);
                        }
                    }
                }
                assert(after.to_set() =~= input.take(k + 1).to_set());
            }
            k = k + 1;
        }
        assert(input.take(k as int) =~= input);
        Ok(SubstanceRegistry { ids: sorted })
    }

    /// The substance identities in ascending canonical order.
    pub fn iter(&self) -> (r: &[SubstanceId])
        ensures
            substance_texts(r@) == self@,
            strictly_sorted(self@),
    {
        proof {
            use_type_invariant(self);
        }
        self.ids.as_slice()
    }

    /// Returns whether the registry contains `substance`.
    pub fn contains(&self, substance: &SubstanceId) -> (r: bool)
        ensures
            r == self@.contains(substance@),
    {
        let ghost v = self@;
        let mut i: usize = 0;
        while i < self.ids.len()
            invariant
                v == substance_texts(self.ids@),
                i <= self.ids.len(),
                forall|q: int| 0 <= q < i ==> #[trigger] v[q] != substance@,
            decreases self.ids.len() - i,
        {
            if compare_text(self.ids[i].as_str(), substance.as_str()) == KeyOrder::Equal {
                assert(v[i as int] == substance@);
                return true;
            }
            i = i + 1;
        }
        false
    }

    /// Returns the number of substance identities in the registry.
    pub fn len(&self) -> (r: usize)
        ensures
            r == self@.len(),
    {
        self.ids.len()
    }

    /// Returns whether the registry contains no substance identities.
    pub fn is_empty(&self) -> (r: bool)
        ensures
            r == (self@.len() == 0),
    {
        self.ids.len() == 0
    }
}

impl Clone for SubstanceRegistry {
    fn clone(&self) -> (r: Self)
        ensures
            r@ == self@,
    {
        proof {
            use_type_invariant(self);
        }
        let mut ids: Vec<SubstanceId> = Vec::new();
        let mut i: usize = 0;
        while i < self.ids.len()
            invariant
                i <= self.ids.len(),
                ids@.len() == i,
                substance_texts(ids@) == substance_texts(self.ids@).take(i as int),
                strictly_sorted(substance_texts(self.ids@)),
            decreases self.ids.len() - i,
        {
            let c = self.ids[i].clone();
            let ghost prev = ids@;
            ids.push(c);
            assert(ids@ == prev.push(c));
            assert(c@ == self.ids@[i as int]@);
            assert forall|q: int| 0 <= q < i + 1 implies #[trigger] substance_texts(ids@)[q]
                == substance_texts(self.ids@).take(i + 1)[q] by {
                if q < i {
                    assert(substance_texts(prev)[q] == substance_texts(self.ids@).take(
                        i as int,
                    )[q]);
                    assert(ids@[q] == prev[q]);
                } else {
                    assert(ids@[q] == c);
                }
            }
            assert(substance_texts(ids@) =~= substance_texts(self.ids@).take(i + 1));
            i = i + 1;
        }
        assert(substance_texts(self.ids@).take(i as int) =~= substance_texts(self.ids@));
        SubstanceRegistry { ids }
    }
}

/// Reports why a substance registry could not be constructed.
#[derive(Debug, PartialEq, Eq)]
pub enum SubstanceRegistryError {
    /// Returned when an input repeats a substance identity already seen by the constructor.
    DuplicateSubstance { substance: SubstanceId },
}

/// The human-readable message of a registry error.
pub open spec fn registry_error_message(e: SubstanceRegistryError) -> Seq<char> {
    match e {
        SubstanceRegistryError::DuplicateSubstance { substance } => "duplicate substance identity `"@
            + substance@ + "`"@,
    }
}

impl SubstanceRegistryError {
    /// Renders the error as text.
    pub fn message(&self) -> (r: String)
        ensures
            r@ == registry_error_message(*self),
    {
        match self {
            SubstanceRegistryError::DuplicateSubstance { substance } => {
                let mut s = text_of("duplicate substance identity `");
                append_str(&mut s, substance.as_str());
                append_str(&mut s, "`");
                s
            },
        }
    }
}

} // verus!
