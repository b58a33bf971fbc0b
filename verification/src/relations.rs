//! Derived family relationships: direct children and parents from stored
//! edges, and computed brothers, sisters, nephews and nieces.

use crate::lineage::{
    contains_person, lemma_member_at_id, lineage_wf, parent_ok, person_wf, Lineage,
};
use crate::person::{clone_indices, Person, PersonV};
use vstd::prelude::*;

verus! {

/// The stored child list (sons when `male`, daughters otherwise) of an
/// optional parent slot.
pub open spec fn children_seq(s: Seq<PersonV>, parent: Option<usize>, male: bool) -> Seq<usize> {
    match parent {
        None => Seq::empty(),
        Some(pi) => if male {
            s[pi as int].sons
        } else {
            s[pi as int].daughters
        },
    }
}

/// `id` is a brother of `p`: a son of `p`'s father or of `p`'s mother,
/// other than `p` itself. Half-siblings count.
pub open spec fn is_brother_id(s: Seq<PersonV>, p: PersonV, id: usize) -> bool {
    (children_seq(s, p.father, true).contains(id) || children_seq(s, p.mother, true).contains(id))
        && id != p.id
}

/// `id` is a sister of `p`: a daughter of `p`'s father or of `p`'s mother,
/// other than `p` itself.
pub open spec fn is_sister_id(s: Seq<PersonV>, p: PersonV, id: usize) -> bool {
    (children_seq(s, p.father, false).contains(id) || children_seq(s, p.mother, false).contains(id))
        && id != p.id
}

pub open spec fn is_sibling_id(s: Seq<PersonV>, p: PersonV, id: usize) -> bool {
    is_brother_id(s, p, id) || is_sister_id(s, p, id)
}

/// `id` is a son (`male`) or daughter of one of `p`'s siblings.
pub open spec fn is_sib_child_id(s: Seq<PersonV>, p: PersonV, male: bool, id: usize) -> bool {
    exists|b: usize|
        #[trigger] is_sibling_id(s, p, b) && (b as int) < s.len() && children_seq(
            s,
            Some(b),
            male,
        ).contains(id)
}

/// `id` is a nephew of `p`: a son of one of `p`'s siblings.
pub open spec fn is_nephew_id(s: Seq<PersonV>, p: PersonV, id: usize) -> bool {
    is_sib_child_id(s, p, true, id)
}

/// `id` is a niece of `p`: a daughter of one of `p`'s siblings.
pub open spec fn is_niece_id(s: Seq<PersonV>, p: PersonV, id: usize) -> bool {
    is_sib_child_id(s, p, false, id)
}

/// Some element of `r` is a view of the person with id `id`.
pub open spec fn id_in_views(r: Seq<&Person>, id: usize) -> bool {
    exists|k: int| 0 <= k < r.len() && (#[trigger] r[k])@.id == id
}

/// The id of each person of `r`, in order.
pub open spec fn ids_of(r: Seq<&Person>) -> Seq<usize> {
    Seq::new(r.len(), |k: int| r[k]@.id)
}

/// One step of first-appearance deduplication: append `x` unless it is
/// `excl` or already present.
pub open spec fn dedup_push(acc: Seq<usize>, x: usize, excl: usize) -> Seq<usize> {
    if x == excl || acc.contains(x) {
        acc
    } else {
        acc.push(x)
    }
}

/// First-appearance deduplication of `rest` onto `acc`, with `excl` left
/// out.
pub open spec fn dedup_fold(acc: Seq<usize>, rest: Seq<usize>, excl: usize) -> Seq<usize>
    decreases rest.len(),
{
    if rest.len() == 0 {
        acc
    } else {
        dedup_fold(dedup_push(acc, rest[0], excl), rest.drop_first(), excl)
    }
}

/// The brothers of `p` in order: the father's sons then the mother's sons,
/// first appearance kept, `p` itself left out.
pub open spec fn brothers_seq(s: Seq<PersonV>, p: PersonV) -> Seq<usize> {
    dedup_fold(
        dedup_fold(Seq::empty(), children_seq(s, p.father, true), p.id),
        children_seq(s, p.mother, true),
        p.id,
    )
}

/// The sisters of `p` in order, symmetrically from the daughter lists.
pub open spec fn sisters_seq(s: Seq<PersonV>, p: PersonV) -> Seq<usize> {
    dedup_fold(
        dedup_fold(Seq::empty(), children_seq(s, p.father, false), p.id),
        children_seq(s, p.mother, false),
        p.id,
    )
}

/// The siblings of `p` in order: brothers first, then sisters.
pub open spec fn siblings_seq(s: Seq<PersonV>, p: PersonV) -> Seq<usize> {
    brothers_seq(s, p) + sisters_seq(s, p)
}

/// The stored son (`male`) or daughter lists of the given people,
/// concatenated in their order, without deduplication.
pub open spec fn concat_children(s: Seq<PersonV>, sibs: Seq<usize>, male: bool) -> Seq<usize>
    decreases sibs.len(),
{
    if sibs.len() == 0 {
        Seq::empty()
    } else {
        children_seq(s, Some(sibs[0]), male) + concat_children(s, sibs.drop_first(), male)
    }
}

/// The nephews of `p` in order: each sibling's son list in sibling order,
/// concatenated, duplicates across sibling paths preserved.
pub open spec fn nephews_seq(s: Seq<PersonV>, p: PersonV) -> Seq<usize> {
    concat_children(s, siblings_seq(s, p), true)
}

/// The nieces of `p` in order, from the daughter lists.
pub open spec fn nieces_seq(s: Seq<PersonV>, p: PersonV) -> Seq<usize> {
    concat_children(s, siblings_seq(s, p), false)
}

/// Folding one more element equals one `dedup_push` on the folded prefix.
proof fn lemma_dedup_fold_snoc(acc: Seq<usize>, rest: Seq<usize>, x: usize, excl: usize)
    ensures
        dedup_fold(acc, rest.push(x), excl) == dedup_push(dedup_fold(acc, rest, excl), x, excl),
    decreases rest.len(),
{
    if rest.len() == 0 {
        assert(rest.push(x)[0] == x);
        assert(rest.push(x).drop_first() =~= rest);
        assert(dedup_fold(dedup_push(acc, x, excl), rest, excl) == dedup_push(acc, x, excl));
        assert(dedup_fold(acc, rest, excl) == acc);
    } else {
        assert(rest.push(x)[0] == rest[0]);
        assert(rest.push(x).drop_first() =~= rest.drop_first().push(x));
        lemma_dedup_fold_snoc(dedup_push(acc, rest[0], excl), rest.drop_first(), x, excl);
        assert(dedup_fold(acc, rest.push(x), excl) == dedup_fold(
            dedup_push(acc, rest[0], excl),
            rest.drop_first().push(x),
            excl,
        ));
        assert(dedup_fold(acc, rest, excl) == dedup_fold(
            dedup_push(acc, rest[0], excl),
            rest.drop_first(),
            excl,
        ));
    }
}

/// Concatenating one more sibling's children appends that child list.
proof fn lemma_concat_snoc(s: Seq<PersonV>, sibs: Seq<usize>, x: usize, male: bool)
    ensures
        concat_children(s, sibs.push(x), male) == concat_children(s, sibs, male) + children_seq(
            s,
            Some(x),
            male,
        ),
    decreases sibs.len(),
{
    let e = Seq::<usize>::empty();
    if sibs.len() == 0 {
        assert(sibs.push(x)[0] == x);
        assert(sibs.push(x).drop_first() =~= e);
        assert(concat_children(s, e, male) == e);
        assert(sibs =~= e);
        assert(concat_children(s, sibs.push(x), male) == children_seq(s, Some(x), male) + e);
        assert(concat_children(s, sibs.push(x), male) =~= concat_children(s, sibs, male)
            + children_seq(s, Some(x), male));
    } else {
        assert(sibs.push(x)[0] == sibs[0]);
        assert(sibs.push(x).drop_first() =~= sibs.drop_first().push(x));
        lemma_concat_snoc(s, sibs.drop_first(), x, male);
        assert(concat_children(s, sibs.push(x), male) == children_seq(s, Some(sibs[0]), male)
            + concat_children(s, sibs.drop_first().push(x), male));
        assert(concat_children(s, sibs, male) == children_seq(s, Some(sibs[0]), male)
            + concat_children(s, sibs.drop_first(), male));
        assert(concat_children(s, sibs.push(x), male) =~= concat_children(s, sibs, male)
            + children_seq(s, Some(x), male));
    }
}

/// Whether the id sequence holds `x`.
fn ids_contain(v: &Vec<usize>, x: usize) -> (b: bool)
    ensures
        b == v@.contains(x),
{
    let mut i: usize = 0;
    while i < v.len()
        invariant
            i <= v@.len(),
            forall|k: int| 0 <= k < i ==> v@[k] != x,
        decreases v@.len() - i,
    {
        if v[i] == x {
            return true;
        }
        i += 1;
    }
    false
}

/// The ids of `a` and `b` in order of first appearance, without
/// duplicates and without `excl`.
fn dedup_union_minus(a: &Vec<usize>, b: &Vec<usize>, excl: usize) -> (r: Vec<usize>)
    ensures
        forall|k1: int, k2: int| 0 <= k1 < k2 < r@.len() ==> r@[k1] != r@[k2],
        forall|k: int|
            0 <= k < r@.len() ==> (a@.contains(#[trigger] r@[k]) || b@.contains(r@[k])) && r@[k]
                != excl,
        forall|id: usize| #[trigger] a@.contains(id) && id != excl ==> r@.contains(id),
        forall|id: usize| #[trigger] b@.contains(id) && id != excl ==> r@.contains(id),
        r@ == dedup_fold(dedup_fold(Seq::empty(), a@, excl), b@, excl),
{
    let mut r: Vec<usize> = Vec::new();
    proof {
        assert(a@.take(0) =~= Seq::<usize>::empty());
    }
    let mut i: usize = 0;
    while i < a.len()
        invariant
            i <= a@.len(),
            forall|k1: int, k2: int| 0 <= k1 < k2 < r@.len() ==> r@[k1] != r@[k2],
            forall|k: int|
                0 <= k < r@.len() ==> a@.contains(#[trigger] r@[k]) && r@[k] != excl,
            forall|kk: int| 0 <= kk < i ==> a@[kk] == excl || r@.contains(#[trigger] a@[kk]),
            r@ == dedup_fold(Seq::empty(), a@.take(i as int), excl),
        decreases a@.len() - i,
    {
        let x = a[i];
        let ghost prev = r@;
        if x != excl && !ids_contain(&r, x) {
            let ghost r0 = r@;
            r.push(x);
            proof {
                assert(r@.contains(x)) by {
                    assert(r@[r@.len() - 1] == x);
                }
                assert forall|kk: int| 0 <= kk < i && a@[kk] != excl implies r@.contains(
                    #[trigger] a@[kk],
                ) by {
                    let k = choose|k: int| 0 <= k < r0.len() && r0[k] == a@[kk];
                    assert(r@[k] == a@[kk]);
                }
            }
        }
        proof {
            assert(a@.take(i + 1) =~= a@.take(i as int).push(a@[i as int]));
            lemma_dedup_fold_snoc(Seq::empty(), a@.take(i as int), a@[i as int], excl);
            assert(r@ == dedup_push(prev, a@[i as int], excl));
        }
        i += 1;
    }
    let ghost ra = r@;
    proof {
        assert(a@.take(a@.len() as int) =~= a@);
        assert(ra == dedup_fold(Seq::empty(), a@, excl));
        assert(b@.take(0) =~= Seq::<usize>::empty());
    }
    let mut j: usize = 0;
    while j < b.len()
        invariant
            j <= b@.len(),
            forall|k1: int, k2: int| 0 <= k1 < k2 < r@.len() ==> r@[k1] != r@[k2],
            forall|k: int|
                0 <= k < r@.len() ==> (a@.contains(#[trigger] r@[k]) || b@.contains(r@[k])) && r@[k]
                    != excl,
            forall|id: usize| ra.contains(id) ==> r@.contains(id),
            forall|kk: int| 0 <= kk < j ==> b@[kk] == excl || r@.contains(#[trigger] b@[kk]),
            forall|kk: int| 0 <= kk < a@.len() ==> a@[kk] == excl || ra.contains(#[trigger] a@[kk]),
            r@ == dedup_fold(ra, b@.take(j as int), excl),
        decreases b@.len() - j,
    {
        let x = b[j];
        let ghost prev = r@;
        if x != excl && !ids_contain(&r, x) {
            let ghost r0 = r@;
            r.push(x);
            proof {
                assert(r@.contains(x)) by {
                    assert(r@[r@.len() - 1] == x);
                }
                assert forall|id: usize| r0.contains(id) implies r@.contains(id) by {
                    let k = choose|k: int| 0 <= k < r0.len() && r0[k] == id;
                    assert(r@[k] == id);
                }
            }
        }
        proof {
            assert(b@.take(j + 1) =~= b@.take(j as int).push(b@[j as int]));
            lemma_dedup_fold_snoc(ra, b@.take(j as int), b@[j as int], excl);
            assert(r@ == dedup_push(prev, b@[j as int], excl));
        }
        j += 1;
    }
    proof {
        assert(b@.take(b@.len() as int) =~= b@);
    }
    proof {
        assert forall|id: usize| #[trigger] a@.contains(id) && id != excl implies r@.contains(
            id,
        ) by {
            let kk = choose|kk: int| 0 <= kk < a@.len() && a@[kk] == id;
            assert(ra.contains(a@[kk]));
        }
        assert forall|id: usize| #[trigger] b@.contains(id) && id != excl implies r@.contains(
            id,
        ) by {
            let kk = choose|kk: int| 0 <= kk < b@.len() && b@[kk] == id;
            assert(b@[kk] == excl || r@.contains(b@[kk]));
        }
    }
    r
}

impl Lineage {
    /// References to the people the given arena indices name.
    fn idx_to_person_vec<'a>(&'a self, idx_vec: &Vec<usize>) -> (r: Vec<&'a Person>)
        requires
            forall|k: int| 0 <= k < idx_vec@.len() ==> ((#[trigger] idx_vec@[k]) as int)
                < self@.len(),
        ensures
            r@.len() == idx_vec@.len(),
            forall|k: int| 0 <= k < r@.len() ==> (#[trigger] r@[k])@ == self@[idx_vec@[k] as int],
    {
        let mut r: Vec<&Person> = Vec::new();
        let mut i: usize = 0;
        while i < idx_vec.len()
            invariant
                i <= idx_vec@.len(),
                r@.len() == i,
                forall|k: int| 0 <= k < idx_vec@.len() ==> ((#[trigger] idx_vec@[k]) as int)
                    < self@.len(),
                forall|k: int| 0 <= k < i ==> (#[trigger] r@[k])@ == self@[idx_vec@[k] as int],
            decreases idx_vec@.len() - i,
        {
            let idx = idx_vec[i];
            let p = self.people_ref(idx);
            r.push(p);
            i += 1;
        }
        r
    }

    /// The sons of a person, as stored on the person's record.
    pub fn get_sons_of<'a>(&'a self, person: &Person) -> (r: Vec<&'a Person>)
        requires
            self.wf(),
            contains_person(self@, person@),
        ensures
            r@.len() == person@.sons.len(),
            forall|k: int| 0 <= k < r@.len() ==> (#[trigger] r@[k])@ == self@[person@.sons[k] as int],
    {
        proof {
            lemma_member_at_id(self@, person@);
            assert forall|k: int| 0 <= k < person@.sons.len() implies ((
            #[trigger] person@.sons[k]) as int) < self@.len() by {
                assert(person_wf(self@, person@.id as int));
                assert(self@[person@.id as int].sons == person@.sons);
            }
        }
        self.idx_to_person_vec(person.sons_idx())
    }

    /// The daughters of a person, as stored on the person's record.
    pub fn get_daughters_of<'a>(&'a self, person: &Person) -> (r: Vec<&'a Person>)
        requires
            self.wf(),
            contains_person(self@, person@),
        ensures
            r@.len() == person@.daughters.len(),
            forall|k: int|
                0 <= k < r@.len() ==> (#[trigger] r@[k])@ == self@[person@.daughters[k] as int],
    {
        proof {
            lemma_member_at_id(self@, person@);
            assert forall|k: int| 0 <= k < person@.daughters.len() implies ((
            #[trigger] person@.daughters[k]) as int) < self@.len() by {
                assert(person_wf(self@, person@.id as int));
                assert(self@[person@.id as int].daughters == person@.daughters);
            }
        }
        self.idx_to_person_vec(person.daughters_idx())
    }

    /// The recorded father of a person, if any.
    pub fn get_father_of<'a>(&'a self, person: &Person) -> (r: Option<&'a Person>)
        requires
            self.wf(),
            contains_person(self@, person@),
        ensures
            match person@.father {
                Some(f) => r matches Some(q) && q@ == self@[f as int],
                None => r is None,
            },
    {
        proof {
            lemma_member_at_id(self@, person@);
            assert(person_wf(self@, person@.id as int));
        }
        match person.father_idx() {
            Some(f) => Some(self.people_ref(f)),
            None => None,
        }
    }

    /// The recorded mother of a person, if any.
    pub fn get_mother_of<'a>(&'a self, person: &Person) -> (r: Option<&'a Person>)
        requires
            self.wf(),
            contains_person(self@, person@),
        ensures
            match person@.mother {
                Some(m) => r matches Some(q) && q@ == self@[m as int],
                None => r is None,
            },
    {
        proof {
            lemma_member_at_id(self@, person@);
            assert(person_wf(self@, person@.id as int));
        }
        match person.mother_idx() {
            Some(m) => Some(self.people_ref(m)),
            None => None,
        }
    }

    /// A copy of the stored child-id list of an optional parent slot.
    fn children_ids_of_parent(&self, parent: Option<usize>, male: bool) -> (r: Vec<usize>)
        requires
            self.wf(),
            parent_ok(self@, parent),
        ensures
            r@ == children_seq(self@, parent, male),
    {
        match parent {
            None => Vec::new(),
            Some(p) => {
                let q = self.people_ref(p);
                if male {
                    clone_indices(q.sons_idx())
                } else {
                    clone_indices(q.daughters_idx())
                }
            },
        }
    }

    /// The brothers of a person: sons of the person's father and of the
    /// person's mother, without duplicates and without the person, in the
    /// order `brothers_seq` fixes.
    pub fn get_brothers<'a>(&'a self, person: &Person) -> (r: Vec<&'a Person>)
        requires
            self.wf(),
            contains_person(self@, person@),
        ensures
            forall|k: int|
                0 <= k < r@.len() ==> is_brother_id(self@, person@, (#[trigger] r@[k])@.id)
                    && r@[k]@ == self@[r@[k]@.id as int],
            forall|id: usize|
                #[trigger] is_brother_id(self@, person@, id) ==> exists|k: int|
                    0 <= k < r@.len() && (#[trigger] r@[k])@.id == id,
            forall|k1: int, k2: int| 0 <= k1 < k2 < r@.len() ==> r@[k1]@.id != r@[k2]@.id,
            ids_of(r@) == brothers_seq(self@, person@),
    {
        proof {
            lemma_member_at_id(self@, person@);
            assert(person_wf(self@, person@.id as int));
        }
        let fsons = self.children_ids_of_parent(person.father_idx(), true);
        let msons = self.children_ids_of_parent(person.mother_idx(), true);
        let ids = dedup_union_minus(&fsons, &msons, person.id());
        proof {
            lemma_child_ids_in_bounds(self@, person@, true);
            assert forall|k: int| 0 <= k < ids@.len() implies ((#[trigger] ids@[k]) as int)
                < self@.len() by {
                assert(fsons@.contains(ids@[k]) || msons@.contains(ids@[k]));
            }
        }
        let r = self.idx_to_person_vec(&ids);
        proof {
            assert forall|k: int| 0 <= k < r@.len() implies is_brother_id(
                self@,
                person@,
                (#[trigger] r@[k])@.id,
            ) && r@[k]@ == self@[r@[k]@.id as int] by {
                assert(r@[k]@ == self@[ids@[k] as int]);
                assert(person_wf(self@, ids@[k] as int));
                assert(r@[k]@.id == ids@[k]);
            }
            assert forall|id: usize| #[trigger] is_brother_id(self@, person@, id) implies exists|
                k: int,
            | 0 <= k < r@.len() && (#[trigger] r@[k])@.id == id by {
                assert(ids@.contains(id));
                let k = choose|k: int| 0 <= k < ids@.len() && ids@[k] == id;
                assert(person_wf(self@, ids@[k] as int));
                assert(r@[k]@.id == id);
            }
            assert forall|k1: int, k2: int| 0 <= k1 < k2 < r@.len() implies r@[k1]@.id
                != r@[k2]@.id by {
                assert(person_wf(self@, ids@[k1] as int));
                assert(person_wf(self@, ids@[k2] as int));
                assert(r@[k1]@.id == ids@[k1]);
                assert(r@[k2]@.id == ids@[k2]);
            }
            assert(ids_of(r@) =~= brothers_seq(self@, person@)) by {
                assert forall|k: int| 0 <= k < r@.len() implies ids_of(r@)[k] == ids@[k] by {
                    assert(r@[k]@ == self@[ids@[k] as int]);
                    assert(person_wf(self@, ids@[k] as int));
                }
            }
        }
        r
    }

    /// The sisters of a person: daughters of the person's father and of the
    /// person's mother, without duplicates and without the person, in the
    /// order `sisters_seq` fixes.
    pub fn get_sisters<'a>(&'a self, person: &Person) -> (r: Vec<&'a Person>)
        requires
            self.wf(),
            contains_person(self@, person@),
        ensures
            forall|k: int|
                0 <= k < r@.len() ==> is_sister_id(self@, person@, (#[trigger] r@[k])@.id)
                    && r@[k]@ == self@[r@[k]@.id as int],
            forall|id: usize|
                #[trigger] is_sister_id(self@, person@, id) ==> exists|k: int|
                    0 <= k < r@.len() && (#[trigger] r@[k])@.id == id,
            forall|k1: int, k2: int| 0 <= k1 < k2 < r@.len() ==> r@[k1]@.id != r@[k2]@.id,
            ids_of(r@) == sisters_seq(self@, person@),
    {
        proof {
            lemma_member_at_id(self@, person@);
            assert(person_wf(self@, person@.id as int));
        }
        let fdaughters = self.children_ids_of_parent(person.father_idx(), false);
        let mdaughters = self.children_ids_of_parent(person.mother_idx(), false);
        let ids = dedup_union_minus(&fdaughters, &mdaughters, person.id());
        proof {
            lemma_child_ids_in_bounds(self@, person@, false);
            assert forall|k: int| 0 <= k < ids@.len() implies ((#[trigger] ids@[k]) as int)
                < self@.len() by {
                assert(fdaughters@.contains(ids@[k]) || mdaughters@.contains(ids@[k]));
            }
        }
        let r = self.idx_to_person_vec(&ids);
        proof {
            assert forall|k: int| 0 <= k < r@.len() implies is_sister_id(
                self@,
                person@,
                (#[trigger] r@[k])@.id,
            ) && r@[k]@ == self@[r@[k]@.id as int] by {
                assert(r@[k]@ == self@[ids@[k] as int]);
                assert(person_wf(self@, ids@[k] as int));
                assert(r@[k]@.id == ids@[k]);
            }
            assert forall|id: usize| #[trigger] is_sister_id(self@, person@, id) implies exists|
                k: int,
            | 0 <= k < r@.len() && (#[trigger] r@[k])@.id == id by {
                assert(ids@.contains(id));
                let k = choose|k: int| 0 <= k < ids@.len() && ids@[k] == id;
                assert(person_wf(self@, ids@[k] as int));
                assert(r@[k]@.id == id);
            }
            assert forall|k1: int, k2: int| 0 <= k1 < k2 < r@.len() implies r@[k1]@.id
                != r@[k2]@.id by {
                assert(person_wf(self@, ids@[k1] as int));
                assert(person_wf(self@, ids@[k2] as int));
                assert(r@[k1]@.id == ids@[k1]);
                assert(r@[k2]@.id == ids@[k2]);
            }
            assert(ids_of(r@) =~= sisters_seq(self@, person@)) by {
                assert forall|k: int| 0 <= k < r@.len() implies ids_of(r@)[k] == ids@[k] by {
                    assert(r@[k]@ == self@[ids@[k] as int]);
                    assert(person_wf(self@, ids@[k] as int));
                }
            }
        }
        r
    }

    /// The brothers and sisters of a person, in that order.
    fn siblings_of<'a>(&'a self, person: &Person) -> (r: Vec<&'a Person>)
        requires
            self.wf(),
            contains_person(self@, person@),
        ensures
            forall|k: int|
                0 <= k < r@.len() ==> is_sibling_id(self@, person@, (#[trigger] r@[k])@.id) && ((
                r@[k])@.id as int) < self@.len() && r@[k]@ == self@[r@[k]@.id as int],
            forall|b: usize| #[trigger] is_sibling_id(self@, person@, b) ==> id_in_views(r@, b),
            ids_of(r@) == siblings_seq(self@, person@),
    {
        let brothers = self.get_brothers(person);
        let sisters = self.get_sisters(person);
        let mut r: Vec<&Person> = Vec::new();
        let mut bi: usize = 0;
        while bi < brothers.len()
            invariant
                bi <= brothers@.len(),
                r@ == brothers@.subrange(0, bi as int),
            decreases brothers@.len() - bi,
        {
            r.push(brothers[bi]);
            proof {
                assert(r@ =~= brothers@.subrange(0, bi + 1));
            }
            bi += 1;
        }
        proof {
            assert(r@ =~= brothers@);
        }
        let mut si: usize = 0;
        while si < sisters.len()
            invariant
                si <= sisters@.len(),
                r@ == brothers@ + sisters@.subrange(0, si as int),
            decreases sisters@.len() - si,
        {
            r.push(sisters[si]);
            proof {
                assert(r@ =~= brothers@ + sisters@.subrange(0, si + 1));
            }
            si += 1;
        }
        proof {
            assert(r@ =~= brothers@ + sisters@);
            assert forall|k: int| 0 <= k < r@.len() implies is_sibling_id(
                self@,
                person@,
                (#[trigger] r@[k])@.id,
            ) && ((r@[k])@.id as int) < self@.len() && r@[k]@ == self@[r@[k]@.id as int] by {
                lemma_child_ids_in_bounds(self@, person@, true);
                lemma_child_ids_in_bounds(self@, person@, false);
                if k < brothers@.len() {
                    assert(r@[k] == brothers@[k]);
                    assert(is_brother_id(self@, person@, brothers@[k]@.id));
                } else {
                    assert(r@[k] == sisters@[k - brothers@.len()]);
                    assert(is_sister_id(self@, person@, sisters@[k - brothers@.len()]@.id));
                }
            }
            assert forall|b: usize| #[trigger] is_sibling_id(self@, person@, b) implies id_in_views(
                r@,
                b,
            ) by {
                if is_brother_id(self@, person@, b) {
                    let k = choose|k: int|
                        0 <= k < brothers@.len() && (#[trigger] brothers@[k])@.id == b;
                    assert(r@[k] == brothers@[k]);
                } else {
                    let k = choose|k: int|
                        0 <= k < sisters@.len() && (#[trigger] sisters@[k])@.id == b;
                    assert(r@[brothers@.len() + k] == sisters@[k]);
                }
            }
            assert(ids_of(r@) =~= siblings_seq(self@, person@)) by {
                assert forall|k: int| 0 <= k < r@.len() implies ids_of(r@)[k] == siblings_seq(
                    self@,
                    person@,
                )[k] by {
                    if k < brothers@.len() {
                        assert(r@[k] == brothers@[k]);
                        assert(ids_of(brothers@)[k] == brothers@[k]@.id);
                    } else {
                        assert(r@[k] == sisters@[k - brothers@.len()]);
                        assert(ids_of(sisters@)[k - brothers@.len()] == sisters@[k
                            - brothers@.len()]@.id);
                    }
                }
            }
        }
        r
    }

    /// The sons (`male`) or daughters of every sibling of the person,
    /// concatenated sibling by sibling, without deduplication.
    fn children_of_siblings<'a>(&'a self, person: &Person, male: bool) -> (r: Vec<&'a Person>)
        requires
            self.wf(),
            contains_person(self@, person@),
        ensures
            forall|k: int|
                0 <= k < r@.len() ==> is_sib_child_id(self@, person@, male, (#[trigger] r@[k])@.id)
                    && r@[k]@ == self@[r@[k]@.id as int],
            forall|id: usize|
                #[trigger] is_sib_child_id(self@, person@, male, id) ==> id_in_views(r@, id),
            ids_of(r@) == concat_children(self@, siblings_seq(self@, person@), male),
    {
        let siblings = self.siblings_of(person);
        let ghost sib_ids = siblings_seq(self@, person@);
        let mut r: Vec<&Person> = Vec::new();
        proof {
            assert(sib_ids.take(0) =~= Seq::<usize>::empty());
            assert(ids_of(r@) =~= concat_children(self@, sib_ids.take(0), male));
        }
        let mut j: usize = 0;
        while j < siblings.len()
            invariant
                j <= siblings@.len(),
                self.wf(),
                contains_person(self@, person@),
                forall|k: int|
                    0 <= k < siblings@.len() ==> is_sibling_id(
                        self@,
                        person@,
                        (#[trigger] siblings@[k])@.id,
                    ) && ((siblings@[k])@.id as int) < self@.len() && siblings@[k]@
                        == self@[siblings@[k]@.id as int],
                forall|b: usize|
                    #[trigger] is_sibling_id(self@, person@, b) ==> id_in_views(siblings@, b),
                forall|k: int|
                    0 <= k < r@.len() ==> is_sib_child_id(
                        self@,
                        person@,
                        male,
                        (#[trigger] r@[k])@.id,
                    ) && r@[k]@ == self@[r@[k]@.id as int],
                forall|m: int, id: usize|
                    #![trigger children_seq(self@, Some((siblings@[m])@.id), male).contains(id)]
                    0 <= m < j && children_seq(self@, Some(siblings@[m]@.id), male).contains(id)
                        ==> id_in_views(r@, id),
                sib_ids == siblings_seq(self@, person@),
                sib_ids == ids_of(siblings@),
                ids_of(r@) == concat_children(self@, sib_ids.take(j as int), male),
            decreases siblings@.len() - j,
        {
            let sib = siblings[j];
            proof {
                assert(self@[sib@.id as int] == sib@);
                assert(contains_person(self@, sib@));
            }
            let children = if male {
                self.get_sons_of(sib)
            } else {
                self.get_daughters_of(sib)
            };
            let ghost cseq = children_seq(self@, Some(sib@.id), male);
            proof {
                assert(children@.len() == cseq.len());
                assert forall|k: int| 0 <= k < children@.len() implies (#[trigger] children@[k])@
                    == self@[cseq[k] as int] by {}
            }
            let mut t: usize = 0;
            while t < children.len()
                invariant
                    t <= children@.len(),
                    self.wf(),
                    cseq == children_seq(self@, Some(sib@.id), male),
                    children@.len() == cseq.len(),
                    forall|k: int|
                        0 <= k < children@.len() ==> (#[trigger] children@[k])@ == self@[cseq[k] as int],
                    is_sibling_id(self@, person@, sib@.id),
                    (sib@.id as int) < self@.len(),
                    sib@ == self@[sib@.id as int],
                    forall|k: int|
                        0 <= k < r@.len() ==> is_sib_child_id(
                            self@,
                            person@,
                            male,
                            (#[trigger] r@[k])@.id,
                        ) && r@[k]@ == self@[r@[k]@.id as int],
                    forall|m: int, id: usize|
                        #![trigger children_seq(self@, Some((siblings@[m])@.id), male).contains(id)]
                        0 <= m < j && children_seq(self@, Some(siblings@[m]@.id), male).contains(id)
                            ==> id_in_views(r@, id),
                    forall|k2: int| 0 <= k2 < t ==> id_in_views(r@, #[trigger] cseq[k2]),
                    ids_of(r@) == concat_children(self@, sib_ids.take(j as int), male)
                        + cseq.take(t as int),
                decreases children@.len() - t,
            {
                let ghost r0 = r@;
                r.push(children[t]);
                proof {
                    assert(person_wf(self@, sib@.id as int));
                    assert((cseq[t as int] as int) < self@.len());
                    assert(person_wf(self@, cseq[t as int] as int));
                    assert(children@[t as int]@ == self@[cseq[t as int] as int]);
                    assert(children@[t as int]@.id == cseq[t as int]);
                    assert(cseq.contains(cseq[t as int]));
                    assert(is_sib_child_id(self@, person@, male, children@[t as int]@.id));
                    assert forall|idq: usize| id_in_views(r0, idq) implies id_in_views(
                        r@,
                        idq,
                    ) by {
                        let k = choose|k: int| 0 <= k < r0.len() && (#[trigger] r0[k])@.id == idq;
                        assert(r@[k] == r0[k]);
                    }
                    assert(r@[r@.len() - 1] == children@[t as int]);
                    assert(id_in_views(r@, cseq[t as int]));
                    assert forall|k: int| 0 <= k < r@.len() implies ids_of(r@)[k] == ids_of(
                        r0,
                    ).push(cseq[t as int])[k] by {
                        if k < r0.len() {
                            assert(r@[k] == r0[k]);
                        }
                    }
                    assert(ids_of(r@) =~= ids_of(r0).push(cseq[t as int]));
                    assert(cseq.take(t + 1) =~= cseq.take(t as int).push(cseq[t as int]));
                    assert(ids_of(r@) =~= concat_children(self@, sib_ids.take(j as int), male)
                        + cseq.take(t + 1));
                }
                t += 1;
            }
            proof {
                assert forall|id: usize| children_seq(
                    self@,
                    Some((siblings@[j as int])@.id),
                    male,
                ).contains(id) implies id_in_views(r@, id) by {
                    let k2 = choose|k2: int| 0 <= k2 < cseq.len() && cseq[k2] == id;
                    assert(id_in_views(r@, cseq[k2]));
                }
                assert(cseq.take(cseq.len() as int) =~= cseq);
                assert(sib_ids[j as int] == ids_of(siblings@)[j as int]);
                assert(cseq == children_seq(self@, Some(sib_ids[j as int]), male));
                assert(sib_ids.take(j + 1) =~= sib_ids.take(j as int).push(sib_ids[j as int]));
                lemma_concat_snoc(self@, sib_ids.take(j as int), sib_ids[j as int], male);
                assert(ids_of(r@) == concat_children(self@, sib_ids.take(j + 1), male));
            }
            j += 1;
        }
        proof {
            assert forall|id: usize| #[trigger] is_sib_child_id(self@, person@, male, id) implies
                id_in_views(r@, id) by {
                let b = choose|b: usize|
                    #[trigger] is_sibling_id(self@, person@, b) && (b as int) < self@.len()
                        && children_seq(self@, Some(b), male).contains(id);
                assert(id_in_views(siblings@, b));
                let m = choose|m: int|
                    0 <= m < siblings@.len() && (#[trigger] siblings@[m])@.id == b;
                assert(children_seq(self@, Some(siblings@[m]@.id), male).contains(id));
            }
            assert(sib_ids.take(sib_ids.len() as int) =~= sib_ids);
        }
        r
    }

    /// The nephews of a person: the sons of each brother or sister,
    /// brothers then sisters, concatenated sibling by sibling without
    /// deduplication across sibling paths.
    pub fn get_nephews<'a>(&'a self, person: &Person) -> (r: Vec<&'a Person>)
        requires
            self.wf(),
            contains_person(self@, person@),
        ensures
            forall|k: int|
                0 <= k < r@.len() ==> is_nephew_id(self@, person@, (#[trigger] r@[k])@.id)
                    && r@[k]@ == self@[r@[k]@.id as int],
            forall|id: usize|
                #[trigger] is_nephew_id(self@, person@, id) ==> id_in_views(r@, id),
            ids_of(r@) == nephews_seq(self@, person@),
    {
        self.children_of_siblings(person, true)
    }

    /// The nieces of a person: the daughters of each brother or sister,
    /// brothers then sisters, concatenated sibling by sibling without
    /// deduplication across sibling paths.
    pub fn get_nieces<'a>(&'a self, person: &Person) -> (r: Vec<&'a Person>)
        requires
            self.wf(),
            contains_person(self@, person@),
        ensures
            forall|k: int|
                0 <= k < r@.len() ==> is_niece_id(self@, person@, (#[trigger] r@[k])@.id)
                    && r@[k]@ == self@[r@[k]@.id as int],
            forall|id: usize| #[trigger] is_niece_id(self@, person@, id) ==> id_in_views(r@, id),
            ids_of(r@) == nieces_seq(self@, person@),
    {
        self.children_of_siblings(person, false)
    }
}

/// Child ids stored on a well-formed person's parents are in bounds.
proof fn lemma_child_ids_in_bounds(s: Seq<PersonV>, p: PersonV, male: bool)
    requires
        lineage_wf(s),
        contains_person(s, p),
    ensures
        forall|id: usize|
            children_seq(s, p.father, male).contains(id) || children_seq(
                s,
                p.mother,
                male,
            ).contains(id) ==> (id as int) < s.len(),
{
    lemma_member_at_id(s, p);
    assert(person_wf(s, p.id as int));
    assert forall|id: usize|
        children_seq(s, p.father, male).contains(id) || children_seq(s, p.mother, male).contains(
            id,
        ) implies (id as int) < s.len() by {
        if children_seq(s, p.father, male).contains(id) {
            let f = p.father.unwrap();
            assert(person_wf(s, f as int));
            let k = choose|k: int|
                0 <= k < children_seq(s, p.father, male).len() && children_seq(
                    s,
                    p.father,
                    male,
                )[k] == id;
            if male {
                assert(s[f as int].sons[k] == id);
            } else {
                assert(s[f as int].daughters[k] == id);
            }
        } else {
            let m = p.mother.unwrap();
            assert(person_wf(s, m as int));
            let k = choose|k: int|
                0 <= k < children_seq(s, p.mother, male).len() && children_seq(
                    s,
                    p.mother,
                    male,
                )[k] == id;
            if male {
                assert(s[m as int].sons[k] == id);
            } else {
                assert(s[m as int].daughters[k] == id);
            }
        }
    }
}

} // verus!
