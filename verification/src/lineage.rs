//! The family lineage: an append-only arena of people, validated insertion
//! of parent/child records, and vital-status mutation.

use crate::names::{str_eq, valid_name};
use crate::person::{new_person_v, Person, PersonV, Sex};
use vstd::prelude::*;

verus! {

#[derive(Debug, Clone, PartialEq, Eq, Structural)]
pub enum KillError {
    PersonNotFound,
    PersonAlreadyDead,
}

#[derive(Debug, Clone, PartialEq, Eq, Structural)]
pub enum ConstructionError {
    InvalidChildName,
    InvalidParentName,
    FatherAlreadySet,
    MotherAlreadySet,
}

/// One parent/child record, as produced by whatever ingestion the caller
/// uses; consumed by `Lineage::insert` to grow the family graph.
pub struct ParentChildInfo {
    pub parent_name: String,
    pub parent_sex: Sex,
    pub child_name: String,
    pub child_sex: Sex,
}

impl ParentChildInfo {
    pub fn new(parent_name: &str, parent_sex: Sex, child_name: &str, child_sex: Sex) -> (r: Self)
        ensures
            r.parent_name@ == parent_name@,
            r.parent_sex == parent_sex,
            r.child_name@ == child_name@,
            r.child_sex == child_sex,
    {
        ParentChildInfo {
            parent_name: parent_name.to_owned(),
            parent_sex,
            child_name: child_name.to_owned(),
            child_sex,
        }
    }
}

/// A family lineage: who exists, who is alive, and how people are related.
/// People live in an append-only arena and refer to each other by index.
pub struct Lineage {
    people_graph: Vec<Person>,
}

impl View for Lineage {
    type V = Seq<PersonV>;

    closed spec fn view(&self) -> Seq<PersonV> {
        Seq::new(self.people_graph@.len(), |i: int| self.people_graph@[i]@)
    }
}

/// An optional parent reference is in bounds.
pub open spec fn parent_ok(s: Seq<PersonV>, parent: Option<usize>) -> bool {
    match parent {
        Some(p) => (p as int) < s.len(),
        None => true,
    }
}

/// Well-formedness of one arena slot: the stored id matches the position,
/// the name carries a house token, the house is derived from the name, and
/// every stored relationship index is in bounds.
pub open spec fn person_wf(s: Seq<PersonV>, i: int) -> bool {
    &&& s[i].id == i
    &&& valid_name(s[i].name)
    &&& s[i].house == crate::names::house_of(s[i].name)
    &&& parent_ok(s, s[i].father)
    &&& parent_ok(s, s[i].mother)
    &&& forall|k: int| 0 <= k < s[i].sons.len() ==> (s[i].sons[k] as int) < s.len()
    &&& forall|k: int| 0 <= k < s[i].daughters.len() ==> (s[i].daughters[k] as int) < s.len()
}

/// Well-formedness of the whole arena: every slot is well formed and
/// names are unique.
pub open spec fn lineage_wf(s: Seq<PersonV>) -> bool {
    &&& forall|i: int| 0 <= i < s.len() ==> #[trigger] person_wf(s, i)
    &&& forall|i: int, j: int| #![trigger s[i], s[j]] 0 <= i < j < s.len() ==> s[i].name != s[j].name
}

/// Some arena slot holds a person with this name.
pub open spec fn has_name(s: Seq<PersonV>, name: Seq<char>) -> bool {
    exists|i: int| #![trigger s[i]] 0 <= i < s.len() && s[i].name == name
}

/// The arena slot of the person with this name (meaningful under
/// `has_name`; unique under `lineage_wf`).
pub open spec fn index_of_name(s: Seq<PersonV>, name: Seq<char>) -> int {
    choose|i: int| #![trigger s[i]] 0 <= i < s.len() && s[i].name == name
}

/// The value `p` is one of the arena's people.
pub open spec fn contains_person(s: Seq<PersonV>, p: PersonV) -> bool {
    exists|i: int| #![trigger s[i]] 0 <= i < s.len() && s[i] == p
}

/// Under well-formedness, a slot holding `name` is the slot `index_of_name`
/// points at.
pub proof fn lemma_index_of_name(s: Seq<PersonV>, name: Seq<char>, i: int)
    requires
        lineage_wf(s),
        0 <= i < s.len(),
        s[i].name == name,
    ensures
        has_name(s, name),
        index_of_name(s, name) == i,
{
    assert(has_name(s, name));
    let j = index_of_name(s, name);
    if i < j {
        assert(s[i].name != s[j].name);
    }
    if j < i {
        assert(s[j].name != s[i].name);
    }
}

/// Under well-formedness, a member sits at the slot its id names.
pub proof fn lemma_member_at_id(s: Seq<PersonV>, p: PersonV)
    requires
        lineage_wf(s),
        contains_person(s, p),
    ensures
        (p.id as int) < s.len(),
        s[p.id as int] == p,
        person_wf(s, p.id as int),
{
    let i = choose|i: int| #![trigger s[i]] 0 <= i < s.len() && s[i] == p;
    assert(person_wf(s, i));
}

/// The outcome `kill` owes for this name: success exactly when the name is
/// known and the person is still alive.
pub open spec fn kill_result(s: Seq<PersonV>, name: Seq<char>) -> Result<(), KillError> {
    if !has_name(s, name) {
        Err(KillError::PersonNotFound)
    } else if !s[index_of_name(s, name)].alive {
        Err(KillError::PersonAlreadyDead)
    } else {
        Ok(())
    }
}

/// The arena after `kill`: the named person's `alive` flag cleared on
/// success, everything unchanged otherwise.
pub open spec fn spec_kill(s: Seq<PersonV>, name: Seq<char>) -> Seq<PersonV> {
    if kill_result(s, name) is Ok {
        let i = index_of_name(s, name);
        s.update(i, PersonV { alive: false, ..s[i] })
    } else {
        s
    }
}

/// The arena after resolving a name: unchanged when the name is known,
/// otherwise extended with a fresh person of that name.
pub open spec fn resolve(s: Seq<PersonV>, name: Seq<char>, sex: Sex) -> Seq<PersonV> {
    if has_name(s, name) {
        s
    } else {
        s.push(new_person_v(name, sex, s.len() as usize))
    }
}

/// The outcome `insert` owes for a record: success unless a name lacks its
/// house token or the child already has the parent the record supplies.
pub open spec fn insert_result(
    s: Seq<PersonV>,
    pn: Seq<char>,
    ps: Sex,
    cn: Seq<char>,
    cs: Sex,
) -> Result<(), ConstructionError> {
    if !valid_name(cn) {
        Err(ConstructionError::InvalidChildName)
    } else if !valid_name(pn) {
        Err(ConstructionError::InvalidParentName)
    } else if ps == Sex::Male && has_name(s, cn) && s[index_of_name(s, cn)].father is Some {
        Err(ConstructionError::FatherAlreadySet)
    } else if ps == Sex::Female && has_name(s, cn) && s[index_of_name(s, cn)].mother is Some {
        Err(ConstructionError::MotherAlreadySet)
    } else {
        Ok(())
    }
}

/// The arena after `insert`: on success the child and parent are resolved
/// (created if new, child first), the child's id is appended to the
/// parent's sons or daughters, and the child's father or mother is set to
/// the parent's id. On failure the arena is unchanged.
pub open spec fn spec_insert(
    s: Seq<PersonV>,
    pn: Seq<char>,
    ps: Sex,
    cn: Seq<char>,
    cs: Sex,
) -> Seq<PersonV> {
    if insert_result(s, pn, ps, cn, cs) is Ok {
        let s1 = resolve(s, cn, cs);
        let ci = index_of_name(s1, cn);
        let s2 = resolve(s1, pn, ps);
        let pi = index_of_name(s2, pn);
        let s3 = if cs == Sex::Male {
            s2.update(pi, PersonV { sons: s2[pi].sons.push(ci as usize), ..s2[pi] })
        } else {
            s2.update(pi, PersonV { daughters: s2[pi].daughters.push(ci as usize), ..s2[pi] })
        };
        if ps == Sex::Male {
            s3.update(ci, PersonV { father: Some(pi as usize), ..s3[ci] })
        } else {
            s3.update(ci, PersonV { mother: Some(pi as usize), ..s3[ci] })
        }
    } else {
        s
    }
}

impl Default for Lineage {
    fn default() -> (r: Self)
        ensures
            r@ == Seq::<PersonV>::empty(),
            r.wf(),
    {
        Lineage::new()
    }
}

impl Lineage {
    pub open spec fn wf(&self) -> bool {
        lineage_wf(self@)
    }

    pub fn new() -> (r: Self)
        ensures
            r@ == Seq::<PersonV>::empty(),
            r.wf(),
    {
        let r = Lineage { people_graph: Vec::new() };
        proof {
            assert(r@ =~= Seq::<PersonV>::empty());
        }
        r
    }

    /// Arena position of the person with this name, if any.
    fn find_index(&self, name: &str) -> (r: Option<usize>)
        ensures
            match r {
                Some(i) => (i as int) < self@.len() && self@[i as int].name == name@,
                None => !has_name(self@, name@),
            },
    {
        let mut i: usize = 0;
        while i < self.people_graph.len()
            invariant
                i <= self@.len(),
                self@.len() == self.people_graph@.len(),
                forall|k: int| #![trigger self@[k]] 0 <= k < i ==> self@[k].name != name@,
            decreases self@.len() - i,
        {
            proof {
                assert(self@[i as int] == self.people_graph@[i as int]@);
            }
            if str_eq(self.people_graph[i].name(), name) {
                return Some(i);
            }
            i += 1;
        }
        None
    }

    pub fn get_from_name(&self, name: &str) -> (r: Option<&Person>)
        requires
            self.wf(),
        ensures
            match r {
                Some(p) => has_name(self@, name@) && p@ == self@[index_of_name(self@, name@)],
                None => !has_name(self@, name@),
            },
    {
        match self.find_index(name) {
            Some(i) => {
                proof {
                    lemma_index_of_name(self@, name@, i as int);
                    assert(self@[i as int] == self.people_graph@[i as int]@);
                }
                Some(&self.people_graph[i])
            },
            None => None,
        }
    }

    pub fn get_from_idx(&self, idx: usize) -> (r: Option<&Person>)
        ensures
            match r {
                Some(p) => (idx as int) < self@.len() && p@ == self@[idx as int],
                None => (idx as int) >= self@.len(),
            },
    {
        if idx < self.people_graph.len() {
            proof {
                assert(self@[idx as int] == self.people_graph@[idx as int]@);
            }
            Some(&self.people_graph[idx])
        } else {
            None
        }
    }

    /// Reference to the person at an in-bounds arena slot.
    pub(crate) fn people_ref(&self, idx: usize) -> (r: &Person)
        requires
            (idx as int) < self@.len(),
        ensures
            r@ == self@[idx as int],
    {
        proof {
            assert(self@[idx as int] == self.people_graph@[idx as int]@);
        }
        &self.people_graph[idx]
    }

    /// All people, in arena (insertion) order.
    pub fn people(&self) -> (r: &Vec<Person>)
        ensures
            r@.len() == self@.len(),
            forall|i: int| 0 <= i < r@.len() ==> (#[trigger] r@[i])@ == self@[i],
    {
        &self.people_graph
    }

    /// Marks the named person dead. Reports whether the name is unknown or
    /// the person was already dead; the graph changes only on success.
    pub fn kill(&mut self, person_name: &str) -> (r: Result<(), KillError>)
        requires
            old(self).wf(),
        ensures
            final(self).wf(),
            r == kill_result(old(self)@, person_name@),
            final(self)@ == spec_kill(old(self)@, person_name@),
    {
        match self.find_index(person_name) {
            None => Err(KillError::PersonNotFound),
            Some(i) => {
                proof {
                    lemma_index_of_name(self@, person_name@, i as int);
                    assert(self@[i as int] == self.people_graph@[i as int]@);
                }
                if !self.people_graph[i].alive() {
                    Err(KillError::PersonAlreadyDead)
                } else {
                    let ghost s0 = self@;
                    let mut q = self.people_graph[i].clone();
                    q.kill();
                    self.people_graph[i] = q;
                    proof {
                        assert(self@ =~= spec_kill(s0, person_name@));
                        lemma_kill_wf(s0, person_name@);
                    }
                    Ok(())
                }
            },
        }
    }

    /// The arena index of the named person, creating one when the name is
    /// new. On repeated names the first recorded sex wins: the `sex`
    /// argument is ignored for a name that is already known.
    fn insert_or_get_existing(&mut self, name: &str, sex: Sex) -> (idx: usize)
        requires
            old(self).wf(),
            valid_name(name@),
        ensures
            final(self).wf(),
            final(self)@ == resolve(old(self)@, name@, sex),
            idx as int == index_of_name(final(self)@, name@),
            (idx as int) < final(self)@.len(),
            final(self)@[idx as int].name == name@,
    {
        match self.find_index(name) {
            Some(i) => {
                proof {
                    lemma_index_of_name(self@, name@, i as int);
                }
                i
            },
            None => {
                let index = self.people_graph.len();
                let p = Person::new(name, sex, index);
                let ghost s0 = self@;
                self.people_graph.push(p);
                proof {
                    let s2 = self@;
                    assert(s2 =~= s0.push(new_person_v(name@, sex, index)));
                    assert forall|j: int| 0 <= j < s2.len() implies #[trigger] person_wf(s2, j) by {
                        if j < s0.len() {
                            assert(person_wf(s0, j));
                            assert(s2[j] == s0[j]);
                        } else {
                            assert(s2[j] == new_person_v(name@, sex, index));
                        }
                    }
                    assert forall|i: int, j: int| #![trigger s2[i], s2[j]] 0 <= i < j < s2.len()
                        implies s2[i].name != s2[j].name by {
                        if j < s0.len() {
                            assert(s0[i].name != s0[j].name);
                        } else {
                            assert(s2[i] == s0[i]);
                        }
                    }
                    lemma_index_of_name(s2, name@, index as int);
                }
                index
            },
        }
    }

    /// Records one parent/child relationship. On success the child's id is
    /// appended to the parent's sons or daughters and the child's father or
    /// mother is set to the parent; people named for the first time are
    /// created. The record is rejected, leaving the graph unchanged, when a
    /// name lacks a house token or the child already has a recorded parent
    /// of the given parent's sex.
    pub fn insert(&mut self, parent_child_info: ParentChildInfo) -> (r: Result<
        (),
        ConstructionError,
    >)
        requires
            old(self).wf(),
        ensures
            final(self).wf(),
            r == insert_result(
                old(self)@,
                parent_child_info.parent_name@,
                parent_child_info.parent_sex,
                parent_child_info.child_name@,
                parent_child_info.child_sex,
            ),
            final(self)@ == spec_insert(
                old(self)@,
                parent_child_info.parent_name@,
                parent_child_info.parent_sex,
                parent_child_info.child_name@,
                parent_child_info.child_sex,
            ),
    {
        let ParentChildInfo { parent_name, parent_sex, child_name, child_sex } = parent_child_info;
        let ghost s0 = self@;
        let ghost pn = parent_name@;
        let ghost cn = child_name@;
        if !crate::names::is_valid_name(child_name.as_str()) {
            return Err(ConstructionError::InvalidChildName);
        }
        if !crate::names::is_valid_name(parent_name.as_str()) {
            return Err(ConstructionError::InvalidParentName);
        }
        match self.find_index(child_name.as_str()) {
            Some(ci0) => {
                proof {
                    lemma_index_of_name(self@, cn, ci0 as int);
                    assert(self@[ci0 as int] == self.people_graph@[ci0 as int]@);
                }
                match parent_sex {
                    Sex::Male => {
                        if self.people_graph[ci0].father_idx().is_some() {
                            return Err(ConstructionError::FatherAlreadySet);
                        }
                    },
                    Sex::Female => {
                        if self.people_graph[ci0].mother_idx().is_some() {
                            return Err(ConstructionError::MotherAlreadySet);
                        }
                    },
                }
            },
            None => {},
        }
        proof {
            assert(insert_result(s0, pn, parent_sex, cn, child_sex) is Ok);
        }
        let child_idx = self.insert_or_get_existing(child_name.as_str(), child_sex);
        let ghost s1 = self@;
        let parent_idx = self.insert_or_get_existing(parent_name.as_str(), parent_sex);
        let ghost s2 = self@;
        let ghost ci = index_of_name(s1, cn);
        let ghost pi = index_of_name(s2, pn);
        proof {
            assert(ci == child_idx as int);
            assert(pi == parent_idx as int);
            // the child keeps its slot when the parent is resolved afterwards
            if !has_name(s1, pn) {
                assert(s2[ci] == s1[ci]);
            }
            assert(s2[ci].name == cn);
            assert(self.people_graph@[parent_idx as int]@ == s2[pi]);
        }
        let mut parent_p = self.people_graph[parent_idx].clone();
        match child_sex {
            Sex::Male => parent_p.push_son(child_idx),
            Sex::Female => parent_p.push_daughter(child_idx),
        }
        self.people_graph[parent_idx] = parent_p;
        let ghost s3 = self@;
        proof {
            if child_sex == Sex::Male {
                assert(s3 =~= s2.update(
                    pi,
                    PersonV { sons: s2[pi].sons.push(ci as usize), ..s2[pi] },
                ));
            } else {
                assert(s3 =~= s2.update(
                    pi,
                    PersonV { daughters: s2[pi].daughters.push(ci as usize), ..s2[pi] },
                ));
            }
            assert(self.people_graph@[child_idx as int]@ == s3[ci]);
        }
        let mut child_p = self.people_graph[child_idx].clone();
        match parent_sex {
            Sex::Male => child_p.set_father(parent_idx),
            Sex::Female => child_p.set_mother(parent_idx),
        }
        self.people_graph[child_idx] = child_p;
        proof {
            let s4 = self@;
            if parent_sex == Sex::Male {
                assert(s4 =~= s3.update(ci, PersonV { father: Some(parent_idx), ..s3[ci] }));
            } else {
                assert(s4 =~= s3.update(ci, PersonV { mother: Some(parent_idx), ..s3[ci] }));
            }
            assert(s4 == spec_insert(s0, pn, parent_sex, cn, child_sex));
            lemma_insert_updates_wf(s2, ci, pi, parent_sex, child_sex);
        }
        Ok(())
    }
}

/// Resolving a name keeps the arena well formed, leaves existing slots
/// unchanged, and leaves the name present at a unique slot.
pub proof fn lemma_resolve(s: Seq<PersonV>, name: Seq<char>, sex: Sex)
    requires
        lineage_wf(s),
        valid_name(name),
        s.len() <= usize::MAX,
    ensures
        ({
            let s1 = resolve(s, name, sex);
            &&& lineage_wf(s1)
            &&& has_name(s1, name)
            &&& s.len() <= s1.len() <= s.len() + 1
            &&& forall|i: int| 0 <= i < s.len() ==> s1[i] == s[i]
            &&& 0 <= index_of_name(s1, name) < s1.len()
            &&& s1[index_of_name(s1, name)].name == name
        }),
{
    let s1 = resolve(s, name, sex);
    if has_name(s, name) {
        let i = choose|i: int| #![trigger s[i]] 0 <= i < s.len() && s[i].name == name;
        lemma_index_of_name(s, name, i);
    } else {
        let np = new_person_v(name, sex, s.len() as usize);
        assert(s1 == s.push(np));
        assert forall|j: int| 0 <= j < s1.len() implies #[trigger] person_wf(s1, j) by {
            if j < s.len() {
                assert(person_wf(s, j));
                assert(s1[j] == s[j]);
            } else {
                assert(s1[j] == np);
            }
        }
        assert forall|i: int, j: int| #![trigger s1[i], s1[j]] 0 <= i < j < s1.len() implies
            s1[i].name != s1[j].name by {
            if j < s.len() {
                assert(s[i].name != s[j].name);
            } else {
                assert(s1[i] == s[i]);
            }
        }
        lemma_index_of_name(s1, name, s.len() as int);
    }
}

/// A successful insertion keeps the arena well formed.
pub proof fn lemma_spec_insert_wf(s: Seq<PersonV>, pn: Seq<char>, ps: Sex, cn: Seq<char>, cs: Sex)
    requires
        lineage_wf(s),
        s.len() + 1 <= usize::MAX,
        insert_result(s, pn, ps, cn, cs) is Ok,
    ensures
        lineage_wf(spec_insert(s, pn, ps, cn, cs)),
{
    let s1 = resolve(s, cn, cs);
    let ci = index_of_name(s1, cn);
    let s2 = resolve(s1, pn, ps);
    let pi = index_of_name(s2, pn);
    lemma_resolve(s, cn, cs);
    lemma_resolve(s1, pn, ps);
    assert(0 <= ci < s1.len());
    assert(s2[ci] == s1[ci]);
    lemma_insert_updates_wf(s2, ci, pi, ps, cs);
}

/// The two slot updates of a successful insertion keep the arena well
/// formed: only in-bounds references are added and no name changes.
pub(crate) proof fn lemma_insert_updates_wf(s2: Seq<PersonV>, ci: int, pi: int, ps: Sex, cs: Sex)
    requires
        lineage_wf(s2),
        0 <= ci < s2.len(),
        0 <= pi < s2.len(),
    ensures
        ({
            let s3 = if cs == Sex::Male {
                s2.update(pi, PersonV { sons: s2[pi].sons.push(ci as usize), ..s2[pi] })
            } else {
                s2.update(pi, PersonV { daughters: s2[pi].daughters.push(ci as usize), ..s2[pi] })
            };
            let s4 = if ps == Sex::Male {
                s3.update(ci, PersonV { father: Some(pi as usize), ..s3[ci] })
            } else {
                s3.update(ci, PersonV { mother: Some(pi as usize), ..s3[ci] })
            };
            lineage_wf(s4)
        }),
{
    let s3 = if cs == Sex::Male {
        s2.update(pi, PersonV { sons: s2[pi].sons.push(ci as usize), ..s2[pi] })
    } else {
        s2.update(pi, PersonV { daughters: s2[pi].daughters.push(ci as usize), ..s2[pi] })
    };
    let s4 = if ps == Sex::Male {
        s3.update(ci, PersonV { father: Some(pi as usize), ..s3[ci] })
    } else {
        s3.update(ci, PersonV { mother: Some(pi as usize), ..s3[ci] })
    };
    assert(s4.len() == s2.len());
    assert forall|j: int| 0 <= j < s4.len() implies #[trigger] person_wf(s4, j) by {
        assert(person_wf(s2, j));
        assert(s4[j].id == s2[j].id);
        assert(s4[j].name == s2[j].name);
        assert(s4[j].house == s2[j].house);
        if j == ci && ps == Sex::Male {
            assert(s4[j].father == Some(pi as usize));
        } else {
            assert(s4[j].father == s2[j].father);
        }
        if j == ci && ps == Sex::Female {
            assert(s4[j].mother == Some(pi as usize));
        } else {
            assert(s4[j].mother == s2[j].mother);
        }
        if j == pi && cs == Sex::Male {
            assert(s4[j].sons == s2[j].sons.push(ci as usize));
        } else {
            assert(s4[j].sons == s2[j].sons);
        }
        if j == pi && cs == Sex::Female {
            assert(s4[j].daughters == s2[j].daughters.push(ci as usize));
        } else {
            assert(s4[j].daughters == s2[j].daughters);
        }
    }
    assert forall|i: int, j: int| #![trigger s4[i], s4[j]] 0 <= i < j < s4.len() implies s4[i].name
        != s4[j].name by {
        assert(s4[i].name == s2[i].name);
        assert(s4[j].name == s2[j].name);
        assert(s2[i].name != s2[j].name);
    }
}

/// Killing preserves well-formedness: no names or references change.
pub proof fn lemma_kill_wf(s: Seq<PersonV>, name: Seq<char>)
    requires
        lineage_wf(s),
    ensures
        lineage_wf(spec_kill(s, name)),
{
    let s2 = spec_kill(s, name);
    if kill_result(s, name) is Ok {
        assert forall|i: int| 0 <= i < s2.len() implies #[trigger] person_wf(s2, i) by {
            assert(person_wf(s, i));
            assert(s2[i].id == s[i].id);
            assert(s2[i].name == s[i].name);
            assert(s2[i].house == s[i].house);
            assert(s2[i].father == s[i].father);
            assert(s2[i].mother == s[i].mother);
            assert(s2[i].sons == s[i].sons);
            assert(s2[i].daughters == s[i].daughters);
        }
        assert forall|i: int, j: int| #![trigger s2[i], s2[j]] 0 <= i < j < s2.len() implies s2[i].name
            != s2[j].name by {
            assert(s[i].name != s[j].name);
        }
    }
}

} // verus!
