//! Laws of the lineage model, stated and proved once and for all: a
//! successful insertion links child and parent both ways, a second father
//! or mother for the same child is rejected, and a repeated kill reports
//! the person as already dead.

use crate::lineage::{
    has_name, index_of_name, insert_result, kill_result, lemma_index_of_name, lemma_kill_wf,
    lemma_resolve, lemma_spec_insert_wf, lineage_wf, resolve, spec_insert, spec_kill,
    ConstructionError, KillError,
};
use crate::names::valid_name;
use crate::person::{PersonV, Sex};
use vstd::prelude::*;

verus! {

/// Law: insertion is bidirectionally consistent. After a successful
/// insertion the child's recorded father (or mother, by the parent's sex)
/// is the parent's slot, and the parent's son (or daughter, by the child's
/// sex) list holds the child's slot.
pub proof fn lemma_insert_bidirectional(
    s: Seq<PersonV>,
    pn: Seq<char>,
    ps: Sex,
    cn: Seq<char>,
    cs: Sex,
)
    requires
        lineage_wf(s),
        s.len() + 1 <= usize::MAX,
        insert_result(s, pn, ps, cn, cs) is Ok,
    ensures
        ({
            let s4 = spec_insert(s, pn, ps, cn, cs);
            let ci = index_of_name(s4, cn);
            let pi = index_of_name(s4, pn);
            &&& lineage_wf(s4)
            &&& has_name(s4, cn)
            &&& has_name(s4, pn)
            &&& (ps == Sex::Male ==> s4[ci].father == Some(pi as usize))
            &&& (ps == Sex::Female ==> s4[ci].mother == Some(pi as usize))
            &&& (cs == Sex::Male ==> s4[pi].sons.contains(ci as usize))
            &&& (cs == Sex::Female ==> s4[pi].daughters.contains(ci as usize))
        }),
{
    let s1 = resolve(s, cn, cs);
    let ci = index_of_name(s1, cn);
    let s2 = resolve(s1, pn, ps);
    let pi = index_of_name(s2, pn);
    lemma_resolve(s, cn, cs);
    lemma_resolve(s1, pn, ps);
    lemma_spec_insert_wf(s, pn, ps, cn, cs);
    let s4 = spec_insert(s, pn, ps, cn, cs);
    assert(s2[ci] == s1[ci]);
    assert(s4[ci].name == cn);
    assert(s4[pi].name == pn);
    lemma_index_of_name(s4, cn, ci);
    lemma_index_of_name(s4, pn, pi);
    if cs == Sex::Male {
        let s3 = s2.update(pi, PersonV { sons: s2[pi].sons.push(ci as usize), ..s2[pi] });
        assert(s3[pi].sons[s3[pi].sons.len() - 1] == ci as usize);
        assert(s4[pi].sons == s3[pi].sons);
        assert(s4[pi].sons.contains(ci as usize));
    } else {
        let s3 = s2.update(pi, PersonV { daughters: s2[pi].daughters.push(ci as usize), ..s2[pi] });
        assert(s3[pi].daughters[s3[pi].daughters.len() - 1] == ci as usize);
        assert(s4[pi].daughters == s3[pi].daughters);
        assert(s4[pi].daughters.contains(ci as usize));
    }
}

/// Law: a child keeps its first recorded father. Once an insertion has
/// recorded a father for a child, any later record naming a father for the
/// same child is rejected, whoever that father is.
pub proof fn lemma_second_father_fails(
    s: Seq<PersonV>,
    pn1: Seq<char>,
    cn: Seq<char>,
    cs1: Sex,
    pn2: Seq<char>,
    cs2: Sex,
)
    requires
        lineage_wf(s),
        s.len() + 1 <= usize::MAX,
        insert_result(s, pn1, Sex::Male, cn, cs1) is Ok,
        valid_name(pn2),
    ensures
        insert_result(spec_insert(s, pn1, Sex::Male, cn, cs1), pn2, Sex::Male, cn, cs2) == Err::<(), ConstructionError>(
            ConstructionError::FatherAlreadySet,
        ),
{
    lemma_insert_bidirectional(s, pn1, Sex::Male, cn, cs1);
}

/// Law: a child keeps its first recorded mother, symmetrically.
pub proof fn lemma_second_mother_fails(
    s: Seq<PersonV>,
    pn1: Seq<char>,
    cn: Seq<char>,
    cs1: Sex,
    pn2: Seq<char>,
    cs2: Sex,
)
    requires
        lineage_wf(s),
        s.len() + 1 <= usize::MAX,
        insert_result(s, pn1, Sex::Female, cn, cs1) is Ok,
        valid_name(pn2),
    ensures
        insert_result(spec_insert(s, pn1, Sex::Female, cn, cs1), pn2, Sex::Female, cn, cs2) == Err::<(), ConstructionError>(
            ConstructionError::MotherAlreadySet,
        ),
{
    lemma_insert_bidirectional(s, pn1, Sex::Female, cn, cs1);
}

/// Law: `kill` detects repetition. When a kill succeeds, killing the same
/// name again reports the person as already dead rather than succeeding.
pub proof fn lemma_kill_twice(s: Seq<PersonV>, name: Seq<char>)
    requires
        lineage_wf(s),
        kill_result(s, name) is Ok,
    ensures
        kill_result(spec_kill(s, name), name) == Err::<(), KillError>(KillError::PersonAlreadyDead),
{
    lemma_kill_wf(s, name);
    let s2 = spec_kill(s, name);
    let i = index_of_name(s, name);
    let w = choose|w: int| #![trigger s[w]] 0 <= w < s.len() && s[w].name == name;
    lemma_index_of_name(s, name, w);
    assert(s2[i].name == name);
    lemma_index_of_name(s2, name, i);
    assert(!s2[i].alive);
}

} // verus!
