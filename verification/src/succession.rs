//! The succession query: seven relationship tiers evaluated in a fixed
//! priority order, each tier exhausted before the next is considered, ties
//! broken alphabetically by full name, the dead always skipped.

use crate::lineage::{
    contains_person, has_name, index_of_name, lineage_wf, person_wf, Lineage,
};
use crate::names::{
    lemma_lex_connected, lemma_lex_lt_irreflexive, lemma_lex_lt_trans, lex_le, lex_lt, str_eq,
    str_lt,
};
use crate::person::{Person, PersonV};
use crate::relations::{
    children_seq, id_in_views, is_brother_id, is_nephew_id, is_niece_id, is_sib_child_id,
    is_sibling_id, is_sister_id,
};
use vstd::prelude::*;

verus! {

/// Membership of `id` in succession tier `t` of person `p`:
/// sons, brothers, nephews, daughters, sisters, nieces, then anyone else
/// of `p`'s house.
pub open spec fn in_tier(s: Seq<PersonV>, p: PersonV, t: int, id: usize) -> bool {
    if t == 1 {
        p.sons.contains(id)
    } else if t == 2 {
        is_brother_id(s, p, id)
    } else if t == 3 {
        is_nephew_id(s, p, id)
    } else if t == 4 {
        p.daughters.contains(id)
    } else if t == 5 {
        is_sister_id(s, p, id)
    } else if t == 6 {
        is_niece_id(s, p, id)
    } else if t == 7 {
        (id as int) < s.len() && s[id as int].house == p.house && s[id as int].name != p.name
    } else {
        false
    }
}

/// Tier `t` of `p` holds at least one living person.
pub open spec fn tier_has_living(s: Seq<PersonV>, p: PersonV, t: int) -> bool {
    exists|id: usize|
        #[trigger] in_tier(s, p, t, id) && (id as int) < s.len() && s[id as int].alive
}

/// `q` is the successor of `p` found in tier `t`: every earlier tier holds
/// no living person, `q` is a living member of tier `t`, and no living
/// member of tier `t` has an alphabetically earlier name.
pub open spec fn is_successor(s: Seq<PersonV>, p: PersonV, t: int, q: PersonV) -> bool {
    &&& 1 <= t <= 7
    &&& forall|u: int| 1 <= u < t ==> !tier_has_living(s, p, u)
    &&& (q.id as int) < s.len()
    &&& q == s[q.id as int]
    &&& q.alive
    &&& in_tier(s, p, t, q.id)
    &&& forall|id: usize|
        #[trigger] in_tier(s, p, t, id) && (id as int) < s.len() && s[id as int].alive ==> lex_le(
            q.name,
            s[id as int].name,
        )
}

/// No tier of `p` holds a living person: the succession query is empty.
pub open spec fn no_successor(s: Seq<PersonV>, p: PersonV) -> bool {
    forall|t: int| 1 <= t <= 7 ==> !tier_has_living(s, p, t)
}

/// A living candidate with the alphabetically first name, if any candidate
/// is alive.
fn first_alive_in_order(cands: &Vec<&Person>) -> (r: Option<Person>)
    ensures
        match r {
            Some(q) => q@.alive && (exists|k: int|
                0 <= k < cands@.len() && (#[trigger] cands@[k])@ == q@) && forall|k: int|
                0 <= k < cands@.len() && (#[trigger] cands@[k])@.alive ==> lex_le(
                    q@.name,
                    cands@[k]@.name,
                ),
            None => forall|k: int| 0 <= k < cands@.len() ==> !(#[trigger] cands@[k])@.alive,
        },
{
    let mut best: Option<&Person> = None;
    let mut i: usize = 0;
    while i < cands.len()
        invariant
            i <= cands@.len(),
            match best {
                Some(b) => b@.alive && (exists|k: int|
                    0 <= k < cands@.len() && (#[trigger] cands@[k])@ == b@) && forall|k: int|
                    0 <= k < i && (#[trigger] cands@[k])@.alive ==> !lex_lt(
                        cands@[k]@.name,
                        b@.name,
                    ),
                None => forall|k: int| 0 <= k < i ==> !(#[trigger] cands@[k])@.alive,
            },
        decreases cands@.len() - i,
    {
        let c: &Person = cands[i];
        if c.alive() {
            match best {
                None => {
                    proof {
                        lemma_lex_lt_irreflexive(c@.name);
                    }
                    best = Some(c);
                },
                Some(b) => {
                    if str_lt(c.name(), b.name()) {
                        proof {
                            assert forall|k: int|
                                0 <= k < i && (#[trigger] cands@[k])@.alive implies !lex_lt(
                                cands@[k]@.name,
                                c@.name,
                            ) by {
                                if lex_lt(cands@[k]@.name, c@.name) {
                                    lemma_lex_lt_trans(cands@[k]@.name, c@.name, b@.name);
                                }
                            }
                            lemma_lex_lt_irreflexive(c@.name);
                        }
                        best = Some(c);
                    }
                },
            }
        }
        i += 1;
    }
    match best {
        None => None,
        Some(b) => {
            proof {
                assert forall|k: int|
                    0 <= k < cands@.len() && (#[trigger] cands@[k])@.alive implies lex_le(
                    b@.name,
                    cands@[k]@.name,
                ) by {
                    lemma_lex_connected(b@.name, cands@[k]@.name);
                }
            }
            Some(b.clone())
        },
    }
}

/// Ids named by the computed sibling relations are in bounds.
proof fn lemma_relation_ids_in_bounds(s: Seq<PersonV>, p: PersonV, id: usize)
    requires
        lineage_wf(s),
        contains_person(s, p),
    ensures
        is_brother_id(s, p, id) ==> (id as int) < s.len(),
        is_sister_id(s, p, id) ==> (id as int) < s.len(),
        is_nephew_id(s, p, id) ==> (id as int) < s.len(),
        is_niece_id(s, p, id) ==> (id as int) < s.len(),
{
    crate::lineage::lemma_member_at_id(s, p);
    assert(person_wf(s, p.id as int));
    if is_brother_id(s, p, id) || is_sister_id(s, p, id) {
        lemma_sibling_in_bounds(s, p, id);
    }
    if is_nephew_id(s, p, id) {
        let b = choose|b: usize|
            #[trigger] is_sibling_id(s, p, b) && (b as int) < s.len() && children_seq(
                s,
                Some(b),
                true,
            ).contains(id);
        assert(person_wf(s, b as int));
        let k = choose|k: int| 0 <= k < s[b as int].sons.len() && s[b as int].sons[k] == id;
        assert((s[b as int].sons[k] as int) < s.len());
    }
    if is_niece_id(s, p, id) {
        let b = choose|b: usize|
            #[trigger] is_sibling_id(s, p, b) && (b as int) < s.len() && children_seq(
                s,
                Some(b),
                false,
            ).contains(id);
        assert(person_wf(s, b as int));
        let k = choose|k: int|
            0 <= k < s[b as int].daughters.len() && s[b as int].daughters[k] == id;
        assert((s[b as int].daughters[k] as int) < s.len());
    }
}

proof fn lemma_sibling_in_bounds(s: Seq<PersonV>, p: PersonV, id: usize)
    requires
        lineage_wf(s),
        contains_person(s, p),
        is_sibling_id(s, p, id),
    ensures
        (id as int) < s.len(),
{
    crate::lineage::lemma_member_at_id(s, p);
    assert(person_wf(s, p.id as int));
    if children_seq(s, p.father, true).contains(id) || children_seq(s, p.father, false).contains(
        id,
    ) {
        let f = p.father.unwrap();
        assert(person_wf(s, f as int));
        if children_seq(s, p.father, true).contains(id) {
            let k = choose|k: int| 0 <= k < s[f as int].sons.len() && s[f as int].sons[k] == id;
            assert((s[f as int].sons[k] as int) < s.len());
        } else {
            let k = choose|k: int|
                0 <= k < s[f as int].daughters.len() && s[f as int].daughters[k] == id;
            assert((s[f as int].daughters[k] as int) < s.len());
        }
    } else {
        let m = p.mother.unwrap();
        assert(person_wf(s, m as int));
        if children_seq(s, p.mother, true).contains(id) {
            let k = choose|k: int| 0 <= k < s[m as int].sons.len() && s[m as int].sons[k] == id;
            assert((s[m as int].sons[k] as int) < s.len());
        } else {
            let k = choose|k: int|
                0 <= k < s[m as int].daughters.len() && s[m as int].daughters[k] == id;
            assert((s[m as int].daughters[k] as int) < s.len());
        }
    }
}

/// A candidate list that mirrors tier `t` exactly turns the selection
/// helper's answer into the tier-level statement.
proof fn lemma_tier_bridge(s: Seq<PersonV>, p: PersonV, t: int, c: Seq<&Person>, r: Option<PersonV>)
    requires
        1 <= t <= 7,
        forall|u: int| 1 <= u < t ==> !tier_has_living(s, p, u),
        forall|k: int|
            0 <= k < c.len() ==> in_tier(s, p, t, (#[trigger] c[k])@.id) && ((c[k])@.id as int)
                < s.len() && c[k]@ == s[c[k]@.id as int],
        forall|id: usize|
            #[trigger] in_tier(s, p, t, id) && (id as int) < s.len() ==> id_in_views(c, id),
        match r {
            Some(q) => q.alive && (exists|k: int| 0 <= k < c.len() && (#[trigger] c[k])@ == q)
                && forall|k: int|
                0 <= k < c.len() && (#[trigger] c[k])@.alive ==> lex_le(q.name, c[k]@.name),
            None => forall|k: int| 0 <= k < c.len() ==> !(#[trigger] c[k])@.alive,
        },
    ensures
        match r {
            Some(q) => is_successor(s, p, t, q),
            None => !tier_has_living(s, p, t),
        },
{
    match r {
        Some(q) => {
            let k0 = choose|k0: int| 0 <= k0 < c.len() && (#[trigger] c[k0])@ == q;
            assert(in_tier(s, p, t, q.id));
            assert(q == s[q.id as int]);
            assert forall|id: usize|
                #[trigger] in_tier(s, p, t, id) && (id as int) < s.len() && s[id as int].alive
                    implies lex_le(q.name, s[id as int].name) by {
                assert(id_in_views(c, id));
                let k = choose|k: int| 0 <= k < c.len() && (#[trigger] c[k])@.id == id;
                assert(c[k]@ == s[id as int]);
            }
        },
        None => {
            if tier_has_living(s, p, t) {
                let id = choose|id: usize|
                    #[trigger] in_tier(s, p, t, id) && (id as int) < s.len() && s[id as int].alive;
                assert(id_in_views(c, id));
                let k = choose|k: int| 0 <= k < c.len() && (#[trigger] c[k])@.id == id;
                assert(c[k]@ == s[id as int]);
            }
        },
    }
}

impl Lineage {
    /// The next in line after the named person: the alphabetically first
    /// living member of the first tier, in the fixed priority order
    /// sons, brothers, nephews, daughters, sisters, nieces, house-mates,
    /// that holds a living member. `None` when the name is unknown or no
    /// tier holds a living person.
    pub fn next_in_line(&self, name: &str) -> (r: Option<Person>)
        requires
            self.wf(),
        ensures
            match r {
                Some(q) => has_name(self@, name@) && q@.alive && (exists|t: int|
                    #[trigger] is_successor(
                        self@,
                        self@[index_of_name(self@, name@)],
                        t,
                        q@,
                    )),
                None => !has_name(self@, name@) || no_successor(
                    self@,
                    self@[index_of_name(self@, name@)],
                ),
            },
    {
        let queried = match self.get_from_name(name) {
            None => {
                return None;
            },
            Some(p) => p,
        };
        let ghost s = self@;
        let ghost p = queried@;
        proof {
            let i = index_of_name(s, name@);
            assert(0 <= i < s.len() && s[i].name == name@);
            assert(contains_person(s, p));
        }
        let sons = self.get_sons_of(queried);
        let pick = first_alive_in_order(&sons);
        proof {
            lemma_direct_children_cover(s, p, sons@, true);
            lemma_tier_bridge(s, p, 1, sons@, match pick {
                Some(ref q) => Some(q@),
                None => None,
            });
        }
        if let Some(q) = pick {
            return Some(q);
        }
        let brothers = self.get_brothers(queried);
        let pick = first_alive_in_order(&brothers);
        proof {
            assert forall|k: int| 0 <= k < brothers@.len() implies in_tier(
                s,
                p,
                2,
                (#[trigger] brothers@[k])@.id,
            ) && ((brothers@[k])@.id as int) < s.len() && brothers@[k]@
                == s[brothers@[k]@.id as int] by {
                lemma_relation_ids_in_bounds(s, p, brothers@[k]@.id);
            }
            lemma_tier_bridge(s, p, 2, brothers@, match pick {
                Some(ref q) => Some(q@),
                None => None,
            });
        }
        if let Some(q) = pick {
            return Some(q);
        }
        let nephews = self.get_nephews(queried);
        let pick = first_alive_in_order(&nephews);
        proof {
            assert forall|k: int| 0 <= k < nephews@.len() implies in_tier(
                s,
                p,
                3,
                (#[trigger] nephews@[k])@.id,
            ) && ((nephews@[k])@.id as int) < s.len() && nephews@[k]@
                == s[nephews@[k]@.id as int] by {
                lemma_relation_ids_in_bounds(s, p, nephews@[k]@.id);
            }
            lemma_tier_bridge(s, p, 3, nephews@, match pick {
                Some(ref q) => Some(q@),
                None => None,
            });
        }
        if let Some(q) = pick {
            return Some(q);
        }
        let daughters = self.get_daughters_of(queried);
        let pick = first_alive_in_order(&daughters);
        proof {
            lemma_direct_children_cover(s, p, daughters@, false);
            lemma_tier_bridge(s, p, 4, daughters@, match pick {
                Some(ref q) => Some(q@),
                None => None,
            });
        }
        if let Some(q) = pick {
            return Some(q);
        }
        let sisters = self.get_sisters(queried);
        let pick = first_alive_in_order(&sisters);
        proof {
            assert forall|k: int| 0 <= k < sisters@.len() implies in_tier(
                s,
                p,
                5,
                (#[trigger] sisters@[k])@.id,
            ) && ((sisters@[k])@.id as int) < s.len() && sisters@[k]@
                == s[sisters@[k]@.id as int] by {
                lemma_relation_ids_in_bounds(s, p, sisters@[k]@.id);
            }
            lemma_tier_bridge(s, p, 5, sisters@, match pick {
                Some(ref q) => Some(q@),
                None => None,
            });
        }
        if let Some(q) = pick {
            return Some(q);
        }
        let nieces = self.get_nieces(queried);
        let pick = first_alive_in_order(&nieces);
        proof {
            assert forall|k: int| 0 <= k < nieces@.len() implies in_tier(
                s,
                p,
                6,
                (#[trigger] nieces@[k])@.id,
            ) && ((nieces@[k])@.id as int) < s.len() && nieces@[k]@ == s[nieces@[k]@.id as int] by {
                lemma_relation_ids_in_bounds(s, p, nieces@[k]@.id);
            }
            lemma_tier_bridge(s, p, 6, nieces@, match pick {
                Some(ref q) => Some(q@),
                None => None,
            });
        }
        if let Some(q) = pick {
            return Some(q);
        }
        // last resort: anyone else of the same house, by name
        let n = self.people().len();
        let mut mates: Vec<&Person> = Vec::new();
        let mut i: usize = 0;
        while i < n
            invariant
                i <= n,
                n == self@.len(),
                self.wf(),
                s == self@,
                p == queried@,
                contains_person(s, p),
                forall|k: int|
                    0 <= k < mates@.len() ==> in_tier(s, p, 7, (#[trigger] mates@[k])@.id) && ((
                    mates@[k])@.id as int) < s.len() && mates@[k]@ == s[mates@[k]@.id as int],
                forall|id: usize|
                    #[trigger] in_tier(s, p, 7, id) && (id as int) < i ==> id_in_views(mates@, id),
            decreases n - i,
        {
            let cand = self.people_ref(i);
            proof {
                assert(person_wf(s, i as int));
            }
            if str_eq(cand.house(), queried.house()) && !str_eq(cand.name(), queried.name()) {
                let ghost m0 = mates@;
                mates.push(cand);
                proof {
                    assert(mates@[mates@.len() - 1] == cand);
                    assert(cand@.id == i);
                    assert(in_tier(s, p, 7, cand@.id));
                    assert forall|id: usize|
                        #[trigger] in_tier(s, p, 7, id) && (id as int) < i + 1 implies id_in_views(
                        mates@,
                        id,
                    ) by {
                        if (id as int) < i {
                            let k = choose|k: int|
                                0 <= k < m0.len() && (#[trigger] m0[k])@.id == id;
                            assert(mates@[k] == m0[k]);
                        } else {
                            assert(mates@[mates@.len() - 1]@.id == id);
                        }
                    }
                }
            } else {
                proof {
                    assert forall|id: usize|
                        #[trigger] in_tier(s, p, 7, id) && (id as int) < i + 1 implies id_in_views(
                        mates@,
                        id,
                    ) by {
                        if (id as int) == i {
                            assert(s[id as int] == cand@);
                            assert(false);
                        }
                    }
                }
            }
            i += 1;
        }
        let pick = first_alive_in_order(&mates);
        proof {
            lemma_tier_bridge(s, p, 7, mates@, match pick {
                Some(ref q) => Some(q@),
                None => None,
            });
            if pick is None {
                assert forall|t: int| 1 <= t <= 7 implies !tier_has_living(s, p, t) by {}
            }
        }
        match pick {
            Some(q) => Some(q),
            None => None,
        }
    }
}

/// The vector the direct-children accessor returns mirrors tier 1 (sons)
/// or tier 4 (daughters) exactly.
proof fn lemma_direct_children_cover(s: Seq<PersonV>, p: PersonV, c: Seq<&Person>, male: bool)
    requires
        lineage_wf(s),
        contains_person(s, p),
        c.len() == (if male {
            p.sons
        } else {
            p.daughters
        }).len(),
        forall|k: int|
            0 <= k < c.len() ==> (#[trigger] c[k])@ == s[(if male {
                p.sons
            } else {
                p.daughters
            })[k] as int],
    ensures
        male ==> forall|k: int|
            0 <= k < c.len() ==> in_tier(s, p, 1, (#[trigger] c[k])@.id) && ((c[k])@.id as int)
                < s.len() && c[k]@ == s[c[k]@.id as int],
        male ==> forall|id: usize|
            #[trigger] in_tier(s, p, 1, id) && (id as int) < s.len() ==> id_in_views(c, id),
        !male ==> forall|k: int|
            0 <= k < c.len() ==> in_tier(s, p, 4, (#[trigger] c[k])@.id) && ((c[k])@.id as int)
                < s.len() && c[k]@ == s[c[k]@.id as int],
        !male ==> forall|id: usize|
            #[trigger] in_tier(s, p, 4, id) && (id as int) < s.len() ==> id_in_views(c, id),
{
    crate::lineage::lemma_member_at_id(s, p);
    assert(person_wf(s, p.id as int));
    if male {
        let ids = p.sons;
        assert forall|k: int| 0 <= k < c.len() implies in_tier(s, p, 1, (#[trigger] c[k])@.id)
            && ((c[k])@.id as int) < s.len() && c[k]@ == s[c[k]@.id as int] by {
            assert((ids[k] as int) < s.len());
            assert(person_wf(s, ids[k] as int));
            assert(c[k]@.id == ids[k]);
            assert(ids.contains(ids[k]));
        }
        assert forall|id: usize| #[trigger] in_tier(s, p, 1, id) && (id as int) < s.len() implies
            id_in_views(c, id) by {
            let k = choose|k: int| 0 <= k < ids.len() && ids[k] == id;
            assert((ids[k] as int) < s.len());
            assert(person_wf(s, ids[k] as int));
            assert(c[k]@.id == id);
        }
    } else {
        let ids = p.daughters;
        assert forall|k: int| 0 <= k < c.len() implies in_tier(s, p, 4, (#[trigger] c[k])@.id)
            && ((c[k])@.id as int) < s.len() && c[k]@ == s[c[k]@.id as int] by {
            assert((ids[k] as int) < s.len());
            assert(person_wf(s, ids[k] as int));
            assert(c[k]@.id == ids[k]);
            assert(ids.contains(ids[k]));
        }
        assert forall|id: usize| #[trigger] in_tier(s, p, 4, id) && (id as int) < s.len() implies
            id_in_views(c, id) by {
            let k = choose|k: int| 0 <= k < ids.len() && ids[k] == id;
            assert((ids[k] as int) < s.len());
            assert(person_wf(s, ids[k] as int));
            assert(c[k]@.id == id);
        }
    }
}

} // verus!
