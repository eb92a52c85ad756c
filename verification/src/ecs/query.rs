//! Queries: the entities that carry every component type of a list.
//!
//! A query names component types, each with the access that the caller wants
//! to its values. A list that names a type twice is refused when the query is
//! made, before any storage is looked at. Running a query walks the packed
//! entities of the last listed type and keeps those that every other listed
//! type has a value for.

use vstd::prelude::*;
use crate::ecs::ECSStorage;
use crate::ecs::component::ComponentTypeUUID;
use crate::ecs::entity::EntityUUID;

verus! {

/// What a query wants to do with the values of a component type.
#[derive(Clone, Copy, PartialEq, Eq, Structural, Debug)]
pub enum Access {
    Read,
    Write,
}

/// One entry of a query: a component type and the access wanted to it.
#[derive(Clone, Copy, PartialEq, Eq, Structural, Debug)]
pub struct QueryTerm {
    pub component_type: ComponentTypeUUID,
    pub access: Access,
}

/// Why a list of terms is no query.
#[derive(Clone, Copy, PartialEq, Eq, Structural, Debug)]
pub enum QueryError {
    /// The list has no term.
    Empty,
    /// The component type is listed twice for writing.
    DuplicateWrite(ComponentTypeUUID),
    /// The component type is listed for reading and for writing.
    ReadWriteConflict(ComponentTypeUUID),
    /// The component type is listed twice for reading.
    DuplicateRead(ComponentTypeUUID),
}

/// Terms `i` and `j`, in this order, name the same component type.
pub open spec fn clash(terms: Seq<QueryTerm>, i: int, j: int) -> bool {
    0 <= i < j < terms.len() && terms[i].component_type == terms[j].component_type
}

/// A list of terms that makes a query: it has a term, and no component type
/// is named twice.
pub open spec fn well_formed(terms: Seq<QueryTerm>) -> bool {
    terms.len() > 0 && forall|i: int, j: int| !clash(terms, i, j)
}

/// The clash that is met first when the list is read from its start: no
/// other clash ends earlier, and none that ends at the same term starts
/// earlier.
pub open spec fn first_clash(terms: Seq<QueryTerm>, i: int, j: int) -> bool {
    clash(terms, i, j) && forall|a: int, b: int|
        clash(terms, a, b) ==> j < b || (j == b && i <= a)
}

/// The error for two terms that name the same component type.
pub open spec fn clash_error(first: QueryTerm, second: QueryTerm) -> QueryError {
    match (first.access, second.access) {
        (Access::Write, Access::Write) => QueryError::DuplicateWrite(second.component_type),
        (Access::Read, Access::Read) => QueryError::DuplicateRead(second.component_type),
        _ => QueryError::ReadWriteConflict(second.component_type),
    }
}

/// A validated list of terms.
pub struct Query {
    terms: Vec<QueryTerm>,
}

impl View for Query {
    type V = Seq<QueryTerm>;

    /// The terms, in the order in which they were listed.
    closed spec fn view(&self) -> Seq<QueryTerm> {
        self.terms@
    }
}

/// One result of a query: an entity, and for each term of the query the dense
/// slot of the entity's component of that term's type.
pub struct QueryMatch {
    pub entity: EntityUUID,
    pub slots: Vec<usize>,
}

impl Query {
    /// Validity: the terms make a query.
    pub open spec fn wf(&self) -> bool {
        well_formed(self@)
    }

    /// Makes a query of a list of terms, or says why the list is none. An
    /// empty list is refused, and so is a list that names a component type
    /// twice; the error then speaks of the clash that is met first.
    pub fn new(terms: Vec<QueryTerm>) -> (r: Result<Query, QueryError>)
        ensures
            r is Ok <==> well_formed(terms@),
            r matches Ok(q) ==> q@ == terms@ && q.wf(),
            r matches Err(e) ==> (if terms@.len() == 0 {
                e == QueryError::Empty
            } else {
                exists|i: int, j: int|
                    first_clash(terms@, i, j) && e == clash_error(terms@[i], terms@[j])
            }),
    {
        if terms.len() == 0 {
            return Err(QueryError::Empty);
        }
        let mut j: usize = 1;
        while j < terms.len()
            invariant
                1 <= j <= terms@.len(),
                forall|a: int, b: int| clash(terms@, a, b) ==> j <= b,
            decreases terms@.len() - j,
        {
            let mut i: usize = 0;
            while i < j
                invariant
                    i <= j < terms@.len(),
                    forall|a: int, b: int| clash(terms@, a, b) ==> j < b || (j == b && i <= a),
                decreases j - i,
            {
                if terms[i].component_type == terms[j].component_type {
                    let first: QueryTerm = terms[i];
                    let second: QueryTerm = terms[j];
                    let error: QueryError = match first.access {
                        Access::Write => match second.access {
                            Access::Write => QueryError::DuplicateWrite(second.component_type),
                            Access::Read => QueryError::ReadWriteConflict(second.component_type),
                        },
                        Access::Read => match second.access {
                            Access::Write => QueryError::ReadWriteConflict(second.component_type),
                            Access::Read => QueryError::DuplicateRead(second.component_type),
                        },
                    };
                    proof {
                        assert(clash(terms@, i as int, j as int));
                        assert(first_clash(terms@, i as int, j as int));
                    }
                    return Err(error);
                }
                i = i + 1;
            }
            j = j + 1;
        }
        Ok(Query { terms })
    }

    /// Number of terms.
    pub fn len(&self) -> (n: usize)
        ensures
            n == self@.len(),
    {
        self.terms.len()
    }

    /// Term `k`.
    pub fn term(&self, k: usize) -> (t: QueryTerm)
        requires
            k < self@.len(),
        ensures
            t == self@[k as int],
    {
        self.terms[k]
    }
}

impl<C> ECSStorage<C> {
    /// Whether the entity has a component of every type that the terms name.
    pub open spec fn joins(&self, terms: Seq<QueryTerm>, entity: usize) -> bool {
        forall|k: int|
            0 <= k < terms.len() ==> self.components(
                (#[trigger] terms[k]).component_type,
            ).contains_key(entity)
    }

    /// The entities of a packed sequence that have a component of every type
    /// that the terms name, in the order of the sequence.
    pub open spec fn joined(&self, terms: Seq<QueryTerm>, candidates: Seq<usize>) -> Seq<usize>
        decreases candidates.len(),
    {
        if candidates.len() == 0 {
            candidates
        } else if self.joins(terms, candidates.last()) {
            self.joined(terms, candidates.drop_last()).push(candidates.last())
        } else {
            self.joined(terms, candidates.drop_last())
        }
    }

    /// What is in a join: the candidates that have every type, each as often
    /// as it is among the candidates.
    pub proof fn lemma_joined(&self, terms: Seq<QueryTerm>, candidates: Seq<usize>)
        ensures
            self.joined(terms, candidates).len() <= candidates.len(),
            forall|e: usize|
                self.joined(terms, candidates).contains(e) <==> candidates.contains(e)
                    && self.joins(terms, e),
            candidates.no_duplicates() ==> self.joined(terms, candidates).no_duplicates(),
        decreases candidates.len(),
    {
        let out = self.joined(terms, candidates);
        if candidates.len() == 0 {
        } else {
            let rest = candidates.drop_last();
            let last = candidates.last();
            let inner = self.joined(terms, rest);
            self.lemma_joined(terms, rest);
            assert forall|e: usize|
                out.contains(e) <==> candidates.contains(e) && self.joins(terms, e) by {
                if out.contains(e) {
                    let i = out.index_of(e);
                    if i < inner.len() {
                        assert(inner[i] == e);
                        assert(inner.contains(e));
                        assert(rest.contains(e));
                        let r = rest.index_of(e);
                        assert(candidates[r] == e);
                    } else {
                        assert(candidates[candidates.len() - 1] == e);
                    }
                }
                if candidates.contains(e) && self.joins(terms, e) {
                    let c = candidates.index_of(e);
                    if c < rest.len() {
                        assert(rest[c] == e);
                        assert(rest.contains(e));
                        assert(inner.contains(e));
                        let i = inner.index_of(e);
                        assert(out[i] == e);
                    } else {
                        assert(out[out.len() - 1] == e);
                    }
                }
            }
            if candidates.no_duplicates() {
                assert forall|i: int, j: int|
                    0 <= i < rest.len() && 0 <= j < rest.len() && i != j implies rest[i]
                    != rest[j] by {
                    assert(rest[i] == candidates[i]);
                    assert(rest[j] == candidates[j]);
                }
                if self.joins(terms, last) {
                    assert forall|i: int, j: int|
                        0 <= i < out.len() && 0 <= j < out.len() && i != j implies out[i]
                        != out[j] by {
                        if i == inner.len() && j < inner.len() {
                            assert(inner.contains(inner[j]));
                            assert(rest.contains(inner[j]));
                            let r = rest.index_of(inner[j]);
                            assert(candidates[r] == inner[j]);
                        }
                        if j == inner.len() && i < inner.len() {
                            assert(inner.contains(inner[i]));
                            assert(rest.contains(inner[i]));
                            let r = rest.index_of(inner[i]);
                            assert(candidates[r] == inner[i]);
                        }
                    }
                }
            }
        }
    }

    /// The sequence of the entities of a sequence of results.
    pub open spec fn matched_entities(rows: Seq<QueryMatch>) -> Seq<usize> {
        Seq::new(rows.len(), |r: int| rows[r].entity.0)
    }

    /// Runs a query. The results are the entities that have a component of
    /// every listed type, each once, in the packing order of the last listed
    /// type. Each result names, term by term, the dense slot of the entity's
    /// component, by which [`Self::component_at`] and
    /// [`Self::component_at_mut`] reach the value as it is now.
    pub fn query(&self, query: &Query) -> (rows: Vec<QueryMatch>)
        requires
            self.wf(),
            query.wf(),
        ensures
            Self::matched_entities(rows@) == self.joined(
                query@,
                self.component_keys(query@.last().component_type),
            ),
            Self::matched_entities(rows@).no_duplicates(),
            forall|e: usize|
                Self::matched_entities(rows@).contains(e) <==> self.joins(query@, e),
            forall|r: int, k: int|
                0 <= r < rows@.len() && 0 <= k < query@.len() ==> self.slot_matches(
                    #[trigger] rows@[r],
                    #[trigger] query@[k],
                    k,
                ),
            forall|r: int| 0 <= r < rows@.len() ==>
                (#[trigger] rows@[r]).slots@.len() == query@.len(),
    {
        let terms: usize = query.len();
        let driver: ComponentTypeUUID = query.term(terms - 1).component_type;
        let count: usize = self.component_count(driver);
        let ghost candidates = self.component_keys(driver);
        let mut rows: Vec<QueryMatch> = Vec::new();
        let mut slot: usize = 0;
        while slot < count
            invariant
                self.wf(),
                query.wf(),
                terms == query@.len(),
                driver == query@.last().component_type,
                candidates == self.component_keys(driver),
                count == candidates.len(),
                slot <= count,
                Self::matched_entities(rows@) == self.joined(
                    query@,
                    candidates.subrange(0, slot as int),
                ),
                forall|r: int, k: int|
                    0 <= r < rows@.len() && 0 <= k < query@.len() ==> self.slot_matches(
                        #[trigger] rows@[r],
                        #[trigger] query@[k],
                        k,
                    ),
                forall|r: int|
                    0 <= r < rows@.len() ==> (#[trigger] rows@[r]).slots@.len() == query@.len(),
            decreases count - slot,
        {
            let entity: EntityUUID = self.entity_at(driver, slot);
            let ghost seen = candidates.subrange(0, slot as int);
            let ghost next = candidates.subrange(0, slot + 1);
            proof {
                assert(next.drop_last() =~= seen);
                assert(next.last() == entity.0);
            }
            let mut slots: Vec<usize> = Vec::new();
            let mut complete: bool = true;
            let mut k: usize = 0;
            while k < terms && complete
                invariant
                    self.wf(),
                    terms == query@.len(),
                    k <= terms,
                    complete ==> slots@.len() == k,
                    complete ==> forall|i: int|
                        0 <= i < k ==> self.slot_is(
                            (#[trigger] query@[i]).component_type,
                            entity.0,
                            slots@[i],
                        ),
                    !complete ==> !self.joins(query@, entity.0),
                decreases terms - k + (if complete { 1int } else { 0int }),
            {
                let wanted: ComponentTypeUUID = query.term(k).component_type;
                match self.slot_of(entity, wanted) {
                    Some(found) => {
                        slots.push(found);
                        k = k + 1;
                    },
                    None => {
                        complete = false;
                    },
                }
            }
            if complete {
                let ghost before = rows@;
                rows.push(QueryMatch { entity, slots });
                proof {
                    assert(self.joins(query@, entity.0)) by {
                        assert forall|i: int| 0 <= i < query@.len() implies self.components(
                            (#[trigger] query@[i]).component_type,
                        ).contains_key(entity.0) by {
                            assert(self.slot_is(query@[i].component_type, entity.0, slots@[i]));
                        }
                    }
                    assert(Self::matched_entities(rows@) =~= Self::matched_entities(before).push(
                        entity.0,
                    ));
                }
            }
            slot = slot + 1;
        }
        proof {
            assert(candidates.subrange(0, count as int) =~= candidates);
            self.lemma_wf();
            self.lemma_joined(query@, candidates);
            let found = Self::matched_entities(rows@);
            assert forall|e: usize| found.contains(e) <==> self.joins(query@, e) by {
                if self.joins(query@, e) {
                    assert(self.components(query@[terms - 1].component_type).contains_key(e));
                }
            }
        }
        rows
    }

    /// The component of type `t` of the entity sits in dense slot `slot`.
    pub open spec fn slot_is(&self, t: usize, entity: usize, slot: usize) -> bool {
        &&& slot < self.component_keys(t).len()
        &&& self.component_keys(t)[slot as int] == entity
        &&& self.components(t).contains_key(entity)
        &&& self.component_values(t)[slot as int] == self.components(t)[entity]
    }

    /// The result names, for term `k`, the slot of its entity's component of
    /// that term's type.
    pub open spec fn slot_matches(&self, row: QueryMatch, term: QueryTerm, k: int) -> bool {
        &&& k < row.slots@.len()
        &&& self.slot_is(term.component_type, row.entity.0, row.slots@[k])
    }
}

} // verus!
