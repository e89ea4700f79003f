//! What an edit of the specialists does, and when it is refused.
use vstd::prelude::*;

use crate::arena::{OpportunityKind, OpportunitySpec};
use crate::ecology;
use crate::ecology::{EcologyView, EditView, OriginView, RevisionView, SpecialistStatus};
use crate::order;
use crate::types::{
    FeatureSchemaId, IntelligenceError, IntelligenceLimits, RoutingFamilyId, SpecialistRevisionId,
};

verus! {

// ---------------------------------------------------------------------------
// What an edit asks for
// ---------------------------------------------------------------------------
/// The edit ends the service of the specialist: it retires it, splits it, or puts one
/// specialist in the place of it and others.
pub open spec fn ends(edit: EditView, id: SpecialistRevisionId) -> bool {
    match edit {
        EditView::Spawn(_) => false,
        EditView::Retire(gone) => gone == id,
        EditView::Split { parent, .. } => parent == id,
        EditView::Merge { parents, .. } => parents.contains(id),
        EditView::Distill { teachers, .. } => teachers.contains(id),
    }
}

/// Those who enter service.
pub open spec fn newcomers(edit: EditView) -> Seq<RevisionView> {
    match edit {
        EditView::Spawn(specialist) => seq![specialist],
        EditView::Retire(_) => Seq::empty(),
        EditView::Split { children, .. } => children,
        EditView::Merge { merged, .. } => seq![merged],
        EditView::Distill { student, .. } => seq![student],
    }
}

/// Where the newcomers are recorded to come from.
pub open spec fn descent(edit: EditView) -> OriginView {
    match edit {
        EditView::Split { parent, .. } => OriginView::Split(parent),
        EditView::Merge { parents, .. } => OriginView::Merge(parents),
        EditView::Distill { teachers, .. } => OriginView::Distill(teachers),
        _ => OriginView::Spawn,
    }
}

/// A split has two children or more; a union has two parents or more, none twice.
pub open spec fn well_shaped(edit: EditView) -> bool {
    match edit {
        EditView::Split { children, .. } => children.len() >= 2,
        EditView::Merge { parents, .. } => parents.len() >= 2 && order::distinct(parents),
        EditView::Distill { teachers, .. } => teachers.len() >= 2 && order::distinct(teachers),
        _ => true,
    }
}

/// A specialist of that name is in service.
pub open spec fn in_service(specialists: Seq<RevisionView>, id: SpecialistRevisionId) -> bool {
    exists|i: int|
        0 <= i < specialists.len() && (#[trigger] specialists[i]).id == id
            && specialists[i].status is Active
}

/// The name was taken before, or an earlier newcomer bears it.
pub open spec fn taken(specialists: Seq<RevisionView>, newcomers: Seq<RevisionView>, k: int) -> bool {
    ||| exists|i: int|
        0 <= i < specialists.len() && (#[trigger] specialists[i]).id == newcomers[k].id
    ||| exists|j: int| 0 <= j < k && (#[trigger] newcomers[j]).id == newcomers[k].id
}

/// A newcomer enters service as it is, with its descent.
pub open spec fn entered(entry: RevisionView, newcomer: RevisionView, origin: OriginView) -> bool {
    &&& entry.id == newcomer.id
    &&& entry.mandate == newcomer.mandate
    &&& entry.model == newcomer.model
    &&& entry.status is Active
    &&& entry.origin == origin
}

/// A specialist stays what it is; it leaves service where the edit ends it, and nothing
/// else takes it out or brings it back.
pub open spec fn stayed(entry: RevisionView, before: RevisionView, edit: EditView) -> bool {
    &&& entry.id == before.id
    &&& entry.mandate == before.mandate
    &&& entry.model == before.model
    &&& entry.origin == before.origin
    &&& entry.status is Active <==> before.status is Active && !ends(edit, before.id)
}

// ---------------------------------------------------------------------------
// Accepted edits
// ---------------------------------------------------------------------------
proof fn lemma_pushed_entered(
    specialists: Seq<RevisionView>,
    added: Seq<RevisionView>,
    origin: OriginView,
    limits: IntelligenceLimits,
    next: Seq<RevisionView>,
)
    requires
        ecology::pushed_all(specialists, added, origin, limits) == Ok::<
            Seq<RevisionView>,
            IntelligenceError,
        >(next),
    ensures
        next.len() == specialists.len() + added.len(),
        forall|i: int| 0 <= i < specialists.len() ==> #[trigger] next[i] == specialists[i],
        forall|k: int|
            0 <= k < added.len() ==> entered(
                #[trigger] next[specialists.len() + k],
                added[k],
                origin,
            ),
        forall|k: int| 0 <= k < added.len() ==> !#[trigger] taken(specialists, added, k),
    decreases added.len(),
{
    if added.len() > 0 {
        let front = added.drop_last();
        let middle = ecology::pushed_all(specialists, front, origin, limits)->Ok_0;
        lemma_pushed_entered(specialists, front, origin, limits, middle);
        let last = added.len() - 1;
        assert forall|k: int| 0 <= k < added.len() implies entered(
            #[trigger] next[specialists.len() + k],
            added[k],
            origin,
        ) by {
            if k < last {
                assert(next[specialists.len() + k] == middle[specialists.len() + k]);
                assert(front[k] == added[k]);
            }
        }
        assert forall|k: int| 0 <= k < added.len() implies !#[trigger] taken(
            specialists,
            added,
            k,
        ) by {
            if k < last {
                assert(!taken(specialists, front, k));
                assert forall|j: int| 0 <= j < k implies (#[trigger] added[j]).id
                    != added[k].id by {
                    assert(front[j] == added[j] && front[k] == added[k]);
                }
            } else {
                assert(!ecology::has_id(middle, added[k].id));
                assert forall|i: int| 0 <= i < specialists.len() implies (
                #[trigger] specialists[i]).id != added[k].id by {
                    assert(middle[i] == specialists[i]);
                }
                assert forall|j: int| 0 <= j < k implies (#[trigger] added[j]).id
                    != added[k].id by {
                    assert(front[j] == added[j]);
                    assert(middle[specialists.len() + j].id == added[j].id);
                }
            }
        }
    }
}

proof fn lemma_one_pushed(
    specialists: Seq<RevisionView>,
    added: RevisionView,
    origin: OriginView,
    limits: IntelligenceLimits,
)
    ensures
        ecology::pushed(specialists, added, origin, limits) == ecology::pushed_all(
            specialists,
            seq![added],
            origin,
            limits,
        ),
{
    let one = seq![added];
    assert(one.drop_last() =~= Seq::empty());
    assert(ecology::pushed_all(specialists, one.drop_last(), origin, limits) == Ok::<
        Seq<RevisionView>,
        IntelligenceError,
    >(specialists));
}

/// Those whom an edit ends, as a list.
spec fn ended(edit: EditView) -> Seq<SpecialistRevisionId> {
    match edit {
        EditView::Spawn(_) => Seq::empty(),
        EditView::Retire(gone) => seq![gone],
        EditView::Split { parent, .. } => seq![parent],
        EditView::Merge { parents, .. } => parents,
        EditView::Distill { teachers, .. } => teachers,
    }
}

/// Every edit retires those whom it ends and brings in the newcomers.
proof fn lemma_edit_in_two(view: EcologyView, edit: EditView, limits: IntelligenceLimits)
    requires
        well_shaped(edit),
    ensures
        view.edited(edit, limits) == (match ecology::retired(view.specialists, ended(edit)) {
            Ok(left) => ecology::pushed_all(left, newcomers(edit), descent(edit), limits),
            Err(error) => Err(error),
        }),
        forall|id: SpecialistRevisionId| #[trigger]
            ended(edit).contains(id) <==> ends(edit, id),
{
    let specialists = view.specialists;
    if let Ok(left) = ecology::retired(specialists, ended(edit)) {
        match edit {
            EditView::Spawn(specialist) => {
                assert(left =~= specialists);
                lemma_one_pushed(left, specialist, OriginView::Spawn, limits);
            },
            EditView::Retire(_) => {},
            EditView::Split { .. } => {},
            EditView::Merge { parents, merged } => {
                lemma_one_pushed(left, merged, OriginView::Merge(parents), limits);
            },
            EditView::Distill { teachers, student } => {
                lemma_one_pushed(left, student, OriginView::Distill(teachers), limits);
            },
        }
    } else {
        assert(!(edit is Spawn));
    }
    assert forall|id: SpecialistRevisionId| #[trigger] ended(edit).contains(id) <==> ends(
        edit,
        id,
    ) by {
        match edit {
            EditView::Retire(gone) => {
                assert(seq![gone][0] == gone);
            },
            EditView::Split { parent, .. } => {
                assert(seq![parent][0] == parent);
            },
            _ => {},
        }
    }
}

/// An accepted edit ends those whom it names, who were in service, and no others;
/// brings in the newcomers with their descent, under names that were free; leaves
/// everything else in its place; and counts as one generation.
pub proof fn law_edit_does_what_it_asks(
    view: EcologyView,
    edit: EditView,
    limits: IntelligenceLimits,
    next: EcologyView,
)
    requires
        view.applied(edit, limits) == Ok::<EcologyView, IntelligenceError>(next),
    ensures
        well_shaped(edit),
        next.generation == (if view.generation < u64::MAX {
            view.generation + 1
        } else {
            u64::MAX as int
        }),
        next.specialists.len() == view.specialists.len() + newcomers(edit).len(),
        next.specialists.len() <= limits.maximum_specialists,
        forall|id: SpecialistRevisionId| #[trigger]
            ends(edit, id) ==> in_service(view.specialists, id),
        forall|i: int|
            0 <= i < view.specialists.len() ==> stayed(
                #[trigger] next.specialists[i],
                view.specialists[i],
                edit,
            ),
        forall|k: int|
            0 <= k < newcomers(edit).len() ==> entered(
                #[trigger] next.specialists[view.specialists.len() + k],
                newcomers(edit)[k],
                descent(edit),
            ),
        forall|k: int|
            0 <= k < newcomers(edit).len() ==> !#[trigger] taken(
                view.specialists,
                newcomers(edit),
                k,
            ),
{
    lemma_edit_in_two(view, edit, limits);
    let ids = ended(edit);
    let left = ecology::retired(view.specialists, ids)->Ok_0;
    lemma_pushed_entered(left, newcomers(edit), descent(edit), limits, next.specialists);
    assert forall|id: SpecialistRevisionId| #[trigger] ends(edit, id) implies in_service(
        view.specialists,
        id,
    ) by {
        assert(ids.contains(id));
        let k = choose|k: int| 0 <= k < ids.len() && ids[k] == id;
        assert(ecology::has_active_id(view.specialists, ids[k]));
    }
    assert forall|i: int| 0 <= i < view.specialists.len() implies stayed(
        #[trigger] next.specialists[i],
        view.specialists[i],
        edit,
    ) by {
        assert(next.specialists[i] == left[i]);
        assert(ids.contains(view.specialists[i].id) <==> ends(edit, view.specialists[i].id));
    }
    assert forall|k: int| 0 <= k < newcomers(edit).len() implies !#[trigger] taken(
        view.specialists,
        newcomers(edit),
        k,
    ) by {
        assert(!taken(left, newcomers(edit), k));
        assert forall|i: int| 0 <= i < view.specialists.len() implies (
        #[trigger] view.specialists[i]).id != newcomers(edit)[k].id by {
            assert(left[i].id == view.specialists[i].id);
        }
    }
}

/// After an accepted edit no opportunity is routed to more specialists than one route
/// may have.
pub proof fn law_routes_stay_narrow(
    view: EcologyView,
    edit: EditView,
    limits: IntelligenceLimits,
    next: EcologyView,
    opportunity: OpportunitySpec,
    feature_count: nat,
)
    requires
        view.applied(edit, limits) == Ok::<EcologyView, IntelligenceError>(next),
        feature_count <= 64,
    ensures
        ecology::routed_to(next.specialists, opportunity, feature_count).len()
            <= limits.maximum_specialists_per_route,
{
    ecology::lemma_routed_len(next.specialists, opportunity, feature_count);
}

// ---------------------------------------------------------------------------
// Refused edits
// ---------------------------------------------------------------------------
proof fn lemma_pushed_refused(
    specialists: Seq<RevisionView>,
    added: Seq<RevisionView>,
    origin: OriginView,
    limits: IntelligenceLimits,
    error: IntelligenceError,
)
    requires
        ecology::pushed_all(specialists, added, origin, limits) == Err::<
            Seq<RevisionView>,
            IntelligenceError,
        >(error),
    ensures
        error is CapacityExceeded || error is DuplicateSpecialist,
        error is DuplicateSpecialist ==> exists|k: int|
            0 <= k < added.len() && #[trigger] taken(specialists, added, k),
    decreases added.len(),
{
    if added.len() > 0 {
        let front = added.drop_last();
        let last = added.len() - 1;
        match ecology::pushed_all(specialists, front, origin, limits) {
            Err(_) => {
                lemma_pushed_refused(specialists, front, origin, limits, error);
                if error is DuplicateSpecialist {
                    let k = choose|k: int|
                        0 <= k < front.len() && #[trigger] taken(specialists, front, k);
                    if exists|j: int| 0 <= j < k && (#[trigger] front[j]).id == front[k].id {
                        let j = choose|j: int|
                            0 <= j < k && (#[trigger] front[j]).id == front[k].id;
                        assert(added[j].id == added[k].id);
                    }
                    assert(taken(specialists, added, k));
                }
            },
            Ok(middle) => {
                lemma_pushed_entered(specialists, front, origin, limits, middle);
                if error is DuplicateSpecialist {
                    let i = choose|i: int|
                        0 <= i < middle.len() && (#[trigger] middle[i]).id == added[last].id;
                    if i < specialists.len() {
                        assert(specialists[i].id == added[last].id);
                    } else {
                        let j = i - specialists.len();
                        assert(middle[specialists.len() + j].id == front[j].id);
                        assert(added[j].id == added[last].id);
                    }
                    assert(taken(specialists, added, last));
                }
            },
        }
    }
}

/// An edit is refused as ill-shaped exactly where it is; as naming a missing specialist
/// only where it would end one that is not in service; as a duplicate only where a
/// newcomer's name is taken; and otherwise for want of room.
pub proof fn law_refused_edit_has_a_reason(
    view: EcologyView,
    edit: EditView,
    limits: IntelligenceLimits,
    error: IntelligenceError,
)
    requires
        view.applied(edit, limits) == Err::<EcologyView, IntelligenceError>(error),
    ensures
        error is InvalidMandate <==> !well_shaped(edit),
        error is MissingSpecialist <==> well_shaped(edit) && exists|id: SpecialistRevisionId|
            #[trigger]
            ends(edit, id) && !in_service(view.specialists, id),
        error is DuplicateSpecialist ==> exists|k: int|
            0 <= k < newcomers(edit).len() && #[trigger] taken(
                view.specialists,
                newcomers(edit),
                k,
            ),
        error is InvalidMandate || error is MissingSpecialist || error is DuplicateSpecialist
            || error is CapacityExceeded,
{
    if well_shaped(edit) {
        lemma_edit_in_two(view, edit, limits);
        let ids = ended(edit);
        match ecology::retired(view.specialists, ids) {
            Err(_) => {
                let k = choose|k: int|
                    0 <= k < ids.len() && !ecology::has_active_id(
                        view.specialists,
                        #[trigger] ids[k],
                    );
                assert(ids.contains(ids[k]));
                assert(ends(edit, ids[k]));
                if in_service(view.specialists, ids[k]) {
                    let i = choose|i: int|
                        0 <= i < view.specialists.len() && (#[trigger] view.specialists[i]).id
                            == ids[k] && view.specialists[i].status is Active;
                    assert(view.specialists[i].is_active());
                }
            },
            Ok(left) => {
                assert forall|id: SpecialistRevisionId| #[trigger]
                    ends(edit, id) implies in_service(view.specialists, id) by {
                    assert(ids.contains(id));
                    let k = choose|k: int| 0 <= k < ids.len() && ids[k] == id;
                    assert(ecology::has_active_id(view.specialists, ids[k]));
                }
                match ecology::pushed_all(left, newcomers(edit), descent(edit), limits) {
                    Err(_) => {
                        lemma_pushed_refused(
                            left,
                            newcomers(edit),
                            descent(edit),
                            limits,
                            error,
                        );
                        if error is DuplicateSpecialist {
                            let k = choose|k: int|
                                0 <= k < newcomers(edit).len() && #[trigger] taken(
                                    left,
                                    newcomers(edit),
                                    k,
                                );
                            if exists|i: int|
                                0 <= i < left.len() && (#[trigger] left[i]).id == newcomers(
                                    edit,
                                )[k].id {
                                let i = choose|i: int|
                                    0 <= i < left.len() && (#[trigger] left[i]).id == newcomers(
                                        edit,
                                    )[k].id;
                                assert(view.specialists[i].id == newcomers(edit)[k].id);
                            }
                            assert(taken(view.specialists, newcomers(edit), k));
                        }
                    },
                    Ok(_) => {},
                }
            },
        }
    }
}

proof fn lemma_retired_serve_less(
    specialists: Seq<RevisionView>,
    left: Seq<RevisionView>,
    kind: OpportunityKind,
    schema: FeatureSchemaId,
    family: Option<RoutingFamilyId>,
    feature_count: nat,
)
    requires
        left.len() == specialists.len(),
        forall|i: int|
            0 <= i < left.len() ==> #[trigger] left[i] == specialists[i] || left[i] == (
            RevisionView { status: SpecialistStatus::Retired, ..specialists[i] }),
    ensures
        ecology::route_size(left, kind, schema, family, feature_count) <= ecology::route_size(
            specialists,
            kind,
            schema,
            family,
            feature_count,
        ),
        ecology::specialist_bytes(left) == ecology::specialist_bytes(specialists),
    decreases left.len(),
{
    if left.len() > 0 {
        let shorter = left.drop_last();
        assert forall|i: int| 0 <= i < shorter.len() implies #[trigger] shorter[i]
            == specialists.drop_last()[i] || shorter[i] == (RevisionView {
            status: SpecialistStatus::Retired,
            ..specialists.drop_last()[i]
        }) by {
            assert(shorter[i] == left[i]);
        }
        lemma_retired_serve_less(
            specialists.drop_last(),
            shorter,
            kind,
            schema,
            family,
            feature_count,
        );
        assert(left.last() == left[left.len() - 1]);
    }
}

/// A specialist in service can be retired at any time, however full the society is.
pub proof fn law_retirement_is_owed(
    view: EcologyView,
    id: SpecialistRevisionId,
    limits: IntelligenceLimits,
)
    requires
        in_service(view.specialists, id),
        view.fits(limits),
    ensures
        view.applied(EditView::Retire(id), limits) is Ok,
{
    let i = choose|i: int|
        0 <= i < view.specialists.len() && (#[trigger] view.specialists[i]).id == id
            && view.specialists[i].status is Active;
    assert(view.specialists[i].is_active());
    let ids = seq![id];
    assert forall|k: int| 0 <= k < ids.len() implies ecology::has_active_id(
        view.specialists,
        #[trigger] ids[k],
    ) by {
        assert(ids[k] == id);
    }
    let left = ecology::retired(view.specialists, ids)->Ok_0;
    assert forall|
        kind: OpportunityKind,
        schema: FeatureSchemaId,
        family: Option<RoutingFamilyId>,
        feature_count: nat,
    |
        feature_count <= 64 implies #[trigger] ecology::route_size(
        left,
        kind,
        schema,
        family,
        feature_count,
    ) <= limits.maximum_specialists_per_route by {
        lemma_retired_serve_less(view.specialists, left, kind, schema, family, feature_count);
        assert(ecology::route_size(view.specialists, kind, schema, family, feature_count)
            <= limits.maximum_specialists_per_route);
    }
    let schema = view.specialists[i].mandate.feature_schemas[0];
    lemma_retired_serve_less(
        view.specialists,
        left,
        OpportunityKind::Candidate,
        schema,
        None,
        0,
    );
}

// ---------------------------------------------------------------------------
// Who is in service
// ---------------------------------------------------------------------------
/// Those who are named as active are those who are in service.
pub proof fn law_active_names(specialists: Seq<RevisionView>, id: SpecialistRevisionId)
    ensures
        ecology::active_names(specialists).contains(id) <==> in_service(specialists, id),
    decreases specialists.len(),
{
    if specialists.len() > 0 {
        let front = specialists.drop_last();
        law_active_names(front, id);
        let earlier = ecology::active_names(front);
        let names = ecology::active_names(specialists);
        let last = specialists.len() - 1;
        assert(specialists[last] == specialists.last());
        if in_service(specialists, id) {
            let i = choose|i: int|
                0 <= i < specialists.len() && (#[trigger] specialists[i]).id == id
                    && specialists[i].status is Active;
            if i < last {
                assert(front[i] == specialists[i]);
                let k = choose|k: int| 0 <= k < earlier.len() && earlier[k] == id;
                assert(names[k] == id);
            } else {
                assert(names[earlier.len() as int] == id);
            }
        }
        if names.contains(id) {
            let k = choose|k: int| 0 <= k < names.len() && names[k] == id;
            if k < earlier.len() {
                assert(earlier[k] == id);
                assert(earlier.contains(id));
                let i = choose|i: int|
                    0 <= i < front.len() && (#[trigger] front[i]).id == id
                        && front[i].status is Active;
                assert(specialists[i] == front[i]);
            }
        }
    }
}

} // verus!
