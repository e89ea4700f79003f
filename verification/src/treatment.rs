//! Cores for experiments, in which a part of what was learned is taken away.
use vstd::prelude::*;

use crate::checkpoint::ComponentsView;
use crate::compiler::{CompilerView, KnowledgeCompiler, KnowledgeRecord};
use crate::consolidation::{same_bytes, KnowledgeState, StateView};
use crate::codec;
use crate::intelligence;
use crate::intelligence::{CoreView, IntelligenceCore};
use crate::planning;
use crate::planning::campaign_is_open;
use crate::policy::PolicyEngine;
use crate::restore;
use crate::types::IntelligenceError;

verus! {

broadcast use intelligence::lemma_core_view;

impl CoreView {
    /// A verification or a campaign is open.
    pub open spec fn has_open_work(self) -> bool {
        self.components.knowledge.pending is Some || planning::some_open(
            self.components.ledger.shadows,
        )
    }

    /// The core with the models of a template in place of its own, and with other
    /// active knowledge and no challengers in place of its own. The template belongs
    /// to the same domain, and has no models that the core did not have.
    pub open spec fn ablated<P: PolicyEngine>(
        self,
        semantic_identity: Seq<u8>,
        template: Option<(CoreView, Seq<u8>)>,
        active: Option<StateView>,
    ) -> Result<CoreView, IntelligenceError> {
        let ecology = match template {
            Some((core, _)) => core.components.ecology,
            None => self.components.ecology,
        };
        let knowledge = match active {
            Some(active) => CompilerView { active, records: Seq::empty(), pending: None },
            None => self.components.knowledge,
        };
        let open = match template {
            Some((core, _)) => core.has_open_work(),
            None => false,
        };
        let foreign = match template {
            Some((core, identity)) => identity != semantic_identity
                || core.components.ecology.specialists.len() != 0,
            None => false,
        };
        if self.has_open_work() || open {
            Err(IntelligenceError::StaleTransition)
        } else if foreign || !ecology.fits(self.limits) {
            Err(IntelligenceError::InvalidModel)
        } else {
            restore::restored::<P>(
                CoreView::assembled(
                    self.limits,
                    (ComponentsView { ecology, knowledge, ..self.components }),
                    false,
                    false,
                    false,
                ).checkpoint,
            )
        }
    }
}

impl IntelligenceCore {
    /// Whether a verification or a campaign is open.
    pub fn has_open_work(&self) -> (open: bool)
        ensures
            open == self@.has_open_work(),
    {
        self.knowledge.pending().is_some() || campaign_is_open(self.experience.shadows())
    }

    /// The core for an experiment. `ablated` is the active knowledge without what is
    /// to be taken away. The result is read back from its own checkpoint.
    pub fn treatment_ablation_for_experiment<P: PolicyEngine>(
        &self,
        semantic_identity: &[u8],
        model_template: Option<(&IntelligenceCore, &[u8])>,
        ablated: Option<&KnowledgeState>,
    ) -> (result: Result<IntelligenceCore, IntelligenceError>)
        ensures
            ({
                let expected = self@.ablated::<P>(
                    semantic_identity@,
                    match model_template {
                        Some((core, identity)) => Some((core@, identity@)),
                        None => None,
                    },
                    match ablated {
                        Some(active) => Some(active@),
                        None => None,
                    },
                );
                match result {
                    Ok(core) => expected == Ok::<CoreView, IntelligenceError>(core@)
                        && core@.well_formed(),
                    Err(error) => expected == Err::<CoreView, IntelligenceError>(error),
                }
            }),
    {
        if self.has_open_work() {
            return Err(IntelligenceError::StaleTransition);
        }
        let ecology = match model_template {
            Some((template, identity)) => {
                if template.has_open_work() {
                    return Err(IntelligenceError::StaleTransition);
                }
                if !same_bytes(identity, semantic_identity) || !template.ecology.is_empty() {
                    return Err(IntelligenceError::InvalidModel);
                }
                template.ecology.duplicate()
            },
            None => self.ecology.duplicate(),
        };
        if !ecology.fits_limits(self.limits) {
            return Err(IntelligenceError::InvalidModel);
        }
        let knowledge = match ablated {
            Some(active) => {
                let records: Vec<KnowledgeRecord> = Vec::new();
                assert(codec::views(records@) =~= Seq::empty());
                KnowledgeCompiler::assembled(active.duplicate(), records, None)
            },
            None => self.knowledge.duplicate(),
        };
        let core = Self::from_components(
            self.limits,
            ecology,
            self.experience.duplicate(),
            knowledge,
            self.policy.duplicate(),
            false,
            false,
            false,
        );
        Self::restore::<P>(core.checkpoint_bytes.as_slice())
    }
}

} // verus!
