//! The recipes by which a core compiles knowledge, and what an execution of one
//! hands over.
use vstd::prelude::*;

use crate::codec;
use crate::consolidation::{ConsolidationChallenger, ConsolidationView};
use crate::digest;
use crate::digest::{hash_labelled, Digest};
use crate::intelligence;
use crate::intelligence::{CoreView, IntelligenceCore};
use crate::receipt::DecisionId;
use crate::transition;
use crate::types::{IntelligenceError, ResourceVector, SubjectId};
use crate::workflow::ExecutedKnowledgeCompilation;

verus! {

broadcast use intelligence::lemma_core_view;

/// The bits of the number one as a single-precision float.
pub const ONE_BITS: u32 = 0x3f80_0000;

/// An action that can be chosen beside the candidates.
#[derive(Clone, Copy, Debug, PartialEq, Eq, Hash, Structural)]
pub enum OperationalAction {
    /// Compiles what has been learned by one of the core's recipes.
    Consolidate { compiler: SubjectId },
}

/// An action with what it takes and how it is described to the forecasters.
#[derive(Clone, Copy, Debug, PartialEq, Eq, Hash)]
pub struct OperationalActionSpec {
    pub action: OperationalAction,
    pub resources: ResourceVector,
    pub bootstrap_priority: u32,
    pub features: [u32; 8],
}

impl OperationalActionSpec {
    pub fn new(
        action: OperationalAction,
        resources: ResourceVector,
        bootstrap_priority: u32,
        features: [u32; 8],
    ) -> (specification: Self)
        ensures
            specification == (OperationalActionSpec {
                action,
                resources,
                bootstrap_priority,
                features,
            }),
    {
        Self { action, resources, bootstrap_priority, features }
    }

    pub fn action(self) -> (action: OperationalAction)
        ensures
            action == self.action,
    {
        self.action
    }
}

/// What a recipe is named after.
pub open spec fn compiler_subject(recipe: &str) -> SubjectId {
    SubjectId(
        digest::labelled(
            "reflex-artifact-v1\0",
            codec::put_sized(digest::label_bytes("reflex-knowledge-compiler-action-v1"))
                + digest::label_bytes(recipe),
        ),
    )
}

pub fn knowledge_compiler_subject(recipe: &str) -> (subject: SubjectId)
    ensures
        subject == compiler_subject(recipe),
{
    let mut content: Vec<u8> = Vec::new();
    codec::write_sized("reflex-knowledge-compiler-action-v1".as_bytes(), &mut content);
    codec::write_bytes(recipe.as_bytes(), &mut content);
    assert(content@ =~= codec::put_sized(
        digest::label_bytes("reflex-knowledge-compiler-action-v1"),
    ) + digest::label_bytes(recipe));
    SubjectId(hash_labelled("reflex-artifact-v1\0", content.as_slice()))
}

/// The recipe that compiles from every root.
pub open spec fn broad_recipe() -> SubjectId {
    compiler_subject("broad-roots")
}

/// The recipe that compiles from the roots that no other dominates.
pub open spec fn focused_recipe() -> SubjectId {
    compiler_subject("pareto-roots")
}

/// The two recipes as actions: the broad one comes first.
pub open spec fn recipe_actions(resources: ResourceVector) -> Seq<OperationalActionSpec> {
    seq![
        OperationalActionSpec {
            action: OperationalAction::Consolidate { compiler: broad_recipe() },
            resources,
            bootstrap_priority: 0,
            features: [0, 0, 0, 0, ONE_BITS, ONE_BITS, 0, 0],
        },
        OperationalActionSpec {
            action: OperationalAction::Consolidate { compiler: focused_recipe() },
            resources,
            bootstrap_priority: 1,
            features: [0, 0, 0, 0, ONE_BITS, 0, ONE_BITS, 0],
        },
    ]
}

/// Why a compilation did not come about.
#[derive(Clone, Copy, Debug, PartialEq, Eq, Structural)]
pub enum KnowledgeCompilationError<E> {
    /// What was to be compiled could not be had.
    Source(E),
    Intelligence(IntelligenceError),
}

/// The recipes that a core offers under one revision.
#[derive(Debug)]
pub struct PreparedKnowledgeCompilation {
    base_revision: Digest,
    broad_compiler: SubjectId,
    focused_compiler: SubjectId,
    specifications: [OperationalActionSpec; 2],
}

/// Which roots a recipe starts from.
#[derive(Clone, Copy, Debug, PartialEq, Eq, Hash, Structural)]
pub enum CompilationRoots {
    Every,
    Undominated,
}

/// The roots that a recipe starts from, under the revision that it was offered
/// under.
pub open spec fn roots_of_recipe(core: CoreView, base_revision: Digest, compiler: SubjectId) -> Result<
    CompilationRoots,
    IntelligenceError,
> {
    if core.revision != base_revision {
        Err(IntelligenceError::StaleTransition)
    } else if compiler == focused_recipe() {
        Ok(CompilationRoots::Undominated)
    } else if compiler == broad_recipe() {
        Ok(CompilationRoots::Every)
    } else {
        Err(IntelligenceError::InvalidReference)
    }
}

/// What an execution keeps: a challenger that leaves nothing to verify is dropped.
pub open spec fn kept(challenger: Option<ConsolidationView>) -> Option<ConsolidationView> {
    match challenger {
        Some(challenger) => if challenger.operators.len() == 0 {
            None
        } else {
            Some(challenger)
        },
        None => None,
    }
}

impl PreparedKnowledgeCompilation {
    /// The revision that the recipes were offered under.
    pub closed spec fn offered_under(&self) -> Digest {
        self.base_revision
    }

    #[verifier::type_invariant]
    spec fn names_recipes(self) -> bool {
        self.broad_compiler == broad_recipe() && self.focused_compiler == focused_recipe()
    }

    /// The recipes as actions.
    pub closed spec fn actions(&self) -> Seq<OperationalActionSpec> {
        self.specifications@
    }

    pub fn specifications(&self) -> (specifications: &[OperationalActionSpec])
        ensures
            specifications@ == self.actions(),
    {
        self.specifications.as_slice()
    }

    /// Which roots a recipe starts from. It has to be one of the two, under the
    /// revision that they were offered under.
    pub fn roots_for(&self, intelligence: &IntelligenceCore, compiler: SubjectId) -> (result: Result<
        CompilationRoots,
        IntelligenceError,
    >)
        ensures
            result == roots_of_recipe(intelligence@, self.offered_under(), compiler),
    {
        proof {
            use_type_invariant(self);
        }
        if intelligence.active_revision() != self.base_revision {
            return Err(IntelligenceError::StaleTransition);
        }
        if compiler == self.focused_compiler {
            Ok(CompilationRoots::Undominated)
        } else if compiler == self.broad_compiler {
            Ok(CompilationRoots::Every)
        } else {
            Err(IntelligenceError::InvalidReference)
        }
    }

    /// Takes over what was compiled from the roots of a recipe.
    pub fn execute<E>(
        &self,
        intelligence: &IntelligenceCore,
        producer: DecisionId,
        compiler: SubjectId,
        compiled: Result<Option<ConsolidationChallenger>, E>,
    ) -> (result: Result<ExecutedKnowledgeCompilation, KnowledgeCompilationError<E>>)
        ensures
            match (
                roots_of_recipe(intelligence@, self.offered_under(), compiler),
                compiled,
                result,
            ) {
                (Err(error), _, Err(refusal)) => refusal
                    == KnowledgeCompilationError::<E>::Intelligence(error),
                (Ok(_), Err(source), Err(refusal)) => refusal
                    == KnowledgeCompilationError::<E>::Source(source),
                (Ok(_), Ok(challenger), Ok(executed)) => {
                    &&& executed.base_revision == self.offered_under()
                    &&& executed.producer == producer
                    &&& transition::seen(executed.challenger) == kept(transition::seen(challenger))
                },
                _ => false,
            },
    {
        match self.roots_for(intelligence, compiler) {
            Ok(_) => {},
            Err(error) => return Err(KnowledgeCompilationError::Intelligence(error)),
        }
        let challenger = match compiled {
            Ok(Some(challenger)) => if challenger.operators.len() == 0 {
                None
            } else {
                Some(challenger)
            },
            Ok(None) => None,
            Err(source) => return Err(KnowledgeCompilationError::Source(source)),
        };
        Ok(ExecutedKnowledgeCompilation { base_revision: self.base_revision, producer, challenger })
    }
}

impl IntelligenceCore {
    /// Offers the recipes under the core's revision.
    pub fn prepare_knowledge_compilation(&self, resources: ResourceVector) -> (prepared:
        PreparedKnowledgeCompilation)
        ensures
            prepared.offered_under() == self@.revision,
            prepared.actions() == recipe_actions(resources),
    {
        let broad_compiler = knowledge_compiler_subject("broad-roots");
        let focused_compiler = knowledge_compiler_subject("pareto-roots");
        let broad = OperationalActionSpec::new(
            OperationalAction::Consolidate { compiler: broad_compiler },
            resources,
            0,
            [0, 0, 0, 0, ONE_BITS, ONE_BITS, 0, 0],
        );
        let focused = OperationalActionSpec::new(
            OperationalAction::Consolidate { compiler: focused_compiler },
            resources,
            1,
            [0, 0, 0, 0, ONE_BITS, 0, ONE_BITS, 0],
        );
        let prepared = PreparedKnowledgeCompilation {
            base_revision: self.revision,
            broad_compiler,
            focused_compiler,
            specifications: [broad, focused],
        };
        assert(prepared.actions() =~= recipe_actions(resources));
        prepared
    }
}

} // verus!
