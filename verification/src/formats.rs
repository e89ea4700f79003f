//! Checkpoints in the formats that are read but not written any more.
use vstd::prelude::*;

use std::sync::Arc;

use crate::checkpoint;
use crate::checkpoint::{
    current_limit_values, format_component_roots, legacy_limit_values, legacy_v12_revision_digest,
    revision_digest, segmented_checkpoint, write_magic, write_sizes, CheckpointWire,
};
use crate::compiler_wire;
use crate::digest;
use crate::digest::{hash_bytes, write_digest, Digest};
use crate::ecology;
use crate::intelligence;
use crate::intelligence::{CoreView, IntelligenceCheckpoint, IntelligenceCore};
use crate::ledger;
use crate::policy::PolicyEngine;
use crate::receipt::ReceiptFormat;
use crate::restore;
use crate::restore::legacy_revision_digest;

verus! {

broadcast use intelligence::lemma_core_view;

/// The checkpoint of a core in a format with segments: a single snapshot.
pub open spec fn segmented_form<P: PolicyEngine>(core: CoreView, wire: CheckpointWire) -> Seq<u8> {
    let roots = checkpoint::snapshot_roots::<P>(wire, core.components);
    checkpoint::snapshot(
        wire,
        core.limits,
        core.components,
        roots,
        checkpoint::revision_of(wire.includes_policy, core.limits, roots),
    )
}

/// What a format without segments says of the limits.
pub open spec fn plain_sizes(core: CoreView, version: u8) -> Seq<usize> {
    if version == 9 {
        checkpoint::limit_list(core.limits)
    } else {
        checkpoint::limit_list(core.limits).take(6)
    }
}

/// A checkpoint in a format without segments, up to its checksum.
pub open spec fn plain_payload(core: CoreView, version: u8) -> Option<Seq<u8>> {
    match restore::plain_revision(
        version,
        core.limits,
        core.components.ecology,
        core.components.ledger,
        core.components.knowledge,
    ) {
        None => None,
        Some(revision) => Some(
            checkpoint::magic(version) + (revision.bytes() + (checkpoint::put_sizes(
                plain_sizes(core, version),
            ) + (
            ecology::put_ecology(core.components.ecology) + (ledger::put_ledger(
                ReceiptFormat::LegacyV11,
                core.components.ledger,
            ) + compiler_wire::put_records(
                restore::knowledge_format(version),
                core.components.knowledge.records,
            ))))),
        ),
    }
}

/// A checkpoint in a format without segments; knowledge that the format cannot
/// express has none.
pub open spec fn plain_form(core: CoreView, version: u8) -> Option<Seq<u8>> {
    match plain_payload(core, version) {
        None => None,
        Some(payload) => Some(payload + digest::hash(payload).bytes()),
    }
}

proof fn lemma_six_written(
    a: Seq<u8>,
    b: Seq<u8>,
    c: Seq<u8>,
    d: Seq<u8>,
    e: Seq<u8>,
    f: Seq<u8>,
)
    ensures
        ((a + (b + c)) + d) + e + f == a + (b + (c + (d + (e + f)))),
{
    assert(((a + (b + c)) + d) + e + f =~= a + (b + (c + (d + (e + f)))));
}

impl IntelligenceCore {
    fn write_plain_header(&self, version: u8, revision: Digest, output: &mut Vec<u8>)
        requires
            old(output)@.len() == 0,
        ensures
            final(output)@ == checkpoint::magic(version) + (revision.bytes()
                + checkpoint::put_sizes(plain_sizes(self@, version))),
    {
        write_magic(version, output);
        write_digest(revision, output);
        if version == 9 {
            write_sizes(current_limit_values(self.limits).as_slice(), output);
        } else {
            write_sizes(legacy_limit_values(self.limits).as_slice(), output);
        }
        assert(output@ =~= checkpoint::magic(version) + (revision.bytes() + checkpoint::put_sizes(
            plain_sizes(self@, version),
        )));
    }

    fn write_plain_knowledge(&self, version: u8, output: &mut Vec<u8>) -> (result: Result<(), ()>)
        requires
            6 <= version <= 9,
        ensures
            result is Ok <==> (version <= 7 ==> compiler_wire::all_expressible(
                restore::knowledge_format(version),
                self@.components.knowledge.records,
            )),
            result is Ok ==> final(output)@ == old(output)@ + compiler_wire::put_records(
                restore::knowledge_format(version),
                self@.components.knowledge.records,
            ),
    {
        if version == 6 {
            self.knowledge.encode_legacy_v6(output)
        } else if version == 7 {
            self.knowledge.encode_legacy_v7(output)
        } else {
            self.knowledge.encode_legacy_v13(output);
            Ok(())
        }
    }

    /// The checkpoint in a format with segments.
    pub fn checkpoint_in<P: PolicyEngine>(&self, wire: CheckpointWire) -> (checkpoint:
        IntelligenceCheckpoint)
        ensures
            checkpoint@ == segmented_form::<P>(self@, wire),
    {
        let roots = format_component_roots::<P>(
            wire,
            &self.ecology,
            &self.experience,
            &self.knowledge,
            &self.policy,
        );
        let revision = if wire.includes_policy {
            revision_digest(self.limits, roots)
        } else {
            legacy_v12_revision_digest(self.limits, roots)
        };
        let (bytes, _) = segmented_checkpoint(
            wire,
            self.limits,
            &self.ecology,
            &self.experience,
            &self.knowledge,
            &self.policy,
            roots,
            revision,
        );
        IntelligenceCheckpoint::of(Arc::new(bytes))
    }

    /// The checkpoint in a format without segments.
    pub fn plain_checkpoint(&self, version: u8) -> (result: Option<IntelligenceCheckpoint>)
        requires
            6 <= version <= 9,
        ensures
            match result {
                Some(checkpoint) => plain_form(self@, version) == Some(checkpoint@),
                None => plain_form(self@, version) is None,
            },
    {
        let revision = match legacy_revision_digest(
            version,
            self.limits,
            &self.ecology,
            &self.experience,
            &self.knowledge,
        ) {
            Ok(revision) => revision,
            Err(_) => return None,
        };
        let mut bytes: Vec<u8> = Vec::new();
        self.write_plain_header(version, revision, &mut bytes);
        let ghost header = bytes@;
        self.ecology.encode_canonical(&mut bytes);
        self.experience.encode_legacy_v11(&mut bytes);
        let ghost front = bytes@;
        match self.write_plain_knowledge(version, &mut bytes) {
            Ok(_) => {},
            Err(_) => return None,
        }
        proof {
            lemma_six_written(
                checkpoint::magic(version),
                revision.bytes(),
                checkpoint::put_sizes(plain_sizes(self@, version)),
                ecology::put_ecology(self@.components.ecology),
                ledger::put_ledger(ReceiptFormat::LegacyV11, self@.components.ledger),
                compiler_wire::put_records(
                    restore::knowledge_format(version),
                    self@.components.knowledge.records,
                ),
            );
        }
        assert(plain_payload(self@, version) == Some(bytes@));
        let ghost payload = bytes@;
        let checksum = hash_bytes(bytes.as_slice());
        write_digest(checksum, &mut bytes);
        assert(bytes@ =~= payload + digest::hash(payload).bytes());
        Some(IntelligenceCheckpoint::of(Arc::new(bytes)))
    }
}

} // verus!
