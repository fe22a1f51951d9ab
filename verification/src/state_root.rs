//! The state root of a block: the root of the main state tree, joined with the root
//! of the position tree from the activation of native positions on.

use crate::hash_value::HashValue;
use crate::merkle_node::Version;
use vstd::prelude::*;

verus! {

/// The tag that keeps composite state roots apart from other hashes: the text
/// `APTOS::StateRoot` in ASCII.
pub const COMPOSITE_STATE_ROOT_DOMAIN: [u8; 16] = [
    0x41, 0x50, 0x54, 0x4f, 0x53, 0x3a, 0x3a, 0x53, 0x74, 0x61, 0x74, 0x65, 0x52, 0x6f, 0x6f, 0x74,
];

/// A run of the hasher: it is set up with the tag `domain`, fed with the hashes of
/// `updates` in their order, and finished.
#[derive(Debug, PartialEq, Eq)]
pub struct HasherRun {
    pub domain: [u8; 16],
    pub updates: [HashValue; 2],
}

/// The run whose digest is the composite state root.
pub open spec fn composition(main_state_root: HashValue, position_root: HashValue) -> HasherRun {
    HasherRun {
        domain: COMPOSITE_STATE_ROOT_DOMAIN,
        updates: [main_state_root, position_root],
    }
}

/// A state root, or the run of the hasher that gives it.
#[derive(Debug, PartialEq, Eq)]
pub enum StateRoot {
    Known(HashValue),
    Digest(HasherRun),
}

/// Native positions are part of the state at `version`.
pub open spec fn is_active(version: Version, activation_version: Option<Version>) -> bool {
    activation_version matches Some(activation) && activation <= version
}

/// The state root at `version`: the root of the main tree before native positions
/// are active, and the composition of the two roots from then on.
pub open spec fn state_root_at(
    version: Version,
    activation_version: Option<Version>,
    main_state_root: HashValue,
    position_root: HashValue,
) -> StateRoot {
    if is_active(version, activation_version) {
        StateRoot::Digest(composition(main_state_root, position_root))
    } else {
        StateRoot::Known(main_state_root)
    }
}

impl StateRoot {
    /// The hash of the root, with the digests of the hasher.
    pub open spec fn value(self, digest_of: spec_fn(HasherRun) -> HashValue) -> HashValue {
        match self {
            StateRoot::Known(root) => root,
            StateRoot::Digest(run) => digest_of(run),
        }
    }
}

/// The root of a position tree without positions.
pub fn empty_position_root() -> (r: HashValue)
    ensures
        r == HashValue::empty_tree(),
{
    HashValue::sparse_merkle_placeholder()
}

/// Composes the roots of the two trees: the digest of the run is the state root.
pub fn compose_state_root(main_state_root: HashValue, position_root: HashValue) -> (r: HasherRun)
    ensures
        r == composition(main_state_root, position_root),
        r.domain@ == COMPOSITE_STATE_ROOT_DOMAIN@,
        r.updates@ == seq![main_state_root, position_root],
{
    let r = HasherRun {
        domain: COMPOSITE_STATE_ROOT_DOMAIN,
        updates: [main_state_root, position_root],
    };
    assert(r.updates@ =~= seq![main_state_root, position_root]);
    r
}

/// The state root at `version`: the root of the main tree before native positions
/// are active, and the composition of the two roots from then on.
pub fn state_root_hash_at_version(
    version: Version,
    activation_version: Option<Version>,
    main_state_root: HashValue,
    position_root: HashValue,
) -> (r: StateRoot)
    ensures
        r == state_root_at(version, activation_version, main_state_root, position_root),
        match activation_version {
            None => r == StateRoot::Known(main_state_root),
            Some(activation) => {
                &&& version < activation ==> r == StateRoot::Known(main_state_root)
                &&& activation <= version ==> {
                    &&& r matches StateRoot::Digest(run)
                    &&& run.domain@ == COMPOSITE_STATE_ROOT_DOMAIN@
                    &&& run.updates@ == seq![main_state_root, position_root]
                }
            },
        },
{
    match activation_version {
        Some(activation) if version >= activation => StateRoot::Digest(
            compose_state_root(main_state_root, position_root),
        ),
        _ => StateRoot::Known(main_state_root),
    }
}

/// A state root is the composition of two roots, given the digest of their
/// composition.
pub open spec fn verifies(expected: HashValue, digest: HashValue) -> bool {
    digest == expected
}

/// Whether a state root is the composition of two roots, given the digest of their
/// composition.
pub fn verify_composite_state_root(expected: HashValue, digest: HashValue) -> (r: bool)
    ensures
        r == verifies(expected, digest),
        r == (digest == expected),
{
    digest == expected
}

/// Compositions of different roots are different runs of the hasher: which of the
/// two roots is which counts too.
pub proof fn law_composition_separates_roots(
    main_state_root: HashValue,
    position_root: HashValue,
    other_main_state_root: HashValue,
    other_position_root: HashValue,
)
    ensures
        composition(main_state_root, position_root) == composition(
            other_main_state_root,
            other_position_root,
        ) <==> main_state_root == other_main_state_root && position_root == other_position_root,
{
    let a = composition(main_state_root, position_root).updates;
    let b = composition(other_main_state_root, other_position_root).updates;
    assert(a@[0] == main_state_root && a@[1] == position_root);
    assert(b@[0] == other_main_state_root && b@[1] == other_position_root);
}

/// Once native positions are active, they stay so at all later versions.
pub proof fn law_activation_lasts(
    version: Version,
    later: Version,
    activation_version: Option<Version>,
)
    requires
        is_active(version, activation_version),
        version <= later,
    ensures
        is_active(later, activation_version),
{
}

/// From the activation on, a state root verifies with the roots that it was composed
/// of; before, it is the root of the main tree.
pub proof fn law_state_root_verifies(
    digest_of: spec_fn(HasherRun) -> HashValue,
    version: Version,
    activation_version: Option<Version>,
    main_state_root: HashValue,
    position_root: HashValue,
)
    ensures
        ({
            let root = state_root_at(version, activation_version, main_state_root, position_root)
                .value(digest_of);
            if is_active(version, activation_version) {
                verifies(root, digest_of(composition(main_state_root, position_root)))
            } else {
                root == main_state_root
            }
        }),
{
}

/// Unless the hasher collides on the two compositions, a composite state root
/// verifies with no other roots than its own.
pub proof fn law_verification_binds_roots(
    digest_of: spec_fn(HasherRun) -> HashValue,
    main_state_root: HashValue,
    position_root: HashValue,
    other_main_state_root: HashValue,
    other_position_root: HashValue,
)
    requires
        composition(main_state_root, position_root) != composition(
            other_main_state_root,
            other_position_root,
        ) ==> digest_of(composition(main_state_root, position_root)) != digest_of(
            composition(other_main_state_root, other_position_root),
        ),
        verifies(
            digest_of(composition(main_state_root, position_root)),
            digest_of(composition(other_main_state_root, other_position_root)),
        ),
    ensures
        other_main_state_root == main_state_root,
        other_position_root == position_root,
{
    law_composition_separates_roots(
        main_state_root,
        position_root,
        other_main_state_root,
        other_position_root,
    );
}

/// Before the activation, and without one, the state root is the root of the main
/// tree, whatever the position tree holds. From the activation on it is the digest of
/// the tag, the root of the main tree and the root of the position tree.
pub proof fn law_activation_decides(
    digest_of: spec_fn(HasherRun) -> HashValue,
    version: Version,
    activation_version: Option<Version>,
    main_state_root: HashValue,
    position_root: HashValue,
    run: HasherRun,
)
    requires
        run.domain == COMPOSITE_STATE_ROOT_DOMAIN,
        run.updates@ == seq![main_state_root, position_root],
    ensures
        ({
            let root = state_root_at(version, activation_version, main_state_root, position_root)
                .value(digest_of);
            match activation_version {
                None => root == main_state_root,
                Some(activation) => {
                    &&& version < activation ==> root == main_state_root
                    &&& activation <= version ==> root == digest_of(run)
                },
            }
        }),
{
    assert(run.updates =~= composition(main_state_root, position_root).updates);
}

/// The tag spells a text.
pub proof fn law_domain_spells_its_name()
    ensures
        "APTOS::StateRoot"@.len() == 16,
        forall|i: int|
            0 <= i < 16 ==> (#[trigger] COMPOSITE_STATE_ROOT_DOMAIN@[i]) as int
                == "APTOS::StateRoot"@[i] as int,
{
    reveal_strlit("APTOS::StateRoot");
}

/// The state roots of two versions with the same roots of the trees differ only where
/// the activation lies between the versions.
pub proof fn law_state_root_changes_at_activation(
    version: Version,
    later: Version,
    activation_version: Option<Version>,
    main_state_root: HashValue,
    position_root: HashValue,
)
    requires
        version <= later,
    ensures
        state_root_at(version, activation_version, main_state_root, position_root)
            == state_root_at(later, activation_version, main_state_root, position_root) <==> !(
        activation_version matches Some(activation) && version < activation && activation <= later),
{
}

/// A state root verifies with its own digest and with no other.
pub proof fn law_one_digest_verifies(expected: HashValue, digest: HashValue, other: HashValue)
    ensures
        verifies(expected, expected),
        verifies(expected, digest) && verifies(expected, other) ==> digest == other,
{
}

} // verus!
