//! What a table that passes validation is like.
use crate::reality::grease::GreaseSlot;
use crate::reality::group::NamedGroup;
use crate::reality::hello_profile::{
    advertised_groups, entry_groups, extension_complaint, first_extension_complaint,
    first_share_complaint, first_suite_complaint, first_unadvertised, grease_slots,
    key_share_count, negotiable_suites, profile_verdict, shared_groups, suite_complaint,
    CipherSuiteSlot, GroupSlot, KeyShareSlot, ProfileShape, SlotShape,
};
use vstd::prelude::*;

verus! {

/// Whether a suite slot stands for what the client can do with it: those offered for
/// negotiation are the three of TLS 1.3, and none of these is decoration.
pub open spec fn honest_suite(slot: CipherSuiteSlot) -> bool {
    match slot {
        CipherSuiteSlot::Grease => true,
        CipherSuiteSlot::Negotiable(id) => id == 0x1301 || id == 0x1302 || id == 0x1303,
        CipherSuiteSlot::Decorative(id) => id != 0x1301 && id != 0x1302 && id != 0x1303,
    }
}

/// Whether a share can be completed: a GREASE one, X25519, P-256, or the hybrid of ML-KEM-768
/// and X25519.
pub open spec fn honest_share(slot: KeyShareSlot) -> bool {
    slot == KeyShareSlot::Grease || slot == KeyShareSlot::Group(NamedGroup::X25519) || slot
        == KeyShareSlot::Group(NamedGroup::Secp256r1) || slot == KeyShareSlot::Group(
        NamedGroup::X25519MlKem768,
    )
}

/// The list of groups that counts: the last one at or before a place.
pub open spec fn names_group(extensions: Seq<SlotShape>, group: NamedGroup, at: int) -> bool {
    &&& 0 <= at < extensions.len()
    &&& extensions[at] matches SlotShape::SupportedGroups(groups) && groups.contains(
        GroupSlot::Group(group),
    )
    &&& forall|i: int| at < i < extensions.len() ==> !(#[trigger] extensions[i] is SupportedGroups)
}

proof fn lemma_suites(slots: Seq<CipherSuiteSlot>, n: nat)
    requires
        n <= slots.len(),
    ensures
        first_suite_complaint(slots, n) is None <==> forall|i: int|
            0 <= i < n ==> honest_suite(#[trigger] slots[i]),
        first_suite_complaint(slots, n) is None ==> (negotiable_suites(slots, n).len() == 0
            <==> forall|i: int| 0 <= i < n ==> !(#[trigger] slots[i] is Negotiable)),
    decreases n,
{
    if n > 0 {
        lemma_suites(slots, (n - 1) as nat);
        assert(suite_complaint(slots[n - 1]) is None <==> honest_suite(slots[n - 1]));
        if first_suite_complaint(slots, n) is None {
            assert(honest_suite(slots[n - 1]));
            if forall|i: int| 0 <= i < n ==> !(#[trigger] slots[i] is Negotiable) {
                assert(!(slots[n - 1] is Negotiable));
            }
        }
    }
}

proof fn lemma_shares(entries: Seq<KeyShareSlot>, n: nat)
    requires
        n <= entries.len(),
    ensures
        first_share_complaint(entries, n) is None <==> forall|i: int|
            0 <= i < n ==> honest_share(#[trigger] entries[i]),
    decreases n,
{
    if n > 0 {
        lemma_shares(entries, (n - 1) as nat);
        if first_share_complaint(entries, n) is None {
            assert(honest_share(entries[n - 1]));
        }
    }
}

proof fn lemma_extensions(extensions: Seq<SlotShape>, n: nat)
    requires
        n <= extensions.len(),
        first_extension_complaint(extensions, n) is None,
    ensures
        forall|i: int|
            0 <= i < n ==> (extension_complaint(extensions, i) is None && (
            #[trigger] extensions[i] == SlotShape::Padding ==> i + 1 == extensions.len())),
    decreases n,
{
    if n > 0 {
        lemma_extensions(extensions, (n - 1) as nat);
    }
}

proof fn lemma_no_share(extensions: Seq<SlotShape>, n: nat)
    requires
        n <= extensions.len(),
    ensures
        key_share_count(extensions, n) == 0 <==> forall|i: int|
            0 <= i < n ==> !(#[trigger] extensions[i] is KeyShare),
    decreases n,
{
    if n > 0 {
        lemma_no_share(extensions, (n - 1) as nat);
        if key_share_count(extensions, n) != 0 {
            if extensions[n - 1] is KeyShare {
            } else {
                assert(key_share_count(extensions, (n - 1) as nat) != 0);
            }
        }
    }
}

proof fn lemma_one_share(extensions: Seq<SlotShape>, n: nat) -> (at: int)
    requires
        n <= extensions.len(),
        key_share_count(extensions, n) == 1,
    ensures
        0 <= at < n,
        extensions[at] is KeyShare,
        forall|i: int| 0 <= i < n && i != at ==> !(#[trigger] extensions[i] is KeyShare),
    decreases n,
{
    lemma_no_share(extensions, (n - 1) as nat);
    if extensions[n - 1] is KeyShare {
        n - 1
    } else {
        lemma_one_share(extensions, (n - 1) as nat)
    }
}

proof fn lemma_grease(extensions: Seq<SlotShape>, n: nat) -> (at: Seq<int>)
    requires
        n <= extensions.len(),
    ensures
        at.len() == grease_slots(extensions, n).len(),
        forall|k: int|
            0 <= k < at.len() ==> 0 <= #[trigger] at[k] < n && (extensions[at[k]] matches
                SlotShape::Grease { slot, .. } && slot == grease_slots(extensions, n)[k]),
        forall|k: int, l: int| 0 <= k < l < at.len() ==> at[k] < at[l],
        forall|i: int|
            0 <= i < n && (#[trigger] extensions[i] is Grease) ==> at.contains(i),
    decreases n,
{
    if n == 0 {
        Seq::empty()
    } else {
        let before = lemma_grease(extensions, (n - 1) as nat);
        if extensions[n - 1] is Grease {
            let at = before.push(n - 1);
            assert forall|i: int| 0 <= i < n && (#[trigger] extensions[i] is Grease) implies
                at.contains(i) by {
                if i < n - 1 {
                    let k = before.index_of(i);
                    assert(at[k] == i);
                } else {
                    assert(at[before.len() as int] == i);
                }
            }
            at
        } else {
            before
        }
    }
}

proof fn lemma_entry_groups(entries: Seq<KeyShareSlot>, n: nat, j: int)
    requires
        n <= entries.len(),
        0 <= j < n,
        entries[j] is Group,
    ensures
        entry_groups(entries, n).contains(entries[j]->Group_0),
    decreases n,
{
    let before = entry_groups(entries, (n - 1) as nat);
    let all = entry_groups(entries, n);
    if j == n - 1 {
        assert(all[before.len() as int] == entries[j]->Group_0);
    } else {
        lemma_entry_groups(entries, (n - 1) as nat, j);
        let k = before.index_of(entries[j]->Group_0);
        assert(all[k] == entries[j]->Group_0);
    }
}

proof fn lemma_shared(extensions: Seq<SlotShape>, n: nat, at: int, j: int)
    requires
        n <= extensions.len(),
        0 <= at < n,
        extensions[at] is KeyShare,
        0 <= j < extensions[at]->KeyShare_0.len(),
        extensions[at]->KeyShare_0[j] is Group,
    ensures
        shared_groups(extensions, n).contains(extensions[at]->KeyShare_0[j]->Group_0),
    decreases n,
{
    let group = extensions[at]->KeyShare_0[j]->Group_0;
    let before = shared_groups(extensions, (n - 1) as nat);
    let all = shared_groups(extensions, n);
    if at == n - 1 {
        let entries = extensions[at]->KeyShare_0;
        lemma_entry_groups(entries, entries.len(), j);
        let k = entry_groups(entries, entries.len()).index_of(group);
        assert(all[before.len() + k] == group);
    } else {
        lemma_shared(extensions, (n - 1) as nat, at, j);
        let k = before.index_of(group);
        assert(all[k] == group);
    }
}

proof fn lemma_advertised(shared: Seq<NamedGroup>, advertised: Seq<GroupSlot>, n: nat, k: int)
    requires
        n <= shared.len(),
        0 <= k < n,
        first_unadvertised(shared, advertised, n) is None,
    ensures
        advertised.contains(GroupSlot::Group(shared[k])),
    decreases n,
{
    if k < n - 1 {
        lemma_advertised(shared, advertised, (n - 1) as nat, k);
    }
}

proof fn lemma_last_groups(extensions: Seq<SlotShape>, n: nat, group: NamedGroup) -> (at: int)
    requires
        n <= extensions.len(),
        advertised_groups(extensions, n).contains(GroupSlot::Group(group)),
    ensures
        0 <= at < n,
        extensions[at] matches SlotShape::SupportedGroups(groups) && groups.contains(
            GroupSlot::Group(group),
        ),
        forall|i: int| at < i < n ==> !(#[trigger] extensions[i] is SupportedGroups),
    decreases n,
{
    if extensions[n - 1] is SupportedGroups {
        n - 1
    } else {
        lemma_last_groups(extensions, (n - 1) as nat, group)
    }
}

/// A table that passes validation can be written and answered. Its suites are what they
/// say, and one at least can be negotiated. Padding stands last. There is exactly one list
/// of shares, each can be completed, and its group is named among the supported ones.
/// There are no GREASE extensions, or two: the first and then the second.
pub proof fn a_valid_table_can_be_written_and_answered(profile: ProfileShape) -> (at: int)
    requires
        profile_verdict(profile) is Ok,
    ensures
        forall|i: int|
            0 <= i < profile.cipher_suites.len() ==> honest_suite(#[trigger] profile.cipher_suites[i]),
        exists|i: int|
            0 <= i < profile.cipher_suites.len() && (#[trigger] profile.cipher_suites[i] is
                Negotiable),
        forall|i: int|
            0 <= i < profile.extensions.len() && #[trigger] profile.extensions[i]
                == SlotShape::Padding ==> i + 1 == profile.extensions.len(),
        0 <= at < profile.extensions.len(),
        profile.extensions[at] matches SlotShape::KeyShare(entries) && (forall|j: int|
            0 <= j < entries.len() ==> honest_share(#[trigger] entries[j])) && (forall|j: int|
            0 <= j < entries.len() && (#[trigger] entries[j] is Group) ==> exists|k: int| #[trigger]
                names_group(profile.extensions, entries[j]->Group_0, k)),
        forall|i: int|
            0 <= i < profile.extensions.len() && i != at ==> !(#[trigger] profile.extensions[i] is
                KeyShare),
        (forall|i: int| 0 <= i < profile.extensions.len() ==> !(#[trigger] profile.extensions[i] is
            Grease)) || (exists|first: int, second: int|
            #![trigger profile.extensions[first], profile.extensions[second]]
            {
                &&& 0 <= first < second < profile.extensions.len()
                &&& profile.extensions[first] matches SlotShape::Grease { slot, .. } && slot
                    == GreaseSlot::Extension1
                &&& profile.extensions[second] matches SlotShape::Grease { slot, .. } && slot
                    == GreaseSlot::Extension2
                &&& forall|i: int|
                    0 <= i < profile.extensions.len() && i != first && i != second ==> !(
                    #[trigger] profile.extensions[i] is Grease)
            }),
{
    let suites = profile.cipher_suites;
    let extensions = profile.extensions;
    let n = extensions.len();
    lemma_suites(suites, suites.len());
    lemma_extensions(extensions, n);
    let at = lemma_one_share(extensions, n);
    let entries = extensions[at]->KeyShare_0;
    assert(extension_complaint(extensions, at) is None);
    lemma_shares(entries, entries.len());
    let shared = shared_groups(extensions, n);
    assert forall|j: int| 0 <= j < entries.len() && (#[trigger] entries[j] is Group) implies exists|
        k: int,
    | #[trigger] names_group(extensions, entries[j]->Group_0, k) by {
        let group = entries[j]->Group_0;
        lemma_shared(extensions, n, at, j);
        let k = shared.index_of(group);
        lemma_advertised(shared, advertised_groups(extensions, n), shared.len(), k);
        let place = lemma_last_groups(extensions, n, group);
        assert(names_group(extensions, group, place));
    }
    let grease = grease_slots(extensions, n);
    let places = lemma_grease(extensions, n);
    if grease.len() == 0 {
        assert forall|i: int| 0 <= i < n implies !(#[trigger] extensions[i] is Grease) by {
            if extensions[i] is Grease {
                assert(places.contains(i));
            }
        }
    } else {
        assert(grease == seq![GreaseSlot::Extension1, GreaseSlot::Extension2]);
        let first = places[0];
        let second = places[1];
        assert(first < second);
        assert forall|i: int| 0 <= i < n && i != first && i != second implies !(
        #[trigger] extensions[i] is Grease) by {
            if extensions[i] is Grease {
                let k = places.index_of(i);
                assert(places[k] == i);
            }
        }
        assert(extensions[first]->Grease_slot == GreaseSlot::Extension1);
        assert(extensions[second]->Grease_slot == GreaseSlot::Extension2);
    }
    at
}

} // verus!
