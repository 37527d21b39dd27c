//! Which accounts were seen under which user profile, and the profiles that
//! link accounts of both kinds.

use vstd::prelude::*;

use crate::order::{
    char_codes, increasing_texts, lemma_in_order_exists, lemma_increasing_drop_last,
    lemma_increasing_texts, lemma_precedes_irreflexive, listed, lists, text_before, OrderedMap, TextSet,
};
use crate::views::{push_view, views};

verus! {

/// The accounts of each profile.
pub type ProfileAccounts = OrderedMap<String, TextSet>;

/// `accounts` with `name` added to each of `profiles`.
pub open spec fn with_account(
    accounts: Map<Seq<char>, Set<Seq<char>>>,
    profiles: Set<Seq<char>>,
    name: Seq<char>,
) -> Map<Seq<char>, Set<Seq<char>>> {
    Map::new(
        |p: Seq<char>| accounts.dom().contains(p) || profiles.contains(p),
        |p: Seq<char>|
            if !profiles.contains(p) {
                accounts[p]
            } else if accounts.dom().contains(p) {
                accounts[p].insert(name)
            } else {
                Set::empty().insert(name)
            },
    )
}

/// The accounts of each profile, from pairs of a name and the profiles it was
/// seen under.
pub open spec fn by_profile(seen: Seq<(Seq<char>, Set<Seq<char>>)>) -> Map<
    Seq<char>,
    Set<Seq<char>>,
>
    decreases seen.len(),
{
    if seen.len() == 0 {
        Map::empty()
    } else {
        with_account(by_profile(seen.drop_last()), seen.last().1, seen.last().0)
    }
}

/// An account is listed under a profile exactly where it was seen there, and a
/// profile is listed exactly where some account was seen.
pub proof fn law_by_profile(seen: Seq<(Seq<char>, Set<Seq<char>>)>, profile: Seq<char>, name: Seq<char>)
    ensures
        by_profile(seen).dom().contains(profile) <==> exists|i: int|
            0 <= i < seen.len() && (#[trigger] seen[i]).1.contains(profile),
        by_profile(seen).dom().contains(profile) ==> (by_profile(seen)[profile].contains(name)
            <==> exists|i: int|
            0 <= i < seen.len() && (#[trigger] seen[i]).0 == name && seen[i].1.contains(profile)),
    decreases seen.len(),
{
    if seen.len() > 0 {
        let before = seen.drop_last();
        let last = seen.len() - 1;
        law_by_profile(before, profile, name);
        if exists|i: int| 0 <= i < before.len() && (#[trigger] before[i]).1.contains(profile) {
            let i = choose|i: int|
                0 <= i < before.len() && (#[trigger] before[i]).1.contains(profile);
            assert(seen[i].1.contains(profile));
        }
        if exists|i: int|
            0 <= i < before.len() && (#[trigger] before[i]).0 == name && before[i].1.contains(
                profile,
            ) {
            let i = choose|i: int|
                0 <= i < before.len() && (#[trigger] before[i]).0 == name && before[i].1.contains(
                    profile,
                );
            assert(seen[i].0 == name && seen[i].1.contains(profile));
        }
        if exists|i: int|
            0 <= i < seen.len() && (#[trigger] seen[i]).0 == name && seen[i].1.contains(profile) {
            let i = choose|i: int|
                0 <= i < seen.len() && (#[trigger] seen[i]).0 == name && seen[i].1.contains(
                    profile,
                );
            if i < last {
                assert(before[i].0 == name && before[i].1.contains(profile));
            }
        }
        if exists|i: int| 0 <= i < seen.len() && (#[trigger] seen[i]).1.contains(profile) {
            let i = choose|i: int| 0 <= i < seen.len() && (#[trigger] seen[i]).1.contains(profile);
            if i < last {
                assert(before[i].1.contains(profile));
            }
        }
    }
}

/// Adds `name` to each of `profiles`.
pub fn add_account(accounts: &mut ProfileAccounts, profiles: &TextSet, name: &str)
    ensures
        final(accounts)@ == with_account(old(accounts)@, profiles@, name@),
{
    let list = profiles.to_list();
    let ghost all = views(list@);
    let ghost start = accounts@;
    assert(with_account(start, all.take(0).to_set(), name@) =~= start);
    for i in 0..list.len()
        invariant
            all == views(list@),
            increasing_texts(all),
            accounts@ == with_account(start, all.take(i as int).to_set(), name@),
    {
        let profile = list[i].clone();
        let ghost before = accounts@;
        let ghost done = all.take(i as int).to_set();
        assert(profile@ == all[i as int]);
        let mut names = match accounts.get(&profile) {
            Some(names) => names.clone(),
            None => TextSet::new(),
        };
        names.insert(name.to_string());
        let ghost key = profile@;
        accounts.insert(profile, names);
        proof {
            assert(all.take(i + 1) =~= all.take(i as int).push(key));
            all.take(i as int).lemma_push_to_set_commute(key);
            assert(!done.contains(key)) by {
                if done.contains(key) {
                    let part = all.take(i as int);
                    assert(part.contains(key));
                    let j = choose|j: int| 0 <= j < part.len() && part[j] == key;
                    assert(all[j] == all[i as int]);
                    lemma_precedes_irreflexive(
                        char_codes(all[j]),
                        char_codes(all[i as int]),
                    );
                }
            }
            assert(accounts@ =~= with_account(start, done.insert(key), name@));
        }
    }
    assert(all.take(all.len() as int) =~= all);
}

/// A profile under which accounts of both kinds were seen.
#[derive(Debug, Clone)]
pub struct ProfileLink {
    pub profile: String,
    pub minecraft_accounts: Vec<String>,
    pub discord_accounts: Vec<String>,
}

#[verifier::ext_equal]
pub struct ProfileLinkView {
    pub profile: Seq<char>,
    pub minecraft_accounts: Seq<Seq<char>>,
    pub discord_accounts: Seq<Seq<char>>,
}

impl View for ProfileLink {
    type V = ProfileLinkView;

    open spec fn view(&self) -> ProfileLinkView {
        ProfileLinkView {
            profile: self.profile@,
            minecraft_accounts: views(self.minecraft_accounts@),
            discord_accounts: views(self.discord_accounts@),
        }
    }
}

/// The accounts of a profile; none where it is not listed.
pub open spec fn accounts_of(accounts: Map<Seq<char>, Set<Seq<char>>>, profile: Seq<char>) -> Set<
    Seq<char>,
> {
    if accounts.dom().contains(profile) {
        accounts[profile]
    } else {
        Set::empty()
    }
}

/// Both kinds of accounts were seen under `profile`.
pub open spec fn is_linked(
    minecraft: Map<Seq<char>, Set<Seq<char>>>,
    discord: Map<Seq<char>, Set<Seq<char>>>,
    profile: Seq<char>,
) -> bool {
    accounts_of(minecraft, profile) != Set::<Seq<char>>::empty() && accounts_of(discord, profile)
        != Set::<Seq<char>>::empty()
}

/// The links of those of `profiles` that are linked, in order.
pub open spec fn links_of(
    minecraft: Map<Seq<char>, Set<Seq<char>>>,
    discord: Map<Seq<char>, Set<Seq<char>>>,
    profiles: Seq<Seq<char>>,
) -> Seq<ProfileLinkView>
    decreases profiles.len(),
{
    if profiles.len() == 0 {
        Seq::empty()
    } else {
        let before = links_of(minecraft, discord, profiles.drop_last());
        let profile = profiles.last();
        if is_linked(minecraft, discord, profile) {
            before.push(
                ProfileLinkView {
                    profile,
                    minecraft_accounts: listed(accounts_of(minecraft, profile)),
                    discord_accounts: listed(accounts_of(discord, profile)),
                },
            )
        } else {
            before
        }
    }
}

/// The links of all profiles, in order of their keys.
pub open spec fn profile_links(
    minecraft: Map<Seq<char>, Set<Seq<char>>>,
    discord: Map<Seq<char>, Set<Seq<char>>>,
) -> Seq<ProfileLinkView> {
    links_of(minecraft, discord, listed(minecraft.dom().union(discord.dom())))
}

/// Every link has accounts of both kinds, and every linked profile among
/// `profiles` has a link.
pub proof fn law_links(
    minecraft: Map<Seq<char>, Set<Seq<char>>>,
    discord: Map<Seq<char>, Set<Seq<char>>>,
    profiles: Seq<Seq<char>>,
    profile: Seq<char>,
)
    ensures
        (exists|i: int|
            0 <= i < links_of(minecraft, discord, profiles).len() && (#[trigger] links_of(
                minecraft,
                discord,
                profiles,
            )[i]).profile == profile) <==> profiles.contains(profile) && is_linked(
            minecraft,
            discord,
            profile,
        ),
    decreases profiles.len(),
{
    let links = links_of(minecraft, discord, profiles);
    if profiles.len() > 0 {
        let before = profiles.drop_last();
        let shorter = links_of(minecraft, discord, before);
        law_links(minecraft, discord, before, profile);
        if exists|i: int| 0 <= i < shorter.len() && (#[trigger] shorter[i]).profile == profile {
            let i = choose|i: int|
                0 <= i < shorter.len() && (#[trigger] shorter[i]).profile == profile;
            assert(links[i].profile == profile);
            let j = choose|j: int| 0 <= j < before.len() && before[j] == profile;
            assert(profiles[j] == profile);
        }
        if exists|i: int| 0 <= i < links.len() && (#[trigger] links[i]).profile == profile {
            let i = choose|i: int| 0 <= i < links.len() && (#[trigger] links[i]).profile == profile;
            if i < shorter.len() {
                assert(shorter[i].profile == profile);
            } else {
                assert(profiles[profiles.len() - 1] == profile);
            }
        }
        if profiles.contains(profile) && is_linked(minecraft, discord, profile) {
            let j = choose|j: int| 0 <= j < profiles.len() && profiles[j] == profile;
            if j < before.len() {
                assert(before[j] == profile);
            } else {
                assert(links[links.len() - 1].profile == profile);
            }
        }
    }
}

/// The links stand in increasing order of their profiles, none twice.
pub proof fn law_links_in_order(
    minecraft: Map<Seq<char>, Set<Seq<char>>>,
    discord: Map<Seq<char>, Set<Seq<char>>>,
    i: int,
    j: int,
)
    requires
        minecraft.dom().finite(),
        discord.dom().finite(),
        0 <= i < j < profile_links(minecraft, discord).len(),
    ensures
        text_before(
            profile_links(minecraft, discord)[i].profile,
            profile_links(minecraft, discord)[j].profile,
        ),
{
    let all = minecraft.dom().union(discord.dom());
    lemma_in_order_exists::<String>(all);
    lemma_links_in_order(minecraft, discord, listed(all));
}

proof fn lemma_links_in_order(
    minecraft: Map<Seq<char>, Set<Seq<char>>>,
    discord: Map<Seq<char>, Set<Seq<char>>>,
    profiles: Seq<Seq<char>>,
)
    requires
        increasing_texts(profiles),
    ensures
        ({
            let links = links_of(minecraft, discord, profiles);
            &&& forall|i: int|
                0 <= i < links.len() ==> profiles.contains((#[trigger] links[i]).profile)
            &&& forall|i: int, j: int|
                0 <= i < j < links.len() ==> text_before(
                    (#[trigger] links[i]).profile,
                    (#[trigger] links[j]).profile,
                )
        }),
    decreases profiles.len(),
{
    if profiles.len() > 0 {
        let before = profiles.drop_last();
        lemma_increasing_drop_last::<String>(profiles);
        lemma_links_in_order(minecraft, discord, before);
        let shorter = links_of(minecraft, discord, before);
        let links = links_of(minecraft, discord, profiles);
        let last = profiles.len() - 1;
        assert(profiles[last] == profiles.last());
        assert forall|i: int| 0 <= i < links.len() implies profiles.contains(
            (#[trigger] links[i]).profile,
        ) by {
            if i < shorter.len() {
                assert(links[i] == shorter[i]);
                let k = choose|k: int| 0 <= k < before.len() && before[k] == shorter[i].profile;
                assert(profiles[k] == links[i].profile);
            }
        }
        assert forall|i: int, j: int| 0 <= i < j < links.len() implies text_before(
            (#[trigger] links[i]).profile,
            (#[trigger] links[j]).profile,
        ) by {
            assert(links[i] == shorter[i]);
            if j < shorter.len() {
                assert(links[j] == shorter[j]);
            } else {
                assert(before.contains(shorter[i].profile));
                let k = choose|k: int| 0 <= k < before.len() && before[k] == shorter[i].profile;
                lemma_increasing_texts(profiles, k, last);
            }
        }
    }
}

/// The link names the accounts of its profile in increasing order, each once.
pub open spec fn lists_accounts(
    link: ProfileLinkView,
    minecraft: Map<Seq<char>, Set<Seq<char>>>,
    discord: Map<Seq<char>, Set<Seq<char>>>,
) -> bool {
    &&& lists(link.minecraft_accounts, accounts_of(minecraft, link.profile))
    &&& lists(link.discord_accounts, accounts_of(discord, link.profile))
}

fn accounts_under(accounts: &ProfileAccounts, profile: &String) -> (r: TextSet)
    ensures
        r@ == accounts_of(accounts@, profile@),
{
    match accounts.get(profile) {
        Some(names) => names.clone(),
        None => TextSet::new(),
    }
}

pub fn build_profile_links(
    minecraft_profile_accounts: &ProfileAccounts,
    discord_profile_accounts: &ProfileAccounts,
) -> (r: Vec<ProfileLink>)
    ensures
        views(r@) == profile_links(minecraft_profile_accounts@, discord_profile_accounts@),
        ({
            let profiles = minecraft_profile_accounts@.dom().union(discord_profile_accounts@.dom());
            lists(listed(profiles), profiles)
        }),
        forall|i: int|
            0 <= i < r@.len() ==> lists_accounts(
                (#[trigger] views(r@)[i]),
                minecraft_profile_accounts@,
                discord_profile_accounts@,
            ),
{
    let ghost minecraft = minecraft_profile_accounts@;
    let ghost discord = discord_profile_accounts@;
    let mut keys = minecraft_profile_accounts.key_set();
    keys.insert_all(&discord_profile_accounts.key_set());
    let list = keys.to_list();
    let ghost all = views(list@);
    let mut out: Vec<ProfileLink> = Vec::new();
    assert(views(out@) =~= Seq::empty());
    for i in 0..list.len()
        invariant
            all == views(list@),
            minecraft == minecraft_profile_accounts@,
            discord == discord_profile_accounts@,
            views(out@) == links_of(minecraft, discord, all.take(i as int)),
            forall|j: int|
                0 <= j < out@.len() ==> lists_accounts(
                    (#[trigger] views(out@)[j]),
                    minecraft,
                    discord,
                ),
    {
        let ghost before = views(out@);
        assert(all.take(i + 1).drop_last() =~= all.take(i as int));
        assert(all.take(i + 1).last() == list@[i as int]@);
        let minecraft_accounts = accounts_under(minecraft_profile_accounts, &list[i]);
        let discord_accounts = accounts_under(discord_profile_accounts, &list[i]);
        if !minecraft_accounts.is_empty() && !discord_accounts.is_empty() {
            push_view(
                &mut out,
                ProfileLink {
                    profile: list[i].clone(),
                    minecraft_accounts: minecraft_accounts.to_list(),
                    discord_accounts: discord_accounts.to_list(),
                },
            );
            assert forall|j: int| 0 <= j < out@.len() implies lists_accounts(
                (#[trigger] views(out@)[j]),
                minecraft,
                discord,
            ) by {
                if j < before.len() {
                    assert(views(out@)[j] == before[j]);
                }
            }
        }
    }
    assert(all.take(all.len() as int) =~= all);
    out
}

} // verus!
