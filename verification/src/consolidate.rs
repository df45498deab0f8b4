//! Consolidation: choosing one skill per name and planning the symlink
//! reconciliation that makes a link directory match the chosen set.
//!
//! As with discovery, the filesystem is injected: the caller lists the
//! library (or target) directory as [`LibEntry`] records and performs the
//! returned [`ReconcilePlan`]; the engine only decides.

use vstd::prelude::*;
use crate::discover::{Skill, SkillView};

verus! {

/// A desired symbolic link: `name` inside the link directory, pointing at
/// `target`.
#[derive(Clone)]
pub struct Link {
    pub name: String,
    pub target: String,
}

/// Ghost image of a [`Link`].
pub struct LinkView {
    pub name: Seq<char>,
    pub target: Seq<char>,
}

impl View for Link {
    type V = LinkView;

    open spec fn view(&self) -> LinkView {
        LinkView { name: self.name@, target: self.target@ }
    }
}

impl DeepView for Link {
    type V = LinkView;

    open spec fn deep_view(&self) -> LinkView {
        self@
    }
}

/// One immediate entry of a scanned link directory: a symbolic link and where
/// it points, or some other kind of entry (`is_link == false`, `target`
/// empty and meaningless).
#[derive(Clone)]
pub struct LibEntry {
    pub name: String,
    pub is_link: bool,
    pub target: String,
}

/// Ghost image of a [`LibEntry`].
pub struct LibEntryView {
    pub name: Seq<char>,
    pub is_link: bool,
    pub target: Seq<char>,
}

impl View for LibEntry {
    type V = LibEntryView;

    open spec fn view(&self) -> LibEntryView {
        LibEntryView { name: self.name@, is_link: self.is_link, target: self.target@ }
    }
}

impl DeepView for LibEntry {
    type V = LibEntryView;

    open spec fn deep_view(&self) -> LibEntryView {
        self@
    }
}

/// Whether some link in `links` carries the name `n`.
pub open spec fn has_link_name(links: Seq<LinkView>, n: Seq<char>) -> bool {
    exists|i: int| 0 <= i < links.len() && links[i].name == n
}

/// The mapping `name -> target` that a sequence of links denotes.
pub open spec fn links_map(links: Seq<LinkView>) -> Map<Seq<char>, Seq<char>>
    decreases links.len(),
{
    if links.len() == 0 {
        Map::<Seq<char>, Seq<char>>::empty()
    } else {
        links_map(links.drop_last()).insert(links.last().name, links.last().target)
    }
}

/// No two links carry the same name.
pub open spec fn unique_link_names(links: Seq<LinkView>) -> bool {
    forall|i: int, j: int| 0 <= i < j < links.len() ==> links[i].name != links[j].name
}

/// No two directory entries carry the same name.
pub open spec fn unique_entry_names(entries: Seq<LibEntryView>) -> bool {
    forall|i: int, j: int| 0 <= i < j < entries.len() ==> entries[i].name != entries[j].name
}

/// The links the skills call for, resolving each name collision in favour of
/// the earliest occurrence — with skills in discovery order, the
/// earliest-configured source wins.
pub open spec fn chosen_links(skills: Seq<SkillView>) -> Seq<LinkView>
    decreases skills.len(),
{
    if skills.len() == 0 {
        Seq::<LinkView>::empty()
    } else {
        let rest = chosen_links(skills.drop_last());
        let s = skills.last();
        if has_link_name(rest, s.name) {
            rest
        } else {
            rest.push(LinkView { name: s.name, target: s.path })
        }
    }
}

/// The mapping `name -> referent` of the link entries of a directory
/// listing.
pub open spec fn dir_links(entries: Seq<LibEntryView>) -> Map<Seq<char>, Seq<char>>
    decreases entries.len(),
{
    if entries.len() == 0 {
        Map::<Seq<char>, Seq<char>>::empty()
    } else {
        let rest = dir_links(entries.drop_last());
        let e = entries.last();
        if e.is_link {
            rest.insert(e.name, e.target)
        } else {
            rest
        }
    }
}

/// The names of the entries of a directory listing that are not symbolic
/// links: regular files or directories the engine must not overwrite.
pub open spec fn dir_other_names(entries: Seq<LibEntryView>) -> Set<Seq<char>>
    decreases entries.len(),
{
    if entries.len() == 0 {
        Set::<Seq<char>>::empty()
    } else {
        let rest = dir_other_names(entries.drop_last());
        let e = entries.last();
        if e.is_link {
            rest
        } else {
            rest.insert(e.name)
        }
    }
}

/// Whether a desired link must be created or repointed: its name is not
/// blocked by a non-link entry, and no link of that name already points at
/// the desired target.
pub open spec fn link_needs_action(
    l: LinkView,
    links: Map<Seq<char>, Seq<char>>,
    others: Set<Seq<char>>,
) -> bool {
    !others.contains(l.name) && (!links.contains_key(l.name) || links[l.name] != l.target)
}

/// The desired links that must be created or repointed, in desired order.
pub open spec fn create_seq(
    desired: Seq<LinkView>,
    links: Map<Seq<char>, Seq<char>>,
    others: Set<Seq<char>>,
) -> Seq<LinkView>
    decreases desired.len(),
{
    if desired.len() == 0 {
        Seq::<LinkView>::empty()
    } else {
        let rest = create_seq(desired.drop_last(), links, others);
        let d = desired.last();
        if link_needs_action(d, links, others) {
            rest.push(d)
        } else {
            rest
        }
    }
}

/// The desired names blocked by a non-link entry, in desired order.
pub open spec fn conflict_seq(desired: Seq<LinkView>, others: Set<Seq<char>>) -> Seq<Seq<char>>
    decreases desired.len(),
{
    if desired.len() == 0 {
        Seq::<Seq<char>>::empty()
    } else {
        let rest = conflict_seq(desired.drop_last(), others);
        let d = desired.last();
        if others.contains(d.name) {
            rest.push(d.name)
        } else {
            rest
        }
    }
}

/// The names of existing links that no desired link carries: stale links to
/// delete, in listing order.
pub open spec fn remove_seq(entries: Seq<LibEntryView>, desired: Map<Seq<char>, Seq<char>>) -> Seq<
    Seq<char>,
>
    decreases entries.len(),
{
    if entries.len() == 0 {
        Seq::<Seq<char>>::empty()
    } else {
        let rest = remove_seq(entries.drop_last(), desired);
        let e = entries.last();
        if e.is_link && !desired.contains_key(e.name) {
            rest.push(e.name)
        } else {
            rest
        }
    }
}

/// A name is in `dir_links` exactly when some link entry carries it, and in
/// `dir_other_names` exactly when some non-link entry does.
proof fn lemma_dir_membership(entries: Seq<LibEntryView>, n: Seq<char>)
    ensures
        dir_links(entries).contains_key(n) <==> exists|i: int|
            0 <= i < entries.len() && entries[i].is_link && entries[i].name == n,
        dir_other_names(entries).contains(n) <==> exists|i: int|
            0 <= i < entries.len() && !entries[i].is_link && entries[i].name == n,
    decreases entries.len(),
{
    if entries.len() > 0 {
        let pre = entries.drop_last();
        let e = entries.last();
        lemma_dir_membership(pre, n);
        if dir_links(entries).contains_key(n) && !(e.is_link && e.name == n) {
            let i = choose|i: int| 0 <= i < pre.len() && pre[i].is_link && pre[i].name == n;
            assert(entries[i].is_link && entries[i].name == n);
        }
        if e.is_link && e.name == n {
            assert(entries[entries.len() - 1].is_link && entries[entries.len() - 1].name == n);
        }
        if exists|i: int| 0 <= i < entries.len() && entries[i].is_link && entries[i].name == n {
            let i = choose|i: int|
                0 <= i < entries.len() && entries[i].is_link && entries[i].name == n;
            if i < entries.len() - 1 {
                assert(pre[i].is_link && pre[i].name == n);
            }
        }
        if dir_other_names(entries).contains(n) && !(!e.is_link && e.name == n) {
            let i = choose|i: int| 0 <= i < pre.len() && !pre[i].is_link && pre[i].name == n;
            assert(!entries[i].is_link && entries[i].name == n);
        }
        if !e.is_link && e.name == n {
            assert(!entries[entries.len() - 1].is_link && entries[entries.len() - 1].name == n);
        }
        if exists|i: int| 0 <= i < entries.len() && !entries[i].is_link && entries[i].name == n {
            let i = choose|i: int|
                0 <= i < entries.len() && !entries[i].is_link && entries[i].name == n;
            if i < entries.len() - 1 {
                assert(!pre[i].is_link && pre[i].name == n);
            }
        }
    }
}

/// With unique names, a link entry's referent is what `dir_links` maps its
/// name to.
proof fn lemma_dir_links_value(entries: Seq<LibEntryView>, i: int)
    requires
        unique_entry_names(entries),
        0 <= i < entries.len(),
        entries[i].is_link,
    ensures
        dir_links(entries).contains_key(entries[i].name),
        dir_links(entries)[entries[i].name] == entries[i].target,
    decreases entries.len(),
{
    if i < entries.len() - 1 {
        assert(entries.drop_last()[i] == entries[i]);
        assert(unique_entry_names(entries.drop_last()));
        lemma_dir_links_value(entries.drop_last(), i);
        assert(entries.last().name != entries[i].name);
    }
}

/// A name is in `links_map` exactly when some link carries it.
proof fn lemma_links_map_membership(links: Seq<LinkView>, n: Seq<char>)
    ensures
        links_map(links).contains_key(n) <==> has_link_name(links, n),
    decreases links.len(),
{
    if links.len() > 0 {
        lemma_links_map_membership(links.drop_last(), n);
        if links.last().name == n {
            assert(links[links.len() - 1].name == n);
        } else if has_link_name(links, n) {
            let i = choose|i: int| 0 <= i < links.len() && links[i].name == n;
            if i < links.len() - 1 {
                assert(links.drop_last()[i].name == n);
            }
        } else {
            assert(!has_link_name(links.drop_last(), n)) by {
                if has_link_name(links.drop_last(), n) {
                    let i = choose|i: int|
                        0 <= i < links.drop_last().len() && links.drop_last()[i].name == n;
                    assert(links[i].name == n);
                }
            }
        }
    }
}

/// Whether any of `links` carries the name `name`.
fn contains_link_name(links: &Vec<Link>, name: &String) -> (r: bool)
    ensures
        r == has_link_name(links.deep_view(), name@),
{
    let n = links.len();
    let mut i: usize = 0;
    while i < n
        invariant
            n == links.len(),
            0 <= i <= n,
            forall|j: int| 0 <= j < i ==> links.deep_view()[j].name != name@,
        decreases n - i,
    {
        if links[i].name == *name {
            proof {
                assert(links.deep_view()[i as int].name == name@);
            }
            return true;
        }
        i += 1;
    }
    false
}

/// `links_map` of a push is an insert.
proof fn lemma_links_map_push(links: Seq<LinkView>, l: LinkView)
    ensures
        links_map(links.push(l)) == links_map(links).insert(l.name, l.target),
{
    assert(links.push(l).drop_last() =~= links);
    assert(links.push(l).last() == l);
}

/// The set a sequence of names denotes.
pub open spec fn names_set(names: Seq<Seq<char>>) -> Set<Seq<char>>
    decreases names.len(),
{
    if names.len() == 0 {
        Set::<Seq<char>>::empty()
    } else {
        names_set(names.drop_last()).insert(names.last())
    }
}

/// `names_set` of a push is an insert.
proof fn lemma_names_set_push(names: Seq<Seq<char>>, n: Seq<char>)
    ensures
        names_set(names.push(n)) == names_set(names).insert(n),
{
    assert(names.push(n).drop_last() =~= names);
    assert(names.push(n).last() == n);
}

/// The links a plan's `create` part must establish, as a map: the desired
/// mappings whose name is unblocked and not yet correctly linked.
pub open spec fn needed_links(
    dm: Map<Seq<char>, Seq<char>>,
    links: Map<Seq<char>, Seq<char>>,
    others: Set<Seq<char>>,
) -> Map<Seq<char>, Seq<char>> {
    Map::new(
        |n: Seq<char>|
            dm.dom().contains(n) && !others.contains(n) && (!links.dom().contains(n) || links[n]
                != dm[n]),
        |n: Seq<char>| dm[n],
    )
}

/// The stale link names a plan removes: linked but no longer desired.
pub open spec fn stale_names(
    links: Map<Seq<char>, Seq<char>>,
    dm: Map<Seq<char>, Seq<char>>,
) -> Set<Seq<char>> {
    links.dom().difference(dm.dom())
}

/// The link map of a directory after a plan is performed on it: removed
/// names are gone, created links are present with their desired targets, and
/// every other link is untouched.
pub open spec fn after_plan(
    links: Map<Seq<char>, Seq<char>>,
    created: Map<Seq<char>, Seq<char>>,
    removed: Set<Seq<char>>,
) -> Map<Seq<char>, Seq<char>> {
    Map::new(
        |n: Seq<char>|
            created.dom().contains(n) || (links.dom().contains(n) && !removed.contains(n)),
        |n: Seq<char>|
            if created.dom().contains(n) {
                created[n]
            } else {
                links[n]
            },
    )
}

/// The link map of a directory after one full consolidation pass over it.
pub open spec fn synced_links(
    dm: Map<Seq<char>, Seq<char>>,
    links: Map<Seq<char>, Seq<char>>,
    others: Set<Seq<char>>,
) -> Map<Seq<char>, Seq<char>> {
    after_plan(links, needed_links(dm, links, others), stale_names(links, dm))
}

/// A plan's `create` part denotes exactly the needed links: `create_seq`,
/// read as a map, is `needed_links` of the desired map.
pub proof fn lemma_create_plan_map(
    desired: Seq<LinkView>,
    links: Map<Seq<char>, Seq<char>>,
    others: Set<Seq<char>>,
)
    requires
        unique_link_names(desired),
    ensures
        links_map(create_seq(desired, links, others)) == needed_links(
            links_map(desired),
            links,
            others,
        ),
    decreases desired.len(),
{
    if desired.len() == 0 {
        assert(links_map(create_seq(desired, links, others)) =~= needed_links(
            links_map(desired),
            links,
            others,
        ));
    } else {
        let dl = desired.drop_last();
        let x = desired.last();
        lemma_create_plan_map(dl, links, others);
        lemma_links_map_membership(dl, x.name);
        assert(!has_link_name(dl, x.name)) by {
            if has_link_name(dl, x.name) {
                let i = choose|i: int| 0 <= i < dl.len() && dl[i].name == x.name;
                assert(desired[i].name == desired[desired.len() - 1].name);
            }
        }
        if link_needs_action(x, links, others) {
            lemma_links_map_push(create_seq(dl, links, others), x);
        }
        assert(links_map(create_seq(desired, links, others)) =~= needed_links(
            links_map(desired),
            links,
            others,
        ));
    }
}

/// A plan's `remove` part denotes exactly the stale names: the names of
/// `remove_seq`, read as a set, are the linked-but-undesired names.
pub proof fn lemma_remove_plan_names(entries: Seq<LibEntryView>, dm: Map<Seq<char>, Seq<char>>)
    ensures
        names_set(remove_seq(entries, dm)) == stale_names(dir_links(entries), dm),
    decreases entries.len(),
{
    if entries.len() == 0 {
        assert(names_set(remove_seq(entries, dm)) =~= stale_names(dir_links(entries), dm));
    } else {
        let pre = entries.drop_last();
        let e = entries.last();
        lemma_remove_plan_names(pre, dm);
        if e.is_link && !dm.contains_key(e.name) {
            lemma_names_set_push(remove_seq(pre, dm), e.name);
        }
        assert(names_set(remove_seq(entries, dm)) =~= stale_names(dir_links(entries), dm));
    }
}

/// Idempotent consolidation: after one pass, a second pass over the
/// resulting directory plans no creations and no removals, and leaves the
/// link set exactly as the first pass left it.
pub proof fn lemma_consolidation_idempotent(
    dm: Map<Seq<char>, Seq<char>>,
    links: Map<Seq<char>, Seq<char>>,
    others: Set<Seq<char>>,
)
    ensures
        needed_links(dm, synced_links(dm, links, others), others) == Map::<
            Seq<char>,
            Seq<char>,
        >::empty(),
        stale_names(synced_links(dm, links, others), dm) == Set::<Seq<char>>::empty(),
        synced_links(dm, synced_links(dm, links, others), others) == synced_links(
            dm,
            links,
            others,
        ),
{
    let e2 = synced_links(dm, links, others);
    assert(needed_links(dm, e2, others) =~= Map::<Seq<char>, Seq<char>>::empty());
    assert(stale_names(e2, dm) =~= Set::<Seq<char>>::empty());
    assert(synced_links(dm, e2, others) =~= e2);
}

/// Stale cleanup: a name no desired link carries is absent from the link set
/// a consolidation pass leaves behind.
pub proof fn lemma_stale_cleanup(
    dm: Map<Seq<char>, Seq<char>>,
    links: Map<Seq<char>, Seq<char>>,
    others: Set<Seq<char>>,
    n: Seq<char>,
)
    requires
        !dm.dom().contains(n),
    ensures
        !synced_links(dm, links, others).dom().contains(n),
{
}

/// Whether any skill in `skills` carries the name `n`.
pub open spec fn has_skill_name(skills: Seq<SkillView>, n: Seq<char>) -> bool {
    exists|i: int| 0 <= i < skills.len() && skills[i].name == n
}

/// The index of the first skill named `n`.
pub open spec fn first_skill_index(skills: Seq<SkillView>, n: Seq<char>) -> int
    decreases skills.len(),
{
    if skills.len() == 0 {
        0
    } else if skills[0].name == n {
        0
    } else {
        1 + first_skill_index(skills.drop_first(), n)
    }
}

/// A name is among the chosen links exactly when some skill carries it.
proof fn lemma_chosen_links_membership(skills: Seq<SkillView>, n: Seq<char>)
    ensures
        has_link_name(chosen_links(skills), n) <==> has_skill_name(skills, n),
    decreases skills.len(),
{
    if skills.len() > 0 {
        let dl = skills.drop_last();
        let x = skills.last();
        lemma_chosen_links_membership(dl, n);
        let out = chosen_links(skills);
        let rest = chosen_links(dl);
        if has_skill_name(skills, n) {
            let i = choose|i: int| 0 <= i < skills.len() && skills[i].name == n;
            if i < skills.len() - 1 {
                assert(dl[i].name == n);
                let j = choose|j: int| 0 <= j < rest.len() && rest[j].name == n;
                assert(out[j].name == n);
            } else {
                if has_link_name(rest, x.name) {
                    let j = choose|j: int| 0 <= j < rest.len() && rest[j].name == x.name;
                    assert(out[j].name == n);
                } else {
                    assert(out[out.len() - 1].name == n);
                }
            }
        }
        if has_link_name(out, n) {
            let j = choose|j: int| 0 <= j < out.len() && out[j].name == n;
            if has_link_name(rest, x.name) {
                assert(dl[choose|i: int| 0 <= i < dl.len() && dl[i].name == n].name == n);
            } else {
                if j < out.len() - 1 {
                    assert(rest[j].name == n);
                    let i = choose|i: int| 0 <= i < dl.len() && dl[i].name == n;
                    assert(skills[i].name == n);
                } else {
                    assert(skills[skills.len() - 1].name == n);
                }
            }
        }
    }
}

/// The chosen links carry pairwise distinct names.
pub proof fn lemma_chosen_links_unique(skills: Seq<SkillView>)
    ensures
        unique_link_names(chosen_links(skills)),
    decreases skills.len(),
{
    if skills.len() > 0 {
        let dl = skills.drop_last();
        let x = skills.last();
        lemma_chosen_links_unique(dl);
        let rest = chosen_links(dl);
        if !has_link_name(rest, x.name) {
            let out = rest.push(LinkView { name: x.name, target: x.path });
            assert forall|i: int, j: int| 0 <= i < j < out.len() implies out[i].name
                != out[j].name by {
                if j == out.len() - 1 {
                    assert(!has_link_name(rest, x.name));
                    assert(rest[i].name != x.name);
                }
            }
        }
    }
}

/// Appending a skill does not move the first occurrence of a name that is
/// already present.
proof fn lemma_first_index_extend(skills: Seq<SkillView>, x: SkillView, n: Seq<char>)
    requires
        has_skill_name(skills, n),
    ensures
        first_skill_index(skills.push(x), n) == first_skill_index(skills, n),
        0 <= first_skill_index(skills, n) < skills.len(),
        skills[first_skill_index(skills, n)].name == n,
    decreases skills.len(),
{
    let i = choose|i: int| 0 <= i < skills.len() && skills[i].name == n;
    if skills[0].name == n {
        assert(skills.push(x)[0].name == n);
    } else {
        assert(skills.drop_first()[i - 1].name == n);
        lemma_first_index_extend(skills.drop_first(), x, n);
        assert(skills.push(x).drop_first() =~= skills.drop_first().push(x));
    }
}

/// If a name first appears as the appended skill, its first index is the old
/// length.
proof fn lemma_first_index_new(skills: Seq<SkillView>, x: SkillView)
    requires
        !has_skill_name(skills, x.name),
    ensures
        first_skill_index(skills.push(x), x.name) == skills.len(),
    decreases skills.len(),
{
    if skills.len() == 0 {
        assert(skills.push(x)[0] == x);
    } else {
        assert(skills[0].name != x.name);
        assert(!has_skill_name(skills.drop_first(), x.name)) by {
            if has_skill_name(skills.drop_first(), x.name) {
                let i = choose|i: int|
                    0 <= i < skills.drop_first().len() && skills.drop_first()[i].name == x.name;
                assert(skills[i + 1].name == x.name);
            }
        }
        lemma_first_index_new(skills.drop_first(), x);
        assert(skills.push(x).drop_first() =~= skills.drop_first().push(x));
        assert(skills.push(x)[0].name != x.name);
    }
}

/// Collision determinism: the link chosen for a name points at the path of
/// the *first* skill carrying that name — with skills in discovery order,
/// the earliest-configured source wins, and reversing two colliding sources
/// reverses the winner.
pub proof fn lemma_collision_determinism(skills: Seq<SkillView>, n: Seq<char>)
    requires
        has_skill_name(skills, n),
    ensures
        0 <= first_skill_index(skills, n) < skills.len(),
        skills[first_skill_index(skills, n)].name == n,
        links_map(chosen_links(skills)).dom().contains(n),
        links_map(chosen_links(skills))[n] == skills[first_skill_index(skills, n)].path,
    decreases skills.len(),
{
    let dl = skills.drop_last();
    let x = skills.last();
    let rest = chosen_links(dl);
    lemma_chosen_links_membership(dl, n);
    lemma_chosen_links_membership(dl, x.name);
    lemma_links_map_membership(chosen_links(skills), n);
    assert(skills =~= dl.push(x));
    if has_skill_name(dl, n) {
        lemma_collision_determinism(dl, n);
        lemma_first_index_extend(dl, x, n);
        if !has_link_name(rest, x.name) {
            assert(x.name != n);
            lemma_links_map_push(rest, LinkView { name: x.name, target: x.path });
        }
    } else {
        assert(x.name == n) by {
            let i = choose|i: int| 0 <= i < skills.len() && skills[i].name == n;
            if i < skills.len() - 1 {
                assert(dl[i].name == n);
            }
        }
        assert(!has_link_name(rest, n));
        lemma_first_index_new(dl, x);
        lemma_links_map_push(rest, LinkView { name: x.name, target: x.path });
    }
}

/// The index of the directory entry named `name`, if any.
fn find_entry(existing: &Vec<LibEntry>, name: &String) -> (r: Option<usize>)
    ensures
        r matches Some(i) ==> i < existing.len() && existing.deep_view()[i as int].name == name@,
        r is None ==> forall|j: int|
            0 <= j < existing.deep_view().len() ==> existing.deep_view()[j].name != name@,
{
    let n = existing.len();
    let mut i: usize = 0;
    while i < n
        invariant
            n == existing.len(),
            0 <= i <= n,
            forall|j: int| 0 <= j < i ==> existing.deep_view()[j].name != name@,
        decreases n - i,
    {
        if existing[i].name == *name {
            proof {
                assert(existing.deep_view()[i as int].name == name@);
            }
            return Some(i);
        }
        i += 1;
    }
    None
}

/// The actions that make a link directory match the desired link set:
/// `create` holds the links to create or repoint, `remove` the stale link
/// names to delete, and `conflicts` the desired names blocked by a non-link
/// entry (left untouched, reported).
pub struct ReconcilePlan {
    pub create: Vec<Link>,
    pub remove: Vec<String>,
    pub conflicts: Vec<String>,
}

/// Plans the reconciliation of a link directory against the desired links:
/// a missing or wrongly-pointed link is (re)created, a link whose name no
/// desired link carries is removed, a correct link is left untouched, and a
/// non-link entry in the way of a desired name is reported as a conflict,
/// never overwritten.
///
/// Both inputs carry pairwise distinct names: a directory listing does by
/// nature, and [`desired_links`] builds nothing else.
pub fn reconcile(desired: &Vec<Link>, existing: &Vec<LibEntry>) -> (plan: ReconcilePlan)
    requires
        unique_link_names(desired.deep_view()),
        unique_entry_names(existing.deep_view()),
    ensures
        plan.create.deep_view() == create_seq(
            desired.deep_view(),
            dir_links(existing.deep_view()),
            dir_other_names(existing.deep_view()),
        ),
        plan.conflicts.deep_view() == conflict_seq(
            desired.deep_view(),
            dir_other_names(existing.deep_view()),
        ),
        plan.remove.deep_view() == remove_seq(existing.deep_view(), links_map(desired.deep_view())),
{
    let ghost links = dir_links(existing.deep_view());
    let ghost others = dir_other_names(existing.deep_view());
    let mut create: Vec<Link> = Vec::new();
    let mut conflicts: Vec<String> = Vec::new();
    let n = desired.len();
    let mut i: usize = 0;
    while i < n
        invariant
            n == desired.len(),
            0 <= i <= n,
            unique_entry_names(existing.deep_view()),
            links == dir_links(existing.deep_view()),
            others == dir_other_names(existing.deep_view()),
            create.deep_view() == create_seq(desired.deep_view().take(i as int), links, others),
            conflicts.deep_view() == conflict_seq(desired.deep_view().take(i as int), others),
        decreases n - i,
    {
        let ghost taken = desired.deep_view().take(i + 1);
        proof {
            assert(taken.drop_last() =~= desired.deep_view().take(i as int));
            assert(taken.last() == desired.deep_view()[i as int]);
        }
        let d = &desired[i];
        let ghost dv = desired.deep_view()[i as int];
        proof {
            lemma_dir_membership(existing.deep_view(), dv.name);
        }
        match find_entry(existing, &d.name) {
            None => {
                proof {
                    assert(!links.contains_key(dv.name));
                    assert(!others.contains(dv.name));
                    assert(link_needs_action(dv, links, others));
                }
                create.push(Link { name: d.name.clone(), target: d.target.clone() });
                proof {
                    assert(create.deep_view() =~= create_seq(taken, links, others));
                    assert(conflicts.deep_view() =~= conflict_seq(taken, others));
                }
            },
            Some(j) => {
                if existing[j].is_link {
                    proof {
                        lemma_dir_links_value(existing.deep_view(), j as int);
                        assert(links[dv.name] == existing.deep_view()[j as int].target);
                        if others.contains(dv.name) {
                            let k = choose|k: int|
                                0 <= k < existing.deep_view().len()
                                    && !existing.deep_view()[k].is_link
                                    && existing.deep_view()[k].name == dv.name;
                            assert(existing.deep_view()[k].name == existing.deep_view()[j as int].name);
                            assert(false);
                        }
                    }
                    if existing[j].target == d.target {
                        proof {
                            assert(!link_needs_action(dv, links, others));
                            assert(create.deep_view() =~= create_seq(taken, links, others));
                            assert(conflicts.deep_view() =~= conflict_seq(taken, others));
                        }
                    } else {
                        create.push(Link { name: d.name.clone(), target: d.target.clone() });
                        proof {
                            assert(link_needs_action(dv, links, others));
                            assert(create.deep_view() =~= create_seq(taken, links, others));
                            assert(conflicts.deep_view() =~= conflict_seq(taken, others));
                        }
                    }
                } else {
                    conflicts.push(d.name.clone());
                    proof {
                        assert(others.contains(dv.name));
                        assert(!link_needs_action(dv, links, others));
                        assert(create.deep_view() =~= create_seq(taken, links, others));
                        assert(conflicts.deep_view() =~= conflict_seq(taken, others));
                    }
                }
            },
        }
        i += 1;
    }
    proof {
        assert(desired.deep_view().take(n as int) =~= desired.deep_view());
    }
    let ghost desired_map = links_map(desired.deep_view());
    let mut remove: Vec<String> = Vec::new();
    let m = existing.len();
    let mut k: usize = 0;
    while k < m
        invariant
            m == existing.len(),
            0 <= k <= m,
            desired_map == links_map(desired.deep_view()),
            remove.deep_view() == remove_seq(existing.deep_view().take(k as int), desired_map),
        decreases m - k,
    {
        let ghost taken = existing.deep_view().take(k + 1);
        proof {
            assert(taken.drop_last() =~= existing.deep_view().take(k as int));
            assert(taken.last() == existing.deep_view()[k as int]);
        }
        let e = &existing[k];
        if e.is_link {
            proof {
                lemma_links_map_membership(desired.deep_view(), e.name@);
            }
            if !contains_link_name(desired, &e.name) {
                remove.push(e.name.clone());
                proof {
                    assert(remove.deep_view() =~= remove_seq(taken, desired_map));
                }
            } else {
                proof {
                    assert(remove.deep_view() =~= remove_seq(taken, desired_map));
                }
            }
        } else {
            proof {
                assert(remove.deep_view() =~= remove_seq(taken, desired_map));
            }
        }
        k += 1;
    }
    proof {
        assert(existing.deep_view().take(m as int) =~= existing.deep_view());
    }
    ReconcilePlan { create, remove, conflicts }
}

/// Folds discovered skills, in order, into the desired link set: one link
/// per name, the first occurrence of each name winning.
pub fn desired_links(skills: &Vec<Skill>) -> (links: Vec<Link>)
    ensures
        links.deep_view() == chosen_links(skills.deep_view()),
        unique_link_names(links.deep_view()),
{
    let mut links: Vec<Link> = Vec::new();
    let n = skills.len();
    let mut i: usize = 0;
    while i < n
        invariant
            n == skills.len(),
            0 <= i <= n,
            links.deep_view() == chosen_links(skills.deep_view().take(i as int)),
            unique_link_names(links.deep_view()),
        decreases n - i,
    {
        let ghost taken = skills.deep_view().take(i + 1);
        proof {
            assert(taken.drop_last() =~= skills.deep_view().take(i as int));
            assert(taken.last() == skills.deep_view()[i as int]);
        }
        let s = &skills[i];
        if !contains_link_name(&links, &s.name) {
            let l = Link { name: s.name.clone(), target: s.path.clone() };
            links.push(l);
            proof {
                assert(links.deep_view() =~= chosen_links(taken));
            }
        } else {
            proof {
                assert(links.deep_view() =~= chosen_links(taken));
            }
        }
        i += 1;
    }
    proof {
        assert(skills.deep_view().take(n as int) =~= skills.deep_view());
    }
    links
}

} // verus!
