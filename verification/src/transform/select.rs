//! Selecting identifiers by pattern, and sorting them into groups by what a
//! template expands to.
use vstd::prelude::*;
use crate::idset::IdSet;
use crate::pattern::{expand_captures, is_match, pattern_expansion, pattern_matches, Pattern};
use crate::seqs::{lemma_last_contains, lemma_push_contains, lemma_push_no_duplicates};

verus! {

/// The texts of a list of identifiers.
pub open spec fn texts(ids: Seq<String>) -> Seq<Seq<char>> {
    ids.map_values(|s: String| s@)
}

/// The identifiers of `ids` that `pattern` matches, each once, in the order
/// of their first appearance.
pub open spec fn matching(ids: Seq<Seq<char>>, pattern: Seq<char>) -> Seq<Seq<char>>
    decreases ids.len(),
{
    if ids.len() == 0 {
        Seq::empty()
    } else {
        let rest = matching(ids.drop_last(), pattern);
        if pattern_matches(pattern, ids.last()) && !rest.contains(ids.last()) {
            rest.push(ids.last())
        } else {
            rest
        }
    }
}

/// `matching` lists nothing twice, and lists exactly the identifiers of
/// `ids` that the pattern matches.
pub proof fn lemma_matching(ids: Seq<Seq<char>>, pattern: Seq<char>)
    ensures
        matching(ids, pattern).no_duplicates(),
        forall|s: Seq<char>|
            matching(ids, pattern).contains(s) <==> ids.contains(s) && pattern_matches(pattern, s),
    decreases ids.len(),
{
    if ids.len() > 0 {
        let rest = matching(ids.drop_last(), pattern);
        lemma_matching(ids.drop_last(), pattern);
        lemma_last_contains(ids);
        if pattern_matches(pattern, ids.last()) && !rest.contains(ids.last()) {
            lemma_push_contains(rest, ids.last());
            lemma_push_no_duplicates(rest, ids.last());
        }
    }
}

/// The identifiers of `ids` that the pattern matches, as a set.
pub fn match_all(ids: &Vec<String>, re: &Pattern) -> (found: IdSet)
    ensures
        found.wf(),
        found.seq() == matching(texts(ids@), re@),
        forall|s: Seq<char>|
            found@.contains(s) <==> texts(ids@).contains(s) && pattern_matches(re@, s),
{
    let mut found = IdSet::new();
    let mut i: usize = 0;
    while i < ids.len()
        invariant
            i <= ids.len(),
            found.wf(),
            found.seq() == matching(texts(ids@).take(i as int), re@),
        decreases ids.len() - i,
    {
        proof {
            assert(texts(ids@).take(i + 1).drop_last() =~= texts(ids@).take(i as int));
        }
        if is_match(re, ids[i].as_str()) {
            found.insert(ids[i].clone());
        }
        i += 1;
    }
    proof {
        assert(texts(ids@).take(i as int) =~= texts(ids@));
        lemma_matching(texts(ids@), re@);
    }
    found
}

/// Where the pattern matches `s`, `template` with the captured groups put
/// in; nothing where it does not match.
pub fn match_expand(s: &str, re: &Pattern, template: &str) -> (r: Option<String>)
    ensures
        r is Some <==> pattern_matches(re@, s@),
        r matches Some(text) ==> text@ == pattern_expansion(re@, s@, template@),
{
    expand_captures(re, s, template)
}

/// The identifiers that share one expansion.
pub struct Group {
    pub key: String,
    pub members: IdSet,
}

pub struct GroupView {
    pub key: Seq<char>,
    pub members: Seq<Seq<char>>,
}

impl View for Group {
    type V = GroupView;

    open spec fn view(&self) -> GroupView {
        GroupView { key: self.key@, members: self.members.seq() }
    }
}

/// The views of a list of groups.
pub open spec fn group_views(groups: Seq<Group>) -> Seq<GroupView> {
    groups.map_values(|g: Group| g@)
}

/// The first group from position `from` on whose key is `key`.
pub open spec fn group_of(groups: Seq<GroupView>, key: Seq<char>, from: int) -> Option<int>
    decreases groups.len() - from,
{
    if from < 0 || from >= groups.len() {
        None
    } else if groups[from].key == key {
        Some(from)
    } else {
        group_of(groups, key, from + 1)
    }
}

/// `groups` with `id` added to the group of `key`: to the first group with
/// that key, unless that group has it; else to a new group at the end.
pub open spec fn add_member(groups: Seq<GroupView>, key: Seq<char>, id: Seq<char>) -> Seq<
    GroupView,
> {
    match group_of(groups, key, 0) {
        Some(g) => if groups[g].members.contains(id) {
            groups
        } else {
            groups.update(g, GroupView { key, members: groups[g].members.push(id) })
        },
        None => groups.push(GroupView { key, members: seq![id] }),
    }
}

/// The identifiers of `ids` that `pattern` matches, sorted into groups by
/// what `template` expands to for each. Groups and members stand in the
/// order of their first appearance.
pub open spec fn grouped(ids: Seq<Seq<char>>, pattern: Seq<char>, template: Seq<char>) -> Seq<
    GroupView,
>
    decreases ids.len(),
{
    if ids.len() == 0 {
        Seq::empty()
    } else {
        let rest = grouped(ids.drop_last(), pattern, template);
        if pattern_matches(pattern, ids.last()) {
            add_member(rest, pattern_expansion(pattern, ids.last(), template), ids.last())
        } else {
            rest
        }
    }
}

/// `groups` sorts the matching identifiers of `ids` by expansion: no two
/// groups share a key, no group is empty or lists an identifier twice, a
/// group holds exactly the matching identifiers that expand to its key, and
/// every matching identifier has its group.
pub open spec fn sorts_by_expansion(
    groups: Seq<GroupView>,
    ids: Seq<Seq<char>>,
    pattern: Seq<char>,
    template: Seq<char>,
) -> bool {
    &&& forall|g: int, h: int|
        0 <= g < groups.len() && 0 <= h < groups.len() && g != h ==> groups[g].key
            != groups[h].key
    &&& forall|g: int|
        0 <= g < groups.len() ==> (#[trigger] groups[g]).members.len() > 0
            && groups[g].members.no_duplicates()
    &&& forall|g: int, s: Seq<char>|
        0 <= g < groups.len() ==> (#[trigger] groups[g].members.contains(s) <==> ids.contains(s)
            && pattern_matches(pattern, s) && pattern_expansion(pattern, s, template)
            == groups[g].key)
    &&& forall|s: Seq<char>|
        ids.contains(s) && pattern_matches(pattern, s) ==> exists|g: int|
            0 <= g < groups.len() && (#[trigger] groups[g]).key == pattern_expansion(
                pattern,
                s,
                template,
            )
}

/// What `group_of` finds is the first group from `from` on with the key,
/// and it finds none only where no group from `from` on has the key.
pub proof fn lemma_group_of(groups: Seq<GroupView>, key: Seq<char>, from: int)
    requires
        0 <= from <= groups.len(),
    ensures
        match group_of(groups, key, from) {
            Some(g) => from <= g < groups.len() && groups[g].key == key && forall|h: int|
                from <= h < g ==> groups[h].key != key,
            None => forall|h: int| from <= h < groups.len() ==> groups[h].key != key,
        },
    decreases groups.len() - from,
{
    if from < groups.len() && groups[from].key != key {
        lemma_group_of(groups, key, from + 1);
    }
}

/// The position of the first group with the key `key`, if there is one.
fn find_group(groups: &Vec<Group>, key: &String) -> (r: Option<usize>)
    ensures
        r matches Some(g) ==> g < groups.len() && group_of(group_views(groups@), key@, 0) == Some(
            g as int,
        ),
        r is None ==> group_of(group_views(groups@), key@, 0) is None,
{
    let mut g: usize = 0;
    while g < groups.len()
        invariant
            g <= groups.len(),
            group_of(group_views(groups@), key@, 0) == group_of(
                group_views(groups@),
                key@,
                g as int,
            ),
        decreases groups.len() - g,
    {
        assert(group_views(groups@)[g as int].key == groups@[g as int].key@);
        if groups[g].key == *key {
            return Some(g);
        }
        g += 1;
    }
    None
}

/// Sorts the identifiers that the pattern matches into groups, by what
/// `template` expands to for each. Identifiers that the pattern does not
/// match are in no group.
pub fn match_groups(ids: &Vec<String>, re: &Pattern, template: &str) -> (groups: Vec<Group>)
    ensures
        group_views(groups@) == grouped(texts(ids@), re@, template@),
        forall|g: int| 0 <= g < groups.len() ==> (#[trigger] groups[g]).members.wf(),
        sorts_by_expansion(group_views(groups@), texts(ids@), re@, template@),
{
    let mut groups: Vec<Group> = Vec::new();
    let mut i: usize = 0;
    assert(group_views(groups@) =~= Seq::<GroupView>::empty());
    while i < ids.len()
        invariant
            i <= ids.len(),
            group_views(groups@) == grouped(texts(ids@).take(i as int), re@, template@),
            forall|g: int| 0 <= g < groups.len() ==> (#[trigger] groups[g]).members.wf(),
        decreases ids.len() - i,
    {
        proof {
            assert(texts(ids@).take(i + 1).drop_last() =~= texts(ids@).take(i as int));
        }
        let ghost before = groups@;
        match expand_captures(re, ids[i].as_str(), template) {
            Some(key) => {
                proof {
                    lemma_group_of(group_views(before), key@, 0);
                }
                match find_group(&groups, &key) {
                    Some(g) => {
                        groups[g].members.insert(ids[i].clone());
                        assert(forall|h: int|
                            0 <= h < groups.len() && h != g ==> groups@[h] == before[h]);
                        assert(groups@[g as int].key == before[g as int].key);
                        assert(group_views(groups@) =~= add_member(
                            group_views(before),
                            key@,
                            ids@[i as int]@,
                        ));
                    },
                    None => {
                        let mut members = IdSet::new();
                        members.insert(ids[i].clone());
                        groups.push(Group { key, members });
                        assert(group_views(groups@) =~= add_member(
                            group_views(before),
                            key@,
                            ids@[i as int]@,
                        ));
                    },
                }
            },
            None => {},
        }
        i += 1;
    }
    proof {
        assert(texts(ids@).take(i as int) =~= texts(ids@));
        lemma_grouped(texts(ids@), re@, template@);
    }
    groups
}

/// `grouped` sorts the matching identifiers by expansion.
pub proof fn lemma_grouped(ids: Seq<Seq<char>>, pattern: Seq<char>, template: Seq<char>)
    ensures
        sorts_by_expansion(grouped(ids, pattern, template), ids, pattern, template),
    decreases ids.len(),
{
    if ids.len() > 0 {
        let most = ids.drop_last();
        let last = ids.last();
        let rest = grouped(most, pattern, template);
        let now = grouped(ids, pattern, template);
        lemma_grouped(most, pattern, template);
        lemma_last_contains(ids);
        if pattern_matches(pattern, last) {
            let key = pattern_expansion(pattern, last, template);
            lemma_group_of(rest, key, 0);
            match group_of(rest, key, 0) {
                Some(g) => {
                    if rest[g].members.contains(last) {
                        assert(now == rest);
                        assert(most.contains(last));
                    } else {
                        let grown = GroupView { key, members: rest[g].members.push(last) };
                        assert(now == rest.update(g, grown));
                        lemma_push_contains(rest[g].members, last);
                        lemma_push_no_duplicates(rest[g].members, last);
                        assert forall|h: int| 0 <= h < now.len() implies (#[trigger] now[h]).key
                            == rest[h].key by {}
                        assert forall|h: int| 0 <= h < now.len() implies (#[trigger] now[h]).members.len()
                            > 0 && now[h].members.no_duplicates() by {
                            assert(rest[h].members.len() > 0);
                        }
                        assert forall|h: int, s: Seq<char>| 0 <= h < now.len() implies (
                        #[trigger] now[h].members.contains(s) <==> ids.contains(s)
                            && pattern_matches(pattern, s) && pattern_expansion(pattern, s, template)
                            == now[h].key) by {
                            assert(rest[h].members.contains(s) <==> most.contains(s)
                                && pattern_matches(pattern, s) && pattern_expansion(
                                pattern,
                                s,
                                template,
                            ) == rest[h].key);
                        }
                        assert forall|s: Seq<char>|
                            ids.contains(s) && pattern_matches(pattern, s) implies exists|h: int|
                            0 <= h < now.len() && (#[trigger] now[h]).key == pattern_expansion(
                                pattern,
                                s,
                                template,
                            ) by {
                            if s == last {
                                assert(now[g].key == key);
                            } else {
                                let h = choose|h: int|
                                    0 <= h < rest.len() && (#[trigger] rest[h]).key
                                        == pattern_expansion(pattern, s, template);
                                assert(now[h].key == rest[h].key);
                            }
                        }
                    }
                },
                None => {
                    let fresh = GroupView { key, members: seq![last] };
                    assert(now == rest.push(fresh));
                    assert(fresh.members.len() == 1);
                    assert(fresh.members.no_duplicates());
                    assert forall|s: Seq<char>| fresh.members.contains(s) <==> s == last by {
                        if s == last {
                            assert(fresh.members[0] == s);
                        }
                    }
                    assert forall|h: int| 0 <= h < now.len() implies (#[trigger] now[h]).members.len()
                        > 0 && now[h].members.no_duplicates() by {
                        if h < rest.len() {
                            assert(rest[h].members.len() > 0);
                        }
                    }
                    assert forall|h: int, s: Seq<char>| 0 <= h < now.len() implies (
                    #[trigger] now[h].members.contains(s) <==> ids.contains(s) && pattern_matches(
                        pattern,
                        s,
                    ) && pattern_expansion(pattern, s, template) == now[h].key) by {
                        if h < rest.len() {
                            assert(rest[h].members.contains(s) <==> most.contains(s)
                                && pattern_matches(pattern, s) && pattern_expansion(
                                pattern,
                                s,
                                template,
                            ) == rest[h].key);
                        } else {
                            if most.contains(s) && pattern_matches(pattern, s) && pattern_expansion(
                                pattern,
                                s,
                                template,
                            ) == key {
                                let w = choose|w: int|
                                    0 <= w < rest.len() && (#[trigger] rest[w]).key
                                        == pattern_expansion(pattern, s, template);
                                assert(false);
                            }
                        }
                    }
                    assert forall|s: Seq<char>|
                        ids.contains(s) && pattern_matches(pattern, s) implies exists|h: int|
                        0 <= h < now.len() && (#[trigger] now[h]).key == pattern_expansion(
                            pattern,
                            s,
                            template,
                        ) by {
                        if s == last {
                            assert(now[rest.len() as int].key == key);
                        } else {
                            let h = choose|h: int|
                                0 <= h < rest.len() && (#[trigger] rest[h]).key
                                    == pattern_expansion(pattern, s, template);
                            assert(now[h].key == rest[h].key);
                        }
                    }
                },
            }
        } else {
            assert(now == rest);
        }
    }
}

} // verus!
