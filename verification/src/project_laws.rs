//! What holds of every registry.

use vstd::prelude::*;

use crate::model::{first_label, HealthModel, Project, ProjectModel};
use crate::paths::{
    all_plain, is_plain_name, lemma_names_of_rooted, normal_texts, parts_of_path, rooted,
    rooted_parts, PartModel,
};
use crate::project::{
    accepted, can_grow, collides, error_text, first_depths, first_of_each, grown, health_from,
    is_new, is_settled, label_at, labelled, lemma_growing_takes_room, lemma_position_of,
    lemma_without, loads, position_of, project_views, registered, removed, restores, room, settled,
    taken_of, without, ErrorModel, Facts, Found, Stored, StoredFolder,
};
use crate::text::{cut_at_last, joined, last_position, lemma_cut_at_last, lemma_last_position};

verus! {

/// Whether no two projects share an id.
pub open spec fn ids_are_unique(projects: Seq<ProjectModel>) -> bool {
    forall|i: int, j: int|
        0 <= i < j < projects.len() ==> (#[trigger] projects[i]).id != (#[trigger] projects[j]).id
}

/// Labelling changes nothing but labels.
pub proof fn labelling_keeps_the_projects(projects: Seq<ProjectModel>)
    ensures
        labelled(projects).len() == projects.len(),
        forall|i: int|
            0 <= i < projects.len() ==> #[trigger] labelled(projects)[i] == (ProjectModel {
                label: labelled(projects)[i].label,
                ..projects[i]
            }),
{
}

/// Registering keeps ids unique.
pub proof fn registering_keeps_ids_unique(projects: Seq<ProjectModel>, candidate: ProjectModel)
    requires
        ids_are_unique(projects),
    ensures
        ids_are_unique(registered(projects, candidate)),
{
    lemma_position_of(projects, candidate.id);
    let at = position_of(projects, candidate.id) as int;
    let after = registered(projects, candidate);
    if at == projects.len() {
        labelling_keeps_the_projects(projects.push(candidate));
    }
    assert forall|i: int, j: int| 0 <= i < j < after.len() implies (#[trigger] after[i]).id != (
    #[trigger] after[j]).id by {
        if j < projects.len() {
            assert(projects[i].id != projects[j].id);
        } else {
            assert(projects[i].id != candidate.id);
        }
    }
}

/// Removing keeps ids unique, and leaves no project with the id that was
/// removed.
pub proof fn removing_keeps_ids_unique(projects: Seq<ProjectModel>, id: Seq<char>)
    requires
        ids_are_unique(projects),
    ensures
        ids_are_unique(removed(projects, id)),
        forall|i: int| 0 <= i < removed(projects, id).len() ==> (#[trigger] removed(
            projects,
            id,
        )[i]).id != id,
{
    lemma_without(projects, id);
    lemma_without_keeps_unique(projects, id);
    labelling_keeps_the_projects(without(projects, id));
    let after = removed(projects, id);
    let kept = without(projects, id);
    assert forall|i: int| 0 <= i < after.len() implies (#[trigger] after[i]).id != id by {
        assert(kept[i].id != id);
    }
    assert forall|i: int, j: int| 0 <= i < j < after.len() implies (#[trigger] after[i]).id != (
    #[trigger] after[j]).id by {
        assert(kept[i].id != kept[j].id);
    }
}

proof fn lemma_without_keeps_unique(projects: Seq<ProjectModel>, id: Seq<char>)
    requires
        ids_are_unique(projects),
    ensures
        ids_are_unique(without(projects, id)),
    decreases projects.len(),
{
    if projects.len() > 0 {
        let front = projects.drop_last();
        assert forall|i: int, j: int| 0 <= i < j < front.len() implies (
        #[trigger] front[i]).id != (#[trigger] front[j]).id by {
            assert(projects[i].id != projects[j].id);
        }
        lemma_without_keeps_unique(front, id);
        lemma_without(front, id);
        let kept = without(projects, id);
        let before = without(front, id);
        assert forall|i: int, j: int| 0 <= i < j < kept.len() implies (#[trigger] kept[i]).id != (
        #[trigger] kept[j]).id by {
            if j < before.len() {
                assert(before[i].id != before[j].id);
            } else {
                assert(front.contains(before[i]));
                let k = choose|k: int| 0 <= k < front.len() && front[k] == before[i];
                assert(projects[k].id != projects[projects.len() - 1].id);
            }
        }
    }
}

/// Loading keeps the first of several stored folders that are the same project.
pub proof fn loading_keeps_ids_unique(projects: Seq<ProjectModel>)
    ensures
        ids_are_unique(labelled(first_of_each(projects))),
        forall|i: int|
            0 <= i < projects.len() ==> position_of(
                first_of_each(projects),
                (#[trigger] projects[i]).id,
            ) < first_of_each(projects).len(),
{
    lemma_first_of_each(projects);
    let kept = first_of_each(projects);
    labelling_keeps_the_projects(kept);
    let after = labelled(kept);
    assert forall|i: int, j: int| 0 <= i < j < after.len() implies (#[trigger] after[i]).id != (
    #[trigger] after[j]).id by {
        assert(kept[i].id != kept[j].id);
    }
}

proof fn lemma_first_of_each(projects: Seq<ProjectModel>)
    ensures
        ids_are_unique(first_of_each(projects)),
        forall|i: int|
            0 <= i < projects.len() ==> position_of(
                first_of_each(projects),
                (#[trigger] projects[i]).id,
            ) < first_of_each(projects).len(),
    decreases projects.len(),
{
    if projects.len() > 0 {
        let front = projects.drop_last();
        let last = projects.last();
        lemma_first_of_each(front);
        let earlier = first_of_each(front);
        let kept = first_of_each(projects);
        lemma_position_of(earlier, last.id);
        assert forall|i: int, j: int| 0 <= i < j < kept.len() implies (#[trigger] kept[i]).id != (
        #[trigger] kept[j]).id by {
            if j < earlier.len() {
                assert(earlier[i].id != earlier[j].id);
            } else {
                assert(earlier[i].id != last.id);
            }
        }
        assert forall|i: int| 0 <= i < projects.len() implies position_of(
            kept,
            (#[trigger] projects[i]).id,
        ) < kept.len() by {
            let id = projects[i].id;
            lemma_position_of(kept, id);
            if i < front.len() {
                assert(front[i] == projects[i]);
                lemma_position_of(earlier, id);
                let at = position_of(earlier, id) as int;
                assert(kept[at].id == id);
            } else if position_of(earlier, last.id) == earlier.len() {
                assert(kept[kept.len() - 1].id == id);
            }
        }
    }
}

/// Registering a folder again adds nothing: the registry has the same projects
/// under the same labels, and only the health of that one is refreshed.
pub proof fn registering_again_adds_nothing(
    projects: Seq<ProjectModel>,
    candidate: ProjectModel,
    again: ProjectModel,
)
    requires
        candidate.id == again.id,
    ensures
        ({
            let once = registered(projects, candidate);
            let twice = registered(once, again);
            let at = position_of(once, candidate.id) as int;
            &&& at < once.len()
            &&& twice == once.update(at, ProjectModel { health: again.health, ..once[at] })
        }),
{
    let once = registered(projects, candidate);
    lemma_position_of(projects, candidate.id);
    lemma_position_of(once, candidate.id);
    labelling_keeps_the_projects(projects.push(candidate));
    let at = position_of(projects, candidate.id) as int;
    if at < projects.len() {
        assert(once[at].id == candidate.id);
    } else {
        assert(labelled(projects.push(candidate))[at].id == candidate.id);
    }
}

/// Removing an id that is not registered changes nothing.
pub proof fn removing_an_unknown_id_changes_nothing(projects: Seq<ProjectModel>, id: Seq<char>)
    requires
        forall|i: int| 0 <= i < projects.len() ==> (#[trigger] projects[i]).id != id,
    ensures
        removed(projects, id) == projects,
{
    lemma_without(projects, id);
    lemma_position_of(projects, id);
}

/// Once labels are settled none can grow, each takes at least one segment, and
/// there is one for each project.
proof fn lemma_settled(projects: Seq<ProjectModel>, depths: Seq<nat>)
    requires
        depths.len() == projects.len(),
        forall|i: int| 0 <= i < depths.len() ==> #[trigger] depths[i] >= 1,
    ensures
        settled(projects, depths).len() == projects.len(),
        is_settled(projects, settled(projects, depths)),
        forall|i: int| 0 <= i < projects.len() ==> #[trigger] settled(projects, depths)[i] >= 1,
    decreases room(projects, depths),
{
    if !is_settled(projects, depths) {
        let i = choose|i: int| 0 <= i < projects.len() && #[trigger] can_grow(projects, depths, i);
        lemma_growing_takes_room(projects, depths, grown(projects, depths), i);
        lemma_settled(projects, grown(projects, depths));
    }
}

/// The whole path of a project, as a label.
pub open spec fn full_label(project: ProjectModel) -> Seq<char> {
    label_at(project, project.segments.len())
}

/// Two projects share a label only where their whole paths do not differ as
/// labels: growing has used up every segment of both.
pub proof fn shared_labels_are_whole_paths(projects: Seq<ProjectModel>, i: int, j: int)
    requires
        0 <= i < projects.len(),
        0 <= j < projects.len(),
        i != j,
        labelled(projects)[i].label == labelled(projects)[j].label,
    ensures
        labelled(projects)[i].label == full_label(projects[i]),
        labelled(projects)[j].label == full_label(projects[j]),
{
    let first = first_depths(projects.len());
    let depths = settled(projects, first);
    lemma_settled(projects, first);
    assert(collides(projects, depths, i)) by {
        assert(label_at(projects[j], depths[j]) == label_at(projects[i], depths[i]));
    }
    assert(collides(projects, depths, j)) by {
        assert(label_at(projects[i], depths[i]) == label_at(projects[j], depths[j]));
    }
    assert(!can_grow(projects, depths, i));
    assert(!can_grow(projects, depths, j));
}

/// Whether a project is at the absolute path through these plain names.
pub open spec fn is_at(project: ProjectModel, names: Seq<Seq<char>>) -> bool {
    &&& all_plain(names)
    &&& project.segments == names
    &&& project.path == rooted(names)
    &&& project.id == project.path
}

/// A project made of an absolute path through plain names is at that path, and
/// is called by the last name until labels are compared.
pub proof fn a_new_project_is_at_its_path(
    names: Seq<Seq<char>>,
    health: HealthModel,
    project: ProjectModel,
)
    requires
        all_plain(names),
        is_new(rooted(names), health, project),
    ensures
        is_at(project, names),
        names.len() > 0 ==> project.label == names.last(),
        names.len() == 0 ==> project.label == rooted(names),
{
    let path = rooted(names);
    let parts = choose|parts: Seq<PartModel>|
        #![trigger first_label(path, parts)]
        {
            &&& parts_of_path(path, parts)
            &&& project.label == first_label(path, parts)
            &&& project.segments == normal_texts(parts)
        };
    assert(parts == rooted_parts(names));
    lemma_names_of_rooted(names);
    if names.len() > 0 {
        assert(parts.last() == PartModel::Normal(names.last()));
    } else {
        assert(parts =~= seq![PartModel::RootDir]);
    }
}

/// A segment of a path: not empty, and without a slash.
pub open spec fn is_segment(name: Seq<char>) -> bool {
    name.len() > 0 && !name.contains('/')
}

/// Whether all of these are segments.
pub open spec fn all_segments(names: Seq<Seq<char>>) -> bool {
    forall|i: int| 0 <= i < names.len() ==> is_segment(#[trigger] names[i])
}

/// Whether a project is named by its segments, or, where it has none, has a path
/// that begins with a slash.
pub open spec fn is_named(project: ProjectModel) -> bool {
    &&& all_segments(project.segments)
    &&& project.segments.len() == 0 ==> project.path.len() > 0 && project.path[0] == '/'
}

/// Whether all of these projects are.
pub open spec fn all_named(projects: Seq<ProjectModel>) -> bool {
    forall|i: int| 0 <= i < projects.len() ==> is_named(#[trigger] projects[i])
}

/// The segments of each of these projects.
pub open spec fn segments_of(projects: Seq<ProjectModel>) -> Seq<Seq<Seq<char>>> {
    projects.map_values(|project: ProjectModel| project.segments)
}

/// A project at an absolute path through plain names is named by its segments.
pub proof fn a_project_at_a_plain_path_is_named(project: ProjectModel, names: Seq<Seq<char>>)
    requires
        is_at(project, names),
    ensures
        is_named(project),
{
    assert forall|i: int| 0 <= i < names.len() implies is_segment(#[trigger] names[i]) by {
        assert(is_plain_name(names[i]));
    }
}

/// Whether a project that is named has these segments.
spec fn goes_through(project: ProjectModel, names: Seq<Seq<char>>) -> bool {
    is_named(project) && project.segments == names
}

proof fn lemma_through_segments(projects: Seq<ProjectModel>)
    requires
        all_named(projects),
    ensures
        segments_of(projects).len() == projects.len(),
        forall|k: int|
            0 <= k < projects.len() ==> goes_through(
                #[trigger] projects[k],
                segments_of(projects)[k],
            ),
{
}

/// Joined names that hold no slash can be told apart.
proof fn lemma_joined_names_differ(a: Seq<Seq<char>>, b: Seq<Seq<char>>)
    requires
        a.len() > 0,
        b.len() > 0,
        all_segments(a),
        all_segments(b),
        joined(a, seq!['/']) == joined(b, seq!['/']),
    ensures
        a == b,
    decreases a.len(),
{
    let text = joined(a, seq!['/']);
    lemma_cut_of_joined(a);
    lemma_cut_of_joined(b);
    if a.len() == 1 || b.len() == 1 {
        assert(a =~= b);
    } else {
        assert forall|i: int| 0 <= i < a.drop_last().len() implies is_segment(
            #[trigger] a.drop_last()[i],
        ) by {
            assert(is_segment(a[i]));
        }
        assert forall|i: int| 0 <= i < b.drop_last().len() implies is_segment(
            #[trigger] b.drop_last()[i],
        ) by {
            assert(is_segment(b[i]));
        }
        lemma_joined_names_differ(a.drop_last(), b.drop_last());
        assert(a =~= a.drop_last().push(a.last()));
        assert(b =~= b.drop_last().push(b.last()));
    }
}

/// Joined names, cut at the last slash: the last name and those before it.
proof fn lemma_cut_of_joined(names: Seq<Seq<char>>)
    requires
        names.len() > 0,
        all_segments(names),
    ensures
        names.len() == 1 ==> cut_at_last(joined(names, seq!['/']), '/') is None,
        names.len() > 1 ==> cut_at_last(joined(names, seq!['/']), '/') == Some(
            (joined(names.drop_last(), seq!['/']), names.last()),
        ),
{
    assert(is_segment(names[names.len() - 1]));
    if names.len() == 1 {
        let text = joined(names, seq!['/']);
        lemma_last_position(text, '/');
        if last_position(text, '/') >= 0 {
            assert(text.contains('/'));
        }
    } else {
        lemma_cut_at_last(joined(names.drop_last(), seq!['/']), '/', names.last());
    }
}

/// Joined names do not begin with a slash.
proof fn lemma_joined_names_begin_plainly(names: Seq<Seq<char>>)
    requires
        names.len() > 0,
        all_segments(names),
    ensures
        joined(names, seq!['/']).len() > 0,
        joined(names, seq!['/'])[0] != '/',
    decreases names.len(),
{
    assert(is_segment(names[0]));
    if names.len() == 1 {
        if names[0][0] == '/' {
            assert(names[0].contains('/'));
        }
    } else {
        assert forall|i: int| 0 <= i < names.drop_last().len() implies is_segment(
            #[trigger] names.drop_last()[i],
        ) by {
            assert(is_segment(names[i]));
        }
        lemma_joined_names_begin_plainly(names.drop_last());
    }
}

/// The names of two projects whose labels are the same at these depths, where
/// one has none.
proof fn lemma_label_of_root(
    project: ProjectModel,
    names: Seq<Seq<char>>,
    depth: nat,
    root: ProjectModel,
    root_depth: nat,
)
    requires
        goes_through(project, names),
        names.len() > 0,
        goes_through(root, Seq::empty()),
    ensures
        label_at(project, depth) != label_at(root, root_depth),
{
    let taken = names.skip(names.len() - taken_of(names.len(), depth));
    assert forall|i: int| 0 <= i < taken.len() implies is_segment(#[trigger] taken[i]) by {
        assert(is_segment(names[i + names.len() - taken.len()]));
    }
    lemma_joined_names_begin_plainly(taken);
    assert(label_at(root, root_depth) == root.path);
}

/// Labels tell projects apart: no two whose segments differ share a label, nor
/// do two that have none and whose paths differ.
pub proof fn labels_tell_projects_apart(projects: Seq<ProjectModel>, i: int, j: int)
    requires
        all_named(projects),
        0 <= i < projects.len(),
        0 <= j < projects.len(),
        projects[i].segments != projects[j].segments || projects[i].segments.len() == 0
            && projects[i].path != projects[j].path,
    ensures
        labelled(projects)[i].label != labelled(projects)[j].label,
{
    let a = projects[i];
    let b = projects[j];
    assert(is_named(a));
    assert(is_named(b));
    if labelled(projects)[i].label == labelled(projects)[j].label {
        shared_labels_are_whole_paths(projects, i, j);
        if a.segments.len() == 0 && b.segments.len() == 0 {
            assert(a.segments =~= b.segments);
        } else if a.segments.len() == 0 {
            assert(a.segments =~= Seq::empty());
            lemma_label_of_root(b, b.segments, b.segments.len(), a, 0);
        } else if b.segments.len() == 0 {
            assert(b.segments =~= Seq::empty());
            lemma_label_of_root(a, a.segments, a.segments.len(), b, 0);
        } else {
            assert(a.segments.skip(0) =~= a.segments);
            assert(b.segments.skip(0) =~= b.segments);
            lemma_joined_names_differ(a.segments, b.segments);
        }
    }
}

/// A project whose last segment is no other's is called by it: a label carries
/// a parent only while there is a collision.
pub proof fn a_lone_name_is_its_own_label(projects: Seq<ProjectModel>, i: int)
    requires
        all_named(projects),
        0 <= i < projects.len(),
        projects[i].segments.len() > 0,
        forall|k: int|
            0 <= k < projects.len() && k != i && (#[trigger] projects[k]).segments.len() > 0
                ==> projects[k].segments.last() != projects[i].segments.last(),
    ensures
        labelled(projects)[i].label == projects[i].segments.last(),
{
    let first = first_depths(projects.len());
    let names = segments_of(projects);
    lemma_through_segments(projects);
    assert forall|k: int| 0 <= k < projects.len() && k != i && (#[trigger] names[k]).len()
        > 0 implies names[k].last() != names[i].last() by {
        assert(names[k] == projects[k].segments);
    }
    lemma_lone_name_stays(projects, names, i, first);
    let own = projects[i].segments;
    assert(own.skip(own.len() - 1) =~= seq![own.last()]);
}

proof fn lemma_lone_name_stays(
    projects: Seq<ProjectModel>,
    names: Seq<Seq<Seq<char>>>,
    i: int,
    depths: Seq<nat>,
)
    requires
        names.len() == projects.len(),
        depths.len() == projects.len(),
        forall|k: int| 0 <= k < projects.len() ==> goes_through(#[trigger] projects[k], names[k]),
        forall|k: int| 0 <= k < depths.len() ==> #[trigger] depths[k] >= 1,
        0 <= i < projects.len(),
        names[i].len() > 0,
        forall|k: int|
            0 <= k < projects.len() && k != i && (#[trigger] names[k]).len() > 0 ==> names[k].last()
                != names[i].last(),
        depths[i] == 1,
    ensures
        settled(projects, depths)[i] == 1,
    decreases room(projects, depths),
{
    if !is_settled(projects, depths) {
        assert(goes_through(projects[i], names[i]));
        let own = names[i].skip(names[i].len() - 1);
        assert(own =~= seq![names[i].last()]);
        assert(is_segment(names[i][names[i].len() - 1]));
        if collides(projects, depths, i) {
            let j = choose|j: int|
                0 <= j < projects.len() && j != i && label_at(#[trigger] projects[j], depths[j])
                    == label_at(projects[i], depths[i]);
            assert(goes_through(projects[j], names[j]));
            if names[j].len() == 0 {
                assert(names[j] =~= Seq::empty());
                lemma_label_of_root(projects[i], names[i], 1, projects[j], depths[j]);
            } else {
                let from: int = names[j].len() - taken_of(names[j].len(), depths[j]);
                let other = names[j].skip(from);
                assert forall|k: int| 0 <= k < other.len() implies is_segment(
                    #[trigger] other[k],
                ) by {
                    assert(is_segment(names[j][k + from]));
                }
                assert(all_segments(own)) by {
                    assert(own[0] == names[i].last());
                }
                lemma_joined_names_differ(own, other);
                assert(other.last() == names[j].last());
            }
        }
        assert(!can_grow(projects, depths, i));
        let at = choose|k: int| 0 <= k < projects.len() && #[trigger] can_grow(projects, depths, k);
        lemma_growing_takes_room(projects, depths, grown(projects, depths), at);
        lemma_lone_name_stays(projects, names, i, grown(projects, depths));
    }
}

/// The last names of a path.
pub open spec fn last_names(names: Seq<Seq<char>>, depth: nat) -> Seq<Seq<char>> {
    names.skip(names.len() - depth)
}

/// Whether no other of these paths ends in the same last names.
pub open spec fn is_unique_at(names: Seq<Seq<Seq<char>>>, i: int, depth: nat) -> bool {
    forall|j: int|
        0 <= j < names.len() && j != i && (#[trigger] names[j]).len() >= depth ==> last_names(
            names[j],
            depth,
        ) != last_names(names[i], depth)
}

/// Whether this is the least depth at which a path is unique among others, or
/// all of it where there is none.
pub open spec fn is_shortest(names: Seq<Seq<Seq<char>>>, i: int, depth: nat) -> bool {
    &&& 1 <= depth <= names[i].len()
    &&& depth == names[i].len() || is_unique_at(names, i, depth)
    &&& forall|less: nat|
        1 <= less < depth ==> !#[trigger] is_unique_at(names, i, less)
}

/// Whether depths have grown for this many rounds: each as far as the round, or
/// as far as it needs.
spec fn are_grown(names: Seq<Seq<Seq<char>>>, depths: Seq<nat>, round: nat) -> bool {
    forall|i: int|
        0 <= i < names.len() && (#[trigger] names[i]).len() > 0 ==> {
            &&& 1 <= depths[i] <= round
            &&& depths[i] <= names[i].len()
            &&& forall|less: nat| 1 <= less < depths[i] ==> !#[trigger] is_unique_at(
                names,
                i,
                less,
            )
            &&& depths[i] < round ==> depths[i] == names[i].len() || is_unique_at(
                names,
                i,
                depths[i],
            )
        }
}

/// Two labels at these depths are the same text only where they are the same
/// names.
proof fn lemma_same_label_same_names(
    a: ProjectModel,
    x: Seq<Seq<char>>,
    depth_a: nat,
    b: ProjectModel,
    y: Seq<Seq<char>>,
    depth_b: nat,
)
    requires
        goes_through(a, x),
        goes_through(b, y),
        1 <= depth_a <= x.len(),
        1 <= depth_b,
        depth_b <= y.len() || y.len() == 0,
        label_at(a, depth_a) == label_at(b, depth_b),
    ensures
        y.len() > 0,
        depth_a == depth_b,
        last_names(x, depth_a) == last_names(y, depth_b),
{
    if y.len() == 0 {
        assert(y =~= Seq::empty());
        lemma_label_of_root(a, x, depth_a, b, depth_b);
    } else {
        let p = last_names(x, depth_a);
        let q = last_names(y, depth_b);
        assert forall|k: int| 0 <= k < p.len() implies is_segment(#[trigger] p[k]) by {
            assert(is_segment(x[k + x.len() - depth_a]));
        }
        assert forall|k: int| 0 <= k < q.len() implies is_segment(#[trigger] q[k]) by {
            assert(is_segment(y[k + y.len() - depth_b]));
        }
        lemma_joined_names_differ(p, q);
    }
}

/// A project collides at its depth exactly where its label is not unique there,
/// as long as all have grown together.
proof fn lemma_colliding_is_not_unique(
    projects: Seq<ProjectModel>,
    names: Seq<Seq<Seq<char>>>,
    depths: Seq<nat>,
    round: nat,
    i: int,
)
    requires
        names.len() == projects.len(),
        depths.len() == projects.len(),
        forall|k: int| 0 <= k < projects.len() ==> goes_through(#[trigger] projects[k], names[k]),
        forall|k: int| 0 <= k < depths.len() ==> #[trigger] depths[k] >= 1,
        are_grown(names, depths, round),
        0 <= i < projects.len(),
        names[i].len() > 0,
    ensures
        collides(projects, depths, i) ==> !is_unique_at(names, i, depths[i]),
        depths[i] == round && !is_unique_at(names, i, depths[i]) ==> collides(projects, depths, i),
{
    assert(goes_through(projects[i], names[i]));
    if collides(projects, depths, i) {
        let j = choose|j: int|
            0 <= j < projects.len() && j != i && label_at(#[trigger] projects[j], depths[j])
                == label_at(projects[i], depths[i]);
        assert(goes_through(projects[j], names[j]));
        assert(depths[j] >= 1);
        lemma_same_label_same_names(
            projects[i],
            names[i],
            depths[i],
            projects[j],
            names[j],
            depths[j],
        );
        assert(last_names(names[j], depths[i]) == last_names(names[i], depths[i]));
    }
    if depths[i] == round && !is_unique_at(names, i, depths[i]) {
        let j = choose|j: int|
            0 <= j < names.len() && j != i && (#[trigger] names[j]).len() >= depths[i]
                && last_names(names[j], depths[i]) == last_names(names[i], depths[i]);
        assert(goes_through(projects[j], names[j]));
        if depths[j] < round {
            assert(depths[j] == names[j].len() || is_unique_at(names, j, depths[j]));
            lemma_shared_ends(names[i], names[j], round, depths[j]);
            assert(!is_unique_at(names, j, depths[j])) by {
                assert(names[i].len() >= depths[j]);
                assert(last_names(names[i], depths[j]) == last_names(names[j], depths[j]));
            }
        }
        assert(depths[j] == round);
        assert(label_at(projects[j], depths[j]) == label_at(projects[i], depths[i]));
    }
}

/// What shares its last names shares fewer of them too.
proof fn lemma_shared_ends(a: Seq<Seq<char>>, b: Seq<Seq<char>>, depth: nat, less: nat)
    requires
        less <= depth <= a.len(),
        depth <= b.len(),
        last_names(a, depth) == last_names(b, depth),
    ensures
        last_names(a, less) == last_names(b, less),
{
    assert(last_names(a, less) =~= last_names(a, depth).skip(depth - less));
    assert(last_names(b, less) =~= last_names(b, depth).skip(depth - less));
}

proof fn lemma_settled_is_shortest(
    projects: Seq<ProjectModel>,
    names: Seq<Seq<Seq<char>>>,
    depths: Seq<nat>,
    round: nat,
    i: int,
)
    requires
        names.len() == projects.len(),
        depths.len() == projects.len(),
        forall|k: int| 0 <= k < projects.len() ==> goes_through(#[trigger] projects[k], names[k]),
        forall|k: int| 0 <= k < depths.len() ==> #[trigger] depths[k] >= 1,
        are_grown(names, depths, round),
        0 <= i < projects.len(),
        names[i].len() > 0,
    ensures
        is_shortest(names, i, settled(projects, depths)[i]),
    decreases room(projects, depths),
{
    assert(goes_through(projects[i], names[i]));
    if is_settled(projects, depths) {
        assert(!can_grow(projects, depths, i));
        lemma_colliding_is_not_unique(projects, names, depths, round, i);
    } else {
        let after = grown(projects, depths);
        let at = choose|k: int| 0 <= k < projects.len() && #[trigger] can_grow(projects, depths, k);
        lemma_growing_takes_room(projects, depths, after, at);
        assert forall|k: int| 0 <= k < names.len() && (#[trigger] names[k]).len() > 0 implies {
            &&& 1 <= after[k] <= round + 1
            &&& after[k] <= names[k].len()
            &&& forall|less: nat| 1 <= less < after[k] ==> !#[trigger] is_unique_at(
                names,
                k,
                less,
            )
            &&& after[k] < round + 1 ==> after[k] == names[k].len() || is_unique_at(
                names,
                k,
                after[k],
            )
        } by {
            assert(goes_through(projects[k], names[k]));
            lemma_colliding_is_not_unique(projects, names, depths, round, k);
        }
        assert(are_grown(names, after, round + 1));
        lemma_settled_is_shortest(projects, names, after, round + 1, i);
    }
}

/// A label is the shortest end of a path that tells it from all others: the last
/// names of the least number at which no other project has the same, or all of
/// them where there is no such number. Only the bare root, which has no name, is
/// its own label.
pub proof fn a_label_is_the_shortest_unique_end(projects: Seq<ProjectModel>, i: int)
    requires
        all_named(projects),
        0 <= i < projects.len(),
    ensures
        projects[i].segments.len() == 0 ==> labelled(projects)[i].label == projects[i].path,
        projects[i].segments.len() > 0 ==> exists|depth: nat| #[trigger]
            is_shortest(segments_of(projects), i, depth) && labelled(projects)[i].label == joined(
                last_names(projects[i].segments, depth),
                seq!['/'],
            ),
{
    let names = segments_of(projects);
    lemma_through_segments(projects);
    if projects[i].segments.len() > 0 {
        let first = first_depths(projects.len());
        assert(are_grown(names, first, 1));
        assert(names[i] == projects[i].segments);
        lemma_settled_is_shortest(projects, names, first, 1, i);
        let depth = settled(projects, first)[i];
        assert(is_shortest(names, i, depth));
    }
}

/// Whether two lists hold projects at the same paths.
pub open spec fn same_paths(a: Seq<ProjectModel>, b: Seq<ProjectModel>) -> bool {
    &&& a.len() == b.len()
    &&& forall|i: int|
        0 <= i < a.len() ==> (#[trigger] a[i]).path == b[i].path && a[i].segments == b[i].segments
}

/// Labels depend on paths alone.
proof fn lemma_labels_depend_on_paths(
    a: Seq<ProjectModel>,
    b: Seq<ProjectModel>,
    depths: Seq<nat>,
)
    requires
        same_paths(a, b),
        depths.len() == a.len(),
    ensures
        settled(a, depths) == settled(b, depths),
        forall|i: int|
            0 <= i < a.len() ==> label_at(#[trigger] a[i], settled(a, depths)[i]) == label_at(
                b[i],
                settled(b, depths)[i],
            ),
    decreases room(a, depths),
{
    assert forall|i: int| 0 <= i < a.len() implies #[trigger] can_grow(a, depths, i) == can_grow(
        b,
        depths,
        i,
    ) by {
        assert(a[i].path == b[i].path && a[i].segments == b[i].segments);
        if collides(a, depths, i) {
            let j = choose|j: int|
                0 <= j < a.len() && j != i && label_at(#[trigger] a[j], depths[j]) == label_at(
                    a[i],
                    depths[i],
                );
            assert(label_at(b[j], depths[j]) == label_at(b[i], depths[i]));
        }
        if collides(b, depths, i) {
            let j = choose|j: int|
                0 <= j < b.len() && j != i && label_at(#[trigger] b[j], depths[j]) == label_at(
                    b[i],
                    depths[i],
                );
            assert(a[j].path == b[j].path && a[j].segments == b[j].segments);
            assert(label_at(a[j], depths[j]) == label_at(a[i], depths[i]));
        }
    }
    if is_settled(a, depths) {
        assert forall|i: int| 0 <= i < b.len() implies !#[trigger] can_grow(b, depths, i) by {
            assert(!can_grow(a, depths, i));
        }
        assert(is_settled(b, depths));
    } else {
        let at = choose|i: int| 0 <= i < a.len() && #[trigger] can_grow(a, depths, i);
        assert(can_grow(b, depths, at));
        assert(!is_settled(b, depths));
        assert(grown(a, depths) =~= grown(b, depths));
        lemma_growing_takes_room(a, depths, grown(a, depths), at);
        lemma_labels_depend_on_paths(a, b, grown(a, depths));
    }
}

/// Whether a registry is in order: no id occurs twice, and every label is what
/// comparing them all gives.
pub open spec fn is_in_order(projects: Seq<ProjectModel>) -> bool {
    ids_are_unique(projects) && labelled(projects) == projects
}

/// Projects at the same paths get the same labels, whatever they were called.
pub proof fn labels_depend_on_paths(a: Seq<ProjectModel>, b: Seq<ProjectModel>)
    requires
        same_paths(a, b),
    ensures
        forall|i: int|
            0 <= i < a.len() ==> (#[trigger] labelled(a)[i]).label == labelled(b)[i].label,
{
    lemma_labels_depend_on_paths(a, b, first_depths(a.len()));
    assert forall|i: int| 0 <= i < a.len() implies (#[trigger] labelled(a)[i]).label == labelled(
        b,
    )[i].label by {
        assert(a[i].path == b[i].path);
    }
}

/// Labelling again changes nothing.
pub proof fn labelling_again_changes_nothing(projects: Seq<ProjectModel>)
    ensures
        labelled(labelled(projects)) == labelled(projects),
{
    let once = labelled(projects);
    labels_depend_on_paths(once, projects);
    assert forall|i: int| 0 <= i < once.len() implies labelled(once)[i] == once[i] by {
        assert(labelled(once)[i].label == labelled(projects)[i].label);
    }
    assert(labelled(once) =~= once);
}

/// An empty registry is in order, and registering and removing keep it so.
pub proof fn a_registry_stays_in_order(
    projects: Seq<ProjectModel>,
    candidate: ProjectModel,
    id: Seq<char>,
)
    requires
        is_in_order(projects),
    ensures
        is_in_order(Seq::empty()),
        is_in_order(registered(projects, candidate)),
        is_in_order(removed(projects, id)),
{
    assert(labelled(Seq::empty()) =~= Seq::<ProjectModel>::empty());
    registering_keeps_ids_unique(projects, candidate);
    removing_keeps_ids_unique(projects, id);
    labelling_again_changes_nothing(without(projects, id));
    labelling_again_changes_nothing(projects.push(candidate));
    lemma_position_of(projects, candidate.id);
    let at = position_of(projects, candidate.id) as int;
    if at < projects.len() {
        let after = registered(projects, candidate);
        labels_depend_on_paths(after, projects);
        assert forall|i: int| 0 <= i < after.len() implies labelled(after)[i] == after[i] by {
            assert(labelled(after)[i].label == labelled(projects)[i].label);
            assert(labelled(projects)[i] == projects[i]);
        }
        assert(labelled(after) =~= after);
    }
}

/// Loading the folders of a registry whose folders have not changed gives that
/// registry back: the same projects in the same order, under the same labels and
/// in the same health.
///
/// `restored` is what the stored folders become: each is made again of the path
/// it has, in the health it has.
pub proof fn loading_gives_an_unchanged_registry_back(
    projects: Seq<ProjectModel>,
    names: Seq<Seq<Seq<char>>>,
    restored: Seq<ProjectModel>,
)
    requires
        is_in_order(projects),
        names.len() == projects.len(),
        forall|k: int| 0 <= k < projects.len() ==> is_at(#[trigger] projects[k], names[k]),
        restored.len() == projects.len(),
        forall|k: int|
            0 <= k < projects.len() ==> is_new(
                projects[k].path,
                projects[k].health,
                #[trigger] restored[k],
            ),
    ensures
        labelled(first_of_each(restored)) == projects,
{
    assert forall|k: int| 0 <= k < projects.len() implies (#[trigger] restored[k]).id
        == projects[k].id && restored[k].path == projects[k].path && restored[k].segments
        == projects[k].segments && restored[k].health == projects[k].health by {
        assert(is_at(projects[k], names[k]));
        a_new_project_is_at_its_path(names[k], projects[k].health, restored[k]);
    }
    assert forall|i: int, j: int| 0 <= i < j < restored.len() implies (#[trigger] restored[i]).id
        != (#[trigger] restored[j]).id by {
        assert(projects[i].id != projects[j].id);
    }
    lemma_unique_are_all_first(restored);
    labels_depend_on_paths(restored, projects);
    let after = labelled(restored);
    assert forall|k: int| 0 <= k < after.len() implies after[k] == projects[k] by {
        assert(after[k].label == labelled(projects)[k].label);
        assert(restored[k].id == projects[k].id);
    }
    assert(after =~= projects);
}

/// Whether a stored folder is still that of a project: it resolves to itself and
/// holds what it held.
pub open spec fn is_unchanged(folder: StoredFolder, project: ProjectModel) -> bool {
    &&& folder.path@ == project.path
    &&& folder.found matches Found::Resolved { path, is_dir } && path@ == project.path && is_dir
    &&& health_from(project.path, folder.facts) == project.health
}

/// A project whose path is not taken for an absolute one.
pub open spec fn not_absolute(project: ProjectModel) -> ProjectModel {
    ProjectModel {
        health: HealthModel::Unavailable(error_text(ErrorModel::NotAbsolute(project.path))),
        ..project
    }
}

/// What loading gives back of a registry whose folders have not changed: the
/// same projects in the same order, under the same labels and in the same
/// health. Only one whose path the platform does not take for absolute is
/// unavailable for that reason.
pub proof fn loading_gives_back_what_was_stored(
    projects: Seq<ProjectModel>,
    names: Seq<Seq<Seq<char>>>,
    folders: Vec<StoredFolder>,
    loaded: Vec<Project>,
)
    requires
        is_in_order(projects),
        names.len() == projects.len(),
        forall|k: int| 0 <= k < projects.len() ==> is_at(#[trigger] projects[k], names[k]),
        folders@.len() == projects.len(),
        forall|k: int|
            0 <= k < projects.len() ==> is_unchanged(#[trigger] folders@[k], projects[k]),
        loads(Stored::Folders(folders), Ok(loaded)),
    ensures
        loaded@.len() == projects.len(),
        forall|k: int|
            0 <= k < projects.len() ==> (#[trigger] project_views(loaded@)[k]) == projects[k]
                || project_views(loaded@)[k] == not_absolute(projects[k]),
{
    let restored = choose|restored: Seq<ProjectModel>|
        {
            &&& restored.len() == folders@.len()
            &&& forall|i: int|
                0 <= i < restored.len() ==> restores(folders@[i], #[trigger] restored[i])
            &&& project_views(loaded@) == labelled(#[trigger] first_of_each(restored))
        };
    let healths = Seq::new(projects.len(), |k: int| restored[k].health);
    let seen = Seq::new(
        projects.len(),
        |k: int| ProjectModel { health: healths[k], ..projects[k] },
    );
    assert forall|k: int| 0 <= k < projects.len() implies is_new(
        seen[k].path,
        seen[k].health,
        #[trigger] restored[k],
    ) && (seen[k] == projects[k] || seen[k] == not_absolute(projects[k])) by {
        assert(is_unchanged(folders@[k], projects[k]));
        assert(restores(folders@[k], restored[k]));
    }
    assert forall|k: int| 0 <= k < seen.len() implies is_at(#[trigger] seen[k], names[k]) by {
        assert(is_at(projects[k], names[k]));
    }
    assert(ids_are_unique(seen)) by {
        assert forall|i: int, j: int| 0 <= i < j < seen.len() implies (#[trigger] seen[i]).id != (
        #[trigger] seen[j]).id by {
            assert(projects[i].id != projects[j].id);
        }
    }
    labels_depend_on_paths(seen, projects);
    assert forall|k: int| 0 <= k < seen.len() implies labelled(seen)[k] == seen[k] by {
        assert(labelled(seen)[k].label == labelled(projects)[k].label);
        assert(labelled(projects)[k] == projects[k]);
    }
    assert(labelled(seen) =~= seen);
    loading_gives_an_unchanged_registry_back(seen, names, restored);
    assert(project_views(loaded@).len() == loaded@.len());
    assert forall|k: int| 0 <= k < projects.len() implies (#[trigger] project_views(loaded@)[k])
        == projects[k] || project_views(loaded@)[k] == not_absolute(projects[k]) by {
        assert(is_new(seen[k].path, seen[k].health, restored[k]));
        assert(project_views(loaded@)[k] == seen[k]);
    }
}

proof fn lemma_unique_are_all_first(projects: Seq<ProjectModel>)
    requires
        ids_are_unique(projects),
    ensures
        first_of_each(projects) == projects,
    decreases projects.len(),
{
    if projects.len() == 0 {
        assert(first_of_each(projects) =~= projects);
    } else {
        let front = projects.drop_last();
        assert forall|i: int, j: int| 0 <= i < j < front.len() implies (#[trigger] front[i]).id
            != (#[trigger] front[j]).id by {
            assert(projects[i].id != projects[j].id);
        }
        lemma_unique_are_all_first(front);
        lemma_position_of(front, projects.last().id);
        let at = position_of(front, projects.last().id) as int;
        if at < front.len() {
            assert(projects[at].id != projects[projects.len() - 1].id);
        }
        assert(front.push(projects.last()) =~= projects);
    }
}

/// A project but for its label.
pub open spec fn unlabelled(project: ProjectModel) -> ProjectModel {
    ProjectModel { label: Seq::empty(), ..project }
}

/// Projects but for their labels.
pub open spec fn all_unlabelled(projects: Seq<ProjectModel>) -> Seq<ProjectModel> {
    projects.map_values(|project: ProjectModel| unlabelled(project))
}

/// The ids of projects.
pub open spec fn ids_of(projects: Seq<ProjectModel>) -> Seq<Seq<char>> {
    projects.map_values(|project: ProjectModel| project.id)
}

/// Labelling changes nothing but labels, in no project.
proof fn lemma_labelled_is_the_same_unlabelled(projects: Seq<ProjectModel>)
    ensures
        all_unlabelled(labelled(projects)) == all_unlabelled(projects),
{
    labelling_keeps_the_projects(projects);
    assert forall|i: int| 0 <= i < projects.len() implies all_unlabelled(labelled(projects))[i]
        == all_unlabelled(projects)[i] by {
        assert(labelled(projects)[i] == (ProjectModel {
            label: labelled(projects)[i].label,
            ..projects[i]
        }));
    }
    assert(all_unlabelled(labelled(projects)) =~= all_unlabelled(projects));
}

/// Removing an id leaves every project that has another one, in order and as it
/// was but for its label, and no other.
pub proof fn removing_keeps_every_other_project(projects: Seq<ProjectModel>, id: Seq<char>)
    ensures
        all_unlabelled(removed(projects, id)) == all_unlabelled(
            projects.filter(|project: ProjectModel| project.id != id),
        ),
        ids_of(removed(projects, id)) == ids_of(projects).filter(|other: Seq<char>| other != id),
{
    lemma_without(projects, id);
    lemma_kept_is_filtered(projects, id);
    lemma_labelled_is_the_same_unlabelled(without(projects, id));
    let after = removed(projects, id);
    let kept = without(projects, id);
    assert(all_unlabelled(after) == all_unlabelled(kept));
    assert forall|i: int| 0 <= i < after.len() implies ids_of(after)[i] == ids_of(kept)[i] by {
        assert(all_unlabelled(after)[i].id == all_unlabelled(kept)[i].id);
    }
    assert(after.len() == all_unlabelled(after).len());
    assert(kept.len() == all_unlabelled(kept).len());
    assert(ids_of(after) =~= ids_of(kept));
}

proof fn lemma_kept_is_filtered(projects: Seq<ProjectModel>, id: Seq<char>)
    ensures
        without(projects, id) == projects.filter(|project: ProjectModel| project.id != id),
        ids_of(without(projects, id)) == ids_of(projects).filter(|other: Seq<char>| other != id),
    decreases projects.len(),
{
    reveal(Seq::filter);
    if projects.len() > 0 {
        let front = projects.drop_last();
        lemma_kept_is_filtered(front, id);
        assert(ids_of(projects).drop_last() =~= ids_of(front));
        assert(ids_of(projects).last() == projects.last().id);
        if projects.last().id != id {
            assert(ids_of(without(projects, id)) =~= ids_of(without(front, id)).push(
                projects.last().id,
            ));
        }
    } else {
        assert(without(projects, id) =~= projects.filter(|project: ProjectModel| project.id != id));
        assert(ids_of(without(projects, id)) =~= ids_of(projects).filter(
            |other: Seq<char>| other != id,
        ));
    }
}

/// Where ids are unique, removing one that is registered takes out exactly the
/// project that has it: those before it stay where they are, and those after it
/// move up by one.
pub proof fn removing_takes_out_one_project(projects: Seq<ProjectModel>, at: int)
    requires
        ids_are_unique(projects),
        0 <= at < projects.len(),
    ensures
        ({
            let after = removed(projects, projects[at].id);
            &&& after.len() == projects.len() - 1
            &&& forall|i: int|
                0 <= i < at ==> unlabelled(#[trigger] after[i]) == unlabelled(projects[i])
            &&& forall|i: int|
                at <= i < after.len() ==> unlabelled(#[trigger] after[i]) == unlabelled(
                    projects[i + 1],
                )
        }),
{
    let id = projects[at].id;
    lemma_one_is_left_out(projects, at);
    lemma_without(projects, id);
    lemma_labelled_is_the_same_unlabelled(projects.remove(at));
    let after = removed(projects, id);
    assert(after == labelled(projects.remove(at)));
    labelling_keeps_the_projects(projects.remove(at));
    assert forall|i: int| 0 <= i < after.len() implies unlabelled(#[trigger] after[i])
        == unlabelled(projects.remove(at)[i]) by {
        assert(all_unlabelled(after)[i] == all_unlabelled(projects.remove(at))[i]);
    }
}

proof fn lemma_one_is_left_out(projects: Seq<ProjectModel>, at: int)
    requires
        ids_are_unique(projects),
        0 <= at < projects.len(),
    ensures
        without(projects, projects[at].id) == projects.remove(at),
    decreases projects.len(),
{
    let id = projects[at].id;
    let front = projects.drop_last();
    assert forall|i: int, j: int| 0 <= i < j < front.len() implies (#[trigger] front[i]).id != (
    #[trigger] front[j]).id by {
        assert(projects[i].id != projects[j].id);
    }
    if at == projects.len() - 1 {
        assert forall|i: int| 0 <= i < front.len() implies (#[trigger] front[i]).id != id by {
            assert(projects[i].id != projects[at].id);
        }
        lemma_without(front, id);
        lemma_position_of(front, id);
        assert(projects.remove(at) =~= front);
    } else {
        lemma_one_is_left_out(front, at);
        assert(projects[at].id != projects[projects.len() - 1].id);
        assert(projects.remove(at) =~= front.remove(at).push(projects.last()));
    }
}

/// Registering a project with a new id adds it at the end and leaves every other
/// one as it was but for its label.
pub proof fn registering_adds_at_the_end(projects: Seq<ProjectModel>, candidate: ProjectModel)
    requires
        forall|i: int| 0 <= i < projects.len() ==> (#[trigger] projects[i]).id != candidate.id,
    ensures
        all_unlabelled(registered(projects, candidate)) == all_unlabelled(projects).push(
            unlabelled(candidate),
        ),
{
    lemma_position_of(projects, candidate.id);
    lemma_labelled_is_the_same_unlabelled(projects.push(candidate));
    assert(all_unlabelled(projects.push(candidate)) =~= all_unlabelled(projects).push(
        unlabelled(candidate),
    ));
}

/// Registering a project whose id is there already changes the health of the
/// first one that has it, to what it is now, and nothing else.
pub proof fn registering_again_refreshes_the_health(
    projects: Seq<ProjectModel>,
    candidate: ProjectModel,
    at: int,
)
    requires
        0 <= at < projects.len(),
        projects[at].id == candidate.id,
        forall|i: int| 0 <= i < at ==> (#[trigger] projects[i]).id != candidate.id,
    ensures
        registered(projects, candidate).len() == projects.len(),
        registered(projects, candidate)[at] == (ProjectModel {
            health: candidate.health,
            ..projects[at]
        }),
        forall|i: int|
            0 <= i < projects.len() && i != at ==> #[trigger] registered(projects, candidate)[i]
                == projects[i],
{
    lemma_position_of(projects, candidate.id);
}

/// Removing what was just registered under a new id gives the registry back, but
/// for labels.
pub proof fn removing_undoes_registering(projects: Seq<ProjectModel>, candidate: ProjectModel)
    requires
        forall|i: int| 0 <= i < projects.len() ==> (#[trigger] projects[i]).id != candidate.id,
    ensures
        all_unlabelled(removed(registered(projects, candidate), candidate.id)) == all_unlabelled(
            projects,
        ),
        labelled(projects) == projects ==> removed(registered(projects, candidate), candidate.id)
            == projects,
{
    let id = candidate.id;
    let once = registered(projects, candidate);
    lemma_position_of(projects, id);
    labelling_keeps_the_projects(projects.push(candidate));
    let front = once.drop_last();
    assert forall|i: int| 0 <= i < front.len() implies (#[trigger] front[i]).id != id
        && unlabelled(front[i]) == unlabelled(projects[i]) by {
        assert(labelled(projects.push(candidate))[i].id == projects.push(candidate)[i].id);
    }
    assert(once.last().id == id) by {
        assert(labelled(projects.push(candidate))[projects.len() as int].id == candidate.id);
    }
    lemma_without(front, id);
    lemma_position_of(front, id);
    assert(without(once, id) == front);
    lemma_without(once, id);
    let after = removed(once, id);
    assert(after == labelled(front));
    lemma_labelled_is_the_same_unlabelled(front);
    assert(all_unlabelled(front) =~= all_unlabelled(projects));
    if labelled(projects) == projects {
        assert forall|i: int| 0 <= i < front.len() implies (#[trigger] front[i]).path
            == projects[i].path && front[i].segments == projects[i].segments by {
            assert(unlabelled(front[i]) == unlabelled(projects[i]));
        }
        labels_depend_on_paths(front, projects);
        assert forall|i: int| 0 <= i < projects.len() implies after[i] == projects[i] by {
            assert(labelled(front)[i].label == labelled(projects)[i].label);
            assert(all_unlabelled(after)[i] == all_unlabelled(projects)[i]);
            assert(unlabelled(after[i]) == unlabelled(projects[i]));
        }
        labelling_keeps_the_projects(front);
        assert(after =~= projects);
    }
}

/// Of stored folders that are the same project the first is kept, and every
/// other one is: a project is kept exactly where none before it has its id, and
/// those that are stay in order.
pub proof fn loading_keeps_the_first_of_each(projects: Seq<ProjectModel>)
    ensures
        exists|places: Seq<int>|
            {
                &&& #[trigger] are_places(places, projects.len() as int)
                &&& places.len() == first_of_each(projects).len()
                &&& forall|k: int|
                    0 <= k < places.len() ==> first_of_each(projects)[k] == projects[
                        #[trigger] places[k]]
                &&& forall|i: int|
                    0 <= i < projects.len() ==> (places.contains(i) <==> is_first_of_its_id(
                        projects,
                        i,
                    ))
            },
    decreases projects.len(),
{
    if projects.len() == 0 {
        let places = Seq::<int>::empty();
        assert(are_places(places, 0));
        assert(first_of_each(projects).len() == 0);
    } else {
        let front = projects.drop_last();
        let last = projects.len() - 1;
        loading_keeps_the_first_of_each(front);
        let earlier = first_of_each(front);
        let kept = first_of_each(projects);
        let before = choose|places: Seq<int>|
            {
                &&& #[trigger] are_places(places, front.len() as int)
                &&& places.len() == first_of_each(front).len()
                &&& forall|k: int|
                    0 <= k < places.len() ==> first_of_each(front)[k] == front[
                        #[trigger] places[k]]
                &&& forall|i: int|
                    0 <= i < front.len() ==> (places.contains(i) <==> is_first_of_its_id(front, i))
            };
        lemma_first_of_each(front);
        lemma_position_of(earlier, projects.last().id);
        let known = position_of(earlier, projects.last().id) < earlier.len();
        assert(known <==> !is_first_of_its_id(projects, last)) by {
            if known {
                let at = position_of(earlier, projects.last().id) as int;
                assert(earlier[at] == front[before[at]]);
                assert(projects[before[at]].id == projects[last].id);
            } else if !is_first_of_its_id(projects, last) {
                let j = choose|j: int|
                    0 <= j < last && (#[trigger] projects[j]).id == projects[last].id;
                assert(front[j].id == projects[last].id);
                lemma_position_of(earlier, front[j].id);
                assert(position_of(earlier, front[j].id) < earlier.len());
            }
        }
        assert forall|i: int| 0 <= i < front.len() implies is_first_of_its_id(front, i)
            == is_first_of_its_id(projects, i) by {
            if is_first_of_its_id(front, i) {
                assert forall|j: int| 0 <= j < i implies (#[trigger] projects[j]).id
                    != projects[i].id by {
                    assert(front[j].id != front[i].id);
                }
            }
            if is_first_of_its_id(projects, i) {
                assert forall|j: int| 0 <= j < i implies (#[trigger] front[j]).id != front[i].id by {
                    assert(projects[j].id != projects[i].id);
                }
            }
        }
        let places = if known {
            before
        } else {
            before.push(last)
        };
        assert(are_places(places, projects.len() as int));
        assert forall|k: int| 0 <= k < places.len() implies kept[k] == projects[
            #[trigger] places[k]] by {
            if k < before.len() {
                assert(places[k] == before[k]);
                assert(earlier[k] == front[before[k]]);
            }
        }
        assert forall|i: int| 0 <= i < projects.len() implies (places.contains(i)
            <==> is_first_of_its_id(projects, i)) by {
            if i < last {
                if before.contains(i) {
                    let k = choose|k: int| 0 <= k < before.len() && before[k] == i;
                    assert(places[k] == i);
                }
                if places.contains(i) {
                    let k = choose|k: int| 0 <= k < places.len() && places[k] == i;
                    assert(before[k] == i);
                }
            } else {
                if places.contains(i) {
                    let k = choose|k: int| 0 <= k < places.len() && places[k] == i;
                    if k < before.len() {
                        assert(before[k] < front.len());
                    }
                }
                if !known {
                    assert(places[before.len() as int] == last);
                }
            }
        }
    }
}

/// Whether these are places in a list of this length, in order.
pub open spec fn are_places(places: Seq<int>, length: int) -> bool {
    &&& forall|k: int| 0 <= k < places.len() ==> 0 <= #[trigger] places[k] < length
    &&& forall|j: int, k: int|
        0 <= j < k < places.len() ==> #[trigger] places[j] < #[trigger] places[k]
}

/// Whether no project before this one has its id.
pub open spec fn is_first_of_its_id(projects: Seq<ProjectModel>, i: int) -> bool {
    forall|j: int| 0 <= j < i ==> (#[trigger] projects[j]).id != projects[i].id
}

/// Each health says what was seen of a folder: healthy exactly where it is a
/// folder with both, and otherwise what is missing first.
pub proof fn a_health_says_what_is_missing(canonical: Seq<char>, facts: Facts)
    ensures
        health_from(canonical, facts) is Healthy <==> facts.is_dir && facts.has_artisan
            && facts.has_logs_dir,
        health_from(canonical, facts) is NoLogsDir <==> facts.is_dir && facts.has_artisan
            && !facts.has_logs_dir,
        health_from(canonical, facts) is NotLaravel <==> facts.is_dir && !facts.has_artisan,
        health_from(canonical, facts) matches HealthModel::Unavailable(reason) ==> !facts.is_dir
            && reason == canonical + " is not a readable folder"@,
        !facts.is_dir ==> health_from(canonical, facts) is Unavailable,
{
}

/// A path is accepted exactly where it is absolute and resolves to a folder, as
/// what it resolves to; otherwise the first reason against it is given.
pub proof fn a_path_is_accepted_where_it_is_a_folder(raw: Seq<char>, absolute: bool, found: Found)
    ensures
        accepted(raw, absolute, found) is Ok <==> absolute && (found matches Found::Resolved {
            is_dir,
            ..
        } && is_dir),
        accepted(raw, absolute, found) matches Ok(path) ==> (found matches Found::Resolved {
            path: resolved,
            ..
        } && path == resolved@),
        !absolute ==> accepted(raw, absolute, found) == Err::<Seq<char>, _>(
            ErrorModel::NotAbsolute(raw),
        ),
        absolute ==> (found matches Found::Unresolved(reason) ==> accepted(raw, absolute, found)
            == Err::<Seq<char>, _>(ErrorModel::Unresolvable { path: raw, reason: reason@ })),
        absolute ==> (found matches Found::Resolved { path, is_dir } ==> !is_dir ==> accepted(
            raw,
            absolute,
            found,
        ) == Err::<Seq<char>, _>(ErrorModel::NotADirectory(path@))),
{
}

/// A stored folder that cannot be resolved, or is no folder any more, stays
/// registered at the path it was stored with, and is unavailable for that
/// reason.
pub proof fn a_folder_that_went_away_stays_registered(folder: StoredFolder, project: ProjectModel)
    requires
        restores(folder, project),
        folder.found matches Found::Resolved { is_dir, .. } ==> !is_dir,
    ensures
        project.path == folder.path@,
        project.id == folder.path@,
        project.health is Unavailable,
{
}

/// A stored folder that resolves to a folder becomes the project there, in the
/// health it has now, whatever was stored of it.
pub proof fn a_folder_is_restored_where_it_is(folder: StoredFolder, project: ProjectModel)
    requires
        restores(folder, project),
    ensures
        folder.found matches Found::Resolved { path, is_dir } ==> is_dir ==> {
            ||| project.path == path@ && project.id == path@ && project.health == health_from(
                path@,
                folder.facts,
            )
            ||| project.path == folder.path@ && project.health == HealthModel::Unavailable(
                error_text(ErrorModel::NotAbsolute(folder.path@)),
            )
        },
{
}

} // verus!
