//! Which instance stands for which module.

use vstd::prelude::*;

use crate::error::Error;
use crate::expression::expressions_lead_to_their_target;
use crate::files::{metadata_of, FileQuery, FilesModel, QueryKind};
use crate::laws::configurations::known_kind;
use crate::laws::paths::below_start;
use crate::laws::plans::is_module;
use crate::module_index::{
    common_length, entries_at, keyed_by_source, modules_are_never_ambiguous, nearest,
    parent_instance, placed, placed_each, source_of, target_of, target_of_module, target_of_path,
    with_instance, with_instances, with_snapshot, without_instances, without_sources,
    IndexedModel, TargetModel,
};
use crate::paths::{
    components, is_luau_file, parent_drops_last_component, parent_of, path_within, pieces,
    PathComponent,
};
use crate::snapshot::{InstigatingSource, MetadataModel, SnapshotModel};

verus! {

/// The instance that one reaches from `root` by taking child number `way[0]`, its child
/// number `way[1]`, and so on.
pub open spec fn node_at(root: SnapshotModel, way: Seq<int>) -> Option<SnapshotModel>
    decreases way.len(),
{
    if way.len() == 0 {
        Some(root)
    } else if 0 <= way[0] < root.children.len() {
        node_at(root.children[way[0]], way.drop_first())
    } else {
        None
    }
}

/// The names on that way, from that of `root` on.
pub open spec fn names_at(root: SnapshotModel, way: Seq<int>) -> Seq<Seq<char>>
    decreases way.len(),
{
    if way.len() == 0 || !(0 <= way[0] < root.children.len()) {
        seq![root.name]
    } else {
        seq![root.name] + names_at(root.children[way[0]], way.drop_first())
    }
}

/// Instances are met before the instances below them, and these child by child.
pub proof fn instances_come_before_their_children(root: SnapshotModel, parent: Seq<Seq<char>>)
    ensures
        placed(root, parent) == seq![(root, parent.push(root.name))] + root.children.map_values(
            |child: SnapshotModel| placed(child, parent.push(root.name)),
        ).flatten(),
{
    lemma_placed_each(root.children, parent.push(root.name));
}

proof fn lemma_placed_each(row: Seq<SnapshotModel>, parent: Seq<Seq<char>>)
    ensures
        placed_each(row, parent) == row.map_values(
            |child: SnapshotModel| placed(child, parent),
        ).flatten(),
    decreases row.len(),
{
    let rows = row.map_values(|child: SnapshotModel| placed(child, parent));
    if row.len() == 0 {
        assert(rows =~= Seq::<Seq<(SnapshotModel, Seq<Seq<char>>)>>::empty());
    } else {
        let rest = row.drop_first();
        lemma_placed_each(rest, parent);
        assert(rows.drop_first() =~= rest.map_values(
            |child: SnapshotModel| placed(child, parent),
        ));
        assert(rows.first() == placed(row[0], parent));
    }
}

/// Every instance of a tree is met, under the names that lead to it.
pub proof fn every_instance_is_met(
    root: SnapshotModel,
    parent: Seq<Seq<char>>,
    way: Seq<int>,
    node: SnapshotModel,
)
    requires
        node_at(root, way) == Some(node),
    ensures
        placed(root, parent).contains((node, parent + names_at(root, way))),
    decreases way.len(),
{
    let path = parent.push(root.name);
    let all = placed(root, parent);
    if way.len() == 0 {
        assert(all[0] == (root, path));
        assert(parent + seq![root.name] =~= path);
    } else {
        let child = root.children[way[0]];
        let rest = way.drop_first();
        every_instance_is_met(child, path, rest, node);
        let found = (node, path + names_at(child, rest));
        assert(path + names_at(child, rest) =~= parent + names_at(root, way));
        instances_come_before_their_children(root, parent);
        let rows = root.children.map_values(|child: SnapshotModel| placed(child, path));
        assert(rows[way[0]] == placed(child, path));
        crate::laws::plans::lemma_flattened(rows, way[0], found);
        let i = choose|i: int| 0 <= i < rows.flatten().len() && rows.flatten()[i] == found;
        assert(all[i + 1] == found);
    }
}

/// Nothing else is met.
pub proof fn only_instances_are_met(root: SnapshotModel, parent: Seq<Seq<char>>, i: int)
    requires
        0 <= i < placed(root, parent).len(),
    ensures
        exists|way: Seq<int>| #[trigger]
            node_at(root, way) == Some(placed(root, parent)[i].0) && placed(root, parent)[i].1
                == parent + names_at(root, way),
    decreases root,
{
    let path = parent.push(root.name);
    if i == 0 {
        let way = Seq::<int>::empty();
        assert(node_at(root, way) == Some(root));
        assert(parent + names_at(root, way) =~= path);
    } else {
        assert(placed(root, parent)[i] == placed_each(root.children, path)[i - 1]);
        let (k, way) = lemma_only_each(root.children, path, i - 1);
        let longer = seq![k] + way;
        assert(longer.drop_first() =~= way);
        assert(node_at(root, longer) == node_at(root.children[k], way));
        assert(parent + names_at(root, longer) =~= path + names_at(root.children[k], way));
    }
}

proof fn lemma_only_each(row: Seq<SnapshotModel>, parent: Seq<Seq<char>>, i: int) -> (found: (
    int,
    Seq<int>,
))
    requires
        0 <= i < placed_each(row, parent).len(),
    ensures
        0 <= found.0 < row.len(),
        node_at(row[found.0], found.1) == Some(placed_each(row, parent)[i].0),
        placed_each(row, parent)[i].1 == parent + names_at(row[found.0], found.1),
    decreases row,
{
    let first = placed(row[0], parent);
    let rest = row.drop_first();
    if i < first.len() {
        only_instances_are_met(row[0], parent, i);
        let way = choose|way: Seq<int>| #[trigger]
            node_at(row[0], way) == Some(first[i].0) && first[i].1 == parent + names_at(
                row[0],
                way,
            );
        (0, way)
    } else {
        let (k, way) = lemma_only_each(rest, parent, i - first.len());
        assert(rest[k] == row[k + 1]);
        (k + 1, way)
    }
}

/// Whether an instance is a module script that comes from a module.
pub open spec fn is_module_script(
    files: FilesModel,
    instance: (SnapshotModel, Seq<Seq<char>>),
) -> bool {
    &&& instance.0.class_name == seq![
        'M',
        'o',
        'd',
        'u',
        'l',
        'e',
        'S',
        'c',
        'r',
        'i',
        'p',
        't',
    ]
    &&& source_of(instance.0.metadata) matches Some(path) && is_module(files, path)
}

/// Whether an instance is a script whose source is not known to be a module or none.
pub open spec fn is_unknown_script(
    files: FilesModel,
    instance: (SnapshotModel, Seq<Seq<char>>),
) -> bool {
    &&& instance.0.class_name == seq![
        'M',
        'o',
        'd',
        'u',
        'l',
        'e',
        'S',
        'c',
        'r',
        'i',
        'p',
        't',
    ]
    &&& source_of(instance.0.metadata) matches Some(path) && known_kind(files, path) is None
}

/// How an instance stands for its module: under the path of its source.
pub open spec fn entry_of(instance: (SnapshotModel, Seq<Seq<char>>)) -> IndexedModel {
    let path = source_of(instance.0.metadata)->0;
    IndexedModel {
        module: components(path),
        target: TargetModel {
            source_path: path,
            instance_path: instance.1,
            relevant_paths: instance.0.metadata.relevant_paths,
        },
    }
}

proof fn lemma_instance(
    index: Seq<IndexedModel>,
    files: FilesModel,
    instance: (SnapshotModel, Seq<Seq<char>>),
)
    requires
        keyed_by_source(index),
    ensures
        ({
            let run = with_instance(index, files, instance.0, instance.1);
            &&& run.error is Some <==> is_unknown_script(files, instance)
            &&& run.error is None ==> run.index == if is_module_script(files, instance) {
                index.push(entry_of(instance))
            } else {
                index
            }
            &&& keyed_by_source(run.index)
        }),
{
    reveal_strlit("ModuleScript");
    assert("ModuleScript"@ =~= seq![
        'M',
        'o',
        'd',
        'u',
        'l',
        'e',
        'S',
        'c',
        'r',
        'i',
        'p',
        't',
    ]);
    let row = seq![instance];
    modules_are_never_ambiguous(index, files, row);
    let run = with_instance(index, files, instance.0, instance.1);
    assert(row.drop_first() =~= Seq::<(SnapshotModel, Seq<Seq<char>>)>::empty());
    reveal_with_fuel(with_instances, 2);
    assert(with_instances(index, files, row).error == run.error);
    assert(with_instances(index, files, row).index == run.index);
}

/// An index gains the module scripts among the instances that it is given, in order, each
/// under the path of its source, whatever their names, properties and children are. It does
/// so where it is known of every script whether its source is a module.
pub proof fn module_scripts_are_indexed(
    index: Seq<IndexedModel>,
    files: FilesModel,
    row: Seq<(SnapshotModel, Seq<Seq<char>>)>,
)
    requires
        keyed_by_source(index),
    ensures
        with_instances(index, files, row).error is None <==> forall|i: int|
            0 <= i < row.len() ==> !is_unknown_script(files, #[trigger] row[i]),
        with_instances(index, files, row).error is None ==> with_instances(index, files, row).index
            == index + row.filter(
            |instance: (SnapshotModel, Seq<Seq<char>>)| is_module_script(files, instance),
        ).map_values(|instance: (SnapshotModel, Seq<Seq<char>>)| entry_of(instance)),
    decreases row.len(),
{
    let wanted = |instance: (SnapshotModel, Seq<Seq<char>>)| is_module_script(files, instance);
    let to_entry = |instance: (SnapshotModel, Seq<Seq<char>>)| entry_of(instance);
    if row.len() == 0 {
        reveal(Seq::filter);
        assert(row.filter(wanted).map_values(to_entry) =~= Seq::<IndexedModel>::empty());
        assert(index + Seq::<IndexedModel>::empty() =~= index);
    } else {
        let rest = row.drop_first();
        let run = with_instance(index, files, row[0].0, row[0].1);
        lemma_instance(index, files, row[0]);
        assert(forall|i: int| 0 <= i < rest.len() ==> rest[i] == row[i + 1]);
        if run.error is None {
            module_scripts_are_indexed(run.index, files, rest);
            if with_instances(index, files, row).error is None {
                assert forall|i: int| 0 <= i < row.len() implies !is_unknown_script(
                    files,
                    #[trigger] row[i],
                ) by {
                    if i > 0 {
                        assert(rest[i - 1] == row[i]);
                    }
                }
                assert(seq![row[0]] + rest =~= row);
                rest.lemma_filter_prepend(row[0], wanted);
                let later = rest.filter(wanted);
                if wanted(row[0]) {
                    assert(row.filter(wanted) == seq![row[0]] + later);
                    assert((seq![row[0]] + later).map_values(to_entry) =~= seq![
                        entry_of(row[0]),
                    ] + later.map_values(to_entry));
                    assert(index.push(entry_of(row[0])) + later.map_values(to_entry) =~= index + (
                    seq![entry_of(row[0])] + later.map_values(to_entry)));
                } else {
                    assert(row.filter(wanted) == later);
                }
            } else {
                let i = choose|i: int|
                    0 <= i < rest.len() && is_unknown_script(files, #[trigger] rest[i]);
                assert(is_unknown_script(files, row[i + 1]));
            }
        }
    }
}

/// The first script whose source is not known ends the making of an index, with what is
/// wrong with that source. What came before it is indexed.
pub proof fn the_first_unknown_script_ends_an_index(
    index: Seq<IndexedModel>,
    files: FilesModel,
    row: Seq<(SnapshotModel, Seq<Seq<char>>)>,
    i: int,
)
    requires
        keyed_by_source(index),
        0 <= i < row.len(),
        is_unknown_script(files, row[i]),
        forall|j: int| 0 <= j < i ==> !is_unknown_script(files, #[trigger] row[j]),
    ensures
        with_instances(index, files, row).error == Some(
            metadata_of(files, source_of(row[i].0.metadata)->0)->Err_0,
        ),
        with_instances(index, files, row).index == with_instances(index, files, row.take(i)).index,
    decreases row.len(),
{
    let run = with_instance(index, files, row[0].0, row[0].1);
    lemma_instance(index, files, row[0]);
    if i == 0 {
        assert(row.take(0) =~= Seq::<(SnapshotModel, Seq<Seq<char>>)>::empty());
        lemma_unknown(index, files, row[0]);
    } else {
        assert(!is_unknown_script(files, row[0]));
        let rest = row.drop_first();
        assert forall|j: int| 0 <= j < i - 1 implies !is_unknown_script(
            files,
            #[trigger] rest[j],
        ) by {
            assert(rest[j] == row[j + 1]);
        }
        the_first_unknown_script_ends_an_index(run.index, files, rest, i - 1);
        assert(row.take(i)[0] == row[0]);
        assert(row.take(i).drop_first() =~= rest.take(i - 1));
    }
}

proof fn lemma_unknown(
    index: Seq<IndexedModel>,
    files: FilesModel,
    instance: (SnapshotModel, Seq<Seq<char>>),
)
    requires
        is_unknown_script(files, instance),
    ensures
        with_instance(index, files, instance.0, instance.1).index == index,
        with_instance(index, files, instance.0, instance.1).error == Some(
            metadata_of(files, source_of(instance.0.metadata)->0)->Err_0,
        ),
{
    reveal_strlit("ModuleScript");
    assert("ModuleScript"@ =~= seq![
        'M',
        'o',
        'd',
        'u',
        'l',
        'e',
        'S',
        'c',
        'r',
        'i',
        'p',
        't',
    ]);
}

/// Every module script of a tree stands for its module, under the names that lead to it.
pub proof fn every_module_script_stands_for_its_module(
    files: FilesModel,
    root: SnapshotModel,
    way: Seq<int>,
    node: SnapshotModel,
)
    requires
        with_instances(Seq::empty(), files, placed(root, Seq::empty())).error is None,
        node_at(root, way) == Some(node),
        is_module_script(files, (node, names_at(root, way))),
    ensures
        with_instances(Seq::empty(), files, placed(root, Seq::empty())).index.contains(
            entry_of((node, names_at(root, way))),
        ),
{
    let row = placed(root, Seq::empty());
    let instance = (node, names_at(root, way));
    let wanted = |instance: (SnapshotModel, Seq<Seq<char>>)| is_module_script(files, instance);
    let to_entry = |instance: (SnapshotModel, Seq<Seq<char>>)| entry_of(instance);
    module_scripts_are_indexed(Seq::empty(), files, row);
    every_instance_is_met(root, Seq::empty(), way, node);
    assert(Seq::<Seq<char>>::empty() + names_at(root, way) =~= names_at(root, way));
    let i = choose|i: int| 0 <= i < row.len() && row[i] == instance;
    row.lemma_filter_contains(wanted, i);
    let kept = row.filter(wanted);
    let k = choose|k: int| 0 <= k < kept.len() && kept[k] == instance;
    let entries = kept.map_values(to_entry);
    assert(entries[k] == entry_of(instance));
    let all = Seq::<IndexedModel>::empty() + entries;
    assert(all[k] == entry_of(instance));
}

/// An instance comes from the path that it names. A project node without a path of its own
/// comes from none; one with a relative path comes from below the directory of the project
/// file.
pub proof fn instances_come_from_the_path_they_name(metadata: MetadataModel)
    ensures
        metadata.instigating_source is None ==> source_of(metadata) is None,
        metadata.instigating_source matches Some(InstigatingSource::Path(path)) ==> source_of(
            metadata,
        ) == Some(path),
        metadata.instigating_source matches Some(
            InstigatingSource::ProjectNode { path, node_path },
        ) ==> match node_path {
            None => source_of(metadata) is None,
            Some(node_path) => if node_path.len() > 0 && node_path[0] == '/' {
                source_of(metadata) == Some(node_path)
            } else if components(path).len() == 0 || components(path).last() is Root {
                source_of(metadata) is None
            } else {
                &&& source_of(metadata) is Some
                &&& components(path).len() > 1 ==> components(source_of(metadata)->0)
                    == components(path).drop_last() + below_start(pieces(node_path, false))
                &&& components(path).len() == 1 ==> source_of(metadata) == Some(node_path)
            },
        },
{
    match metadata.instigating_source {
        Some(InstigatingSource::ProjectNode { path, node_path: Some(node_path) }) => {
            parent_drops_last_component(path);
            match parent_of(path) {
                Some(directory) => {
                    crate::laws::paths::joined_paths_go_below(directory, node_path);
                    if components(path).len() == 1 {
                        lemma_shortest_is_empty(path);
                    } else {
                        crate::laws::paths::components_are_the_names_on_the_way(
                            Seq::<char>::empty(),
                        );
                        if directory.len() == 0 {
                            assert(directory =~= Seq::<char>::empty());
                            lemma_empty_path();
                        }
                    }
                },
                None => {},
            }
        },
        _ => {},
    }
}

proof fn lemma_empty_path()
    ensures
        components(Seq::empty()) == Seq::<PathComponent<Seq<char>>>::empty(),
{
    let none = Seq::<char>::empty();
    assert(pieces(none, false) =~= seq![none]);
    crate::laws::paths::components_are_the_names_on_the_way(none);
    reveal(Seq::filter);
    reveal_with_fuel(Seq::filter, 2);
    assert(seq![none].drop_last() =~= Seq::<Seq<char>>::empty());
    assert(below_start(seq![none]) =~= Seq::<PathComponent<Seq<char>>>::empty());
}

proof fn lemma_shortest_is_empty(path: Seq<char>)
    requires
        components(path).len() == 1,
    ensures
        parent_of(path) matches Some(parent) ==> parent.len() == 0,
{
    lemma_empty_path();
    assert(path.take(0) =~= Seq::<char>::empty());
    assert(components(path).drop_last() =~= Seq::<PathComponent<Seq<char>>>::empty());
    crate::laws::paths::parents_are_shortest(path, 0);
}

/// Whether two rows of names agree in exactly their first `count` names.
pub open spec fn agree_up_to(a: Seq<Seq<char>>, b: Seq<Seq<char>>, count: nat) -> bool {
    &&& count <= a.len()
    &&& count <= b.len()
    &&& a.take(count as int) == b.take(count as int)
    &&& count < a.len() && count < b.len() ==> a[count as int] != b[count as int]
}

/// Whether an entry stands for a module.
pub open spec fn stands_for(entry: IndexedModel, path: Seq<char>) -> bool {
    entry.module == components(path)
}

/// Whether entry number `i` stands for a module and is the nearest to an importer: no other
/// shares more of its ancestors, and none that comes later as many.
pub open spec fn is_best(
    index: Seq<IndexedModel>,
    path: Seq<char>,
    importer: Seq<Seq<char>>,
    i: int,
) -> bool {
    &&& 0 <= i < index.len()
    &&& stands_for(index[i], path)
    &&& forall|j: int, count: nat, other: nat|
        {
            &&& 0 <= j < index.len()
            &&& stands_for(#[trigger] index[j], path)
            &&& #[trigger] agree_up_to(importer, index[i].target.instance_path, count)
            &&& #[trigger] agree_up_to(importer, index[j].target.instance_path, other)
        } ==> other <= count && (j > i ==> other < count)
}

proof fn lemma_agree(a: Seq<Seq<char>>, b: Seq<Seq<char>>)
    ensures
        agree_up_to(a, b, common_length(a, b)),
        forall|count: nat| #[trigger] agree_up_to(a, b, count) ==> count == common_length(a, b),
{
    expressions_lead_to_their_target(a, b);
    let common = common_length(a, b);
    assert(a.take(common as int) =~= b.take(common as int)) by {
        assert(a.take(common as int) + b.skip(common as int) == b);
        assert((a.take(common as int) + b.skip(common as int)).take(common as int) =~= a.take(
            common as int,
        ));
    }
    assert forall|count: nat| #[trigger] agree_up_to(a, b, count) implies count == common by {
        if count < common {
            assert(a.take(common as int)[count as int] == b.take(common as int)[count as int]);
        }
        if common < count {
            assert(a.take(count as int)[common as int] == b.take(count as int)[common as int]);
        }
    }
}

/// The instance that stands for a module is the one among its entries that is nearest to
/// the importer. There is one where the module has an entry.
pub proof fn the_nearest_entry_stands_for_a_module(
    index: Seq<IndexedModel>,
    path: Seq<char>,
    importer: Seq<Seq<char>>,
)
    ensures
        target_of(index, path, importer) is None <==> forall|i: int|
            0 <= i < index.len() ==> !stands_for(#[trigger] index[i], path),
        target_of(index, path, importer) matches Some(target) ==> exists|i: int| #[trigger]
            is_best(index, path, importer, i) && index[i].target == target,
    decreases index.len(),
{
    let wanted = |entry: IndexedModel| entry.module == components(path);
    if index.len() == 0 {
        reveal(Seq::filter);
    } else {
        let before = index.drop_last();
        let last = index.len() - 1;
        let entry = index[last];
        the_nearest_entry_stands_for_a_module(before, path, importer);
        assert(index =~= before.push(entry));
        before.lemma_filter_push(entry, wanted);
        assert(forall|i: int| 0 <= i < before.len() ==> before[i] == index[i]);
        let entries = entries_at(before, components(path));
        if !stands_for(entry, path) {
            assert(entries_at(index, components(path)) == entries);
            if target_of(index, path, importer) is Some {
                let i = choose|i: int| #[trigger]
                    is_best(before, path, importer, i) && before[i].target == target_of(
                        index,
                        path,
                        importer,
                    )->0;
                lemma_best_stays(index, path, importer, i);
                let k = choose|k: int|
                    0 <= k < before.len() && stands_for(#[trigger] before[k], path);
                assert(stands_for(index[k], path));
            } else {
                assert forall|i: int| 0 <= i < index.len() implies !stands_for(
                    #[trigger] index[i],
                    path,
                ) by {
                    if i < last {
                        assert(before[i] == index[i]);
                    }
                }
            }
        } else {
            assert(entries_at(index, components(path)) == entries.push(entry));
            assert(entries.push(entry).drop_last() =~= entries);
            assert(stands_for(index[last], path));
            lemma_agree(importer, entry.target.instance_path);
            match nearest(entries, importer) {
                Some(best) => {
                    let i = choose|i: int| #[trigger]
                        is_best(before, path, importer, i) && before[i].target == best;
                    lemma_agree(importer, best.instance_path);
                    if common_length(importer, best.instance_path) > common_length(
                        importer,
                        entry.target.instance_path,
                    ) {
                        lemma_best_stays(index, path, importer, i);
                    } else {
                        lemma_best_changes(index, path, importer, i);
                    }
                },
                None => {
                    lemma_only_one(index, path, importer);
                },
            }
        }
    }
}

proof fn lemma_best_stays(
    index: Seq<IndexedModel>,
    path: Seq<char>,
    importer: Seq<Seq<char>>,
    i: int,
)
    requires
        index.len() > 0,
        is_best(index.drop_last(), path, importer, i),
        !stands_for(index.last(), path) || common_length(
            importer,
            index[i].target.instance_path,
        ) > common_length(importer, index.last().target.instance_path),
    ensures
        is_best(index, path, importer, i),
{
    let before = index.drop_last();
    assert(before[i] == index[i]);
    lemma_agree(importer, index[i].target.instance_path);
    assert forall|j: int, count: nat, other: nat|
        {
            &&& 0 <= j < index.len()
            &&& stands_for(#[trigger] index[j], path)
            &&& #[trigger] agree_up_to(importer, index[i].target.instance_path, count)
            &&& #[trigger] agree_up_to(importer, index[j].target.instance_path, other)
        } implies other <= count && (j > i ==> other < count) by {
        if j < before.len() {
            assert(before[j] == index[j]);
            assert(stands_for(before[j], path));
            assert(agree_up_to(importer, before[i].target.instance_path, count));
            assert(agree_up_to(importer, before[j].target.instance_path, other));
        } else {
            lemma_agree(importer, index[j].target.instance_path);
        }
    }
}

proof fn lemma_best_changes(
    index: Seq<IndexedModel>,
    path: Seq<char>,
    importer: Seq<Seq<char>>,
    i: int,
)
    requires
        index.len() > 0,
        is_best(index.drop_last(), path, importer, i),
        stands_for(index.last(), path),
        common_length(importer, index[i].target.instance_path) <= common_length(
            importer,
            index.last().target.instance_path,
        ),
    ensures
        is_best(index, path, importer, index.len() - 1),
{
    let before = index.drop_last();
    let last = index.len() - 1;
    assert(before[i] == index[i]);
    lemma_agree(importer, index[i].target.instance_path);
    lemma_agree(importer, index[last].target.instance_path);
    assert forall|j: int, count: nat, other: nat|
        {
            &&& 0 <= j < index.len()
            &&& stands_for(#[trigger] index[j], path)
            &&& #[trigger] agree_up_to(importer, index[last].target.instance_path, count)
            &&& #[trigger] agree_up_to(importer, index[j].target.instance_path, other)
        } implies other <= count && (j > last ==> other < count) by {
        if j < last {
            assert(before[j] == index[j]);
            assert(stands_for(before[j], path));
            let best = common_length(importer, before[i].target.instance_path);
            assert(agree_up_to(importer, before[i].target.instance_path, best));
            assert(agree_up_to(importer, before[j].target.instance_path, other));
        }
    }
}

proof fn lemma_only_one(index: Seq<IndexedModel>, path: Seq<char>, importer: Seq<Seq<char>>)
    requires
        index.len() > 0,
        stands_for(index.last(), path),
        forall|i: int| 0 <= i < index.len() - 1 ==> !stands_for(#[trigger] index[i], path),
    ensures
        is_best(index, path, importer, index.len() - 1),
{
    let last = index.len() - 1;
    lemma_agree(importer, index[last].target.instance_path);
}

/// What a path leads to: the instance that stands for it, or else the one that stands for
/// its canonical form.
pub proof fn paths_lead_by_their_canonical_form(
    index: Seq<IndexedModel>,
    files: FilesModel,
    path: Seq<char>,
    importer: Seq<Seq<char>>,
)
    ensures
        target_of(index, path, importer) matches Some(target) ==> target_of_path(
            index,
            files,
            path,
            importer,
        ) == Ok::<Option<TargetModel>, Error<Seq<char>>>(Some(target)),
        target_of(index, path, importer) is None ==> target_of_path(index, files, path, importer)
            == if !files.canonical.contains_key(path) {
            Err(Error::Unanswered(FileQuery { kind: QueryKind::Canonical, path }))
        } else {
            match files.canonical[path] {
                Err(detail) => Err(Error::Io { detail }),
                Ok(None) => Ok(None),
                Ok(Some(canonical)) => Ok(target_of(index, canonical, importer)),
            }
        },
{
}

/// A path with the extension of a module leads to what stands for it. Any other is tried
/// with `.luau`, then with `.lua`, then as it is; the first that leads to an instance
/// counts.
pub proof fn modules_are_tried_in_order(
    index: Seq<IndexedModel>,
    files: FilesModel,
    path: Seq<char>,
    importer: Seq<Seq<char>>,
)
    ensures
        ({
            let none = Ok::<Option<TargetModel>, Error<Seq<char>>>(None);
            let luau = target_of_path(
                index,
                files,
                path + seq!['.', 'l', 'u', 'a', 'u'],
                importer,
            );
            let lua = target_of_path(index, files, path + seq!['.', 'l', 'u', 'a'], importer);
            target_of_module(index, files, path, importer) == if is_luau_file(path) {
                target_of_path(index, files, path, importer)
            } else if luau != none {
                luau
            } else if lua != none {
                lua
            } else {
                target_of_path(index, files, path, importer)
            }
        }),
{
    reveal_strlit("lua");
    reveal_strlit("luau");
    assert(path.push('.') + "luau"@ =~= path + seq!['.', 'l', 'u', 'a', 'u']);
    assert(path.push('.') + "lua"@ =~= path + seq!['.', 'l', 'u', 'a']);
}

/// Whether an entry stands neither at an instance nor below it.
pub open spec fn stands_elsewhere(entry: IndexedModel, instance_path: Seq<Seq<char>>) -> bool {
    let own = entry.target.instance_path;
    !(instance_path.len() <= own.len() && own.take(instance_path.len() as int) == instance_path)
}

/// Whether an entry comes neither from a path nor from below it.
pub open spec fn comes_from_elsewhere(entry: IndexedModel, source_path: Seq<char>) -> bool {
    let base = components(source_path);
    let own = components(entry.target.source_path);
    !(base.len() <= own.len() && own.take(base.len() as int) == base)
}

/// Removing an instance takes out what stood there and below, removing a source what came
/// from there and from below; the rest stays, in its order.
pub proof fn removals_take_out_what_is_gone(
    index: Seq<IndexedModel>,
    instance_path: Seq<Seq<char>>,
    source_path: Seq<char>,
)
    ensures
        without_instances(index, instance_path) == index.filter(
            |entry: IndexedModel| stands_elsewhere(entry, instance_path),
        ),
        without_sources(index, source_path) == index.filter(
            |entry: IndexedModel| comes_from_elsewhere(entry, source_path),
        ),
{
    lemma_same_kept(
        index,
        |entry: IndexedModel| !instance_path.is_prefix_of(entry.target.instance_path),
        |entry: IndexedModel| stands_elsewhere(entry, instance_path),
    );
    lemma_same_kept(
        index,
        |entry: IndexedModel| !path_within(entry.target.source_path, source_path),
        |entry: IndexedModel| comes_from_elsewhere(entry, source_path),
    );
}

proof fn lemma_same_kept(
    row: Seq<IndexedModel>,
    a: spec_fn(IndexedModel) -> bool,
    b: spec_fn(IndexedModel) -> bool,
)
    requires
        forall|entry: IndexedModel| #[trigger] a(entry) == b(entry),
    ensures
        row.filter(a) == row.filter(b),
    decreases row.len(),
{
    reveal(Seq::filter);
    if row.len() > 0 {
        lemma_same_kept(row.drop_last(), a, b);
        assert(a(row.last()) == b(row.last()));
    }
}

/// The place of a part of the tree that is replaced; without one it is a root.
pub open spec fn place_of(
    snapshot: SnapshotModel,
    instance_path: Option<Seq<Seq<char>>>,
) -> Seq<Seq<char>> {
    match instance_path {
        Some(path) => path,
        None => seq![snapshot.name],
    }
}

/// The place that the names of a part of the tree go on from.
pub open spec fn place_above(instance_path: Option<Seq<Seq<char>>>) -> Seq<Seq<char>> {
    match instance_path {
        Some(path) => if path.len() > 0 {
            path.take(path.len() - 1)
        } else {
            path
        },
        None => Seq::empty(),
    }
}

/// The place above an instance is that of all its names but the last.
pub proof fn places_above_drop_a_name(instance_path: Option<Seq<Seq<char>>>)
    ensures
        parent_instance(instance_path) == place_above(instance_path),
{
    match instance_path {
        Some(path) => {
            if path.len() > 0 {
                assert(path.take(path.len() - 1) =~= path.drop_last());
            }
        },
        None => {},
    }
}

/// A part of the tree that is replaced loses the entries that stood there and below, and
/// its module scripts take their place, under the names of the instances above it.
pub proof fn replaced_parts_are_indexed_anew(
    index: Seq<IndexedModel>,
    files: FilesModel,
    snapshot: SnapshotModel,
    instance_path: Option<Seq<Seq<char>>>,
)
    requires
        keyed_by_source(index),
    ensures
        with_snapshot(index, files, snapshot, instance_path).error is None <==> forall|i: int|
            0 <= i < placed(snapshot, place_above(instance_path)).len() ==> !is_unknown_script(
                files,
                #[trigger] placed(snapshot, place_above(instance_path))[i],
            ),
        with_snapshot(index, files, snapshot, instance_path).error is None ==> with_snapshot(
            index,
            files,
            snapshot,
            instance_path,
        ).index == index.filter(
            |entry: IndexedModel| stands_elsewhere(entry, place_of(snapshot, instance_path)),
        ) + placed(snapshot, place_above(instance_path)).filter(
            |instance: (SnapshotModel, Seq<Seq<char>>)| is_module_script(files, instance),
        ).map_values(|instance: (SnapshotModel, Seq<Seq<char>>)| entry_of(instance)),
{
    let removed = place_of(snapshot, instance_path);
    removals_take_out_what_is_gone(index, removed, Seq::empty());
    crate::module_index::removal_keeps_keys(index, removed, Seq::empty());
    places_above_drop_a_name(instance_path);
    module_scripts_are_indexed(
        without_instances(index, removed),
        files,
        placed(snapshot, place_above(instance_path)),
    );
    assert(with_snapshot(index, files, snapshot, instance_path) == with_instances(
        without_instances(index, removed),
        files,
        placed(snapshot, place_above(instance_path)),
    ));
    assert(index.filter(|entry: IndexedModel| stands_elsewhere(entry, removed)) == index.filter(
        |entry: IndexedModel| stands_elsewhere(entry, place_of(snapshot, instance_path)),
    ));
}

} // verus!
