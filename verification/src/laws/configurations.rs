//! Which aliases are in force.

use vstd::prelude::*;

use crate::config::{
    ancestors, declarations_hide_earlier_ones, directory_of, is_last_declaration, is_undeclared,
    loaded, lower_text, valid_alias_name, with_aliases, with_directories, with_directory,
    AliasConfigModel, AliasDefinition,
};
use crate::config_luau::{run_aliases, sorted_pairs, ConfigRun, RunModel};
use crate::drives::{local_value, local_values, parent_on, parents_are_shorter};
use crate::error::{ConfigStage, Error};
use crate::files::{aliases_of, metadata_of, run_of, FileKind, FilesModel};
use crate::laws::aliases::key_of;
use crate::paths::{components, joined, parent_drops_last_component, parent_of};

verus! {

/// What is known to stand at a path.
pub open spec fn known_kind(files: FilesModel, path: Seq<char>) -> Option<Option<FileKind>> {
    if files.metadata.contains_key(path) {
        match files.metadata[path] {
            Ok(kind) => Some(kind),
            Err(_) => None,
        }
    } else {
        None
    }
}

/// The configuration files that a directory may hold.
pub open spec fn luaurc_in(directory: Seq<char>) -> Seq<char> {
    joined(directory, seq!['.', 'l', 'u', 'a', 'u', 'r', 'c'])
}

/// The configuration files that a directory may hold.
pub open spec fn config_luau_in(directory: Seq<char>) -> Seq<char> {
    joined(directory, seq!['.', 'c', 'o', 'n', 'f', 'i', 'g', '.', 'l', 'u', 'a', 'u'])
}

proof fn lemma_file_names()
    ensures
        ".luaurc"@ == seq!['.', 'l', 'u', 'a', 'u', 'r', 'c'],
        ".config.luau"@ == seq!['.', 'c', 'o', 'n', 'f', 'i', 'g', '.', 'l', 'u', 'a', 'u'],
{
    reveal_strlit(".luaurc");
    reveal_strlit(".config.luau");
    assert(".luaurc"@ =~= seq!['.', 'l', 'u', 'a', 'u', 'r', 'c']);
    assert(".config.luau"@ =~= seq!['.', 'c', 'o', 'n', 'f', 'i', 'g', '.', 'l', 'u', 'a', 'u']);
}

/// Whether a directory declares these names and values, in this order, in this file.
pub open spec fn declares(
    files: FilesModel,
    directory: Seq<char>,
    file: Seq<char>,
    declared: Seq<(Seq<char>, Seq<char>)>,
) -> bool {
    let luaurc = known_kind(files, luaurc_in(directory));
    let config_luau = known_kind(files, config_luau_in(directory));
    ||| {
        &&& luaurc matches Some(Some(_))
        &&& config_luau == Some(None::<FileKind>)
        &&& file == luaurc_in(directory)
        &&& files.aliases.contains_key(file)
        &&& files.aliases[file] == Ok::<_, Seq<char>>(declared)
    }
    ||| {
        &&& luaurc == Some(None::<FileKind>)
        &&& config_luau matches Some(Some(_))
        &&& file == config_luau_in(directory)
        &&& files.runs.contains_key(file)
        &&& files.runs[file] matches Ok(run) && gives(run, declared)
    }
    ||| {
        &&& luaurc == Some(None::<FileKind>)
        &&& config_luau == Some(None::<FileKind>)
        &&& declared.len() == 0
    }
}

/// Whether the run of a file gives these names and values.
pub open spec fn gives(run: RunModel, declared: Seq<(Seq<char>, Seq<char>)>) -> bool {
    match run {
        ConfigRun::NoLuau => declared.len() == 0,
        ConfigRun::NoAliases => declared.len() == 0,
        ConfigRun::Pairs(pairs) => declared == sorted_pairs(pairs),
        _ => false,
    }
}

/// Each way in which a run ends without aliases is an error of its own.
pub proof fn failed_runs_are_errors(path: Seq<char>, run: RunModel)
    ensures
        run_aliases(path, run) matches Ok(declared) ==> gives(run, declared),
        forall|declared: Seq<(Seq<char>, Seq<char>)>| #[trigger]
            gives(run, declared) ==> run_aliases(path, run) == Ok::<_, Error<Seq<char>>>(declared),
        run matches ConfigRun::NoSandbox(detail) ==> run_aliases(path, run) == Err::<
            Seq<(Seq<char>, Seq<char>)>,
            _,
        >(Error::Config { path, stage: ConfigStage::Sandbox, detail }),
        run matches ConfigRun::Failed(detail) ==> run_aliases(path, run) == Err::<
            Seq<(Seq<char>, Seq<char>)>,
            _,
        >(Error::Config { path, stage: ConfigStage::Execution, detail }),
        run is NoTable ==> run_aliases(path, run) == Err::<Seq<(Seq<char>, Seq<char>)>, _>(
            Error::Config { path, stage: ConfigStage::Result, detail: Seq::empty() },
        ),
        run matches ConfigRun::BadLuau(detail) ==> run_aliases(path, run) == Err::<
            Seq<(Seq<char>, Seq<char>)>,
            _,
        >(Error::Config { path, stage: ConfigStage::LuauField, detail }),
        run matches ConfigRun::BadAliases(detail) ==> run_aliases(path, run) == Err::<
            Seq<(Seq<char>, Seq<char>)>,
            _,
        >(Error::Config { path, stage: ConfigStage::AliasesField, detail }),
        run matches ConfigRun::BadPair(detail) ==> run_aliases(path, run) == Err::<
            Seq<(Seq<char>, Seq<char>)>,
            _,
        >(Error::Config { path, stage: ConfigStage::Alias, detail }),
{
    assert forall|declared: Seq<(Seq<char>, Seq<char>)>| #[trigger] gives(run, declared) implies
        run_aliases(path, run) == Ok::<_, Error<Seq<char>>>(declared) by {
        if declared.len() == 0 {
            assert(declared == Seq::<(Seq<char>, Seq<char>)>::empty());
        }
    }
}

/// Values are written for the host; names and their order stay.
proof fn lemma_local_values(
    before: AliasConfigModel,
    after: AliasConfigModel,
    declared: Seq<(Seq<char>, Seq<char>)>,
    directory: Seq<char>,
    file: Seq<char>,
    key: Seq<char>,
    drives: bool,
)
    ensures
        names_are_valid(local_values(declared, drives)) == names_are_valid(declared),
        takes_over(
            before,
            after,
            local_values(declared, drives),
            directory,
            file,
            key,
            false,
        ) ==> takes_over(before, after, declared, directory, file, key, drives),
{
    let local = local_values(declared, drives);
    assert(local.len() == declared.len());
    assert forall|i: int| 0 <= i < declared.len() implies (#[trigger] local[i]) == (
        declared[i].0,
        local_value(declared[i].1, drives),
    ) by {}
    if names_are_valid(declared) {
        assert forall|i: int| 0 <= i < local.len() implies valid_alias_name(
            (#[trigger] local[i]).0,
        ) by {
            assert(valid_alias_name(declared[i].0));
        }
    }
    if names_are_valid(local) {
        assert forall|i: int| 0 <= i < declared.len() implies valid_alias_name(
            (#[trigger] declared[i]).0,
        ) by {
            assert(valid_alias_name(local[i].0));
        }
    }
    if takes_over(before, after, local, directory, file, key, false) {
        assert forall|i: int| #[trigger] is_last(declared, i, key) implies
            after.aliases.contains_key(key) && after.aliases[key] == (AliasDefinition {
            value: local_value(declared[i].1, drives),
            base_directory: directory,
            source: file,
        }) by {
            assert forall|j: int| i < j < local.len() implies key_of((#[trigger] local[j]).0)
                != key by {
                assert(key_of(declared[j].0) != key);
            }
            assert(is_last(local, i, key));
            assert(local_value(local[i].1, false) == local[i].1);
        }
        if is_none(declared, key) {
            assert forall|i: int| 0 <= i < local.len() implies key_of((#[trigger] local[i]).0)
                != key by {
                assert(key_of(declared[i].0) != key);
            }
            assert(is_none(local, key));
        }
    }
}

/// A file with a name that no alias can have is refused, with the first such name; any
/// other is accepted.
pub proof fn invalid_names_are_refused(
    config: AliasConfigModel,
    declared: Seq<(Seq<char>, Seq<char>)>,
    directory: Seq<char>,
    path: Seq<char>,
)
    ensures
        with_aliases(config, declared, directory, path) is Ok <==> forall|i: int|
            0 <= i < declared.len() ==> valid_alias_name((#[trigger] declared[i]).0),
        forall|i: int|
            0 <= i < declared.len() && !valid_alias_name((#[trigger] declared[i]).0) && (forall|
                j: int,
            |
                0 <= j < i ==> valid_alias_name((#[trigger] declared[j]).0)) ==> with_aliases(
                config,
                declared,
                directory,
                path,
            ) == Err::<AliasConfigModel, _>(Error::InvalidAliasName { name: declared[i].0, path }),
    decreases declared.len(),
{
    if declared.len() > 0 {
        let before = declared.drop_last();
        invalid_names_are_refused(config, before, directory, path);
        assert(forall|i: int| 0 <= i < before.len() ==> before[i] == declared[i]);
        let last = declared.len() - 1;
        assert(declared.last() == declared[last]);
        if with_aliases(config, declared, directory, path) is Ok {
            assert forall|i: int| 0 <= i < declared.len() implies valid_alias_name(
                (#[trigger] declared[i]).0,
            ) by {
                if i < last {
                    assert(before[i] == declared[i]);
                }
            }
        }
        if forall|i: int|
            0 <= i < declared.len() ==> valid_alias_name((#[trigger] declared[i]).0) {
            assert forall|i: int| 0 <= i < before.len() implies valid_alias_name(
                (#[trigger] before[i]).0,
            ) by {
                assert(before[i] == declared[i]);
            }
            assert(valid_alias_name(declared[last].0));
        }
        assert forall|i: int|
            0 <= i < declared.len() && !valid_alias_name((#[trigger] declared[i]).0) && (forall|
                j: int,
            |
                0 <= j < i ==> valid_alias_name((#[trigger] declared[j]).0)) implies with_aliases(
            config,
            declared,
            directory,
            path,
        ) == Err::<AliasConfigModel, _>(
            Error::InvalidAliasName { name: declared[i].0, path },
        ) by {
            if i < last {
                assert(before[i] == declared[i]);
                assert forall|j: int| 0 <= j < i implies valid_alias_name(
                    (#[trigger] before[j]).0,
                ) by {
                    assert(before[j] == declared[j]);
                }
            } else {
                assert forall|j: int| 0 <= j < before.len() implies valid_alias_name(
                    (#[trigger] before[j]).0,
                ) by {
                    assert(before[j] == declared[j]);
                }
            }
        }
    }
}

/// A directory with both configuration files is refused.
pub proof fn two_files_in_one_directory_are_refused(
    files: FilesModel,
    config: AliasConfigModel,
    directory: Seq<char>,
)
    requires
        known_kind(files, luaurc_in(directory)) matches Some(Some(_)),
        known_kind(files, config_luau_in(directory)) matches Some(Some(_)),
    ensures
        with_directory(files, config, directory) == Err::<AliasConfigModel, _>(
            Error::TwoConfigurations { directory },
        ),
{
    lemma_file_names();
}

/// A directory fails with what is wrong with its files: first where it is not known which of
/// them are there, then where what is there cannot be read.
pub proof fn directories_fail_with_their_files(
    files: FilesModel,
    config: AliasConfigModel,
    directory: Seq<char>,
)
    ensures
        ({
            let luaurc = luaurc_in(directory);
            let config_luau = config_luau_in(directory);
            let result = with_directory(files, config, directory);
            &&& known_kind(files, luaurc) is None ==> result == Err::<AliasConfigModel, _>(
                metadata_of(files, luaurc)->Err_0,
            )
            &&& known_kind(files, luaurc) is Some && known_kind(files, config_luau) is None
                ==> result == Err::<AliasConfigModel, _>(metadata_of(files, config_luau)->Err_0)
            &&& (known_kind(files, luaurc) matches Some(Some(_))) && known_kind(files, config_luau)
                == Some(None::<FileKind>) && aliases_of(files, luaurc) is Err ==> result == Err::<
                AliasConfigModel,
                _,
            >(aliases_of(files, luaurc)->Err_0)
            &&& known_kind(files, luaurc) == Some(None::<FileKind>) && (known_kind(
                files,
                config_luau,
            ) matches Some(Some(_))) && run_of(files, config_luau) is Err ==> result == Err::<
                AliasConfigModel,
                _,
            >(run_of(files, config_luau)->Err_0)
            &&& known_kind(files, luaurc) == Some(None::<FileKind>) && (known_kind(
                files,
                config_luau,
            ) matches Some(Some(_))) ==> (run_of(files, config_luau) matches Ok(run) ==> (
            run_aliases(config_luau, run) matches Err(e) ==> result == Err::<AliasConfigModel, _>(
                e,
            )))
        }),
{
    lemma_file_names();
}

/// The outermost directory that fails decides how all of them fail.
pub proof fn the_first_failing_directory_decides(
    files: FilesModel,
    directories: Seq<Seq<char>>,
    i: int,
)
    requires
        0 <= i < directories.len(),
        with_directories(files, directories.take(i)) is Ok,
        with_directory(
            files,
            with_directories(files, directories.take(i))->Ok_0,
            directories[i],
        ) is Err,
    ensures
        with_directories(files, directories) == Err::<AliasConfigModel, Error<Seq<char>>>(
            with_directory(
                files,
                with_directories(files, directories.take(i))->Ok_0,
                directories[i],
            )->Err_0,
        ),
    decreases directories.len(),
{
    let last = directories.len() - 1;
    let outer = directories.drop_last();
    if i == last {
        assert(outer =~= directories.take(i));
        assert(directories.last() == directories[i]);
    } else {
        assert(outer.take(i) =~= directories.take(i));
        assert(outer[i] == directories[i]);
        the_first_failing_directory_decides(files, outer, i);
    }
}

/// Whether all that a directory declares has a name that an alias can have.
pub open spec fn names_are_valid(declared: Seq<(Seq<char>, Seq<char>)>) -> bool {
    forall|i: int| 0 <= i < declared.len() ==> valid_alias_name((#[trigger] declared[i]).0)
}

/// What a directory adds to the aliases of those above it: what its file declares, and both
/// names of the file to what matters.
pub proof fn directories_add_what_they_declare(
    files: FilesModel,
    config: AliasConfigModel,
    directory: Seq<char>,
    key: Seq<char>,
)
    ensures
        with_directory(files, config, directory) matches Ok(after) ==> {
            &&& after.relevant_paths == config.relevant_paths + seq![
                luaurc_in(directory),
                config_luau_in(directory),
            ]
            &&& after.drives == config.drives
            &&& exists|file: Seq<char>, declared: Seq<(Seq<char>, Seq<char>)>|
                {
                    &&& #[trigger] declares(files, directory, file, declared)
                    &&& names_are_valid(declared)
                    &&& takes_over(config, after, declared, directory, file, key, files.drives)
                }
        },
        forall|file: Seq<char>, declared: Seq<(Seq<char>, Seq<char>)>| #[trigger]
            declares(files, directory, file, declared) && names_are_valid(declared)
                ==> with_directory(files, config, directory) is Ok,
{
    lemma_file_names();
    let luaurc = luaurc_in(directory);
    let config_luau = config_luau_in(directory);
    let watching = AliasConfigModel {
        relevant_paths: config.relevant_paths.push(luaurc).push(config_luau),
        ..config
    };
    assert(watching.relevant_paths == config.relevant_paths + seq![luaurc, config_luau]);
    if files.aliases.contains_key(luaurc) && files.aliases[luaurc] is Ok {
        let declared = files.aliases[luaurc]->Ok_0;
        let local = local_values(declared, files.drives);
        lemma_declared(watching, local, directory, luaurc, key);
        if with_aliases(watching, local, directory, luaurc) is Ok {
            let after = with_aliases(watching, local, directory, luaurc)->Ok_0;
            lemma_local_values(watching, after, declared, directory, luaurc, key, files.drives);
        } else {
            lemma_local_values(watching, watching, declared, directory, luaurc, key, files.drives);
        }
    }
    if files.runs.contains_key(config_luau) && files.runs[config_luau] is Ok {
        let run = files.runs[config_luau]->Ok_0;
        failed_runs_are_errors(config_luau, run);
        if run_aliases(config_luau, run) is Ok {
            let declared = run_aliases(config_luau, run)->Ok_0;
            let local = local_values(declared, files.drives);
            lemma_declared(watching, local, directory, config_luau, key);
            let after = match with_aliases(watching, local, directory, config_luau) {
                Ok(after) => after,
                Err(_) => watching,
            };
            lemma_local_values(
                watching,
                after,
                declared,
                directory,
                config_luau,
                key,
                files.drives,
            );
        }
    }
    if with_directory(files, config, directory) is Ok {
        let after = with_directory(files, config, directory)->Ok_0;
        if known_kind(files, luaurc) == Some(None::<FileKind>) && known_kind(files, config_luau)
            == Some(None::<FileKind>) {
            let none = Seq::<(Seq<char>, Seq<char>)>::empty();
            assert(declares(files, directory, luaurc, none));
            assert(takes_over(config, after, none, directory, luaurc, key, files.drives));
        } else if known_kind(files, luaurc) matches Some(Some(_)) {
            let declared = files.aliases[luaurc]->Ok_0;
            assert(declares(files, directory, luaurc, declared));
            assert(takes_over(config, after, declared, directory, luaurc, key, files.drives));
        } else {
            let declared = run_aliases(config_luau, files.runs[config_luau]->Ok_0)->Ok_0;
            assert(declares(files, directory, config_luau, declared));
            assert(takes_over(
                config,
                after,
                declared,
                directory,
                config_luau,
                key,
                files.drives,
            ));
        }
    }
}

/// Whether a name means after a file what its last declaration there says, or what it meant
/// before where the file does not declare it.
pub open spec fn takes_over(
    before: AliasConfigModel,
    after: AliasConfigModel,
    declared: Seq<(Seq<char>, Seq<char>)>,
    directory: Seq<char>,
    file: Seq<char>,
    key: Seq<char>,
    drives: bool,
) -> bool {
    &&& forall|i: int| #[trigger]
        is_last(declared, i, key) ==> after.aliases.contains_key(key) && after.aliases[key] == (
        AliasDefinition {
            value: local_value(declared[i].1, drives),
            base_directory: directory,
            source: file,
        })
    &&& is_none(declared, key) ==> after.aliases.contains_key(key) == before.aliases.contains_key(
        key,
    ) && (before.aliases.contains_key(key) ==> after.aliases[key] == before.aliases[key])
}

/// Whether declaration number `i` is the last of a name, whatever its case.
pub open spec fn is_last(
    declared: Seq<(Seq<char>, Seq<char>)>,
    i: int,
    key: Seq<char>,
) -> bool {
    &&& 0 <= i < declared.len()
    &&& key_of(declared[i].0) == key
    &&& forall|j: int| i < j < declared.len() ==> key_of((#[trigger] declared[j]).0) != key
}

/// Whether no declaration is one of a name, whatever its case.
pub open spec fn is_none(declared: Seq<(Seq<char>, Seq<char>)>, key: Seq<char>) -> bool {
    forall|i: int| 0 <= i < declared.len() ==> key_of((#[trigger] declared[i]).0) != key
}

proof fn lemma_declared(
    config: AliasConfigModel,
    declared: Seq<(Seq<char>, Seq<char>)>,
    directory: Seq<char>,
    file: Seq<char>,
    key: Seq<char>,
)
    ensures
        with_aliases(config, declared, directory, file) is Ok <==> names_are_valid(declared),
        with_aliases(config, declared, directory, file) matches Ok(after) ==> {
            &&& after.relevant_paths == config.relevant_paths
            &&& after.drives == config.drives
            &&& takes_over(config, after, declared, directory, file, key, false)
        },
{
    invalid_names_are_refused(config, declared, directory, file);
    declarations_hide_earlier_ones(config, declared, directory, file, key);
    lemma_drives(config, declared, directory, file);
    assert forall|i: int| 0 <= i < declared.len() implies lower_text(
        (#[trigger] declared[i]).0,
    ) == key_of(declared[i].0) by {
        assert(lower_text(declared[i].0) =~= key_of(declared[i].0));
    }
    assert forall|i: int| #[trigger] is_last(declared, i, key) implies is_last_declaration(
        declared,
        i,
        key,
    ) by {
        assert(lower_text(declared[i].0) == key_of(declared[i].0));
        assert forall|j: int| i < j < declared.len() implies lower_text(
            #[trigger] declared[j].0,
        ) != key by {
            assert(key_of(declared[j].0) != key);
        }
    }
    if is_none(declared, key) {
        assert forall|i: int| 0 <= i < declared.len() implies lower_text(
            #[trigger] declared[i].0,
        ) != key by {
            assert(key_of(declared[i].0) != key);
        }
        assert(is_undeclared(declared, key));
    }
}

proof fn lemma_drives(
    config: AliasConfigModel,
    declared: Seq<(Seq<char>, Seq<char>)>,
    directory: Seq<char>,
    file: Seq<char>,
)
    ensures
        with_aliases(config, declared, directory, file) matches Ok(after) ==> after.drives
            == config.drives,
    decreases declared.len(),
{
    if declared.len() > 0 {
        lemma_drives(config, declared.drop_last(), directory, file);
    }
}

/// Whether a directory declares a name.
pub open spec fn declares_name(files: FilesModel, directory: Seq<char>, key: Seq<char>) -> bool {
    exists|file: Seq<char>, declared: Seq<(Seq<char>, Seq<char>)>| #[trigger]
        declares(files, directory, file, declared) && !is_none(declared, key)
}

/// Whether a directory declares a name last with a value, in a file.
pub open spec fn declares_as(
    files: FilesModel,
    directory: Seq<char>,
    key: Seq<char>,
    definition: AliasDefinition<Seq<char>>,
) -> bool {
    exists|declared: Seq<(Seq<char>, Seq<char>)>, i: int|
        {
            &&& #[trigger] declares(files, directory, definition.source, declared)
            &&& #[trigger] is_last(declared, i, key)
            &&& definition.value == local_value(declared[i].1, files.drives)
            &&& definition.base_directory == directory
        }
}

/// Of several directories the innermost that declares a name decides what it means, and a
/// name that none of them declares means nothing.
pub proof fn inner_directories_decide(
    files: FilesModel,
    directories: Seq<Seq<char>>,
    key: Seq<char>,
)
    ensures
        with_directories(files, directories) matches Ok(config) ==> {
            &&& config.drives == files.drives
            &&& config.aliases.contains_key(key) <==> exists|i: int|
                0 <= i < directories.len() && declares_name(files, #[trigger] directories[i], key)
            &&& config.aliases.contains_key(key) ==> exists|i: int|
                {
                    &&& 0 <= i < directories.len()
                    &&& declares_as(files, #[trigger] directories[i], key, config.aliases[key])
                    &&& forall|j: int|
                        i < j < directories.len() ==> !declares_name(
                            files,
                            #[trigger] directories[j],
                            key,
                        )
                }
        },
    decreases directories.len(),
{
    if directories.len() > 0 && with_directories(files, directories) is Ok {
        let outer = directories.drop_last();
        let last = directories.len() - 1;
        inner_directories_decide(files, outer, key);
        let before = with_directories(files, outer)->Ok_0;
        let config = with_directories(files, directories)->Ok_0;
        let here = directories[last];
        assert(here == directories.last());
        assert(forall|i: int| 0 <= i < outer.len() ==> outer[i] == directories[i]);
        directories_add_what_they_declare(files, before, here, key);
        let (file, declared) = choose|file: Seq<char>, declared: Seq<(Seq<char>, Seq<char>)>|
            {
                &&& #[trigger] declares(files, here, file, declared)
                &&& names_are_valid(declared)
                &&& takes_over(before, config, declared, here, file, key, files.drives)
            };
        lemma_declares_once(files, here, file, declared);
        if is_none(declared, key) {
            assert(!declares_name(files, here, key));
            if config.aliases.contains_key(key) {
                let i = choose|i: int|
                    {
                        &&& 0 <= i < outer.len()
                        &&& declares_as(files, #[trigger] outer[i], key, before.aliases[key])
                        &&& forall|j: int|
                            i < j < outer.len() ==> !declares_name(
                                files,
                                #[trigger] outer[j],
                                key,
                            )
                    };
                assert(declares_as(files, directories[i], key, config.aliases[key]));
                assert forall|j: int| i < j < directories.len() implies !declares_name(
                    files,
                    #[trigger] directories[j],
                    key,
                ) by {
                    if j < last {
                        assert(outer[j] == directories[j]);
                    }
                }
                let k = choose|k: int|
                    0 <= k < outer.len() && declares_name(files, #[trigger] outer[k], key);
                assert(declares_name(files, directories[k], key));
            } else if exists|i: int|
                0 <= i < directories.len() && declares_name(
                    files,
                    #[trigger] directories[i],
                    key,
                ) {
                let i = choose|i: int|
                    0 <= i < directories.len() && declares_name(
                        files,
                        #[trigger] directories[i],
                        key,
                    );
                assert(outer[i] == directories[i]);
            }
        } else {
            let i = lemma_last(declared, key);
            assert(is_last(declared, i, key));
            assert(declares_name(files, here, key));
            let definition = config.aliases[key];
            assert(definition.source == file);
            assert(declares(files, here, definition.source, declared));
            assert(declares_as(files, here, key, definition));
            assert(declares_as(files, directories[last], key, config.aliases[key]));
        }
    }
}

/// A name that is declared has a last declaration.
proof fn lemma_last(declared: Seq<(Seq<char>, Seq<char>)>, key: Seq<char>) -> (i: int)
    requires
        !is_none(declared, key),
    ensures
        is_last(declared, i, key),
    decreases declared.len(),
{
    let last = declared.len() - 1;
    let some = choose|some: int|
        0 <= some < declared.len() && key_of((#[trigger] declared[some]).0) == key;
    if key_of(declared[last].0) == key {
        last
    } else {
        let before = declared.drop_last();
        assert(before[some] == declared[some]);
        let i = lemma_last(before, key);
        assert(before[i] == declared[i]);
        assert forall|j: int| i < j < declared.len() implies key_of((#[trigger] declared[j]).0)
            != key by {
            if j < last {
                assert(before[j] == declared[j]);
            }
        }
        i
    }
}

/// A directory has one row of declarations.
proof fn lemma_declares_once(
    files: FilesModel,
    directory: Seq<char>,
    file: Seq<char>,
    declared: Seq<(Seq<char>, Seq<char>)>,
)
    requires
        declares(files, directory, file, declared),
    ensures
        forall|other: Seq<char>, row: Seq<(Seq<char>, Seq<char>)>| #[trigger]
            declares(files, directory, other, row) ==> row == declared,
{
    assert forall|other: Seq<char>, row: Seq<(Seq<char>, Seq<char>)>| #[trigger]
        declares(files, directory, other, row) implies row == declared by {
        if row.len() == 0 {
            assert(row =~= Seq::<(Seq<char>, Seq<char>)>::empty());
        }
        if declared.len() == 0 {
            assert(declared =~= Seq::<(Seq<char>, Seq<char>)>::empty());
        }
        assert(row =~= declared);
    }
}

/// Whether a directory declares its aliases by names that aliases can have.
pub open spec fn is_sound(files: FilesModel, directory: Seq<char>) -> bool {
    exists|file: Seq<char>, declared: Seq<(Seq<char>, Seq<char>)>| #[trigger]
        declares(files, directory, file, declared) && names_are_valid(declared)
}

/// Where every directory declares its aliases by names that aliases can have, there are
/// aliases in force, and nowhere else.
pub proof fn sound_directories_are_accepted(files: FilesModel, directories: Seq<Seq<char>>)
    ensures
        with_directories(files, directories) is Ok <==> forall|i: int|
            0 <= i < directories.len() ==> is_sound(files, #[trigger] directories[i]),
    decreases directories.len(),
{
    if directories.len() > 0 {
        let outer = directories.drop_last();
        let last = directories.len() - 1;
        sound_directories_are_accepted(files, outer);
        assert(directories[last] == directories.last());
        assert(forall|i: int| 0 <= i < outer.len() ==> outer[i] == directories[i]);
        if with_directories(files, outer) is Ok {
            directories_add_what_they_declare(
                files,
                with_directories(files, outer)->Ok_0,
                directories.last(),
                Seq::empty(),
            );
            if with_directories(files, directories) is Ok {
                assert forall|i: int| 0 <= i < directories.len() implies is_sound(
                    files,
                    #[trigger] directories[i],
                ) by {
                    if i < last {
                        assert(is_sound(files, outer[i]));
                    }
                }
            }
        } else {
            let i = choose|i: int| 0 <= i < outer.len() && !is_sound(files, #[trigger] outer[i]);
            assert(!is_sound(files, directories[i]));
        }
    }
}

/// The directories whose aliases are in force: all from the root, or from nothing, down to
/// the directory itself, each one component longer than the one before it.
pub proof fn ancestors_go_down_to_the_directory(directory: Seq<char>)
    ensures
        ({
            let row = ancestors(directory, false);
            let all = components(directory);
            let start = if all.len() > 0 && all[0] is Root {
                1int
            } else {
                0int
            };
            &&& row.len() == all.len() - start + 1
            &&& row.last() == directory
            &&& forall|i: int|
                0 <= i < row.len() ==> components(#[trigger] row[i]) == all.take(start + i)
        }),
    decreases directory.len(),
{
    parent_drops_last_component(directory);
    parents_are_shorter(directory, false);
    let row = ancestors(directory, false);
    let all = components(directory);
    let start = if all.len() > 0 && all[0] is Root {
        1int
    } else {
        0int
    };
    lemma_one_root(directory);
    match parent_of(directory) {
        None => {
            assert(row == seq![directory]);
            assert(all.take(start) == all);
        },
        Some(parent) => {
            ancestors_go_down_to_the_directory(parent);
            let above = ancestors(parent, false);
            assert(row == above.push(directory));
            assert(all.len() > start);
            assert forall|i: int| 0 <= i < row.len() implies components(#[trigger] row[i])
                == all.take(start + i) by {
                if i < above.len() {
                    assert(row[i] == above[i]);
                    assert(all.drop_last().take(start + i) == all.take(start + i));
                } else {
                    assert(all.take(start + i) == all);
                }
            }
        },
    }
}

/// Only the first component can be the root.
pub proof fn lemma_one_root(path: Seq<char>)
    ensures
        forall|i: int| 0 < i < components(path).len() ==> !(#[trigger] components(path)[i] is Root),
{
    crate::laws::paths::components_are_the_names_on_the_way(path);
    let row = crate::paths::pieces(path, false);
    let below = crate::laws::paths::below_start(row);
    assert forall|i: int| 0 <= i < below.len() implies !(#[trigger] below[i] is Root) by {}
    assert forall|i: int| 0 < i < components(path).len() implies !(
    #[trigger] components(path)[i] is Root) by {
        if components(path).len() == below.len() {
            assert(components(path)[i] == below[i]);
        } else {
            assert(components(path)[i] == below[i - 1]);
        }
    }
}

/// A source that is a directory stands for itself, any other for the directory it is in.
pub proof fn sources_stand_for_their_directory(files: FilesModel, source_path: Seq<char>)
    ensures
        known_kind(files, source_path) == Some(Some(FileKind::Directory)) ==> directory_of(
            files,
            source_path,
        ) == Ok::<_, Error<Seq<char>>>(source_path),
        known_kind(files, source_path) matches Some(kind) && kind != Some(FileKind::Directory)
            ==> directory_of(files, source_path) == match parent_on(source_path, files.drives) {
            Some(directory) => Ok(directory),
            None => Err(Error::<Seq<char>>::NoParentDirectory),
        },
        known_kind(files, source_path) matches Some(kind) && kind != Some(FileKind::Directory)
            && !files.drives && components(source_path).len() > 0 && !(components(
            source_path,
        ).last() is Root) ==> (directory_of(files, source_path) matches Ok(directory)
            && components(directory) == components(source_path).drop_last()),
        known_kind(files, source_path) is None ==> directory_of(files, source_path) is Err,
{
    parent_drops_last_component(source_path);
}

/// The aliases in force for a source are those of its directory and of every directory
/// above it, the innermost first.
pub proof fn sources_see_the_directories_above_them(
    files: FilesModel,
    source_path: Seq<char>,
    key: Seq<char>,
)
    ensures
        loaded(files, source_path) matches Ok(config) ==> directory_of(
            files,
            source_path,
        ) matches Ok(directory) && {
            let row = ancestors(directory, files.drives);
            &&& config.aliases.contains_key(key) <==> exists|i: int|
                0 <= i < row.len() && declares_name(files, #[trigger] row[i], key)
            &&& config.aliases.contains_key(key) ==> exists|i: int|
                {
                    &&& 0 <= i < row.len()
                    &&& declares_as(files, #[trigger] row[i], key, config.aliases[key])
                    &&& forall|j: int|
                        i < j < row.len() ==> !declares_name(files, #[trigger] row[j], key)
                }
        },
{
    match directory_of(files, source_path) {
        Ok(directory) => inner_directories_decide(
            files,
            ancestors(directory, files.drives),
            key,
        ),
        Err(_) => {},
    }
}

} // verus!
