//! Aliases for module paths and the configuration files that declare them.

use vstd::prelude::*;

use crate::config_luau::{config_aliases, run_aliases};
use crate::drives::{
    host_join, host_parent, joined_on, local_values, localize_all, parent_on, parents_are_shorter,
};
use crate::error::{outcome, Error};
use crate::files::{aliases_of, metadata_of, run_of, FileKind, Files, FilesModel};
use crate::paths::{
    absolute, is_absolute, is_separator, join, joined, pieces, split_pieces,
};
use crate::text_map::TextMap;
use crate::text::{chars_of, same_text, text_between};

verus! {

/// `c` in lower case where it is an ASCII letter.
pub open spec fn lower(c: char) -> char {
    if 'A' <= c <= 'Z' {
        (c as u32 + 32) as char
    } else {
        c
    }
}

/// `text` with its ASCII letters in lower case.
pub open spec fn lower_text(text: Seq<char>) -> Seq<char> {
    Seq::new(text.len(), |i: int| lower(text[i]))
}

fn lower_char(c: char) -> (lowered: char)
    ensures
        lowered == lower(c),
{
    if 'A' <= c && c <= 'Z' {
        ((c as u32 + 32) as u8) as char
    } else {
        c
    }
}

fn to_lower(text: &str) -> (lowered: String)
    ensures
        lowered@ == lower_text(text@),
{
    let chars = chars_of(text);
    let mut lowered = String::new();
    let mut i: usize = 0;
    while i < chars.len()
        invariant
            i <= chars@.len(),
            lowered@ == lower_text(chars@.take(i as int)),
        decreases chars@.len() - i,
    {
        lowered.push(lower_char(chars[i]));
        i += 1;
        assert(lowered@ == lower_text(chars@.take(i as int)));
    }
    assert(chars@.take(i as int) == chars@);
    lowered
}

/// Whether two texts are equal but for the case of their ASCII letters.
pub open spec fn same_but_case(a: Seq<char>, b: Seq<char>) -> bool {
    lower_text(a) == lower_text(b)
}

pub(crate) fn is_same_but_case(a: &str, b: &str) -> (same: bool)
    ensures
        same == same_but_case(a@, b@),
{
    to_lower(a) == to_lower(b)
}

/// Whether `name` can be the name of an alias.
pub open spec fn valid_alias_name(name: Seq<char>) -> bool {
    name.len() > 0 && forall|i: int| 0 <= i < name.len() ==> #[trigger] is_alias_char(name[i])
}

/// The characters of alias names.
pub open spec fn is_alias_char(c: char) -> bool {
    ||| 'a' <= c <= 'z'
    ||| 'A' <= c <= 'Z'
    ||| '0' <= c <= '9'
    ||| c == '.'
    ||| c == '-'
    ||| c == '_'
}

/// Whether `name` can be the name of an alias: letters, digits, `.`, `-` and `_`.
pub fn is_valid_alias_name(name: &str) -> (valid: bool)
    ensures
        valid == valid_alias_name(name@),
{
    let chars = chars_of(name);
    let mut i: usize = 0;
    while i < chars.len()
        invariant
            i <= chars@.len(),
            chars@ == name@,
            forall|j: int| 0 <= j < i ==> #[trigger] is_alias_char(chars@[j]),
        decreases chars@.len() - i,
    {
        let c = chars[i];
        if !(('a' <= c && c <= 'z') || ('A' <= c && c <= 'Z') || ('0' <= c && c <= '9') || c == '.'
            || c == '-' || c == '_') {
            assert(!is_alias_char(chars@[i as int]));
            return false;
        }
        i += 1;
    }
    chars.len() > 0
}

/// How many characters stand before the first `/` or `\`.
pub open spec fn before_separator(text: Seq<char>) -> nat
    decreases text.len(),
{
    if text.len() == 0 || is_separator(text[0], true) {
        0
    } else {
        1 + before_separator(text.drop_first())
    }
}

/// The name and the rest of a request that starts with `@`: what stands before the
/// first separator and what stands after it.
pub open spec fn alias_parts(value: Seq<char>) -> Option<(Seq<char>, Seq<char>)> {
    if value.len() == 0 || value[0] != '@' {
        None
    } else {
        let body = value.skip(1);
        let end = before_separator(body) as int;
        if end < body.len() {
            Some((body.take(end), body.skip(end + 1)))
        } else {
            Some((body, Seq::empty()))
        }
    }
}

/// Splits `@name/rest` into `name` and `rest`.
pub fn split_alias(value: &str) -> (parts: Option<(String, String)>)
    ensures
        parts.deep_view() == alias_parts(value@),
{
    let chars = chars_of(value);
    if chars.len() == 0 || chars[0] != '@' {
        return None;
    }
    let ghost body = value@.skip(1);
    let mut end: usize = 1;
    assert(chars@.skip(1) == body);
    while end < chars.len() && chars[end] != '/' && chars[end] != '\\'
        invariant
            1 <= end <= chars@.len(),
            before_separator(body) == (end - 1) + before_separator(chars@.skip(end as int)),
        decreases chars@.len() - end,
    {
        assert(chars@.skip(end as int).drop_first() == chars@.skip(end + 1));
        end += 1;
    }
    let name = text_between(&chars, 1, end);
    if end < chars.len() {
        let suffix = text_between(&chars, end + 1, chars.len());
        assert(name@ == body.take(end - 1));
        assert(suffix@ == body.skip(end as int));
        Some((name, suffix))
    } else {
        assert(name@ == body);
        Some((name, String::new()))
    }
}

/// Two suffixes with a `/` between them, unless one is empty.
pub open spec fn joined_suffixes(first: Seq<char>, second: Seq<char>) -> Seq<char> {
    if first.len() == 0 {
        second
    } else if second.len() == 0 {
        first
    } else {
        first.push('/') + second
    }
}

/// Joins two suffixes.
pub fn join_suffixes(first: &str, second: &str) -> (suffix: String)
    ensures
        suffix@ == joined_suffixes(first@, second@),
{
    if first.is_empty() {
        second.to_owned()
    } else if second.is_empty() {
        first.to_owned()
    } else {
        let mut suffix = first.to_owned();
        suffix.push('/');
        suffix.append(second);
        suffix
    }
}

/// `path` after one step: nothing for an empty step and `.`, up for `..`, down to a
/// name.
pub open spec fn stepped(path: Seq<char>, step: Seq<char>, drives: bool) -> Seq<char> {
    if step == Seq::<char>::empty() || step == seq!['.'] {
        path
    } else if step == seq!['.', '.'] {
        match parent_on(path, drives) {
            Some(parent) => parent,
            None => path,
        }
    } else {
        joined_on(path, step, drives)
    }
}

/// `path` after a row of steps.
pub open spec fn walked(path: Seq<char>, steps: Seq<Seq<char>>, drives: bool) -> Seq<char>
    decreases steps.len(),
{
    if steps.len() == 0 {
        path
    } else {
        stepped(walked(path, steps.drop_last(), drives), steps.last(), drives)
    }
}

/// `path` after the steps that `value` writes, with `/` or `\` between them.
pub open spec fn extended(path: Seq<char>, value: Seq<char>, drives: bool) -> Seq<char> {
    walked(path, pieces(value, true), drives)
}

/// Takes the steps that `value` writes from `path` on, on a host with drives or without
/// them.
pub fn append_module_components(path: &mut String, value: &str, drives: bool)
    ensures
        final(path)@ == extended(old(path)@, value@, drives),
{
    let steps = split_pieces(value, true);
    let ghost start = path@;
    let mut i: usize = 0;
    while i < steps.len()
        invariant
            i <= steps@.len(),
            start == old(path)@,
            path@ == walked(start, steps.deep_view().take(i as int), drives),
        decreases steps@.len() - i,
    {
        assert(steps.deep_view().take(i + 1).drop_last() == steps.deep_view().take(i as int));
        assert(steps.deep_view().take(i + 1).last() == steps@[i as int]@);
        let step = steps[i].as_str();
        proof {
            reveal_strlit("");
            reveal_strlit(".");
            reveal_strlit("..");
            assert(""@ =~= Seq::<char>::empty());
            assert("."@ =~= seq!['.']);
            assert(".."@ =~= seq!['.', '.']);
        }
        if same_text(step, "..") {
            match host_parent(path.as_str(), drives) {
                Some(up) => {
                    *path = up;
                },
                None => {},
            }
        } else if !same_text(step, "") && !same_text(step, ".") {
            *path = host_join(path.as_str(), step, drives);
        }
        i += 1;
    }
    assert(steps.deep_view().take(i as int) == steps.deep_view());
}

/// What a configuration file says of an alias.
pub struct AliasDefinition<S> {
    /// Where the alias leads.
    pub value: S,
    /// The directory that a relative value starts from.
    pub base_directory: S,
    /// The configuration file.
    pub source: S,
}

impl DeepView for AliasDefinition<String> {
    type V = AliasDefinition<Seq<char>>;

    open spec fn deep_view(&self) -> AliasDefinition<Seq<char>> {
        AliasDefinition {
            value: self.value@,
            base_directory: self.base_directory@,
            source: self.source@,
        }
    }
}

/// Where the value of an alias leads: below the home directory from `~/` on, to an
/// absolute path, or from the directory of the configuration file on.
pub open spec fn alias_base(
    alias: AliasDefinition<Seq<char>>,
    home_directory: Option<Seq<char>>,
    drives: bool,
) -> Seq<char> {
    if alias.value.len() >= 2 && alias.value[0] == '~' && is_separator(alias.value[1], true)
        && home_directory is Some {
        extended(home_directory->0, alias.value.skip(2), drives)
    } else if is_absolute(alias.value) {
        alias.value
    } else {
        extended(alias.base_directory, alias.value, drives)
    }
}

/// The path that the value of an alias leads to.
pub fn alias_base_path(
    alias: &AliasDefinition<String>,
    home_directory: &Option<String>,
    drives: bool,
) -> (path: String)
    ensures
        path@ == alias_base(alias.deep_view(), home_directory.deep_view(), drives),
{
    let chars = chars_of(alias.value.as_str());
    if chars.len() >= 2 && chars[0] == '~' && (chars[1] == '/' || chars[1] == '\\') {
        if let Some(home) = home_directory {
            let mut path = home.clone();
            let value = text_between(&chars, 2, chars.len());
            assert(value@ == alias.value@.skip(2));
            append_module_components(&mut path, value.as_str(), drives);
            return path;
        }
    }
    if absolute(alias.value.as_str()) {
        alias.value.clone()
    } else {
        let mut path = alias.base_directory.clone();
        append_module_components(&mut path, alias.value.as_str(), drives);
        path
    }
}

/// The directory that a source stands for in relative paths: itself where it is a
/// directory, else its parent.
pub open spec fn directory_of(files: FilesModel, source_path: Seq<char>) -> Result<
    Seq<char>,
    Error<Seq<char>>,
> {
    match metadata_of(files, source_path) {
        Err(e) => Err(e),
        Ok(kind) => if kind == Some(FileKind::Directory) {
            Ok(source_path)
        } else {
            match parent_on(source_path, files.drives) {
                Some(parent) => Ok(parent),
                None => Err(Error::NoParentDirectory),
            }
        },
    }
}

/// Whether `kind` is a directory.
pub(crate) fn is_directory(kind: Option<FileKind>) -> (yes: bool)
    ensures
        yes == (kind == Some(FileKind::Directory)),
{
    match kind {
        Some(FileKind::Directory) => true,
        _ => false,
    }
}

/// The directory that a source stands for in relative paths.
pub fn source_directory(files: &Files, source_path: &str) -> (directory: Result<
    String,
    Error<String>,
>)
    ensures
        outcome(directory) == directory_of(files.deep_view(), source_path@),
{
    let kind = files.metadata(source_path)?;
    if is_directory(kind) {
        Ok(source_path.to_owned())
    } else {
        match host_parent(source_path, files.drives()) {
            Some(parent) => Ok(parent),
            None => Err(Error::NoParentDirectory),
        }
    }
}

/// A directory and everything above it, the outermost first.
pub open spec fn ancestors(directory: Seq<char>, drives: bool) -> Seq<Seq<char>>
    decreases directory.len(),
{
    proof {
        parents_are_shorter(directory, drives);
    }
    match parent_on(directory, drives) {
        None => seq![directory],
        Some(parent) => ancestors(parent, drives).push(directory),
    }
}

/// The aliases in force and the files that they depend on, in contracts.
pub struct AliasConfigModel {
    pub aliases: Map<Seq<char>, AliasDefinition<Seq<char>>>,
    pub relevant_paths: Seq<Seq<char>>,
    /// Whether the host has drives.
    pub drives: bool,
}

/// The aliases in force in a directory.
pub struct AliasConfig {
    aliases: TextMap<AliasDefinition<String>>,
    relevant_paths: Vec<String>,
    drives: bool,
}

impl DeepView for AliasConfig {
    type V = AliasConfigModel;

    closed spec fn deep_view(&self) -> AliasConfigModel {
        AliasConfigModel {
            aliases: self.aliases.deep_view(),
            relevant_paths: self.relevant_paths.deep_view(),
            drives: self.drives,
        }
    }
}

/// No alias is declared.
pub open spec fn no_aliases(drives: bool) -> AliasConfigModel {
    AliasConfigModel { aliases: Map::empty(), relevant_paths: Seq::empty(), drives }
}

/// `config` with the declarations of one file, one after the other. A name hides
/// the same name of an earlier declaration, whatever its case.
pub open spec fn with_aliases(
    config: AliasConfigModel,
    declared: Seq<(Seq<char>, Seq<char>)>,
    directory: Seq<char>,
    path: Seq<char>,
) -> Result<AliasConfigModel, Error<Seq<char>>>
    decreases declared.len(),
{
    if declared.len() == 0 {
        Ok(config)
    } else {
        match with_aliases(config, declared.drop_last(), directory, path) {
            Err(e) => Err(e),
            Ok(before) => {
                let (name, value) = declared.last();
                if !valid_alias_name(name) {
                    Err(Error::InvalidAliasName { name, path })
                } else {
                    Ok(
                        AliasConfigModel {
                            aliases: before.aliases.insert(
                                lower_text(name),
                                AliasDefinition { value, base_directory: directory, source: path },
                            ),
                            ..before
                        },
                    )
                }
            },
        }
    }
}

/// The aliases that the `.luaurc` file at `path` declares.
pub open spec fn written_aliases_of(files: FilesModel, path: Seq<char>) -> Result<
    Seq<(Seq<char>, Seq<char>)>,
    Error<Seq<char>>,
> {
    match aliases_of(files, path) {
        Err(e) => Err(e),
        Ok(declared) => Ok(local_values(declared, files.drives)),
    }
}

/// The aliases that the `.config.luau` file at `path` declares.
pub open spec fn computed_aliases_of(files: FilesModel, path: Seq<char>) -> Result<
    Seq<(Seq<char>, Seq<char>)>,
    Error<Seq<char>>,
> {
    match run_of(files, path) {
        Err(e) => Err(e),
        Ok(run) => match run_aliases(path, run) {
            Err(e) => Err(e),
            Ok(declared) => Ok(local_values(declared, files.drives)),
        },
    }
}

/// `config` with what one directory adds: both names of its configuration file as
/// paths that matter, and the declarations of the file that is there.
pub open spec fn with_directory(
    files: FilesModel,
    config: AliasConfigModel,
    directory: Seq<char>,
) -> Result<AliasConfigModel, Error<Seq<char>>> {
    let luaurc = joined(directory, ".luaurc"@);
    let config_luau = joined(directory, ".config.luau"@);
    let watching = AliasConfigModel {
        relevant_paths: config.relevant_paths.push(luaurc).push(config_luau),
        ..config
    };
    match (metadata_of(files, luaurc), metadata_of(files, config_luau)) {
        (Err(e), _) => Err(e),
        (_, Err(e)) => Err(e),
        (Ok(Some(_)), Ok(Some(_))) => Err(Error::TwoConfigurations { directory }),
        (Ok(Some(_)), Ok(None)) => match written_aliases_of(files, luaurc) {
            Err(e) => Err(e),
            Ok(declared) => with_aliases(watching, declared, directory, luaurc),
        },
        (Ok(None), Ok(Some(_))) => match computed_aliases_of(files, config_luau) {
            Err(e) => Err(e),
            Ok(declared) => with_aliases(watching, declared, directory, config_luau),
        },
        (Ok(None), Ok(None)) => Ok(watching),
    }
}

/// What a row of directories declares, an inner directory after an outer one.
pub open spec fn with_directories(files: FilesModel, directories: Seq<Seq<char>>) -> Result<
    AliasConfigModel,
    Error<Seq<char>>,
>
    decreases directories.len(),
{
    if directories.len() == 0 {
        Ok(no_aliases(files.drives))
    } else {
        match with_directories(files, directories.drop_last()) {
            Err(e) => Err(e),
            Ok(before) => with_directory(files, before, directories.last()),
        }
    }
}

/// The aliases in force for a source: those of its directory and of every directory
/// above it.
pub open spec fn loaded(files: FilesModel, source_path: Seq<char>) -> Result<
    AliasConfigModel,
    Error<Seq<char>>,
> {
    match directory_of(files, source_path) {
        Err(e) => Err(e),
        Ok(directory) => with_directories(files, ancestors(directory, files.drives)),
    }
}

/// The texts of a row with ` -> ` between them.
pub open spec fn chain_text(row: Seq<Seq<char>>) -> Seq<char>
    decreases row.len(),
{
    if row.len() == 0 {
        Seq::empty()
    } else if row.len() == 1 {
        row[0]
    } else {
        chain_text(row.drop_last()) + " -> "@ + row.last()
    }
}

/// The path that an alias leads to, followed by `suffix`. `followed` holds the
/// aliases that led here.
pub open spec fn resolved(
    config: AliasConfigModel,
    home_directory: Option<Seq<char>>,
    name: Seq<char>,
    suffix: Seq<char>,
    importer: Seq<char>,
    followed: Seq<Seq<char>>,
) -> Result<Seq<char>, Error<Seq<char>>>
    decreases config.aliases.dom().difference(followed.to_set()).len(),
    when config.aliases.dom().finite()
{
    let key = lower_text(name);
    if followed.contains(key) {
        Err(Error::CyclicAlias { chain: chain_text(followed.push(key)) })
    } else if !config.aliases.contains_key(key) {
        Err(Error::UnknownAlias { name })
    } else {
        proof {
            lemma_fewer_left(config.aliases.dom(), followed, key);
        }
        let alias = config.aliases[key];
        match alias_parts(alias.value) {
            None => Ok(
                extended(alias_base(alias, home_directory, config.drives), suffix, config.drives),
            ),
            Some((nested, nested_suffix)) => if same_but_case(nested, "self"@) {
                Ok(
                    extended(
                        extended(importer, nested_suffix, config.drives),
                        suffix,
                        config.drives,
                    ),
                )
            } else if same_but_case(nested, "game"@) {
                Err(Error::NativeAlias { name, source: alias.source })
            } else {
                resolved(
                    config,
                    home_directory,
                    nested,
                    joined_suffixes(nested_suffix, suffix),
                    importer,
                    followed.push(key),
                )
            },
        }
    }
}

/// The aliases that have been followed, `followed` and those that come after, when an
/// alias turns out to lead nowhere.
pub open spec fn trail(
    config: AliasConfigModel,
    name: Seq<char>,
    followed: Seq<Seq<char>>,
) -> Seq<Seq<char>>
    decreases config.aliases.dom().difference(followed.to_set()).len(),
    when config.aliases.dom().finite()
{
    let key = lower_text(name);
    if followed.contains(key) || !config.aliases.contains_key(key) {
        followed
    } else {
        proof {
            lemma_fewer_left(config.aliases.dom(), followed, key);
        }
        match alias_parts(config.aliases[key].value) {
            Some((nested, _)) => if same_but_case(nested, "self"@) || same_but_case(
                nested,
                "game"@,
            ) {
                followed.push(key)
            } else {
                trail(config, nested, followed.push(key))
            },
            None => followed.push(key),
        }
    }
}

/// An alias that is followed is one fewer that can be followed next.
pub proof fn lemma_fewer_left(names: Set<Seq<char>>, followed: Seq<Seq<char>>, key: Seq<char>)
    requires
        names.finite(),
        names.contains(key),
        !followed.contains(key),
    ensures
        names.difference(followed.push(key).to_set()).len() < names.difference(
            followed.to_set(),
        ).len(),
{
    let before = names.difference(followed.to_set());
    let after = names.difference(followed.push(key).to_set());
    assert(followed.push(key).last() == key);
    assert forall|name: Seq<char>| after.contains(name) implies before.contains(name) by {
        if followed.contains(name) {
            let i = choose|i: int| 0 <= i < followed.len() && followed[i] == name;
            assert(followed.push(key)[i] == name);
        }
    }
    assert(before.contains(key) && !after.contains(key));
    assert(after.subset_of(before.remove(key)));
    vstd::set_lib::lemma_len_subset(after, before.remove(key));
}

impl AliasConfig {
    /// No alias is declared.
    pub fn new(drives: bool) -> (config: AliasConfig)
        ensures
            config.deep_view() == no_aliases(drives),
    {
        let config = AliasConfig { aliases: TextMap::new(), relevant_paths: Vec::new(), drives };
        assert(config.relevant_paths.deep_view() == Seq::<Seq<char>>::empty());
        config
    }

    /// Only finitely many aliases are in force.
    pub proof fn finite(&self)
        ensures
            self.deep_view().aliases.dom().finite(),
    {
        self.aliases.finite();
    }

    /// The files that the aliases depend on, those that do not exist too.
    pub fn relevant_paths(&self) -> (paths: &Vec<String>)
        ensures
            paths.deep_view() == self.deep_view().relevant_paths,
    {
        &self.relevant_paths
    }

    /// Reads the configuration files of the directory of `source_path` and of every
    /// directory above it.
    pub fn load(files: &Files, source_path: &str) -> (config: Result<AliasConfig, Error<String>>)
        ensures
            outcome(config) == loaded(files.deep_view(), source_path@),
    {
        let start = source_directory(files, source_path)?;
        let directories = directories_above(start, files.drives());
        let mut config = AliasConfig::new(files.drives());
        let ghost outermost_first = directories.deep_view().reverse();
        let mut i: usize = directories.len();
        while i > 0
            invariant
                i <= directories@.len(),
                outermost_first == directories.deep_view().reverse(),
                Ok::<AliasConfigModel, Error<Seq<char>>>(config.deep_view()) == with_directories(
                    files.deep_view(),
                    outermost_first.take(directories@.len() - i),
                ),
                loaded(files.deep_view(), source_path@) == with_directories(
                    files.deep_view(),
                    outermost_first,
                ),
            decreases i,
        {
            i -= 1;
            let ghost done = outermost_first.take(directories@.len() - i);
            assert(done.drop_last() == outermost_first.take(directories@.len() - i - 1));
            assert(done.last() == directories@[i as int]@);
            let added = config.add_directory(files, directories[i].as_str());
            match added {
                Err(e) => {
                    proof {
                        lemma_first_failure(
                            files.deep_view(),
                            outermost_first,
                            (directories@.len() - i) as nat,
                        );
                    }
                    return Err(e);
                },
                Ok(extended) => {
                    config = extended;
                },
            }
        }
        assert(outermost_first.take(directories@.len() as int) == outermost_first);
        Ok(config)
    }

    fn add_directory(self, files: &Files, directory: &str) -> (added: Result<
        AliasConfig,
        Error<String>,
    >)
        ensures
            outcome(added) == with_directory(files.deep_view(), self.deep_view(), directory@),
    {
        let mut config = self;
        let luaurc = join(directory, ".luaurc");
        let config_luau = join(directory, ".config.luau");
        let has_luaurc = files.metadata(luaurc.as_str())?.is_some();
        let has_config_luau = files.metadata(config_luau.as_str())?.is_some();
        config.relevant_paths.push(luaurc.clone());
        config.relevant_paths.push(config_luau.clone());
        assert(config.relevant_paths.deep_view() == self.relevant_paths.deep_view().push(
            luaurc@,
        ).push(config_luau@));
        if has_luaurc && has_config_luau {
            return Err(Error::TwoConfigurations { directory: directory.to_owned() });
        }
        if has_luaurc {
            let declared = localize_all(files.aliases(luaurc.as_str())?, files.drives());
            config.add_aliases(declared, directory, luaurc.as_str())
        } else if has_config_luau {
            let run = files.run(config_luau.as_str())?;
            let declared = localize_all(
                config_aliases(config_luau.as_str(), run)?,
                files.drives(),
            );
            config.add_aliases(declared, directory, config_luau.as_str())
        } else {
            Ok(config)
        }
    }

    fn add_aliases(
        self,
        declared: Vec<(String, String)>,
        directory: &str,
        path: &str,
    ) -> (added: Result<AliasConfig, Error<String>>)
        ensures
            outcome(added) == with_aliases(
                self.deep_view(),
                declared.deep_view(),
                directory@,
                path@,
            ),
    {
        let ghost start = self.deep_view();
        let mut config = self;
        let mut i: usize = 0;
        while i < declared.len()
            invariant
                i <= declared@.len(),
                Ok::<AliasConfigModel, Error<Seq<char>>>(config.deep_view()) == with_aliases(
                    start,
                    declared.deep_view().take(i as int),
                    directory@,
                    path@,
                ),
                start == self.deep_view(),
            decreases declared@.len() - i,
        {
            let ghost done = declared.deep_view().take(i + 1);
            assert(done.drop_last() == declared.deep_view().take(i as int));
            assert(done.last() == declared@[i as int].deep_view());
            let name = &declared[i].0;
            if !is_valid_alias_name(name.as_str()) {
                proof {
                    lemma_first_invalid(
                        start,
                        declared.deep_view(),
                        directory@,
                        path@,
                        (i + 1) as nat,
                    );
                }
                return Err(Error::InvalidAliasName { name: name.clone(), path: path.to_owned() });
            }
            config.aliases.insert(
                to_lower(name.as_str()),
                AliasDefinition {
                    value: declared[i].1.clone(),
                    base_directory: directory.to_owned(),
                    source: path.to_owned(),
                },
            );
            i += 1;
        }
        assert(declared.deep_view().take(i as int) == declared.deep_view());
        Ok(config)
    }
}

impl AliasConfig {
    /// The path that the alias `@alias_name` leads to, followed by `suffix`.
    /// `@self` in the value of an alias stands for `importer_directory`.
    pub fn resolve(
        &self,
        alias_name: &str,
        suffix: &str,
        importer_directory: &str,
        home_directory: &Option<String>,
    ) -> (path: Result<String, Error<String>>)
        ensures
            outcome(path) == resolved(
                self.deep_view(),
                home_directory.deep_view(),
                alias_name@,
                suffix@,
                importer_directory@,
                Seq::empty(),
            ),
    {
        let mut stack: Vec<String> = Vec::new();
        assert(stack.deep_view() == Seq::<Seq<char>>::empty());
        self.resolve_inner(alias_name, suffix, importer_directory, home_directory, &mut stack)
    }

    fn resolve_inner(
        &self,
        alias_name: &str,
        suffix: &str,
        importer_directory: &str,
        home_directory: &Option<String>,
        stack: &mut Vec<String>,
    ) -> (path: Result<String, Error<String>>)
        ensures
            outcome(path) == resolved(
                self.deep_view(),
                home_directory.deep_view(),
                alias_name@,
                suffix@,
                importer_directory@,
                old(stack).deep_view(),
            ),
            final(stack).deep_view() == match path {
                Ok(_) => old(stack).deep_view(),
                Err(_) => trail(self.deep_view(), alias_name@, old(stack).deep_view()),
            },
            old(stack).deep_view().is_prefix_of(final(stack).deep_view()),
        decreases
            self.deep_view().aliases.dom().difference(old(stack).deep_view().to_set()).len(),
    {
        let ghost followed = stack.deep_view();
        proof {
            self.aliases.finite();
        }
        let key = to_lower(alias_name);
        if holds_text(stack, &key) {
            return Err(Error::CyclicAlias { chain: join_chain(stack, &key) });
        }
        let alias = match self.aliases.get(key.as_str()) {
            None => {
                return Err(Error::UnknownAlias { name: alias_name.to_owned() });
            },
            Some(alias) => alias,
        };
        proof {
            lemma_fewer_left(self.deep_view().aliases.dom(), followed, key@);
        }
        stack.push(key);
        assert(stack.deep_view() == followed.push(key@));
        let path = match split_alias(alias.value.as_str()) {
            Some((nested_alias, nested_suffix)) => {
                if is_same_but_case(nested_alias.as_str(), "self") {
                    let mut path = importer_directory.to_owned();
                    append_module_components(
                        &mut path,
                        nested_suffix.as_str(),
                        self.drives,
                    );
                    append_module_components(&mut path, suffix, self.drives);
                    path
                } else if is_same_but_case(nested_alias.as_str(), "game") {
                    return Err(
                        Error::NativeAlias {
                            name: alias_name.to_owned(),
                            source: alias.source.clone(),
                        },
                    );
                } else {
                    let combined_suffix = join_suffixes(nested_suffix.as_str(), suffix);
                    self.resolve_inner(
                        nested_alias.as_str(),
                        combined_suffix.as_str(),
                        importer_directory,
                        home_directory,
                        stack,
                    )?
                }
            },
            None => {
                let mut path = alias_base_path(alias, home_directory, self.drives);
                append_module_components(&mut path, suffix, self.drives);
                path
            },
        };
        let ghost pushed = stack.deep_view();
        stack.pop();
        assert(stack.deep_view() == pushed.drop_last());
        assert(followed.push(key@).drop_last() == followed);
        Ok(path)
    }
}

fn holds_text(row: &Vec<String>, text: &String) -> (holds: bool)
    ensures
        holds == row.deep_view().contains(text@),
{
    let mut i: usize = 0;
    while i < row.len()
        invariant
            i <= row@.len(),
            forall|j: int| 0 <= j < i ==> #[trigger] row@[j]@ != text@,
        decreases row@.len() - i,
    {
        if row[i] == *text {
            assert(row.deep_view()[i as int] == text@);
            return true;
        }
        i += 1;
    }
    assert forall|j: int| 0 <= j < row.deep_view().len() implies row.deep_view()[j] != text@ by {
        assert(row@[j]@ != text@);
    }
    false
}

fn join_chain(row: &Vec<String>, last: &String) -> (chain: String)
    ensures
        chain@ == chain_text(row.deep_view().push(last@)),
{
    let ghost texts = row.deep_view().push(last@);
    let mut chain = String::new();
    let mut i: usize = 0;
    while i < row.len()
        invariant
            i <= row@.len(),
            texts == row.deep_view().push(last@),
            chain@ == if i == 0 {
                Seq::empty()
            } else {
                chain_text(texts.take(i as int)) + " -> "@
            },
        decreases row@.len() - i,
    {
        let ghost done = texts.take(i + 1);
        assert(done.drop_last() == texts.take(i as int));
        assert(done.last() == row@[i as int]@);
        chain.append(row[i].as_str());
        assert(i == 0 ==> chain@ == done[0]);
        chain.append(" -> ");
        i += 1;
    }
    chain.append(last.as_str());
    assert(texts.drop_last() == texts.take(i as int));
    assert(i == 0 ==> chain@ == texts[0]);
    chain
}

/// A directory and everything above it, the innermost first.
pub(crate) fn directories_above(directory: String, drives: bool) -> (directories: Vec<String>)
    ensures
        directories.deep_view().reverse() == ancestors(directory@, drives),
{
    let ghost all = ancestors(directory@, drives);
    let mut directories: Vec<String> = Vec::new();
    let mut current = directory;
    assert(all + directories.deep_view().reverse() == all);
    loop
        invariant_except_break
            all == ancestors(current@, drives) + directories.deep_view().reverse(),
        ensures
            all == directories.deep_view().reverse(),
        decreases current@.len(),
    {
        proof {
            parents_are_shorter(current@, drives);
        }
        let above = host_parent(current.as_str(), drives);
        let ghost here = current@;
        let ghost before = directories.deep_view();
        directories.push(current);
        assert(directories.deep_view() == before.push(here));
        assert(directories.deep_view().reverse() == seq![here] + before.reverse());
        match above {
            None => {
                assert(seq![here] + before.reverse() == all);
                break;
            },
            Some(up) => {
                let ghost outer = ancestors(up@, drives);
                assert(outer.push(here) + before.reverse() == outer + (seq![here]
                    + before.reverse()));
                current = up;
            },
        }
    }
    directories
}

/// The error of a directory is the error of the whole row.
proof fn lemma_first_failure(files: FilesModel, directories: Seq<Seq<char>>, count: nat)
    requires
        count <= directories.len(),
        with_directories(files, directories.take(count as int)) is Err,
    ensures
        with_directories(files, directories) == with_directories(
            files,
            directories.take(count as int),
        ),
    decreases directories.len(),
{
    if count == directories.len() {
        assert(directories.take(count as int) == directories);
    } else {
        assert(directories.drop_last().take(count as int) == directories.take(count as int));
        lemma_first_failure(files, directories.drop_last(), count);
    }
}

/// The error of a declaration is the error of the whole file.
proof fn lemma_first_invalid(
    config: AliasConfigModel,
    declared: Seq<(Seq<char>, Seq<char>)>,
    directory: Seq<char>,
    path: Seq<char>,
    count: nat,
)
    requires
        count <= declared.len(),
        with_aliases(config, declared.take(count as int), directory, path) is Err,
    ensures
        with_aliases(config, declared, directory, path) == with_aliases(
            config,
            declared.take(count as int),
            directory,
            path,
        ),
    decreases declared.len(),
{
    if count == declared.len() {
        assert(declared.take(count as int) == declared);
    } else {
        assert(declared.drop_last().take(count as int) == declared.take(count as int));
        lemma_first_invalid(config, declared.drop_last(), directory, path, count);
    }
}

/// The case of an alias does not matter: where one spelling leads to a path, every
/// other spelling leads there too.
pub proof fn alias_names_ignore_case(
    config: AliasConfigModel,
    home_directory: Option<Seq<char>>,
    name: Seq<char>,
    other: Seq<char>,
    suffix: Seq<char>,
    importer: Seq<char>,
    followed: Seq<Seq<char>>,
)
    requires
        config.aliases.dom().finite(),
        same_but_case(name, other),
    ensures
        resolved(config, home_directory, name, suffix, importer, followed) is Ok ==> resolved(
            config,
            home_directory,
            other,
            suffix,
            importer,
            followed,
        ) == resolved(config, home_directory, name, suffix, importer, followed),
{
}

/// Whether declaration number `i` is the last of a name.
pub open spec fn is_last_declaration(
    declared: Seq<(Seq<char>, Seq<char>)>,
    i: int,
    key: Seq<char>,
) -> bool {
    &&& 0 <= i < declared.len()
    &&& lower_text(declared[i].0) == key
    &&& forall|j: int| i < j < declared.len() ==> lower_text(#[trigger] declared[j].0) != key
}

/// Whether no declaration is one of a name.
pub open spec fn is_undeclared(declared: Seq<(Seq<char>, Seq<char>)>, key: Seq<char>) -> bool {
    forall|i: int| 0 <= i < declared.len() ==> lower_text(#[trigger] declared[i].0) != key
}

/// A file decides on the names that it declares, by its last declaration, and on no
/// other name.
pub proof fn declarations_hide_earlier_ones(
    config: AliasConfigModel,
    declared: Seq<(Seq<char>, Seq<char>)>,
    directory: Seq<char>,
    path: Seq<char>,
    key: Seq<char>,
)
    ensures
        with_aliases(config, declared, directory, path) matches Ok(after) ==> {
            &&& after.relevant_paths == config.relevant_paths
            &&& forall|i: int| #[trigger]
                is_last_declaration(declared, i, key) ==> after.aliases.contains_key(key)
                    && after.aliases[key] == (AliasDefinition {
                    value: declared[i].1,
                    base_directory: directory,
                    source: path,
                })
            &&& is_undeclared(declared, key) ==> after.aliases.contains_key(key)
                == config.aliases.contains_key(key) && (config.aliases.contains_key(key)
                ==> after.aliases[key] == config.aliases[key])
        },
{
    lemma_same_paths(config, declared, directory, path);
    assert forall|i: int| #[trigger] is_last_declaration(declared, i, key) implies (with_aliases(
        config,
        declared,
        directory,
        path,
    ) matches Ok(after) ==> after.aliases.contains_key(key) && after.aliases[key] == (
    AliasDefinition { value: declared[i].1, base_directory: directory, source: path })) by {
        lemma_last_declaration(config, declared, directory, path, key, i);
    }
    if is_undeclared(declared, key) {
        lemma_undeclared(config, declared, directory, path, key);
    }
}

proof fn lemma_same_paths(
    config: AliasConfigModel,
    declared: Seq<(Seq<char>, Seq<char>)>,
    directory: Seq<char>,
    path: Seq<char>,
)
    ensures
        with_aliases(config, declared, directory, path) matches Ok(after) ==> after.relevant_paths
            == config.relevant_paths,
    decreases declared.len(),
{
    if declared.len() > 0 {
        lemma_same_paths(config, declared.drop_last(), directory, path);
    }
}

proof fn lemma_undeclared(
    config: AliasConfigModel,
    declared: Seq<(Seq<char>, Seq<char>)>,
    directory: Seq<char>,
    path: Seq<char>,
    key: Seq<char>,
)
    requires
        is_undeclared(declared, key),
    ensures
        with_aliases(config, declared, directory, path) matches Ok(after) ==> {
            &&& after.aliases.contains_key(key) == config.aliases.contains_key(key)
            &&& config.aliases.contains_key(key) ==> after.aliases[key] == config.aliases[key]
        },
    decreases declared.len(),
{
    if declared.len() > 0 {
        let before = declared.drop_last();
        assert(is_undeclared(before, key)) by {
            assert forall|i: int| 0 <= i < before.len() implies lower_text(
                #[trigger] before[i].0,
            ) != key by {
                assert(before[i] == declared[i]);
            }
        }
        lemma_undeclared(config, before, directory, path, key);
        assert(lower_text(declared[declared.len() - 1].0) != key);
    }
}

proof fn lemma_last_declaration(
    config: AliasConfigModel,
    declared: Seq<(Seq<char>, Seq<char>)>,
    directory: Seq<char>,
    path: Seq<char>,
    key: Seq<char>,
    i: int,
)
    requires
        is_last_declaration(declared, i, key),
    ensures
        with_aliases(config, declared, directory, path) matches Ok(after)
            ==> after.aliases.contains_key(key) && after.aliases[key] == (AliasDefinition {
            value: declared[i].1,
            base_directory: directory,
            source: path,
        }),
    decreases declared.len(),
{
    let before = declared.drop_last();
    let last = declared.len() - 1;
    if i < last {
        assert(lower_text(declared[last].0) != key);
        assert(is_last_declaration(before, i, key)) by {
            assert(before[i] == declared[i]);
            assert forall|j: int| i < j < before.len() implies lower_text(
                #[trigger] before[j].0,
            ) != key by {
                assert(before[j] == declared[j]);
            }
        }
        lemma_last_declaration(config, before, directory, path, key, i);
    }
}

/// Both configuration files of every directory from the outermost one down to that of
/// the source matter to its aliases, whether they exist or not.
pub proof fn loaded_config_watches_every_directory(files: FilesModel, source_path: Seq<char>)
    ensures
        loaded(files, source_path) matches Ok(config) ==> {
            let directories = ancestors(directory_of(files, source_path)->Ok_0, files.drives);
            &&& config.relevant_paths.len() == 2 * directories.len()
            &&& forall|i: int|
                0 <= i < directories.len() ==> config.relevant_paths[2 * i] == joined(
                    #[trigger] directories[i],
                    ".luaurc"@,
                ) && config.relevant_paths[2 * i + 1] == joined(directories[i], ".config.luau"@)
        },
{
    match directory_of(files, source_path) {
        Ok(directory) => lemma_watched(files, ancestors(directory, files.drives)),
        Err(_) => {},
    }
}

proof fn lemma_watched(files: FilesModel, directories: Seq<Seq<char>>)
    ensures
        with_directories(files, directories) matches Ok(config) ==> {
            &&& config.relevant_paths.len() == 2 * directories.len()
            &&& forall|i: int|
                0 <= i < directories.len() ==> config.relevant_paths[2 * i] == joined(
                    #[trigger] directories[i],
                    ".luaurc"@,
                ) && config.relevant_paths[2 * i + 1] == joined(directories[i], ".config.luau"@)
        },
    decreases directories.len(),
{
    if directories.len() > 0 {
        let outer = directories.drop_last();
        lemma_watched(files, outer);
        assert(forall|i: int| 0 <= i < outer.len() ==> outer[i] == directories[i]);
        match with_directories(files, outer) {
            Ok(before) => {
                let directory = directories.last();
                let luaurc = joined(directory, ".luaurc"@);
                let config_luau = joined(directory, ".config.luau"@);
                let watching = AliasConfigModel {
                    relevant_paths: before.relevant_paths.push(luaurc).push(config_luau),
                    ..before
                };
                match written_aliases_of(files, luaurc) {
                    Ok(declared) => lemma_same_paths(watching, declared, directory, luaurc),
                    Err(_) => {},
                }
                match computed_aliases_of(files, config_luau) {
                    Ok(declared) => lemma_same_paths(watching, declared, directory, config_luau),
                    Err(_) => {},
                }
                match with_directories(files, directories) {
                    Ok(config) => {
                        assert(config.relevant_paths == watching.relevant_paths);
                        assert forall|i: int| 0 <= i < directories.len() implies
                            config.relevant_paths[2 * i] == joined(
                            #[trigger] directories[i],
                            ".luaurc"@,
                        ) && config.relevant_paths[2 * i + 1] == joined(
                            directories[i],
                            ".config.luau"@,
                        ) by {
                            if i < outer.len() {
                                assert(outer[i] == directories[i]);
                            }
                        }
                    },
                    Err(_) => {},
                }
            },
            Err(_) => {},
        }
    }
}

/// Only finitely many aliases are ever in force, so following them ends.
pub proof fn loaded_aliases_are_finite(files: FilesModel, source_path: Seq<char>)
    ensures
        loaded(files, source_path) matches Ok(config) ==> config.aliases.dom().finite(),
{
    match directory_of(files, source_path) {
        Ok(directory) => lemma_directories_finite(files, ancestors(directory, files.drives)),
        Err(_) => {},
    }
}

proof fn lemma_aliases_finite(
    config: AliasConfigModel,
    declared: Seq<(Seq<char>, Seq<char>)>,
    directory: Seq<char>,
    path: Seq<char>,
)
    requires
        config.aliases.dom().finite(),
    ensures
        with_aliases(config, declared, directory, path) matches Ok(after)
            ==> after.aliases.dom().finite(),
    decreases declared.len(),
{
    if declared.len() > 0 {
        lemma_aliases_finite(config, declared.drop_last(), directory, path);
    }
}

proof fn lemma_directories_finite(files: FilesModel, directories: Seq<Seq<char>>)
    ensures
        with_directories(files, directories) matches Ok(config) ==> config.aliases.dom().finite(),
    decreases directories.len(),
{
    if directories.len() > 0 {
        lemma_directories_finite(files, directories.drop_last());
        match with_directories(files, directories.drop_last()) {
            Ok(before) => {
                let directory = directories.last();
                let luaurc = joined(directory, ".luaurc"@);
                let config_luau = joined(directory, ".config.luau"@);
                let watching = AliasConfigModel {
                    relevant_paths: before.relevant_paths.push(luaurc).push(config_luau),
                    ..before
                };
                match written_aliases_of(files, luaurc) {
                    Ok(declared) => lemma_aliases_finite(watching, declared, directory, luaurc),
                    Err(_) => {},
                }
                match computed_aliases_of(files, config_luau) {
                    Ok(declared) => lemma_aliases_finite(
                        watching,
                        declared,
                        directory,
                        config_luau,
                    ),
                    Err(_) => {},
                }
            },
            Err(_) => {},
        }
    }
}

} // verus!
