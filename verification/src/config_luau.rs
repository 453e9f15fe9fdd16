//! Aliases that a `.config.luau` file computes when it is run.

use vstd::prelude::*;

use crate::duplicate::Duplicate;
use crate::error::{outcome, with_text, ConfigStage, Error};
use crate::files::{clone_pairs, reply_of};
use crate::text::{is_text_less, text_less, text_less_total, text_less_transitive};

verus! {

/// `mlua::Lua`: a Luau virtual machine.
#[verifier::external_type_specification]
#[verifier::external_body]
pub struct ExLua(mlua::Lua);

/// `mlua::Value`: a value of a Luau virtual machine.
#[verifier::external_type_specification]
#[verifier::external_body]
pub struct ExValue(mlua::Value);

/// `mlua::Table`: a table of a Luau virtual machine.
#[verifier::external_type_specification]
#[verifier::external_body]
pub struct ExTable(mlua::Table);

/// `mlua::Lua::new` makes a machine with the safe standard libraries. Nothing is
/// claimed of it.
pub assume_specification[ mlua::Lua::new ]() -> mlua::Lua
;

/// Whether switching the sandbox of a machine may fail so.
pub uninterp spec fn may_sandbox(lua: mlua::Lua, enabled: bool, detail: Seq<char>) -> bool;

/// Whether the sandbox of a machine was last switched so.
pub uninterp spec fn is_sandboxed(lua: mlua::Lua, enabled: bool) -> bool;

/// Whether a machine asks [`interruption`] as a chunk runs.
pub uninterp spec fn is_limited(lua: mlua::Lua) -> bool;

/// Whether a chunk of this name and with these contents may end so on a machine: with a
/// value, or with the text of an error. How long it takes decides too, so that one chunk
/// may end in more than one way.
pub uninterp spec fn may_evaluate(
    lua: mlua::Lua,
    name: Seq<char>,
    contents: Seq<char>,
    result: Result<mlua::Value, Seq<char>>,
) -> bool;

/// Whether a value was made by a machine.
pub uninterp spec fn is_value_of(value: mlua::Value, lua: mlua::Lua) -> bool;

/// Whether a table was made by a machine.
pub uninterp spec fn is_table_of(table: mlua::Table, lua: mlua::Lua) -> bool;

/// The table that a value is, where it is one.
pub uninterp spec fn table_in(value: mlua::Value) -> Option<mlua::Table>;

/// Whether a field of a table may be found so: as a table, as nil, or as something that
/// is neither, with the text of the error. What a table holds can change, so that one
/// field may be found in more than one way.
pub uninterp spec fn may_find(
    table: mlua::Table,
    name: Seq<char>,
    found: Result<Option<mlua::Table>, Seq<char>>,
) -> bool;

/// Whether a table may be listed so: as pairs of texts, a number as its digits, or, where a
/// key or a value is no text, with the text of the error.
pub uninterp spec fn may_list(
    table: mlua::Table,
    pairs: Result<Seq<(Seq<char>, Seq<char>)>, Seq<char>>,
) -> bool;

/// `mlua::Lua::sandbox`: switches the sandbox of a machine and hands the machine back.
/// Whether that fails depends on the memory that the machine gets; the contract says of
/// which machine and of which switch the error is.
#[verifier::external_body]
fn sandbox(lua: mlua::Lua, enabled: bool) -> (result: Result<mlua::Lua, String>)
    ensures
        match result {
            Ok(switched) => is_sandboxed(switched, enabled),
            Err(detail) => may_sandbox(lua, enabled, detail@),
        },
{
    match lua.sandbox(enabled) {
        Ok(()) => Ok(lua),
        Err(error) => Err(error.to_string()),
    }
}

/// How many milliseconds a configuration file may run.
pub const TIME_LIMIT: u128 = 2000;

/// The error to raise in a chunk that has run for `elapsed` milliseconds.
pub fn interruption(elapsed: u128) -> (message: Option<String>)
    ensures
        message.deep_view() == if elapsed >= TIME_LIMIT {
            Some("configuration execution timed out"@)
        } else {
            None
        },
{
    if elapsed >= TIME_LIMIT {
        Some("configuration execution timed out".to_owned())
    } else {
        None
    }
}

/// `mlua::Lua::set_interrupt`: as a chunk runs, the machine that is handed back asks
/// [`interruption`] with the time since this call and raises the error that it gives. Its
/// sandbox stays as it is. Nothing is claimed of how often it asks.
#[verifier::external_body]
fn limit_time(lua: mlua::Lua) -> (limited: mlua::Lua)
    ensures
        forall|enabled: bool|
            is_sandboxed(lua, enabled) ==> #[trigger] is_sandboxed(limited, enabled),
        is_limited(limited),
{
    let start = std::time::Instant::now();
    lua.set_interrupt(
        move |_| match interruption(start.elapsed().as_millis()) {
            Some(message) => Err(mlua::Error::RuntimeError(message)),
            None => Ok(mlua::VmState::Continue),
        },
    );
    lua
}

/// `mlua::Chunk::eval` of the contents under the given name, on a machine with a sandbox
/// and a limit on its time: without the limit a chunk may never end. The contents are taken
/// as source text and never as bytecode, which the machine would run unchecked. The
/// contract says what was run and on which machine, and that the value is one of that
/// machine.
#[verifier::external_body]
fn evaluate(lua: &mlua::Lua, name: &str, contents: &str) -> (result: Result<mlua::Value, String>)
    requires
        is_sandboxed(*lua, true),
        is_limited(*lua),
    ensures
        may_evaluate(*lua, name@, contents@, with_text(result)),
        result matches Ok(value) ==> is_value_of(value, *lua),
{
    let chunk = lua.load(contents).set_name(name).set_mode(mlua::chunk::ChunkMode::Text);
    chunk.eval().map_err(|error| error.to_string())
}

/// `mlua::Value::as_table`: the table that a value is, where it is one, on the machine of
/// the value.
#[verifier::external_body]
fn table_of(_lua: &mlua::Lua, value: &mlua::Value) -> (table: Option<mlua::Table>)
    requires
        is_value_of(*value, *_lua),
    ensures
        table == table_in(*value),
        table matches Some(table) ==> is_table_of(table, *_lua),
{
    value.as_table().cloned()
}

/// `mlua::Table::get` for a field that is a table or nil. The contract says which field of
/// which table was asked for, and that a table found there is one of the same machine. A
/// table whose machine is gone cannot be asked, so the machine is borrowed meanwhile; and
/// since the table may run code to give the field, the time of the machine is limited.
#[verifier::external_body]
fn field(_lua: &mlua::Lua, table: &mlua::Table, name: &str) -> (found: Result<
    Option<mlua::Table>,
    String,
>)
    requires
        is_table_of(*table, *_lua),
        is_limited(*_lua),
    ensures
        may_find(*table, name@, with_text(found)),
        found matches Ok(Some(inner)) ==> is_table_of(inner, *_lua),
{
    table.get(name).map_err(|error| error.to_string())
}

/// `mlua::Table::pairs`, up to the first key or value that is not a text. The contract
/// says which table was listed. A table whose machine is gone cannot be listed, so the
/// machine is borrowed meanwhile.
#[verifier::external_body]
fn pairs(_lua: &mlua::Lua, table: &mlua::Table) -> (pairs: Result<Vec<(String, String)>, String>)
    requires
        is_table_of(*table, *_lua),
    ensures
        may_list(*table, reply_of(pairs)),
{
    table.pairs().collect::<mlua::Result<_>>().map_err(|error| error.to_string())
}

/// How the run of a configuration file ended, over the type of its texts and of the
/// pairs that it gave.
#[derive(Debug, PartialEq, Eq)]
pub enum ConfigRun<S, P> {
    /// The machine could not be sandboxed.
    NoSandbox(S),
    /// The file failed.
    Failed(S),
    /// The file returned something other than a table.
    NoTable,
    /// The `luau` field is neither a table nor nil.
    BadLuau(S),
    /// There is no `luau` field.
    NoLuau,
    /// The `luau.aliases` field is neither a table nor nil.
    BadAliases(S),
    /// There is no `luau.aliases` field.
    NoAliases,
    /// A key or a value of `luau.aliases` is neither a string in UTF-8 nor a number.
    BadPair(S),
    /// The pairs of `luau.aliases`.
    Pairs(P),
}

/// [`ConfigRun`] in contracts.
pub type RunModel = ConfigRun<Seq<char>, Seq<(Seq<char>, Seq<char>)>>;

impl DeepView for ConfigRun<String, Vec<(String, String)>> {
    type V = RunModel;

    open spec fn deep_view(&self) -> RunModel {
        match self {
            ConfigRun::NoSandbox(detail) => ConfigRun::NoSandbox(detail@),
            ConfigRun::Failed(detail) => ConfigRun::Failed(detail@),
            ConfigRun::NoTable => ConfigRun::NoTable,
            ConfigRun::BadLuau(detail) => ConfigRun::BadLuau(detail@),
            ConfigRun::NoLuau => ConfigRun::NoLuau,
            ConfigRun::BadAliases(detail) => ConfigRun::BadAliases(detail@),
            ConfigRun::NoAliases => ConfigRun::NoAliases,
            ConfigRun::BadPair(detail) => ConfigRun::BadPair(detail@),
            ConfigRun::Pairs(pairs) => ConfigRun::Pairs(pairs.deep_view()),
        }
    }
}

impl Duplicate for ConfigRun<String, Vec<(String, String)>> {
    fn duplicate(&self) -> (copy: Self) {
        match self {
            ConfigRun::NoSandbox(detail) => ConfigRun::NoSandbox(detail.clone()),
            ConfigRun::Failed(detail) => ConfigRun::Failed(detail.clone()),
            ConfigRun::NoTable => ConfigRun::NoTable,
            ConfigRun::BadLuau(detail) => ConfigRun::BadLuau(detail.clone()),
            ConfigRun::NoLuau => ConfigRun::NoLuau,
            ConfigRun::BadAliases(detail) => ConfigRun::BadAliases(detail.clone()),
            ConfigRun::NoAliases => ConfigRun::NoAliases,
            ConfigRun::BadPair(detail) => ConfigRun::BadPair(detail.clone()),
            ConfigRun::Pairs(pairs) => ConfigRun::Pairs(clone_pairs(pairs)),
        }
    }
}

/// Whether a machine may refuse the sandbox so.
pub open spec fn may_have_no_sandbox(detail: Seq<char>) -> bool {
    exists|lua: mlua::Lua| #[trigger] may_sandbox(lua, true, detail)
}

/// Whether the file at `path` may fail so, run in a sandbox and for a limited time.
pub open spec fn may_fail(path: Seq<char>, contents: Seq<char>, detail: Seq<char>) -> bool {
    exists|lua: mlua::Lua|
        {
            &&& is_sandboxed(lua, true)
            &&& is_limited(lua)
            &&& #[trigger] may_evaluate(lua, path, contents, Err(detail))
        }
}

/// Whether the file at `path` may return `value`, run in a sandbox and for a limited time.
pub open spec fn may_return(path: Seq<char>, contents: Seq<char>, value: mlua::Value) -> bool {
    exists|lua: mlua::Lua|
        {
            &&& is_sandboxed(lua, true)
            &&& is_limited(lua)
            &&& #[trigger] may_evaluate(lua, path, contents, Ok(value))
        }
}

/// Whether the file at `path` may return `root`, which is a table.
pub open spec fn may_return_table(
    path: Seq<char>,
    contents: Seq<char>,
    root: mlua::Table,
) -> bool {
    exists|value: mlua::Value| #[trigger]
        may_return(path, contents, value) && table_in(value) == Some(root)
}

/// Whether the file at `path` may return a table with the table `luau` under `luau`.
pub open spec fn may_configure(path: Seq<char>, contents: Seq<char>, luau: mlua::Table) -> bool {
    exists|root: mlua::Table| #[trigger]
        may_return_table(path, contents, root) && may_find(root, "luau"@, Ok(Some(luau)))
}

/// Whether the file at `path` may return a table with the table `aliases` under
/// `luau.aliases`.
pub open spec fn may_declare(path: Seq<char>, contents: Seq<char>, aliases: mlua::Table) -> bool {
    exists|luau: mlua::Table| #[trigger]
        may_configure(path, contents, luau) && may_find(luau, "aliases"@, Ok(Some(aliases)))
}

/// Whether the run of the file at `path` may end so.
pub open spec fn may_run(
    path: Seq<char>,
    contents: Seq<char>,
    run: RunModel,
) -> bool {
    match run {
        ConfigRun::NoSandbox(detail) => may_have_no_sandbox(detail),
        ConfigRun::Failed(detail) => may_fail(path, contents, detail),
        ConfigRun::NoTable => exists|value: mlua::Value| #[trigger]
            may_return(path, contents, value) && table_in(value) is None,
        ConfigRun::BadLuau(detail) => exists|root: mlua::Table| #[trigger]
            may_return_table(path, contents, root) && may_find(root, "luau"@, Err(detail)),
        ConfigRun::NoLuau => exists|root: mlua::Table| #[trigger]
            may_return_table(path, contents, root) && may_find(root, "luau"@, Ok(None)),
        ConfigRun::BadAliases(detail) => exists|luau: mlua::Table| #[trigger]
            may_configure(path, contents, luau) && may_find(luau, "aliases"@, Err(detail)),
        ConfigRun::NoAliases => exists|luau: mlua::Table| #[trigger]
            may_configure(path, contents, luau) && may_find(luau, "aliases"@, Ok(None)),
        ConfigRun::BadPair(detail) => exists|aliases: mlua::Table| #[trigger]
            may_declare(path, contents, aliases) && may_list(aliases, Err(detail)),
        ConfigRun::Pairs(pairs) => exists|aliases: mlua::Table| #[trigger]
            may_declare(path, contents, aliases) && may_list(aliases, Ok(pairs)),
    }
}

/// Runs a configuration file and keeps the pairs of its `luau.aliases` field.
pub fn run_config_luau(path: &str, contents: &str) -> (run: ConfigRun<
    String,
    Vec<(String, String)>,
>)
    ensures
        may_run(path@, contents@, run.deep_view()),
{
    let lua = match sandbox(mlua::Lua::new(), true) {
        Err(detail) => {
            assert(may_have_no_sandbox(detail@));
            return ConfigRun::NoSandbox(detail);
        },
        Ok(lua) => limit_time(lua),
    };
    let value = match evaluate(&lua, path, contents) {
        Err(detail) => {
            assert(may_fail(path@, contents@, detail@));
            return ConfigRun::Failed(detail);
        },
        Ok(value) => value,
    };
    assert(may_return(path@, contents@, value));
    let root = match table_of(&lua, &value) {
        None => {
            return ConfigRun::NoTable;
        },
        Some(root) => root,
    };
    assert(may_return_table(path@, contents@, root));
    let luau = match field(&lua, &root, "luau") {
        Err(detail) => {
            return ConfigRun::BadLuau(detail);
        },
        Ok(None) => {
            return ConfigRun::NoLuau;
        },
        Ok(Some(luau)) => luau,
    };
    assert(may_configure(path@, contents@, luau));
    let aliases = match field(&lua, &luau, "aliases") {
        Err(detail) => {
            return ConfigRun::BadAliases(detail);
        },
        Ok(None) => {
            return ConfigRun::NoAliases;
        },
        Ok(Some(aliases)) => aliases,
    };
    assert(may_declare(path@, contents@, aliases));
    match pairs(&lua, &aliases) {
        Err(detail) => ConfigRun::BadPair(detail),
        Ok(pairs) => ConfigRun::Pairs(pairs),
    }
}

/// A row of pairs in the order of their names, with one more pair: in place of the
/// one with its name, where there is one.
pub open spec fn with_pair(
    sorted: Seq<(Seq<char>, Seq<char>)>,
    pair: (Seq<char>, Seq<char>),
) -> Seq<(Seq<char>, Seq<char>)>
    decreases sorted.len(),
{
    if sorted.len() == 0 {
        seq![pair]
    } else if sorted[0].0 == pair.0 {
        seq![pair] + sorted.drop_first()
    } else if text_less(pair.0, sorted[0].0) {
        seq![pair] + sorted
    } else {
        seq![sorted[0]] + with_pair(sorted.drop_first(), pair)
    }
}

/// Pairs in the order of their names, the last value under each name.
pub open spec fn sorted_pairs(pairs: Seq<(Seq<char>, Seq<char>)>) -> Seq<(Seq<char>, Seq<char>)>
    decreases pairs.len(),
{
    if pairs.len() == 0 {
        seq![]
    } else {
        with_pair(sorted_pairs(pairs.drop_last()), pairs.last())
    }
}

/// The aliases that a run gives, or the error.
pub open spec fn run_aliases(
    path: Seq<char>,
    run: RunModel,
) -> Result<Seq<(Seq<char>, Seq<char>)>, Error<Seq<char>>> {
    match run {
        ConfigRun::NoSandbox(detail) => Err(
            Error::Config { path, stage: ConfigStage::Sandbox, detail },
        ),
        ConfigRun::Failed(detail) => Err(
            Error::Config { path, stage: ConfigStage::Execution, detail },
        ),
        ConfigRun::NoTable => Err(
            Error::Config { path, stage: ConfigStage::Result, detail: Seq::empty() },
        ),
        ConfigRun::BadLuau(detail) => Err(
            Error::Config { path, stage: ConfigStage::LuauField, detail },
        ),
        ConfigRun::BadAliases(detail) => Err(
            Error::Config { path, stage: ConfigStage::AliasesField, detail },
        ),
        ConfigRun::BadPair(detail) => Err(
            Error::Config { path, stage: ConfigStage::Alias, detail },
        ),
        ConfigRun::NoLuau | ConfigRun::NoAliases => Ok(seq![]),
        ConfigRun::Pairs(pairs) => Ok(sorted_pairs(pairs)),
    }
}

fn insert_pair(sorted: &mut Vec<(String, String)>, pair: (String, String))
    ensures
        final(sorted).deep_view() == with_pair(old(sorted).deep_view(), pair.deep_view()),
{
    let ghost row = sorted.deep_view();
    let mut i: usize = 0;
    assert(row.take(0) + with_pair(row.skip(0), pair.deep_view()) == with_pair(
        row,
        pair.deep_view(),
    )) by {
        assert(row.skip(0) == row);
    }
    while i < sorted.len() && is_text_less(sorted[i].0.as_str(), pair.0.as_str())
        invariant
            i <= sorted@.len(),
            row == sorted.deep_view(),
            sorted@ == old(sorted)@,
            row.take(i as int) + with_pair(row.skip(i as int), pair.deep_view()) == with_pair(
                row,
                pair.deep_view(),
            ),
        decreases sorted@.len() - i,
    {
        proof {
            text_less_total(row[i as int].0, pair.0@);
            assert(row.skip(i as int).drop_first() == row.skip(i + 1));
            assert(row.skip(i as int)[0] == sorted@[i as int].deep_view());
            assert(row.take(i as int) + (seq![row[i as int]] + with_pair(
                row.skip(i + 1),
                pair.deep_view(),
            )) == row.take(i + 1) + with_pair(row.skip(i + 1), pair.deep_view()));
        }
        i += 1;
    }
    let ghost new = pair.deep_view();
    if i < sorted.len() && sorted[i].0 == pair.0 {
        proof {
            assert(row.skip(i as int)[0] == sorted@[i as int].deep_view());
        }
        sorted.set(i, pair);
        assert(sorted.deep_view() == row.take(i as int) + (seq![new] + row.skip(
            i as int,
        ).drop_first()));
    } else {
        proof {
            if i < row.len() {
                assert(row.skip(i as int)[0] == sorted@[i as int].deep_view());
                text_less_total(row[i as int].0, new.0);
            }
        }
        sorted.insert(i, pair);
        assert(sorted.deep_view() == row.take(i as int) + (seq![new] + row.skip(i as int)));
        assert(i == row.len() ==> seq![new] + row.skip(i as int) == seq![new]);
    }
}

/// The aliases of a run in the order of their names, or the error that it is.
pub fn config_aliases(path: &str, run: ConfigRun<String, Vec<(String, String)>>) -> (aliases:
    Result<Vec<(String, String)>, Error<String>>)
    ensures
        outcome(aliases) == run_aliases(path@, run.deep_view()),
{
    let pairs = match run {
        ConfigRun::NoSandbox(detail) => {
            return Err(
                Error::Config { path: path.to_owned(), stage: ConfigStage::Sandbox, detail },
            );
        },
        ConfigRun::Failed(detail) => {
            return Err(
                Error::Config { path: path.to_owned(), stage: ConfigStage::Execution, detail },
            );
        },
        ConfigRun::NoTable => {
            return Err(
                Error::Config {
                    path: path.to_owned(),
                    stage: ConfigStage::Result,
                    detail: String::new(),
                },
            );
        },
        ConfigRun::BadLuau(detail) => {
            return Err(
                Error::Config { path: path.to_owned(), stage: ConfigStage::LuauField, detail },
            );
        },
        ConfigRun::BadAliases(detail) => {
            return Err(
                Error::Config { path: path.to_owned(), stage: ConfigStage::AliasesField, detail },
            );
        },
        ConfigRun::BadPair(detail) => {
            return Err(Error::Config { path: path.to_owned(), stage: ConfigStage::Alias, detail });
        },
        ConfigRun::NoLuau | ConfigRun::NoAliases => Vec::new(),
        ConfigRun::Pairs(pairs) => pairs,
    };
    let mut sorted: Vec<(String, String)> = Vec::new();
    let mut i: usize = 0;
    assert(sorted.deep_view() == sorted_pairs(pairs.deep_view().take(0)));
    while i < pairs.len()
        invariant
            i <= pairs@.len(),
            sorted.deep_view() == sorted_pairs(pairs.deep_view().take(i as int)),
        decreases pairs@.len() - i,
    {
        let ghost done = pairs.deep_view().take(i + 1);
        assert(done.drop_last() == pairs.deep_view().take(i as int));
        assert(done.last() == pairs@[i as int].deep_view());
        insert_pair(&mut sorted, (pairs[i].0.clone(), pairs[i].1.clone()));
        i += 1;
    }
    assert(pairs.deep_view().take(i as int) == pairs.deep_view());
    Ok(sorted)
}

/// Runs a configuration file and gives the aliases that it declares, in the order of
/// their names.
pub fn parse_config_luau(path: &str, contents: &str) -> (aliases: Result<
    Vec<(String, String)>,
    Error<String>,
>)
    ensures
        exists|run: RunModel|
            #[trigger] may_run(path@, contents@, run) && outcome(aliases) == run_aliases(
                path@,
                run,
            ),
{
    let run = run_config_luau(path, contents);
    assert(may_run(path@, contents@, run.deep_view()));
    config_aliases(path, run)
}

/// Whether each name comes before all that follow.
pub open spec fn names_increase(row: Seq<(Seq<char>, Seq<char>)>) -> bool {
    forall|i: int, j: int|
        0 <= i < j < row.len() ==> text_less((#[trigger] row[i]).0, (#[trigger] row[j]).0)
}

/// Whether `pair` is the last of a row with its name.
pub open spec fn is_last(row: Seq<(Seq<char>, Seq<char>)>, pair: (Seq<char>, Seq<char>)) -> bool {
    exists|i: int|
        {
            &&& 0 <= i < row.len()
            &&& #[trigger] row[i] == pair
            &&& forall|j: int| i < j < row.len() ==> (#[trigger] row[j]).0 != pair.0
        }
}

proof fn lemma_with_pair(sorted: Seq<(Seq<char>, Seq<char>)>, pair: (Seq<char>, Seq<char>))
    requires
        names_increase(sorted),
    ensures
        names_increase(with_pair(sorted, pair)),
        forall|p: (Seq<char>, Seq<char>)| #[trigger]
            with_pair(sorted, pair).contains(p) <==> p == pair || (sorted.contains(p) && p.0
                != pair.0),
    decreases sorted.len(),
{
    let longer = with_pair(sorted, pair);
    if sorted.len() == 0 {
        assert(longer[0] == pair);
    } else {
        let rest = sorted.drop_first();
        assert forall|i: int, j: int| 0 <= i < j < rest.len() implies text_less(
            (#[trigger] rest[i]).0,
            (#[trigger] rest[j]).0,
        ) by {
            assert(rest[i] == sorted[i + 1] && rest[j] == sorted[j + 1]);
        }
        assert forall|p: (Seq<char>, Seq<char>)| #[trigger] sorted.contains(p) <==> p == sorted[0]
            || rest.contains(p) by {
            if sorted.contains(p) {
                let i = choose|i: int| 0 <= i < sorted.len() && sorted[i] == p;
                if i > 0 {
                    assert(rest[i - 1] == p);
                }
            }
            if rest.contains(p) {
                let i = choose|i: int| 0 <= i < rest.len() && rest[i] == p;
                assert(sorted[i + 1] == p);
            }
        }
        let tail = if sorted[0].0 == pair.0 {
            rest
        } else if text_less(pair.0, sorted[0].0) {
            sorted
        } else {
            with_pair(rest, pair)
        };
        let first = if sorted[0].0 == pair.0 || text_less(pair.0, sorted[0].0) {
            pair
        } else {
            sorted[0]
        };
        assert(longer == seq![first] + tail);
        assert forall|p: (Seq<char>, Seq<char>)| #[trigger] longer.contains(p) <==> p == first
            || tail.contains(p) by {
            if longer.contains(p) {
                let i = choose|i: int| 0 <= i < longer.len() && longer[i] == p;
                if i > 0 {
                    assert(tail[i - 1] == p);
                }
            }
            if tail.contains(p) {
                let i = choose|i: int| 0 <= i < tail.len() && tail[i] == p;
                assert(longer[i + 1] == p);
            }
            assert(longer[0] == first);
        }
        assert forall|p: (Seq<char>, Seq<char>)| #[trigger] rest.contains(p) implies text_less(
            sorted[0].0,
            p.0,
        ) by {
            let i = choose|i: int| 0 <= i < rest.len() && rest[i] == p;
            assert(sorted[i + 1] == p);
        }
        text_less_total(sorted[0].0, pair.0);
        if first != pair {
            lemma_with_pair(rest, pair);
        } else if sorted[0].0 != pair.0 {
            assert forall|p: (Seq<char>, Seq<char>)| #[trigger] rest.contains(p) implies text_less(
                pair.0,
                p.0,
            ) by {
                text_less_transitive(pair.0, sorted[0].0, p.0);
            }
        }
        assert forall|p: (Seq<char>, Seq<char>)| #[trigger] tail.contains(p) implies text_less(
            first.0,
            p.0,
        ) by {}
        assert forall|i: int, j: int| 0 <= i < j < longer.len() implies text_less(
            (#[trigger] longer[i]).0,
            (#[trigger] longer[j]).0,
        ) by {
            assert(longer[j] == tail[j - 1]);
            assert(tail.contains(tail[j - 1]));
            if i > 0 {
                assert(longer[i] == tail[i - 1]);
            }
        }
        assert forall|p: (Seq<char>, Seq<char>)| #[trigger] longer.contains(p) <==> p == pair || (
        sorted.contains(p) && p.0 != pair.0) by {
            if rest.contains(p) {
                text_less_total(sorted[0].0, p.0);
                text_less_total(pair.0, p.0);
            }
        }
    }
}

/// The aliases of a run come in the order of their names, with one value under each
/// name, the last that was given.
pub proof fn aliases_are_sorted(pairs: Seq<(Seq<char>, Seq<char>)>)
    ensures
        names_increase(sorted_pairs(pairs)),
        forall|pair: (Seq<char>, Seq<char>)| #[trigger]
            sorted_pairs(pairs).contains(pair) <==> is_last(pairs, pair),
    decreases pairs.len(),
{
    if pairs.len() > 0 {
        let before = pairs.drop_last();
        let last = pairs.last();
        aliases_are_sorted(before);
        lemma_with_pair(sorted_pairs(before), last);
        assert(pairs[pairs.len() - 1] == last);
        assert(forall|i: int| 0 <= i < before.len() ==> before[i] == pairs[i]);
        assert forall|pair: (Seq<char>, Seq<char>)| #[trigger]
            sorted_pairs(pairs).contains(pair) <==> is_last(pairs, pair) by {
            if is_last(before, pair) && pair.0 != last.0 {
                let i = choose|i: int|
                    {
                        &&& 0 <= i < before.len()
                        &&& #[trigger] before[i] == pair
                        &&& forall|j: int|
                            i < j < before.len() ==> (#[trigger] before[j]).0 != pair.0
                    };
                assert(pairs[i] == pair);
                assert forall|j: int| i < j < pairs.len() implies (#[trigger] pairs[j]).0
                    != pair.0 by {
                    if j < before.len() {
                        assert(before[j] == pairs[j]);
                    }
                }
            }
            if is_last(pairs, pair) && pair != last {
                let i = choose|i: int|
                    {
                        &&& 0 <= i < pairs.len()
                        &&& #[trigger] pairs[i] == pair
                        &&& forall|j: int|
                            i < j < pairs.len() ==> (#[trigger] pairs[j]).0 != pair.0
                    };
                assert(before[i] == pair);
                assert forall|j: int| i < j < before.len() implies (#[trigger] before[j]).0
                    != pair.0 by {
                    assert(before[j] == pairs[j]);
                }
            }
        }
    }
}

} // verus!
