//! Alias configurations that were loaded before.

use vstd::prelude::*;

use crate::config::{AliasConfig, AliasConfigModel};
use crate::paths::{
    components, path_components, path_starts_with, path_within, same_components, PathComponent,
};

verus! {

struct CachedConfig {
    directory: Vec<PathComponent<String>>,
    config: AliasConfig,
}

/// A directory, by the components of its path, and its configuration.
pub struct CachedModel {
    pub directory: Seq<PathComponent<Seq<char>>>,
    pub config: AliasConfigModel,
}

impl DeepView for CachedConfig {
    type V = CachedModel;

    closed spec fn deep_view(&self) -> CachedModel {
        CachedModel { directory: self.directory.deep_view(), config: self.config.deep_view() }
    }
}

/// Alias configurations by directory, in the order in which they were loaded.
pub struct AliasCache {
    configs: Vec<CachedConfig>,
}

impl DeepView for AliasCache {
    type V = Seq<CachedModel>;

    closed spec fn deep_view(&self) -> Seq<CachedModel> {
        self.configs.deep_view()
    }
}

/// The configuration of a directory, where it was loaded.
pub open spec fn cached_config(
    cache: Seq<CachedModel>,
    directory: Seq<PathComponent<Seq<char>>>,
) -> Option<AliasConfigModel>
    decreases cache.len(),
{
    if cache.len() == 0 {
        None
    } else if cache[0].directory == directory {
        Some(cache[0].config)
    } else {
        cached_config(cache.drop_first(), directory)
    }
}

/// Whether a configuration depends on `path` or on something below it.
pub open spec fn depends_on(config: AliasConfigModel, path: Seq<char>) -> bool {
    exists|i: int|
        0 <= i < config.relevant_paths.len() && path_within(
            #[trigger] config.relevant_paths[i],
            path,
        )
}

/// The configurations that a change at `path` does not touch.
pub open spec fn without_dependents(cache: Seq<CachedModel>, path: Seq<char>) -> Seq<CachedModel> {
    cache.filter(|cached: CachedModel| !depends_on(cached.config, path))
}

impl AliasCache {
    /// Nothing was loaded.
    pub fn new() -> (cache: AliasCache)
        ensures
            cache.deep_view() == Seq::<CachedModel>::empty(),
    {
        let cache = AliasCache { configs: Vec::new() };
        assert(cache.deep_view() =~= Seq::<CachedModel>::empty());
        cache
    }

    /// The configuration of `directory`, where it was loaded.
    pub fn get(&self, directory: &str) -> (config: Option<&AliasConfig>)
        ensures
            config.deep_view() == cached_config(
                self.deep_view(),
                components(directory@),
            ),
    {
        let wanted = path_components(directory);
        let ghost cache = self.deep_view();
        let mut i: usize = 0;
        assert(cache.skip(0) == cache);
        while i < self.configs.len()
            invariant
                i <= self.configs@.len(),
                cache == self.deep_view(),
                cached_config(cache, wanted.deep_view()) == cached_config(
                    cache.skip(i as int),
                    wanted.deep_view(),
                ),
                wanted.deep_view() == components(directory@),
            decreases self.configs@.len() - i,
        {
            assert(cache.skip(i as int)[0] == self.configs@[i as int].deep_view());
            assert(cache.skip(i as int).drop_first() == cache.skip(i + 1));
            if same_components(&self.configs[i].directory, &wanted) {
                return Some(&self.configs[i].config);
            }
            i += 1;
        }
        None
    }

    /// Keeps the configuration of a directory.
    pub fn insert(&mut self, directory: &str, config: AliasConfig)
        ensures
            final(self).deep_view() == old(self).deep_view().push(
                CachedModel {
                    directory: components(directory@),
                    config: config.deep_view(),
                },
            ),
    {
        let ghost before = self.deep_view();
        self.configs.push(CachedConfig { directory: path_components(directory), config });
        assert(self.deep_view() =~= before.push(
            CachedModel {
                directory: components(directory@),
                config: config.deep_view(),
            },
        ));
    }

    /// How many configurations were loaded.
    pub fn len(&self) -> (count: usize)
        ensures
            count == self.deep_view().len(),
    {
        self.configs.len()
    }

    /// Drops all but the first `count` configurations.
    pub fn truncate(&mut self, count: usize)
        ensures
            final(self).deep_view() == if count <= old(self).deep_view().len() {
                old(self).deep_view().take(count as int)
            } else {
                old(self).deep_view()
            },
    {
        let ghost before = self.deep_view();
        self.configs.truncate(count);
        assert(self.deep_view() =~= if count <= before.len() {
            before.take(count as int)
        } else {
            before
        });
    }

    /// Drops the configurations that depend on `path` or on something below it.
    pub fn drop_dependents(&mut self, path: &str)
        ensures
            final(self).deep_view() == without_dependents(old(self).deep_view(), path@),
    {
        let ghost untouched = |cached: CachedModel| !depends_on(cached.config, path@);
        let ghost cache = self.deep_view();
        let mut configs: Vec<CachedConfig> = Vec::new();
        std::mem::swap(&mut configs, &mut self.configs);
        proof {
            reveal(Seq::filter);
            assert(self.deep_view() == cache.take(0).filter(untouched));
        }
        for cached in iter: configs
            invariant
                cache == configs.deep_view(),
                iter.seq() == configs@,
                untouched == (|cached: CachedModel| !depends_on(cached.config, path@)),
                self.deep_view() == cache.take(iter.index()).filter(untouched),
        {
            let ghost before = cache.take(iter.index());
            let ghost kept = self.deep_view();
            let ghost model = cached.deep_view();
            proof {
                assert(cache.take(iter.index() + 1) == before.push(model));
                before.lemma_filter_push(model, untouched);
            }
            if !is_dependent(&cached.config, path) {
                self.configs.push(cached);
                assert(self.deep_view() == kept.push(model));
            }
        }
        assert(cache.take(cache.len() as int) == cache);
    }
}

fn is_dependent(config: &AliasConfig, path: &str) -> (yes: bool)
    ensures
        yes == depends_on(config.deep_view(), path@),
{
    let paths = config.relevant_paths();
    let mut i: usize = 0;
    while i < paths.len()
        invariant
            i <= paths@.len(),
            paths.deep_view() == config.deep_view().relevant_paths,
            forall|j: int| 0 <= j < i ==> !path_within(#[trigger] paths.deep_view()[j], path@),
        decreases paths@.len() - i,
    {
        assert(paths.deep_view()[i as int] == paths@[i as int]@);
        if path_starts_with(paths[i].as_str(), path) {
            return true;
        }
        i += 1;
    }
    false
}

/// A change drops a configuration exactly where the configuration depends on it.
pub proof fn change_drops_dependents(cache: Seq<CachedModel>, path: Seq<char>, cached: CachedModel)
    ensures
        without_dependents(cache, path).contains(cached) <==> cache.contains(cached)
            && !depends_on(cached.config, path),
{
    let untouched = |cached: CachedModel| !depends_on(cached.config, path);
    let kept = without_dependents(cache, path);
    if kept.contains(cached) {
        let i = choose|i: int| 0 <= i < kept.len() && kept[i] == cached;
        cache.lemma_filter_pred(untouched, i);
        cache.lemma_filter_contains_rev(untouched, cached);
    }
    if cache.contains(cached) && !depends_on(cached.config, path) {
        let i = choose|i: int| 0 <= i < cache.len() && cache[i] == cached;
        cache.lemma_filter_contains(untouched, i);
    }
}

/// Whether each configuration declares finitely many aliases, as all that are loaded do.
pub open spec fn finite_configs(configs: Seq<CachedModel>) -> bool {
    forall|i: int| 0 <= i < configs.len() ==> (#[trigger] configs[i]).config.aliases.dom().finite()
}

/// A configuration that was loaded declares finitely many aliases.
pub(crate) proof fn lemma_cached(
    configs: Seq<CachedModel>,
    directory: Seq<PathComponent<Seq<char>>>,
)
    requires
        finite_configs(configs),
    ensures
        cached_config(configs, directory) matches Some(config) ==> config.aliases.dom().finite(),
    decreases configs.len(),
{
    if configs.len() > 0 {
        let rest = configs.drop_first();
        assert forall|i: int| 0 <= i < rest.len() implies (
        #[trigger] rest[i]).config.aliases.dom().finite() by {
            assert(rest[i] == configs[i + 1]);
        }
        lemma_cached(rest, directory);
    }
}

} // verus!
