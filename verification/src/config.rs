//! The configuration of a document: a configuration file above it, or else what
//! the client has set, or else the defaults. Each hides the next entirely.

use vstd::prelude::*;

use crate::lint::{
    is_known, named_ids, server_rules, unknown_ids, LintConfig, LintView, RuleInfo, RulesView,
    ServerRules,
};
use crate::paths::FilePath;
use crate::search::{
    first_index, kept, lemma_first_index, lemma_first_index_is, lemma_kept_from, lemma_kept_holds,
};
use crate::strings::cat;

verus! {

/// A configuration: the formatter's style and the lint section. `S` is the style,
/// `O` the options of single lint rules.
#[derive(Debug)]
pub struct Config<S, O> {
    pub style: S,
    pub lint: LintConfig<O>,
}

/// A configuration ready for use.
#[derive(Debug)]
pub struct ResolvedConfig<S, O> {
    pub style: S,
    pub rules: ServerRules<O>,
}

/// What a [`ResolvedConfig`] says.
pub struct ResolvedView<S, O> {
    pub style: S,
    pub rules: (RulesView<O>, RulesView<O>),
}

impl<S, O> DeepView for ResolvedConfig<S, O> {
    type V = ResolvedView<S, O>;

    open spec fn deep_view(&self) -> ResolvedView<S, O> {
        ResolvedView {
            style: self.style,
            rules: (self.rules.plain.deep_view(), self.rules.member.deep_view()),
        }
    }
}

/// A configuration made ready.
pub open spec fn resolved_config<S, O>(
    config: Config<S, O>,
    registry: Seq<RuleInfo>,
) -> ResolvedView<S, O> {
    ResolvedView { style: config.style, rules: server_rules(registry, config.lint.deep_view()) }
}

/// What is said of a rule that the linter does not know.
pub open spec fn unknown_warning(id: Seq<char>) -> Seq<char> {
    "unknown rule `"@ + id + "` in select/ignore/severity"@
}

/// The warnings that a configuration gives rise to.
pub open spec fn rule_warnings<O>(lint: LintView<O>, registry: Seq<RuleInfo>) -> Seq<Seq<char>> {
    let unknown = unknown_ids(registry, named_ids(lint));
    Seq::new(unknown.len(), |i: int| unknown_warning(unknown[i]))
}

impl<S, O> ResolvedConfig<S, O> {
    /// Makes a configuration ready, adding to `warnings` what is wrong with it.
    pub fn resolve(
        config: Config<S, O>,
        registry: &Vec<RuleInfo>,
        warnings: &mut Vec<String>,
    ) -> (r: ResolvedConfig<S, O>)
        ensures
            r.deep_view() == resolved_config(config, registry@),
            final(warnings).deep_view() == old(warnings).deep_view() + rule_warnings(
                config.lint.deep_view(),
                registry@,
            ),
    {
        let (rules, unknown) = ServerRules::from_config(&config.lint, registry);
        let ghost start = warnings.deep_view();
        let ghost all = rule_warnings(config.lint.deep_view(), registry@);
        let mut i: usize = 0;
        proof {
            assert(start + all.take(0) =~= start);
        }
        while i < unknown.len()
            invariant
                i <= unknown.len(),
                unknown.deep_view() == unknown_ids(registry@, named_ids(config.lint.deep_view())),
                all == rule_warnings(config.lint.deep_view(), registry@),
                warnings.deep_view() == start + all.take(i as int),
            decreases unknown.len() - i,
        {
            let head = cat("unknown rule `", unknown[i].as_str());
            let ghost before = warnings.deep_view();
            warnings.push(cat(head.as_str(), "` in select/ignore/severity"));
            proof {
                assert(unknown.deep_view()[i as int] == unknown@[i as int]@);
                assert(warnings.deep_view() =~= before.push(all[i as int]));
                assert(before.push(all[i as int]) =~= start + all.take(i + 1));
            }
            i = i + 1;
        }
        proof {
            assert(all.len() == unknown.deep_view().len());
            assert(all.take(i as int) =~= all);
        }
        ResolvedConfig { style: config.style, rules }
    }
}

/// Settings read as a configuration, with what is to be said of them, or why they
/// could not be read.
#[derive(Debug)]
pub enum ReadConfig<S, O> {
    Read { config: Config<S, O>, warnings: Vec<String> },
    Failed { error: String },
}

/// Settings that a client sends.
#[derive(Debug)]
pub enum ClientSettings<S, O> {
    /// Nothing but that something changed.
    Null,
    /// Settings, read as they stand and, where they have a section of the server's
    /// name, read from that section.
    Given { section: Option<ReadConfig<S, O>>, whole: ReadConfig<S, O> },
}

/// The reading that counts: that of the section, where there is one.
pub open spec fn payload<S, O>(
    section: Option<ReadConfig<S, O>>,
    whole: ReadConfig<S, O>,
) -> ReadConfig<S, O> {
    match section {
        Some(section) => section,
        None => whole,
    }
}

/// What discovery found above a directory.
#[derive(Debug)]
pub enum Discovery<S, O> {
    /// A file, with its warnings, each of which is to name the file.
    Found { config: Config<S, O>, source: String, deprecations: Vec<String> },
    /// No file.
    Absent,
    /// A file that could not be read.
    Unreadable { error: String },
}

/// A directory with what discovery found for it: a configuration of its own, or
/// none, so that the client's holds.
#[derive(Debug)]
pub struct DirConfig<S, O> {
    pub dir: FilePath,
    pub own: Option<ResolvedConfig<S, O>>,
}

/// What a [`DirConfig`] says.
pub struct DirView<S, O> {
    pub dir: Seq<Seq<char>>,
    pub own: Option<ResolvedView<S, O>>,
}

impl<S, O> DeepView for DirConfig<S, O> {
    type V = DirView<S, O>;

    open spec fn deep_view(&self) -> DirView<S, O> {
        DirView {
            dir: self.dir.deep_view(),
            own: match self.own {
                Some(own) => Some(own.deep_view()),
                None => None,
            },
        }
    }
}

/// The client's configuration, and what discovery has found so far.
#[derive(Debug)]
pub struct ConfigStore<S, O> {
    pub client: ResolvedConfig<S, O>,
    pub by_dir: Vec<DirConfig<S, O>>,
}

/// What a [`ConfigStore`] holds.
pub struct StoreView<S, O> {
    pub client: ResolvedView<S, O>,
    pub by_dir: Seq<DirView<S, O>>,
}

impl<S, O> DeepView for ConfigStore<S, O> {
    type V = StoreView<S, O>;

    open spec fn deep_view(&self) -> StoreView<S, O> {
        StoreView { client: self.client.deep_view(), by_dir: self.by_dir.deep_view() }
    }
}

/// That an entry is for one directory.
pub open spec fn is_dir<S, O>(dir: Seq<Seq<char>>) -> spec_fn(DirView<S, O>) -> bool {
    |entry: DirView<S, O>| entry.dir == dir
}

/// Where a directory stands among those that discovery has looked above.
pub open spec fn dir_index<S, O>(by_dir: Seq<DirView<S, O>>, dir: Seq<Seq<char>>) -> int {
    first_index(by_dir, is_dir(dir))
}

/// The configuration that holds for an entry.
pub open spec fn effective<S, O>(
    store: StoreView<S, O>,
    entry: DirView<S, O>,
) -> ResolvedView<S, O> {
    match entry.own {
        Some(own) => own,
        None => store.client,
    }
}

/// The configuration that is known for a directory: the client's where a document
/// has none, and nothing where discovery has to look.
pub open spec fn known<S, O>(store: StoreView<S, O>, dir: Option<Seq<Seq<char>>>) -> Option<
    ResolvedView<S, O>,
> {
    match dir {
        None => Some(store.client),
        Some(dir) => {
            let at = dir_index(store.by_dir, dir);
            if at < store.by_dir.len() {
                Some(effective(store, store.by_dir[at]))
            } else {
                None
            }
        },
    }
}

/// What discovery contributes: a configuration of its own, where it found one.
pub open spec fn discovered<S, O>(discovery: Discovery<S, O>, registry: Seq<RuleInfo>) -> Option<
    ResolvedView<S, O>,
> {
    match discovery {
        Discovery::Found { config, .. } => Some(resolved_config(config, registry)),
        _ => None,
    }
}

/// What is to be said of a discovery.
pub open spec fn discovery_warnings<S, O>(
    discovery: Discovery<S, O>,
    registry: Seq<RuleInfo>,
) -> Seq<Seq<char>> {
    match discovery {
        Discovery::Found { config, source, deprecations } => Seq::new(
            deprecations.len() as nat,
            |i: int| source@ + ": "@ + deprecations@[i]@,
        ) + rule_warnings(config.lint.deep_view(), registry),
        Discovery::Absent => Seq::empty(),
        Discovery::Unreadable { error } => seq![error@],
    }
}

/// What is to be said of settings.
pub open spec fn settings_warnings<S, O>(
    settings: ClientSettings<S, O>,
    registry: Seq<RuleInfo>,
) -> Seq<Seq<char>> {
    match settings {
        ClientSettings::Null => Seq::empty(),
        ClientSettings::Given { section, whole } => match payload(section, whole) {
            ReadConfig::Read { config, warnings } => warnings.deep_view() + rule_warnings(
                config.lint.deep_view(),
                registry,
            ),
            ReadConfig::Failed { error } => seq![
                "invalid client settings (kept previous): "@ + error@,
            ],
        },
    }
}

/// The client's configuration after settings: theirs where they could be read,
/// the one before otherwise.
pub open spec fn client_after<S, O>(
    before: ResolvedView<S, O>,
    settings: ClientSettings<S, O>,
    registry: Seq<RuleInfo>,
) -> ResolvedView<S, O> {
    match settings {
        ClientSettings::Null => before,
        ClientSettings::Given { section, whole } => match payload(section, whole) {
            ReadConfig::Read { config, .. } => resolved_config(config, registry),
            ReadConfig::Failed { .. } => before,
        },
    }
}

impl<S, O> ConfigStore<S, O> {
    /// A store with the settings that a client starts with, over `defaults`.
    pub fn new(
        defaults: Config<S, O>,
        initialization_options: Option<ClientSettings<S, O>>,
        registry: &Vec<RuleInfo>,
    ) -> (r: (ConfigStore<S, O>, Vec<String>))
        ensures
            r.0.deep_view().by_dir.len() == 0,
            r.0.deep_view().client == match initialization_options {
                Some(settings) => client_after(
                    resolved_config(defaults, registry@),
                    settings,
                    registry@,
                ),
                None => resolved_config(defaults, registry@),
            },
            r.1.deep_view() == match initialization_options {
                Some(settings) => settings_warnings(settings, registry@),
                None => Seq::empty(),
            },
    {
        let mut ignored: Vec<String> = Vec::new();
        let client = ResolvedConfig::resolve(defaults, registry, &mut ignored);
        let mut store = ConfigStore { client, by_dir: Vec::new() };
        let warnings = match initialization_options {
            Some(options) => store.set_client_settings(options, registry),
            None => {
                let none: Vec<String> = Vec::new();
                proof {
                    assert(none.deep_view() =~= Seq::<Seq<char>>::empty());
                }
                none
            },
        };
        (store, warnings)
    }

    /// Takes in settings from the client, and gives what is to be said of them.
    /// What discovery has found is dropped in any case.
    pub fn set_client_settings(
        &mut self,
        settings: ClientSettings<S, O>,
        registry: &Vec<RuleInfo>,
    ) -> (r: Vec<String>)
        ensures
            final(self).deep_view().by_dir.len() == 0,
            final(self).deep_view().client == client_after(
                old(self).deep_view().client,
                settings,
                registry@,
            ),
            r.deep_view() == settings_warnings(settings, registry@),
    {
        self.by_dir.clear();
        let mut none: Vec<String> = Vec::new();
        proof {
            assert(none.deep_view() =~= Seq::<Seq<char>>::empty());
        }
        match settings {
            ClientSettings::Null => none,
            ClientSettings::Given { section, whole } => {
                let payload = match section {
                    Some(section) => section,
                    None => whole,
                };
                match payload {
                    ReadConfig::Read { config, warnings } => {
                        let mut warnings = warnings;
                        self.client = ResolvedConfig::resolve(config, registry, &mut warnings);
                        warnings
                    },
                    ReadConfig::Failed { error } => {
                        none.push(
                            cat("invalid client settings (kept previous): ", error.as_str()),
                        );
                        proof {
                            assert(none.deep_view() =~= seq![
                                "invalid client settings (kept previous): "@ + error@,
                            ]);
                        }
                        none
                    },
                }
            },
        }
    }

    /// A configuration file changed: what discovery has found is dropped.
    pub fn invalidate_discovered(&mut self)
        ensures
            final(self).deep_view().by_dir.len() == 0,
            final(self).deep_view().client == old(self).deep_view().client,
    {
        self.by_dir.clear();
    }

    fn find(&self, dir: &FilePath) -> (r: usize)
        ensures
            r == dir_index(self.deep_view().by_dir, dir.deep_view()),
    {
        let ghost all = self.by_dir.deep_view();
        let ghost here = is_dir::<S, O>(dir.deep_view());
        let mut at: usize = 0;
        while at < self.by_dir.len() && !self.by_dir[at].dir.same(dir)
            invariant
                at <= self.by_dir.len(),
                all == self.by_dir.deep_view(),
                here == is_dir::<S, O>(dir.deep_view()),
                forall|k: int| 0 <= k < at ==> !here(#[trigger] all[k]),
            decreases self.by_dir.len() - at,
        {
            at = at + 1;
        }
        proof {
            lemma_first_index_is(all, here, at as int);
        }
        at
    }

    /// The configuration that is known for a document in `dir`; `None` where
    /// discovery has to look first. A document without a directory has the
    /// client's.
    pub fn lookup(&self, dir: Option<&FilePath>) -> (r: Option<&ResolvedConfig<S, O>>)
        ensures
            match r {
                Some(config) => known(
                    self.deep_view(),
                    match dir {
                        Some(dir) => Some(dir.deep_view()),
                        None => None,
                    },
                ) == Some(config.deep_view()),
                None => known(
                    self.deep_view(),
                    match dir {
                        Some(dir) => Some(dir.deep_view()),
                        None => None,
                    },
                ) is None,
            },
    {
        match dir {
            None => Some(&self.client),
            Some(dir) => {
                let at = self.find(dir);
                if at < self.by_dir.len() {
                    match &self.by_dir[at].own {
                        Some(own) => Some(own),
                        None => Some(&self.client),
                    }
                } else {
                    None
                }
            },
        }
    }

    /// Takes in what discovery found above `dir`, and gives what is to be said of
    /// it. From then on [`lookup`](Self::lookup) answers for `dir`: with the
    /// configuration found, or else with the client's.
    pub fn learn(
        &mut self,
        dir: &FilePath,
        discovery: Discovery<S, O>,
        registry: &Vec<RuleInfo>,
    ) -> (r: Vec<String>)
        requires
            known(old(self).deep_view(), Some(dir.deep_view())) is None,
        ensures
            final(self).deep_view().client == old(self).deep_view().client,
            final(self).deep_view().by_dir == old(self).deep_view().by_dir.push(
                DirView { dir: dir.deep_view(), own: discovered(discovery, registry@) },
            ),
            known(final(self).deep_view(), Some(dir.deep_view())) == Some(
                match discovered(discovery, registry@) {
                    Some(own) => own,
                    None => old(self).deep_view().client,
                },
            ),
            r.deep_view() == discovery_warnings(discovery, registry@),
    {
        let ghost before = self.by_dir.deep_view();
        let mut warnings: Vec<String> = Vec::new();
        proof {
            assert(warnings.deep_view() =~= Seq::<Seq<char>>::empty());
        }
        let own = match discovery {
            Discovery::Found { config, source, deprecations } => {
                let mut i: usize = 0;
                while i < deprecations.len()
                    invariant
                        i <= deprecations.len(),
                        warnings.len() == i,
                        forall|k: int|
                            0 <= k < i ==> #[trigger] warnings@[k]@ == source@ + ": "@
                                + deprecations@[k]@,
                    decreases deprecations.len() - i,
                {
                    let head = cat(source.as_str(), ": ");
                    warnings.push(cat(head.as_str(), deprecations[i].as_str()));
                    i = i + 1;
                }
                proof {
                    assert(warnings.deep_view() =~= Seq::new(
                        deprecations.len() as nat,
                        |i: int| source@ + ": "@ + deprecations@[i]@,
                    ));
                }
                Some(ResolvedConfig::resolve(config, registry, &mut warnings))
            },
            Discovery::Absent => None,
            Discovery::Unreadable { error } => {
                warnings.push(error.clone());
                proof {
                    assert(warnings.deep_view() =~= seq![error@]);
                }
                None
            },
        };
        self.by_dir.push(DirConfig { dir: dir.copy(), own });
        proof {
            let entry = self.by_dir@.last().deep_view();
            let after = self.by_dir.deep_view();
            assert(after =~= before.push(entry));
            let here = is_dir::<S, O>(dir.deep_view());
            crate::search::lemma_first_index(before, here);
            assert forall|k: int| 0 <= k < before.len() implies !here(#[trigger] after[k]) by {
                assert(!here(before[k]));
            }
            lemma_first_index_is(after, here, before.len() as int);
        }
        warnings
    }
}

/// A document without a directory has the client's configuration. One in a directory
/// that discovery has looked above has what was found there, or the client's where
/// nothing was; what holds in any other is not known yet.
pub proof fn law_own_configuration_comes_before_the_client<S, O>(
    store: StoreView<S, O>,
    dir: Seq<Seq<char>>,
    i: int,
)
    ensures
        known(store, None) == Some(store.client),
        0 <= i < store.by_dir.len() && store.by_dir[i].dir == dir && (forall|k: int|
            0 <= k < i ==> (#[trigger] store.by_dir[k]).dir != dir) ==> known(store, Some(dir))
            == Some(
            if store.by_dir[i].own is Some {
                store.by_dir[i].own->0
            } else {
                store.client
            },
        ),
        (forall|k: int| 0 <= k < store.by_dir.len() ==> (#[trigger] store.by_dir[k]).dir != dir)
            ==> known(store, Some(dir)) is None,
{
    let by_dir = store.by_dir;
    lemma_first_index(by_dir, is_dir(dir));
    let at = dir_index(by_dir, dir);
    if at < by_dir.len() {
        assert(by_dir[at].dir == dir);
    }
    if 0 <= i < by_dir.len() && by_dir[i].dir == dir {
        assert(is_dir(dir)(by_dir[i]));
    }
}

/// Settings that can be read take the place of the client's configuration, those of the
/// server's own section before any other; settings that cannot leave it as it was, with
/// one warning that says why.
pub proof fn law_settings_replace_or_keep<S, O>(
    before: ResolvedView<S, O>,
    settings: ClientSettings<S, O>,
    registry: Seq<RuleInfo>,
)
    ensures
        ({
            let after = client_after(before, settings, registry);
            let warnings = settings_warnings(settings, registry);
            match settings {
                ClientSettings::Null => after == before && warnings.len() == 0,
                ClientSettings::Given { section: Some(ReadConfig::Read { config, .. }), .. } => {
                    after.style == config.style && after.rules == server_rules(
                        registry,
                        config.lint.deep_view(),
                    )
                },
                ClientSettings::Given { section: Some(ReadConfig::Failed { error }), .. } => {
                    after == before && warnings == seq![
                        "invalid client settings (kept previous): "@ + error@,
                    ]
                },
                ClientSettings::Given { section: None, whole: ReadConfig::Read { config, .. } } => {
                    after.style == config.style && after.rules == server_rules(
                        registry,
                        config.lint.deep_view(),
                    )
                },
                ClientSettings::Given { section: None, whole: ReadConfig::Failed { error } } => {
                    after == before && warnings == seq![
                        "invalid client settings (kept previous): "@ + error@,
                    ]
                },
            }
        }),
{
}

/// Each rule that a configuration selects, ignores or gives a severity, and that the
/// linter does not know, is warned about by its name; no other is.
pub proof fn law_unknown_rules_are_warned_about<O>(
    lint: LintView<O>,
    registry: Seq<RuleInfo>,
    id: Seq<char>,
    i: int,
)
    ensures
        ({
            let warnings = rule_warnings(lint, registry);
            let warning = "unknown rule `"@ + id + "` in select/ignore/severity"@;
            let named = (lint.select is Some && lint.select->0.contains(id))
                || lint.ignore.contains(id) || (0 <= i < lint.severity.len() && lint.severity[i].0
                == id);
            let strange = forall|k: int|
                0 <= k < registry.len() ==> (#[trigger] registry[k]).id@ != id;
            &&& named && strange ==> warnings.contains(warning)
            &&& 0 <= i < warnings.len() ==> exists|other: Seq<char>|
                warnings[i] == #[trigger] ("unknown rule `"@ + other
                    + "` in select/ignore/severity"@) && !is_known(registry, other)
        }),
{
    let names = named_ids(lint);
    let select = match lint.select {
        Some(select) => select,
        None => Seq::empty(),
    };
    let given = Seq::new(lint.severity.len(), |k: int| lint.severity[k].0);
    let f = |id: Seq<char>|
        if is_known(registry, id) {
            None
        } else {
            Some(id)
        };
    let unknown = unknown_ids(registry, names);
    assert(unknown == kept(names, f));
    let warnings = rule_warnings(lint, registry);
    let named = (lint.select is Some && lint.select->0.contains(id)) || lint.ignore.contains(id)
        || (0 <= i < lint.severity.len() && lint.severity[i].0 == id);
    if named && (forall|k: int| 0 <= k < registry.len() ==> (#[trigger] registry[k]).id@ != id) {
        let at = if select.contains(id) {
            choose|j: int| 0 <= j < select.len() && select[j] == id
        } else if lint.ignore.contains(id) {
            select.len() + choose|j: int| 0 <= j < lint.ignore.len() && lint.ignore[j] == id
        } else {
            select.len() + lint.ignore.len() + i
        };
        assert(names[at] == id);
        let j = lemma_kept_holds(names, f, at);
        assert(warnings[j] == unknown_warning(id));
    }
    if 0 <= i < warnings.len() {
        let k = lemma_kept_from(names, f, i);
        assert(warnings[i] == "unknown rule `"@ + names[k] + "` in select/ignore/severity"@);
    }
}

/// A file that discovery found holds in its directory, whatever is to be said of it;
/// each of its warnings names the file. Where none was found, or it could not be read,
/// nothing of the directory's own holds.
pub proof fn law_discovery_contributes_what_it_found<S, O>(
    discovery: Discovery<S, O>,
    registry: Seq<RuleInfo>,
    i: int,
)
    ensures
        match discovery {
            Discovery::Found { config, source, deprecations } => {
                &&& discovered(discovery, registry) is Some
                &&& discovered(discovery, registry)->0.style == config.style
                &&& discovered(discovery, registry)->0.rules == server_rules(
                    registry,
                    config.lint.deep_view(),
                )
                &&& 0 <= i < deprecations.len() ==> discovery_warnings(discovery, registry).contains(
                    source@ + ": "@ + deprecations@[i]@,
                )
            },
            Discovery::Absent => discovered(discovery, registry) is None && discovery_warnings(
                discovery,
                registry,
            ).len() == 0,
            Discovery::Unreadable { error } => discovered(discovery, registry) is None
                && discovery_warnings(discovery, registry) == seq![error@],
        },
{
    match discovery {
        Discovery::Found { config, source, deprecations } => {
            if 0 <= i < deprecations.len() {
                assert(discovery_warnings(discovery, registry)[i] == source@ + ": "@
                    + deprecations@[i]@);
            }
        },
        _ => {},
    }
}

} // verus!
