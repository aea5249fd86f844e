//! The server's configuration: where its folders lie and which cache rule
//! each kind of content gets in each environment.

use crate::cache::CacheCategory;
use crate::env::EnvType;
use crate::path::{normalize_relative_path, normalized, pushed};
use crate::text::{from_chars, same_chars, to_chars};
use vstd::prelude::*;

verus! {

/// The paths of different important folders
pub struct ConfigPath {
    pub pages: String,
    pub layout: String,
    pub public: String,
    pub components: String,
    pub modules: String,
}

impl ConfigPath {
    /// The public folder as seen from the project's root: below `src`,
    /// normalized.
    pub open spec fn public_below_src(&self) -> Seq<char> {
        normalized(pushed("src"@, self.public@))
    }

    pub fn public_from_src(&self) -> (path: String)
        ensures
            path@ == self.public_below_src(),
    {
        let joined = crate::path::push_path(&to_chars("src"), &to_chars(self.public.as_str()));
        normalize_relative_path(from_chars(&joined).as_str())
    }
}

/// A value found under a key of a cache table.
pub enum RuleValue {
    /// A switch; only the key `function` may hold one.
    Flag(bool),
    /// A cache rule.
    Text(String),
    /// Anything else.
    Other,
}

/// Why a cache table was refused.
#[derive(Debug, Clone, Copy, PartialEq, Eq, Structural)]
pub enum CacheTableError {
    /// A value is no cache rule; the place of the entry is given.
    NotARule(usize),
    /// A key names no cache category; the place of the entry is given.
    InvalidKey(usize),
}

/// The cache rules of one environment, in the order in which they were
/// configured. Of two rules for one category the later stands.
pub struct ConfigCache {
    pub rules: Vec<(CacheCategory, String)>,
}

/// The rules as plain values.
pub open spec fn rules_of(rules: Seq<(CacheCategory, String)>) -> Seq<(CacheCategory, Seq<char>)> {
    Seq::new(rules.len(), |i: int| (rules[i].0, rules[i].1@))
}

/// The rule for `category`: that of the last entry for it.
pub open spec fn rule_for(rules: Seq<(CacheCategory, Seq<char>)>, category: CacheCategory) -> Option<
    Seq<char>,
>
    decreases rules.len(),
{
    if rules.len() == 0 {
        None
    } else if rules.last().0 == category {
        Some(rules.last().1)
    } else {
        rule_for(rules.drop_last(), category)
    }
}

/// The entries of a cache table as plain values.
pub open spec fn entries_of(entries: Seq<(String, RuleValue)>) -> Seq<(Seq<char>, RuleValue)> {
    Seq::new(entries.len(), |i: int| (entries[i].0@, entries[i].1))
}

/// Whether an entry is the switch for functions, which is no rule and is
/// passed over.
pub open spec fn is_function_switch(entry: (Seq<char>, RuleValue)) -> bool {
    entry.1 is Flag && entry.0 == "function"@
}

/// The rules that the entries of a table give, or the first entry at
/// fault. The switch for functions is passed over; any other value that
/// is no text is no rule, and a key that names no category is invalid.
pub open spec fn table_rules(entries: Seq<(Seq<char>, RuleValue)>) -> Result<
    Seq<(CacheCategory, Seq<char>)>,
    CacheTableError,
>
    decreases entries.len(),
{
    if entries.len() == 0 {
        Ok(Seq::empty())
    } else {
        match table_rules(entries.drop_last()) {
            Err(error) => Err(error),
            Ok(rules) => {
                let entry = entries.last();
                if is_function_switch(entry) {
                    Ok(rules)
                } else {
                    match entry.1 {
                        RuleValue::Text(rule) => match CacheCategory::named(entry.0) {
                            Some(category) => Ok(rules.push((category, rule@))),
                            None => Err(
                                CacheTableError::InvalidKey((entries.len() - 1) as usize),
                            ),
                        },
                        _ => Err(CacheTableError::NotARule((entries.len() - 1) as usize)),
                    }
                }
            },
        }
    }
}

/// Once the entries up to `upto` are at fault, so is the whole table, at
/// the same entry.
pub proof fn lemma_fault_stays(entries: Seq<(Seq<char>, RuleValue)>, upto: int)
    requires
        0 <= upto <= entries.len(),
        table_rules(entries.take(upto)) is Err,
    ensures
        table_rules(entries) == table_rules(entries.take(upto)),
    decreases entries.len(),
{
    if upto == entries.len() {
        assert(entries.take(upto) == entries);
    } else {
        assert(entries.drop_last().take(upto) == entries.take(upto));
        lemma_fault_stays(entries.drop_last(), upto);
    }
}

impl ConfigCache {
    /// The rule configured for `category`, if there is one.
    pub open spec fn rule(&self, category: CacheCategory) -> Option<Seq<char>> {
        rule_for(rules_of(self.rules@), category)
    }

    /// Reads the rules of a cache table.
    pub fn from_entries(entries: Vec<(String, RuleValue)>) -> (table: Result<
        ConfigCache,
        CacheTableError,
    >)
        ensures
            match table {
                Ok(cache) => table_rules(entries_of(entries@)) == Ok::<
                    Seq<(CacheCategory, Seq<char>)>,
                    CacheTableError,
                >(rules_of(cache.rules@)),
                Err(error) => table_rules(entries_of(entries@)) == Err::<
                    Seq<(CacheCategory, Seq<char>)>,
                    CacheTableError,
                >(error),
            },
    {
        let ghost all = entries_of(entries@);
        let mut rules: Vec<(CacheCategory, String)> = Vec::new();
        let function = to_chars("function");
        let mut i: usize = 0;
        assert(all.take(0) == Seq::<(Seq<char>, RuleValue)>::empty());
        assert(rules_of(rules@) == Seq::<(CacheCategory, Seq<char>)>::empty());
        while i < entries.len()
            invariant
                i <= entries.len(),
                all == entries_of(entries@),
                function@ == "function"@,
                table_rules(all.take(i as int)) == Ok::<
                    Seq<(CacheCategory, Seq<char>)>,
                    CacheTableError,
                >(rules_of(rules@)),
            decreases entries.len() - i,
        {
            assert(all.take(i + 1).drop_last() == all.take(i as int));
            assert(all.take(i + 1).last() == all[i as int]);
            assert(all.take(i + 1).len() == i + 1);
            let ghost before = rules_of(rules@);
            let key = &entries[i].0;
            match &entries[i].1 {
                RuleValue::Flag(_) => {
                    if !same_chars(&to_chars(key.as_str()), &function) {
                        proof {
                            lemma_fault_stays(all, i + 1);
                        }
                        return Err(CacheTableError::NotARule(i));
                    }
                },
                RuleValue::Text(rule) => {
                    match CacheCategory::from_str(key.as_str()) {
                        Some(category) => {
                            rules.push((category, rule.clone()));
                            assert(rules_of(rules@) == before.push((category, rule@)));
                        },
                        None => {
                            proof {
                                lemma_fault_stays(all, i + 1);
                            }
                            return Err(CacheTableError::InvalidKey(i));
                        },
                    }
                },
                RuleValue::Other => {
                    proof {
                        lemma_fault_stays(all, i + 1);
                    }
                    return Err(CacheTableError::NotARule(i));
                },
            }
            i += 1;
        }
        assert(all.take(entries@.len() as int) == all);
        Ok(ConfigCache { rules })
    }

    /// Get the rule for a cache category.
    pub fn get(&self, category: CacheCategory) -> (rule: Option<&String>)
        ensures
            match rule {
                Some(r) => self.rule(category) == Some(r@),
                None => self.rule(category) is None,
            },
    {
        let ghost all = rules_of(self.rules@);
        let mut i: usize = self.rules.len();
        assert(all.take(i as int) == all);
        while i > 0
            invariant
                i <= self.rules.len(),
                all == rules_of(self.rules@),
                rule_for(all, category) == rule_for(all.take(i as int), category),
            decreases i,
        {
            assert(all.take(i as int).drop_last() == all.take(i - 1));
            assert(all.take(i as int).last() == all[i - 1]);
            if self.rules[i - 1].0 == category {
                return Some(&self.rules[i - 1].1);
            }
            i -= 1;
        }
        None
    }
}

/// The place of an environment in the order of their declaration.
pub open spec fn env_rank(env: EnvType) -> int {
    match env {
        EnvType::Prod => 0,
        EnvType::Staging => 1,
        EnvType::Dev => 2,
        EnvType::Local => 3,
    }
}

/// The place of a category in the order of their declaration.
pub open spec fn category_rank(category: CacheCategory) -> int {
    match category {
        CacheCategory::Html => 0,
        CacheCategory::Css => 1,
        CacheCategory::Javascript => 2,
        CacheCategory::Public => 3,
        CacheCategory::Function => 4,
    }
}

/// The cache options for different kind of environments
pub struct Caches {
    /// The rules that hold where an environment has none of its own.
    pub default: Option<ConfigCache>,
    /// The rules of each environment, in the order in which they were
    /// configured; an environment may be named without rules. Of two
    /// entries for one environment the later stands.
    pub environments: Vec<(EnvType, Option<ConfigCache>)>,
    /// The environment that the server runs in.
    pub current: EnvType,
}

/// The rules of an environment as plain values; nothing where the
/// environment is named without rules.
pub open spec fn cache_view(cache: Option<ConfigCache>) -> Option<Seq<(CacheCategory, Seq<char>)>> {
    match cache {
        Some(c) => Some(rules_of(c.rules@)),
        None => None,
    }
}

/// The configured environments as plain values.
pub open spec fn environments_of(environments: Seq<(EnvType, Option<ConfigCache>)>) -> Seq<
    (EnvType, Option<Seq<(CacheCategory, Seq<char>)>>),
> {
    Seq::new(environments.len(), |i: int| (environments[i].0, cache_view(environments[i].1)))
}

/// The rules configured for `env`: those of the last entry for it;
/// nothing where it has no entry or its entry has no rules.
pub open spec fn rules_in(
    environments: Seq<(EnvType, Option<Seq<(CacheCategory, Seq<char>)>>)>,
    env: EnvType,
) -> Option<Seq<(CacheCategory, Seq<char>)>>
    decreases environments.len(),
{
    if environments.len() == 0 {
        None
    } else if environments.last().0 == env {
        environments.last().1
    } else {
        rules_in(environments.drop_last(), env)
    }
}

impl Caches {
    /// The rule for `category` in the environment `env`: the
    /// environment's own rule where it has one, else the default rule,
    /// else none.
    pub open spec fn rule_in(&self, env: EnvType, category: CacheCategory) -> Option<Seq<char>> {
        let own = match rules_in(environments_of(self.environments@), env) {
            Some(rules) => rule_for(rules, category),
            None => None,
        };
        match own {
            Some(rule) => Some(rule),
            None => match cache_view(self.default) {
                Some(rules) => rule_for(rules, category),
                None => None,
            },
        }
    }

    /// The rule for `category` in the environment the server runs in.
    pub open spec fn rule(&self, category: CacheCategory) -> Option<Seq<char>> {
        self.rule_in(self.current, category)
    }

    fn rules_of_env(&self, env: EnvType) -> (cache: Option<&ConfigCache>)
        ensures
            match cache {
                Some(c) => rules_in(environments_of(self.environments@), env) == Some(
                    rules_of(c.rules@),
                ),
                None => rules_in(environments_of(self.environments@), env) is None,
            },
    {
        let ghost all = environments_of(self.environments@);
        let mut i: usize = self.environments.len();
        assert(all.take(i as int) == all);
        while i > 0
            invariant
                i <= self.environments.len(),
                all == environments_of(self.environments@),
                rules_in(all, env) == rules_in(all.take(i as int), env),
            decreases i,
        {
            assert(all.take(i as int).drop_last() == all.take(i - 1));
            assert(all.take(i as int).last() == all[i - 1]);
            if self.environments[i - 1].0 == env {
                return self.environments[i - 1].1.as_ref();
            }
            i -= 1;
        }
        None
    }

    /// Get the current cache rule for a specific cache category
    pub fn get(&self, cache_for: CacheCategory) -> (rule: String)
        requires
            self.rule(cache_for) is Some,
        ensures
            Some(rule@) == self.rule(cache_for),
    {
        self.get_opt(cache_for).unwrap()
    }

    /// Get the current cache rule for a specific cache category
    pub fn get_opt(&self, cache_for: CacheCategory) -> (rule: Option<String>)
        ensures
            match rule {
                Some(r) => self.rule(cache_for) == Some(r@),
                None => self.rule(cache_for) is None,
            },
    {
        self.get_opt_with_env_type(self.current, cache_for)
    }

    /// Get the cache rule for a cache category in a given environment.
    pub fn get_opt_with_env_type(&self, env_type: EnvType, cache_for: CacheCategory) -> (rule:
        Option<String>)
        ensures
            match rule {
                Some(r) => self.rule_in(env_type, cache_for) == Some(r@),
                None => self.rule_in(env_type, cache_for) is None,
            },
    {
        let own = match self.rules_of_env(env_type) {
            Some(cache) => cache.get(cache_for),
            None => None,
        };
        match own {
            Some(rule) => Some(rule.clone()),
            None => match &self.default {
                Some(cache) => match cache.get(cache_for) {
                    Some(rule) => Some(rule.clone()),
                    None => None,
                },
                None => None,
            },
        }
    }

    /// Whether `category` in `env` is a place where a rule is owed and
    /// missing. None is owed for functions.
    pub open spec fn lacks(&self, env: EnvType, category: CacheCategory) -> bool {
        category != CacheCategory::Function && self.rule_in(env, category) is None
    }

    /// Whether no rule that is owed in `env` is missing.
    pub open spec fn complete_in(&self, env: EnvType) -> bool {
        forall|category: CacheCategory| !self.lacks(env, category)
    }

    /// Verify that all the cache categories have a cache rule associated to
    /// them, in every environment. Gives the first place where a rule is
    /// missing, going through the environments in order and in each through
    /// the categories in order.
    pub fn verify_all_attributes(&self) -> (missing: Option<(EnvType, CacheCategory)>)
        ensures
            match missing {
                Some((env, category)) => {
                    &&& self.lacks(env, category)
                    &&& forall|earlier: EnvType|
                        env_rank(earlier) < env_rank(env) ==> self.complete_in(earlier)
                    &&& forall|earlier: CacheCategory|
                        category_rank(earlier) < category_rank(category) ==> !self.lacks(
                            env,
                            earlier,
                        )
                },
                None => forall|env: EnvType| self.complete_in(env),
            },
    {
        let envs = EnvType::iter();
        let categories = CacheCategory::iter();
        let mut i: usize = 0;
        while i < envs.len()
            invariant
                i <= envs.len(),
                envs@ == seq![EnvType::Prod, EnvType::Staging, EnvType::Dev, EnvType::Local],
                categories@ == seq![
                    CacheCategory::Html,
                    CacheCategory::Css,
                    CacheCategory::Javascript,
                    CacheCategory::Public,
                    CacheCategory::Function,
                ],
                forall|a: int| 0 <= a < i ==> self.complete_in(#[trigger] envs@[a]),
            decreases envs.len() - i,
        {
            let env = envs[i];
            assert(env_rank(env) == i);
            let mut j: usize = 0;
            while j < categories.len()
                invariant
                    j <= categories.len(),
                    i < envs.len(),
                    env == envs@[i as int],
                    envs@ == seq![EnvType::Prod, EnvType::Staging, EnvType::Dev, EnvType::Local],
                    forall|a: int| 0 <= a < i ==> self.complete_in(#[trigger] envs@[a]),
                    categories@ == seq![
                        CacheCategory::Html,
                        CacheCategory::Css,
                        CacheCategory::Javascript,
                        CacheCategory::Public,
                        CacheCategory::Function,
                    ],
                    forall|b: int| 0 <= b < j ==> !self.lacks(env, #[trigger] categories@[b]),
                decreases categories.len() - j,
            {
                let category = categories[j];
                if category != CacheCategory::Function && self.get_opt_with_env_type(
                    env,
                    category,
                ).is_none() {
                    proof {
                        assert forall|earlier: EnvType|
                            env_rank(earlier) < env_rank(env) implies self.complete_in(
                            earlier,
                        ) by {
                            assert(envs@[env_rank(earlier)] == earlier);
                        }
                        assert forall|earlier: CacheCategory|
                            category_rank(earlier) < category_rank(category) implies !self.lacks(
                            env,
                            earlier,
                        ) by {
                            assert(categories@[category_rank(earlier)] == earlier);
                        }
                    }
                    return Some((env, category));
                }
                j += 1;
            }
            assert forall|category: CacheCategory| !self.lacks(env, category) by {
                let b: int = match category {
                    CacheCategory::Html => 0,
                    CacheCategory::Css => 1,
                    CacheCategory::Javascript => 2,
                    CacheCategory::Public => 3,
                    CacheCategory::Function => 4,
                };
                assert(categories@[b] == category);
            }
            assert(self.complete_in(env));
            i += 1;
        }
        assert forall|env: EnvType| self.complete_in(env) by {
            let a: int = match env {
                EnvType::Prod => 0,
                EnvType::Staging => 1,
                EnvType::Dev => 2,
                EnvType::Local => 3,
            };
            assert(envs@[a] == env);
        }
        None
    }
}

/// The config parsed from the server's configuration file
pub struct Config {
    pub path: ConfigPath,
    pub cache: Caches,
}

} // verus!
