pub mod browse;
pub mod config;
pub mod index;
pub mod lines;
pub mod order;
pub mod prefix;
pub mod report;
pub mod search;
pub mod select;
pub mod text;
pub mod unpack;
pub mod workspace;

use vstd::prelude::*;

use crate::config::LcrioConfig;
use crate::index::{last_unyanked, read_latest_version, IndexEntry, IndexError};
use crate::order::{has_text, sorted_lt};
use crate::prefix::{index_path, index_path_spec};
use crate::search::{build_name_index, is_crate_file_name, search_names, MatchCollector, NameSearch};
use crate::text::{ascii_lower, join_spec};
use crate::unpack::{unpack_plan, unpacked_dir, unpacked_seg, UnpackPlan};

verus! {

/// A mirror of crates.io to search and read from, with its name index once
/// it has been built.
pub struct Lcrio {
    config: LcrioConfig,
    /// The sorted crate names of the index; `None` until built.
    name_index: Option<Vec<String>>,
}

/// The limit a search uses: the one given, else the configured default.
pub open spec fn resolve_limit(limit: Option<usize>, default: usize) -> usize {
    match limit {
        Some(l) => l,
        None => default,
    }
}

/// Searching with no limit is searching with the configured one.
pub proof fn law_default_limit(config: LcrioConfig)
    ensures
        resolve_limit(None, config.search_limit) == resolve_limit(Some(config.search_limit), config.search_limit),
{
}

impl Lcrio {
    /// What every `Lcrio` keeps: a built index is strictly sorted.
    #[verifier::type_invariant]
    spec fn index_sorted(&self) -> bool {
        self.name_index matches Some(v) ==> sorted_lt(v@)
    }

    /// The configuration.
    pub closed spec fn spec_config(&self) -> LcrioConfig {
        self.config
    }

    /// Whether the name index has been built.
    pub closed spec fn spec_loaded(&self) -> bool {
        self.name_index is Some
    }

    /// The name index (meaningful once built).
    pub closed spec fn spec_names(&self) -> Seq<String> {
        match self.name_index {
            Some(v) => v@,
            None => Seq::empty(),
        }
    }

    /// The configuration.
    pub fn config(&self) -> (r: &LcrioConfig)
        ensures
            *r == self.spec_config(),
    {
        &self.config
    }

    pub fn new(config: LcrioConfig) -> (r: Self)
        ensures
            r.spec_config() == config,
            !r.spec_loaded(),
    {
        Self { config, name_index: None }
    }

    /// The default configuration for the given value of `HOME`.
    pub fn with_defaults(home: Option<&str>) -> (r: Self)
        ensures
            r.spec_config().is_default_for(home),
            !r.spec_loaded(),
    {
        Self::new(LcrioConfig::default_for_home(home))
    }

    /// Whether the name index has been built.
    pub fn names_loaded(&self) -> (r: bool)
        ensures
            r == self.spec_loaded(),
    {
        self.name_index.is_some()
    }

    /// Builds the name index from the file names found in the index
    /// directory, once: when it has been built already, nothing changes.
    pub fn load_names(&mut self, file_names: Vec<String>)
        ensures
            final(self).spec_config() == old(self).spec_config(),
            final(self).spec_loaded(),
            old(self).spec_loaded() ==> final(self).spec_names() == old(self).spec_names(),
            !old(self).spec_loaded() ==> sorted_lt(final(self).spec_names()) && forall|s: Seq<char>|
                #![trigger has_text(final(self).spec_names(), s)]
                has_text(final(self).spec_names(), s) <==> (has_text(file_names@, s) && is_crate_file_name(s)),
    {
        if self.name_index.is_none() {
            self.name_index = Some(build_name_index(file_names));
        }
    }

    /// The sorted name index.
    pub fn names(&self) -> (r: &[String])
        requires
            self.spec_loaded(),
        ensures
            r@ == self.spec_names(),
            sorted_lt(r@),
    {
        proof {
            use_type_invariant(self);
        }
        match &self.name_index {
            Some(v) => v.as_slice(),
            None => {
                proof {
                    assert(false);
                }
                &[]
            },
        }
    }

    /// Search for crate names: the exact, prefix and contains phases (the
    /// caller then scores the fuzzy candidates and calls
    /// [`NameSearch::finish`]).
    pub fn search(&self, query: &str, limit: Option<usize>) -> (st: NameSearch)
        requires
            self.spec_loaded(),
        ensures
            st.wf(),
            st.spec_names() == self.spec_names(),
            st.query_bytes() == vstd::utf8::encode_utf8(ascii_lower(query@)),
            st.spec_limit() == resolve_limit(limit, self.spec_config().search_limit),
    {
        let limit = match limit {
            Some(l) => l,
            None => self.config.search_limit,
        };
        search_names(self.names(), query, limit)
    }

    /// Search for crates that depend on a given crate: the collector that
    /// the caller feeds with the latest entry of each indexed name.
    pub fn search_by_dep(&self, dep_name: &str, limit: Option<usize>) -> (r: MatchCollector)
        ensures
            r.spec_target() == ascii_lower(dep_name@),
            r.spec_limit() == resolve_limit(limit, self.spec_config().search_limit),
            r.spec_results().len() == 0,
    {
        let limit = match limit {
            Some(l) => l,
            None => self.config.search_limit,
        };
        MatchCollector::new(dep_name, limit)
    }

    /// Search for crates with a given feature: the collector that the
    /// caller feeds with the latest entry of each indexed name.
    pub fn search_by_feature(&self, feature_name: &str, limit: Option<usize>) -> (r: MatchCollector)
        ensures
            r.spec_target() == ascii_lower(feature_name@),
            r.spec_limit() == resolve_limit(limit, self.spec_config().search_limit),
            r.spec_results().len() == 0,
    {
        let limit = match limit {
            Some(l) => l,
            None => self.config.search_limit,
        };
        MatchCollector::new(feature_name, limit)
    }

    /// The index file that lists every version of `name` (the caller reads
    /// it and parses [`crate::lines::index_lines`] of it).
    pub fn crate_index(&self, name: &str) -> (r: String)
        ensures
            r@ == index_path_spec(self.spec_config().spec_index_root(), name@),
    {
        let root = self.config.index_root();
        index_path(root.as_str(), name)
    }

    /// The latest non-yanked version among the entries of `name`.
    pub fn latest_version(&self, versions: Vec<IndexEntry>, name: &str) -> (r: Result<IndexEntry, IndexError>)
        ensures
            match last_unyanked(versions@) {
                Some(i) => r == Ok::<IndexEntry, IndexError>(versions@[i]),
                None => (r matches Err(IndexError::NoUnyankedVersion { name: n }) && n@ == name@),
            },
    {
        read_latest_version(versions, name)
    }

    /// The paths involved in unpacking a specific version of a crate.
    pub fn unpack(&self, name: &str, version: &str) -> (r: UnpackPlan)
        ensures
            r.spec_for(self.spec_config().spec_crates_root(), self.spec_config().cache_dir@, name@, version@),
    {
        let crates_root = self.config.crates_root();
        unpack_plan(crates_root.as_str(), self.config.cache_dir.as_str(), name, version)
    }

    /// The plan for unpacking the latest version of a crate, and that version.
    pub fn unpack_latest(&self, versions: Vec<IndexEntry>, name: &str) -> (r: Result<(UnpackPlan, String), IndexError>)
        ensures
            match last_unyanked(versions@) {
                Some(i) => (r matches Ok((plan, vers)) && vers == versions@[i].vers && plan.spec_for(
                    self.spec_config().spec_crates_root(),
                    self.spec_config().cache_dir@,
                    name@,
                    vers@,
                )),
                None => (r matches Err(IndexError::NoUnyankedVersion { name: n }) && n@ == name@),
            },
    {
        let crates_root = self.config.crates_root();
        crate::unpack::unpack_latest(versions, crates_root.as_str(), self.config.cache_dir.as_str(), name)
    }

    /// The directory that cleaning the extraction cache removes.
    pub fn clean(&self) -> (r: String)
        ensures
            r@ == join_spec(self.spec_config().cache_dir@, unpacked_seg()),
    {
        unpacked_dir(self.config.cache_dir.as_str())
    }
}

} // verus!
