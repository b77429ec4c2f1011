use vstd::prelude::*;

use crate::text::{join_spec, path_join};

verus! {

/// Where the mirror and the extraction cache live, and how many results a
/// search gives by default.
#[derive(Clone, Debug)]
pub struct LcrioConfig {
    pub panamax_root: String,
    pub cache_dir: String,
    pub search_limit: usize,
}

/// `crates.io/full`
pub open spec fn mirror_suffix() -> Seq<char> {
    seq!['c', 'r', 'a', 't', 'e', 's', '.', 'i', 'o', '/', 'f', 'u', 'l', 'l']
}

/// `.cache/lcrio`
pub open spec fn cache_suffix() -> Seq<char> {
    seq!['.', 'c', 'a', 'c', 'h', 'e', '/', 'l', 'c', 'r', 'i', 'o']
}

/// `/tmp`: the home directory used when `HOME` is not set.
pub open spec fn fallback_home() -> Seq<char> {
    seq!['/', 't', 'm', 'p']
}

/// The number of results a search gives when the caller names no limit.
pub open spec fn default_search_limit() -> usize {
    20
}

impl LcrioConfig {
    /// `self` is the default configuration for the given value of `HOME`.
    pub open spec fn is_default_for(self, home: Option<&str>) -> bool {
        let h = match home {
            Some(h) => h@,
            None => fallback_home(),
        };
        &&& self.panamax_root@ == join_spec(h, mirror_suffix())
        &&& self.cache_dir@ == join_spec(h, cache_suffix())
        &&& self.search_limit == default_search_limit()
    }

    /// The default configuration for the given value of `HOME` (the
    /// caller reads the environment): the mirror at `{home}/crates.io/full`,
    /// the cache at `{home}/.cache/lcrio`, 20 results; `/tmp` stands in
    /// for an unset `HOME`.
    pub fn default_for_home(home: Option<&str>) -> (r: LcrioConfig)
        ensures
            r.is_default_for(home),
    {
        let tmp = "/tmp";
        let mirror = "crates.io/full";
        let cache = ".cache/lcrio";
        proof {
            reveal_strlit("/tmp");
            reveal_strlit("crates.io/full");
            reveal_strlit(".cache/lcrio");
            assert(tmp@ =~= fallback_home());
            assert(mirror@ =~= mirror_suffix());
            assert(cache@ =~= cache_suffix());
        }
        let h = match home {
            Some(h) => h,
            None => tmp,
        };
        LcrioConfig {
            panamax_root: path_join(h, mirror),
            cache_dir: path_join(h, cache),
            search_limit: 20,
        }
    }

    /// `{panamax_root}/crates.io-index`
    pub open spec fn spec_index_root(self) -> Seq<char> {
        join_spec(
            self.panamax_root@,
            seq!['c', 'r', 'a', 't', 'e', 's', '.', 'i', 'o', '-', 'i', 'n', 'd', 'e', 'x'],
        )
    }

    /// `{panamax_root}/crates`
    pub open spec fn spec_crates_root(self) -> Seq<char> {
        join_spec(self.panamax_root@, seq!['c', 'r', 'a', 't', 'e', 's'])
    }

    /// The registry index inside the mirror: `{panamax_root}/crates.io-index`.
    pub fn index_root(&self) -> (r: String)
        ensures
            r@ == self.spec_index_root(),
    {
        let seg = "crates.io-index";
        proof {
            reveal_strlit("crates.io-index");
            assert(seg@ =~= seq!['c', 'r', 'a', 't', 'e', 's', '.', 'i', 'o', '-', 'i', 'n', 'd', 'e', 'x']);
        }
        path_join(self.panamax_root.as_str(), seg)
    }

    /// The packaged crates inside the mirror: `{panamax_root}/crates`.
    pub fn crates_root(&self) -> (r: String)
        ensures
            r@ == self.spec_crates_root(),
    {
        let seg = "crates";
        proof {
            reveal_strlit("crates");
            assert(seg@ =~= seq!['c', 'r', 'a', 't', 'e', 's']);
        }
        path_join(self.panamax_root.as_str(), seg)
    }
}

} // verus!
