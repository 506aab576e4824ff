//! User configuration.
//!
//! Everything here has a working default, so the file is optional and an empty one behaves exactly
//! like no file at all. A malformed one is reported rather than ignored: silently falling back to
//! defaults would mean a user who thought they had protected a directory had not.
//!
//! The format is deliberately small. Options that change what is done to files live here; options
//! that change one run live on the command line.

use vstd::prelude::*;

use crate::order::{
    bytes_at_most, ints, is_bytes_at_most, is_order, lemma_bytes_total, lemma_bytes_transitive,
    lemma_order_complete, stable_order, Ranked,
};
use crate::path::{component_list, components, join, joined, paths_match, same_path, DOT, SEP};
use crate::plan::store::opt_view;
use crate::plan::validate::{as_paths, default_protected, is_protected, path_views, system_dirs};
use crate::text::{cat3, copy_bytes, show, shown};

verus! {

#[derive(Clone, Debug, PartialEq, Eq)]
pub struct Config {
    pub scan: ScanConfig,
    pub safety: SafetyConfig,
}

#[derive(Clone, Debug, PartialEq, Eq)]
pub struct ScanConfig {
    /// Entry names never descended into. Applied to every scan unless overridden.
    pub exclude: Vec<String>,
    /// Stay on one filesystem by default.
    pub one_file_system: bool,
    /// Scanning threads. `None` picks from the machine.
    pub threads: Option<usize>,
    /// Show the treemap panel from the start.
    pub treemap: bool,
    /// Show apparent size rather than disk usage from the start.
    pub apparent: bool,
}

/// What may not be touched. How much of a filesystem is left free is a fraction, and is kept by
/// whoever reads the file.
#[derive(Clone, Debug, PartialEq, Eq)]
pub struct SafetyConfig {
    /// Extra paths that may never be operated on, on top of the built-in list. Matched exactly:
    /// the directory itself is refused, its contents are not.
    pub protect: Vec<Vec<u8>>,
    /// Drop the built-in list of system directories. Almost nobody should; it exists because
    /// somebody running inside a container may genuinely own `/usr`.
    pub no_default_protection: bool,
}

impl Default for ScanConfig {
    fn default() -> (r: Self)
        ensures
            r.exclude@.len() == 0,
            !r.one_file_system,
            r.threads is None,
            !r.treemap,
            !r.apparent,
    {
        ScanConfig {
            exclude: Vec::new(),
            one_file_system: false,
            threads: None,
            treemap: false,
            apparent: false,
        }
    }
}

impl Default for SafetyConfig {
    fn default() -> (r: Self)
        ensures
            r.protect@.len() == 0,
            !r.no_default_protection,
    {
        SafetyConfig { protect: Vec::new(), no_default_protection: false }
    }
}

impl Config {
    pub open spec fn is_default(&self) -> bool {
        &&& self.scan.exclude@.len() == 0
        &&& !self.scan.one_file_system
        &&& self.scan.threads is None
        &&& !self.scan.treemap
        &&& !self.scan.apparent
        &&& self.safety.protect@.len() == 0
        &&& !self.safety.no_default_protection
    }
}

impl Default for Config {
    fn default() -> (r: Self)
        ensures
            r.is_default(),
    {
        Config { scan: ScanConfig::default(), safety: SafetyConfig::default() }
    }
}

/// The text of a commented file showing every option at its default.
pub const EXAMPLE: &'static str = "# ccdu configuration. Every option here has a working default; delete anything you\n# do not want to change. Options that alter what ccdu does to files live here, and\n# options that alter one run live on the command line.\n\n[scan]\n# Entry names never descended into.\nexclude = []\n# Stay on one filesystem.\none_file_system = false\n# Scanning threads. Omit to pick from the machine.\n# threads = 8\n# Open with the treemap panel showing.\ntreemap = false\n# Show apparent size rather than disk usage.\napparent = false\n\n[safety]\n# Paths that may never be operated on, on top of the built-in system list.\n# Matched exactly: the directory itself is refused, its contents are not.\nprotect = []\n# Drop the built-in list. Almost nobody should.\nno_default_protection = false\n# Fraction of a destination filesystem to leave free after a move.\nheadroom = 0.02\n";

/// How components are put in order: the root, then `.`, then `..`, then names.
pub open spec fn component_class(c: Seq<u8>) -> int {
    if c == seq![SEP] {
        0
    } else if c == seq![DOT] {
        1
    } else if c == seq![DOT, DOT] {
        2
    } else {
        3
    }
}

pub open spec fn component_at_most(a: Seq<u8>, b: Seq<u8>) -> bool {
    component_class(a) < component_class(b) || (component_class(a) == component_class(b)
        && bytes_at_most(a, b))
}

/// How paths are put in order: component by component.
pub open spec fn path_at_most(a: Seq<Seq<u8>>, b: Seq<Seq<u8>>) -> bool
    decreases a.len(),
{
    if a.len() == 0 {
        true
    } else if b.len() == 0 {
        false
    } else if a[0] == b[0] {
        path_at_most(a.drop_first(), b.drop_first())
    } else {
        component_at_most(a[0], b[0])
    }
}

proof fn lemma_component_total(a: Seq<u8>, b: Seq<u8>)
    ensures
        component_at_most(a, b) || component_at_most(b, a),
        component_at_most(a, b) && component_at_most(b, a) ==> a == b,
{
    lemma_bytes_total(a, b);
}

proof fn lemma_path_total(a: Seq<Seq<u8>>, b: Seq<Seq<u8>>)
    ensures
        path_at_most(a, b) || path_at_most(b, a),
        path_at_most(a, b) && path_at_most(b, a) ==> a == b,
    decreases a.len(),
{
    if a.len() > 0 && b.len() > 0 {
        lemma_component_total(a[0], b[0]);
        if a[0] == b[0] {
            lemma_path_total(a.drop_first(), b.drop_first());
            if a.drop_first() == b.drop_first() {
                assert(a =~= seq![a[0]] + a.drop_first());
                assert(b =~= seq![b[0]] + b.drop_first());
            }
        }
    } else {
        assert(a.len() == 0 && b.len() == 0 ==> a =~= b);
    }
}

proof fn lemma_path_transitive(a: Seq<Seq<u8>>, b: Seq<Seq<u8>>, c: Seq<Seq<u8>>)
    requires
        path_at_most(a, b),
        path_at_most(b, c),
    ensures
        path_at_most(a, c),
    decreases a.len(),
{
    if a.len() > 0 && b.len() > 0 && c.len() > 0 {
        if a[0] == b[0] && b[0] == c[0] {
            lemma_path_transitive(a.drop_first(), b.drop_first(), c.drop_first());
        } else {
            lemma_component_total(a[0], b[0]);
            lemma_component_total(b[0], c[0]);
            lemma_component_total(a[0], c[0]);
            if component_class(a[0]) == component_class(b[0]) && component_class(b[0])
                == component_class(c[0]) && a[0] != b[0] && b[0] != c[0] {
                lemma_bytes_transitive(a[0], b[0], c[0]);
                if a[0] == c[0] {
                    lemma_bytes_total(a[0], b[0]);
                }
            }
        }
    }
}

/// A path to put in order.
#[derive(Debug)]
pub struct PathKey {
    pub parts: Vec<Vec<u8>>,
}

impl PathKey {
    pub open spec fn comps(&self) -> Seq<Seq<u8>> {
        self.parts@.map_values(|c: Vec<u8>| c@)
    }
}

fn class_of(c: &[u8]) -> (r: u8)
    ensures
        r == component_class(c@),
{
    proof {
        if c@.len() == 1 {
            assert(c@ =~= seq![c@[0]]);
        }
        if c@.len() == 2 {
            assert(c@ =~= seq![c@[0], c@[1]]);
        }
    }
    if c.len() == 1 && c[0] == SEP {
        0
    } else if c.len() == 1 && c[0] == DOT {
        1
    } else if c.len() == 2 && c[0] == DOT && c[1] == DOT {
        2
    } else {
        3
    }
}

impl Ranked for PathKey {
    open spec fn at_most(&self, other: &Self) -> bool {
        path_at_most(self.comps(), other.comps())
    }

    proof fn total(a: &Self, b: &Self) {
        lemma_path_total(a.comps(), b.comps());
    }

    proof fn transitive(a: &Self, b: &Self, c: &Self) {
        lemma_path_transitive(a.comps(), b.comps(), c.comps());
    }

    fn is_at_most(&self, other: &Self) -> (r: bool) {
        let ghost x = self.comps();
        let ghost y = other.comps();
        let mut i: usize = 0;
        proof {
            assert(x.skip(0) =~= x);
            assert(y.skip(0) =~= y);
        }
        loop
            invariant
                x == self.comps(),
                y == other.comps(),
                i <= self.parts@.len(),
                i <= other.parts@.len(),
                path_at_most(x, y) == path_at_most(x.skip(i as int), y.skip(i as int)),
            decreases self.parts.len() - i,
        {
            if i == self.parts.len() {
                return true;
            }
            if i == other.parts.len() {
                return false;
            }
            let a = self.parts[i].as_slice();
            let b = other.parts[i].as_slice();
            proof {
                assert(x.skip(i as int)[0] == a@);
                assert(y.skip(i as int)[0] == b@);
                assert(x.skip(i as int).drop_first() =~= x.skip(i + 1));
                assert(y.skip(i as int).drop_first() =~= y.skip(i + 1));
            }
            if !crate::text::same_bytes(a, b) {
                let p: u8 = class_of(a);
                let q: u8 = class_of(b);
                return p < q || (p == q && is_bytes_at_most(a, b));
            }
            i += 1;
        }
    }
}

/// Whether `out` holds `all` in order, each path once however often and however it is spelled.
pub open spec fn is_path_set(all: Seq<Seq<u8>>, out: Seq<Seq<u8>>) -> bool {
    &&& forall|i: int, j: int|
        0 <= i < j < out.len() ==> path_at_most(
            components(#[trigger] out[i]),
            components(#[trigger] out[j]),
        ) && !same_path(out[i], out[j])
    &&& forall|k: int| 0 <= k < out.len() ==> all.contains(#[trigger] out[k])
    &&& forall|k: int|
        0 <= k < all.len() ==> exists|m: int|
            0 <= m < out.len() && same_path(#[trigger] out[m], #[trigger] all[k])
}

/// The built-in list, unless it is dropped, and the user's additions.
pub open spec fn all_protected(safety: SafetyConfig, home: Option<Seq<u8>>) -> Seq<Seq<u8>> {
    let built_in = as_paths(system_dirs()) + (match home {
        Some(h) => seq![h],
        None => Seq::empty(),
    });
    (if safety.no_default_protection {
        Seq::empty()
    } else {
        built_in
    }) + path_views(safety.protect@)
}

fn sorted_paths(paths: &Vec<Vec<u8>>) -> (r: Vec<Vec<u8>>)
    ensures
        is_path_set(path_views(paths@), path_views(r@)),
{
    let ghost all = path_views(paths@);
    let mut keys: Vec<PathKey> = Vec::new();
    while keys.len() < paths.len()
        invariant
            keys@.len() <= paths@.len(),
            forall|k: int|
                0 <= k < keys@.len() ==> (#[trigger] keys@[k]).comps() == components(paths@[k]@),
        decreases paths.len() - keys.len(),
    {
        let parts = component_list(paths[keys.len()].as_slice());
        keys.push(PathKey { parts });
    }
    let order = stable_order(&keys);
    let ghost p = ints(order@);
    let mut out: Vec<Vec<u8>> = Vec::new();
    let ghost mut from: Seq<int> = Seq::empty();
    let mut i: usize = 0;
    while i < order.len()
        invariant
            i <= order@.len(),
            all == path_views(paths@),
            p == ints(order@),
            keys@.len() == paths@.len(),
            is_order(keys@, p),
            forall|k: int| 0 <= k < order@.len() ==> #[trigger] order@[k] < paths@.len(),
            forall|k: int|
                0 <= k < keys@.len() ==> (#[trigger] keys@[k]).comps() == components(paths@[k]@),
            from.len() == out@.len(),
            i > 0 ==> out@.len() > 0,
            forall|k: int|
                0 <= k < out@.len() ==> 0 <= #[trigger] from[k] < i && out@[k]@ == all[p[from[k]]],
            forall|a: int, b: int| 0 <= a < b < from.len() ==> #[trigger] from[a] < #[trigger] from[b],
            forall|a: int, b: int|
                0 <= a < b < out@.len() ==> !same_path(#[trigger] out@[a]@, #[trigger] out@[b]@),
            forall|k: int|
                0 <= k < i ==> exists|m: int|
                    0 <= m < out@.len() && same_path(#[trigger] out@[m]@, all[#[trigger] p[k]]),
            i > 0 ==> same_path(out@.last()@, all[p[i - 1]]),
        decreases order.len() - i,
    {
        let next = copy_bytes(paths[order[i]].as_slice());
        proof {
            assert(all[p[i as int]] == next@);
        }
        let repeat = out.len() > 0 && paths_match(out[out.len() - 1].as_slice(), next.as_slice());
        let ghost before = out@;
        if !repeat {
            proof {
                from = from.push(i as int);
                assert forall|a: int| 0 <= a < before.len() implies !same_path(
                    #[trigger] before[a]@,
                    next@,
                ) by {
                    lemma_no_return(paths@, keys@, p, from[a], i as int, before.last()@);
                }
            }
            out.push(next);
        }
        proof {
            assert forall|k: int| 0 <= k < i + 1 implies exists|m: int|
                0 <= m < out@.len() && same_path(#[trigger] out@[m]@, all[#[trigger] p[k]]) by {
                if k < i {
                    let m = choose|m: int|
                        0 <= m < before.len() && same_path(#[trigger] before[m]@, all[p[k]]);
                    assert(same_path(out@[m]@, all[p[k]]));
                } else {
                    assert(same_path(out@.last()@, all[p[k]]));
                }
            }
        }
        i += 1;
    }
    proof {
        let o = path_views(out@);
        assert forall|a: int, b: int| 0 <= a < b < o.len() implies path_at_most(
            components(#[trigger] o[a]),
            components(#[trigger] o[b]),
        ) && !same_path(o[a], o[b]) by {
            assert(from[a] < from[b]);
            assert(crate::order::comes_first(keys@, p[from[a]], p[from[b]]));
            assert(out@[a]@ == all[p[from[a]]] && out@[b]@ == all[p[from[b]]]);
        }
        assert forall|k: int| 0 <= k < o.len() implies all.contains(#[trigger] o[k]) by {
            assert(out@[k]@ == all[p[from[k]]]);
        }
        assert forall|k: int| 0 <= k < all.len() implies exists|m: int|
            0 <= m < o.len() && same_path(#[trigger] o[m], #[trigger] all[k]) by {
            lemma_order_complete(keys@, p, k);
            let j = choose|j: int| 0 <= j < p.len() && p[j] == k;
            let m = choose|m: int|
                0 <= m < out@.len() && same_path(#[trigger] out@[m]@, all[p[j]]);
            assert(same_path(o[m], all[k]));
        }
    }
    out
}

/// Once a sorted list has moved on from a path, it does not come back to it.
proof fn lemma_no_return(
    paths: Seq<Vec<u8>>,
    keys: Seq<PathKey>,
    p: Seq<int>,
    a: int,
    i: int,
    last: Seq<u8>,
)
    requires
        keys.len() == paths.len(),
        is_order(keys, p),
        forall|k: int| 0 <= k < keys.len() ==> (#[trigger] keys[k]).comps() == components(paths[k]@),
        0 <= a < i < p.len(),
        same_path(last, paths[p[i - 1]]@),
        !same_path(last, paths[p[i]]@),
    ensures
        !same_path(paths[p[a]]@, paths[p[i]]@),
{
    assert(crate::order::comes_first(keys, p[i - 1], p[i]));
    if a < i - 1 {
        assert(crate::order::comes_first(keys, p[a], p[i - 1]));
    }
    if same_path(paths[p[a]]@, paths[p[i]]@) {
        lemma_path_total(components(paths[p[i - 1]]@), components(paths[p[i]]@));
    }
}

/// What was found where the configuration file should be.
#[derive(Debug)]
pub enum ConfigFile {
    Missing,
    /// It is there and could not be read.
    Unreadable(String),
    /// It was read and does not parse.
    Malformed(String),
    Parsed(Config),
}

impl Config {
    /// Every path that may not be operated on, built-in list plus the user's additions.
    pub fn protected(&self, home: &Option<Vec<u8>>) -> (r: Vec<Vec<u8>>)
        ensures
            is_path_set(all_protected(self.safety, opt_view(*home)), path_views(r@)),
    {
        let mut paths = if self.safety.no_default_protection {
            Vec::new()
        } else {
            default_protected(home)
        };
        let ghost built_in = path_views(paths@);
        let mut i: usize = 0;
        proof {
            assert(path_views(paths@) =~= built_in + path_views(self.safety.protect@.take(0)));
        }
        while i < self.safety.protect.len()
            invariant
                i <= self.safety.protect@.len(),
                path_views(paths@) == built_in + path_views(self.safety.protect@.take(i as int)),
            decreases self.safety.protect.len() - i,
        {
            let ghost before = paths@;
            let p = copy_bytes(self.safety.protect[i].as_slice());
            paths.push(p);
            proof {
                assert(path_views(paths@) =~= path_views(before).push(p@));
                assert(path_views(self.safety.protect@.take(i + 1)) =~= path_views(
                    self.safety.protect@.take(i as int),
                ).push(p@));
                assert(path_views(paths@) =~= built_in + path_views(
                    self.safety.protect@.take(i + 1),
                ));
            }
            i += 1;
        }
        proof {
            assert(self.safety.protect@.take(i as int) =~= self.safety.protect@);
            assert(path_views(paths@) =~= all_protected(self.safety, opt_view(*home)));
        }
        sorted_paths(&paths)
    }

    /// What a configuration file amounts to. One that exists but does not parse is an error: a
    /// typo in a protected path should stop the program, not quietly leave that path unprotected.
    pub fn load_from(path: &[u8], file: ConfigFile) -> (r: Result<Config, String>)
        ensures
            match file {
                ConfigFile::Missing => r matches Ok(c) && c.is_default(),
                ConfigFile::Parsed(config) => r == Ok::<Config, String>(config),
                ConfigFile::Unreadable(e) => r matches Err(text) && text@ == e@,
                ConfigFile::Malformed(e) => r matches Err(text) && text@ == shown(path@) + ": "@
                    + e@,
            },
    {
        match file {
            ConfigFile::Missing => Ok(Config::default()),
            ConfigFile::Parsed(config) => Ok(config),
            ConfigFile::Unreadable(e) => Err(e),
            ConfigFile::Malformed(e) => {
                let p = show(path);
                Err(cat3(p.as_str(), ": ", e.as_str()))
            },
        }
    }

    /// The place of the configuration file: what was asked for, or else where the platform keeps
    /// such files.
    pub open spec fn file_place(
        asked: Option<Seq<u8>>,
        home: Option<Seq<u8>>,
        xdg: Option<Seq<u8>>,
        macos: bool,
    ) -> Option<Seq<u8>> {
        match asked {
            Some(path) => Some(path),
            None => match home {
                None => None,
                Some(h) => if macos {
                    Some(
                        joined(
                            h,
                            vstd::utf8::encode_utf8(
                                "Library/Application Support/ccdu/config.toml"@,
                            ),
                        ),
                    )
                } else {
                    let base = if xdg is Some && xdg->0.len() > 0 {
                        xdg->0
                    } else {
                        joined(h, vstd::utf8::encode_utf8(".config"@))
                    };
                    Some(joined(base, vstd::utf8::encode_utf8("ccdu/config.toml"@)))
                },
            },
        }
    }

    /// Where the configuration file lives, from what the environment says.
    pub fn path(
        asked: &Option<Vec<u8>>,
        home: &Option<Vec<u8>>,
        xdg: &Option<Vec<u8>>,
        macos: bool,
    ) -> (r: Option<Vec<u8>>)
        ensures
            opt_view(r) == Config::file_place(
                opt_view(*asked),
                opt_view(*home),
                opt_view(*xdg),
                macos,
            ),
    {
        match asked {
            Some(path) => return Some(copy_bytes(path.as_slice())),
            None => {},
        }
        let home = match home {
            Some(h) => h.as_slice(),
            None => return None,
        };
        if macos {
            return Some(join(home, "Library/Application Support/ccdu/config.toml".as_bytes()));
        }
        let base = match xdg {
            Some(x) => if x.len() > 0 {
                copy_bytes(x.as_slice())
            } else {
                join(home, ".config".as_bytes())
            },
            None => join(home, ".config".as_bytes()),
        };
        Some(join(base.as_slice(), "ccdu/config.toml".as_bytes()))
    }

    /// A commented file showing every option at its default.
    pub fn example() -> (r: String)
        ensures
            r@ == EXAMPLE@,
    {
        String::from_str(EXAMPLE)
    }
}

/// Whatever the user asks to have protected is, with the built-in list or without it.
pub proof fn law_configured_paths_are_protected(
    safety: SafetyConfig,
    home: Option<Seq<u8>>,
    out: Seq<Vec<u8>>,
    k: int,
)
    requires
        is_path_set(all_protected(safety, home), path_views(out)),
        0 <= k < safety.protect@.len(),
    ensures
        is_protected(out, safety.protect@[k]@),
{
    let all = all_protected(safety, home);
    let lead = all.len() - safety.protect@.len();
    assert(all[lead + k] == safety.protect@[k]@);
    let m = choose|m: int|
        0 <= m < path_views(out).len() && same_path(#[trigger] path_views(out)[m], all[lead + k]);
    assert(path_views(out)[m] == out[m]@);
}

/// What may not be operated on: what the user asks to have protected, and unless they asked to do
/// without it, what the system needs and the home directory. Nothing else is protected.
pub proof fn law_what_is_protected(
    safety: SafetyConfig,
    home: Option<Seq<u8>>,
    out: Seq<Vec<u8>>,
    path: Seq<u8>,
)
    requires
        is_path_set(all_protected(safety, home), path_views(out)),
    ensures
        is_protected(out, path) <==> {
            ||| exists|k: int|
                0 <= k < safety.protect@.len() && components((#[trigger] safety.protect@[k])@)
                    == components(path)
            ||| !safety.no_default_protection && (home matches Some(h) && components(h)
                == components(path))
            ||| !safety.no_default_protection && exists|k: int|
                0 <= k < system_dirs().len() && components(
                    vstd::utf8::encode_utf8(#[trigger] system_dirs()[k]),
                ) == components(path)
        },
{
    let all = all_protected(safety, home);
    let lead = all.len() - safety.protect@.len();
    let n = system_dirs().len() as int;
    if is_protected(out, path) {
        let m = choose|m: int| 0 <= m < out.len() && same_path(#[trigger] out[m]@, path);
        assert(path_views(out)[m] == out[m]@);
        assert(all.contains(path_views(out)[m]));
        let k = choose|k: int| 0 <= k < all.len() && all[k] == out[m]@;
        if k >= lead {
            assert(all[k] == safety.protect@[k - lead]@);
        } else if k < n {
            assert(all[k] == vstd::utf8::encode_utf8(system_dirs()[k]));
        }
    }
    if exists|k: int|
        0 <= k < safety.protect@.len() && components((#[trigger] safety.protect@[k])@) == components(
            path,
        ) {
        let k = choose|k: int|
            0 <= k < safety.protect@.len() && components((#[trigger] safety.protect@[k])@)
                == components(path);
        lemma_kept(all, out, path, lead + k);
    }
    if !safety.no_default_protection {
        if home is Some && components(home->0) == components(path) {
            assert(all[n] == home->0);
            lemma_kept(all, out, path, n);
        }
        if exists|k: int|
            0 <= k < system_dirs().len() && components(
                vstd::utf8::encode_utf8(#[trigger] system_dirs()[k]),
            ) == components(path) {
            let k = choose|k: int|
                0 <= k < system_dirs().len() && components(
                    vstd::utf8::encode_utf8(#[trigger] system_dirs()[k]),
                ) == components(path);
            assert(all[k] == vstd::utf8::encode_utf8(system_dirs()[k]));
            lemma_kept(all, out, path, k);
        }
    }
}

proof fn lemma_kept(all: Seq<Seq<u8>>, out: Seq<Vec<u8>>, path: Seq<u8>, k: int)
    requires
        is_path_set(all, path_views(out)),
        0 <= k < all.len(),
        components(all[k]) == components(path),
    ensures
        is_protected(out, path),
{
    assert(all[k] == all[k]);
    let m = choose|m: int|
        0 <= m < path_views(out).len() && same_path(#[trigger] path_views(out)[m], all[k]);
    assert(path_views(out)[m] == out[m]@);
    assert(same_path(out[m]@, path));
}

/// Where the configuration is: where the user says, if they do; else below the home directory, or
/// where configuration is kept, if that is set.
pub proof fn law_where_the_configuration_is(
    asked: Option<Seq<u8>>,
    home: Option<Seq<u8>>,
    xdg: Option<Seq<u8>>,
    macos: bool,
)
    ensures
        asked is Some ==> Config::file_place(asked, home, xdg, macos) == asked,
        asked is None && home is None ==> Config::file_place(asked, home, xdg, macos) is None,
        asked is None && home is Some ==> Config::file_place(asked, home, xdg, macos) == Some(
            if macos {
                joined(
                    home->0,
                    vstd::utf8::encode_utf8("Library/Application Support/ccdu/config.toml"@),
                )
            } else {
                joined(
                    (match xdg {
                        Some(dir) if dir.len() > 0 => dir,
                        _ => joined(home->0, vstd::utf8::encode_utf8(".config"@)),
                    }),
                    vstd::utf8::encode_utf8("ccdu/config.toml"@),
                )
            },
        ),
{
}

} // verus!
