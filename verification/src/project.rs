//! The project: the owner of the module mapping, the build variables and the
//! derived target map, and the resolution operations over them.

use vstd::prelude::*;
use vstd::string::*;

use crate::errors::Error;
use crate::graph::{
    close_over, closure_ok, dep_edge, lemma_reach_refl, lemma_reach_step, lemma_reach_trans,
    lemma_reach_unfold, on_cycle, ov_of, reaches, reaches_any, sorted_ov,
};
use crate::module::{Module, ModuleKind};
use crate::strmap::{distinct_keys, StrMap};
use crate::text::{find_char, first_index_of, substr};

verus! {

/// The target an executable module declares, if it is one.
pub open spec fn exe_target(m: Module) -> Option<Seq<char>> {
    match m.kind {
        ModuleKind::Executable { target } => Some(target@),
        ModuleKind::Library => None,
    }
}

/// The module named `e` is an executable declaring target `t`.
pub open spec fn exe_declares(g: Map<Seq<char>, Module>, e: Seq<char>, t: Seq<char>) -> bool {
    g.contains_key(e) && exe_target(g[e]) == Some(t)
}

/// Some executable declares target `t`.
pub open spec fn is_target(g: Map<Seq<char>, Module>, t: Seq<char>) -> bool {
    exists|e: Seq<char>| #[trigger] exe_declares(g, e, t)
}

/// The name `x` belongs to target `t`: it is reachable from some executable
/// declaring `t`.
pub open spec fn target_reach(g: Map<Seq<char>, Module>, t: Seq<char>, x: Seq<char>) -> bool {
    exists|e: Seq<char>| #[trigger] exe_declares(g, e, t) && reaches(g, e, x)
}

/// Every module reachable from any executable exists and lies on no cycle:
/// target resolution is then well-defined.
pub open spec fn targets_ok(g: Map<Seq<char>, Module>) -> bool {
    forall|e: Seq<char>, t: Seq<char>|
        #[trigger] exe_declares(g, e, t) ==> (forall|x: Seq<char>|
            #[trigger] reaches(g, e, x) ==> g.contains_key(x) && !on_cycle(g, x))
}

/// The string views of a variable mapping.
pub open spec fn vars_view(m: StrMap<String>) -> Map<Seq<char>, Seq<char>> {
    m@.map_values(|v: String| v@)
}

/// The views of a list of entry strings.
pub open spec fn entry_views(es: Seq<String>) -> Seq<Seq<char>> {
    es.map_values(|s: String| s@)
}

/// The part of a `name=value` entry before its first `=`.
pub open spec fn var_name(s: Seq<char>) -> Seq<char> {
    s.subrange(0, first_index_of(s, '='))
}

/// The part of a `name=value` entry after its first `=`.
pub open spec fn var_value(s: Seq<char>) -> Seq<char> {
    s.subrange(first_index_of(s, '=') + 1, s.len() as int)
}

/// The mapping after the entries are folded in, later entries overwriting
/// earlier ones.
pub open spec fn apply_vars(
    m: Map<Seq<char>, Seq<char>>,
    entries: Seq<Seq<char>>,
) -> Map<Seq<char>, Seq<char>>
    decreases entries.len(),
{
    if entries.len() == 0 {
        m
    } else {
        apply_vars(m, entries.drop_last()).insert(
            var_name(entries.last()),
            var_value(entries.last()),
        )
    }
}

/// Mapping string views over an updated variable store commutes with the
/// update.
pub proof fn lemma_vars_view_insert(m: Map<Seq<char>, String>, k: Seq<char>, v: String)
    ensures
        m.insert(k, v).map_values(|s: String| s@) == m.map_values(|s: String| s@).insert(k, v@),
{
    let f = |s: String| s@;
    assert(m.insert(k, v).map_values(f) =~= m.map_values(f).insert(k, v@));
}

/// A project: the shared owner of every module, resolving all cross-module
/// references by name.
pub struct Project {
    /// The project name.
    pub name: String,
    /// The template root path, relative to the source root.
    pub templates: String,
    /// The source root path.
    pub root: String,
    /// The configuration file path.
    pub config_file: String,
    /// User-supplied build variables.
    pub vars: StrMap<String>,
    /// The module mapping.
    pub modules: StrMap<Module>,
    /// The derived target map: target name to resolved module-name set.
    pub targets: StrMap<Vec<String>>,
}

impl Project {
    /// All three mappings hold each key once.
    pub open spec fn wf(&self) -> bool {
        &&& self.vars.wf()
        &&& self.modules.wf()
        &&& self.targets.wf()
    }

    /// The module under `name`, or the failure naming it.
    pub fn module(&self, name: &String) -> (r: Result<&Module, Error>)
        requires
            self.modules.wf(),
        ensures
            match r {
                Ok(m) => self.modules@.contains_key(name@) && *m == self.modules@[name@],
                Err(e) => !self.modules@.contains_key(name@) && (e matches Error::NoSuchModule(n)
                    && n@ == name@),
            },
    {
        match self.modules.get(name) {
            Some(m) => Ok(m),
            None => Err(Error::NoSuchModule(name.clone())),
        }
    }

    /// Splits each `name=value` entry at its first `=` and folds it into the
    /// variable mapping, later entries overwriting earlier ones; an entry
    /// with no `=` stops the fold and is named in the failure.
    pub fn parse_vars(&mut self, vars: Vec<String>) -> (r: Result<(), Error>)
        requires
            old(self).wf(),
        ensures
            final(self).wf(),
            final(self).name == old(self).name,
            final(self).templates == old(self).templates,
            final(self).root == old(self).root,
            final(self).config_file == old(self).config_file,
            final(self).modules == old(self).modules,
            final(self).targets == old(self).targets,
            match r {
                Ok(_) => {
                    &&& forall|k: int|
                        0 <= k < vars@.len() ==> first_index_of(#[trigger] vars@[k]@, '=') != -1
                    &&& vars_view(final(self).vars) == apply_vars(
                        vars_view(old(self).vars),
                        entry_views(vars@),
                    )
                },
                Err(e) => {
                    &&& (e matches Error::InvalidVariable(b) && exists|k: int|
                        {
                            &&& 0 <= k < vars@.len()
                            &&& first_index_of(#[trigger] vars@[k]@, '=') == -1
                            &&& (forall|j: int|
                                0 <= j < k ==> first_index_of(#[trigger] vars@[j]@, '=') != -1)
                            &&& b@ == vars@[k]@
                            &&& vars_view(final(self).vars) == apply_vars(
                                vars_view(old(self).vars),
                                entry_views(vars@).take(k),
                            )
                        })
                },
            },
    {
        let n = vars.len();
        let mut i: usize = 0;
        while i < n
            invariant
                old(self).wf(),
                self.wf(),
                n == vars@.len(),
                0 <= i <= n,
                self.name == old(self).name,
                self.templates == old(self).templates,
                self.root == old(self).root,
                self.config_file == old(self).config_file,
                self.modules == old(self).modules,
                self.targets == old(self).targets,
                forall|j: int| 0 <= j < i ==> first_index_of(#[trigger] vars@[j]@, '=') != -1,
                vars_view(self.vars) == apply_vars(
                    vars_view(old(self).vars),
                    entry_views(vars@).take(i as int),
                ),
            decreases n - i,
        {
            let s: &String = &vars[i];
            proof {
                crate::text::lemma_first_index_of(s@, '=');
            }
            match find_char(s.as_str(), '=') {
                Some(idx) => {
                    let len = s.as_str().unicode_len();
                    let name = substr(s.as_str(), 0, idx);
                    let value = substr(s.as_str(), idx + 1, len);
                    let ghost vpre = self.vars@;
                    self.vars.insert(name, value);
                    proof {
                        lemma_vars_view_insert(vpre, var_name(s@), value);
                        assert(entry_views(vars@).take(i + 1).drop_last() =~= entry_views(
                            vars@,
                        ).take(i as int));
                        assert(entry_views(vars@).take(i + 1).last() == s@);
                        assert(vars_view(self.vars) =~= apply_vars(
                            vars_view(old(self).vars),
                            entry_views(vars@).take(i + 1),
                        ));
                    }
                },
                None => {
                    proof {
                        assert(first_index_of(vars@[i as int]@, '=') == -1);
                    }
                    return Err(Error::InvalidVariable(s.clone()));
                },
            }
            i = i + 1;
        }
        proof {
            assert(entry_views(vars@).take(n as int) =~= entry_views(vars@));
        }
        Ok(())
    }
}

impl Module {
    /// The set of modules transitively required by this module: everything
    /// reachable from its `depends` list, each name exactly once.
    pub fn depmods(&self, proj: &Project) -> (r: Result<Vec<String>, Error>)
        requires
            proj.modules.wf(),
        ensures
            (match r {
                Ok(out) => {
                    &&& closure_ok(proj.modules@, ov_of(self.depends@))
                    &&& distinct_keys(ov_of(out@))
                    &&& sorted_ov(ov_of(out@))
                    &&& forall|x: Seq<char>|
                        #[trigger] ov_of(out@).contains(x) ==> reaches_any(
                            proj.modules@,
                            ov_of(self.depends@),
                            x,
                        )
                    &&& forall|x: Seq<char>|
                        #[trigger] reaches_any(proj.modules@, ov_of(self.depends@), x)
                            ==> ov_of(out@).contains(x)
                },
                Err(e) => {
                    &&& !closure_ok(proj.modules@, ov_of(self.depends@))
                    &&& (match e {
                        Error::NoSuchModule(nm) => !proj.modules@.contains_key(nm@)
                            && reaches_any(proj.modules@, ov_of(self.depends@), nm@),
                        Error::DependencyCycle => exists|x: Seq<char>|
                            #[trigger] reaches_any(proj.modules@, ov_of(self.depends@), x)
                                && on_cycle(proj.modules@, x),
                        _ => false,
                    })
                },
            }),
    {
        close_over(&proj.modules, &self.depends)
    }

    /// The libraries among `depmods`.
    pub fn deplibs(&self, proj: &Project) -> (r: Result<Vec<String>, Error>)
        requires
            proj.modules.wf(),
        ensures
            (match r {
                Ok(out) => {
                    &&& closure_ok(proj.modules@, ov_of(self.depends@))
                    &&& distinct_keys(ov_of(out@))
                    &&& sorted_ov(ov_of(out@))
                    &&& forall|x: Seq<char>|
                        #[trigger] ov_of(out@).contains(x) ==> reaches_any(
                            proj.modules@,
                            ov_of(self.depends@),
                            x,
                        ) && proj.modules@.contains_key(x) && proj.modules@[x].is_library()
                    &&& forall|x: Seq<char>|
                        #[trigger] reaches_any(proj.modules@, ov_of(self.depends@), x)
                            && proj.modules@.contains_key(x) && proj.modules@[x].is_library()
                            ==> ov_of(out@).contains(x)
                },
                Err(e) => {
                    &&& !closure_ok(proj.modules@, ov_of(self.depends@))
                    &&& (match e {
                        Error::NoSuchModule(nm) => !proj.modules@.contains_key(nm@)
                            && reaches_any(proj.modules@, ov_of(self.depends@), nm@),
                        Error::DependencyCycle => exists|x: Seq<char>|
                            #[trigger] reaches_any(proj.modules@, ov_of(self.depends@), x)
                                && on_cycle(proj.modules@, x),
                        _ => false,
                    })
                },
            }),
    {
        match self.depmods(proj) {
            Err(e) => Err(e),
            Ok(all) => {
                proof {
                    assert forall|k: int|
                        0 <= k < all@.len() implies proj.modules@.contains_key(
                        #[trigger] ov_of(all@)[k],
                    ) by {
                        assert(ov_of(all@).contains(ov_of(all@)[k]));
                    }
                }
                Ok(filter_kind(proj, &all, true))
            },
        }
    }

    /// The executables among `depmods`.
    pub fn depexes(&self, proj: &Project) -> (r: Result<Vec<String>, Error>)
        requires
            proj.modules.wf(),
        ensures
            (match r {
                Ok(out) => {
                    &&& closure_ok(proj.modules@, ov_of(self.depends@))
                    &&& distinct_keys(ov_of(out@))
                    &&& sorted_ov(ov_of(out@))
                    &&& forall|x: Seq<char>|
                        #[trigger] ov_of(out@).contains(x) ==> reaches_any(
                            proj.modules@,
                            ov_of(self.depends@),
                            x,
                        ) && proj.modules@.contains_key(x) && proj.modules@[x].is_executable()
                    &&& forall|x: Seq<char>|
                        #[trigger] reaches_any(proj.modules@, ov_of(self.depends@), x)
                            && proj.modules@.contains_key(x) && proj.modules@[x].is_executable()
                            ==> ov_of(out@).contains(x)
                },
                Err(e) => {
                    &&& !closure_ok(proj.modules@, ov_of(self.depends@))
                    &&& (match e {
                        Error::NoSuchModule(nm) => !proj.modules@.contains_key(nm@)
                            && reaches_any(proj.modules@, ov_of(self.depends@), nm@),
                        Error::DependencyCycle => exists|x: Seq<char>|
                            #[trigger] reaches_any(proj.modules@, ov_of(self.depends@), x)
                                && on_cycle(proj.modules@, x),
                        _ => false,
                    })
                },
            }),
    {
        match self.depmods(proj) {
            Err(e) => Err(e),
            Ok(all) => {
                proof {
                    assert forall|k: int|
                        0 <= k < all@.len() implies proj.modules@.contains_key(
                        #[trigger] ov_of(all@)[k],
                    ) by {
                        assert(ov_of(all@).contains(ov_of(all@)[k]));
                    }
                }
                Ok(filter_kind(proj, &all, false))
            },
        }
    }
}

/// Among the first `upto` modules there is an executable declaring `t`.
pub open spec fn declared_in_prefix(m: &StrMap<Module>, upto: int, t: Seq<char>) -> bool {
    exists|ii: int| 0 <= ii < upto && #[trigger] exe_target(m.vals()[ii]) == Some(t)
}

/// The name `x` belongs to a module among the first `upto` that is an
/// executable declaring `t`.
pub open spec fn declarer_in_prefix(
    m: &StrMap<Module>,
    upto: int,
    t: Seq<char>,
    x: Seq<char>,
) -> bool {
    exists|ii: int|
        0 <= ii < upto && #[trigger] m.keys()[ii] == x && exe_target(m.vals()[ii]) == Some(t)
}

/// A declaration among the first `i` modules also stands among the first `j`.
pub proof fn lemma_declared_mono(m: &StrMap<Module>, i: int, j: int, t: Seq<char>)
    requires
        declared_in_prefix(m, i, t),
        i <= j,
    ensures
        declared_in_prefix(m, j, t),
{
    let ii = choose|ii: int| 0 <= ii < i && exe_target(m.vals()[ii]) == Some(t);
    assert(0 <= ii < j && exe_target(m.vals()[ii]) == Some(t));
}

/// A declarer among the first `i` modules also stands among the first `j`.
pub proof fn lemma_declarer_mono(m: &StrMap<Module>, i: int, j: int, t: Seq<char>, x: Seq<char>)
    requires
        declarer_in_prefix(m, i, t, x),
        i <= j,
    ensures
        declarer_in_prefix(m, j, t, x),
{
    let ii = choose|ii: int|
        0 <= ii < i && m.keys()[ii] == x && exe_target(m.vals()[ii]) == Some(t);
    assert(0 <= ii < j && m.keys()[ii] == x && exe_target(m.vals()[ii]) == Some(t));
}

/// A declarer among the first `i + 1` modules stands among the first `i` or
/// is module `i` itself.
pub proof fn lemma_declarer_split(m: &StrMap<Module>, i: int, t: Seq<char>, x: Seq<char>)
    requires
        declarer_in_prefix(m, i + 1, t, x),
    ensures
        declarer_in_prefix(m, i, t, x) || (m.keys()[i] == x && exe_target(m.vals()[i]) == Some(
            t,
        )),
{
    let ii = choose|ii: int|
        0 <= ii < i + 1 && m.keys()[ii] == x && exe_target(m.vals()[ii]) == Some(t);
    if ii < i {
        assert(declarer_in_prefix(m, i, t, x));
    }
}

/// The name `x` stands among the first `upto` entries of `all`.
pub open spec fn from_prefix(all: Seq<String>, upto: int, x: Seq<char>) -> bool {
    exists|k: int| 0 <= k < upto && #[trigger] ov_of(all)[k] == x
}

/// The module named `x` exists and has the asked-for kind.
pub open spec fn kind_is(g: Map<Seq<char>, Module>, x: Seq<char>, libs: bool) -> bool {
    g.contains_key(x) && (if libs {
        g[x].is_library()
    } else {
        g[x].is_executable()
    })
}

/// Keeps the names of `all` that name a library (`libs` set) or an
/// executable (`libs` unset); every name must exist in the module mapping.
fn filter_kind(proj: &Project, all: &Vec<String>, libs: bool) -> (r: Vec<String>)
    requires
        proj.modules.wf(),
        forall|k: int|
            0 <= k < all@.len() ==> proj.modules@.contains_key(#[trigger] ov_of(all@)[k]),
        distinct_keys(ov_of(all@)),
        sorted_ov(ov_of(all@)),
    ensures
        distinct_keys(ov_of(r@)),
        sorted_ov(ov_of(r@)),
        forall|x: Seq<char>|
            #[trigger] ov_of(r@).contains(x) ==> ov_of(all@).contains(x)
                && proj.modules@.contains_key(x) && (if libs {
                proj.modules@[x].is_library()
            } else {
                proj.modules@[x].is_executable()
            }),
        forall|k: int|
            0 <= k < all@.len() && (if libs {
                proj.modules@[ov_of(all@)[k]].is_library()
            } else {
                proj.modules@[ov_of(all@)[k]].is_executable()
            }) ==> ov_of(r@).contains(#[trigger] ov_of(all@)[k]),
{
    let n = all.len();
    let mut r: Vec<String> = Vec::new();
    let mut i: usize = 0;
    while i < n
        invariant
            proj.modules.wf(),
            n == all@.len(),
            0 <= i <= n,
            forall|k: int|
                0 <= k < all@.len() ==> proj.modules@.contains_key(#[trigger] ov_of(all@)[k]),
            distinct_keys(ov_of(all@)),
            sorted_ov(ov_of(all@)),
            distinct_keys(ov_of(r@)),
            sorted_ov(ov_of(r@)),
            forall|x: Seq<char>| #[trigger] ov_of(r@).contains(x) ==> from_prefix(all@, i as int, x),
            forall|x: Seq<char>|
                #[trigger] ov_of(r@).contains(x) ==> kind_is(proj.modules@, x, libs),
            forall|k: int|
                0 <= k < i && kind_is(proj.modules@, ov_of(all@)[k], libs) ==> ov_of(
                    r@,
                ).contains(#[trigger] ov_of(all@)[k]),
        decreases n - i,
    {
        let name: &String = &all[i];
        proof {
            assert(ov_of(all@)[i as int] == name@);
        }
        let keep: bool = match proj.modules.get(name) {
            Some(m) => {
                match m.kind {
                    ModuleKind::Library => libs,
                    ModuleKind::Executable { .. } => !libs,
                }
            },
            None => {
                proof {
                    assert(false);
                }
                false
            },
        };
        if keep {
            let ghost rpre = ov_of(r@);
            r.push(name.clone());
            proof {
                assert(ov_of(r@) =~= rpre.push(name@));
                assert(ov_of(r@)[ov_of(r@).len() - 1] == name@);
                assert(ov_of(r@).contains(name@));
                assert forall|x: Seq<char>| rpre.contains(x) implies ov_of(r@).contains(x) by {
                    let p = choose|p: int| 0 <= p < rpre.len() && rpre[p] == x;
                    assert(ov_of(r@)[p] == x);
                }
                assert forall|x: Seq<char>|
                    ov_of(r@).contains(x) implies (rpre.contains(x) || x == name@) by {
                    let p = choose|p: int| 0 <= p < ov_of(r@).len() && ov_of(r@)[p] == x;
                    if p < rpre.len() {
                        assert(rpre[p] == x);
                    }
                }
                assert forall|p: int, q: int|
                    0 <= p < q < ov_of(r@).len() implies ov_of(r@)[p] != ov_of(r@)[q] by {
                    if q == ov_of(r@).len() - 1 {
                        assert(rpre.contains(rpre[p]));
                        assert(from_prefix(all@, i as int, rpre[p]));
                        let k = choose|k: int| 0 <= k < i && ov_of(all@)[k] == rpre[p];
                        assert(ov_of(all@)[k] != ov_of(all@)[i as int]);
                    } else {
                        assert(ov_of(r@)[p] == rpre[p] && ov_of(r@)[q] == rpre[q]);
                    }
                }
                assert forall|p: int, q: int|
                    0 <= p < q < ov_of(r@).len() implies crate::text::seq_str_le(
                    ov_of(r@)[p],
                    ov_of(r@)[q],
                ) by {
                    if q == ov_of(r@).len() - 1 {
                        assert(rpre.contains(rpre[p]));
                        assert(from_prefix(all@, i as int, rpre[p]));
                        let k = choose|k: int| 0 <= k < i && ov_of(all@)[k] == rpre[p];
                        assert(crate::text::seq_str_le(ov_of(all@)[k], ov_of(all@)[i as int]));
                        assert(ov_of(r@)[q] == name@);
                    } else {
                        assert(ov_of(r@)[p] == rpre[p] && ov_of(r@)[q] == rpre[q]);
                    }
                }
                assert(from_prefix(all@, i + 1, name@));
                assert(kind_is(proj.modules@, name@, libs));
                assert forall|x: Seq<char>|
                    #[trigger] ov_of(r@).contains(x) implies from_prefix(all@, i + 1, x)
                    && kind_is(proj.modules@, x, libs) by {
                    if x != name@ {
                        assert(rpre.contains(x));
                        assert(from_prefix(all@, i as int, x));
                        let k = choose|k: int| 0 <= k < i && ov_of(all@)[k] == x;
                        assert(0 <= k < i + 1 && ov_of(all@)[k] == x);
                    }
                }
            }
        } else {
            proof {
                assert forall|x: Seq<char>|
                    #[trigger] ov_of(r@).contains(x) implies from_prefix(all@, i + 1, x) by {
                    assert(from_prefix(all@, i as int, x));
                    let k = choose|k: int| 0 <= k < i && ov_of(all@)[k] == x;
                    assert(0 <= k < i + 1 && ov_of(all@)[k] == x);
                }
                assert forall|k: int|
                    0 <= k < i + 1 && kind_is(proj.modules@, ov_of(all@)[k], libs) implies ov_of(
                    r@,
                ).contains(#[trigger] ov_of(all@)[k]) by {
                    if k == i {
                        assert(!kind_is(proj.modules@, name@, libs));
                    }
                }
            }
        }
        i = i + 1;
    }
    proof {
        assert forall|x: Seq<char>|
            #[trigger] ov_of(r@).contains(x) implies ov_of(all@).contains(x)
            && proj.modules@.contains_key(x) && (if libs {
            proj.modules@[x].is_library()
        } else {
            proj.modules@[x].is_executable()
        }) by {
            assert(from_prefix(all@, n as int, x));
            let k = choose|k: int| 0 <= k < n && ov_of(all@)[k] == x;
            assert(ov_of(all@)[k] == x);
            assert(kind_is(proj.modules@, x, libs));
        }
        assert forall|k: int|
            0 <= k < all@.len() && (if libs {
                proj.modules@[ov_of(all@)[k]].is_library()
            } else {
                proj.modules@[ov_of(all@)[k]].is_executable()
            }) implies ov_of(r@).contains(#[trigger] ov_of(all@)[k]) by {
            assert(kind_is(proj.modules@, ov_of(all@)[k], libs));
        }
    }
    r
}


/// Registers every executable module under the target it declares: the seed
/// sets of target resolution.
fn build_seeds(m: &StrMap<Module>) -> (seeds: StrMap<Vec<String>>)
    requires
        m.wf(),
    ensures
        seeds.wf(),
        forall|t: Seq<char>|
            #[trigger] seeds@.contains_key(t) ==> declared_in_prefix(
                m,
                m.keys().len() as int,
                t,
            ),
        forall|ii: int|
            #![trigger m.vals()[ii]]
            0 <= ii < m.keys().len() ==> (match exe_target(m.vals()[ii]) {
                Some(t) => seeds@.contains_key(t),
                None => true,
            }),
        forall|k: int|
            0 <= k < seeds.keys().len() ==> distinct_keys(ov_of(#[trigger] seeds.vals()[k]@)),
        forall|k: int, x: Seq<char>|
            0 <= k < seeds.keys().len() && #[trigger] ov_of(seeds.vals()[k]@).contains(x)
                ==> declarer_in_prefix(m, m.keys().len() as int, seeds.keys()[k], x),
        forall|k: int, x: Seq<char>|
            0 <= k < seeds.keys().len() && #[trigger] declarer_in_prefix(
                m,
                m.keys().len() as int,
                seeds.keys()[k],
                x,
            ) ==> ov_of(seeds.vals()[k]@).contains(x),
{
    let n = m.len();
    let mut seeds: StrMap<Vec<String>> = StrMap::new();
    let mut i: usize = 0;
    while i < n
        invariant
            m.wf(),
            n == m.keys().len(),
            n == m.vals().len(),
            0 <= i <= n,
            seeds.wf(),
            forall|t: Seq<char>|
                #[trigger] seeds@.contains_key(t) ==> declared_in_prefix(m, i as int, t),
            forall|ii: int|
                #![trigger m.vals()[ii]]
                0 <= ii < i ==> (match exe_target(m.vals()[ii]) {
                    Some(t) => seeds@.contains_key(t),
                    None => true,
                }),
            forall|k: int|
                0 <= k < seeds.keys().len() ==> distinct_keys(
                    ov_of(#[trigger] seeds.vals()[k]@),
                ),
            forall|k: int, x: Seq<char>|
                0 <= k < seeds.keys().len() && #[trigger] ov_of(seeds.vals()[k]@).contains(x)
                    ==> declarer_in_prefix(m, i as int, seeds.keys()[k], x),
            forall|k: int, x: Seq<char>|
                0 <= k < seeds.keys().len() && #[trigger] declarer_in_prefix(
                    m,
                    i as int,
                    seeds.keys()[k],
                    x,
                ) ==> ov_of(seeds.vals()[k]@).contains(x),
        decreases n - i,
    {
        proof {
            m.lemma_view();
            seeds.lemma_view();
        }
        let mo: &Module = m.val_at(i);
        let name: &String = m.key_at(i);
        match &mo.kind {
            ModuleKind::Library => {
                proof {
                    assert(exe_target(m.vals()[i as int]) is None);
                    assert forall|t: Seq<char>|
                        #[trigger] seeds@.contains_key(t) implies declared_in_prefix(
                        m,
                        i + 1,
                        t,
                    ) by {
                        lemma_declared_mono(m, i as int, i + 1, t);
                    }
                    assert forall|k: int, x: Seq<char>|
                        0 <= k < seeds.keys().len() && #[trigger] declarer_in_prefix(
                            m,
                            i + 1,
                            seeds.keys()[k],
                            x,
                        ) implies ov_of(seeds.vals()[k]@).contains(x) by {
                        lemma_declarer_split(m, i as int, seeds.keys()[k], x);
                    }
                    assert forall|k: int, x: Seq<char>|
                        0 <= k < seeds.keys().len() && #[trigger] ov_of(
                            seeds.vals()[k]@,
                        ).contains(x) implies declarer_in_prefix(m, i + 1, seeds.keys()[k], x) by {
                        lemma_declarer_mono(m, i as int, i + 1, seeds.keys()[k], x);
                    }
                }
            },
            ModuleKind::Executable { target } => {
                proof {
                    assert(exe_target(m.vals()[i as int]) == Some(target@));
                }
                match seeds.index_of(target) {
                    Some(k) => {
                        let ghost kpre = seeds.keys();
                        let ghost vpre = seeds.vals();
                        let ghost mpre = seeds@;
                        let ghost lpre = ov_of(seeds.vals()[k as int]@);
                        proof {
                            assert(kpre[k as int] == target@);
                        }
                        seeds.push_at(k, name.clone());
                        proof {
                            seeds.lemma_view();
                            let lnew = ov_of(seeds.vals()[k as int]@);
                            assert(lnew =~= lpre.push(m.keys()[i as int]));
                            assert forall|x: Seq<char>| lpre.contains(x) implies lnew.contains(
                                x,
                            ) by {
                                let p = choose|p: int| 0 <= p < lpre.len() && lpre[p] == x;
                                assert(lnew[p] == x);
                            }
                            assert(lnew[lnew.len() - 1] == m.keys()[i as int]);
                            assert(lnew.contains(m.keys()[i as int]));
                            assert forall|x: Seq<char>|
                                lnew.contains(x) implies (lpre.contains(x) || x
                                    == m.keys()[i as int]) by {
                                let p = choose|p: int| 0 <= p < lnew.len() && lnew[p] == x;
                                if p < lpre.len() {
                                    assert(lpre[p] == x);
                                }
                            }
                            // the appended name is new in this seed list
                            if lpre.contains(m.keys()[i as int]) {
                                assert(declarer_in_prefix(
                                    m,
                                    i as int,
                                    kpre[k as int],
                                    m.keys()[i as int],
                                ));
                                let ii = choose|ii: int|
                                    0 <= ii < i && m.keys()[ii] == m.keys()[i as int]
                                        && exe_target(m.vals()[ii]) == Some(kpre[k as int]);
                                assert(false);
                            }
                            assert(distinct_keys(lnew));
                            assert forall|t: Seq<char>|
                                #[trigger] seeds@.contains_key(t) implies declared_in_prefix(
                                m,
                                i + 1,
                                t,
                            ) by {
                                if t == target@ {
                                    assert(exe_target(m.vals()[i as int]) == Some(t));
                                } else {
                                    assert(mpre.contains_key(t));
                                    lemma_declared_mono(m, i as int, i + 1, t);
                                }
                            }
                            assert forall|k2: int, x: Seq<char>|
                                0 <= k2 < seeds.keys().len() && #[trigger] ov_of(
                                    seeds.vals()[k2]@,
                                ).contains(x) implies declarer_in_prefix(
                                m,
                                i + 1,
                                seeds.keys()[k2],
                                x,
                            ) by {
                                if k2 == k {
                                    if x == m.keys()[i as int] {
                                        assert(declarer_in_prefix(m, i + 1, target@, x));
                                    } else {
                                        assert(lpre.contains(x));
                                        lemma_declarer_mono(m, i as int, i + 1, kpre[k as int], x);
                                    }
                                } else {
                                    assert(seeds.vals()[k2] == vpre[k2]);
                                    lemma_declarer_mono(m, i as int, i + 1, kpre[k2], x);
                                }
                            }
                            assert forall|k2: int, x: Seq<char>|
                                0 <= k2 < seeds.keys().len() && #[trigger] declarer_in_prefix(
                                    m,
                                    i + 1,
                                    seeds.keys()[k2],
                                    x,
                                ) implies ov_of(seeds.vals()[k2]@).contains(x) by {
                                lemma_declarer_split(m, i as int, seeds.keys()[k2], x);
                                if m.keys()[i as int] == x && exe_target(m.vals()[i as int])
                                    == Some(seeds.keys()[k2]) {
                                    assert(seeds.keys()[k2] == target@);
                                    assert(k2 == k);
                                    assert(lnew.contains(x));
                                } else {
                                    assert(declarer_in_prefix(m, i as int, seeds.keys()[k2], x));
                                    if k2 == k {
                                        assert(lpre.contains(x));
                                    } else {
                                        assert(seeds.vals()[k2] == vpre[k2]);
                                    }
                                }
                            }
                        }
                    },
                    None => {
                        let mut single: Vec<String> = Vec::new();
                        single.push(name.clone());
                        let ghost kpre = seeds.keys();
                        let ghost vpre = seeds.vals();
                        proof {
                            assert(ov_of(single@) =~= seq![m.keys()[i as int]]);
                            if seeds@.contains_key(target@) {
                                let kk = choose|kk: int|
                                    0 <= kk < kpre.len() && kpre[kk] == target@;
                                assert(false);
                            }
                        }
                        seeds.insert(target.clone(), single);
                        proof {
                            seeds.lemma_view();
                            assert(seeds.keys() == kpre.push(target@));
                            assert(seeds.vals().last() == seeds.vals()[seeds.vals().len() - 1]);
                            assert forall|t: Seq<char>|
                                #[trigger] seeds@.contains_key(t) implies declared_in_prefix(
                                m,
                                i + 1,
                                t,
                            ) by {
                                if t == target@ {
                                    assert(exe_target(m.vals()[i as int]) == Some(t));
                                } else {
                                    lemma_declared_mono(m, i as int, i + 1, t);
                                }
                            }
                            assert forall|k2: int, x: Seq<char>|
                                0 <= k2 < seeds.keys().len() && #[trigger] ov_of(
                                    seeds.vals()[k2]@,
                                ).contains(x) implies declarer_in_prefix(
                                m,
                                i + 1,
                                seeds.keys()[k2],
                                x,
                            ) by {
                                if k2 == seeds.keys().len() - 1 {
                                    assert(seeds.vals()[k2] == single);
                                    assert(x == m.keys()[i as int]);
                                    assert(seeds.keys()[k2] == target@);
                                    assert(declarer_in_prefix(m, i + 1, target@, x));
                                } else {
                                    assert(seeds.keys()[k2] == kpre[k2]);
                                    assert(seeds.vals()[k2] == vpre[k2]);
                                    lemma_declarer_mono(m, i as int, i + 1, kpre[k2], x);
                                }
                            }
                            assert forall|k2: int, x: Seq<char>|
                                0 <= k2 < seeds.keys().len() && #[trigger] declarer_in_prefix(
                                    m,
                                    i + 1,
                                    seeds.keys()[k2],
                                    x,
                                ) implies ov_of(seeds.vals()[k2]@).contains(x) by {
                                lemma_declarer_split(m, i as int, seeds.keys()[k2], x);
                                if m.keys()[i as int] == x && exe_target(m.vals()[i as int])
                                    == Some(seeds.keys()[k2]) {
                                    assert(seeds.keys()[k2] == target@);
                                    assert(k2 == seeds.keys().len() - 1);
                                    assert(ov_of(seeds.vals()[k2]@)[0] == x);
                                } else {
                                    assert(declarer_in_prefix(m, i as int, seeds.keys()[k2], x));
                                    if k2 == seeds.keys().len() - 1 {
                                        let ii = choose|ii: int|
                                            0 <= ii < i && m.keys()[ii] == x && exe_target(
                                                m.vals()[ii],
                                            ) == Some(seeds.keys()[k2]);
                                        assert(false);
                                    } else {
                                        assert(seeds.keys()[k2] == kpre[k2]);
                                        assert(seeds.vals()[k2] == vpre[k2]);
                                    }
                                }
                            }
                        }
                    },
                }
            },
        }
        i = i + 1;
    }
    seeds
}


/// Resolves every registered target: closes its seed set over `depends`.
fn resolve_targets(m: &StrMap<Module>, seeds: &StrMap<Vec<String>>) -> (r: Result<
    StrMap<Vec<String>>,
    Error,
>)
    requires
        m.wf(),
        seeds.wf(),
    ensures
        (match r {
            Ok(tmap) => {
                &&& tmap.wf()
                &&& tmap.keys() == seeds.keys()
                &&& tmap.vals().len() == seeds.keys().len()
                &&& forall|k: int|
                    0 <= k < tmap.keys().len() ==> distinct_keys(
                        ov_of(#[trigger] tmap.vals()[k]@),
                    )
                &&& forall|k: int|
                    0 <= k < tmap.keys().len() ==> sorted_ov(ov_of(#[trigger] tmap.vals()[k]@))
                &&& forall|k: int|
                    0 <= k < tmap.keys().len() ==> closure_ok(
                        m@,
                        ov_of(#[trigger] seeds.vals()[k]@),
                    )
                &&& forall|k: int, x: Seq<char>|
                    0 <= k < tmap.keys().len() && #[trigger] ov_of(tmap.vals()[k]@).contains(x)
                        ==> reaches_any(m@, ov_of(seeds.vals()[k]@), x)
                &&& forall|k: int, x: Seq<char>|
                    0 <= k < tmap.keys().len() && #[trigger] reaches_any(
                        m@,
                        ov_of(seeds.vals()[k]@),
                        x,
                    ) ==> ov_of(tmap.vals()[k]@).contains(x)
            },
            Err(e) => {
                &&& exists|k: int|
                    0 <= k < seeds.keys().len() && !closure_ok(
                        m@,
                        ov_of(#[trigger] seeds.vals()[k]@),
                    )
                &&& (match e {
                    Error::NoSuchModule(nm) => !m@.contains_key(nm@) && exists|k: int|
                        0 <= k < seeds.keys().len() && reaches_any(
                            m@,
                            ov_of(#[trigger] seeds.vals()[k]@),
                            nm@,
                        ),
                    Error::DependencyCycle => exists|k: int, x: Seq<char>|
                        0 <= k < seeds.keys().len() && #[trigger] reaches_any(
                            m@,
                            ov_of(seeds.vals()[k]@),
                            x,
                        ) && on_cycle(m@, x),
                    _ => false,
                })
            },
        }),
{
    let n = seeds.len();
    let mut tmap: StrMap<Vec<String>> = StrMap::new();
    let mut k: usize = 0;
    while k < n
        invariant
            m.wf(),
            seeds.wf(),
            n == seeds.keys().len(),
            n == seeds.vals().len(),
            0 <= k <= n,
            tmap.wf(),
            tmap.keys() == seeds.keys().subrange(0, k as int),
            tmap.vals().len() == k,
            forall|k2: int|
                0 <= k2 < k ==> distinct_keys(ov_of(#[trigger] tmap.vals()[k2]@)),
            forall|k2: int| 0 <= k2 < k ==> sorted_ov(ov_of(#[trigger] tmap.vals()[k2]@)),
            forall|k2: int|
                0 <= k2 < k ==> closure_ok(m@, ov_of(#[trigger] seeds.vals()[k2]@)),
            forall|k2: int, x: Seq<char>|
                0 <= k2 < k && #[trigger] ov_of(tmap.vals()[k2]@).contains(x) ==> reaches_any(
                    m@,
                    ov_of(seeds.vals()[k2]@),
                    x,
                ),
            forall|k2: int, x: Seq<char>|
                0 <= k2 < k && #[trigger] reaches_any(m@, ov_of(seeds.vals()[k2]@), x)
                    ==> ov_of(tmap.vals()[k2]@).contains(x),
        decreases n - k,
    {
        proof {
            seeds.lemma_view();
            tmap.lemma_view();
        }
        let tname: &String = seeds.key_at(k);
        let slist: &Vec<String> = seeds.val_at(k);
        match close_over(m, slist) {
            Ok(out) => {
                let ghost kpre = tmap.keys();
                let ghost vpre = tmap.vals();
                proof {
                    if tmap@.contains_key(tname@) {
                        let idx = choose|idx: int|
                            0 <= idx < kpre.len() && kpre[idx] == tname@;
                        assert(seeds.keys()[idx] == seeds.keys()[k as int]);
                        assert(false);
                    }
                }
                tmap.insert(tname.clone(), out);
                proof {
                    assert(tmap.keys() == kpre.push(tname@));
                    assert(tmap.keys() =~= seeds.keys().subrange(0, k + 1));
                    assert forall|k2: int, x: Seq<char>|
                        0 <= k2 < k + 1 && #[trigger] ov_of(tmap.vals()[k2]@).contains(x)
                        implies reaches_any(m@, ov_of(seeds.vals()[k2]@), x) by {
                        if k2 < k {
                            assert(tmap.vals()[k2] == vpre[k2]);
                        } else {
                            assert(tmap.vals()[k2] == tmap.vals().last());
                        }
                    }
                    assert forall|k2: int, x: Seq<char>|
                        0 <= k2 < k + 1 && #[trigger] reaches_any(
                            m@,
                            ov_of(seeds.vals()[k2]@),
                            x,
                        ) implies ov_of(tmap.vals()[k2]@).contains(x) by {
                        if k2 < k {
                            assert(tmap.vals()[k2] == vpre[k2]);
                        } else {
                            assert(tmap.vals()[k2] == tmap.vals().last());
                        }
                    }
                    assert forall|k2: int|
                        0 <= k2 < k + 1 implies distinct_keys(
                        ov_of(#[trigger] tmap.vals()[k2]@),
                    ) by {
                        if k2 < k {
                            assert(tmap.vals()[k2] == vpre[k2]);
                        } else {
                            assert(tmap.vals()[k2] == tmap.vals().last());
                        }
                    }
                    assert forall|k2: int|
                        0 <= k2 < k + 1 implies sorted_ov(
                        ov_of(#[trigger] tmap.vals()[k2]@),
                    ) by {
                        if k2 < k {
                            assert(tmap.vals()[k2] == vpre[k2]);
                        } else {
                            assert(tmap.vals()[k2] == tmap.vals().last());
                        }
                    }
                }
            },
            Err(e) => {
                proof {
                    assert(!closure_ok(m@, ov_of(seeds.vals()[k as int]@)));
                }
                return Err(e);
            },
        }
        k = k + 1;
    }
    proof {
        assert(tmap.keys() =~= seeds.keys());
    }
    Ok(tmap)
}

impl Project {
    /// Derives the target map: for every target declared by an executable,
    /// the reflexive-transitive closure of its declaring executables over
    /// `depends`. Fails on a missing module or a dependency cycle among the
    /// modules any executable reaches.
    pub fn update_dependencies(&mut self) -> (r: Result<(), Error>)
        requires
            old(self).wf(),
        ensures
            final(self).wf(),
            final(self).name == old(self).name,
            final(self).templates == old(self).templates,
            final(self).root == old(self).root,
            final(self).config_file == old(self).config_file,
            final(self).modules == old(self).modules,
            final(self).vars == old(self).vars,
            (match r {
                Ok(_) => {
                    &&& targets_ok(old(self).modules@)
                    &&& forall|t: Seq<char>|
                        #[trigger] final(self).targets@.contains_key(t) ==> is_target(
                            old(self).modules@,
                            t,
                        )
                    &&& forall|t: Seq<char>|
                        #[trigger] is_target(old(self).modules@, t)
                            ==> final(self).targets@.contains_key(t)
                    &&& forall|t: Seq<char>|
                        #[trigger] final(self).targets@.contains_key(t) ==> distinct_keys(
                            ov_of(final(self).targets@[t]@),
                        )
                    &&& forall|t: Seq<char>|
                        #[trigger] final(self).targets@.contains_key(t) ==> sorted_ov(
                            ov_of(final(self).targets@[t]@),
                        )
                    &&& forall|t: Seq<char>, x: Seq<char>|
                        final(self).targets@.contains_key(t) && #[trigger] ov_of(
                            final(self).targets@[t]@,
                        ).contains(x) ==> target_reach(old(self).modules@, t, x)
                    &&& forall|t: Seq<char>, x: Seq<char>|
                        #[trigger] target_reach(old(self).modules@, t, x)
                            ==> final(self).targets@.contains_key(t)
                            && ov_of(final(self).targets@[t]@).contains(x)
                },
                Err(e) => {
                    &&& final(self).targets == old(self).targets
                    &&& !targets_ok(old(self).modules@)
                    &&& (match e {
                        Error::NoSuchModule(nm) => !old(self).modules@.contains_key(nm@)
                            && exists|e0: Seq<char>, t: Seq<char>|
                            #[trigger] exe_declares(old(self).modules@, e0, t) && reaches(
                                old(self).modules@,
                                e0,
                                nm@,
                            ),
                        Error::DependencyCycle => exists|e0: Seq<char>, t: Seq<char>, x: Seq<char>|
                            #![trigger exe_declares(old(self).modules@, e0, t), on_cycle(old(self).modules@, x)]
                            exe_declares(old(self).modules@, e0, t) && reaches(
                                old(self).modules@,
                                e0,
                                x,
                            ) && on_cycle(old(self).modules@, x),
                        _ => false,
                    })
                },
            }),
    {
        let ghost g = old(self).modules@;
        let ghost n = old(self).modules.keys().len() as int;
        let seeds = build_seeds(&self.modules);
        proof {
            self.modules.lemma_view();
            seeds.lemma_view();
        }
        match resolve_targets(&self.modules, &seeds) {
            Ok(tmap) => {
                self.targets = tmap;
                proof {
                    self.targets.lemma_view();
                    let m = &self.modules;
                    assert forall|t: Seq<char>|
                        #[trigger] self.targets@.contains_key(t) implies is_target(g, t)
                        && seeds@.contains_key(t) by {
                        let k = choose|k: int|
                            0 <= k < self.targets.keys().len() && self.targets.keys()[k] == t;
                        assert(seeds.keys()[k] == t);
                        assert(seeds@.contains_key(seeds.keys()[k]));
                        assert(declared_in_prefix(m, n, t));
                        let ii = choose|ii: int|
                            0 <= ii < n && exe_target(m.vals()[ii]) == Some(t);
                        assert(g[m.keys()[ii]] == m.vals()[ii]);
                        assert(exe_declares(g, m.keys()[ii], t));
                    }
                    assert forall|t: Seq<char>|
                        #[trigger] is_target(g, t) implies self.targets@.contains_key(t) by {
                        let e = choose|e: Seq<char>| exe_declares(g, e, t);
                        assert(g.contains_key(e));
                        let ii = choose|ii: int|
                            0 <= ii < m.keys().len() && m.keys()[ii] == e;
                        assert(g[m.keys()[ii]] == m.vals()[ii]);
                        assert(m.vals()[ii] == m.vals()[ii]);
                        assert(seeds@.contains_key(t));
                        let k = choose|k: int|
                            0 <= k < seeds.keys().len() && seeds.keys()[k] == t;
                        assert(self.targets.keys()[k] == t);
                        assert(self.targets@.contains_key(self.targets.keys()[k]));
                    }
                    assert forall|t: Seq<char>, x: Seq<char>|
                        self.targets@.contains_key(t) && #[trigger] ov_of(
                            self.targets@[t]@,
                        ).contains(x) implies target_reach(g, t, x) by {
                        let k = choose|k: int|
                            0 <= k < self.targets.keys().len() && self.targets.keys()[k] == t;
                        assert(self.targets@[self.targets.keys()[k]] == self.targets.vals()[k]);
                        assert(ov_of(self.targets.vals()[k]@).contains(x));
                        assert(reaches_any(g, ov_of(seeds.vals()[k]@), x));
                        let sb = choose|sb: int|
                            0 <= sb < ov_of(seeds.vals()[k]@).len() && reaches(
                                g,
                                ov_of(seeds.vals()[k]@)[sb],
                                x,
                            );
                        assert(ov_of(seeds.vals()[k]@).contains(ov_of(seeds.vals()[k]@)[sb]));
                        assert(declarer_in_prefix(m, n, seeds.keys()[k], ov_of(
                            seeds.vals()[k]@,
                        )[sb]));
                        let ii = choose|ii: int|
                            0 <= ii < n && m.keys()[ii] == ov_of(seeds.vals()[k]@)[sb]
                                && exe_target(m.vals()[ii]) == Some(seeds.keys()[k]);
                        assert(g[m.keys()[ii]] == m.vals()[ii]);
                        assert(exe_declares(g, ov_of(seeds.vals()[k]@)[sb], t));
                    }
                    assert forall|t: Seq<char>, x: Seq<char>|
                        #[trigger] target_reach(g, t, x) implies self.targets@.contains_key(t)
                        && ov_of(self.targets@[t]@).contains(x) by {
                        let e = choose|e: Seq<char>| exe_declares(g, e, t) && reaches(g, e, x);
                        assert(is_target(g, t));
                        assert(self.targets@.contains_key(t));
                        let ii = choose|ii: int|
                            0 <= ii < m.keys().len() && m.keys()[ii] == e;
                        assert(g[m.keys()[ii]] == m.vals()[ii]);
                        assert(seeds@.contains_key(t));
                        let k = choose|k: int|
                            0 <= k < seeds.keys().len() && seeds.keys()[k] == t;
                        assert(declarer_in_prefix(m, n, seeds.keys()[k], e));
                        assert(ov_of(seeds.vals()[k]@).contains(e));
                        let sb = choose|sb: int|
                            0 <= sb < ov_of(seeds.vals()[k]@).len() && ov_of(
                                seeds.vals()[k]@,
                            )[sb] == e;
                        assert(reaches_any(g, ov_of(seeds.vals()[k]@), x));
                        assert(ov_of(self.targets.vals()[k]@).contains(x));
                        assert(self.targets@[self.targets.keys()[k]] == self.targets.vals()[k]);
                    }
                    assert forall|t: Seq<char>|
                        #[trigger] self.targets@.contains_key(t) implies distinct_keys(
                        ov_of(self.targets@[t]@),
                    ) by {
                        let k = choose|k: int|
                            0 <= k < self.targets.keys().len() && self.targets.keys()[k] == t;
                        assert(self.targets@[self.targets.keys()[k]] == self.targets.vals()[k]);
                        assert(distinct_keys(ov_of(self.targets.vals()[k]@)));
                    }
                    assert forall|t: Seq<char>|
                        #[trigger] self.targets@.contains_key(t) implies sorted_ov(
                        ov_of(self.targets@[t]@),
                    ) by {
                        let k = choose|k: int|
                            0 <= k < self.targets.keys().len() && self.targets.keys()[k] == t;
                        assert(self.targets@[self.targets.keys()[k]] == self.targets.vals()[k]);
                        assert(sorted_ov(ov_of(self.targets.vals()[k]@)));
                    }
                    assert forall|e0: Seq<char>, t: Seq<char>|
                        #[trigger] exe_declares(g, e0, t) implies (forall|x: Seq<char>|
                        #[trigger] reaches(g, e0, x) ==> g.contains_key(x) && !on_cycle(g, x)) by {
                        assert forall|x: Seq<char>|
                            #[trigger] reaches(g, e0, x) implies g.contains_key(x) && !on_cycle(
                            g,
                            x,
                        ) by {
                            let ii = choose|ii: int|
                                0 <= ii < m.keys().len() && m.keys()[ii] == e0;
                            assert(g[m.keys()[ii]] == m.vals()[ii]);
                            assert(seeds@.contains_key(t));
                            let k = choose|k: int|
                                0 <= k < seeds.keys().len() && seeds.keys()[k] == t;
                            assert(declarer_in_prefix(m, n, seeds.keys()[k], e0));
                            assert(ov_of(seeds.vals()[k]@).contains(e0));
                            let sb = choose|sb: int|
                                0 <= sb < ov_of(seeds.vals()[k]@).len() && ov_of(
                                    seeds.vals()[k]@,
                                )[sb] == e0;
                            assert(reaches_any(g, ov_of(seeds.vals()[k]@), x));
                            assert(closure_ok(g, ov_of(seeds.vals()[k]@)));
                        }
                    }
                }
                Ok(())
            },
            Err(e) => {
                proof {
                    let m = &self.modules;
                    let bad = choose|k: int|
                        0 <= k < seeds.keys().len() && !closure_ok(m@, ov_of(
                            #[trigger] seeds.vals()[k]@,
                        ));
                    let sv = ov_of(seeds.vals()[bad]@);
                    assert(!closure_ok(g, sv));
                    let x = choose|x: Seq<char>|
                        #[trigger] reaches_any(g, sv, x) && !(g.contains_key(x) && !on_cycle(
                            g,
                            x,
                        ));
                    let sb = choose|sb: int| 0 <= sb < sv.len() && reaches(g, sv[sb], x);
                    assert(sv.contains(sv[sb]));
                    assert(declarer_in_prefix(m, n, seeds.keys()[bad], sv[sb]));
                    let ii = choose|ii: int|
                        0 <= ii < n && m.keys()[ii] == sv[sb] && exe_target(m.vals()[ii])
                            == Some(seeds.keys()[bad]);
                    assert(g[m.keys()[ii]] == m.vals()[ii]);
                    assert(exe_declares(g, sv[sb], seeds.keys()[bad]));
                    if targets_ok(g) {
                        assert(g.contains_key(x) && !on_cycle(g, x));
                        assert(false);
                    }
                    match &e {
                        Error::NoSuchModule(nm) => {
                            let k2 = choose|k2: int|
                                0 <= k2 < seeds.keys().len() && reaches_any(
                                    m@,
                                    ov_of(#[trigger] seeds.vals()[k2]@),
                                    nm@,
                                );
                            let sv2 = ov_of(seeds.vals()[k2]@);
                            let sb2 = choose|sb2: int|
                                0 <= sb2 < sv2.len() && reaches(g, sv2[sb2], nm@);
                            assert(sv2.contains(sv2[sb2]));
                            assert(declarer_in_prefix(m, n, seeds.keys()[k2], sv2[sb2]));
                            let ii2 = choose|ii2: int|
                                0 <= ii2 < n && m.keys()[ii2] == sv2[sb2] && exe_target(
                                    m.vals()[ii2],
                                ) == Some(seeds.keys()[k2]);
                            assert(g[m.keys()[ii2]] == m.vals()[ii2]);
                            assert(exe_declares(g, sv2[sb2], seeds.keys()[k2]));
                            assert(reaches(g, sv2[sb2], nm@));
                        },
                        Error::DependencyCycle => {
                            let (k2, x2): (int, Seq<char>) = choose|k2: int, x2: Seq<char>|
                                0 <= k2 < seeds.keys().len() && #[trigger] reaches_any(
                                    m@,
                                    ov_of(seeds.vals()[k2]@),
                                    x2,
                                ) && on_cycle(m@, x2);
                            let sv2 = ov_of(seeds.vals()[k2]@);
                            let sb2 = choose|sb2: int|
                                0 <= sb2 < sv2.len() && reaches(g, sv2[sb2], x2);
                            assert(sv2.contains(sv2[sb2]));
                            assert(declarer_in_prefix(m, n, seeds.keys()[k2], sv2[sb2]));
                            let ii2 = choose|ii2: int|
                                0 <= ii2 < n && m.keys()[ii2] == sv2[sb2] && exe_target(
                                    m.vals()[ii2],
                                ) == Some(seeds.keys()[k2]);
                            assert(g[m.keys()[ii2]] == m.vals()[ii2]);
                            assert(exe_declares(g, sv2[sb2], seeds.keys()[k2]));
                            assert(reaches(g, sv2[sb2], x2) && on_cycle(g, x2));
                        },
                        _ => {},
                    }
                }
                Err(e)
            },
        }
    }
}


/// A target's resolved module set is the union, over every executable
/// declaring it, of that executable itself and of everything reachable from
/// the executable's `depends` list — that is, of the executables and their
/// `depmods` sets.
pub proof fn lemma_target_is_union(g: Map<Seq<char>, Module>, t: Seq<char>, x: Seq<char>)
    ensures
        target_reach(g, t, x) <==> exists|e: Seq<char>|
            #[trigger] exe_declares(g, e, t) && (x == e || reaches_any(
                g,
                ov_of(g[e].depends@),
                x,
            )),
{
    if target_reach(g, t, x) {
        let e = choose|e: Seq<char>| #[trigger] exe_declares(g, e, t) && reaches(g, e, x);
        if x != e {
            lemma_reach_unfold(g, e, x);
            let b = choose|b: Seq<char>| #[trigger] dep_edge(g, e, b) && reaches(g, b, x);
            let i = choose|i: int|
                0 <= i < g[e].depends@.len() && #[trigger] g[e].depends@[i]@ == b;
            assert(ov_of(g[e].depends@)[i] == b);
            assert(reaches_any(g, ov_of(g[e].depends@), x));
        }
        assert(exe_declares(g, e, t) && (x == e || reaches_any(g, ov_of(g[e].depends@), x)));
    }
    if exists|e: Seq<char>|
        #[trigger] exe_declares(g, e, t) && (x == e || reaches_any(g, ov_of(g[e].depends@), x)) {
        let e = choose|e: Seq<char>|
            #[trigger] exe_declares(g, e, t) && (x == e || reaches_any(
                g,
                ov_of(g[e].depends@),
                x,
            ));
        if x == e {
            lemma_reach_refl(g, e);
        } else {
            let i = choose|i: int|
                0 <= i < ov_of(g[e].depends@).len() && reaches(g, ov_of(g[e].depends@)[i], x);
            assert(g[e].depends@[i]@ == ov_of(g[e].depends@)[i]);
            assert(dep_edge(g, e, g[e].depends@[i]@));
            lemma_reach_step(g, e, g[e].depends@[i]@);
            lemma_reach_trans(g, e, g[e].depends@[i]@, x);
        }
        assert(exe_declares(g, e, t) && reaches(g, e, x));
        assert(target_reach(g, t, x));
    }
}

/// A dependency cycle among the modules reachable from a declaring
/// executable refutes `targets_ok`: target resolution then cannot succeed,
/// and its failure contract reports the cycle, or a missing module where
/// one is also reached.
pub proof fn lemma_cycle_refutes_targets_ok(
    g: Map<Seq<char>, Module>,
    e: Seq<char>,
    t: Seq<char>,
    x: Seq<char>,
)
    requires
        exe_declares(g, e, t),
        reaches(g, e, x),
        on_cycle(g, x),
    ensures
        !targets_ok(g),
{
}

} // verus!\n\n
