//! The persisted variable store: the build-directory state file text that
//! carries the variable mapping across invocations.

use vstd::prelude::*;

use crate::errors::Error;
use crate::project::{lemma_vars_view_insert, vars_view, Project};
use crate::strmap::{map_of, StrMap};

verus! {

/// The string mapping that a piece of state-file text parses to, or nothing
/// when the text is not a mapping of strings to strings.
pub uninterp spec fn yaml_vars_of(s: Seq<char>) -> Option<Map<Seq<char>, Seq<char>>>;

/// What a serialized mapping value holds.
pub uninterp spec fn mapping_model(m: serde_yaml::Mapping) -> Map<Seq<char>, Seq<char>>;

/// The mapping binds strings to strings and nothing else, as every mapping
/// this crate builds does.
pub uninterp spec fn string_mapping(m: serde_yaml::Mapping) -> bool;

#[verifier::external_type_specification]
#[verifier::external_body]
pub struct ExMapping(serde_yaml::Mapping);

/// The empty variable mapping.
pub open spec fn no_vars() -> Map<Seq<char>, Seq<char>> {
    Map::empty()
}

/// Relies on `serde_yaml::Mapping::new`: the new mapping is empty.
#[verifier::external_body]
fn mapping_new() -> (r: serde_yaml::Mapping)
    ensures
        mapping_model(r) == no_vars(),
        string_mapping(r),
{
    serde_yaml::Mapping::new()
}

/// Relies on `serde_yaml::Mapping::insert`: binds the key to the value,
/// replacing any earlier binding.
#[verifier::external_body]
fn mapping_insert(m: &mut serde_yaml::Mapping, k: &String, v: &String)
    ensures
        mapping_model(*final(m)) == mapping_model(*old(m)).insert(k@, v@),
        string_mapping(*old(m)) ==> string_mapping(*final(m)),
{
    m.insert(serde_yaml::Value::String(k.clone()), serde_yaml::Value::String(v.clone()));
}

/// Relies on `serde_yaml::to_string`: serializing a mapping of strings to
/// strings succeeds (the emitter quotes every scalar that would read as
/// another type), and the text parses back to exactly the mapping given.
#[verifier::external_body]
fn mapping_to_yaml(m: &serde_yaml::Mapping) -> (r: String)
    requires
        string_mapping(*m),
    ensures
        yaml_vars_of(r@) == Some(mapping_model(*m)),
{
    serde_yaml::to_string(m).expect("a mapping of strings serializes")
}

/// The mapping holding each pair, later pairs overwriting earlier ones.
pub open spec fn pairs_model(ps: Seq<(String, String)>) -> Map<Seq<char>, Seq<char>>
    decreases ps.len(),
{
    if ps.len() == 0 {
        Map::empty()
    } else {
        pairs_model(ps.drop_last()).insert(ps.last().0@, ps.last().1@)
    }
}

/// Relies on `serde_yaml::from_str`: parses the text as a mapping of
/// strings to strings; the keys of the parsed mapping are distinct.
#[verifier::external_body]
fn yaml_to_pairs(s: &str) -> (r: Result<Vec<(String, String)>, String>)
    ensures
        (match r {
            Ok(pairs) => {
                &&& yaml_vars_of(s@) == Some(pairs_model(pairs@))
                &&& forall|i: int, j: int|
                    0 <= i < j < pairs@.len() ==> pairs@[i].0@ != pairs@[j].0@
            },
            Err(_) => yaml_vars_of(s@) is None,
        }),
{
    match serde_yaml::from_str::<std::collections::HashMap<String, String>>(s) {
        Ok(m) => Ok(m.into_iter().collect()),
        Err(e) => Err(e.to_string()),
    }
}

/// The variable mapping restricted to the first `i` entries of the store.
pub open spec fn prefix_vars(m: &StrMap<String>, i: int) -> Map<Seq<char>, Seq<char>>
    decreases i,
{
    if i <= 0 {
        Map::empty()
    } else {
        prefix_vars(m, i - 1).insert(m.keys()[i - 1], m.vals()[i - 1]@)
    }
}

/// The whole-store prefix is the store's string view.
proof fn lemma_prefix_vars_take(m: &StrMap<String>, i: int)
    requires
        0 <= i <= m.keys().len(),
        m.keys().len() == m.vals().len(),
    ensures
        prefix_vars(m, i) == map_of(m.keys().take(i), m.vals().take(i)).map_values(
            |s: String| s@,
        ),
    decreases i,
{
    let f = |s: String| s@;
    if i == 0 {
        assert(prefix_vars(m, 0) =~= map_of(
            m.keys().take(0),
            m.vals().take(0),
        ).map_values(f));
    } else {
        lemma_prefix_vars_take(m, i - 1);
        assert(m.keys().take(i).drop_last() =~= m.keys().take(i - 1));
        assert(m.vals().take(i).drop_last() =~= m.vals().take(i - 1));
        assert(m.keys().take(i).last() == m.keys()[i - 1]);
        assert(m.vals().take(i).last() == m.vals()[i - 1]);
        lemma_vars_view_insert(
            map_of(m.keys().take(i - 1), m.vals().take(i - 1)),
            m.keys()[i - 1],
            m.vals()[i - 1],
        );
        assert(map_of(m.keys().take(i), m.vals().take(i)) == map_of(
            m.keys().take(i - 1),
            m.vals().take(i - 1),
        ).insert(m.keys()[i - 1], m.vals()[i - 1]));
    }
}

impl Project {
    /// Serializes the variable mapping to the state-file text; the text
    /// parses back to exactly the current mapping.
    pub fn vars_text(&self) -> (r: String)
        requires
            self.wf(),
        ensures
            yaml_vars_of(r@) == Some(vars_view(self.vars)),
    {
        let mut m = mapping_new();
        let n = self.vars.len();
        let mut i: usize = 0;
        while i < n
            invariant
                self.vars.wf(),
                n == self.vars.keys().len(),
                n == self.vars.vals().len(),
                0 <= i <= n,
                mapping_model(m) == prefix_vars(&self.vars, i as int),
                string_mapping(m),
            decreases n - i,
        {
            mapping_insert(&mut m, self.vars.key_at(i), self.vars.val_at(i));
            i = i + 1;
        }
        proof {
            lemma_prefix_vars_take(&self.vars, n as int);
            assert(self.vars.keys().take(n as int) =~= self.vars.keys());
            assert(self.vars.vals().take(n as int) =~= self.vars.vals());
            assert(mapping_model(m) == vars_view(self.vars));
        }
        mapping_to_yaml(&m)
    }

    /// Replaces the variable mapping with the one parsed from the
    /// state-file text; fails exactly when the text is not a mapping of
    /// strings to strings.
    pub fn load_vars(&mut self, text: &str) -> (r: Result<(), Error>)
        requires
            old(self).wf(),
        ensures
            final(self).wf(),
            final(self).name == old(self).name,
            final(self).templates == old(self).templates,
            final(self).root == old(self).root,
            final(self).config_file == old(self).config_file,
            final(self).modules == old(self).modules,
            final(self).targets == old(self).targets,
            (match r {
                Ok(_) => yaml_vars_of(text@) == Some(vars_view(final(self).vars)),
                Err(e) => {
                    &&& yaml_vars_of(text@) is None
                    &&& final(self).vars == old(self).vars
                    &&& e is VariableError
                },
            }),
    {
        match yaml_to_pairs(text) {
            Ok(pairs) => {
                let np = pairs.len();
                let mut vm: StrMap<String> = StrMap::new();
                proof {
                    assert(vars_view(vm) =~= pairs_model(pairs@.take(0)));
                }
                let mut j: usize = 0;
                while j < np
                    invariant
                        np == pairs@.len(),
                        0 <= j <= np,
                        vm.wf(),
                        vars_view(vm) == pairs_model(pairs@.take(j as int)),
                    decreases np - j,
                {
                    let ghost vpre = vm@;
                    vm.insert(pairs[j].0.clone(), pairs[j].1.clone());
                    proof {
                        lemma_vars_view_insert(vpre, pairs@[j as int].0@, pairs@[j as int].1);
                        assert(pairs@.take(j + 1).drop_last() =~= pairs@.take(j as int));
                        assert(pairs@.take(j + 1).last() == pairs@[j as int]);
                        assert(vars_view(vm) =~= pairs_model(pairs@.take(j + 1)));
                    }
                    j = j + 1;
                }
                proof {
                    assert(pairs@.take(np as int) =~= pairs@);
                }
                self.vars = vm;
                Ok(())
            },
            Err(msg) => Err(Error::VariableError(msg)),
        }
    }
}

/// Saving the variables and loading the saved text yields the same mapping:
/// the text that `vars_text` returns parses to the mapping it was given,
/// and `load_vars` installs exactly what the text parses to.
pub proof fn lemma_vars_round_trip(
    saved: Map<Seq<char>, Seq<char>>,
    text: Seq<char>,
    loaded: Map<Seq<char>, Seq<char>>,
)
    requires
        yaml_vars_of(text) == Some(saved),
        yaml_vars_of(text) == Some(loaded),
    ensures
        loaded == saved,
{
}

} // verus!
