//! Build-file generation: per-module, per-target and top-level build
//! descriptions, rendered through the external template engine in that
//! order, with the top-level file always last.

use vstd::prelude::*;
use vstd::string::*;

use crate::errors::Error;
use crate::graph::{closure_ok, ov_of, reaches_any, sorted_ov};
use crate::module::{kind_tag, Module, ModuleKind, SourceItem};
use crate::project::Project;
use crate::strmap::{distinct_keys, StrMap};
use crate::template::{chosen_template, template_from_options};
use crate::text::{join_path_exec, path_join};
use crate::version::{version_seq, Version};

verus! {

/// The abstract shape of a value handed to the template engine, freed of
/// its carrier type: what a render context entry holds.
pub enum Jv {
    /// A string.
    Str(Seq<char>),
    /// An unsigned integer.
    Num(u64),
    /// An array of values.
    Arr(Seq<Jv>),
    /// A string-keyed object.
    Obj(Map<Seq<char>, Jv>),
}

/// The empty object or context.
pub open spec fn no_entries() -> Map<Seq<char>, Jv> {
    Map::empty()
}

/// What a `serde_json::Value` holds, as an abstract context value.
pub uninterp spec fn jv_model(v: serde_json::Value) -> Jv;

/// What a `serde_json::Map` holds: its string-keyed bindings.
pub uninterp spec fn jmap_model(m: serde_json::Map<String, serde_json::Value>) -> Map<
    Seq<char>,
    Jv,
>;

/// What a render context holds: its key-to-value bindings.
pub uninterp spec fn ctx_model(c: tera::Context) -> Map<Seq<char>, Jv>;

#[verifier::external_type_specification]
#[verifier::external_body]
pub struct ExTera(tera::Tera);

#[verifier::external_type_specification]
#[verifier::external_body]
pub struct ExContext(tera::Context);

#[verifier::external_type_specification]
#[verifier::external_body]
pub struct ExJsonValue(serde_json::Value);

#[verifier::external_type_specification]
#[verifier::external_body]
#[verifier::reject_recursive_types(K)]
#[verifier::reject_recursive_types(V)]
pub struct ExJsonMap<K, V>(serde_json::Map<K, V>);

/// Relies on `tera::Context::new`: the new context is empty.
#[verifier::external_body]
fn ctx_new() -> (r: tera::Context)
    ensures
        ctx_model(r) == no_entries(),
{
    tera::Context::new()
}

/// Relies on `tera::Context::insert`: binds the key to the value in the
/// render context, replacing any earlier binding; the engine receives the
/// value's structure unchanged.
#[verifier::external_body]
fn ctx_insert(c: &mut tera::Context, key: &str, v: &serde_json::Value)
    ensures
        ctx_model(*final(c)) == ctx_model(*old(c)).insert(key@, jv_model(*v)),
{
    c.insert(key.to_string(), v);
}

/// Relies on `serde_json::Value::String`.
#[verifier::external_body]
fn jv_str(s: &String) -> (r: serde_json::Value)
    ensures
        jv_model(r) == Jv::Str(s@),
{
    serde_json::Value::String(s.clone())
}

/// Relies on `serde_json::Value::from` for integers.
#[verifier::external_body]
fn jv_u64(n: u64) -> (r: serde_json::Value)
    ensures
        jv_model(r) == Jv::Num(n),
{
    serde_json::Value::from(n)
}

/// Relies on `serde_json::Value::Array`.
#[verifier::external_body]
fn jv_arr(items: Vec<serde_json::Value>) -> (r: serde_json::Value)
    ensures
        jv_model(r) == Jv::Arr(items@.map_values(|x: serde_json::Value| jv_model(x))),
{
    serde_json::Value::Array(items)
}

/// Relies on `serde_json::Map::new`: the new object is empty.
#[verifier::external_body]
fn jmap_new() -> (r: serde_json::Map<String, serde_json::Value>)
    ensures
        jmap_model(r) == no_entries(),
{
    serde_json::Map::new()
}

/// Relies on `serde_json::Map::insert`: binds the key to the value,
/// replacing any earlier binding.
#[verifier::external_body]
fn jmap_insert(m: &mut serde_json::Map<String, serde_json::Value>, k: &str, v: serde_json::Value)
    ensures
        jmap_model(*final(m)) == jmap_model(*old(m)).insert(k@, jv_model(v)),
{
    m.insert(k.to_string(), v);
}

/// Relies on `serde_json::Value::Object`.
#[verifier::external_body]
fn jv_obj(m: serde_json::Map<String, serde_json::Value>) -> (r: serde_json::Value)
    ensures
        jv_model(r) == Jv::Obj(jmap_model(m)),
{
    serde_json::Value::Object(m)
}

/// Relies on `tera::Tera::render`; a failure is flattened into one message
/// holding its full nested cause chain.
#[verifier::external_body]
fn render(engine: &tera::Tera, name: &str, ctx: &tera::Context) -> Result<String, String> {
    match engine.render(name, ctx) {
        Ok(s) => Ok(s),
        Err(e) => {
            let mut msg = e.to_string();
            let mut next: &dyn std::error::Error = &e;
            while let Some(src) = next.source() {
                msg.push_str(": ");
                msg.push_str(&src.to_string());
                next = src;
            }
            Err(msg)
        },
    }
}

/// The context value of a list of names.
pub open spec fn strs_model(items: Seq<String>) -> Jv {
    Jv::Arr(items.map_values(|s: String| Jv::Str(s@)))
}

/// The context value of one source item.
pub open spec fn source_model(s: SourceItem) -> Jv {
    Jv::Obj(
        no_entries().insert("name"@, Jv::Str(s.name@)).insert("input"@, Jv::Str(s.input@)).insert(
            "output"@,
            Jv::Str(s.output@),
        ).insert("action"@, Jv::Str(s.action@)),
    )
}

/// The context value of the module called `name`: every field of the
/// module, and for an executable the target it declares.
pub open spec fn module_model(name: Seq<char>, m: Module) -> Jv {
    let base = no_entries().insert("name"@, Jv::Str(name)).insert(
        "depends"@,
        strs_model(m.depends@),
    ).insert("defines"@, strs_model(m.defines@)).insert("includes"@, strs_model(m.includes@))
        .insert("output"@, Jv::Str(m.output@)).insert(
        "source"@,
        Jv::Arr(m.source@.map_values(|s: SourceItem| source_model(s))),
    ).insert("kind"@, Jv::Str(kind_tag(m.kind)));
    match m.kind {
        ModuleKind::Executable { target } => Jv::Obj(base.insert("target"@, Jv::Str(target@))),
        ModuleKind::Library => Jv::Obj(base),
    }
}

/// The variable bindings among the first `i` store entries, as context
/// values.
pub open spec fn vars_obj_prefix(vars: &StrMap<String>, i: int) -> Map<Seq<char>, Jv>
    decreases i,
{
    if i <= 0 {
        no_entries()
    } else {
        vars_obj_prefix(vars, i - 1).insert(vars.keys()[i - 1], Jv::Str(vars.vals()[i - 1]@))
    }
}

/// The context value of the variable mapping.
pub open spec fn vars_model(vars: &StrMap<String>) -> Jv {
    Jv::Obj(vars_obj_prefix(vars, vars.keys().len() as int))
}

/// The context value of a dependency view: the named modules, each as a
/// full module object.
pub open spec fn dep_list_model(g: Map<Seq<char>, Module>, names: Seq<String>) -> Jv {
    Jv::Arr(names.map_values(|n: String| module_model(n@, g[n@])))
}

/// The module objects among the first `i` entries of the module mapping,
/// keyed by name.
pub open spec fn modules_obj_prefix(m: &StrMap<Module>, i: int) -> Map<Seq<char>, Jv>
    decreases i,
{
    if i <= 0 {
        no_entries()
    } else {
        modules_obj_prefix(m, i - 1).insert(
            m.keys()[i - 1],
            module_model(m.keys()[i - 1], m.vals()[i - 1]),
        )
    }
}

/// One generated build description file, together with the template name
/// and the context model it was rendered under.
pub struct OutFile {
    /// Where the file is to be written.
    pub path: String,
    /// The rendered contents.
    pub contents: String,
    /// The template file the contents were rendered from.
    pub template: Ghost<Seq<char>>,
    /// The bindings of the render context handed to the engine.
    pub context: Ghost<Map<Seq<char>, Jv>>,
}

/// The suffix of a per-module build file name.
pub open spec fn ninja_suffix() -> Seq<char> {
    seq!['.', 'n', 'i', 'n', 'j', 'a']
}

/// The path of the build file of the module called `name`.
pub open spec fn module_file_path(bd: Seq<char>, name: Seq<char>) -> Seq<char> {
    path_join(bd, name + ninja_suffix())
}

/// The fixed file name of a per-target build file.
pub open spec fn target_file_name() -> Seq<char> {
    seq!['t', 'a', 'r', 'g', 'e', 't', '.', 'n', 'i', 'n', 'j', 'a']
}

/// The path of the build file of the target called `t`.
pub open spec fn target_file_path(bd: Seq<char>, t: Seq<char>) -> Seq<char> {
    path_join(path_join(bd, t), target_file_name())
}

/// The fixed file name of the top-level build file.
pub open spec fn top_file_name() -> Seq<char> {
    seq!['b', 'u', 'i', 'l', 'd', '.', 'n', 'i', 'n', 'j', 'a']
}

/// The path of the top-level build file.
pub open spec fn top_file_path(bd: Seq<char>) -> Seq<char> {
    path_join(bd, top_file_name())
}

/// The kind tag under which targets select templates.
pub open spec fn target_kind() -> Seq<char> {
    seq!['t', 'a', 'r', 'g', 'e', 't']
}

fn value_str_list(items: &Vec<String>) -> (r: serde_json::Value)
    ensures
        jv_model(r) == strs_model(items@),
{
    let mut vals: Vec<serde_json::Value> = Vec::new();
    let n = items.len();
    let mut i: usize = 0;
    while i < n
        invariant
            n == items@.len(),
            0 <= i <= n,
            vals@.len() == i,
            forall|k: int| 0 <= k < i ==> jv_model(#[trigger] vals@[k]) == Jv::Str(items@[k]@),
        decreases n - i,
    {
        vals.push(jv_str(&items[i]));
        i = i + 1;
    }
    proof {
        assert(vals@.map_values(|x: serde_json::Value| jv_model(x)) =~= items@.map_values(
            |s: String| Jv::Str(s@),
        ));
    }
    jv_arr(vals)
}

fn vars_value(vars: &StrMap<String>) -> (r: serde_json::Value)
    ensures
        jv_model(r) == vars_model(vars),
{
    let mut m = jmap_new();
    let n = vars.len();
    let mut i: usize = 0;
    while i < n
        invariant
            n == vars.keys().len(),
            n == vars.vals().len(),
            0 <= i <= n,
            jmap_model(m) == vars_obj_prefix(vars, i as int),
        decreases n - i,
    {
        jmap_insert(&mut m, vars.key_at(i).as_str(), jv_str(vars.val_at(i)));
        i = i + 1;
    }
    jv_obj(m)
}

fn source_value(s: &SourceItem) -> (r: serde_json::Value)
    ensures
        jv_model(r) == source_model(*s),
{
    let mut m = jmap_new();
    jmap_insert(&mut m, "name", jv_str(&s.name));
    jmap_insert(&mut m, "input", jv_str(&s.input));
    jmap_insert(&mut m, "output", jv_str(&s.output));
    jmap_insert(&mut m, "action", jv_str(&s.action));
    jv_obj(m)
}

fn module_value(name: &String, mo: &Module) -> (r: serde_json::Value)
    ensures
        jv_model(r) == module_model(name@, *mo),
{
    let mut m = jmap_new();
    jmap_insert(&mut m, "name", jv_str(name));
    jmap_insert(&mut m, "depends", value_str_list(&mo.depends));
    jmap_insert(&mut m, "defines", value_str_list(&mo.defines));
    jmap_insert(&mut m, "includes", value_str_list(&mo.includes));
    jmap_insert(&mut m, "output", jv_str(&mo.output));
    let mut sources: Vec<serde_json::Value> = Vec::new();
    let n = mo.source.len();
    let mut i: usize = 0;
    while i < n
        invariant
            n == mo.source@.len(),
            0 <= i <= n,
            sources@.len() == i,
            forall|k: int|
                0 <= k < i ==> jv_model(#[trigger] sources@[k]) == source_model(mo.source@[k]),
        decreases n - i,
    {
        sources.push(source_value(&mo.source[i]));
        i = i + 1;
    }
    proof {
        assert(sources@.map_values(|x: serde_json::Value| jv_model(x)) =~= mo.source@.map_values(
            |s2: SourceItem| source_model(s2),
        ));
    }
    jmap_insert(&mut m, "source", jv_arr(sources));
    let kind = mo.kind_name().to_owned();
    jmap_insert(&mut m, "kind", jv_str(&kind));
    match &mo.kind {
        crate::module::ModuleKind::Executable { target } => {
            jmap_insert(&mut m, "target", jv_str(target));
        },
        crate::module::ModuleKind::Library => {},
    }
    jv_obj(m)
}

/// An array of the named modules, each as a full module object; every name
/// must exist in the module mapping.
fn modules_value(proj: &Project, names: &Vec<String>) -> (r: serde_json::Value)
    requires
        proj.modules.wf(),
        forall|k: int|
            0 <= k < names@.len() ==> proj.modules@.contains_key(#[trigger] ov_of(names@)[k]),
    ensures
        jv_model(r) == dep_list_model(proj.modules@, names@),
{
    let mut vals: Vec<serde_json::Value> = Vec::new();
    let n = names.len();
    let mut i: usize = 0;
    while i < n
        invariant
            proj.modules.wf(),
            n == names@.len(),
            0 <= i <= n,
            forall|k: int|
                0 <= k < names@.len() ==> proj.modules@.contains_key(
                    #[trigger] ov_of(names@)[k],
                ),
            vals@.len() == i,
            forall|k: int|
                0 <= k < i ==> jv_model(#[trigger] vals@[k]) == module_model(
                    names@[k]@,
                    proj.modules@[names@[k]@],
                ),
        decreases n - i,
    {
        let name: &String = &names[i];
        proof {
            assert(ov_of(names@)[i as int] == name@);
        }
        match proj.modules.get(name) {
            Some(mo) => {
                vals.push(module_value(name, mo));
            },
            None => {
                proof {
                    assert(false);
                }
            },
        }
        i = i + 1;
    }
    proof {
        assert(vals@.map_values(|x: serde_json::Value| jv_model(x)) =~= names@.map_values(
            |n2: String| module_model(n2@, proj.modules@[n2@]),
        ));
    }
    jv_arr(vals)
}

/// The render context of the module called `name`: the module object, its
/// name and build-file path, the variable mapping, and the three dependency
/// views as full module objects.
pub open spec fn module_context(
    proj: &Project,
    build_dir: Seq<char>,
    name: Seq<char>,
    m: Module,
    dm: Seq<String>,
    dl: Seq<String>,
    de: Seq<String>,
) -> Map<Seq<char>, Jv> {
    no_entries().insert("module"@, module_model(name, m)).insert("name"@, Jv::Str(name)).insert(
        "buildfile"@,
        Jv::Str(module_file_path(build_dir, name)),
    ).insert("vars"@, vars_model(&proj.vars)).insert(
        "depmods"@,
        dep_list_model(proj.modules@, dm),
    ).insert("deplibs"@, dep_list_model(proj.modules@, dl)).insert(
        "depexes"@,
        dep_list_model(proj.modules@, de),
    )
}

/// The render context of the target called `t`: its name, its resolved
/// member names, its build-file path and the variable mapping.
pub open spec fn target_context(
    proj: &Project,
    build_dir: Seq<char>,
    t: Seq<char>,
    members: Seq<String>,
) -> Map<Seq<char>, Jv> {
    no_entries().insert("target"@, Jv::Str(t)).insert("modules"@, strs_model(members)).insert(
        "buildfile"@,
        Jv::Str(target_file_path(build_dir, t)),
    ).insert("vars"@, vars_model(&proj.vars))
}

/// The paths of every generated file, in generation order: the per-module
/// files, the per-target files, and last the top-level file itself.
pub open spec fn all_build_files(proj: &Project, build_dir: Seq<char>) -> Seq<Seq<char>> {
    Seq::new(
        proj.modules.keys().len(),
        |i: int| module_file_path(build_dir, proj.modules.keys()[i]),
    ) + Seq::new(
        proj.targets.keys().len(),
        |i: int| target_file_path(build_dir, proj.targets.keys()[i]),
    ) + seq![top_file_path(build_dir)]
}

/// The paths of every template consulted, in generation order, plus the
/// fixed top-level template.
pub open spec fn all_templates(
    proj: &Project,
    avail: Seq<String>,
    troot: Seq<char>,
) -> Seq<Seq<char>> {
    Seq::new(
        proj.modules.keys().len(),
        |i: int|
            path_join(
                troot,
                chosen_template(
                    avail,
                    kind_tag(proj.modules.vals()[i].kind),
                    proj.modules.keys()[i],
                ).unwrap(),
            ),
    ) + Seq::new(
        proj.targets.keys().len(),
        |i: int| path_join(troot, chosen_template(avail, target_kind(), proj.targets.keys()[i]).unwrap()),
    ) + seq![path_join(troot, "build.ninja.j2"@)]
}

/// A list of paths as a context value.
pub open spec fn paths_model(paths: Seq<Seq<char>>) -> Jv {
    Jv::Arr(paths.map_values(|p: Seq<char>| Jv::Str(p)))
}

/// The aggregated top-level render context: every target name, every
/// module, the variables, the roots and the configuration path, the
/// decomposed version, the lists of generated files and consulted
/// templates, the generator path, and the top-level file's own path as the
/// bare relative name `build.ninja` (the downstream executor will not
/// reload itself given an absolute self-reference).
pub open spec fn top_context(
    proj: &Project,
    avail: Seq<String>,
    build_dir: Seq<char>,
    troot: Seq<char>,
    v: &Version,
    generator: Seq<char>,
) -> Map<Seq<char>, Jv> {
    no_entries().insert(
        "targets"@,
        Jv::Arr(Seq::new(proj.targets.keys().len(), |i: int| Jv::Str(proj.targets.keys()[i]))),
    ).insert(
        "modules"@,
        Jv::Obj(modules_obj_prefix(&proj.modules, proj.modules.keys().len() as int)),
    ).insert("vars"@, vars_model(&proj.vars)).insert("buildroot"@, Jv::Str(build_dir)).insert(
        "srcroot"@,
        Jv::Str(proj.root@),
    ).insert("modulefile"@, Jv::Str(proj.config_file@)).insert(
        "version_major"@,
        Jv::Num(v.major),
    ).insert("version_minor"@, Jv::Num(v.minor)).insert("version_patch"@, Jv::Num(v.patch))
        .insert("version_sha"@, Jv::Str(v.build@[0]@)).insert(
        "version"@,
        Jv::Str(version_seq(v)),
    ).insert("buildfiles"@, paths_model(all_build_files(proj, build_dir))).insert(
        "templates"@,
        paths_model(all_templates(proj, avail, troot)),
    ).insert("generator"@, Jv::Str(generator)).insert("buildfile"@, Jv::Str("build.ninja"@))
}

/// `names` is the `depmods` view of `m`: every module reachable from its
/// `depends` list, each name once, sorted.
pub open spec fn is_depmods_of(g: Map<Seq<char>, Module>, m: Module, names: Seq<String>) -> bool {
    &&& distinct_keys(ov_of(names))
    &&& sorted_ov(ov_of(names))
    &&& forall|x: Seq<char>|
        #[trigger] ov_of(names).contains(x) ==> reaches_any(g, ov_of(m.depends@), x)
    &&& forall|x: Seq<char>|
        #[trigger] reaches_any(g, ov_of(m.depends@), x) ==> ov_of(names).contains(x)
}

/// `names` is the `deplibs` view of `m`: the libraries among its
/// `depmods`, sorted.
pub open spec fn is_deplibs_of(g: Map<Seq<char>, Module>, m: Module, names: Seq<String>) -> bool {
    &&& distinct_keys(ov_of(names))
    &&& sorted_ov(ov_of(names))
    &&& forall|x: Seq<char>|
        #[trigger] ov_of(names).contains(x) ==> reaches_any(g, ov_of(m.depends@), x)
            && g.contains_key(x) && g[x].is_library()
    &&& forall|x: Seq<char>|
        #[trigger] reaches_any(g, ov_of(m.depends@), x) && g.contains_key(x)
            && g[x].is_library() ==> ov_of(names).contains(x)
}

/// `names` is the `depexes` view of `m`: the executables among its
/// `depmods`, sorted.
pub open spec fn is_depexes_of(g: Map<Seq<char>, Module>, m: Module, names: Seq<String>) -> bool {
    &&& distinct_keys(ov_of(names))
    &&& sorted_ov(ov_of(names))
    &&& forall|x: Seq<char>|
        #[trigger] ov_of(names).contains(x) ==> reaches_any(g, ov_of(m.depends@), x)
            && g.contains_key(x) && g[x].is_executable()
    &&& forall|x: Seq<char>|
        #[trigger] reaches_any(g, ov_of(m.depends@), x) && g.contains_key(x)
            && g[x].is_executable() ==> ov_of(names).contains(x)
}

/// The file at entry `i` was rendered under the render context its module
/// dictates: the module object, its name and build-file path, the
/// variables, and the three dependency views resolved and sorted.
pub open spec fn module_file_ok(
    proj: &Project,
    avail: Seq<String>,
    build_dir: Seq<char>,
    i: int,
    f: OutFile,
) -> bool {
    exists|dm: Seq<String>, dl: Seq<String>, de: Seq<String>|
        {
            &&& #[trigger] is_depmods_of(proj.modules@, proj.modules.vals()[i], dm)
            &&& #[trigger] is_deplibs_of(proj.modules@, proj.modules.vals()[i], dl)
            &&& #[trigger] is_depexes_of(proj.modules@, proj.modules.vals()[i], de)
            &&& f.context@ == module_context(
                proj,
                build_dir,
                proj.modules.keys()[i],
                proj.modules.vals()[i],
                dm,
                dl,
                de,
            )
        }
}

impl Project {
    /// Renders every build description: one file per module, one per
    /// target, and the top-level file last, which aggregates the paths of
    /// everything rendered before it. Nothing is written here; the caller
    /// writes each file at its path.
    ///
    /// `available` lists the template files under the template root;
    /// `generator` is the path of the running generator binary, recorded in
    /// the top-level context so regeneration re-invokes it.
    pub fn generate(
        &self,
        build_dir: &String,
        engine: &tera::Tera,
        available: &Vec<String>,
        version: &Version,
        generator: &String,
    ) -> (r: Result<Vec<OutFile>, Error>)
        requires
            self.wf(),
            version.wf(),
        ensures
            (match r {
                Ok(files) => {
                    &&& files@.len() == self.modules.keys().len() + self.targets.keys().len() + 1
                    &&& forall|i: int|
                        0 <= i < self.modules.keys().len() ==> (#[trigger] files@[i]).path@
                            == module_file_path(build_dir@, self.modules.keys()[i])
                    &&& forall|i: int|
                        0 <= i < self.targets.keys().len() ==> (#[trigger] files@[
                            self.modules.keys().len() + i
                        ]).path@ == target_file_path(build_dir@, self.targets.keys()[i])
                    &&& files@.last().path@ == top_file_path(build_dir@)
                    &&& forall|i: int|
                        0 <= i < self.modules.keys().len() ==> chosen_template(
                            available@,
                            kind_tag((#[trigger] self.modules.vals()[i]).kind),
                            self.modules.keys()[i],
                        ) is Some
                    &&& forall|i: int|
                        0 <= i < self.targets.keys().len() ==> chosen_template(
                            available@,
                            target_kind(),
                            #[trigger] self.targets.keys()[i],
                        ) is Some
                    &&& forall|i: int|
                        0 <= i < self.modules.keys().len() ==> Some(
                            (#[trigger] files@[i]).template@,
                        ) == chosen_template(
                            available@,
                            kind_tag(self.modules.vals()[i].kind),
                            self.modules.keys()[i],
                        )
                    &&& forall|i: int|
                        0 <= i < self.modules.keys().len() ==> module_file_ok(
                            self,
                            available@,
                            build_dir@,
                            i,
                            #[trigger] files@[i],
                        )
                    &&& forall|i: int|
                        0 <= i < self.targets.keys().len() ==> Some(
                            (#[trigger] files@[self.modules.keys().len() + i]).template@,
                        ) == chosen_template(available@, target_kind(), self.targets.keys()[i])
                    &&& forall|i: int|
                        0 <= i < self.targets.keys().len() ==> (#[trigger] files@[
                            self.modules.keys().len() + i
                        ]).context@ == target_context(
                            self,
                            build_dir@,
                            self.targets.keys()[i],
                            self.targets.vals()[i]@,
                        )
                    &&& files@.last().template@ == "build.ninja.j2"@
                    &&& files@.last().context@ == top_context(
                        self,
                        available@,
                        build_dir@,
                        path_join(self.root@, self.templates@),
                        version,
                        generator@,
                    )
                },
                Err(e) => (match e {
                    Error::MissingTemplate(n) => (exists|i: int|
                        0 <= i < self.modules.keys().len() && chosen_template(
                            available@,
                            kind_tag((#[trigger] self.modules.vals()[i]).kind),
                            self.modules.keys()[i],
                        ) is None && n@ == self.modules.keys()[i]) || (exists|i: int|
                        0 <= i < self.targets.keys().len() && chosen_template(
                            available@,
                            target_kind(),
                            #[trigger] self.targets.keys()[i],
                        ) is None && n@ == self.targets.keys()[i]),
                    Error::NoSuchModule(nm) => !self.modules@.contains_key(nm@) && exists|i: int|
                        0 <= i < self.modules.keys().len() && !closure_ok(
                            self.modules@,
                            ov_of((#[trigger] self.modules.vals()[i]).depends@),
                        ),
                    Error::DependencyCycle => exists|i: int|
                        0 <= i < self.modules.keys().len() && !closure_ok(
                            self.modules@,
                            ov_of((#[trigger] self.modules.vals()[i]).depends@),
                        ),
                    Error::TemplateRendering(_) => true,
                    _ => false,
                }),
            }),
    {
        let template_root = join_path_exec(self.root.as_str(), self.templates.as_str());
        let mut files: Vec<OutFile> = Vec::new();
        let mut templates_used: Vec<String> = Vec::new();
        let nm = self.modules.len();
        let mut i: usize = 0;
        while i < nm
            invariant
                self.wf(),
                version.wf(),
                nm == self.modules.keys().len(),
                nm == self.modules.vals().len(),
                0 <= i <= nm,
                files@.len() == i,
                template_root@ == path_join(self.root@, self.templates@),
                templates_used@.len() == i,
                forall|k: int|
                    0 <= k < i ==> (#[trigger] files@[k]).path@ == module_file_path(
                        build_dir@,
                        self.modules.keys()[k],
                    ),
                forall|k: int|
                    0 <= k < i ==> chosen_template(
                        available@,
                        kind_tag((#[trigger] self.modules.vals()[k]).kind),
                        self.modules.keys()[k],
                    ) is Some,
                forall|k: int|
                    0 <= k < i ==> (#[trigger] templates_used@[k])@ == path_join(
                        template_root@,
                        chosen_template(
                            available@,
                            kind_tag(self.modules.vals()[k].kind),
                            self.modules.keys()[k],
                        ).unwrap(),
                    ),
                forall|k: int|
                    0 <= k < i ==> Some((#[trigger] files@[k]).template@) == chosen_template(
                        available@,
                        kind_tag(self.modules.vals()[k].kind),
                        self.modules.keys()[k],
                    ),
                forall|k: int|
                    0 <= k < i ==> module_file_ok(
                        self,
                        available@,
                        build_dir@,
                        k,
                        #[trigger] files@[k],
                    ),
            decreases nm - i,
        {
            let name: &String = self.modules.key_at(i);
            let mo: &Module = self.modules.val_at(i);
            let selected = match template_from_options(available, &template_root, name,
                mo.kind_name()) {
                Ok(p) => p,
                Err(e) => {
                    return Err(e);
                },
            };
            let dm = match mo.depmods(self) {
                Ok(v) => v,
                Err(e) => {
                    return Err(e);
                },
            };
            let dl = match mo.deplibs(self) {
                Ok(v) => v,
                Err(e) => {
                    return Err(e);
                },
            };
            let de = match mo.depexes(self) {
                Ok(v) => v,
                Err(e) => {
                    return Err(e);
                },
            };
            proof {
                assert forall|k: int|
                    0 <= k < dm@.len() implies self.modules@.contains_key(
                    #[trigger] ov_of(dm@)[k],
                ) by {
                    assert(ov_of(dm@).contains(ov_of(dm@)[k]));
                }
                assert forall|k: int|
                    0 <= k < dl@.len() implies self.modules@.contains_key(
                    #[trigger] ov_of(dl@)[k],
                ) by {
                    assert(ov_of(dl@).contains(ov_of(dl@)[k]));
                }
                assert forall|k: int|
                    0 <= k < de@.len() implies self.modules@.contains_key(
                    #[trigger] ov_of(de@)[k],
                ) by {
                    assert(ov_of(de@).contains(ov_of(de@)[k]));
                }
            }
            let mut fname = name.clone();
            fname.append(".ninja");
            let build_file = join_path_exec(build_dir.as_str(), fname.as_str());
            proof {
                reveal_strlit(".ninja");
                assert(fname@ =~= name@ + ninja_suffix());
                assert(build_file@ == module_file_path(build_dir@, self.modules.keys()[i as int]));
            }
            let mut ctx = ctx_new();
            ctx_insert(&mut ctx, "module", &module_value(name, mo));
            ctx_insert(&mut ctx, "name", &jv_str(name));
            ctx_insert(&mut ctx, "buildfile", &jv_str(&build_file));
            ctx_insert(&mut ctx, "vars", &vars_value(&self.vars));
            ctx_insert(&mut ctx, "depmods", &modules_value(self, &dm));
            ctx_insert(&mut ctx, "deplibs", &modules_value(self, &dl));
            ctx_insert(&mut ctx, "depexes", &modules_value(self, &de));
            proof {
                assert(is_depmods_of(self.modules@, self.modules.vals()[i as int], dm@));
                assert(is_deplibs_of(self.modules@, self.modules.vals()[i as int], dl@));
                assert(is_depexes_of(self.modules@, self.modules.vals()[i as int], de@));
                assert(ctx_model(ctx) == module_context(
                    self,
                    build_dir@,
                    self.modules.keys()[i as int],
                    self.modules.vals()[i as int],
                    dm@,
                    dl@,
                    de@,
                ));
            }
            let contents = match render(engine, selected.1.as_str(), &ctx) {
                Ok(text) => text,
                Err(msg) => {
                    return Err(Error::TemplateRendering(msg));
                },
            };
            files.push(
                OutFile {
                    path: build_file,
                    contents,
                    template: Ghost(selected.1@),
                    context: Ghost(ctx_model(ctx)),
                },
            );
            proof {
                assert(module_file_ok(
                    self,
                    available@,
                    build_dir@,
                    i as int,
                    files@[i as int],
                ));
            }
            templates_used.push(selected.0);
            i = i + 1;
        }
        let nt = self.targets.len();
        let mut j: usize = 0;
        while j < nt
            invariant
                self.wf(),
                version.wf(),
                nm == self.modules.keys().len(),
                nt == self.targets.keys().len(),
                nt == self.targets.vals().len(),
                0 <= j <= nt,
                files@.len() == nm + j,
                template_root@ == path_join(self.root@, self.templates@),
                templates_used@.len() == nm + j,
                forall|k: int|
                    0 <= k < nm ==> (#[trigger] files@[k]).path@ == module_file_path(
                        build_dir@,
                        self.modules.keys()[k],
                    ),
                forall|k: int|
                    0 <= k < nm ==> chosen_template(
                        available@,
                        kind_tag((#[trigger] self.modules.vals()[k]).kind),
                        self.modules.keys()[k],
                    ) is Some,
                forall|k: int|
                    0 <= k < nm ==> (#[trigger] templates_used@[k])@ == path_join(
                        template_root@,
                        chosen_template(
                            available@,
                            kind_tag(self.modules.vals()[k].kind),
                            self.modules.keys()[k],
                        ).unwrap(),
                    ),
                forall|k: int|
                    0 <= k < nm ==> Some((#[trigger] files@[k]).template@) == chosen_template(
                        available@,
                        kind_tag(self.modules.vals()[k].kind),
                        self.modules.keys()[k],
                    ),
                forall|k: int|
                    0 <= k < nm ==> module_file_ok(
                        self,
                        available@,
                        build_dir@,
                        k,
                        #[trigger] files@[k],
                    ),
                forall|k: int|
                    0 <= k < j ==> (#[trigger] files@[nm + k]).path@ == target_file_path(
                        build_dir@,
                        self.targets.keys()[k],
                    ),
                forall|k: int|
                    0 <= k < j ==> chosen_template(
                        available@,
                        target_kind(),
                        #[trigger] self.targets.keys()[k],
                    ) is Some,
                forall|k: int|
                    0 <= k < j ==> (#[trigger] templates_used@[nm + k])@ == path_join(
                        template_root@,
                        chosen_template(available@, target_kind(), self.targets.keys()[k]).unwrap(),
                    ),
                forall|k: int|
                    0 <= k < j ==> Some((#[trigger] files@[nm + k]).template@)
                        == chosen_template(available@, target_kind(), self.targets.keys()[k]),
                forall|k: int|
                    0 <= k < j ==> (#[trigger] files@[nm + k]).context@ == target_context(
                        self,
                        build_dir@,
                        self.targets.keys()[k],
                        self.targets.vals()[k]@,
                    ),
            decreases nt - j,
        {
            let tname: &String = self.targets.key_at(j);
            let members: &Vec<String> = self.targets.val_at(j);
            let selected = match template_from_options(available, &template_root, tname,
                "target") {
                Ok(p) => p,
                Err(e) => {
                    proof {
                        reveal_strlit("target");
                        assert("target"@ =~= target_kind());
                    }
                    return Err(e);
                },
            };
            proof {
                reveal_strlit("target");
                assert("target"@ =~= target_kind());
            }
            let target_root = join_path_exec(build_dir.as_str(), tname.as_str());
            let build_file = join_path_exec(target_root.as_str(), "target.ninja");
            proof {
                reveal_strlit("target.ninja");
                assert("target.ninja"@ =~= target_file_name());
                assert(build_file@ == target_file_path(build_dir@, self.targets.keys()[j as int]));
            }
            let mut ctx = ctx_new();
            ctx_insert(&mut ctx, "target", &jv_str(tname));
            ctx_insert(&mut ctx, "modules", &value_str_list(members));
            ctx_insert(&mut ctx, "buildfile", &jv_str(&build_file));
            ctx_insert(&mut ctx, "vars", &vars_value(&self.vars));
            proof {
                assert(ctx_model(ctx) == target_context(
                    self,
                    build_dir@,
                    self.targets.keys()[j as int],
                    self.targets.vals()[j as int]@,
                ));
            }
            let contents = match render(engine, selected.1.as_str(), &ctx) {
                Ok(text) => text,
                Err(msg) => {
                    return Err(Error::TemplateRendering(msg));
                },
            };
            files.push(
                OutFile {
                    path: build_file,
                    contents,
                    template: Ghost(selected.1@),
                    context: Ghost(ctx_model(ctx)),
                },
            );
            templates_used.push(selected.0);
            j = j + 1;
        }
        // The top-level file aggregates everything rendered above, so it
        // must come last.
        let top_path = join_path_exec(build_dir.as_str(), "build.ninja");
        proof {
            reveal_strlit("build.ninja");
            assert("build.ninja"@ =~= top_file_name());
        }
        let top_template = join_path_exec(template_root.as_str(), "build.ninja.j2");
        let mut build_files: Vec<String> = Vec::new();
        let nf = files.len();
        let mut k: usize = 0;
        while k < nf
            invariant
                nf == files@.len(),
                nf == nm + nt,
                nm == self.modules.keys().len(),
                nt == self.targets.keys().len(),
                0 <= k <= nf,
                build_files@.len() == k,
                forall|k2: int|
                    0 <= k2 < nm ==> (#[trigger] files@[k2]).path@ == module_file_path(
                        build_dir@,
                        self.modules.keys()[k2],
                    ),
                forall|k2: int|
                    0 <= k2 < nt ==> (#[trigger] files@[nm + k2]).path@ == target_file_path(
                        build_dir@,
                        self.targets.keys()[k2],
                    ),
                forall|k2: int|
                    0 <= k2 < k ==> (#[trigger] build_files@[k2])@ == all_build_files(
                        self,
                        build_dir@,
                    )[k2],
            decreases nf - k,
        {
            build_files.push(files[k].path.clone());
            proof {
                let abf = all_build_files(self, build_dir@);
                if k < nm {
                    assert(abf[k as int] == module_file_path(
                        build_dir@,
                        self.modules.keys()[k as int],
                    ));
                } else {
                    let k2 = k as int - nm;
                    assert(files@[nm + k2].path@ == target_file_path(
                        build_dir@,
                        self.targets.keys()[k2],
                    ));
                    assert(abf[k as int] == target_file_path(
                        build_dir@,
                        self.targets.keys()[k2],
                    ));
                }
            }
            k = k + 1;
        }
        build_files.push(top_path.clone());
        templates_used.push(top_template);
        let mut target_names: Vec<String> = Vec::new();
        let mut t: usize = 0;
        let ntk = self.targets.len();
        while t < ntk
            invariant
                self.targets.wf(),
                ntk == self.targets.keys().len(),
                0 <= t <= ntk,
                target_names@.len() == t,
                forall|k2: int|
                    0 <= k2 < t ==> (#[trigger] target_names@[k2])@ == self.targets.keys()[k2],
            decreases ntk - t,
        {
            target_names.push(self.targets.key_at(t).clone());
            t = t + 1;
        }
        let mut all_modules = jmap_new();
        let nmm = self.modules.len();
        let mut q: usize = 0;
        while q < nmm
            invariant
                self.modules.wf(),
                nmm == self.modules.keys().len(),
                nmm == self.modules.vals().len(),
                0 <= q <= nmm,
                jmap_model(all_modules) == modules_obj_prefix(&self.modules, q as int),
            decreases nmm - q,
        {
            let mname = self.modules.key_at(q);
            jmap_insert(&mut all_modules, mname.as_str(), module_value(mname,
                self.modules.val_at(q)));
            q = q + 1;
        }
        proof {
            let abf = all_build_files(self, build_dir@);
            assert(build_files@.len() == nm + nt + 1);
            assert forall|k2: int|
                0 <= k2 < build_files@.len() implies (#[trigger] build_files@[k2])@
                == abf[k2] by {
                if k2 == nm + nt {
                    assert(build_files@[k2]@ == top_path@);
                }
            }
            assert(build_files@.map_values(|s2: String| Jv::Str(s2@)) =~= abf.map_values(
                |p2: Seq<char>| Jv::Str(p2),
            ));
            assert(strs_model(build_files@) == paths_model(abf));
            let atm = all_templates(self, available@, template_root@);
            assert(templates_used@.len() == nm + nt + 1);
            assert forall|k2: int|
                0 <= k2 < templates_used@.len() implies (#[trigger] templates_used@[k2])@
                == atm[k2] by {
                if k2 < nm {
                    assert(atm[k2] == path_join(
                        template_root@,
                        chosen_template(
                            available@,
                            kind_tag(self.modules.vals()[k2].kind),
                            self.modules.keys()[k2],
                        ).unwrap(),
                    ));
                } else if k2 < nm + nt {
                    let k3 = k2 - nm;
                    assert(templates_used@[nm + k3]@ == path_join(
                        template_root@,
                        chosen_template(available@, target_kind(), self.targets.keys()[k3]).unwrap(),
                    ));
                    assert(atm[k2] == path_join(
                        template_root@,
                        chosen_template(available@, target_kind(), self.targets.keys()[k3]).unwrap(),
                    ));
                } else {
                    assert(templates_used@[k2]@ == top_template@);
                    assert(atm[k2] == path_join(template_root@, "build.ninja.j2"@));
                }
            }
            assert(templates_used@.map_values(|s2: String| Jv::Str(s2@)) =~= atm.map_values(
                |p2: Seq<char>| Jv::Str(p2),
            ));
            assert(strs_model(templates_used@) == paths_model(atm));
            assert(target_names@.map_values(|s2: String| Jv::Str(s2@)) =~= Seq::new(
                self.targets.keys().len(),
                |i2: int| Jv::Str(self.targets.keys()[i2]),
            ));
            assert(strs_model(target_names@) == Jv::Arr(
                Seq::new(
                    self.targets.keys().len(),
                    |i2: int| Jv::Str(self.targets.keys()[i2]),
                ),
            ));
        }
        let version_string = version.version_string();
        let mut ctx = ctx_new();
        ctx_insert(&mut ctx, "targets", &value_str_list(&target_names));
        ctx_insert(&mut ctx, "modules", &jv_obj(all_modules));
        ctx_insert(&mut ctx, "vars", &vars_value(&self.vars));
        ctx_insert(&mut ctx, "buildroot", &jv_str(build_dir));
        ctx_insert(&mut ctx, "srcroot", &jv_str(&self.root));
        ctx_insert(&mut ctx, "modulefile", &jv_str(&self.config_file));
        ctx_insert(&mut ctx, "version_major", &jv_u64(version.major));
        ctx_insert(&mut ctx, "version_minor", &jv_u64(version.minor));
        ctx_insert(&mut ctx, "version_patch", &jv_u64(version.patch));
        ctx_insert(&mut ctx, "version_sha", &jv_str(version.sha()));
        ctx_insert(&mut ctx, "version", &jv_str(&version_string));
        ctx_insert(&mut ctx, "buildfiles", &value_str_list(&build_files));
        ctx_insert(&mut ctx, "templates", &value_str_list(&templates_used));
        ctx_insert(&mut ctx, "generator", &jv_str(generator));
        // The top-level file records its own path as a bare relative name:
        // the downstream build executor will not reload itself correctly
        // when given an absolute self-referential path.
        let bare = "build.ninja".to_owned();
        ctx_insert(&mut ctx, "buildfile", &jv_str(&bare));
        proof {
            assert(ctx_model(ctx) == top_context(
                self,
                available@,
                build_dir@,
                path_join(self.root@, self.templates@),
                version,
                generator@,
            ));
        }
        let contents = match render(engine, "build.ninja.j2", &ctx) {
            Ok(text) => text,
            Err(msg) => {
                return Err(Error::TemplateRendering(msg));
            },
        };
        let ghost pre = files@;
        files.push(
            OutFile {
                path: top_path,
                contents,
                template: Ghost("build.ninja.j2"@),
                context: Ghost(ctx_model(ctx)),
            },
        );
        proof {
            assert(files@.last().path@ == top_file_path(build_dir@));
            assert(forall|x: int| 0 <= x < pre.len() ==> files@[x] == pre[x]);
        }
        Ok(files)
    }
}

} // verus!
