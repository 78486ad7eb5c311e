//! Template selection: the specific-then-default fallback rule that maps a
//! logical entity and a kind tag to a concrete template file.

use vstd::prelude::*;
use vstd::string::*;

use crate::errors::Error;
use crate::text::{join_path_exec, path_join};

verus! {

/// The file name `<kind>.<name>.j2` of the specific template.
pub open spec fn specific_template(kind: Seq<char>, name: Seq<char>) -> Seq<char> {
    kind + seq!['.'] + name + seq!['.', 'j', '2']
}

/// The file name `<kind>.default.j2` of the fallback template.
pub open spec fn default_template(kind: Seq<char>) -> Seq<char> {
    kind + seq!['.', 'd', 'e', 'f', 'a', 'u', 'l', 't', '.', 'j', '2']
}

/// The file named `f` is among the available template files.
pub open spec fn seq_has(avail: Seq<String>, f: Seq<char>) -> bool {
    exists|i: int| 0 <= i < avail.len() && #[trigger] avail[i]@ == f
}

/// The file the fallback rule selects: the specific template whenever it
/// exists, else the default, else nothing.
pub open spec fn chosen_template(avail: Seq<String>, kind: Seq<char>, name: Seq<char>) -> Option<
    Seq<char>,
> {
    if seq_has(avail, specific_template(kind, name)) {
        Some(specific_template(kind, name))
    } else if seq_has(avail, default_template(kind)) {
        Some(default_template(kind))
    } else {
        None
    }
}

fn specific_name(kind: &str, name: &String) -> (r: String)
    ensures
        r@ == specific_template(kind@, name@),
{
    let mut s = kind.to_owned();
    s.append(".");
    s.append(name.as_str());
    s.append(".j2");
    proof {
        reveal_strlit(".");
        reveal_strlit(".j2");
        assert(s@ =~= specific_template(kind@, name@));
    }
    s
}

fn default_name(kind: &str) -> (r: String)
    ensures
        r@ == default_template(kind@),
{
    let mut s = kind.to_owned();
    s.append(".default.j2");
    proof {
        reveal_strlit(".default.j2");
        assert(s@ =~= default_template(kind@));
    }
    s
}

fn contains_name(avail: &Vec<String>, f: &String) -> (r: bool)
    ensures
        r == seq_has(avail@, f@),
{
    let n = avail.len();
    let mut i: usize = 0;
    while i < n
        invariant
            n == avail@.len(),
            0 <= i <= n,
            forall|j: int| 0 <= j < i ==> avail@[j]@ != f@,
        decreases n - i,
    {
        if avail[i] == *f {
            proof {
                assert(avail@[i as int]@ == f@);
            }
            return true;
        }
        i = i + 1;
    }
    proof {
        if seq_has(avail@, f@) {
            let j = choose|j: int| 0 <= j < avail@.len() && avail@[j]@ == f@;
            assert(false);
        }
    }
    false
}

/// Selects the template for `name` under the kind tag `kind` from the files
/// available under `root`: `<kind>.<name>.j2` whenever it exists, else
/// `<kind>.default.j2`, else the failure naming the entity. Returns the
/// template's path under `root` together with its bare file name.
pub fn template_from_options(avail: &Vec<String>, root: &String, name: &String, kind: &str) -> (r:
    Result<(String, String), Error>)
    ensures
        (match r {
            Ok(p) => {
                &&& chosen_template(avail@, kind@, name@) == Some(p.1@)
                &&& p.0@ == path_join(root@, p.1@)
            },
            Err(e) => {
                &&& chosen_template(avail@, kind@, name@) is None
                &&& e matches Error::MissingTemplate(n) && n@ == name@
            },
        }),
{
    let spec_file = specific_name(kind, name);
    if contains_name(avail, &spec_file) {
        let path = join_path_exec(root.as_str(), spec_file.as_str());
        Ok((path, spec_file))
    } else {
        let def_file = default_name(kind);
        if contains_name(avail, &def_file) {
            let path = join_path_exec(root.as_str(), def_file.as_str());
            Ok((path, def_file))
        } else {
            Err(Error::MissingTemplate(name.clone()))
        }
    }
}

} // verus!
