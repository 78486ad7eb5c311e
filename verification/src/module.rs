//! Build modules: named compilation units with sources, defines and declared
//! dependencies, and the source items derived from their file paths.

use vstd::prelude::*;
use vstd::string::*;

use crate::text::{last_index_of, lemma_last_index_of, rfind_char, substr};

verus! {

/// The fallback logical name for a path with no final segment.
pub open spec fn unnamed_seq() -> Seq<char> {
    seq!['u', 'n', 'n', 'a', 'm', 'e', 'd']
}

/// The fallback action tag for a path with no extension.
pub open spec fn unknown_seq() -> Seq<char> {
    seq!['u', 'n', 'k', 'n', 'o', 'w', 'n']
}

/// The characters of `p` after its last `'/'`; the whole of `p` when it
/// holds none.
pub open spec fn raw_file_name(p: Seq<char>) -> Seq<char> {
    p.subrange(last_index_of(p, '/') + 1, p.len() as int)
}

/// The logical name of the file at `p`: its final segment, or a fallback
/// when that segment is empty.
pub open spec fn file_name_of(p: Seq<char>) -> Seq<char> {
    if raw_file_name(p).len() == 0 {
        unnamed_seq()
    } else {
        raw_file_name(p)
    }
}

/// Whether the final segment of `p` has an extension: a `'.'` later than
/// its first character.
pub open spec fn has_extension(p: Seq<char>) -> bool {
    last_index_of(raw_file_name(p), '.') > 0
}

/// The action tag of `p`: its extension, or a fallback when it has none.
pub open spec fn action_of(p: Seq<char>) -> Seq<char> {
    if has_extension(p) {
        let raw = raw_file_name(p);
        raw.subrange(last_index_of(raw, '.') + 1, raw.len() as int)
    } else {
        unknown_seq()
    }
}

/// The object path inferred for `p`: the extension is replaced with
/// `<ext>.o`, so a path with an extension gains `.o` and one without gains
/// `.unknown.o`.
pub open spec fn output_of(p: Seq<char>) -> Seq<char> {
    if has_extension(p) {
        p + seq!['.', 'o']
    } else {
        p + seq!['.'] + unknown_seq() + seq!['.', 'o']
    }
}

/// One file of a module's source list, with the values derived from its
/// path.
#[derive(Debug)]
pub struct SourceItem {
    /// The file's logical name: the final path segment.
    pub name: String,
    /// The path as written in the configuration.
    pub input: String,
    /// The inferred output object path.
    pub output: String,
    /// The action tag: the input's extension, or a fallback when absent.
    pub action: String,
}

impl SourceItem {
    /// The derived fields hold exactly what the path dictates.
    pub open spec fn wf(&self) -> bool {
        &&& self.name@ == file_name_of(self.input@)
        &&& self.action@ == action_of(self.input@)
        &&& self.output@ == output_of(self.input@)
    }

    /// Parses a source path into its logical name, output object path and
    /// action tag.
    pub fn from_path(input: String) -> (r: SourceItem)
        ensures
            r.wf(),
            r.input == input,
    {
        let n = input.as_str().unicode_len();
        proof {
            lemma_last_index_of(input@, '/');
        }
        let name_start: usize = match rfind_char(input.as_str(), '/') {
            Some(i) => i + 1,
            None => 0,
        };
        let raw = substr(input.as_str(), name_start, n);
        proof {
            lemma_last_index_of(input@, '/');
            assert(raw@ =~= raw_file_name(input@));
        }
        let rawlen = raw.as_str().unicode_len();
        let name: String = if rawlen == 0 {
            let s = "unnamed".to_owned();
            proof {
                reveal_strlit("unnamed");
                assert(s@ =~= unnamed_seq());
            }
            s
        } else {
            raw.clone()
        };
        proof {
            lemma_last_index_of(raw@, '.');
        }
        let ext: Option<usize> = match rfind_char(raw.as_str(), '.') {
            Some(i) if i > 0 => Some(i),
            _ => None,
        };
        let (action, output) = match ext {
            Some(i) => {
                let action = substr(raw.as_str(), i + 1, rawlen);
                let mut output = input.clone();
                output.append(".o");
                proof {
                    reveal_strlit(".o");
                    assert(action@ =~= action_of(input@));
                    assert(output@ =~= output_of(input@));
                }
                (action, output)
            },
            None => {
                let action = {
                    let s = "unknown".to_owned();
                    proof {
                        reveal_strlit("unknown");
                        assert(s@ =~= unknown_seq());
                    }
                    s
                };
                let mut output = input.clone();
                output.append(".");
                output.append(action.as_str());
                output.append(".o");
                proof {
                    reveal_strlit(".");
                    reveal_strlit(".o");
                    assert(output@ =~= output_of(input@));
                }
                (action, output)
            },
        };
        SourceItem { name, input, output, action }
    }
}

/// Whether a module is a library or an executable, and for an executable,
/// the target it declares.
#[derive(Debug)]
pub enum ModuleKind {
    /// A library module.
    Library,
    /// An executable module, registered into the named target.
    Executable { target: String },
}

/// The tag under which a kind selects templates.
pub open spec fn kind_tag(k: ModuleKind) -> Seq<char> {
    match k {
        ModuleKind::Library => seq!['l', 'i', 'b'],
        ModuleKind::Executable { .. } => seq!['e', 'x', 'e'],
    }
}

/// A named compilation unit of the project.
#[derive(Debug)]
pub struct Module {
    /// Names of the modules this one depends on; duplicates are allowed and
    /// order is irrelevant to resolution.
    pub depends: Vec<String>,
    /// Preprocessor defines.
    pub defines: Vec<String>,
    /// Include paths.
    pub includes: Vec<String>,
    /// The source items of the module.
    pub source: Vec<SourceItem>,
    /// The output path of the module.
    pub output: String,
    /// Library or executable.
    pub kind: ModuleKind,
}

impl Module {
    /// Whether the module is a library.
    pub open spec fn is_library(&self) -> bool {
        self.kind is Library
    }

    /// Whether the module is an executable.
    pub open spec fn is_executable(&self) -> bool {
        self.kind is Executable
    }

    /// The kind tag used for template selection: `"lib"` for a library,
    /// `"exe"` for an executable.
    pub fn kind_name(&self) -> (r: &str)
        ensures
            r@ == kind_tag(self.kind),
    {
        match self.kind {
            ModuleKind::Library => {
                proof {
                    reveal_strlit("lib");
                    assert("lib"@ =~= kind_tag(self.kind));
                }
                "lib"
            },
            ModuleKind::Executable { .. } => {
                proof {
                    reveal_strlit("exe");
                    assert("exe"@ =~= kind_tag(self.kind));
                }
                "exe"
            },
        }
    }
}

} // verus!
