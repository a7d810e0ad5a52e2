//! The run configuration, and the decisions that assemble it from the
//! defaults, the user's configuration file and the command line. Reading
//! those inputs is the surrounding program's work; every override rule is
//! decided here.

use vstd::prelude::*;
use crate::strutil::{contains_seq, str_contains};
use crate::types::{TagsExe, TagsKind, TagsSpec};

verus! {

/// The configuration of one run.
pub struct Config {
    /// The tags to create and the tool to create them with.
    pub tags_spec: TagsSpec,
    /// Where the search for the project manifest starts.
    pub start_dir: String,
    /// Where standard-library tags go, when requested.
    pub output_dir_std: Option<String>,
    /// Do not create tags for dependencies.
    pub omit_deps: bool,
    /// Rebuild everything, cached or not.
    pub force_recreate: bool,
    /// Verbose output; forces a single worker so the output stays coherent.
    pub verbose: bool,
    /// No informational output.
    pub quiet: bool,
    /// Number of workers, at least one.
    pub num_threads: u32,
}

/// The values read from the user's configuration file; every key is
/// optional.
pub struct ConfigFromFile {
    /// The file name used for vi tags.
    pub vi_tags: Option<String>,
    /// The file name used for emacs tags.
    pub emacs_tags: Option<String>,
    /// The tag tool executable.
    pub ctags_exe: Option<String>,
    /// Extra options for the tag tool.
    pub ctags_options: Option<String>,
}

/// The two project-tree file names: the defaults, overridden by the
/// configuration file, then by the command line for the selected kind.
pub fn resolve_tag_names(
    file_vi: Option<String>,
    file_emacs: Option<String>,
    cli_output: Option<String>,
    kind: TagsKind,
) -> (r: (String, String))
    ensures
        ({
            let base_vi = match file_vi {
                Some(v) => v@,
                None => "rusty-tags.vi"@,
            };
            let base_emacs = match file_emacs {
                Some(v) => v@,
                None => "rusty-tags.emacs"@,
            };
            &&& r.0@ == (if kind is Vi && cli_output is Some {
                cli_output->Some_0@
            } else {
                base_vi
            })
            &&& r.1@ == (if kind is Emacs && cli_output is Some {
                cli_output->Some_0@
            } else {
                base_emacs
            })
        }),
{
    let mut vi = match file_vi {
        Some(v) => v,
        None => "rusty-tags.vi".to_owned(),
    };
    let mut emacs = match file_emacs {
        Some(v) => v,
        None => "rusty-tags.emacs".to_owned(),
    };
    match cli_output {
        Some(name) => {
            match kind {
                TagsKind::Vi => {
                    vi = name;
                },
                TagsKind::Emacs => {
                    emacs = name;
                },
            }
        },
        None => {},
    }
    (vi, emacs)
}

/// Quiet overrides verbose.
pub fn effective_verbose(quiet: bool, verbose: bool) -> (r: bool)
    ensures
        r == (verbose && !quiet),
{
    if quiet {
        false
    } else {
        verbose
    }
}

/// The worker count: one under verbose output, the requested count clamped
/// to at least one, or the machine's count when nothing was requested.
pub fn effective_num_threads(verbose: bool, requested: Option<u32>, physical: u32) -> (r: u32)
    ensures
        r == (if verbose {
            1u32
        } else {
            match requested {
                Some(n) => if n == 0 {
                    1u32
                } else {
                    n
                },
                None => physical,
            }
        }),
        r >= 1 || (!verbose && requested is None && physical == 0),
{
    if verbose {
        return 1;
    }
    match requested {
        Some(n) => if n == 0 {
            1
        } else {
            n
        },
        None => physical,
    }
}

/// Classifies the tag tool by its version banner: a banner naming
/// `Universal Ctags` selects the universal variant, anything else the
/// exuberant one.
pub fn detect_exe_kind(exe: String, version_output: &str) -> (r: TagsExe)
    ensures
        contains_seq(version_output@, "Universal Ctags"@) ==> (r matches TagsExe::UniversalCtags(e)
            && e@ == exe@),
        !contains_seq(version_output@, "Universal Ctags"@) ==> (r matches TagsExe::ExuberantCtags(
        e) && e@ == exe@),
{
    if str_contains(version_output, "Universal Ctags") {
        TagsExe::UniversalCtags(exe)
    } else {
        TagsExe::ExuberantCtags(exe)
    }
}

} // verus!
