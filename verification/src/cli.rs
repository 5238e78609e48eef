//! Resolution of the command-line options into the files to read and write.
//!
//! Paths are held as strings; what a path's file stem is, how a file name or
//! an extension is replaced, and when two paths name the same location are
//! `std::path`'s rules, reached through the trusted wrappers at the end.

use vstd::prelude::*;

verus! {

/// The value that the command line gives `--export` when no path follows it.
pub const DEFAULT_EXPORT_PATH: &'static str = "__sbm_default_export_path__";

/// What to do with an existing bookmark on the page of a new entry.
#[derive(Clone, Copy, Debug, Default, PartialEq, Eq)]
pub enum ExistingPolicy {
    /// Add another bookmark beside it.
    #[default]
    Create,
    /// Give the existing bookmark the new title.
    Update,
}

/// The options that the command line takes.
pub struct Cli {
    /// Base name used to find NAME.pdf and NAME.txt.
    pub name: Option<String>,
    /// Input PDF file (overrides NAME.pdf).
    pub input: Option<String>,
    /// Bookmark text file (overrides NAME.txt).
    pub bookmarks: Option<String>,
    /// Output PDF file (defaults to NAME_bm.pdf).
    pub output: Option<String>,
    /// Replace the input PDF instead of creating a new file.
    pub in_place: bool,
    /// Parse and report bookmark entries without writing the PDF.
    pub dry_run: bool,
    /// Export existing PDF bookmarks to a text file; the inner value is the path, if one was given.
    pub export: Option<Option<String>>,
    /// Discard all existing PDF bookmarks before adding new ones.
    pub from_zero: bool,
    /// How to handle an existing bookmark on the same page.
    pub on_existing: Option<ExistingPolicy>,
}

/// The files of a bookmarking run.
pub struct Paths {
    pub input: String,
    pub bookmarks: String,
    pub output: String,
}

/// The files of an export run.
pub struct ExportPaths {
    pub input: String,
    pub output: String,
}

/// What a run does once its options are resolved.
pub enum RunPlan {
    /// Export the bookmarks of `input` to the text file `output`.
    Export(ExportPaths),
    /// Add the bookmarks of a text file to a PDF, or, in a dry run, only
    /// report on the text; `from_zero` discards the existing bookmarks first.
    Bookmark { paths: Paths, policy: ExistingPolicy, dry_run: bool, from_zero: bool },
}

/// The view of an optional string.
pub open spec fn opt_view(s: Option<String>) -> Option<Seq<char>> {
    match s {
        Some(x) => Some(x@),
        None => None,
    }
}

/// The view of a string result.
pub open spec fn result_view(r: Result<String, String>) -> Result<Seq<char>, Seq<char>> {
    match r {
        Ok(x) => Ok(x@),
        Err(e) => Err(e@),
    }
}

/// The input PDF: `--input`, else NAME.pdf.
pub open spec fn input_path_of(cli: Cli) -> Result<Seq<char>, Seq<char>> {
    match opt_view(cli.input) {
        Some(p) => Ok(p),
        None => match opt_view(cli.name) {
            Some(n) => Ok(n + ".pdf"@),
            None => Err("provide NAME or --input"@),
        },
    }
}

/// The bookmark text: `--bookmarks`, else NAME.txt.
pub open spec fn bookmark_path_of(cli: Cli) -> Result<Seq<char>, Seq<char>> {
    match opt_view(cli.bookmarks) {
        Some(p) => Ok(p),
        None => match opt_view(cli.name) {
            Some(n) => Ok(n + ".txt"@),
            None => Err("provide NAME or --bookmarks"@),
        },
    }
}

/// The output PDF: the input itself in place, else `--output`, else
/// NAME_bm.pdf, else the input's file stem (or `output`) with `_bm.pdf` in
/// the input's directory.
pub open spec fn output_path_of(cli: Cli, input: Seq<char>) -> Seq<char> {
    if cli.in_place {
        input
    } else {
        match opt_view(cli.output) {
            Some(o) => o,
            None => match opt_view(cli.name) {
                Some(n) => n + "_bm.pdf"@,
                None => {
                    let stem = match file_stem_of(input) {
                        Some(s) => s,
                        None => "output"@,
                    };
                    with_file_name_of(input, stem + "_bm.pdf"@)
                },
            },
        }
    }
}

/// The three files of a bookmarking run, or why they cannot be resolved.
pub open spec fn paths_of(cli: Cli) -> Result<(Seq<char>, Seq<char>, Seq<char>), Seq<char>> {
    match input_path_of(cli) {
        Err(e) => Err(e),
        Ok(input) => match bookmark_path_of(cli) {
            Err(e) => Err(e),
            Ok(bookmarks) => {
                let output = output_path_of(cli, input);
                if !cli.in_place && same_path_of(input, output) {
                    Err("input and output files must be different"@)
                } else {
                    Ok((input, bookmarks, output))
                }
            },
        },
    }
}

/// The two files of an export run, or why they cannot be resolved.
pub open spec fn export_paths_of(cli: Cli) -> Result<(Seq<char>, Seq<char>), Seq<char>> {
    match input_path_of(cli) {
        Err(e) => Err(e),
        Ok(input) => match cli.export {
            Some(Some(p)) => if same_path_of(p@, DEFAULT_EXPORT_PATH@) {
                Ok((input, with_extension_of(input, "txt"@)))
            } else {
                Ok((input, p@))
            },
            Some(None) => Ok((input, with_extension_of(input, "txt"@))),
            None => Err("provide --export to export bookmarks"@),
        },
    }
}

/// The policy for existing bookmarks: `--on-existing`, else update in place
/// and create otherwise.
pub open spec fn existing_policy_of(cli: Cli) -> ExistingPolicy {
    match cli.on_existing {
        Some(p) => p,
        None => if cli.in_place {
            ExistingPolicy::Update
        } else {
            ExistingPolicy::Create
        },
    }
}

/// The first pair of options that cannot be used together, if any.
pub open spec fn conflict_of(cli: Cli) -> Option<Seq<char>> {
    if cli.in_place && cli.output is Some {
        Some("the argument '--in-place' cannot be used with '--output <PDF>'"@)
    } else if cli.dry_run && cli.export is Some {
        Some("the argument '--dry-run' cannot be used with '--export [<TEXT>]'"@)
    } else if cli.from_zero && cli.export is Some {
        Some("the argument '--from-zero' cannot be used with '--export [<TEXT>]'"@)
    } else if cli.from_zero && cli.on_existing is Some {
        Some("the argument '--from-zero' cannot be used with '--on-existing <ON_EXISTING>'"@)
    } else {
        None
    }
}

/// `name` followed by `suffix`.
fn with_suffix(name: &String, suffix: &str) -> (r: String)
    ensures
        r@ == name@ + suffix@,
{
    let mut r = name.clone();
    r.append(suffix);
    r
}

impl Cli {
    /// The input PDF: `--input`, else NAME.pdf.
    pub fn input_path(&self) -> (r: Result<String, String>)
        ensures
            result_view(r) == input_path_of(*self),
    {
        match &self.input {
            Some(p) => Ok(p.clone()),
            None => match &self.name {
                Some(n) => Ok(with_suffix(n, ".pdf")),
                None => Err(String::from_str("provide NAME or --input")),
            },
        }
    }

    /// The bookmark text: `--bookmarks`, else NAME.txt.
    pub fn bookmark_path(&self) -> (r: Result<String, String>)
        ensures
            result_view(r) == bookmark_path_of(*self),
    {
        match &self.bookmarks {
            Some(p) => Ok(p.clone()),
            None => match &self.name {
                Some(n) => Ok(with_suffix(n, ".txt")),
                None => Err(String::from_str("provide NAME or --bookmarks")),
            },
        }
    }

    /// The files of a bookmarking run; an error when no input or bookmark
    /// file is named, or when the output would overwrite the input without
    /// `--in-place` (in particular when `--output` repeats `--input`).
    pub fn paths(&self) -> (r: Result<Paths, String>)
        ensures
            match r {
                Ok(p) => paths_of(*self) == Ok::<_, Seq<char>>((p.input@, p.bookmarks@, p.output@)),
                Err(e) => paths_of(*self) == Err::<(Seq<char>, Seq<char>, Seq<char>), _>(e@),
            },
            !self.in_place && (self.input matches Some(i) && self.output matches Some(o) && i@
                == o@) ==> r is Err,
    {
        let input = match self.input_path() {
            Ok(p) => p,
            Err(e) => return Err(e),
        };
        let bookmarks = match self.bookmark_path() {
            Ok(p) => p,
            Err(e) => return Err(e),
        };
        let output = if self.in_place {
            input.clone()
        } else {
            match &self.output {
                Some(o) => o.clone(),
                None => match &self.name {
                    Some(n) => with_suffix(n, "_bm.pdf"),
                    None => {
                        let stem = match file_stem(input.as_str()) {
                            Some(s) => s,
                            None => String::from_str("output"),
                        };
                        let file_name = with_suffix(&stem, "_bm.pdf");
                        with_file_name(input.as_str(), file_name.as_str())
                    },
                },
            }
        };
        if !self.in_place && same_path(input.as_str(), output.as_str()) {
            return Err(String::from_str("input and output files must be different"));
        }
        Ok(Paths { input, bookmarks, output })
    }

    /// The files of an export run: the input PDF and the text to write, which
    /// is the input with a `.txt` extension unless `--export` names a path.
    pub fn export_paths(&self) -> (r: Result<ExportPaths, String>)
        ensures
            match r {
                Ok(p) => export_paths_of(*self) == Ok::<_, Seq<char>>((p.input@, p.output@)),
                Err(e) => export_paths_of(*self) == Err::<(Seq<char>, Seq<char>), _>(e@),
            },
    {
        let input = match self.input_path() {
            Ok(p) => p,
            Err(e) => return Err(e),
        };
        let output = match &self.export {
            Some(Some(path)) => if same_path(path.as_str(), DEFAULT_EXPORT_PATH) {
                text_path_for_pdf(input.as_str())
            } else {
                path.clone()
            },
            Some(None) => text_path_for_pdf(input.as_str()),
            None => return Err(String::from_str("provide --export to export bookmarks")),
        };
        Ok(ExportPaths { input, output })
    }

    /// How to treat an existing bookmark on the page of a new entry.
    pub fn existing_policy(&self) -> (p: ExistingPolicy)
        ensures
            p == existing_policy_of(*self),
    {
        match self.on_existing {
            Some(p) => p,
            None => if self.in_place {
                ExistingPolicy::Update
            } else {
                ExistingPolicy::Create
            },
        }
    }

    /// Refuses the options that cannot be used together: `--in-place` with
    /// `--output`, `--dry-run` with `--export`, and `--from-zero` with
    /// `--export` or `--on-existing`.
    pub fn check_conflicts(&self) -> (r: Result<(), String>)
        ensures
            match r {
                Ok(()) => conflict_of(*self) is None,
                Err(e) => conflict_of(*self) == Some(e@),
            },
    {
        if self.in_place && self.output.is_some() {
            Err(String::from_str("the argument '--in-place' cannot be used with '--output <PDF>'"))
        } else if self.dry_run && self.export.is_some() {
            Err(String::from_str("the argument '--dry-run' cannot be used with '--export [<TEXT>]'"))
        } else if self.from_zero && self.export.is_some() {
            Err(String::from_str("the argument '--from-zero' cannot be used with '--export [<TEXT>]'"))
        } else if self.from_zero && self.on_existing.is_some() {
            Err(
                String::from_str(
                    "the argument '--from-zero' cannot be used with '--on-existing <ON_EXISTING>'",
                ),
            )
        } else {
            Ok(())
        }
    }

    /// Decides what the run does: refuses options that cannot be used
    /// together; with `--export`, resolves the files of an export; otherwise
    /// resolves the files, the policy for existing bookmarks and the dry-run
    /// and from-zero switches of a bookmarking run.
    pub fn plan(&self) -> (r: Result<RunPlan, String>)
        ensures
            conflict_of(*self) matches Some(c) ==> r matches Err(e) && e@ == c,
            conflict_of(*self) is None && self.export is Some ==> match r {
                Ok(RunPlan::Export(p)) => export_paths_of(*self) == Ok::<_, Seq<char>>(
                    (p.input@, p.output@),
                ),
                Ok(RunPlan::Bookmark { .. }) => false,
                Err(e) => export_paths_of(*self) == Err::<(Seq<char>, Seq<char>), _>(e@),
            },
            conflict_of(*self) is None && self.export is None ==> match r {
                Ok(RunPlan::Bookmark { paths, policy, dry_run, from_zero }) => {
                    &&& paths_of(*self) == Ok::<_, Seq<char>>(
                        (paths.input@, paths.bookmarks@, paths.output@),
                    )
                    &&& policy == existing_policy_of(*self)
                    &&& dry_run == self.dry_run
                    &&& from_zero == self.from_zero
                },
                Ok(RunPlan::Export(_)) => false,
                Err(e) => paths_of(*self) == Err::<(Seq<char>, Seq<char>, Seq<char>), _>(e@),
            },
    {
        match self.check_conflicts() {
            Ok(()) => {},
            Err(e) => return Err(e),
        }
        if self.export.is_some() {
            match self.export_paths() {
                Ok(p) => Ok(RunPlan::Export(p)),
                Err(e) => Err(e),
            }
        } else {
            match self.paths() {
                Ok(paths) => Ok(
                    RunPlan::Bookmark {
                        paths,
                        policy: self.existing_policy(),
                        dry_run: self.dry_run,
                        from_zero: self.from_zero,
                    },
                ),
                Err(e) => Err(e),
            }
        }
    }
}

/// The text file that goes with a PDF: the same path with a `.txt` extension.
pub fn text_path_for_pdf(input: &str) -> (r: String)
    ensures
        r@ == with_extension_of(input@, "txt"@),
{
    proof {
        reveal_strlit("txt");
        assert(!"txt"@.contains('/'));
        assert(!"txt"@.contains('\\'));
    }
    with_extension(input, "txt")
}

/// In place, the output is the input itself; otherwise a run never writes
/// to a path that names the input.
pub proof fn law_output_never_overwrites_by_accident(cli: Cli)
    ensures
        paths_of(cli) matches Ok((input, _b, output)) ==> (if cli.in_place {
            output == input
        } else {
            !same_path_of(input, output)
        }),
{
}

/// With no `--on-existing`, an in-place run updates existing bookmarks and
/// any other run adds new ones; `--on-existing` always decides when given.
pub proof fn law_policy_defaults(cli: Cli)
    ensures
        cli.on_existing is None ==> existing_policy_of(cli) == (if cli.in_place {
            ExistingPolicy::Update
        } else {
            ExistingPolicy::Create
        }),
        cli.on_existing matches Some(p) ==> existing_policy_of(cli) == p,
{
}

/// A run that names its files explicitly does not depend on NAME.
pub proof fn law_explicit_paths_win(cli: Cli)
    requires
        cli.input is Some,
        cli.bookmarks is Some,
        cli.output is Some,
        !cli.in_place,
    ensures
        paths_of(cli) == paths_of(Cli { name: None, ..cli }),
{
}

/// An export path given after `--export` is where the export goes, whatever
/// NAME and `--input` are: only the marker that the command line gives a
/// bare `--export` falls back to the input with a `.txt` extension.
pub proof fn law_export_path_given_wins(cli: Cli, p: String)
    requires
        cli.export == Some(Some(p)),
        !same_path_of(p@, DEFAULT_EXPORT_PATH@),
    ensures
        input_path_of(cli) matches Ok(i) ==> export_paths_of(cli) == Ok::<_, Seq<char>>((i, p@)),
        input_path_of(cli) is Err ==> export_paths_of(cli) is Err,
{
}

/// Without `--output` and `--in-place`, a run with NAME writes NAME_bm.pdf,
/// whatever `--input` is; the input's file stem names the output only when
/// there is no NAME.
pub proof fn law_named_output(cli: Cli, n: String)
    requires
        cli.name == Some(n),
        cli.output is None,
        !cli.in_place,
    ensures
        forall|input: Seq<char>| #[trigger] output_path_of(cli, input) == n@ + "_bm.pdf"@,
        paths_of(cli) matches Ok((_i, _b, o)) ==> o == n@ + "_bm.pdf"@,
{
}

/// Exactly four pairs of options cannot be used together: `--in-place`
/// with `--output`, `--dry-run` with `--export`, `--from-zero` with
/// `--export`, and `--from-zero` with `--on-existing`. Every other
/// combination, `--dry-run` with `--from-zero` among them, is accepted.
pub proof fn law_only_listed_conflicts(cli: Cli)
    ensures
        conflict_of(cli) is Some <==> (cli.in_place && cli.output is Some) || (cli.dry_run
            && cli.export is Some) || (cli.from_zero && cli.export is Some) || (cli.from_zero
            && cli.on_existing is Some),
{
}

/// What `Path::file_stem` gives for a path, when it is valid UTF-8.
pub uninterp spec fn file_stem_of(path: Seq<char>) -> Option<Seq<char>>;

/// What `PathBuf::set_file_name` makes of a path.
pub uninterp spec fn with_file_name_of(path: Seq<char>, name: Seq<char>) -> Seq<char>;

/// What `PathBuf::set_extension` makes of a path.
pub uninterp spec fn with_extension_of(path: Seq<char>, extension: Seq<char>) -> Seq<char>;

/// Whether `Path`'s equality, which compares components, holds of two paths.
pub uninterp spec fn same_path_of(a: Seq<char>, b: Seq<char>) -> bool;

/// Calls `Path::file_stem` and gives the stem as a string (a stem of a
/// UTF-8 path is UTF-8): the result is the name `file_stem_of` of the path,
/// which this library does not restate.
#[verifier::external_body]
fn file_stem(path: &str) -> (r: Option<String>)
    ensures
        opt_view(r) == file_stem_of(path@),
{
    match std::path::Path::new(path).file_stem() {
        Some(stem) => Some(stem.to_string_lossy().into_owned()),
        None => None,
    }
}

/// Calls `PathBuf::set_file_name` on the path and gives the result as a
/// string: the name `with_file_name_of` of its arguments.
#[verifier::external_body]
fn with_file_name(path: &str, name: &str) -> (r: String)
    ensures
        r@ == with_file_name_of(path@, name@),
{
    let mut p = std::path::PathBuf::from(path);
    p.set_file_name(name);
    p.to_string_lossy().into_owned()
}

/// Calls `PathBuf::set_extension` on the path and gives the result as a
/// string: the name `with_extension_of` of its arguments. `set_extension`
/// panics on an extension that holds a path separator, which the `requires`
/// rules out.
#[verifier::external_body]
fn with_extension(path: &str, extension: &str) -> (r: String)
    requires
        !extension@.contains('/'),
        !extension@.contains('\\'),
    ensures
        r@ == with_extension_of(path@, extension@),
{
    let mut p = std::path::PathBuf::from(path);
    p.set_extension(extension);
    p.to_string_lossy().into_owned()
}

/// Compares two paths with `Path`'s `==`: the result is the name
/// `same_path_of` of the two paths; equal strings are the same path, as
/// `Path`'s equality is reflexive.
#[verifier::external_body]
pub(crate) fn same_path(a: &str, b: &str) -> (r: bool)
    ensures
        r == same_path_of(a@, b@),
        a@ == b@ ==> r,
{
    std::path::Path::new(a) == std::path::Path::new(b)
}

} // verus!
