//! Diagnostics as they are displayed.

use vstd::prelude::*;
use crate::aggregated::{has_code, is_under_any, minor_in_tests, under_any, AggregatedCompilerOutput};
use crate::diagnostic::{Error, Severity};
use crate::path::{path_parts, SourcePath};
use crate::style::{green, painted, red, yellow};

verus! {

/// The diagnostics of an output, with what is not to be displayed.
#[derive(Clone, Debug)]
pub struct OutputDiagnostics<'a> {
    /// The output of the compiled project.
    compiler_output: &'a AggregatedCompilerOutput,
    /// The error codes to ignore.
    ignored_error_codes: &'a [u64],
    /// The file paths to ignore.
    ignored_file_paths: &'a [SourcePath],
    /// The lowest severity that is treated as an error.
    compiler_severity_filter: Severity,
}

/// Whether a diagnostic is a warning that is not displayed.
pub open spec fn hides(
    output: AggregatedCompilerOutput,
    codes: Seq<u64>,
    paths: Seq<SourcePath>,
    error: Error,
) -> bool {
    &&& error.severity == Severity::Warning
    &&& error.error_code matches Some(code) && {
        ||| codes.contains(code)
        ||| error.source_location matches Some(location) && {
            ||| under_any(paths, path_parts(location.file@))
            ||| output.file_is_test(location.file@) && minor_in_tests(code)
        }
    }
}

/// The lines for the first `n` diagnostics: each that is displayed on a line of its own.
pub open spec fn lines(
    output: AggregatedCompilerOutput,
    codes: Seq<u64>,
    paths: Seq<SourcePath>,
    n: nat,
) -> Seq<char>
    decreases n,
{
    if n == 0 {
        Seq::empty()
    } else {
        let front = lines(output, codes, paths, (n - 1) as nat);
        let error = output.errors@[n - 1];
        if hides(output, codes, paths, error) {
            front
        } else {
            front + "\n"@ + error.text@
        }
    }
}

/// The display with the given status.
pub open spec fn report_text(
    output: AggregatedCompilerOutput,
    codes: Seq<u64>,
    paths: Seq<SourcePath>,
    status: Seq<char>,
) -> Seq<char> {
    "Compiler run "@ + status + lines(output, codes, paths, output.errors@.len())
}

/// The status that is displayed, and the number of its color.
pub open spec fn status_of(
    output: AggregatedCompilerOutput,
    codes: Seq<u64>,
    paths: Seq<SourcePath>,
    filter: Severity,
) -> (Seq<char>, Seq<char>) {
    if output.fails(codes, paths, filter) {
        ("failed:"@, seq!['3', '1'])
    } else if output.warns(codes, paths) {
        ("successful with warnings:"@, seq!['3', '3'])
    } else {
        ("successful!"@, seq!['3', '2'])
    }
}

/// Whether `text` is what is displayed: whether the status is in color is left open.
pub open spec fn displays(
    output: AggregatedCompilerOutput,
    codes: Seq<u64>,
    paths: Seq<SourcePath>,
    filter: Severity,
    text: Seq<char>,
) -> bool {
    exists|status: Seq<char>|
        {
            &&& painted(
                status_of(output, codes, paths, filter).1,
                status_of(output, codes, paths, filter).0,
                status,
            )
            &&& text == #[trigger] report_text(output, codes, paths, status)
        }
}

impl<'a> OutputDiagnostics<'a> {
    /// The output of the compiled project.
    pub closed spec fn output(&self) -> AggregatedCompilerOutput {
        *self.compiler_output
    }

    /// The error codes to ignore.
    pub closed spec fn codes(&self) -> Seq<u64> {
        self.ignored_error_codes@
    }

    /// The file paths to ignore.
    pub closed spec fn paths(&self) -> Seq<SourcePath> {
        self.ignored_file_paths@
    }

    /// The lowest severity that is treated as an error.
    pub closed spec fn filter(&self) -> Severity {
        self.compiler_severity_filter
    }

    /// The diagnostics of an output.
    pub fn new(
        compiler_output: &'a AggregatedCompilerOutput,
        ignored_error_codes: &'a [u64],
        ignored_file_paths: &'a [SourcePath],
        compiler_severity_filter: Severity,
    ) -> (r: OutputDiagnostics<'a>)
        ensures
            r.output() == *compiler_output,
            r.codes() == ignored_error_codes@,
            r.paths() == ignored_file_paths@,
            r.filter() == compiler_severity_filter,
    {
        OutputDiagnostics {
            compiler_output,
            ignored_error_codes,
            ignored_file_paths,
            compiler_severity_filter,
        }
    }

    /// Returns true if there is at least one error of high severity.
    pub fn has_error(&self) -> (r: bool)
        ensures
            r == self.output().fails(self.codes(), self.paths(), self.filter()),
    {
        self.compiler_output.has_error(
            self.ignored_error_codes,
            self.ignored_file_paths,
            &self.compiler_severity_filter,
        )
    }

    /// Returns true if there is at least one warning.
    pub fn has_warning(&self) -> (r: bool)
        ensures
            r == self.output().warns(self.codes(), self.paths()),
    {
        self.compiler_output.has_warning(self.ignored_error_codes, self.ignored_file_paths)
    }

    /// Returns true if the contract is expected to be a test.
    fn is_test(&self, contract_path: &str) -> (r: bool)
        ensures
            r == self.output().file_is_test(contract_path@),
    {
        self.compiler_output.is_test(contract_path)
    }

    /// Whether a diagnostic is not displayed.
    fn is_hidden(&self, error: &Error) -> (r: bool)
        ensures
            r == hides(self.output(), self.codes(), self.paths(), *error),
    {
        let mut ignored: bool = false;
        if error.severity.is_warning() {
            if let Some(code) = error.error_code {
                if let Some(location) = &error.source_location {
                    // license and contract size warnings do not matter in test files
                    ignored = (code == 1878 || code == 5574) && self.is_test(
                        location.file.as_str(),
                    );
                    let path: SourcePath = SourcePath::new(location.file.as_str());
                    ignored = ignored || is_under_any(self.ignored_file_paths, &path);
                }
                ignored = ignored || has_code(self.ignored_error_codes, code);
            }
        }
        ignored
    }

    /// The display with the given status.
    pub fn report(&self, status: &str) -> (r: String)
        ensures
            r@ == report_text(self.output(), self.codes(), self.paths(), status@),
    {
        let mut out: String = "Compiler run ".to_owned();
        out.append(status);
        let ghost head = "Compiler run "@ + status@;
        let errors: &Vec<Error> = &self.compiler_output.errors;
        let mut i: usize = 0;
        assert(out@ =~= head + lines(self.output(), self.codes(), self.paths(), 0));
        while i < errors.len()
            invariant
                i <= errors.len(),
                errors@ == self.output().errors@,
                out@ == head + lines(self.output(), self.codes(), self.paths(), i as nat),
            decreases errors.len() - i,
        {
            let error: &Error = &errors[i];
            if !self.is_hidden(error) {
                out.append("\n");
                out.append(error.text.as_str());
            }
            assert(out@ =~= head + lines(self.output(), self.codes(), self.paths(), (i + 1) as nat));
            i = i + 1;
        }
        out
    }

    /// The display, with the status in color where color is on.
    pub fn to_text(&self) -> (r: String)
        ensures
            displays(self.output(), self.codes(), self.paths(), self.filter(), r@),
    {
        let status: String = if self.has_error() {
            red("failed:")
        } else if self.has_warning() {
            yellow("successful with warnings:")
        } else {
            green("successful!")
        };
        self.report(status.as_str())
    }
}

} // verus!
