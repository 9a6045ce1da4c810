//! Validation of the command-line arguments of the `ip` tool.
use vstd::prelude::*;

verus! {

/// Command-line arguments of the `ip` tool.
pub struct Args {
    /// Input file path.
    pub input: String,
    /// Output file path.
    pub output: String,
    /// Plugin name.
    pub plugin: String,
    /// Path to the file with the plugin's parameters.
    pub params: String,
    /// Path to the directory that holds the plugins.
    pub plugin_path: String,
}

/// What the file system reports about the paths that [`Args`] names.
pub struct PathChecks {
    /// The input path names a regular file.
    pub input_is_file: bool,
    /// The parameters path names a regular file.
    pub params_is_file: bool,
    /// The plugin path names a directory.
    pub plugin_path_is_dir: bool,
    /// The parent of the output path, where it has one.
    pub output_parent: Option<String>,
    /// The parent of the output path names a directory.
    pub output_parent_is_dir: bool,
}

/// Why the arguments were refused; each variant carries the offending path.
pub enum ArgsError {
    /// The input image file does not exist.
    InputFileNotFound(String),
    /// The parameters file does not exist.
    ParamsFileNotFound(String),
    /// The plugin directory does not exist.
    PluginDirNotFound(String),
    /// The directory the output file would be written to does not exist.
    OutputDirNotFound(String),
}

/// The output path lies in a named directory that does not exist.
pub open spec fn output_dir_missing(checks: PathChecks) -> bool {
    &&& checks.output_parent is Some
    &&& checks.output_parent->0@.len() > 0
    &&& !checks.output_parent_is_dir
}

/// The outcome of checking `args` against `checks`: the first failing check,
/// in the order input file, parameters file, plugin directory, output
/// directory, or the arguments themselves.
pub open spec fn checked_args(args: Args, checks: PathChecks) -> Result<Args, ArgsError> {
    if !checks.input_is_file {
        Err(ArgsError::InputFileNotFound(args.input))
    } else if !checks.params_is_file {
        Err(ArgsError::ParamsFileNotFound(args.params))
    } else if !checks.plugin_path_is_dir {
        Err(ArgsError::PluginDirNotFound(args.plugin_path))
    } else if output_dir_missing(checks) {
        Err(ArgsError::OutputDirNotFound(checks.output_parent->0))
    } else {
        Ok(args)
    }
}

/// Checks the arguments against the file system, in order: the input file,
/// the parameters file, the plugin directory, then the output directory; the
/// first failure is reported. An output path without a directory part is
/// written to the current directory and always passes.
pub fn parse_args(args: Args, checks: &PathChecks) -> (res: Result<Args, ArgsError>)
    ensures
        !checks.input_is_file ==> res == Err::<Args, ArgsError>(
            ArgsError::InputFileNotFound(args.input),
        ),
        checks.input_is_file && !checks.params_is_file ==> res == Err::<Args, ArgsError>(
            ArgsError::ParamsFileNotFound(args.params),
        ),
        checks.input_is_file && checks.params_is_file && !checks.plugin_path_is_dir ==> res
            == Err::<Args, ArgsError>(ArgsError::PluginDirNotFound(args.plugin_path)),
        checks.input_is_file && checks.params_is_file && checks.plugin_path_is_dir
            && output_dir_missing(*checks) ==> res == Err::<Args, ArgsError>(
            ArgsError::OutputDirNotFound(checks.output_parent->0),
        ),
        checks.input_is_file && checks.params_is_file && checks.plugin_path_is_dir
            && !output_dir_missing(*checks) ==> res == Ok::<Args, ArgsError>(args),
        res == checked_args(args, *checks),
{
    if !checks.input_is_file {
        return Err(ArgsError::InputFileNotFound(args.input));
    }
    if !checks.params_is_file {
        return Err(ArgsError::ParamsFileNotFound(args.params));
    }
    if !checks.plugin_path_is_dir {
        return Err(ArgsError::PluginDirNotFound(args.plugin_path));
    }
    if let Some(parent) = &checks.output_parent {
        if !parent.as_str().is_empty() && !checks.output_parent_is_dir {
            return Err(ArgsError::OutputDirNotFound(parent.clone()));
        }
    }
    Ok(args)
}

/// The output check depends on nothing but whether the output has a
/// non-empty parent and whether that parent is a directory, whatever text the
/// parent holds: once the other three checks pass, a non-empty parent that is
/// not a directory is reported as the missing output directory, and every
/// other output path is accepted.
pub proof fn lemma_output_dir_check(args: Args, checks: PathChecks)
    requires
        checks.input_is_file,
        checks.params_is_file,
        checks.plugin_path_is_dir,
    ensures
        checks.output_parent is Some && checks.output_parent->0@.len() != 0
            && !checks.output_parent_is_dir ==> checked_args(args, checks) == Err::<
            Args,
            ArgsError,
        >(ArgsError::OutputDirNotFound(checks.output_parent->0)),
        checks.output_parent is None || checks.output_parent->0@.len() == 0
            || checks.output_parent_is_dir ==> checked_args(args, checks) == Ok::<Args, ArgsError>(
            args,
        ),
{
}

/// Each of the first three checks reports its own path as soon as it fails,
/// whatever the later checks would say.
pub proof fn lemma_first_failure_reported(args: Args, checks: PathChecks)
    ensures
        !checks.input_is_file ==> checked_args(args, checks) == Err::<Args, ArgsError>(
            ArgsError::InputFileNotFound(args.input),
        ),
        checks.input_is_file && !checks.params_is_file ==> checked_args(args, checks) == Err::<
            Args,
            ArgsError,
        >(ArgsError::ParamsFileNotFound(args.params)),
        checks.input_is_file && checks.params_is_file && !checks.plugin_path_is_dir
            ==> checked_args(args, checks) == Err::<Args, ArgsError>(
            ArgsError::PluginDirNotFound(args.plugin_path),
        ),
{
}

} // verus!
