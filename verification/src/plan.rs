//! What a run does once the contracts of the project are known: report
//! that there are none, list them, or deploy the one selected, with its
//! arguments from `--args`, from prompts, or none.

use vstd::prelude::*;
use crate::cli::Options;
use crate::contracts::ContractInfo;
use crate::select::{select_contract, matching, candidates, no_match_message, ambiguous_message};
use crate::text::append_str;
use crate::paths::{joined_path, path_join, path_strip_prefix};
use crate::discover::shown_path;
use crate::render::script_file_name;

verus! {

/// Where the constructor arguments come from.
pub enum ArgSource {
    /// The JSON array given with `--args`.
    Json(String),
    /// Asked for one by one.
    Prompt,
    /// The constructor takes none.
    NoArgs,
}

/// The next step of a run.
pub enum RunStep<'a> {
    /// No contract was found: the message to show.
    NoContracts(String),
    /// `--list`: show the contracts.
    ShowList,
    /// Deploy this contract, with arguments from this source.
    Deploy(&'a ContractInfo, ArgSource),
}

/// The message when the contracts directory `dir` holds no contract.
pub open spec fn no_contracts_message(dir: Seq<char>) -> Seq<char> {
    "No deployable contracts found under "@ + dir
}

/// The message when no contract is selected.
pub open spec fn missing_selection_message() -> Seq<char> {
    "Missing contract selection. Provide a contract name or path."@
}

/// What `select_contract` gives for `sel` among `cs`: the error message,
/// or the contract selected.
pub open spec fn selection_outcome(cs: Seq<ContractInfo>, sel: Seq<char>) -> Result<ContractInfo, Seq<char>> {
    if matching(cs, sel, cs.len() as int).len() == 0 {
        Err(no_match_message(sel))
    } else if candidates(cs, sel).len() > 1 {
        Err(ambiguous_message(sel, candidates(cs, sel)))
    } else {
        Ok(candidates(cs, sel)[0])
    }
}

/// The arguments come from `--args` where it is given; else from prompts
/// where the constructor takes any; else there are none.
pub open spec fn source_fits(src: ArgSource, args_json: Option<String>, c: ContractInfo) -> bool {
    match args_json {
        Some(j) => src matches ArgSource::Json(t) && t@ == j@,
        None => if c.constructor_params@.len() > 0 {
            src is Prompt
        } else {
            src is NoArgs
        },
    }
}

/// Where the arguments for `contract` come from (see `source_fits`).
pub fn arg_source(args_json: &Option<String>, contract: &ContractInfo) -> (r: ArgSource)
    ensures
        source_fits(r, *args_json, *contract),
{
    match args_json {
        Some(j) => ArgSource::Json(j.clone()),
        None => if contract.constructor_params.len() > 0 {
            ArgSource::Prompt
        } else {
            ArgSource::NoArgs
        },
    }
}

/// The step that follows discovery: with no contracts, the message naming
/// the contracts directory; with `--list`, the listing; without a
/// selection, an error; else the selected contract, or the error of the
/// selection, with where its arguments come from.
pub fn plan_run<'a>(contracts: &'a [ContractInfo], options: &Options) -> (r: Result<RunStep<'a>, String>)
    ensures
        contracts@.len() == 0 ==> (r matches Ok(RunStep::NoContracts(m)) && m@ == no_contracts_message(
            options.contracts_dir@,
        )),
        contracts@.len() > 0 && options.list ==> r matches Ok(RunStep::ShowList),
        contracts@.len() > 0 && !options.list && options.selection is None ==> (r matches Err(e)
            && e@ == missing_selection_message()),
        contracts@.len() > 0 && !options.list && options.selection is Some ==> match selection_outcome(
            contracts@,
            options.selection->Some_0@,
        ) {
            Err(m) => r matches Err(e) && e@ == m,
            Ok(c) => r matches Ok(RunStep::Deploy(d, src)) && *d == c && source_fits(
                src,
                options.args_json,
                c,
            ),
        },
{
    if contracts.len() == 0 {
        let mut m = String::from_str("No deployable contracts found under ");
        append_str(&mut m, options.contracts_dir.as_str());
        return Ok(RunStep::NoContracts(m));
    }
    if options.list {
        return Ok(RunStep::ShowList);
    }
    match &options.selection {
        None => Err(String::from_str("Missing contract selection. Provide a contract name or path.")),
        Some(sel) => match select_contract(contracts, sel.as_str()) {
            Err(e) => Err(e),
            Ok(c) => {
                let src = arg_source(&options.args_json, c);
                Ok(RunStep::Deploy(c, src))
            },
        },
    }
}

/// Where the script for the contract `name` is written, under `output_dir`
/// (`Path::join`), and that path as shown: relative to `root` where it lies
/// under it (see `shown_path`).
pub fn script_location(output_dir: &str, name: &str, root: &str) -> (r: (String, String))
    ensures
        r.0@ == joined_path(output_dir@, name@ + ".s.sol"@),
        r.1@ == shown_path(r.0@, root@),
{
    let file = script_file_name(name);
    let path = path_join(output_dir, file.as_str());
    let shown = match path_strip_prefix(path.as_str(), root) {
        Some(rel) => rel,
        None => path.clone(),
    };
    (path, shown)
}

} // verus!
