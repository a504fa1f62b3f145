//! Contract discovery over the Solidity files of a project: which files
//! count as Solidity sources, in which order they are read, and the
//! metadata kept for each contract found in them.

use vstd::prelude::*;
use crate::text::{lower, chars_of, to_ascii_lower};
use crate::contracts::{
    ContractInfo, ContractView, ContractParser, StringWalkerParser, ParsedContract,
    contract_views, found_contracts, pragma_of, extract_pragma,
};
use crate::params::{opt_view, param_views};
use crate::paths::{prefix_stripped, path_strip_prefix};

verus! {

/// A Solidity file: its path and its text.
#[derive(Clone, Debug)]
pub struct SourceFile {
    pub path: String,
    pub source: String,
}

/// A discovered contract as plain values.
pub struct InfoView {
    pub name: Seq<char>,
    pub absolute_path: Seq<char>,
    pub relative_path: Seq<char>,
    pub params: Seq<crate::params::ParamView>,
    pub pragma: Option<Seq<char>>,
}

/// The plain values of a discovered contract.
pub open spec fn info_view(c: ContractInfo) -> InfoView {
    InfoView {
        name: c.name@,
        absolute_path: c.absolute_path@,
        relative_path: c.relative_path@,
        params: param_views(c.constructor_params@),
        pragma: opt_view(c.pragma),
    }
}

/// The views of a sequence of discovered contracts.
pub open spec fn info_views(v: Seq<ContractInfo>) -> Seq<InfoView> {
    v.map_values(|c: ContractInfo| info_view(c))
}

/// The path of a file as shown: relative to `root` where it lies under it.
pub open spec fn shown_path(path: Seq<char>, root: Seq<char>) -> Seq<char> {
    match prefix_stripped(path, root) {
        Some(rel) => rel,
        None => path,
    }
}

/// The contracts of one file, each with the file's paths and pragma.
pub open spec fn file_contracts(root: Seq<char>, path: Seq<char>, source: Seq<char>) -> Seq<InfoView> {
    found_contracts(source).map_values(
        |c: ContractView|
            InfoView {
                name: c.name,
                absolute_path: path,
                relative_path: shown_path(path, root),
                params: c.params,
                pragma: pragma_of(source),
            },
    )
}

/// The contracts of the files `files`, file by file.
pub open spec fn files_contracts(root: Seq<char>, files: Seq<SourceFile>) -> Seq<InfoView>
    decreases files.len(),
{
    if files.len() == 0 {
        Seq::empty()
    } else {
        files_contracts(root, files.drop_last()) + file_contracts(
            root,
            files.last().path@,
            files.last().source@,
        )
    }
}

/// The contracts found in `files` by `parser`, in file order and in order
/// within a file (see `files_contracts`).
pub fn discover_contracts_with_parser(
    root: &str,
    files: &[SourceFile],
    parser: &StringWalkerParser,
) -> (r: Result<Vec<ContractInfo>, String>)
    ensures
        r matches Ok(v) && info_views(v@) == files_contracts(root@, files@),
{
    let mut contracts: Vec<ContractInfo> = Vec::new();
    let mut i: usize = 0;
    while i < files.len()
        invariant
            i <= files@.len(),
            info_views(contracts@) == files_contracts(root@, files@.subrange(0, i as int)),
        decreases files.len() - i,
    {
        let file = &files[i];
        let relative = match path_strip_prefix(file.path.as_str(), root) {
            Some(rel) => rel,
            None => file.path.clone(),
        };
        let pragma = extract_pragma(file.source.as_str());
        let parsed = match parser.parse(file.source.as_str()) {
            Ok(p) => p,
            Err(e) => return Err(e),
        };
        let ghost start = info_views(contracts@);
        let ghost want = file_contracts(root@, file.path@, file.source@);
        let mut k: usize = 0;
        while k < parsed.len()
            invariant
                k <= parsed@.len(),
                contract_views(parsed@) == found_contracts(file.source@),
                relative@ == shown_path(file.path@, root@),
                opt_view(pragma) == pragma_of(file.source@),
                want == file_contracts(root@, file.path@, file.source@),
                info_views(contracts@) == start + want.subrange(0, k as int),
            decreases parsed.len() - k,
        {
            let item = parsed[k].clone();
            let ghost before = contracts@;
            assert(contract_views(parsed@)[k as int] == parsed@[k as int]@);
            let info = ContractInfo {
                name: parsed[k].name.clone(),
                absolute_path: file.path.clone(),
                relative_path: relative.clone(),
                constructor_params: clone_params(&parsed[k].constructor_params),
                pragma: clone_opt(&pragma),
            };
            contracts.push(info);
            assert(contracts@ == before.push(info));
            assert(info_views(contracts@) =~= info_views(before).push(info_view(info)));
            assert(want.subrange(0, k + 1) =~= want.subrange(0, k as int).push(want[k as int]));
            k = k + 1;
        }
        assert(want.subrange(0, parsed@.len() as int) =~= want);
        assert(files@.subrange(0, i + 1).drop_last() =~= files@.subrange(0, i as int));
        i = i + 1;
    }
    assert(files@.subrange(0, files@.len() as int) =~= files@);
    Ok(contracts)
}

/// A copy of the parameters `ps`.
fn clone_params(ps: &Vec<crate::params::ConstructorParam>) -> (r: Vec<crate::params::ConstructorParam>)
    ensures
        param_views(r@) == param_views(ps@),
{
    let mut out: Vec<crate::params::ConstructorParam> = Vec::new();
    let mut i: usize = 0;
    while i < ps.len()
        invariant
            i <= ps@.len(),
            param_views(out@) == param_views(ps@).subrange(0, i as int),
        decreases ps.len() - i,
    {
        let p = crate::params::ConstructorParam { raw: ps[i].raw.clone(), name: clone_opt(&ps[i].name) };
        let ghost before = out@;
        out.push(p);
        assert(out@ == before.push(p));
        assert(param_views(out@) =~= param_views(before).push(p@));
        assert(param_views(ps@).subrange(0, i + 1) =~= param_views(ps@).subrange(0, i as int).push(
            ps@[i as int]@,
        ));
        i = i + 1;
    }
    assert(param_views(ps@).subrange(0, ps@.len() as int) =~= param_views(ps@));
    out
}

/// A copy of an optional string.
fn clone_opt(o: &Option<String>) -> (r: Option<String>)
    ensures
        opt_view(r) == opt_view(*o),
{
    match o {
        Some(s) => Some(s.clone()),
        None => None,
    }
}

/// Whether the file name `name` has the extension `sol`, in any ASCII case
/// (`Path::extension`): its last `.` has `sol` after it and is not its
/// first character.
pub open spec fn has_sol_extension(name: Seq<char>) -> bool {
    let n = name.len() as int;
    n >= 5 && name[n - 4] == '.' && lower(name[n - 3]) == 's' && lower(name[n - 2]) == 'o'
        && lower(name[n - 1]) == 'l'
}

/// Whether the file named `name` is a Solidity source (see `has_sol_extension`).
pub fn is_solidity_file(name: &str) -> (b: bool)
    ensures
        b == has_sol_extension(name@),
{
    let c = chars_of(name);
    let n = c.len();
    if n < 5 || c[n - 4] != '.' {
        return false;
    }
    to_ascii_lower(c[n - 3]) == 's' && to_ascii_lower(c[n - 2]) == 'o' && to_ascii_lower(c[n - 1])
        == 'l'
}

} // verus!
