//! Choosing the contract that the user names, and ordering paths.

use vstd::prelude::*;
use crate::text::{join, views, chars_of, append_str, join_strings, same_chars};
use crate::contracts::ContractInfo;
use crate::params::opt_view;
use crate::paths::{
    PathPart, PartView, part_views, components_of, compare_paths, compare_component_lists,
    same_components, path_components, forward_slashes, replace_backslashes, file_name_of,
    file_name, lemma_path_order_facts, lemma_path_le_trans,
};

verus! {

/// Whether the path with components `a` comes no later than the one with
/// components `b`.
pub open spec fn path_le(a: Seq<PartView>, b: Seq<PartView>) -> bool {
    compare_paths(a, b) <= 0
}

/// `order` (sorted by key) with `x` put after every element whose key is
/// no greater than that of `x`.
pub open spec fn insert_stable(order: Seq<int>, x: int, keys: Seq<Seq<PartView>>) -> Seq<int>
    decreases order.len(),
{
    if order.len() == 0 {
        seq![x]
    } else if path_le(keys[order.last()], keys[x]) {
        order.push(x)
    } else {
        insert_stable(order.drop_last(), x, keys).push(order.last())
    }
}

/// The positions `0..n` ordered by their keys, positions with equal keys
/// in their own order: the order of a stable sort.
pub open spec fn stable_order(keys: Seq<Seq<PartView>>, n: nat) -> Seq<int>
    decreases n,
{
    if n == 0 {
        Seq::empty()
    } else {
        insert_stable(stable_order(keys, (n - 1) as nat), n - 1, keys)
    }
}

proof fn lemma_insert_at(order: Seq<int>, x: int, keys: Seq<Seq<PartView>>, j: int)
    requires
        0 <= j <= order.len(),
        forall|k: int| j <= k < order.len() ==> !path_le(keys[#[trigger] order[k]], keys[x]),
        j == 0 || path_le(keys[order[j - 1]], keys[x]),
    ensures
        insert_stable(order, x, keys) == order.insert(j, x),
    decreases order.len(),
{
    if order.len() == 0 {
        assert(order.insert(j, x) =~= seq![x]);
    } else if j == order.len() {
        assert(order.insert(j, x) =~= order.push(x));
    } else {
        assert(!path_le(keys[order[order.len() - 1]], keys[x]));
        let d = order.drop_last();
        assert forall|k: int| j <= k < d.len() implies !path_le(keys[#[trigger] d[k]], keys[x]) by {
            assert(d[k] == order[k]);
        }
        lemma_insert_at(d, x, keys, j);
        assert(d.insert(j, x).push(order.last()) =~= order.insert(j, x));
    }
}

/// The positions of the paths `keys` in stable sorted order.
pub fn sorted_positions(keys: &Vec<Vec<PathPart>>) -> (order: Vec<usize>)
    ensures
        order@.map_values(|i: usize| i as int) == stable_order(
            keys@.map_values(|c: Vec<PathPart>| part_views(c@)),
            keys@.len(),
        ),
        forall|k: int| 0 <= k < order@.len() ==> #[trigger] order@[k] < keys@.len(),
{
    let ghost kv = keys@.map_values(|c: Vec<PathPart>| part_views(c@));
    let mut order: Vec<usize> = Vec::new();
    let mut x: usize = 0;
    while x < keys.len()
        invariant
            x <= keys@.len(),
            kv == keys@.map_values(|c: Vec<PathPart>| part_views(c@)),
            order@.map_values(|i: usize| i as int) == stable_order(kv, x as nat),
            forall|k: int| 0 <= k < order@.len() ==> #[trigger] order@[k] < x,
        decreases keys.len() - x,
    {
        let ghost ov = order@.map_values(|i: usize| i as int);
        let mut j = order.len();
        while j > 0 && compare_component_lists(&keys[order[j - 1]], &keys[x]) > 0
            invariant
                j <= order@.len(),
                x < keys@.len(),
                kv == keys@.map_values(|c: Vec<PathPart>| part_views(c@)),
                ov == order@.map_values(|i: usize| i as int),
                forall|k: int| 0 <= k < order@.len() ==> #[trigger] order@[k] < x,
                forall|k: int| j <= k < ov.len() ==> !path_le(kv[#[trigger] ov[k]], kv[x as int]),
            decreases j,
        {
            assert(kv[ov[j - 1]] == part_views(keys@[order@[j - 1] as int]@));
            j = j - 1;
        }
        proof {
            if j > 0 {
                assert(kv[ov[j - 1]] == part_views(keys@[order@[j - 1] as int]@));
            }
            lemma_insert_at(ov, x as int, kv, j as int);
        }
        order.insert(j, x);
        assert(order@.map_values(|i: usize| i as int) =~= ov.insert(j as int, x as int));
        x = x + 1;
    }
    order
}

/// The paths in stable sorted order (the order of `Path`: by components).
pub fn sort_paths(paths: &Vec<String>) -> (r: Vec<String>)
    ensures
        views(r@) == stable_order(
            views(paths@).map_values(|p: Seq<char>| components_of(p)),
            paths@.len(),
        ).map_values(|i: int| paths@[i]@),
{
    let mut keys: Vec<Vec<PathPart>> = Vec::new();
    let mut i: usize = 0;
    while i < paths.len()
        invariant
            i <= paths@.len(),
            keys@.map_values(|c: Vec<PathPart>| part_views(c@)) == views(paths@).subrange(0, i as int).map_values(
                |p: Seq<char>| components_of(p),
            ),
        decreases paths.len() - i,
    {
        let ghost before = keys@;
        let comps = path_components(paths[i].as_str());
        keys.push(comps);
        assert(keys@ == before.push(comps));
        assert(keys@.map_values(|c: Vec<PathPart>| part_views(c@)) =~= before.map_values(
            |c: Vec<PathPart>| part_views(c@),
        ).push(part_views(comps@)));
        assert(views(paths@).subrange(0, i + 1).map_values(|p: Seq<char>| components_of(p))
            =~= views(paths@).subrange(0, i as int).map_values(|p: Seq<char>| components_of(p)).push(
            components_of(paths@[i as int]@),
        ));
        i = i + 1;
    }
    assert(views(paths@).subrange(0, paths@.len() as int) =~= views(paths@));
    let order = sorted_positions(&keys);
    let ghost ov = order@.map_values(|k: usize| k as int);
    let mut out: Vec<String> = Vec::new();
    let mut k: usize = 0;
    while k < order.len()
        invariant
            k <= order@.len(),
            ov == order@.map_values(|q: usize| q as int),
            forall|q: int| 0 <= q < order@.len() ==> #[trigger] order@[q] < paths@.len(),
            keys@.len() == paths@.len(),
            views(out@) == ov.subrange(0, k as int).map_values(|q: int| paths@[q]@),
        decreases order.len() - k,
    {
        let ghost before = out@;
        let p = paths[order[k]].clone();
        out.push(p);
        assert(out@ == before.push(p));
        assert(views(out@) =~= views(before).push(p@));
        assert(ov.subrange(0, k + 1).map_values(|q: int| paths@[q]@) =~= ov.subrange(0, k as int).map_values(
            |q: int| paths@[q]@,
        ).push(paths@[ov[k as int]]@));
        k = k + 1;
    }
    assert(ov.subrange(0, order@.len() as int) =~= ov);
    out
}

/// Whether `c`, whose path has the components `comps`, is the contract
/// that `sel` names: by its name, by its path (with `\` read as `/`), or by
/// its file name, the last of `comps`.
pub open spec fn selects_with(c: ContractInfo, comps: Seq<PartView>, sel: Seq<char>) -> bool {
    let norm = forward_slashes(sel);
    ||| c.name@ == sel
    ||| c.name@ == norm
    ||| forward_slashes(c.relative_path@) == norm
    ||| match file_name_of(comps) {
        Some(f) => f == sel || f == norm,
        None => false,
    }
}

/// Whether `c` is the contract that `sel` names, over the components that
/// std reads in its path (see `selects_with`).
pub open spec fn selects(c: ContractInfo, sel: Seq<char>) -> bool {
    selects_with(c, components_of(c.relative_path@), sel)
}

/// The positions of the contracts among `cs[..n]` that `sel` names, in order.
pub open spec fn matching(cs: Seq<ContractInfo>, sel: Seq<char>, n: int) -> Seq<int>
    decreases n,
{
    if n <= 0 {
        Seq::empty()
    } else if selects(cs[n - 1], sel) {
        matching(cs, sel, n - 1).push(n - 1)
    } else {
        matching(cs, sel, n - 1)
    }
}

/// Whether two contracts have the same path (by components) and name.
pub open spec fn same_entry(a: ContractInfo, b: ContractInfo) -> bool {
    components_of(a.relative_path@) == components_of(b.relative_path@) && a.name@ == b.name@
}

/// `s` with each element that equals the one kept before it dropped
/// (`Vec::dedup_by`).
pub open spec fn dedup_entries(s: Seq<ContractInfo>) -> Seq<ContractInfo>
    decreases s.len(),
{
    if s.len() <= 1 {
        s
    } else {
        let d = dedup_entries(s.drop_last());
        if same_entry(d.last(), s.last()) {
            d
        } else {
            d.push(s.last())
        }
    }
}

/// The matching contracts of `cs` for `sel`, sorted by path (stably) and
/// without repeated path and name.
pub open spec fn candidates(cs: Seq<ContractInfo>, sel: Seq<char>) -> Seq<ContractInfo> {
    let m = matching(cs, sel, cs.len() as int);
    let ms = m.map_values(|i: int| cs[i]);
    let keys = ms.map_values(|c: ContractInfo| components_of(c.relative_path@));
    dedup_entries(stable_order(keys, ms.len()).map_values(|p: int| ms[p]))
}

/// How a candidate is shown in the message for several matches.
pub open spec fn candidate_text(c: ContractInfo) -> Seq<char> {
    c.name@ + " ("@ + c.relative_path@ + ")"@
}

/// The message when nothing matches `sel`.
pub open spec fn no_match_message(sel: Seq<char>) -> Seq<char> {
    "No contract matching '"@ + sel + "' was found"@
}

/// The message when several different contracts match `sel`.
pub open spec fn ambiguous_message(sel: Seq<char>, cands: Seq<ContractInfo>) -> Seq<char> {
    "Multiple contracts matched '"@ + sel + "'. Be more specific: "@ + join(
        cands.map_values(|c: ContractInfo| candidate_text(c)),
        ", "@,
    )
}

/// Whether `c` is the contract that `sel` names (see `selects`).
fn is_selected(c: &ContractInfo, sel: &str) -> (b: bool)
    ensures
        b == selects(*c, sel@),
{
    let comps = path_components(c.relative_path.as_str());
    selects_by_parts(c, &comps, sel)
}

/// Whether `c`, whose path has the components `comps`, is the contract
/// that `sel` names (see `selects_with`).
pub fn selects_by_parts(c: &ContractInfo, comps: &Vec<PathPart>, sel: &str) -> (b: bool)
    ensures
        b == selects_with(*c, part_views(comps@), sel@),
{
    let norm = replace_backslashes(sel);
    let name = chars_of(c.name.as_str());
    let s = chars_of(sel);
    let n = chars_of(norm.as_str());
    if same_chars(&name, &s) || same_chars(&name, &n) {
        return true;
    }
    let p = replace_backslashes(c.relative_path.as_str());
    let pc = chars_of(p.as_str());
    if same_chars(&pc, &n) {
        return true;
    }
    match file_name(comps) {
        Some(f) => {
            let fc = chars_of(f.as_str());
            same_chars(&fc, &s) || same_chars(&fc, &n)
        },
        None => false,
    }
}

/// The positions of the contracts that `selection` names, in order.
fn matching_positions(contracts: &[ContractInfo], selection: &str) -> (ms: Vec<usize>)
    ensures
        ms@.map_values(|q: usize| q as int) == matching(contracts@, selection@, contracts@.len() as int),
        forall|q: int| 0 <= q < ms@.len() ==> #[trigger] ms@[q] < contracts@.len(),
{
    let ghost cs = contracts@;
    let mut ms: Vec<usize> = Vec::new();
    let mut i: usize = 0;
    while i < contracts.len()
        invariant
            i <= contracts@.len(),
            cs == contracts@,
            ms@.map_values(|q: usize| q as int) == matching(cs, selection@, i as int),
            forall|q: int| 0 <= q < ms@.len() ==> #[trigger] ms@[q] < i,
        decreases contracts.len() - i,
    {
        if is_selected(&contracts[i], selection) {
            let ghost before = ms@;
            ms.push(i);
            assert(ms@ == before.push(i));
            assert(ms@.map_values(|q: usize| q as int) =~= before.map_values(|q: usize| q as int).push(
                i as int,
            ));
        }
        i = i + 1;
    }
    ms
}

/// The path components of the contracts at the positions `ms`.
fn path_keys(contracts: &[ContractInfo], ms: &Vec<usize>) -> (keys: Vec<Vec<PathPart>>)
    requires
        forall|q: int| 0 <= q < ms@.len() ==> #[trigger] ms@[q] < contracts@.len(),
    ensures
        keys@.map_values(|c: Vec<PathPart>| part_views(c@)) == ms@.map_values(
            |q: usize| components_of(contracts@[q as int].relative_path@),
        ),
{
    let ghost want = ms@.map_values(|q: usize| components_of(contracts@[q as int].relative_path@));
    let mut keys: Vec<Vec<PathPart>> = Vec::new();
    let mut k: usize = 0;
    while k < ms.len()
        invariant
            k <= ms@.len(),
            forall|q: int| 0 <= q < ms@.len() ==> #[trigger] ms@[q] < contracts@.len(),
            want == ms@.map_values(|q: usize| components_of(contracts@[q as int].relative_path@)),
            keys@.map_values(|c: Vec<PathPart>| part_views(c@)) == want.subrange(0, k as int),
        decreases ms.len() - k,
    {
        let ghost before = keys@;
        let comps = path_components(contracts[ms[k]].relative_path.as_str());
        keys.push(comps);
        assert(keys@ == before.push(comps));
        assert(keys@.map_values(|c: Vec<PathPart>| part_views(c@)) =~= before.map_values(
            |c: Vec<PathPart>| part_views(c@),
        ).push(part_views(comps@)));
        assert(want.subrange(0, k + 1) =~= want.subrange(0, k as int).push(want[k as int]));
        k = k + 1;
    }
    assert(want.subrange(0, ms@.len() as int) =~= want);
    keys
}

/// Whether two contracts have the same path (by components) and name.
fn same_entry_exec(a: &ContractInfo, b: &ContractInfo) -> (r: bool)
    ensures
        r == same_entry(*a, *b),
{
    let ac = path_components(a.relative_path.as_str());
    let bc = path_components(b.relative_path.as_str());
    let an = chars_of(a.name.as_str());
    let bn = chars_of(b.name.as_str());
    same_components(&ac, &bc) && same_chars(&an, &bn)
}

/// The positions `sorted` without the entries that repeat the one kept
/// before them.
fn dedup_positions(contracts: &[ContractInfo], sorted: &Vec<usize>) -> (kept: Vec<usize>)
    requires
        forall|q: int| 0 <= q < sorted@.len() ==> #[trigger] sorted@[q] < contracts@.len(),
    ensures
        forall|q: int| 0 <= q < kept@.len() ==> #[trigger] kept@[q] < contracts@.len(),
        kept@.map_values(|q: usize| contracts@[q as int]) == dedup_entries(
            sorted@.map_values(|q: usize| contracts@[q as int]),
        ),
{
    let ghost cs = contracts@;
    let ghost all = sorted@.map_values(|q: usize| cs[q as int]);
    let mut kept: Vec<usize> = Vec::new();
    let mut t: usize = 0;
    while t < sorted.len()
        invariant
            t <= sorted@.len(),
            cs == contracts@,
            all == sorted@.map_values(|q: usize| cs[q as int]),
            forall|q: int| 0 <= q < sorted@.len() ==> #[trigger] sorted@[q] < contracts@.len(),
            forall|q: int| 0 <= q < kept@.len() ==> #[trigger] kept@[q] < contracts@.len(),
            kept@.map_values(|q: usize| cs[q as int]) == dedup_entries(all.subrange(0, t as int)),
        decreases sorted.len() - t,
    {
        let idx = sorted[t];
        let ghost before = kept@;
        let ghost d = dedup_entries(all.subrange(0, t as int));
        assert(all.subrange(0, t + 1).drop_last() =~= all.subrange(0, t as int));
        assert(all.subrange(0, t + 1).last() == cs[idx as int]);
        let keep = if kept.len() == 0 {
            true
        } else {
            !same_entry_exec(&contracts[kept[kept.len() - 1]], &contracts[idx])
        };
        if keep {
            kept.push(idx);
            assert(kept@ == before.push(idx));
            assert(kept@.map_values(|q: usize| cs[q as int]) =~= before.map_values(
                |q: usize| cs[q as int],
            ).push(cs[idx as int]));
        }
        proof {
            if t == 0 {
                assert(all.subrange(0, 1) =~= seq![cs[idx as int]]);
                assert(all.subrange(0, 0) =~= Seq::<ContractInfo>::empty());
            } else {
                lemma_dedup_nonempty(all.subrange(0, t as int));
            }
        }
        t = t + 1;
    }
    assert(all.subrange(0, sorted@.len() as int) =~= all);
    kept
}

/// The message listing the candidates at positions `kept`.
fn ambiguity_message(contracts: &[ContractInfo], kept: &Vec<usize>, selection: &str) -> (m: String)
    requires
        forall|q: int| 0 <= q < kept@.len() ==> #[trigger] kept@[q] < contracts@.len(),
    ensures
        m@ == ambiguous_message(selection@, kept@.map_values(|q: usize| contracts@[q as int])),
{
    let ghost cands = kept@.map_values(|q: usize| contracts@[q as int]);
    let ghost want = cands.map_values(|c: ContractInfo| candidate_text(c));
    let mut entries: Vec<String> = Vec::new();
    let mut e: usize = 0;
    while e < kept.len()
        invariant
            e <= kept@.len(),
            forall|q: int| 0 <= q < kept@.len() ==> #[trigger] kept@[q] < contracts@.len(),
            cands == kept@.map_values(|q: usize| contracts@[q as int]),
            want == cands.map_values(|c: ContractInfo| candidate_text(c)),
            views(entries@) == want.subrange(0, e as int),
        decreases kept.len() - e,
    {
        let c = &contracts[kept[e]];
        let mut s = c.name.clone();
        append_str(&mut s, " (");
        append_str(&mut s, c.relative_path.as_str());
        append_str(&mut s, ")");
        let ghost before = entries@;
        entries.push(s);
        assert(entries@ == before.push(s));
        assert(views(entries@) =~= views(before).push(s@));
        assert(want.subrange(0, e + 1) =~= want.subrange(0, e as int).push(want[e as int]));
        e = e + 1;
    }
    assert(want.subrange(0, kept@.len() as int) =~= want);
    let joined = join_strings(&entries, ", ");
    let mut m = String::from_str("Multiple contracts matched '");
    append_str(&mut m, selection);
    append_str(&mut m, "'. Be more specific: ");
    append_str(&mut m, joined.as_str());
    m
}

/// The contract that `selection` names among `contracts`: refused where
/// none matches, or where the matches (sorted by path, repeats of path and
/// name dropped) are more than one; else the first match in path order.
pub fn select_contract<'a>(contracts: &'a [ContractInfo], selection: &str) -> (r: Result<
    &'a ContractInfo,
    String,
>)
    ensures
        matching(contracts@, selection@, contracts@.len() as int).len() == 0 ==> (r matches Err(e)
            && e@ == no_match_message(selection@)),
        matching(contracts@, selection@, contracts@.len() as int).len() > 0 && candidates(
            contracts@,
            selection@,
        ).len() > 1 ==> (r matches Err(e) && e@ == ambiguous_message(
            selection@,
            candidates(contracts@, selection@),
        )),
        matching(contracts@, selection@, contracts@.len() as int).len() > 0 && candidates(
            contracts@,
            selection@,
        ).len() <= 1 ==> (r matches Ok(c) && *c == candidates(contracts@, selection@)[0]),
{
    let ghost cs = contracts@;
    let ms = matching_positions(contracts, selection);
    if ms.len() == 0 {
        let mut m = String::from_str("No contract matching '");
        append_str(&mut m, selection);
        append_str(&mut m, "' was found");
        return Err(m);
    }
    let ghost mv = ms@.map_values(|q: usize| q as int);
    let ghost msv = mv.map_values(|q: int| cs[q]);
    let keys = path_keys(contracts, &ms);
    assert(ms@.map_values(|q: usize| components_of(cs[q as int].relative_path@)) =~= msv.map_values(
        |c: ContractInfo| components_of(c.relative_path@),
    ));
    let order = sorted_positions(&keys);
    let mut sorted: Vec<usize> = Vec::new();
    let mut t: usize = 0;
    while t < order.len()
        invariant
            t <= order@.len(),
            forall|q: int| 0 <= q < order@.len() ==> #[trigger] order@[q] < ms@.len(),
            forall|q: int| 0 <= q < ms@.len() ==> #[trigger] ms@[q] < contracts@.len(),
            forall|q: int| 0 <= q < sorted@.len() ==> #[trigger] sorted@[q] < contracts@.len(),
            sorted@ == order@.subrange(0, t as int).map_values(|p: usize| ms@[p as int]),
        decreases order.len() - t,
    {
        let ghost before = sorted@;
        sorted.push(ms[order[t]]);
        assert(sorted@ =~= order@.subrange(0, t + 1).map_values(|p: usize| ms@[p as int]));
        t = t + 1;
    }
    assert(order@.subrange(0, order@.len() as int) =~= order@);
    assert(sorted@.map_values(|q: usize| cs[q as int]) =~= stable_order(
        msv.map_values(|c: ContractInfo| components_of(c.relative_path@)),
        msv.len(),
    ).map_values(|p: int| msv[p]));
    let kept = dedup_positions(contracts, &sorted);
    if kept.len() > 1 {
        return Err(ambiguity_message(contracts, &kept, selection));
    }
    proof {
        lemma_dedup_nonempty(sorted@.map_values(|q: usize| cs[q as int]));
    }
    Ok(&contracts[kept[0]])
}

proof fn lemma_dedup_nonempty(s: Seq<ContractInfo>)
    ensures
        s.len() > 0 ==> dedup_entries(s).len() > 0,
    decreases s.len(),
{
    if s.len() > 1 {
        lemma_dedup_nonempty(s.drop_last());
    }
}

} // verus!
verus! {

proof fn lemma_matching_named(cs: Seq<ContractInfo>, sel: Seq<char>, n: int)
    requires
        n <= cs.len(),
    ensures
        forall|i: int|
            0 <= i < matching(cs, sel, n).len() ==> {
                let q = #[trigger] matching(cs, sel, n)[i];
                0 <= q < n && selects(cs[q], sel)
            },
    decreases n,
{
    if n > 0 {
        lemma_matching_named(cs, sel, n - 1);
        let prev = matching(cs, sel, n - 1);
        assert forall|i: int| 0 <= i < matching(cs, sel, n).len() implies {
            let q = #[trigger] matching(cs, sel, n)[i];
            0 <= q < n && selects(cs[q], sel)
        } by {
            if i < prev.len() {
                assert(matching(cs, sel, n)[i] == prev[i]);
            }
        }
    }
}

proof fn lemma_insert_stable_range(order: Seq<int>, x: int, keys: Seq<Seq<PartView>>, n: int)
    requires
        0 <= x < n,
        forall|i: int| 0 <= i < order.len() ==> 0 <= #[trigger] order[i] < n,
    ensures
        forall|i: int|
            0 <= i < insert_stable(order, x, keys).len() ==> 0 <= #[trigger] insert_stable(
                order,
                x,
                keys,
            )[i] < n,
    decreases order.len(),
{
    let r = insert_stable(order, x, keys);
    if order.len() == 0 {
        assert(r == seq![x]);
    } else if path_le(keys[order.last()], keys[x]) {
        assert(r == order.push(x));
        assert forall|i: int| 0 <= i < r.len() implies 0 <= #[trigger] r[i] < n by {
            if i < order.len() {
                assert(r[i] == order[i]);
            }
        }
    } else {
        let d = order.drop_last();
        lemma_insert_stable_range(d, x, keys, n);
        let inner = insert_stable(d, x, keys);
        assert(r == inner.push(order.last()));
        assert forall|i: int| 0 <= i < r.len() implies 0 <= #[trigger] r[i] < n by {
            if i < inner.len() {
                assert(r[i] == inner[i]);
            } else {
                assert(r[i] == order[order.len() - 1]);
            }
        }
    }
}

proof fn lemma_stable_order_range(keys: Seq<Seq<PartView>>, n: nat)
    ensures
        forall|i: int|
            0 <= i < stable_order(keys, n).len() ==> 0 <= #[trigger] stable_order(keys, n)[i] < n,
    decreases n,
{
    if n > 0 {
        lemma_stable_order_range(keys, (n - 1) as nat);
        lemma_insert_stable_range(stable_order(keys, (n - 1) as nat), n - 1, keys, n as int);
    }
}

/// Whether `c` is an element of `s`.
pub open spec fn drawn_from(c: ContractInfo, s: Seq<ContractInfo>) -> bool {
    exists|j: int| 0 <= j < s.len() && s[j] == c
}

proof fn lemma_dedup_from(s: Seq<ContractInfo>)
    ensures
        forall|i: int| 0 <= i < dedup_entries(s).len() ==> drawn_from(#[trigger] dedup_entries(s)[i], s),
    decreases s.len(),
{
    if s.len() > 1 {
        lemma_dedup_from(s.drop_last());
        let d = dedup_entries(s.drop_last());
        assert forall|i: int| 0 <= i < dedup_entries(s).len() implies drawn_from(
            #[trigger] dedup_entries(s)[i],
            s,
        ) by {
            if i < d.len() {
                assert(dedup_entries(s)[i] == d[i]);
                assert(drawn_from(d[i], s.drop_last()));
                let j = choose|j: int| 0 <= j < s.drop_last().len() && s.drop_last()[j] == d[i];
                assert(s[j] == dedup_entries(s)[i]);
            } else {
                assert(s[s.len() - 1] == dedup_entries(s)[i]);
            }
        }
    } else {
        assert forall|i: int| 0 <= i < dedup_entries(s).len() implies drawn_from(
            #[trigger] dedup_entries(s)[i],
            s,
        ) by {
            assert(s[i] == dedup_entries(s)[i]);
        }
    }
}

/// Every candidate for a selection is one of the contracts, and one that
/// the selection names (by name, path or file name); so the contract that
/// `select_contract` returns is always one that the user named.
pub proof fn lemma_candidates_are_named(cs: Seq<ContractInfo>, sel: Seq<char>)
    ensures
        forall|i: int|
            0 <= i < candidates(cs, sel).len() ==> {
                let c = #[trigger] candidates(cs, sel)[i];
                &&& selects(c, sel)
                &&& drawn_from(c, cs)
            },
{
    let m = matching(cs, sel, cs.len() as int);
    let ms = m.map_values(|i: int| cs[i]);
    let keys = ms.map_values(|c: ContractInfo| components_of(c.relative_path@));
    let order = stable_order(keys, ms.len());
    let sorted = order.map_values(|p: int| ms[p]);
    lemma_matching_named(cs, sel, cs.len() as int);
    lemma_stable_order_range(keys, ms.len());
    lemma_dedup_from(sorted);
    assert forall|i: int| 0 <= i < candidates(cs, sel).len() implies {
        let c = #[trigger] candidates(cs, sel)[i];
        &&& selects(c, sel)
        &&& drawn_from(c, cs)
    } by {
        let c = candidates(cs, sel)[i];
        assert(drawn_from(c, sorted));
        let j = choose|j: int| 0 <= j < sorted.len() && sorted[j] == c;
        let p = order[j];
        assert(0 <= p < ms.len());
        let q = m[p];
        assert(ms[p] == cs[q]);
        assert(selects(cs[q], sel));
    }
}

} // verus!

verus! {

/// `order` lists its positions in key order.
pub open spec fn sorted_by_keys(order: Seq<int>, keys: Seq<Seq<PartView>>) -> bool {
    forall|i: int, j: int|
        0 <= i < j < order.len() ==> path_le(keys[#[trigger] order[i]], keys[#[trigger] order[j]])
}

/// `p` occurs in `order`.
pub open spec fn listed(order: Seq<int>, p: int) -> bool {
    exists|i: int| 0 <= i < order.len() && order[i] == p
}

proof fn lemma_insert_stable_members(order: Seq<int>, x: int, keys: Seq<Seq<PartView>>)
    ensures
        insert_stable(order, x, keys).len() == order.len() + 1,
        listed(insert_stable(order, x, keys), x),
        forall|p: int| listed(order, p) ==> listed(insert_stable(order, x, keys), p),
        forall|i: int|
            0 <= i < insert_stable(order, x, keys).len() ==> (#[trigger] insert_stable(
                order,
                x,
                keys,
            )[i] == x || listed(order, insert_stable(order, x, keys)[i])),
    decreases order.len(),
{
    let r = insert_stable(order, x, keys);
    if order.len() == 0 {
        assert(r[0] == x);
    } else if path_le(keys[order.last()], keys[x]) {
        assert(r == order.push(x));
        assert(r[order.len() as int] == x);
        assert forall|p: int| listed(order, p) implies listed(r, p) by {
            let i = choose|i: int| 0 <= i < order.len() && order[i] == p;
            assert(r[i] == p);
        }
        assert forall|i: int| 0 <= i < r.len() implies (#[trigger] r[i] == x || listed(order, r[i])) by {
            if i < order.len() {
                assert(r[i] == order[i]);
            }
        }
    } else {
        let d = order.drop_last();
        let inner = insert_stable(d, x, keys);
        lemma_insert_stable_members(d, x, keys);
        assert(r == inner.push(order.last()));
        let wx = choose|i: int| 0 <= i < inner.len() && inner[i] == x;
        assert(r[wx] == x);
        assert forall|p: int| listed(order, p) implies listed(r, p) by {
            let i = choose|i: int| 0 <= i < order.len() && order[i] == p;
            if i == order.len() - 1 {
                assert(r[inner.len() as int] == p);
            } else {
                assert(d[i] == p);
                assert(listed(d, p));
                let k = choose|k: int| 0 <= k < inner.len() && inner[k] == p;
                assert(r[k] == p);
            }
        }
        assert forall|i: int| 0 <= i < r.len() implies (#[trigger] r[i] == x || listed(order, r[i])) by {
            if i < inner.len() {
                assert(r[i] == inner[i]);
                if inner[i] != x {
                    assert(listed(d, inner[i]));
                    let k = choose|k: int| 0 <= k < d.len() && d[k] == inner[i];
                    assert(order[k] == r[i]);
                }
            } else {
                assert(r[i] == order[order.len() - 1]);
            }
        }
    }
}

proof fn lemma_insert_stable_sorted(order: Seq<int>, x: int, keys: Seq<Seq<PartView>>)
    requires
        sorted_by_keys(order, keys),
    ensures
        sorted_by_keys(insert_stable(order, x, keys), keys),
    decreases order.len(),
{
    let r = insert_stable(order, x, keys);
    if order.len() == 0 {
    } else if path_le(keys[order.last()], keys[x]) {
        assert(r == order.push(x));
        assert forall|i: int, j: int| 0 <= i < j < r.len() implies path_le(
            keys[#[trigger] r[i]],
            keys[#[trigger] r[j]],
        ) by {
            if j == order.len() {
                if i < order.len() - 1 {
                    assert(path_le(keys[order[i]], keys[order[order.len() - 1]]));
                    lemma_path_le_trans(keys[order[i]], keys[order[order.len() - 1]], keys[x]);
                }
            } else {
                assert(r[i] == order[i] && r[j] == order[j]);
            }
        }
    } else {
        let d = order.drop_last();
        let last = order.last();
        let inner = insert_stable(d, x, keys);
        assert(sorted_by_keys(d, keys)) by {
            assert forall|i: int, j: int| 0 <= i < j < d.len() implies path_le(
                keys[#[trigger] d[i]],
                keys[#[trigger] d[j]],
            ) by {
                assert(d[i] == order[i] && d[j] == order[j]);
            }
        }
        lemma_insert_stable_sorted(d, x, keys);
        lemma_insert_stable_members(d, x, keys);
        lemma_path_order_facts(keys[last], keys[x]);
        assert(r == inner.push(last));
        assert forall|i: int, j: int| 0 <= i < j < r.len() implies path_le(
            keys[#[trigger] r[i]],
            keys[#[trigger] r[j]],
        ) by {
            if j == inner.len() {
                assert(r[j] == last);
                assert(r[i] == inner[i]);
                if inner[i] != x {
                    assert(listed(d, inner[i]));
                    let k = choose|k: int| 0 <= k < d.len() && d[k] == inner[i];
                    assert(order[k] == inner[i]);
                    assert(path_le(keys[order[k]], keys[order[order.len() - 1]]));
                }
            } else {
                assert(r[i] == inner[i] && r[j] == inner[j]);
            }
        }
    }
}

/// The order that a stable sort gives: every position below `n` once, and
/// the keys in order.
pub proof fn lemma_stable_order_sorts(keys: Seq<Seq<PartView>>, n: nat)
    ensures
        stable_order(keys, n).len() == n,
        forall|p: int| 0 <= p < n ==> listed(stable_order(keys, n), p),
        sorted_by_keys(stable_order(keys, n), keys),
    decreases n,
{
    if n > 0 {
        let prev = stable_order(keys, (n - 1) as nat);
        lemma_stable_order_sorts(keys, (n - 1) as nat);
        lemma_insert_stable_members(prev, n - 1, keys);
        lemma_insert_stable_sorted(prev, n - 1, keys);
        assert forall|p: int| 0 <= p < n implies listed(stable_order(keys, n), p) by {
            if p < n - 1 {
                assert(listed(prev, p));
            }
        }
    }
}

/// `i` is the first position of `cs` whose contract `sel` names.
pub open spec fn first_match(cs: Seq<ContractInfo>, sel: Seq<char>, i: int) -> bool {
    &&& 0 <= i < cs.len()
    &&& selects(cs[i], sel)
    &&& forall|k: int| 0 <= k < i ==> !selects(#[trigger] cs[k], sel)
}

/// Every two contracts of `cs` that `sel` names have the same path and name.
pub open spec fn one_entry_named(cs: Seq<ContractInfo>, sel: Seq<char>) -> bool {
    forall|i: int, j: int|
        0 <= i < cs.len() && 0 <= j < cs.len() && selects(#[trigger] cs[i], sel) && selects(
            #[trigger] cs[j],
            sel,
        ) ==> same_entry(cs[i], cs[j])
}

proof fn lemma_matching_complete(cs: Seq<ContractInfo>, sel: Seq<char>, n: int)
    requires
        0 <= n <= cs.len(),
    ensures
        forall|i: int|
            0 <= i < n && selects(#[trigger] cs[i], sel) ==> exists|j: int|
                0 <= j < matching(cs, sel, n).len() && matching(cs, sel, n)[j] == i,
        matching(cs, sel, n).len() > 0 ==> first_match(cs, sel, matching(cs, sel, n)[0]),
    decreases n,
{
    if n > 0 {
        lemma_matching_complete(cs, sel, n - 1);
        lemma_matching_named(cs, sel, n);
        let prev = matching(cs, sel, n - 1);
        let cur = matching(cs, sel, n);
        assert forall|i: int| 0 <= i < n && selects(#[trigger] cs[i], sel) implies exists|j: int|
            0 <= j < cur.len() && cur[j] == i by {
            if i < n - 1 {
                let j = choose|j: int| 0 <= j < prev.len() && prev[j] == i;
                assert(cur[j] == prev[j]);
            } else {
                assert(cur[cur.len() - 1] == i);
            }
        }
        if cur.len() > 0 {
            if prev.len() > 0 {
                assert(cur[0] == prev[0]);
            } else {
                assert(cur[0] == n - 1);
                assert forall|k: int| 0 <= k < n - 1 implies !selects(#[trigger] cs[k], sel) by {
                    if selects(cs[k], sel) {
                        let j = choose|j: int| 0 <= j < prev.len() && prev[j] == k;
                    }
                }
            }
        }
    }
}

proof fn lemma_dedup_one(s: Seq<ContractInfo>)
    requires
        s.len() > 0,
    ensures
        dedup_entries(s).len() >= 1,
        dedup_entries(s)[0] == s[0],
        dedup_entries(s).len() == 1 <==> forall|j: int| 0 <= j < s.len() ==> same_entry(s[0], #[trigger] s[j]),
    decreases s.len(),
{
    if s.len() > 1 {
        let p = s.drop_last();
        lemma_dedup_one(p);
        let d = dedup_entries(p);
        assert(p[0] == s[0]);
        if d.len() == 1 {
            assert(d.last() == s[0]);
            if same_entry(s[0], s.last()) {
                assert forall|j: int| 0 <= j < s.len() implies same_entry(s[0], #[trigger] s[j]) by {
                    if j < p.len() {
                        assert(same_entry(s[0], p[j]));
                    }
                }
            } else {
                assert(!same_entry(s[0], s[s.len() - 1]));
            }
        } else {
            let j = choose|j: int| 0 <= j < p.len() && !same_entry(s[0], #[trigger] p[j]);
            assert(s[j] == p[j]);
        }
    }
}

proof fn lemma_order_identity(keys: Seq<Seq<PartView>>, n: nat)
    requires
        n <= keys.len(),
        forall|i: int| 0 <= i < n ==> #[trigger] keys[i] == keys[0],
    ensures
        stable_order(keys, n) == Seq::new(n, |i: int| i),
    decreases n,
{
    if n > 0 {
        lemma_order_identity(keys, (n - 1) as nat);
        let prev = stable_order(keys, (n - 1) as nat);
        if n > 1 {
            assert(prev.last() == n - 2);
            assert(keys[n - 2] == keys[n - 1]);
            lemma_path_order_facts(keys[n - 2], keys[n - 1]);
        }
        assert(prev.push(n - 1) =~= Seq::new(n, |i: int| i));
    }
}

/// A selection is answered with a contract exactly when some contract is
/// named and all the contracts named have one path and one name; the
/// contract given is then the first one named.
pub proof fn lemma_selection_unique_and_first(cs: Seq<ContractInfo>, sel: Seq<char>)
    ensures
        (matching(cs, sel, cs.len() as int).len() > 0 && candidates(cs, sel).len() <= 1) <==> (
        (exists|i: int| first_match(cs, sel, i)) && one_entry_named(cs, sel)),
        matching(cs, sel, cs.len() as int).len() > 0 && candidates(cs, sel).len() <= 1 ==> (
        exists|i: int| first_match(cs, sel, i) && candidates(cs, sel)[0] == cs[i]),
{
    let m = matching(cs, sel, cs.len() as int);
    let ms = m.map_values(|i: int| cs[i]);
    let keys = ms.map_values(|c: ContractInfo| components_of(c.relative_path@));
    let order = stable_order(keys, ms.len());
    let sorted = order.map_values(|p: int| ms[p]);
    lemma_matching_named(cs, sel, cs.len() as int);
    lemma_matching_complete(cs, sel, cs.len() as int);
    lemma_stable_order_range(keys, ms.len());
    lemma_stable_order_sorts(keys, ms.len());
    if m.len() == 0 {
        if exists|i: int| first_match(cs, sel, i) {
            let i = choose|i: int| first_match(cs, sel, i);
            assert(selects(cs[i], sel));
        }
    } else {
        assert(first_match(cs, sel, m[0]));
        lemma_dedup_one(sorted);
        assert(candidates(cs, sel) == dedup_entries(sorted));
        // every sorted entry is a named contract
        assert forall|x: int| 0 <= x < sorted.len() implies selects(#[trigger] sorted[x], sel) && drawn_from(sorted[x], cs) by {
            let p = order[x];
            assert(0 <= p < ms.len());
            assert(sorted[x] == cs[m[p]]);
        }
        if candidates(cs, sel).len() <= 1 {
            assert forall|i: int, j: int|
                0 <= i < cs.len() && 0 <= j < cs.len() && selects(#[trigger] cs[i], sel) && selects(
                    #[trigger] cs[j],
                    sel,
                ) implies same_entry(cs[i], cs[j]) by {
                let a = choose|a: int| 0 <= a < m.len() && m[a] == i;
                let b = choose|b: int| 0 <= b < m.len() && m[b] == j;
                assert(listed(order, a));
                assert(listed(order, b));
                let x = choose|x: int| 0 <= x < order.len() && order[x] == a;
                let y = choose|y: int| 0 <= y < order.len() && order[y] == b;
                assert(sorted[x] == cs[i]);
                assert(sorted[y] == cs[j]);
                assert(same_entry(sorted[0], sorted[x]));
                assert(same_entry(sorted[0], sorted[y]));
            }
            assert forall|k: int| 0 <= k < ms.len() implies #[trigger] keys[k] == keys[0] by {
                assert(ms[k] == cs[m[k]]);
                assert(ms[0] == cs[m[0]]);
                assert(same_entry(cs[m[0]], cs[m[k]]));
            }
            lemma_order_identity(keys, ms.len());
            assert(order[0] == 0);
            assert(candidates(cs, sel)[0] == cs[m[0]]);
        } else {
            if one_entry_named(cs, sel) {
                assert forall|j: int| 0 <= j < sorted.len() implies same_entry(sorted[0], #[trigger] sorted[j]) by {
                    let x = choose|x: int| 0 <= x < cs.len() && cs[x] == sorted[0];
                    let y = choose|y: int| 0 <= y < cs.len() && cs[y] == sorted[j];
                    assert(selects(sorted[0], sel));
                    assert(selects(sorted[j], sel));
                    assert(same_entry(cs[x], cs[y]));
                }
            }
        }
    }
}

/// The text equals the selection, as given or with `\` read as `/`.
pub open spec fn equals_selection(text: Seq<char>, sel: Seq<char>) -> bool {
    text == sel || text == forward_slashes(sel)
}

/// A contract is named by a selection exactly when its name, its path with
/// `\` read as `/`, or its file name (the last component, where that is a
/// name) equals the selection as given or with `\` read as `/`; a name that
/// only begins or ends with the selection does not name it.
pub proof fn lemma_selection_is_by_equality(c: ContractInfo, comps: Seq<PartView>, sel: Seq<char>)
    ensures
        selects_with(c, comps, sel) <==> {
            ||| equals_selection(c.name@, sel)
            ||| forward_slashes(c.relative_path@) == forward_slashes(sel)
            ||| (comps.len() > 0 && comps.last() is Normal && equals_selection(comps.last()->Normal_0, sel))
        },
        selects(c, sel) <==> selects_with(c, components_of(c.relative_path@), sel),
{
}

/// Every candidate of a selection has a name, path or file name equal to
/// the selection (see `lemma_selection_is_by_equality`).
pub proof fn lemma_candidates_equal_selection(cs: Seq<ContractInfo>, sel: Seq<char>)
    ensures
        forall|i: int|
            0 <= i < candidates(cs, sel).len() ==> {
                let c = #[trigger] candidates(cs, sel)[i];
                let comps = components_of(c.relative_path@);
                ||| equals_selection(c.name@, sel)
                ||| forward_slashes(c.relative_path@) == forward_slashes(sel)
                ||| (comps.len() > 0 && comps.last() is Normal && equals_selection(comps.last()->Normal_0, sel))
            },
{
    lemma_candidates_are_named(cs, sel);
    assert forall|i: int| 0 <= i < candidates(cs, sel).len() implies {
        let c = #[trigger] candidates(cs, sel)[i];
        let comps = components_of(c.relative_path@);
        ||| equals_selection(c.name@, sel)
        ||| forward_slashes(c.relative_path@) == forward_slashes(sel)
        ||| (comps.len() > 0 && comps.last() is Normal && equals_selection(comps.last()->Normal_0, sel))
    } by {
        let c = candidates(cs, sel)[i];
        lemma_selection_is_by_equality(c, components_of(c.relative_path@), sel);
    }
}

} // verus!
