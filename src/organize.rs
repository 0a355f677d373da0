use vstd::prelude::*;
use crate::classify::{
    extension_of, find_bucket, is_classification, lemma_with_extension_contains,
    lemma_with_extension_nonempty,
    map_files_by_extension, views, with_extension,
};
use crate::config::{Config, Entry};
use crate::destination::{join_path, resolve_destination, split_extensions, split_on};

verus! {

/// A destination directory and the files to move into it.
pub type Step = (Seq<char>, Seq<Seq<char>>);

/// The steps of one mapping entry: for each extension it lists, in order, the
/// files with that extension, where there are any, all bound for `dest`.
pub open spec fn entry_transfers(
    dest: Seq<char>,
    exts: Seq<Seq<char>>,
    files: Seq<Seq<char>>,
) -> Seq<Step>
    decreases exts.len(),
{
    if exts.len() == 0 {
        Seq::empty()
    } else {
        let rest = entry_transfers(dest, exts.drop_last(), files);
        let group = with_extension(files, exts.last());
        if group.len() > 0 {
            rest.push((dest, group))
        } else {
            rest
        }
    }
}

/// The steps of a run over `files`: those of each mapping entry in turn, with
/// the entry's directory resolved against `base`.
pub open spec fn plan_of(base: Seq<char>, entries: Seq<Entry>, files: Seq<Seq<char>>) -> Seq<Step>
    decreases entries.len(),
{
    if entries.len() == 0 {
        Seq::empty()
    } else {
        let e = entries.last();
        plan_of(base, entries.drop_last(), files) + entry_transfers(
            join_path(base, e.1),
            split_on(e.0, ','),
            files,
        )
    }
}

/// Files bound for one directory.
pub struct Transfer {
    pub destination: String,
    pub files: Vec<String>,
}

/// The steps that a list of transfers stands for.
pub open spec fn transfer_views(v: Seq<Transfer>) -> Seq<Step> {
    v.map_values(|t: Transfer| (t.destination@, views(t.files@)))
}

fn copy_strings(v: &Vec<String>) -> (r: Vec<String>)
    ensures
        r@ == v@,
{
    let mut r: Vec<String> = Vec::new();
    let mut i: usize = 0;
    while i < v.len()
        invariant
            i <= v@.len(),
            r@ == v@.subrange(0, i as int),
        decreases v@.len() - i,
    {
        r.push(v[i].clone());
        assert(r@ =~= v@.subrange(0, i + 1));
        i = i + 1;
    }
    assert(v@.subrange(0, i as int) =~= v@);
    r
}

/// The moves that organizing `files` under `config` makes. For each mapping
/// entry, for each extension its key lists, the files with that extension go
/// to the entry's directory under the configured base; extensions that no
/// file has, and files whose extension no key lists, give no move.
pub fn plan_moves(config: &Config, files: Vec<String>) -> (r: Vec<Transfer>)
    ensures
        transfer_views(r@) == plan_of(config@.base, config@.mapping, views(files@)),
{
    let ghost fs = views(files@);
    let buckets = map_files_by_extension(files);
    let mapping = config.mapping();
    let ghost entries = config@.mapping;
    let mut plan: Vec<Transfer> = Vec::new();
    let mut k: usize = 0;
    while k < mapping.len()
        invariant
            k <= mapping@.len(),
            entries.len() == mapping@.len(),
            entries == config@.mapping,
            forall|i: int| 0 <= i < mapping@.len() ==> #[trigger] entries[i] == (mapping@[i].0@, mapping@[i].1@),
            is_classification(buckets@, fs),
            transfer_views(plan@) == plan_of(config@.base, entries.subrange(0, k as int), fs),
        decreases mapping@.len() - k,
    {
        let dest = resolve_destination(config.base().as_str(), mapping[k].1.as_str());
        let exts = split_extensions(mapping[k].0.as_str());
        let ghost tokens = split_on(entries[k as int].0, ',');
        let ghost start = plan@;
        assert(entries.subrange(0, k + 1).drop_last() =~= entries.subrange(0, k as int));
        let mut t: usize = 0;
        while t < exts.len()
            invariant
                k < mapping@.len(),
                t <= exts@.len(),
                exts@.len() == tokens.len(),
                forall|i: int| 0 <= i < exts@.len() ==> #[trigger] exts@[i]@ == tokens[i],
                is_classification(buckets@, fs),
                transfer_views(plan@) == transfer_views(start) + entry_transfers(
                    dest@,
                    tokens.subrange(0, t as int),
                    fs,
                ),
            decreases exts@.len() - t,
        {
            assert(tokens.subrange(0, t + 1).drop_last() =~= tokens.subrange(0, t as int));
            let ghost before = plan@;
            match find_bucket(&buckets, &exts[t]) {
                Some(j) => {
                    let step = Transfer {
                        destination: dest.clone(),
                        files: copy_strings(&buckets[j].files),
                    };
                    plan.push(step);
                    assert(transfer_views(plan@) =~= transfer_views(before).push(
                        (dest@, with_extension(fs, tokens[t as int])),
                    ));
                },
                None => {
                    proof {
                        if with_extension(fs, tokens[t as int]).len() > 0 {
                            lemma_with_extension_nonempty(fs, tokens[t as int]);
                        }
                    }
                },
            }
            t = t + 1;
        }
        assert(tokens.subrange(0, t as int) =~= tokens);
        k = k + 1;
    }
    assert(entries.subrange(0, k as int) =~= entries);
    plan
}

proof fn lemma_entry_nothing(dest: Seq<char>, exts: Seq<Seq<char>>, files: Seq<Seq<char>>)
    requires
        forall|k: int, t: int|
            0 <= k < files.len() && 0 <= t < exts.len() ==> #[trigger] extension_of(files[k]) != Some(
                #[trigger] exts[t],
            ),
    ensures
        entry_transfers(dest, exts, files).len() == 0,
    decreases exts.len(),
{
    if exts.len() > 0 {
        let d = exts.drop_last();
        assert forall|k: int, t: int|
            0 <= k < files.len() && 0 <= t < d.len() implies #[trigger] extension_of(files[k]) != Some(
            #[trigger] d[t],
        ) by {
            assert(d[t] == exts[t]);
        }
        lemma_entry_nothing(dest, d, files);
        if with_extension(files, exts.last()).len() > 0 {
            lemma_with_extension_nonempty(files, exts.last());
            assert(exts.last() == exts[exts.len() - 1]);
        }
    }
}

/// A run over files of which none has an extension that a mapping key lists,
/// as when an earlier run has moved them all, makes no move.
pub proof fn lemma_nothing_to_move(base: Seq<char>, entries: Seq<Entry>, files: Seq<Seq<char>>)
    requires
        forall|k: int, i: int, t: int|
            0 <= k < files.len() && 0 <= i < entries.len() && 0 <= t < split_on(
                entries[i].0,
                ',',
            ).len() ==> #[trigger] extension_of(files[k]) != Some(
                #[trigger] split_on(entries[i].0, ',')[t],
            ),
    ensures
        plan_of(base, entries, files).len() == 0,
    decreases entries.len(),
{
    if entries.len() > 0 {
        let d = entries.drop_last();
        assert forall|k: int, i: int, t: int|
            0 <= k < files.len() && 0 <= i < d.len() && 0 <= t < split_on(d[i].0, ',').len()
                implies #[trigger] extension_of(files[k]) != Some(
            #[trigger] split_on(d[i].0, ',')[t],
        ) by {
            assert(d[i] == entries[i]);
        }
        lemma_nothing_to_move(base, d, files);
        let e = entries[entries.len() - 1];
        let exts = split_on(e.0, ',');
        assert forall|k: int, t: int|
            0 <= k < files.len() && 0 <= t < exts.len() implies #[trigger] extension_of(files[k]) != Some(
            #[trigger] exts[t],
        ) by {
            assert(entries[entries.len() - 1] == e);
        }
        lemma_entry_nothing(join_path(base, e.1), exts, files);
    }
}

/// `f` is among the files of some step of `plan`.
pub open spec fn is_planned(plan: Seq<Step>, f: Seq<char>) -> bool {
    exists|s: int| 0 <= s < plan.len() && (#[trigger] plan[s]).1.contains(f)
}

/// The files of `files` that no step of `plan` moves, in their order.
pub open spec fn left_over(files: Seq<Seq<char>>, plan: Seq<Step>) -> Seq<Seq<char>>
    decreases files.len(),
{
    if files.len() == 0 {
        Seq::empty()
    } else {
        let rest = left_over(files.drop_last(), plan);
        if is_planned(plan, files.last()) {
            rest
        } else {
            rest.push(files.last())
        }
    }
}

proof fn lemma_left_over_contains(files: Seq<Seq<char>>, plan: Seq<Step>, f: Seq<char>)
    requires
        left_over(files, plan).contains(f),
    ensures
        files.contains(f),
        !is_planned(plan, f),
    decreases files.len(),
{
    let d = files.drop_last();
    let rest = left_over(d, plan);
    if rest.contains(f) {
        lemma_left_over_contains(d, plan, f);
        let k = choose|k: int| 0 <= k < d.len() && d[k] == f;
        assert(files[k] == f);
    } else {
        let k = choose|k: int| 0 <= k < left_over(files, plan).len() && left_over(files, plan)[k] == f;
        if k < rest.len() {
            assert(rest.push(files.last())[k] == rest[k]);
        }
        assert(f == files.last());
        assert(files[files.len() - 1] == f);
    }
}

proof fn lemma_entry_has_step(dest: Seq<char>, exts: Seq<Seq<char>>, files: Seq<Seq<char>>, t: int)
    requires
        0 <= t < exts.len(),
        with_extension(files, exts[t]).len() > 0,
    ensures
        entry_transfers(dest, exts, files).contains((dest, with_extension(files, exts[t]))),
    decreases exts.len(),
{
    let d = exts.drop_last();
    let rest = entry_transfers(dest, d, files);
    let step = (dest, with_extension(files, exts[t]));
    if t < exts.len() - 1 {
        assert(d[t] == exts[t]);
        lemma_entry_has_step(dest, d, files, t);
        let j = choose|j: int| 0 <= j < rest.len() && rest[j] == step;
        if with_extension(files, exts.last()).len() > 0 {
            assert(rest.push((dest, with_extension(files, exts.last())))[j] == step);
        }
    } else {
        assert(exts.last() == exts[t]);
        assert(rest.push(step)[rest.len() as int] == step);
    }
}

proof fn lemma_plan_has_entry_steps(
    base: Seq<char>,
    entries: Seq<Entry>,
    files: Seq<Seq<char>>,
    i: int,
    step: Step,
)
    requires
        0 <= i < entries.len(),
        entry_transfers(join_path(base, entries[i].1), split_on(entries[i].0, ','), files).contains(
            step,
        ),
    ensures
        plan_of(base, entries, files).contains(step),
    decreases entries.len(),
{
    let d = entries.drop_last();
    let front = plan_of(base, d, files);
    let e = entries.last();
    let back = entry_transfers(join_path(base, e.1), split_on(e.0, ','), files);
    if i < entries.len() - 1 {
        assert(d[i] == entries[i]);
        lemma_plan_has_entry_steps(base, d, files, i, step);
        let j = choose|j: int| 0 <= j < front.len() && front[j] == step;
        assert((front + back)[j] == step);
    } else {
        assert(e == entries[i]);
        let j = choose|j: int| 0 <= j < back.len() && back[j] == step;
        assert((front + back)[front.len() + j] == step);
    }
}

/// Organizing twice: the files that a run leaves where they were give a
/// second run nothing to move.
pub proof fn lemma_second_run_moves_nothing(
    base: Seq<char>,
    entries: Seq<Entry>,
    files: Seq<Seq<char>>,
)
    ensures
        plan_of(base, entries, left_over(files, plan_of(base, entries, files))).len() == 0,
{
    let plan = plan_of(base, entries, files);
    let rest = left_over(files, plan);
    assert forall|k: int, i: int, t: int|
        0 <= k < rest.len() && 0 <= i < entries.len() && 0 <= t < split_on(entries[i].0, ',').len()
            implies #[trigger] extension_of(rest[k]) != Some(
        #[trigger] split_on(entries[i].0, ',')[t],
    ) by {
        let exts = split_on(entries[i].0, ',');
        let f = rest[k];
        if extension_of(f) == Some(exts[t]) {
            assert(rest.contains(f));
            lemma_left_over_contains(files, plan, f);
            lemma_with_extension_contains(files, exts[t], f);
            let group = with_extension(files, exts[t]);
            let g = choose|g: int| 0 <= g < group.len() && group[g] == f;
            let dest = join_path(base, entries[i].1);
            lemma_entry_has_step(dest, exts, files, t);
            lemma_plan_has_entry_steps(base, entries, files, i, (dest, group));
            let s = choose|s: int| 0 <= s < plan.len() && plan[s] == (dest, group);
            assert(plan[s].1.contains(f));
        }
    }
    lemma_nothing_to_move(base, entries, rest);
}

} // verus!
