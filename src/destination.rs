use vstd::prelude::*;
use vstd::string::*;
use crate::classify::{file_name, file_name_of, find_last, last_index_of, lemma_last_index_bounds};

verus! {

/// `target` appended to `base` as a path segment. An empty base leaves the
/// target as it is, and so does a target that is an absolute path; a
/// separator is put between the two only where `base` does not end in one.
pub open spec fn join_path(base: Seq<char>, target: Seq<char>) -> Seq<char> {
    if base.len() == 0 {
        target
    } else if target.len() > 0 && target[0] == '/' {
        target
    } else if base.last() == '/' {
        base + target
    } else {
        base + seq!['/'] + target
    }
}

/// The pieces of `s` between the occurrences of `sep`, in order, kept as they
/// are: `"jpg,png"` gives `jpg` and `png`, `""` gives one empty piece.
pub open spec fn split_on(s: Seq<char>, sep: char) -> Seq<Seq<char>>
    decreases s.len(),
{
    let i = last_index_of(s, sep);
    if 0 <= i < s.len() {
        split_on(s.subrange(0, i), sep).push(s.subrange(i + 1, s.len() as int))
    } else {
        seq![s]
    }
}

/// Where the files of a mapping entry go: `target` under `base`, or `target`
/// itself where `base` is empty.
pub fn resolve_destination(base: &str, target: &str) -> (r: String)
    ensures
        r@ == join_path(base@, target@),
{
    let bn = base.unicode_len();
    let tn = target.unicode_len();
    if bn == 0 {
        return target.to_owned();
    }
    if tn > 0 && target.get_char(0) == '/' {
        return target.to_owned();
    }
    let mut r = base.to_owned();
    if base.get_char(bn - 1) != '/' {
        proof {
            reveal_strlit("/");
        }
        r.append("/");
    }
    r.append(target);
    r
}

/// The path that `file` takes when it is moved into the directory `dir`: its
/// file name under `dir`.
pub fn move_target(dir: &str, file: &str) -> (r: String)
    ensures
        r@ == join_path(dir@, file_name_of(file@)),
{
    let name = file_name(file);
    resolve_destination(dir, name.as_str())
}

/// The extensions that a mapping key lists, split on `,` and kept verbatim.
pub fn split_extensions(key: &str) -> (r: Vec<String>)
    ensures
        r@.len() == split_on(key@, ',').len(),
        forall|i: int| 0 <= i < r@.len() ==> #[trigger] r@[i]@ == split_on(key@, ',')[i],
    decreases key@.len(),
{
    proof {
        lemma_last_index_bounds(key@, ',');
    }
    let n = key.unicode_len();
    match find_last(key, ',') {
        Some(i) => {
            let mut r = split_extensions(key.substring_char(0, i));
            let ghost before = r@;
            r.push(key.substring_char(i + 1, n).to_owned());
            assert forall|j: int| 0 <= j < r@.len() implies #[trigger] r@[j]@ == split_on(key@, ',')[j] by {
                if j < before.len() {
                    assert(r@[j] == before[j]);
                }
            }
            r
        },
        None => {
            let mut r: Vec<String> = Vec::new();
            r.push(key.to_owned());
            r
        },
    }
}

} // verus!
