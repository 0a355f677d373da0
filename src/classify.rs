use vstd::prelude::*;
use vstd::string::*;

verus! {

/// Index of the last occurrence of `c` in `s`, or -1 where `c` does not occur.
pub open spec fn last_index_of(s: Seq<char>, c: char) -> int
    decreases s.len(),
{
    if s.len() == 0 {
        -1
    } else if s.last() == c {
        s.len() - 1
    } else {
        last_index_of(s.drop_last(), c)
    }
}

/// The last component of a path: what follows its final `/`.
pub open spec fn file_name_of(path: Seq<char>) -> Seq<char> {
    path.subrange(last_index_of(path, '/') + 1, path.len() as int)
}

/// The extension of a path: what follows the final `.` of its file name, or
/// nothing where the file name holds no `.`. Upper and lower case are kept
/// as they are: `IMG.JPG` has the extension `JPG`.
pub open spec fn extension_of(path: Seq<char>) -> Option<Seq<char>> {
    let name = file_name_of(path);
    let dot = last_index_of(name, '.');
    if dot < 0 {
        None
    } else {
        Some(name.subrange(dot + 1, name.len() as int))
    }
}

/// The character sequences of a list of strings.
pub open spec fn views(v: Seq<String>) -> Seq<Seq<char>> {
    v.map_values(|s: String| s@)
}

/// The files of `files` whose extension is `ext`, in their order.
pub open spec fn with_extension(files: Seq<Seq<char>>, ext: Seq<char>) -> Seq<Seq<char>>
    decreases files.len(),
{
    if files.len() == 0 {
        Seq::empty()
    } else {
        let rest = with_extension(files.drop_last(), ext);
        if extension_of(files.last()) == Some(ext) {
            rest.push(files.last())
        } else {
            rest
        }
    }
}

/// The files that share one extension.
pub struct Bucket {
    pub extension: String,
    pub files: Vec<String>,
}

/// `buckets` groups `files` by extension: one bucket for each extension that
/// occurs, holding exactly the files with that extension, in their order.
pub open spec fn is_classification(buckets: Seq<Bucket>, files: Seq<Seq<char>>) -> bool {
    &&& forall|i: int, j: int|
        0 <= i < j < buckets.len() ==> buckets[i].extension@ != buckets[j].extension@
    &&& forall|i: int|
        0 <= i < buckets.len() ==> views(#[trigger] buckets[i].files@) == with_extension(
            files,
            buckets[i].extension@,
        )
    &&& forall|i: int| 0 <= i < buckets.len() ==> (#[trigger] buckets[i].files@).len() > 0
    &&& forall|k: int|
        0 <= k < files.len() && (#[trigger] extension_of(files[k])) is Some ==> exists|i: int|
            0 <= i < buckets.len() && Some(#[trigger] buckets[i].extension@) == extension_of(
                files[k],
            )
}

pub(crate) proof fn lemma_last_index_bounds(s: Seq<char>, c: char)
    ensures
        -1 <= last_index_of(s, c) < s.len(),
        last_index_of(s, c) >= 0 ==> s[last_index_of(s, c)] == c,
    decreases s.len(),
{
    if s.len() > 0 && s.last() != c {
        lemma_last_index_bounds(s.drop_last(), c);
    }
}

pub(crate) fn find_last(s: &str, c: char) -> (r: Option<usize>)
    ensures
        match r {
            Some(i) => i == last_index_of(s@, c),
            None => last_index_of(s@, c) == -1,
        },
{
    let n = s.unicode_len();
    let mut i: usize = n;
    assert(s@.subrange(0, n as int) =~= s@);
    while i > 0
        invariant
            i <= n,
            n == s@.len(),
            last_index_of(s@, c) == last_index_of(s@.subrange(0, i as int), c),
        decreases i,
    {
        let ch = s.get_char(i - 1);
        assert(s@.subrange(0, i as int).drop_last() =~= s@.subrange(0, i - 1));
        if ch == c {
            return Some(i - 1);
        }
        i = i - 1;
    }
    None
}

/// The file name of `path`: what follows its final `/`.
pub fn file_name(path: &str) -> (r: String)
    ensures
        r@ == file_name_of(path@),
{
    proof {
        lemma_last_index_bounds(path@, '/');
    }
    let n = path.unicode_len();
    let start: usize = match find_last(path, '/') {
        Some(i) => i + 1,
        None => 0,
    };
    path.substring_char(start, n).to_owned()
}

/// The extension of `path`, without its dot, where its file name holds a `.`.
pub fn extension(path: &str) -> (r: Option<String>)
    ensures
        match r {
            Some(e) => extension_of(path@) == Some(e@),
            None => extension_of(path@) is None,
        },
{
    let name = file_name(path);
    proof {
        lemma_last_index_bounds(name@, '.');
    }
    let n = name.as_str().unicode_len();
    match find_last(name.as_str(), '.') {
        Some(i) => Some(name.as_str().substring_char(i + 1, n).to_owned()),
        None => None,
    }
}

proof fn lemma_with_extension_push(files: Seq<Seq<char>>, f: Seq<char>, ext: Seq<char>)
    ensures
        with_extension(files.push(f), ext) == if extension_of(f) == Some(ext) {
            with_extension(files, ext).push(f)
        } else {
            with_extension(files, ext)
        },
{
    assert(files.push(f).drop_last() =~= files);
}

pub(crate) proof fn lemma_with_extension_nonempty(files: Seq<Seq<char>>, ext: Seq<char>)
    requires
        with_extension(files, ext).len() > 0,
    ensures
        exists|k: int| 0 <= k < files.len() && extension_of(files[k]) == Some(ext),
    decreases files.len(),
{
    if extension_of(files.last()) != Some(ext) {
        lemma_with_extension_nonempty(files.drop_last(), ext);
        let k = choose|k: int|
            0 <= k < files.drop_last().len() && extension_of(files.drop_last()[k]) == Some(ext);
        assert(files[k] == files.drop_last()[k]);
    }
}

/// Index of the bucket for `ext` in `buckets`, if there is one.
pub fn find_bucket(buckets: &Vec<Bucket>, ext: &String) -> (r: Option<usize>)
    ensures
        match r {
            Some(j) => j < buckets@.len() && buckets@[j as int].extension@ == ext@,
            None => forall|i: int| 0 <= i < buckets@.len() ==> buckets@[i].extension@ != ext@,
        },
{
    let mut j: usize = 0;
    while j < buckets.len()
        invariant
            j <= buckets@.len(),
            forall|i: int| 0 <= i < j ==> buckets@[i].extension@ != ext@,
        decreases buckets@.len() - j,
    {
        if buckets[j].extension == *ext {
            return Some(j);
        }
        j = j + 1;
    }
    None
}

/// Groups `files` by extension. Each extension that occurs gets one bucket,
/// which holds the files with that extension in their order; a file whose
/// name holds no `.` is in no bucket.
pub fn map_files_by_extension(files: Vec<String>) -> (buckets: Vec<Bucket>)
    ensures
        is_classification(buckets@, views(files@)),
{
    let ghost all = views(files@);
    let mut buckets: Vec<Bucket> = Vec::new();
    let mut k: usize = 0;
    assert(all.subrange(0, 0) =~= Seq::<Seq<char>>::empty());
    while k < files.len()
        invariant
            k <= files@.len(),
            all == views(files@),
            is_classification(buckets@, all.subrange(0, k as int)),
        decreases files@.len() - k,
    {
        let f = files[k].clone();
        let ghost prefix = all.subrange(0, k as int);
        assert(all.subrange(0, k + 1) =~= prefix.push(f@));
        proof {
            assert forall|e: Seq<char>|
                #![trigger with_extension(prefix.push(f@), e)]
                with_extension(prefix.push(f@), e) == if extension_of(f@) == Some(e) {
                    with_extension(prefix, e).push(f@)
                } else {
                    with_extension(prefix, e)
                } by {
                lemma_with_extension_push(prefix, f@, e);
            }
        }
        match extension(f.as_str()) {
            Some(e) => {
                match find_bucket(&buckets, &e) {
                    Some(j) => {
                        let ghost old_buckets = buckets@;
                        let mut b = buckets.remove(j);
                        b.files.push(f);
                        buckets.insert(j, b);
                        assert(buckets@ =~= old_buckets.update(j as int, b));
                        assert(views(b.files@) =~= views(old_buckets[j as int].files@).push(f@));
                        proof {
                            let pre = prefix.push(f@);
                            assert forall|k2: int|
                                0 <= k2 < pre.len() && (#[trigger] extension_of(pre[k2])) is Some implies exists|i: int|
                                0 <= i < buckets@.len() && Some(#[trigger] buckets@[i].extension@)
                                    == extension_of(pre[k2]) by {
                                if k2 < prefix.len() {
                                    assert(pre[k2] == prefix[k2]);
                                    let i = choose|i: int|
                                        0 <= i < old_buckets.len() && Some(
                                            #[trigger] old_buckets[i].extension@,
                                        ) == extension_of(prefix[k2]);
                                    assert(buckets@[i].extension@ == old_buckets[i].extension@);
                                } else {
                                    assert(buckets@[j as int].extension@ == e@);
                                }
                            }
                        }
                    },
                    None => {
                        let ghost old_buckets = buckets@;
                        proof {
                            if with_extension(prefix, e@).len() > 0 {
                                lemma_with_extension_nonempty(prefix, e@);
                            }
                        }
                        let mut fs: Vec<String> = Vec::new();
                        fs.push(f);
                        let b = Bucket { extension: e, files: fs };
                        buckets.push(b);
                        assert(views(b.files@) =~= with_extension(prefix, e@).push(f@));
                        proof {
                            let pre = prefix.push(f@);
                            assert forall|k2: int|
                                0 <= k2 < pre.len() && (#[trigger] extension_of(pre[k2])) is Some implies exists|i: int|
                                0 <= i < buckets@.len() && Some(#[trigger] buckets@[i].extension@)
                                    == extension_of(pre[k2]) by {
                                if k2 < prefix.len() {
                                    assert(pre[k2] == prefix[k2]);
                                    let i = choose|i: int|
                                        0 <= i < old_buckets.len() && Some(
                                            #[trigger] old_buckets[i].extension@,
                                        ) == extension_of(prefix[k2]);
                                    assert(buckets@[i].extension@ == old_buckets[i].extension@);
                                } else {
                                    let last = (buckets@.len() - 1) as int;
                                    assert(buckets@[last].extension@ == e@);
                                }
                            }
                        }
                    },
                }
            },
            None => {
                proof {
                    let pre = prefix.push(f@);
                    assert forall|k2: int|
                        0 <= k2 < pre.len() && (#[trigger] extension_of(pre[k2])) is Some implies exists|i: int|
                        0 <= i < buckets@.len() && Some(#[trigger] buckets@[i].extension@)
                            == extension_of(pre[k2]) by {
                        assert(pre[k2] == prefix[k2]);
                    }
                }
            },
        }
        k = k + 1;
    }
    assert(all.subrange(0, k as int) =~= all);
    buckets
}

pub(crate) proof fn lemma_with_extension_contains(files: Seq<Seq<char>>, ext: Seq<char>, f: Seq<char>)
    ensures
        with_extension(files, ext).contains(f) <==> files.contains(f) && extension_of(f) == Some(
            ext,
        ),
    decreases files.len(),
{
    if files.len() > 0 {
        let d = files.drop_last();
        lemma_with_extension_contains(d, ext, f);
        let rest = with_extension(d, ext);
        assert(files =~= d.push(files.last()));
        if files.contains(f) && f != files.last() {
            let k = choose|k: int| 0 <= k < files.len() && files[k] == f;
            assert(d[k] == f);
        }
        if extension_of(files.last()) == Some(ext) {
            if rest.push(files.last()).contains(f) && f != files.last() {
                let k = choose|k: int| 0 <= k < rest.len() + 1 && rest.push(files.last())[k] == f;
                assert(rest[k] == f);
            }
            if rest.contains(f) {
                let k = choose|k: int| 0 <= k < rest.len() && rest[k] == f;
                assert(rest.push(files.last())[k] == f);
            }
            assert(rest.push(files.last())[rest.len() as int] == files.last());
        }
        if d.contains(f) {
            let k = choose|k: int| 0 <= k < d.len() && d[k] == f;
            assert(files[k] == f);
        }
    }
}

/// Every file whose name holds a `.` is in exactly one bucket, the one of its
/// extension; a file whose name holds none is in no bucket.
pub proof fn lemma_classification_complete(buckets: Seq<Bucket>, files: Seq<Seq<char>>, k: int)
    requires
        is_classification(buckets, files),
        0 <= k < files.len(),
    ensures
        extension_of(files[k]) is Some ==> exists|i: int|
            0 <= i < buckets.len() && Some(buckets[i].extension@) == extension_of(files[k])
                && views(#[trigger] buckets[i].files@).contains(files[k]),
        forall|i: int|
            0 <= i < buckets.len() && views(#[trigger] buckets[i].files@).contains(files[k])
                ==> Some(buckets[i].extension@) == extension_of(files[k]),
        forall|i: int, j: int|
            0 <= i < buckets.len() && 0 <= j < buckets.len() && views(
                #[trigger] buckets[i].files@,
            ).contains(files[k]) && views(#[trigger] buckets[j].files@).contains(files[k]) ==> i
                == j,
{
    let f = files[k];
    assert(files.contains(f));
    assert forall|i: int| 0 <= i < buckets.len() implies views(
        #[trigger] buckets[i].files@,
    ).contains(f) == (Some(buckets[i].extension@) == extension_of(f)) by {
        lemma_with_extension_contains(files, buckets[i].extension@, f);
    }
    if extension_of(f) is Some {
        let i = choose|i: int|
            0 <= i < buckets.len() && Some(#[trigger] buckets[i].extension@) == extension_of(
                files[k],
            );
        assert(views(buckets[i].files@).contains(f));
    }
}

} // verus!
