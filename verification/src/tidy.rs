//! The directory-tidy helper's decision logic: grouping files by
//! content hash, electing the file to keep inside a group, and
//! computing the relative path from one file to another under their
//! common root. Walking the filesystem and creating the links happens
//! outside the library.

use vstd::prelude::*;

verus! {

/// Lexicographic order on character sequences, by code point.
pub open spec fn spec_str_lt(a: Seq<char>, b: Seq<char>) -> bool
    decreases a.len(),
{
    if b.len() == 0 {
        false
    } else if a.len() == 0 {
        true
    } else if a[0] == b[0] {
        spec_str_lt(a.skip(1), b.skip(1))
    } else {
        (a[0] as u32) < (b[0] as u32)
    }
}

/// The order is irreflexive and asymmetric.
pub proof fn lemma_str_lt_connex(a: Seq<char>, b: Seq<char>)
    ensures
        !(spec_str_lt(a, b) && spec_str_lt(b, a)),
    decreases a.len(),
{
    if b.len() > 0 && a.len() > 0 && a[0] == b[0] {
        lemma_str_lt_connex(a.skip(1), b.skip(1));
    }
}

/// The order is transitive.
pub proof fn lemma_str_lt_trans(a: Seq<char>, b: Seq<char>, c: Seq<char>)
    requires
        spec_str_lt(a, b),
        spec_str_lt(b, c),
    ensures
        spec_str_lt(a, c),
    decreases a.len(),
{
    if a.len() == 0 {
    } else {
        if a[0] == b[0] && b[0] == c[0] {
            lemma_str_lt_trans(a.skip(1), b.skip(1), c.skip(1));
        }
    }
}

/// Lexicographic comparison of two strings, by code point.
pub fn str_lt(a: &str, b: &str) -> (r: bool)
    ensures
        r == spec_str_lt(a@, b@),
{
    let an = a.unicode_len();
    let bn = b.unicode_len();
    proof {
        assert(a@.skip(0) =~= a@);
        assert(b@.skip(0) =~= b@);
    }
    let mut i: usize = 0;
    while i < an && i < bn
        invariant
            i <= an,
            i <= bn,
            an == a@.len(),
            bn == b@.len(),
            spec_str_lt(a@, b@) == spec_str_lt(a@.skip(i as int), b@.skip(i as int)),
        decreases an - i,
    {
        let ca = a.get_char(i);
        let cb = b.get_char(i);
        proof {
            assert(a@.skip(i as int)[0] == a@[i as int]);
            assert(b@.skip(i as int)[0] == b@[i as int]);
            assert(a@.skip(i as int).skip(1) =~= a@.skip(i + 1));
            assert(b@.skip(i as int).skip(1) =~= b@.skip(i + 1));
        }
        if ca != cb {
            return (ca as u32) < (cb as u32);
        }
        i += 1;
    }
    proof {
        assert(a@.skip(i as int).len() == an - i);
        assert(b@.skip(i as int).len() == bn - i);
    }
    an < bn
}

/// The end of the common prefix of two component lists, scanning from
/// position `i`.
pub open spec fn common_from(a: Seq<String>, b: Seq<String>, i: int) -> int
    decreases a.len() + b.len() - i,
{
    if i < 0 || i >= a.len() || i >= b.len() {
        i
    } else if a[i]@ == b[i]@ {
        common_from(a, b, i + 1)
    } else {
        i
    }
}

/// The length of the common prefix of two component lists.
pub open spec fn common_prefix_len(a: Seq<String>, b: Seq<String>) -> int {
    common_from(a, b, 0)
}

/// The duplicate-file tidy helper. Its cache groups file paths and
/// their creation dates by content hash.
pub struct TidyManager {
    map_cache: Vec<(String, Vec<(String, String)>)>,
}

impl TidyManager {
    /// The cached groups: hash, then the files carrying it.
    pub closed spec fn spec_cache(&self) -> Seq<(String, Vec<(String, String)>)> {
        self.map_cache@
    }

    /// An empty tidy helper.
    pub fn new() -> (r: TidyManager)
        ensures
            r.spec_cache().len() == 0,
    {
        TidyManager { map_cache: Vec::new() }
    }

    /// Elect the file to keep in a group: the one with the newest
    /// creation date under `keep_new`, else the oldest; the earliest
    /// such file wins ties. Returns its position.
    pub fn find_extreme_file(&self, file_infos: &Vec<(String, String)>, keep_new: bool) -> (r:
        usize)
        requires
            file_infos@.len() > 0,
        ensures
            r < file_infos@.len(),
            keep_new ==> forall|j: int|
                0 <= j < file_infos@.len() ==> !spec_str_lt(
                    file_infos@[r as int].1@,
                    (#[trigger] file_infos@[j]).1@,
                ),
            !keep_new ==> forall|j: int|
                0 <= j < file_infos@.len() ==> !spec_str_lt(
                    (#[trigger] file_infos@[j]).1@,
                    file_infos@[r as int].1@,
                ),
    {
        let n = file_infos.len();
        let mut extreme: usize = 0;
        proof {
            lemma_str_lt_connex(file_infos@[0].1@, file_infos@[0].1@);
        }
        let mut i: usize = 1;
        while i < n
            invariant
                1 <= i <= n,
                n == file_infos@.len(),
                extreme < i,
                keep_new ==> forall|j: int|
                    0 <= j < i ==> !spec_str_lt(
                        file_infos@[extreme as int].1@,
                        (#[trigger] file_infos@[j]).1@,
                    ),
                !keep_new ==> forall|j: int|
                    0 <= j < i ==> !spec_str_lt(
                        (#[trigger] file_infos@[j]).1@,
                        file_infos@[extreme as int].1@,
                    ),
            decreases n - i,
        {
            let ghost old_extreme = extreme as int;
            let beats = if keep_new {
                str_lt(file_infos[extreme].1.as_str(), file_infos[i].1.as_str())
            } else {
                str_lt(file_infos[i].1.as_str(), file_infos[extreme].1.as_str())
            };
            if beats {
                extreme = i;
            }
            proof {
                let fi = file_infos@;
                if keep_new {
                    assert forall|j: int|
                        0 <= j < i + 1 implies !spec_str_lt(
                        fi[extreme as int].1@,
                        (#[trigger] fi[j]).1@,
                    ) by {
                        if beats {
                            lemma_str_lt_connex(fi[extreme as int].1@, fi[j].1@);
                            if j < i && spec_str_lt(fi[extreme as int].1@, fi[j].1@) {
                                lemma_str_lt_trans(
                                    fi[old_extreme].1@,
                                    fi[extreme as int].1@,
                                    fi[j].1@,
                                );
                            }
                        } else {
                            lemma_str_lt_connex(fi[extreme as int].1@, fi[j].1@);
                        }
                    }
                } else {
                    assert forall|j: int|
                        0 <= j < i + 1 implies !spec_str_lt(
                        (#[trigger] fi[j]).1@,
                        fi[extreme as int].1@,
                    ) by {
                        if beats {
                            lemma_str_lt_connex(fi[j].1@, fi[extreme as int].1@);
                            if j < i && spec_str_lt(fi[j].1@, fi[extreme as int].1@) {
                                lemma_str_lt_trans(
                                    fi[j].1@,
                                    fi[extreme as int].1@,
                                    fi[old_extreme].1@,
                                );
                            }
                        } else {
                            lemma_str_lt_connex(fi[j].1@, fi[extreme as int].1@);
                        }
                    }
                }
            }
            i += 1;
        }
        extreme
    }

    /// The relative path from one file to another under their common
    /// root: one `..` for every directory above the source past the
    /// shared prefix (a lone `.` when the source sits directly in it),
    /// followed by the target's remaining components.
    pub fn relative_path_with_same_root(&self, from: &Vec<String>, to: &Vec<String>) -> (r: Vec<
        String,
    >)
        ensures
            ({
                let c = common_prefix_len(from@, to@);
                let dots: int = if from@.len() - c > 1 {
                    from@.len() - c - 1
                } else if from@.len() - c == 1 {
                    1
                } else {
                    0
                };
                &&& r@.len() == dots + (to@.len() - c)
                &&& (forall|k: int|
                    0 <= k < dots ==> (#[trigger] r@[k])@ == (if from@.len() - c > 1 {
                        ".."@
                    } else {
                        "."@
                    }))
                &&& (forall|k: int|
                    dots <= k < r@.len() ==> (#[trigger] r@[k])@ == to@[c + (k - dots)]@)
            }),
    {
        let from_len = from.len();
        let to_len = to.len();
        let min_len = if from_len < to_len {
            from_len
        } else {
            to_len
        };
        let mut common: usize = 0;
        loop
            invariant_except_break
                common <= min_len,
                from_len == from@.len(),
                to_len == to@.len(),
                min_len == (if from@.len() < to@.len() {
                    from@.len()
                } else {
                    to@.len()
                }),
                common_prefix_len(from@, to@) == common_from(from@, to@, common as int),
            ensures
                common <= min_len,
                from_len == from@.len(),
                to_len == to@.len(),
                common_prefix_len(from@, to@) == common as int,
            decreases min_len - common,
        {
            if common >= min_len {
                proof {
                    assert(common_from(from@, to@, common as int) == common);
                }
                break ;
            }
            let e = crate::catalog::str_eq(from[common].as_str(), to[common].as_str());
            if !e {
                proof {
                    assert(common_from(from@, to@, common as int) == common);
                }
                break ;
            }
            common += 1;
        }
        let mut r: Vec<String> = Vec::new();
        let ghost c = common as int;
        let ghost dots: int = if from@.len() - c > 1 {
            from@.len() - c - 1
        } else if from@.len() - c == 1 {
            1
        } else {
            0
        };
        if from_len - common > 1 {
            let bound = from_len - common - 1;
            let mut k: usize = 0;
            while k < bound
                invariant
                    k <= bound,
                    bound == from@.len() - c - 1,
                    from@.len() - c > 1,
                    r@.len() == k,
                    forall|j: int| 0 <= j < k ==> (#[trigger] r@[j])@ == ".."@,
                decreases bound - k,
            {
                r.push("..".to_owned());
                k += 1;
            }
        } else if from_len - common == 1 {
            r.push(".".to_owned());
        }
        proof {
            assert(r@.len() == dots);
        }
        let ghost base = dots;
        let mut t: usize = common;
        while t < to_len
            invariant
                common as int == c,
                common <= t <= to_len,
                to_len == to@.len(),
                from_len == from@.len(),
                r@.len() == base + (t - c),
                base == dots,
                dots == (if from@.len() - c > 1 {
                    from@.len() - c - 1
                } else if from@.len() - c == 1 {
                    1
                } else {
                    0
                }),
                forall|j: int|
                    0 <= j < base ==> (#[trigger] r@[j])@ == (if from@.len() - c > 1 {
                        ".."@
                    } else {
                        "."@
                    }),
                forall|j: int| base <= j < r@.len() ==> (#[trigger] r@[j])@ == to@[c + (j - base)]@,
            decreases to_len - t,
        {
            r.push(to[t].clone());
            t += 1;
        }
        r
    }
}

} // verus!
