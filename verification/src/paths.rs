//! Ordering of file paths, as `std::path::Path` orders them (component by component).
use crate::fonts::strings;
use vstd::prelude::*;

verus! {

/// The sign of `Path::new(a).cmp(Path::new(b))`: -1, 0 or 1.
pub uninterp spec fn path_order(a: Seq<char>, b: Seq<char>) -> i8;

/// Compares two paths with `<Path as Ord>::cmp` and returns the sign of the result.
/// Claimed: the result is `path_order` of the two strings, a function of them alone, and
/// the properties that `Ord` documents for a total order: reversing the arguments
/// negates it, equal strings compare equal, and chains of `<=` (strict where one link is
/// strict) through either argument are transitive.
#[verifier::external_body]
pub(crate) fn compare_paths(a: &str, b: &str) -> (r: i8)
    ensures
        r == path_order(a@, b@),
        r == -1 || r == 0 || r == 1,
        path_order(b@, a@) + r == 0,
        a@ == b@ ==> r == 0,
        forall|c: Seq<char>|
            r <= 0 && #[trigger] path_order(b@, c) <= 0 ==> path_order(a@, c) <= 0 && ((r < 0
                || path_order(b@, c) < 0) ==> path_order(a@, c) < 0),
        forall|c: Seq<char>|
            #[trigger] path_order(c, a@) <= 0 && r <= 0 ==> path_order(c, b@) <= 0 && ((r < 0
                || path_order(c, a@) < 0) ==> path_order(c, b@) < 0),
        forall|c: Seq<char>|
            r >= 0 && #[trigger] path_order(a@, c) <= 0 ==> path_order(b@, c) <= 0 && ((r > 0
                || path_order(a@, c) < 0) ==> path_order(b@, c) < 0),
        forall|c: Seq<char>|
            #[trigger] path_order(c, b@) <= 0 && r >= 0 ==> path_order(c, a@) <= 0 && ((r > 0
                || path_order(c, b@) < 0) ==> path_order(c, a@) < 0),
{
    match std::path::Path::new(a).cmp(std::path::Path::new(b)) {
        std::cmp::Ordering::Less => -1,
        std::cmp::Ordering::Equal => 0,
        std::cmp::Ordering::Greater => 1,
    }
}

/// Paths in strictly ascending path order (so no two are equal as paths).
pub open spec fn paths_increasing(v: Seq<Seq<char>>) -> bool {
    forall|i: int, j: int| 0 <= i < j < v.len() ==> path_order(#[trigger] v[i], #[trigger] v[j]) < 0
}

/// Some path of `v` is `p`, or equal to it as a path.
pub open spec fn has_equal_path(v: Seq<Seq<char>>, p: Seq<char>) -> bool {
    exists|j: int| 0 <= j < v.len() && (p == #[trigger] v[j] || path_order(p, v[j]) == 0)
}

/// The paths sorted in path order without repeats: of paths that are equal as paths the
/// first is kept. Every result is one of the inputs, and every input has a result equal
/// to it as a path.
pub fn sorted_unique_paths(paths: Vec<String>) -> (r: Vec<String>)
    ensures
        paths_increasing(strings(r@)),
        forall|i: int| 0 <= i < r@.len() ==> strings(paths@).contains(#[trigger] strings(r@)[i]),
        forall|i: int| 0 <= i < paths@.len() ==> has_equal_path(strings(r@), #[trigger] strings(paths@)[i]),
{
    let ghost input = strings(paths@);
    let mut out: Vec<String> = Vec::new();
    let mut i: usize = 0;
    while i < paths.len()
        invariant
            i <= paths.len(),
            input == strings(paths@),
            paths_increasing(strings(out@)),
            forall|k: int| 0 <= k < out@.len() ==> input.contains(#[trigger] strings(out@)[k]),
            forall|k: int| 0 <= k < i ==> has_equal_path(strings(out@), #[trigger] input[k]),
        decreases paths.len() - i,
    {
        let x = &paths[i];
        let ghost o = strings(out@);
        assert(input[i as int] == x@);
        let mut j: usize = 0;
        let mut found = false;
        let mut place = false;
        while j < out.len() && !place
            invariant
                j <= out.len(),
                o == strings(out@),
                paths_increasing(o),
                forall|k: int| 0 <= k < j ==> path_order(#[trigger] o[k], x@) < 0,
                place ==> j < out.len(),
                place ==> found || path_order(o[j as int], x@) > 0,
                found ==> place && path_order(x@, o[j as int]) == 0,
                !found && place ==> forall|k: int| j < k < o.len() ==> path_order(x@, #[trigger] o[k]) < 0,
                !found && place ==> path_order(x@, o[j as int]) < 0,
            decreases out.len() - j + (if place { 0int } else { 1int }),
        {
            let c = compare_paths(out[j].as_str(), x.as_str());
            assert(o[j as int] == out@[j as int]@);
            if c < 0 {
                j = j + 1;
            } else {
                place = true;
                if c == 0 {
                    found = true;
                } else {
                    proof {
                        assert forall|k: int| j < k < o.len() implies path_order(
                            x@,
                            #[trigger] o[k],
                        ) < 0 by {
                            assert(path_order(o[j as int], o[k]) < 0);
                        }
                    }
                }
            }
        }
        if found {
            proof {
                assert forall|k: int| 0 <= k < i + 1 implies has_equal_path(
                    strings(out@),
                    #[trigger] input[k],
                ) by {
                    if k == i {
                        assert(path_order(input[k], o[j as int]) == 0);
                    }
                }
            }
        } else {
            let ghost xv = x@;
            out.insert(j, x.clone());
            proof {
                let n = strings(out@);
                assert(n =~= o.insert(j as int, xv));
                assert forall|a: int, b: int| 0 <= a < b < n.len() implies path_order(
                    #[trigger] n[a],
                    #[trigger] n[b],
                ) < 0 by {
                    if b < j {
                        assert(n[a] == o[a] && n[b] == o[b]);
                    } else if b == j {
                        assert(n[a] == o[a]);
                    } else if a < j {
                        assert(n[a] == o[a] && n[b] == o[b - 1]);
                    } else if a == j {
                        assert(n[b] == o[b - 1]);
                    } else {
                        assert(n[a] == o[a - 1] && n[b] == o[b - 1]);
                    }
                }
                assert forall|k: int| 0 <= k < n.len() implies input.contains(#[trigger] n[k]) by {
                    if k < j {
                        assert(n[k] == o[k]);
                    } else if k > j {
                        assert(n[k] == o[k - 1]);
                    } else {
                        assert(input[i as int] == n[k]);
                    }
                }
                assert forall|k: int| 0 <= k < i + 1 implies has_equal_path(n, #[trigger] input[k]) by {
                    if k == i {
                        assert(n[j as int] == xv);
                    } else {
                        assert(has_equal_path(o, input[k]));
                        let w = choose|w: int| 0 <= w < o.len() && (input[k] == #[trigger] o[w] || path_order(input[k], o[w]) == 0);
                        if w < j {
                            assert(n[w] == o[w]);
                        } else {
                            assert(n[w + 1] == o[w]);
                        }
                    }
                }
            }
        }
        i = i + 1;
    }
    out
}

} // verus!
