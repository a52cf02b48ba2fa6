//! Navigation in a sorted file listing: given the listing and the current
//! file, find the file just before or just after it. The listing itself is
//! read from disk by the caller; only the selection logic lives here.

use vstd::prelude::*;

verus! {

/// The views of a list of file names.
pub open spec fn files_view(v: Seq<String>) -> Seq<Seq<char>> {
    Seq::new(v.len(), |i: int| v[i]@)
}

/// The index of the first occurrence of `orig` in `files`, or `-1`.
pub open spec fn find_idx(files: Seq<Seq<char>>, orig: Seq<char>) -> int
    decreases files.len(),
{
    if files.len() == 0 {
        -1
    } else if files[0] == orig {
        0
    } else {
        let r = find_idx(files.skip(1), orig);
        if r < 0 {
            -1
        } else {
            r + 1
        }
    }
}

/// Characterisation of `find_idx`: `-1` exactly when `orig` does not
/// occur; otherwise the first index where it does.
pub proof fn lemma_find_idx(files: Seq<Seq<char>>, orig: Seq<char>)
    ensures
        find_idx(files, orig) == -1 <==> (forall|j: int|
            0 <= j < files.len() ==> #[trigger] files[j] != orig),
        find_idx(files, orig) >= 0 ==> 0 <= find_idx(files, orig) < files.len() && files[find_idx(
            files,
            orig,
        )] == orig && (forall|j: int| 0 <= j < find_idx(files, orig) ==> #[trigger] files[j]
            != orig),
    decreases files.len(),
{
    if files.len() == 0 {
    } else if files[0] == orig {
    } else {
        lemma_find_idx(files.skip(1), orig);
        let r = find_idx(files.skip(1), orig);
        if r < 0 {
            assert forall|j: int| 0 <= j < files.len() implies #[trigger] files[j] != orig by {
                if j >= 1 {
                    assert(files.skip(1)[j - 1] == files[j]);
                    assert(files.skip(1)[j - 1] != orig);
                }
            }
        } else {
            assert(files.skip(1)[r] == files[r + 1]);
            assert forall|j: int| 0 <= j < r + 1 implies #[trigger] files[j] != orig by {
                if j >= 1 {
                    assert(files.skip(1)[j - 1] == files[j]);
                    assert(files.skip(1)[j - 1] != orig);
                }
            }
        }
    }
}

/// Looks `orig` up in the listing and, when it is found and not first,
/// returns the file just before it.
pub fn find_prev_file(files: &Vec<String>, orig: &str) -> (r: Option<String>)
    ensures
        ({
            let idx = find_idx(files_view(files@), orig@);
            &&& (idx >= 1 ==> r is Some && r->Some_0@ == files_view(files@)[idx - 1])
            &&& (idx == 0 || idx == -1 ==> r is None)
        }),
{
    let ghost fv = files_view(files@);
    proof {
        lemma_find_idx(fv, orig@);
    }
    let target: String = orig.to_owned();
    let n = files.len();
    let mut i: usize = 0;
    while i < n
        invariant
            i <= n,
            n == files@.len(),
            target@ == orig@,
            fv == files_view(files@),
            forall|j: int| 0 <= j < i ==> #[trigger] fv[j] != orig@,
        decreases n - i,
    {
        if files[i].eq(&target) {
            proof {
                assert(fv[i as int] == orig@);
                assert(find_idx(fv, orig@) == i as int) by {
                    lemma_find_idx(fv, orig@);
                    if find_idx(fv, orig@) == -1 {
                        assert(fv[i as int] != orig@);
                    }
                    if find_idx(fv, orig@) > i as int {
                        assert(fv[i as int] != orig@);
                    }
                    if 0 <= find_idx(fv, orig@) < i as int {
                        assert(fv[find_idx(fv, orig@)] != orig@);
                    }
                }
            }
            if i != 0 {
                let prev = files[i - 1].clone();
                proof {
                    assert(prev@ == fv[i as int - 1]);
                }
                return Some(prev);
            }
            return None;
        }
        i = i + 1;
    }
    proof {
        lemma_find_idx(fv, orig@);
        assert(find_idx(fv, orig@) == -1);
    }
    None
}

/// Looks `orig` up in the listing and, when it is found and not last,
/// returns the file just after it.
pub fn find_next_file(files: &Vec<String>, orig: &str) -> (r: Option<String>)
    ensures
        ({
            let idx = find_idx(files_view(files@), orig@);
            &&& (0 <= idx && idx < files@.len() - 1 ==> r is Some && r->Some_0@ == files_view(
                files@,
            )[idx + 1])
            &&& (idx == files@.len() - 1 || idx == -1 ==> r is None)
        }),
{
    let ghost fv = files_view(files@);
    proof {
        lemma_find_idx(fv, orig@);
    }
    let target: String = orig.to_owned();
    let n = files.len();
    let mut i: usize = 0;
    while i < n
        invariant
            i <= n,
            n == files@.len(),
            target@ == orig@,
            fv == files_view(files@),
            forall|j: int| 0 <= j < i ==> #[trigger] fv[j] != orig@,
        decreases n - i,
    {
        if files[i].eq(&target) {
            proof {
                assert(fv[i as int] == orig@);
                assert(find_idx(fv, orig@) == i as int) by {
                    lemma_find_idx(fv, orig@);
                    if find_idx(fv, orig@) == -1 {
                        assert(fv[i as int] != orig@);
                    }
                    if find_idx(fv, orig@) > i as int {
                        assert(fv[i as int] != orig@);
                    }
                    if 0 <= find_idx(fv, orig@) < i as int {
                        assert(fv[find_idx(fv, orig@)] != orig@);
                    }
                }
            }
            if i != n - 1 {
                let next = files[i + 1].clone();
                proof {
                    assert(next@ == fv[i as int + 1]);
                }
                return Some(next);
            }
            return None;
        }
        i = i + 1;
    }
    proof {
        lemma_find_idx(fv, orig@);
        assert(find_idx(fv, orig@) == -1);
    }
    None
}

} // verus!
