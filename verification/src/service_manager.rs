//! Start-up of the service manager itself: what it falls back on when it cannot go on.
use vstd::prelude::*;

verus! {

/// The shells tried, in this order, when the manager needs an emergency shell.
pub open spec fn spec_shell_candidates() -> Seq<Seq<char>> {
    seq!["/bin/sh"@, "/sbin/sh"@, "/usr/bin/sh"@]
}

/// The shells tried, in this order, when the manager needs an emergency shell.
pub fn shell_candidates() -> (res: Vec<String>)
    ensures
        res@.len() == 3,
        forall|i: int| 0 <= i < 3 ==> #[trigger] res@[i]@ == spec_shell_candidates()[i],
{
    let mut v: Vec<String> = Vec::new();
    v.push("/bin/sh".to_owned());
    v.push("/sbin/sh".to_owned());
    v.push("/usr/bin/sh".to_owned());
    v
}

/// The first index below `n` whose flag in `exists` is set.
pub open spec fn first_set(exists: Seq<bool>, n: int) -> Option<int>
    decreases n,
{
    if n <= 0 {
        None
    } else {
        match first_set(exists, n - 1) {
            Some(i) => Some(i),
            None => if exists[n - 1] { Some(n - 1) } else { None },
        }
    }
}

/// The emergency shell: the first of `shell_candidates` that exists, where `exists` says
/// for each of them whether it does.
pub fn find_shell_path(exists: &Vec<bool>) -> (res: Option<String>)
    requires
        exists@.len() == 3,
    ensures
        match first_set(exists@, 3) {
            Some(i) => res matches Some(p) && p@ == spec_shell_candidates()[i],
            None => res is None,
        },
{
    let candidates = shell_candidates();
    let mut i: usize = 0;
    while i < 3
        invariant
            i <= 3,
            exists@.len() == 3,
            candidates@.len() == 3,
            forall|k: int| 0 <= k < 3 ==> #[trigger] candidates@[k]@ == spec_shell_candidates()[k],
            first_set(exists@, i as int) is None,
        decreases 3 - i,
    {
        if exists[i] {
            proof {
                assert(first_set(exists@, i + 1) == Some(i as int));
                lemma_first_set_stays(exists@, i + 1, 3);
            }
            return Some(candidates[i].clone());
        }
        i = i + 1;
    }
    None
}

proof fn lemma_first_set_stays(exists: Seq<bool>, m: int, n: int)
    requires
        0 <= m <= n,
        first_set(exists, m) is Some,
    ensures
        first_set(exists, n) == first_set(exists, m),
    decreases n - m,
{
    if m < n {
        lemma_first_set_stays(exists, m, n - 1);
    }
}

} // verus!
