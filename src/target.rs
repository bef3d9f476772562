//! Reading the room key out of a request target such as `/lobby/extra`.
use vstd::prelude::*;
use vstd::string::StrSliceExecFns;

verus! {

/// Index of the first `'/'` in `t` at or after `from`, or `t.len()` when
/// there is none.
pub open spec fn next_slash(t: Seq<char>, from: int) -> int
    decreases t.len() - from,
{
    if from < 0 || from >= t.len() || t[from] == '/' {
        from
    } else {
        next_slash(t, from + 1)
    }
}

/// The room key of a target: the second `'/'`-delimited segment, that is the
/// characters between the first `'/'` and the next one (or the end). A target
/// without any `'/'` names no room.
pub open spec fn room_of(t: Seq<char>) -> Option<Seq<char>> {
    let s = next_slash(t, 0);
    if s >= t.len() {
        None
    } else {
        Some(t.subrange(s + 1, next_slash(t, s + 1)))
    }
}

fn scan_to_slash(t: &str, n: usize, from: usize) -> (r: usize)
    requires
        n == t@.len(),
        from <= n,
    ensures
        r == next_slash(t@, from as int),
        from <= r <= n,
{
    let mut i: usize = from;
    while i < n && t.get_char(i) != '/'
        invariant
            n == t@.len(),
            from <= i <= n,
            next_slash(t@, from as int) == next_slash(t@, i as int),
        decreases n - i,
    {
        i = i + 1;
    }
    i
}

/// The room key named by `target`, or `None` when it holds no `'/'`.
pub fn room_from_target(target: &str) -> (r: Option<String>)
    ensures
        match r {
            Some(k) => room_of(target@) == Some(k@),
            None => room_of(target@).is_none(),
        },
{
    let n = target.unicode_len();
    let s = scan_to_slash(target, n, 0);
    if s >= n {
        None
    } else {
        let e = scan_to_slash(target, n, s + 1);
        let key = target.substring_char(s + 1, e);
        Some(key.to_owned())
    }
}

} // verus!
