use vstd::prelude::*;

verus! {

/// The playlist length actually walked for a requested length.  A missing or
/// unparsable request falls back to 20, and since a walk always emits at
/// least its seed song, a request below 1 behaves as 1.
pub fn effective_length(requested: Option<i64>) -> (n: u64)
    ensures
        match requested {
            Some(v) => n == if v < 1 {
                1u64
            } else {
                v as u64
            },
            None => n == 20,
        },
        n >= 1,
{
    match requested {
        None => 20,
        Some(v) => if v < 1 {
            1
        } else {
            v as u64
        },
    }
}

/// The creativity actually used for a requested value, as the nonnegative
/// rational `num / den`.  A missing or unparsable request falls back to 0.
pub fn effective_creativity(requested: Option<(u32, u32)>) -> (c: (u32, u32))
    requires
        requested matches Some(p) ==> p.1 >= 1,
    ensures
        match requested {
            Some(p) => c == p,
            None => c == (0u32, 1u32),
        },
        c.1 >= 1,
{
    match requested {
        None => (0, 1),
        Some(p) => p,
    }
}

} // verus!
