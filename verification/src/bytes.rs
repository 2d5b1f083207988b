//! Helpers for copying bytes between buffers of different lengths.
use vstd::prelude::*;

verus! {

/// Copies bytes from `from` into `to`. As many bytes are copied as the
/// shorter of the two holds; the rest of `to` is left as it was.
pub fn copy_bytes(from: &[u8], to: &mut [u8])
    ensures
        final(to)@.len() == old(to)@.len(),
        forall|i: int|
            0 <= i < old(to)@.len() ==> final(to)@[i] == if i < from@.len() {
                from@[i]
            } else {
                old(to)@[i]
            },
{
    let n = if from.len() < to.len() {
        from.len()
    } else {
        to.len()
    };
    let mut i: usize = 0;
    while i < n
        invariant
            i <= n,
            n <= from@.len(),
            n <= to@.len(),
            n == from@.len() || n == to@.len(),
            to@.len() == old(to)@.len(),
            forall|j: int|
                0 <= j < to@.len() ==> to@[j] == if j < i {
                    from@[j]
                } else {
                    old(to)@[j]
                },
        decreases n - i,
    {
        to[i] = from[i];
        i += 1;
    }
}

/// Copies bytes from `from` into `to`, and fills what is left of `to` with
/// `fill` where `from` is the shorter.
pub fn copy_bytes_with_fill(from: &[u8], to: &mut [u8], fill: u8)
    ensures
        final(to)@.len() == old(to)@.len(),
        forall|i: int|
            0 <= i < old(to)@.len() ==> final(to)@[i] == if i < from@.len() {
                from@[i]
            } else {
                fill
            },
{
    let n = to.len();
    let mut i: usize = 0;
    while i < n
        invariant
            i <= n,
            n == to@.len(),
            to@.len() == old(to)@.len(),
            forall|j: int|
                0 <= j < i ==> to@[j] == if j < from@.len() {
                    from@[j]
                } else {
                    fill
                },
        decreases n - i,
    {
        if i < from.len() {
            to[i] = from[i];
        } else {
            to[i] = fill;
        }
        i += 1;
    }
}

/// Returns the first `n` bytes of `from`, with `fill` in the places that
/// `from` is too short to provide.
pub fn get_bytes_with_fill(from: &[u8], n: usize, fill: u8) -> (result: Vec<u8>)
    ensures
        result@ == filled(from@, n as int, fill),
{
    let mut result: Vec<u8> = Vec::new();
    let mut i: usize = 0;
    while i < n
        invariant
            i <= n,
            result@ == filled(from@, i as int, fill),
        decreases n - i,
    {
        if i < from.len() {
            result.push(from[i]);
        } else {
            result.push(fill);
        }
        assert(result@ =~= filled(from@, i + 1, fill));
        i += 1;
    }
    result
}

/// The first `n` bytes of `from`, with `fill` in the places that `from` is
/// too short to provide.
pub open spec fn filled(from: Seq<u8>, n: int, fill: u8) -> Seq<u8> {
    Seq::new(
        n as nat,
        |i: int|
            if i < from.len() {
                from[i]
            } else {
                fill
            },
    )
}

/// Whether two byte strings are the same.
pub fn bytes_equal(a: &[u8], b: &[u8]) -> (same: bool)
    ensures
        same == (a@ == b@),
{
    if a.len() != b.len() {
        return false;
    }
    let mut i: usize = 0;
    while i < a.len()
        invariant
            i <= a@.len(),
            a@.len() == b@.len(),
            a@.take(i as int) == b@.take(i as int),
        decreases a@.len() - i,
    {
        if a[i] != b[i] {
            return false;
        }
        assert(a@.take(i + 1) =~= a@.take(i as int).push(a@[i as int]));
        assert(b@.take(i + 1) =~= b@.take(i as int).push(b@[i as int]));
        i += 1;
    }
    assert(a@ =~= a@.take(i as int) && b@ =~= b@.take(i as int));
    true
}

} // verus!
