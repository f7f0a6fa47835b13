//! Runs of bytes.
use vstd::prelude::*;

verus! {

/// `bytes` with the bytes from `at` on replaced by `data`.
pub open spec fn overwrite(bytes: Seq<u8>, at: nat, data: Seq<u8>) -> Seq<u8> {
    Seq::new(
        bytes.len(),
        |i: int|
            if at <= i < at + data.len() {
                data[i - at]
            } else {
                bytes[i]
            },
    )
}

/// `len` zero bytes.
pub fn zeros(len: usize) -> (r: Vec<u8>)
    ensures
        r@ == Seq::new(len as nat, |i: int| 0u8),
{
    let mut r: Vec<u8> = Vec::new();
    let mut i: usize = 0;
    while i < len
        invariant
            0 <= i <= len,
            r@ == Seq::new(i as nat, |k: int| 0u8),
        decreases len - i,
    {
        r.push(0);
        i += 1;
        proof {
            assert(r@ =~= Seq::new(i as nat, |k: int| 0u8));
        }
    }
    r
}

/// The `len` bytes of `data` from `from` on.
pub fn copy_range(data: &Vec<u8>, from: usize, len: usize) -> (r: Vec<u8>)
    requires
        from + len <= data.len(),
    ensures
        r@ == data@.subrange(from as int, from + len),
{
    let mut r: Vec<u8> = Vec::new();
    let mut i: usize = 0;
    while i < len
        invariant
            from + len <= data.len(),
            0 <= i <= len,
            r@ == data@.subrange(from as int, from + i),
        decreases len - i,
    {
        r.push(data[from + i]);
        i += 1;
        proof {
            assert(r@ =~= data@.subrange(from as int, from + i));
        }
    }
    r
}

/// Overwrites the bytes from `at` on.
pub fn copy_into(to: &mut Vec<u8>, at: usize, from: &Vec<u8>)
    requires
        at + from.len() <= old(to).len(),
    ensures
        final(to)@ == overwrite(old(to)@, at as nat, from@),
{
    let ghost before = to@;
    let mut i: usize = 0;
    while i < from.len()
        invariant
            at + from.len() <= to.len(),
            before == old(to)@,
            to.len() == before.len(),
            0 <= i <= from.len(),
            forall|k: int|
                0 <= k < to.len() ==> #[trigger] to@[k] == (if at <= k < at + i {
                    from[k - at]
                } else {
                    before[k]
                }),
        decreases from.len() - i,
    {
        to.set(at + i, from[i]);
        i += 1;
    }
    proof {
        assert(to@ =~= overwrite(before, at as nat, from@));
    }
}

/// A copy of `data`.
pub fn clone_bytes(data: &Vec<u8>) -> (r: Vec<u8>)
    ensures
        r@ == data@,
{
    let r: Vec<u8> = copy_range(data, 0, data.len());
    proof {
        assert(data@.subrange(0, data@.len() as int) =~= data@);
    }
    r
}

/// Adds `more` at the end.
pub fn append_bytes(to: &mut Vec<u8>, more: &[u8])
    ensures
        final(to)@ == old(to)@ + more@,
{
    let ghost before = to@;
    let mut i: usize = 0;
    while i < more.len()
        invariant
            before == old(to)@,
            0 <= i <= more.len(),
            to@ == before + more@.take(i as int),
        decreases more.len() - i,
    {
        to.push(more[i]);
        i += 1;
        proof {
            assert(to@ =~= before + more@.take(i as int));
        }
    }
    proof {
        assert(more@.take(i as int) =~= more@);
    }
}

} // verus!
