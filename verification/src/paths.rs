//! Path handling for the mirrored trees.
//!
//! Paths are byte strings, as both remote protocols and the local
//! filesystem see them. Joining a directory path with an entry name
//! inserts a single `/` separator; the resulting local path of every
//! transfer extends the local root exactly as the remote path extends
//! the remote root.

use vstd::prelude::*;

verus! {

/// The `/` path separator byte.
pub const SEPARATOR: u8 = 47;

/// `base` extended with one entry name: a `/` is inserted unless `base`
/// already ends with one.
pub open spec fn join_spec(base: Seq<u8>, name: Seq<u8>) -> Seq<u8> {
    if base.len() > 0 && base.last() == SEPARATOR {
        base + name
    } else {
        base + seq![SEPARATOR] + name
    }
}

/// Copies a byte string.
pub fn copy_bytes(src: &Vec<u8>) -> (r: Vec<u8>)
    ensures
        r@ == src@,
{
    let mut out: Vec<u8> = Vec::new();
    let mut i: usize = 0;
    while i < src.len()
        invariant
            i <= src@.len(),
            out@ == src@.take(i as int),
        decreases src@.len() - i,
    {
        out.push(src[i]);
        i = i + 1;
        proof {
            assert(out@ =~= src@.take(i as int));
        }
    }
    proof {
        assert(out@ =~= src@);
    }
    out
}

/// Whether two byte strings hold the same bytes.
pub fn bytes_eq(a: &Vec<u8>, b: &Vec<u8>) -> (r: bool)
    ensures
        r == (a@ == b@),
{
    if a.len() != b.len() {
        return false;
    }
    let mut i: usize = 0;
    while i < a.len()
        invariant
            a@.len() == b@.len(),
            i <= a@.len(),
            forall|j: int| 0 <= j < i ==> a@[j] == b@[j],
        decreases a@.len() - i,
    {
        if a[i] != b[i] {
            return false;
        }
        i = i + 1;
    }
    proof {
        assert(a@ =~= b@);
    }
    true
}

/// Joins a directory path and an entry name with a `/` separator.
pub fn join(base: &Vec<u8>, name: &Vec<u8>) -> (r: Vec<u8>)
    ensures
        r@ == join_spec(base@, name@),
{
    let mut out = copy_bytes(base);
    if base.len() == 0 || base[base.len() - 1] != SEPARATOR {
        out.push(SEPARATOR);
    }
    let mut i: usize = 0;
    let ghost mid = out@;
    proof {
        assert(out@ =~= mid + name@.take(0));
    }
    while i < name.len()
        invariant
            i <= name@.len(),
            out@ == mid + name@.take(i as int),
        decreases name@.len() - i,
    {
        out.push(name[i]);
        i = i + 1;
        proof {
            assert(out@ =~= mid + name@.take(i as int));
        }
    }
    proof {
        assert(mid + name@.take(name@.len() as int) =~= mid + name@);
        if base@.len() > 0 && base@.last() == SEPARATOR {
            assert(out@ =~= base@ + name@);
        } else {
            assert(mid =~= base@ + seq![SEPARATOR]);
            assert(out@ =~= base@ + seq![SEPARATOR] + name@);
        }
    }
    out
}

} // verus!
