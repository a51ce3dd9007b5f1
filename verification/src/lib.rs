//! Semantic modeling core of a binding generator: it walks an entity tree
//! produced by a C++ front end, resolves raw types into semantic type
//! references, memoizes per-declaration work, allocates collision-free
//! target identifiers, and emits an ordered sequence of generation-ready
//! descriptors.
use vstd::prelude::*;

pub mod cache;
pub mod generator;
pub mod generator_env;
pub mod name_pool;
pub mod type_ref;
pub mod version;
pub mod walker;

verus! {

/// True iff the two byte slices hold the same bytes.
pub fn bytes_eq(a: &[u8], b: &[u8]) -> (r: bool)
    ensures
        r == (a@ == b@),
{
    if a.len() != b.len() {
        assert(a@.len() != b@.len());
        return false;
    }
    let mut i: usize = 0;
    while i < a.len()
        invariant
            0 <= i <= a@.len(),
            a@.len() == b@.len(),
            forall|j: int| 0 <= j < i ==> a@[j] == b@[j],
        decreases a@.len() - i,
    {
        if a[i] != b[i] {
            assert(a@[i as int] != b@[i as int]);
            return false;
        }
        i += 1;
    }
    assert(a@ =~= b@);
    true
}

/// Appends every byte of `add` to `out`.
pub fn bytes_push_all(out: &mut Vec<u8>, add: &[u8])
    ensures
        final(out)@ == old(out)@ + add@,
{
    let mut i: usize = 0;
    while i < add.len()
        invariant
            0 <= i <= add@.len(),
            out@ == old(out)@ + add@.take(i as int),
        decreases add@.len() - i,
    {
        out.push(add[i]);
        proof {
            assert(out@ =~= old(out)@ + add@.take(i as int + 1));
        }
        i += 1;
    }
    proof {
        assert(add@.take(add@.len() as int) =~= add@);
    }
}

/// The trailing annotation a declaration's rendered output carries when
/// the debug toggle is on — its textual form and its origin, as
/// `// <text> <path>:<line>` — and nothing when the toggle is off.
pub open spec fn spec_debug_comment(emit: bool, text: Seq<u8>, path: Seq<u8>, line: u64) -> Seq<
    u8,
> {
    if emit {
        seq![47u8, 47u8, 32u8] + text + seq![32u8] + path + seq![58u8]
            + crate::name_pool::dec_digits(line as nat)
    } else {
        Seq::empty()
    }
}

/// Renders the debug annotation for one declaration.
pub fn debug_comment(emit: bool, text: &[u8], path: &[u8], line: u64) -> (r: Vec<u8>)
    ensures
        r@ == spec_debug_comment(emit, text@, path@, line),
{
    let mut r: Vec<u8> = Vec::new();
    if !emit {
        proof {
            assert(r@ =~= spec_debug_comment(emit, text@, path@, line));
        }
        return r;
    }
    r.push(47);
    r.push(47);
    r.push(32);
    bytes_push_all(&mut r, text);
    r.push(32);
    bytes_push_all(&mut r, path);
    r.push(58);
    crate::name_pool::push_dec(&mut r, line as u128);
    proof {
        assert(r@ =~= spec_debug_comment(emit, text@, path@, line));
    }
    r
}

/// An owned copy of a byte slice.
pub fn bytes_from_slice(a: &[u8]) -> (r: Vec<u8>)
    ensures
        r@ == a@,
{
    let mut r: Vec<u8> = Vec::new();
    bytes_push_all(&mut r, a);
    proof {
        assert(r@ =~= a@);
    }
    r
}

} // verus!
