//! The order of names: byte by byte over their UTF-8 encoding.

use vstd::prelude::*;
use vstd::utf8::encode_utf8;

verus! {

/// Whether `a` comes before `b`, or is the same as `b`, in the lexicographic order of bytes.
pub open spec fn bytes_at_most(a: Seq<u8>, b: Seq<u8>) -> bool
    decreases a.len(),
{
    a.len() == 0 || (b.len() > 0 && (a[0] < b[0] || (a[0] == b[0] && bytes_at_most(
        a.drop_first(),
        b.drop_first(),
    ))))
}

/// The order of names, that of their UTF-8 encodings.
pub open spec fn name_at_most(a: Seq<char>, b: Seq<char>) -> bool {
    bytes_at_most(encode_utf8(a), encode_utf8(b))
}

/// Of two byte strings, one comes no later than the other.
proof fn bytes_at_most_total(a: Seq<u8>, b: Seq<u8>)
    ensures
        bytes_at_most(a, b) || bytes_at_most(b, a),
    decreases a.len(),
{
    if a.len() > 0 && b.len() > 0 && a[0] == b[0] {
        bytes_at_most_total(a.drop_first(), b.drop_first());
    }
}

proof fn bytes_at_most_transitive(a: Seq<u8>, b: Seq<u8>, c: Seq<u8>)
    requires
        bytes_at_most(a, b),
        bytes_at_most(b, c),
    ensures
        bytes_at_most(a, c),
    decreases a.len(),
{
    if a.len() > 0 && a[0] == b[0] && b[0] == c[0] {
        bytes_at_most_transitive(a.drop_first(), b.drop_first(), c.drop_first());
    }
}

/// Two byte strings that each come no later than the other are the same.
proof fn bytes_at_most_antisymmetric(a: Seq<u8>, b: Seq<u8>)
    requires
        bytes_at_most(a, b),
        bytes_at_most(b, a),
    ensures
        a == b,
    decreases a.len(),
{
    if a.len() > 0 {
        bytes_at_most_antisymmetric(a.drop_first(), b.drop_first());
        assert(a =~= seq![a[0]] + a.drop_first());
        assert(b =~= seq![b[0]] + b.drop_first());
    }
}

/// Of two names, one comes no later than the other.
pub proof fn name_at_most_total(a: Seq<char>, b: Seq<char>)
    ensures
        name_at_most(a, b) || name_at_most(b, a),
{
    bytes_at_most_total(encode_utf8(a), encode_utf8(b));
}

/// The order of names is transitive.
pub proof fn name_at_most_transitive(a: Seq<char>, b: Seq<char>, c: Seq<char>)
    requires
        name_at_most(a, b),
        name_at_most(b, c),
    ensures
        name_at_most(a, c),
{
    bytes_at_most_transitive(encode_utf8(a), encode_utf8(b), encode_utf8(c));
}

/// Two names that each come no later than the other are the same name.
pub proof fn name_at_most_antisymmetric(a: Seq<char>, b: Seq<char>)
    requires
        name_at_most(a, b),
        name_at_most(b, a),
    ensures
        a == b,
{
    bytes_at_most_antisymmetric(encode_utf8(a), encode_utf8(b));
    vstd::utf8::encode_utf8_decode_utf8(a);
    vstd::utf8::encode_utf8_decode_utf8(b);
}

/// Compares two names.
pub fn name_le(a: &str, b: &str) -> (r: bool)
    ensures
        r == name_at_most(a@, b@),
{
    let x: &[u8] = a.as_bytes();
    let y: &[u8] = b.as_bytes();
    let mut i: usize = 0;
    assert(x@.skip(0) == x@ && y@.skip(0) == y@);
    while i < x.len() && i < y.len()
        invariant
            x@ == encode_utf8(a@),
            y@ == encode_utf8(b@),
            i <= x@.len(),
            i <= y@.len(),
            bytes_at_most(x@, y@) == bytes_at_most(x@.skip(i as int), y@.skip(i as int)),
        decreases x@.len() - i,
    {
        if x[i] != y[i] {
            return x[i] < y[i];
        }
        assert(x@.skip(i as int).drop_first() == x@.skip(i + 1));
        assert(y@.skip(i as int).drop_first() == y@.skip(i + 1));
        i = i + 1;
    }
    i == x.len()
}

} // verus!
