//! The order of keys, and of the versions of one key.

use crate::bytes::{bytes_le, bytes_lt};
use crate::page::{position_lt, Position};
use vstd::prelude::*;

verus! {

/// The byte strings have their first `n` bytes in common, and `a` then ends before `b` does or
/// goes on with a smaller byte.
pub open spec fn parts_below(a: Seq<u8>, b: Seq<u8>, n: int) -> bool {
    &&& 0 <= n <= a.len()
    &&& n < b.len()
    &&& forall|i: int| 0 <= i < n ==> #[trigger] a[i] == b[i]
    &&& n == a.len() || a[n] < b[n]
}

/// Byte strings come in the order of words: one comes before another exactly if they have
/// some first bytes in common, and it then ends or goes on with a smaller byte.
pub proof fn law_byte_strings_come_in_the_order_of_words(a: Seq<u8>, b: Seq<u8>)
    ensures
        bytes_lt(a, b) <==> exists|n: int| #[trigger] parts_below(a, b, n),
        bytes_le(a, b) <==> a == b || exists|n: int| #[trigger] parts_below(a, b, n),
    decreases a.len(),
{
    if a.len() > 0 && b.len() > 0 {
        let x = a.drop_first();
        let y = b.drop_first();
        law_byte_strings_come_in_the_order_of_words(x, y);
        if exists|n: int| parts_below(x, y, n) {
            let n = choose|n: int| parts_below(x, y, n);
            if a[0] == b[0] {
                assert forall|i: int| 0 <= i < n + 1 implies #[trigger] a[i] == b[i] by {
                    if i > 0 {
                        assert(x[i - 1] == y[i - 1]);
                    }
                }
                assert(parts_below(a, b, n + 1));
            }
        }
        if exists|n: int| parts_below(a, b, n) {
            let n = choose|n: int| parts_below(a, b, n);
            if n > 0 {
                assert(a[0] == b[0]);
                assert forall|i: int| 0 <= i < n - 1 implies #[trigger] x[i] == y[i] by {
                    assert(a[i + 1] == b[i + 1]);
                }
                assert(parts_below(x, y, n - 1));
            }
        }
        if a[0] < b[0] {
            assert(parts_below(a, b, 0));
        }
    } else if b.len() > 0 {
        assert(parts_below(a, b, 0));
    }
}

/// Versions come in the order of their keys, and of one key the newest version comes first.
pub proof fn law_newer_versions_come_first(a: Position, b: Position)
    ensures
        position_lt(a, b) <==> (exists|n: int| #[trigger] parts_below(a.0, b.0, n)) || (a.0 == b.0
            && a.1 > b.1),
{
    law_byte_strings_come_in_the_order_of_words(a.0, b.0);
}

} // verus!
