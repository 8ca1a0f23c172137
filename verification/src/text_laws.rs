//! What texts promise: numerals, the order of names, the names of metrics.
use crate::distance::DistanceMetric;
use crate::error::VexError;
use crate::text::{decimal, digit, lower, text_before};
use crate::vector::VectorId;
use vstd::prelude::*;

verus! {

/// The number that a text of numerals stands for.
pub open spec fn numeral_value(text: Seq<char>) -> int
    decreases text.len(),
{
    if text.len() == 0 {
        0
    } else {
        10 * numeral_value(text.drop_last()) + (text.last() as int - '0' as int)
    }
}

/// A number is written in numerals only, without leading zeros, and the
/// numerals stand for it.
pub proof fn law_decimal_stands_for_its_number(n: nat)
    ensures
        numeral_value(decimal(n)) == n,
        decimal(n).len() >= 1,
        forall|i: int| 0 <= i < decimal(n).len() ==> '0' <= (#[trigger] decimal(n)[i]) <= '9',
        decimal(n).len() > 1 ==> decimal(n)[0] != '0',
    decreases n,
{
    reveal_with_fuel(numeral_value, 2);
    let text = decimal(n);
    if n < 10 {
        assert(text.drop_last() =~= seq![]);
        assert(text.last() == digit(n));
    } else {
        law_decimal_stands_for_its_number(n / 10);
        let front = decimal(n / 10);
        assert(text.drop_last() =~= front);
        assert(text.last() == digit(n % 10));
        assert(text[0] == front[0]);
        if front.len() == 1 && front[0] == '0' {
            assert(front.drop_last() =~= seq![]);
            assert(numeral_value(front) == 0);
        }
        assert forall|i: int| 0 <= i < text.len() implies '0' <= (#[trigger] text[i]) <= '9' by {
            if i < front.len() {
                assert(text[i] == front[i]);
            }
        }
    }
}

/// The message of an error ends with, or encloses, the numbers it is about.
pub proof fn law_error_texts_tell_the_numbers(expected: usize, actual: usize, id: u64)
    ensures
        ({
            let text = VexError::DimensionMismatch { expected, actual }.text();
            let tail = ", got "@ + decimal(actual as nat);
            &&& text.skip(text.len() - tail.len()) == tail
            &&& text.take(text.len() - tail.len()) == "dimension mismatch: expected "@ + decimal(
                expected as nat,
            )
        }),
        ({
            let text = VexError::DuplicateId(VectorId(id)).text();
            &&& text.last() == ')'
            &&& text.drop_last() == "duplicate id: VectorId("@ + decimal(id as nat)
        }),
{
    reveal_strlit(")");
    let text = VexError::DimensionMismatch { expected, actual }.text();
    let head = "dimension mismatch: expected "@ + decimal(expected as nat);
    let tail = ", got "@ + decimal(actual as nat);
    assert(text == head + tail);
    assert(text.skip(text.len() - tail.len()) =~= tail);
    assert(text.take(text.len() - tail.len()) =~= head);
    let other = VexError::DuplicateId(VectorId(id)).text();
    let start = "duplicate id: VectorId("@ + decimal(id as nat);
    assert(other == start + ")"@);
    assert(other.drop_last() =~= start);
}

/// A text comes before another exactly if it is the beginning of it, or if it
/// has the lower character where the two first differ.
pub proof fn law_text_order_is_that_of_a_dictionary(a: Seq<char>, b: Seq<char>, k: int)
    requires
        0 <= k <= a.len(),
        k <= b.len(),
        forall|i: int| 0 <= i < k ==> a[i] == b[i],
        k < a.len() && k < b.len() ==> a[k] != b[k],
        k == a.len() || k == b.len() || a[k] != b[k],
    ensures
        text_before(a, b) <==> k < b.len() && (k == a.len() || a[k] < b[k]),
    decreases k,
{
    if k > 0 {
        let x = a.drop_first();
        let y = b.drop_first();
        assert(a[0] == b[0]);
        assert forall|i: int| 0 <= i < k - 1 implies x[i] == y[i] by {
            assert(a[i + 1] == b[i + 1]);
        }
        if k - 1 < x.len() {
            assert(x[k - 1] == a[k]);
        }
        if k - 1 < y.len() {
            assert(y[k - 1] == b[k]);
        }
        law_text_order_is_that_of_a_dictionary(x, y, k - 1);
    }
}

/// Of two texts one comes before the other unless they are the same.
pub proof fn law_text_order_is_total(a: Seq<char>, b: Seq<char>)
    ensures
        a == b || text_before(a, b) || text_before(b, a),
        !(text_before(a, b) && text_before(b, a)),
        text_before(a, b) ==> a != b,
    decreases a.len(),
{
    if a.len() > 0 && b.len() > 0 && a[0] == b[0] {
        law_text_order_is_total(a.drop_first(), b.drop_first());
        if a.drop_first() == b.drop_first() {
            assert(a =~= seq![a[0]] + a.drop_first());
            assert(b =~= seq![b[0]] + b.drop_first());
        }
    } else if a.len() == 0 && b.len() == 0 {
        assert(a =~= b);
    }
}

/// The case of letters does not matter to the name of a metric: names that
/// differ in nothing else are read alike.
pub proof fn law_metric_names_fold_case(a: Seq<char>, b: Seq<char>)
    requires
        a.len() == b.len(),
        forall|i: int|
            #![trigger a[i]]
            0 <= i < a.len() ==> a[i] == b[i] || ('A' <= a[i] <= 'Z' && b[i] as int == a[i] as int
                + 32) || ('A' <= b[i] <= 'Z' && a[i] as int == b[i] as int + 32),
    ensures
        DistanceMetric::parsed(a) == DistanceMetric::parsed(b),
{
    let x = a.map_values(|c: char| lower(c));
    let y = b.map_values(|c: char| lower(c));
    assert forall|i: int| 0 <= i < a.len() implies x[i] == y[i] by {
        let p = a[i];
        let q = b[i];
        assert(x[i] == lower(p) && y[i] == lower(q));
        if 'A' <= p <= 'Z' && q as int == p as int + 32 {
            assert((p as u32 + 32) as char == q);
        }
        if 'A' <= q <= 'Z' && p as int == q as int + 32 {
            assert((q as u32 + 32) as char == p);
        }
    }
    assert(x =~= y);
}

/// A metric is read from its own name and from no name that is not one of
/// the six.
pub proof fn law_metric_names_are_read(name: Seq<char>)
    ensures
        ({
            let folded = name.map_values(|c: char| lower(c));
            &&& DistanceMetric::parsed(name) == Ok::<DistanceMetric, Seq<char>>(
                DistanceMetric::Cosine,
            ) <==> folded == "cosine"@
            &&& DistanceMetric::parsed(name) == Ok::<DistanceMetric, Seq<char>>(
                DistanceMetric::L2,
            ) <==> folded == "l2"@ || folded == "euclidean"@
            &&& DistanceMetric::parsed(name) == Ok::<DistanceMetric, Seq<char>>(
                DistanceMetric::Dot,
            ) <==> folded == "dot"@ || folded == "ip"@ || folded == "inner_product"@
            &&& DistanceMetric::parsed(name) is Err ==> DistanceMetric::parsed(name)->Err_0
                == "unknown distance metric: "@ + folded
        }),
        DistanceMetric::of_name(DistanceMetric::Cosine.name()) == Some(DistanceMetric::Cosine),
        DistanceMetric::of_name(DistanceMetric::L2.name()) == Some(DistanceMetric::L2),
        DistanceMetric::of_name(DistanceMetric::Dot.name()) == Some(DistanceMetric::Dot),
{
    reveal_strlit("cosine");
    reveal_strlit("l2");
    reveal_strlit("euclidean");
    reveal_strlit("dot");
    reveal_strlit("ip");
    reveal_strlit("inner_product");
    assert("cosine"@.len() == 6);
    assert("l2"@.len() == 2 && "l2"@[0] == 'l');
    assert("euclidean"@.len() == 9);
    assert("dot"@.len() == 3);
    assert("ip"@.len() == 2 && "ip"@[0] == 'i');
    assert("inner_product"@.len() == 13);
}

} // verus!
