use vstd::prelude::*;
use crate::version::{digits2, digits4, file_chars, suffix_chars, VersionStamp};

verus! {

/// Strict lexicographic order of two character sequences of equal length.
pub open spec fn lex_less(a: Seq<char>, b: Seq<char>) -> bool
    decreases a.len(),
{
    if a.len() == 0 || b.len() == 0 {
        false
    } else {
        a[0] < b[0] || (a[0] == b[0] && lex_less(a.drop_first(), b.drop_first()))
    }
}

proof fn lemma_lex_split(a: Seq<char>, b: Seq<char>, k: int)
    requires
        a.len() == b.len(),
        0 <= k <= a.len(),
    ensures
        lex_less(a, b) == (lex_less(a.take(k), b.take(k)) || (a.take(k) == b.take(k) && lex_less(
            a.skip(k),
            b.skip(k),
        ))),
    decreases k,
{
    if k == 0 {
        assert(a.take(0) =~= b.take(0));
        assert(a.skip(0) =~= a);
        assert(b.skip(0) =~= b);
    } else {
        lemma_lex_split(a.drop_first(), b.drop_first(), k - 1);
        assert(a.take(k).drop_first() =~= a.drop_first().take(k - 1));
        assert(b.take(k).drop_first() =~= b.drop_first().take(k - 1));
        assert(a.drop_first().skip(k - 1) =~= a.skip(k));
        assert(b.drop_first().skip(k - 1) =~= b.skip(k));
        if a.take(k) == b.take(k) {
            assert(a[0] == a.take(k)[0]);
            assert(b[0] == b.take(k)[0]);
        }
        if a[0] == b[0] && a.drop_first().take(k - 1) == b.drop_first().take(k - 1) {
            assert forall|i: int| 0 <= i < k implies a.take(k)[i] == b.take(k)[i] by {
                if i > 0 {
                    assert(a.take(k)[i] == a.drop_first().take(k - 1)[i - 1]);
                    assert(b.take(k)[i] == b.drop_first().take(k - 1)[i - 1]);
                }
            }
            assert(a.take(k) =~= b.take(k));
        }
    }
}

proof fn lemma_lex_digits2(x: int, y: int)
    requires
        0 <= x < 100,
        0 <= y < 100,
    ensures
        lex_less(digits2(x), digits2(y)) == (x < y),
        (digits2(x) == digits2(y)) == (x == y),
{
    let a = digits2(x);
    let b = digits2(y);
    let a1 = a.drop_first();
    let b1 = b.drop_first();
    assert(!lex_less(a1.drop_first(), b1.drop_first()));
    assert(a1[0] == a[1] && b1[0] == b[1]);
    assert(lex_less(a1, b1) == (a[1] < b[1]));
    assert(x == 10 * (x / 10) + x % 10);
    assert(y == 10 * (y / 10) + y % 10);
    if a == b {
        assert(a[0] == b[0] && a[1] == b[1]);
    }
    if x == y {
        assert(a =~= b);
    }
}

proof fn lemma_lex_digits4(x: int, y: int)
    requires
        0 <= x < 10000,
        0 <= y < 10000,
    ensures
        lex_less(digits4(x), digits4(y)) == (x < y),
        (digits4(x) == digits4(y)) == (x == y),
{
    assert(x / 100 / 10 == x / 1000 && x / 100 % 10 == x / 100 % 10 && x % 100 / 10 == x / 10 % 10
        && x % 100 % 10 == x % 10) by (nonlinear_arith)
        requires 0 <= x < 10000;
    assert(y / 100 / 10 == y / 1000 && y % 100 / 10 == y / 10 % 10 && y % 100 % 10 == y % 10)
        by (nonlinear_arith)
        requires 0 <= y < 10000;
    assert(digits4(x) =~= digits2(x / 100) + digits2(x % 100));
    assert(digits4(y) =~= digits2(y / 100) + digits2(y % 100));
    let a = digits4(x);
    let b = digits4(y);
    lemma_lex_split(a, b, 2);
    assert(a.take(2) =~= digits2(x / 100));
    assert(b.take(2) =~= digits2(y / 100));
    assert(a.skip(2) =~= digits2(x % 100));
    assert(b.skip(2) =~= digits2(y % 100));
    lemma_lex_digits2(x / 100, y / 100);
    lemma_lex_digits2(x % 100, y % 100);
    assert(x == 100 * (x / 100) + x % 100);
    assert(y == 100 * (y / 100) + y % 100);
    if a == b {
        assert(a.take(2) == b.take(2) && a.skip(2) == b.skip(2));
    }
}

proof fn lemma_lex_irreflexive(a: Seq<char>)
    ensures
        !lex_less(a, a),
    decreases a.len(),
{
    if a.len() > 0 {
        lemma_lex_irreflexive(a.drop_first());
    }
}

proof fn lemma_lex_step(a: Seq<char>, b: Seq<char>, k: int, m: int)
    requires
        a.len() == b.len(),
        0 <= k,
        0 <= m,
        k + m <= a.len(),
    ensures
        lex_less(a.skip(k), b.skip(k)) == (lex_less(a.skip(k).take(m), b.skip(k).take(m)) || (
        a.skip(k).take(m) == b.skip(k).take(m) && lex_less(a.skip(k + m), b.skip(k + m)))),
{
    lemma_lex_split(a.skip(k), b.skip(k), m);
    assert(a.skip(k).skip(m) =~= a.skip(k + m));
    assert(b.skip(k).skip(m) =~= b.skip(k + m));
}

/// A dash, equal on both sides, does not decide the order.
proof fn lemma_lex_dash(a: Seq<char>, b: Seq<char>, k: int)
    requires
        a.len() == b.len(),
        0 <= k < a.len(),
        a[k] == '-',
        b[k] == '-',
    ensures
        lex_less(a.skip(k), b.skip(k)) == lex_less(a.skip(k + 1), b.skip(k + 1)),
{
    lemma_lex_step(a, b, k, 1);
    assert(a.skip(k).take(1) =~= seq!['-']);
    assert(b.skip(k).take(1) =~= seq!['-']);
    lemma_lex_irreflexive(seq!['-']);
}

proof fn lemma_key_order_step(a: int, b: int, c: int, d: int)
    requires
        0 <= b < 100,
        0 <= d < 100,
    ensures
        (a * 100 + b < c * 100 + d) == (a < c || (a == c && b < d)),
        (a * 100 + b == c * 100 + d) == (a == c && b == d),
{
    assert((a * 100 + b < c * 100 + d) == (a < c || (a == c && b < d))) by (nonlinear_arith)
        requires 0 <= b < 100, 0 <= d < 100;
    assert((a * 100 + b == c * 100 + d) == (a == c && b == d)) by (nonlinear_arith)
        requires 0 <= b < 100, 0 <= d < 100;
}

/// The order of stamps field by field, from the year down to the second.
pub open spec fn fields_less(x: VersionStamp, y: VersionStamp) -> bool {
    let s = x.second < y.second;
    let mi = then_less(x.minute as int, y.minute as int, s);
    let h = then_less(x.hour as int, y.hour as int, mi);
    let d = then_less(x.day as int, y.day as int, h);
    let mo = then_less(x.month as int, y.month as int, d);
    then_less(x.year as int, y.year as int, mo)
}

/// `a` comes first, or the two tie and `rest` decides.
pub open spec fn then_less(a: int, b: int, rest: bool) -> bool {
    a < b || (a == b && rest)
}

proof fn lemma_pieces(st: VersionStamp)
    requires
        st.fits(),
    ensures
        file_chars(st).len() == 23,
        file_chars(st).skip(0) == file_chars(st),
        file_chars(st).skip(0).take(4) == digits4(st.year as int),
        file_chars(st).skip(5).take(2) == digits2(st.month as int),
        file_chars(st).skip(8).take(2) == digits2(st.day as int),
        file_chars(st).skip(11).take(2) == digits2(st.hour as int),
        file_chars(st).skip(14).take(2) == digits2(st.minute as int),
        file_chars(st).skip(17).take(2) == digits2(st.second as int),
        file_chars(st).skip(19) == suffix_chars(),
        file_chars(st)[4] == '-' && file_chars(st)[7] == '-' && file_chars(st)[10] == '-',
        file_chars(st)[13] == '-' && file_chars(st)[16] == '-',
{
    let a = file_chars(st);
    assert(a.skip(0) =~= a);
    assert(a.skip(0).take(4) =~= digits4(st.year as int));
    assert(a.skip(5).take(2) =~= digits2(st.month as int));
    assert(a.skip(8).take(2) =~= digits2(st.day as int));
    assert(a.skip(11).take(2) =~= digits2(st.hour as int));
    assert(a.skip(14).take(2) =~= digits2(st.minute as int));
    assert(a.skip(17).take(2) =~= digits2(st.second as int));
    assert(a.skip(19) =~= suffix_chars());
}

proof fn lemma_names_compare_by_fields(x: VersionStamp, y: VersionStamp)
    requires
        x.fits(),
        y.fits(),
    ensures
        lex_less(file_chars(x), file_chars(y)) == fields_less(x, y),
{
    let a = file_chars(x);
    let b = file_chars(y);
    lemma_pieces(x);
    lemma_pieces(y);
    lemma_lex_irreflexive(suffix_chars());
    lemma_lex_step(a, b, 17, 2);
    lemma_lex_digits2(x.second as int, y.second as int);
    let l16 = lex_less(a.skip(16), b.skip(16));
    lemma_lex_dash(a, b, 16);
    assert(l16 == (x.second < y.second));
    lemma_lex_step(a, b, 14, 2);
    lemma_lex_digits2(x.minute as int, y.minute as int);
    lemma_lex_dash(a, b, 13);
    let l13 = lex_less(a.skip(13), b.skip(13));
    assert(l13 == (x.minute < y.minute || (x.minute == y.minute && l16)));
    lemma_lex_step(a, b, 11, 2);
    lemma_lex_digits2(x.hour as int, y.hour as int);
    lemma_lex_dash(a, b, 10);
    let l10 = lex_less(a.skip(10), b.skip(10));
    assert(l10 == (x.hour < y.hour || (x.hour == y.hour && l13)));
    lemma_lex_step(a, b, 8, 2);
    lemma_lex_digits2(x.day as int, y.day as int);
    lemma_lex_dash(a, b, 7);
    let l7 = lex_less(a.skip(7), b.skip(7));
    assert(l7 == (x.day < y.day || (x.day == y.day && l10)));
    lemma_lex_step(a, b, 5, 2);
    lemma_lex_digits2(x.month as int, y.month as int);
    lemma_lex_dash(a, b, 4);
    let l4 = lex_less(a.skip(4), b.skip(4));
    assert(l4 == (x.month < y.month || (x.month == y.month && l7)));
    lemma_lex_step(a, b, 0, 4);
    lemma_lex_digits4(x.year as int, y.year as int);
    assert(lex_less(a, b) == (x.year < y.year || (x.year == y.year && l4)));
}

proof fn lemma_keys_compare_by_fields(x: VersionStamp, y: VersionStamp)
    requires
        x.fits(),
        y.fits(),
    ensures
        (x.key() < y.key()) == fields_less(x, y),
{
    let k1x = x.year * 100 + x.month;
    let k1y = y.year * 100 + y.month;
    lemma_key_order_step(x.year as int, x.month as int, y.year as int, y.month as int);
    lemma_key_order_step(k1x, x.day as int, k1y, y.day as int);
    let k2x = k1x * 100 + x.day;
    let k2y = k1y * 100 + y.day;
    lemma_key_order_step(k2x, x.hour as int, k2y, y.hour as int);
    let k3x = k2x * 100 + x.hour;
    let k3y = k2y * 100 + y.hour;
    lemma_key_order_step(k3x, x.minute as int, k3y, y.minute as int);
    let k4x = k3x * 100 + x.minute;
    let k4y = k3y * 100 + y.minute;
    lemma_key_order_step(k4x, x.second as int, k4y, y.second as int);
}

/// Version file names sort, as plain strings, in the chronological order of the
/// stamps they name.
pub proof fn lemma_name_order_is_time_order(x: VersionStamp, y: VersionStamp)
    requires
        x.fits(),
        y.fits(),
    ensures
        lex_less(file_chars(x), file_chars(y)) == (x.key() < y.key()),
{
    lemma_names_compare_by_fields(x, y);
    lemma_keys_compare_by_fields(x, y);
}

} // verus!
