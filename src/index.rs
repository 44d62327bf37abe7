use vstd::prelude::*;
use crate::version::{
    file_chars, is_version_name, lemma_file_name_round_trip, lemma_version_name_is_file_name,
    parse_file_name, stamp_of_name, VersionStamp,
};

verus! {

/// Ids strictly increase along the sequence, and each fits its fixed width.
pub open spec fn strictly_ordered(s: Seq<VersionStamp>) -> bool {
    &&& forall|i: int| 0 <= i < s.len() ==> #[trigger] s[i].fits()
    &&& forall|i: int, j: int| 0 <= i < j < s.len() ==> s[i].key() < s[j].key()
}

/// Some name in `names` is the file name of the version `st`.
pub open spec fn named_in(names: Seq<String>, st: VersionStamp) -> bool {
    exists|i: int|
        0 <= i < names.len() && is_version_name(#[trigger] names[i]@) && stamp_of_name(names[i]@)
            == st
}

proof fn lemma_split_100(a: int, b: int, c: int, d: int)
    requires
        0 <= b < 100,
        0 <= d < 100,
        a * 100 + b == c * 100 + d,
    ensures
        a == c,
        b == d,
{
    assert(a == c && b == d) by (nonlinear_arith)
        requires
            0 <= b < 100,
            0 <= d < 100,
            a * 100 + b == c * 100 + d,
    ;
}

/// Two stamps that fit their widths are equal exactly when their keys are.
pub proof fn lemma_key_injective(a: VersionStamp, b: VersionStamp)
    requires
        a.fits(),
        b.fits(),
        a.key() == b.key(),
    ensures
        a == b,
{
    let a1 = (a.year * 100 + a.month) as int;
    let b1 = (b.year * 100 + b.month) as int;
    let a2 = a1 * 100 + a.day;
    let b2 = b1 * 100 + b.day;
    let a3 = a2 * 100 + a.hour;
    let b3 = b2 * 100 + b.hour;
    let a4 = a3 * 100 + a.minute;
    let b4 = b3 * 100 + b.minute;
    lemma_split_100(a4, a.second as int, b4, b.second as int);
    lemma_split_100(a3, a.minute as int, b3, b.minute as int);
    lemma_split_100(a2, a.hour as int, b2, b.hour as int);
    lemma_split_100(a1, a.day as int, b1, b.day as int);
    lemma_split_100(a.year as int, a.month as int, b.year as int, b.month as int);
}

/// Puts `st` into its place in an ordered sequence of versions, once.
fn insert_ordered(v: &mut Vec<VersionStamp>, st: VersionStamp)
    requires
        strictly_ordered(old(v)@),
        st.fits(),
    ensures
        strictly_ordered(final(v)@),
        forall|x: VersionStamp| #[trigger]
            final(v)@.contains(x) <==> old(v)@.contains(x) || x == st,
{
    let mut p: usize = 0;
    while p < v.len() && v[p].is_before(&st)
        invariant
            strictly_ordered(v@),
            st.fits(),
            p <= v@.len(),
            forall|j: int| 0 <= j < p ==> #[trigger] v@[j].key() < st.key(),
        decreases v@.len() - p,
    {
        p = p + 1;
    }
    if p < v.len() && !st.is_before(&v[p]) {
        proof {
            lemma_key_injective(v@[p as int], st);
        }
        assert(v@.contains(st));
        return;
    }
    let ghost before = v@;
    v.insert(p, st);
    proof {
        assert forall|x: VersionStamp| #[trigger]
            v@.contains(x) <==> before.contains(x) || x == st by {
            if v@.contains(x) {
                let k = choose|k: int| 0 <= k < v@.len() && v@[k] == x;
                if k < p {
                    assert(before[k] == x);
                } else if k > p {
                    assert(before[k - 1] == x);
                }
            }
            if before.contains(x) {
                let k = choose|k: int| 0 <= k < before.len() && before[k] == x;
                if k < p {
                    assert(v@[k] == x);
                } else {
                    assert(v@[k + 1] == x);
                }
            }
            if x == st {
                assert(v@[p as int] == x);
            }
        }
    }
}

/// The version index: the stamps of the names that follow the version naming
/// convention, each once, in ascending order. Other names are left out.
pub fn list_versions(names: &Vec<String>) -> (r: Vec<VersionStamp>)
    ensures
        strictly_ordered(r@),
        forall|st: VersionStamp| #[trigger] r@.contains(st) <==> named_in(names@, st),
{
    let mut r: Vec<VersionStamp> = Vec::new();
    let mut i: usize = 0;
    while i < names.len()
        invariant
            i <= names@.len(),
            strictly_ordered(r@),
            forall|st: VersionStamp| #[trigger]
                r@.contains(st) <==> named_in(names@.take(i as int), st),
        decreases names@.len() - i,
    {
        let parsed = parse_file_name(names[i].as_str());
        let ghost prev = r@;
        if let Some(st) = parsed {
            insert_ordered(&mut r, st);
        }
        proof {
            let t = names@.take(i + 1);
            assert forall|st: VersionStamp| #[trigger]
                r@.contains(st) <==> named_in(t, st) by {
                if named_in(t, st) {
                    let k = choose|k: int|
                        0 <= k < t.len() && is_version_name(#[trigger] t[k]@) && stamp_of_name(
                            t[k]@,
                        ) == st;
                    if k < i {
                        assert(names@.take(i as int)[k] == t[k]);
                        assert(named_in(names@.take(i as int), st));
                    }
                }
                if named_in(names@.take(i as int), st) {
                    let k = choose|k: int|
                        0 <= k < i && is_version_name(#[trigger] names@.take(i as int)[k]@)
                            && stamp_of_name(names@.take(i as int)[k]@) == st;
                    assert(t[k] == names@.take(i as int)[k]);
                }
                if parsed == Some(st) {
                    assert(t[i as int] == names@[i as int]);
                }
            }
        }
        i = i + 1;
    }
    assert(names@.take(names@.len() as int) =~= names@);
    r
}

/// The latest version of an ordered index, if there is one.
pub fn latest(versions: &Vec<VersionStamp>) -> (r: Option<VersionStamp>)
    ensures
        versions@.len() == 0 ==> r is None,
        versions@.len() > 0 ==> r == Some(versions@.last()),
{
    if versions.len() == 0 {
        None
    } else {
        Some(versions[versions.len() - 1])
    }
}

/// The versions a retention pass removes from an ordered index: all but the
/// `keep` most recent, oldest first.
pub fn versions_to_prune(versions: &Vec<VersionStamp>, keep: usize) -> (r: Vec<VersionStamp>)
    ensures
        versions@.len() <= keep ==> r@ == Seq::<VersionStamp>::empty(),
        versions@.len() > keep ==> r@ == versions@.take(versions@.len() - keep),
{
    let mut r: Vec<VersionStamp> = Vec::new();
    if versions.len() <= keep {
        assert(r@ =~= Seq::<VersionStamp>::empty());
        return r;
    }
    let n = versions.len() - keep;
    let mut i: usize = 0;
    while i < n
        invariant
            n == versions@.len() - keep,
            n <= versions@.len(),
            i <= n,
            r@ == versions@.take(i as int),
        decreases n - i,
    {
        r.push(versions[i]);
        assert(r@ =~= versions@.take(i + 1));
        i = i + 1;
    }
    r
}

/// The file names of an ordered index, in the same order.
pub fn file_names(versions: &Vec<VersionStamp>) -> (r: Vec<String>)
    requires
        strictly_ordered(versions@),
    ensures
        r@.len() == versions@.len(),
        forall|i: int| 0 <= i < r@.len() ==> (#[trigger] r@[i])@ == file_chars(versions@[i]),
{
    let mut r: Vec<String> = Vec::new();
    let mut i: usize = 0;
    while i < versions.len()
        invariant
            strictly_ordered(versions@),
            i <= versions@.len(),
            r@.len() == i,
            forall|j: int| 0 <= j < i ==> (#[trigger] r@[j])@ == file_chars(versions@[j]),
        decreases versions@.len() - i,
    {
        r.push(versions[i].file_name());
        i = i + 1;
    }
    r
}

/// `s` is one of `names`.
pub open spec fn listed(names: Seq<String>, s: Seq<char>) -> bool {
    exists|k: int| 0 <= k < names.len() && names[k]@ == s
}

/// The version file names among `names`, each once, ordered by the stamps they
/// spell; every other name is left out.
pub fn collect_files(names: &Vec<String>) -> (r: Vec<String>)
    ensures
        forall|i: int| 0 <= i < r@.len() ==> is_version_name(#[trigger] r@[i]@),
        forall|i: int, j: int|
            0 <= i < j < r@.len() ==> stamp_of_name(r@[i]@).key() < stamp_of_name(r@[j]@).key(),
        forall|i: int| 0 <= i < r@.len() ==> #[trigger] listed(names@, r@[i]@),
        forall|k: int|
            0 <= k < names@.len() && is_version_name(#[trigger] names@[k]@) ==> exists|i: int|
                0 <= i < r@.len() && r@[i]@ == names@[k]@,
{
    let v = list_versions(names);
    let r = file_names(&v);
    proof {
        assert forall|i: int| 0 <= i < r@.len() implies is_version_name(#[trigger] r@[i]@)
            && stamp_of_name(r@[i]@) == v@[i] by {
            assert(v@[i].fits());
            lemma_file_name_round_trip(v@[i]);
        }
        assert forall|i: int| 0 <= i < r@.len() implies #[trigger] listed(names@, r@[i]@) by {
            assert(v@.contains(v@[i]));
            let k = choose|k: int|
                0 <= k < names@.len() && is_version_name(#[trigger] names@[k]@) && stamp_of_name(
                    names@[k]@,
                ) == v@[i];
            lemma_version_name_is_file_name(names@[k]@);
            assert(names@[k]@ == r@[i]@);
        }
        assert forall|k: int|
            0 <= k < names@.len() && is_version_name(#[trigger] names@[k]@) implies exists|i: int|
                0 <= i < r@.len() && r@[i]@ == names@[k]@ by {
            let st = stamp_of_name(names@[k]@);
            assert(named_in(names@, st));
            assert(v@.contains(st));
            let i = choose|i: int| 0 <= i < v@.len() && v@[i] == st;
            lemma_version_name_is_file_name(names@[k]@);
            assert(r@[i]@ == names@[k]@);
        }
    }
    r
}

} // verus!
