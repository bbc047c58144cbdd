//! Request-level processing of lease collections: source resolution over
//! directory listings, aggregation across files, and normalization
//! (deduplication to the latest lease per device, then ordering).
use vstd::prelude::*;
use vstd::seq_lib::{to_multiset_contains, to_multiset_insert, to_multiset_remove};
use crate::lease::{FileParseError, FileParseErrorV, Lease, LeaseV};
use crate::text::{
    ends_with_str, is_prefix, is_suffix, lemma_lex_le_antisym, lemma_lex_le_total, lemma_lex_le_trans, lex_le,
    starts_with_str, str_eq, str_le,
};

verus! {

/// The record fields a caller may order the final collection by.
#[derive(Debug, Clone, Copy, PartialEq, Eq, Structural)]
pub enum SortField {
    Ip,
    Mac,
    Expiry,
    Name,
}

/// A total preorder on leases: either the internal grouping order used for
/// deduplication (hardware address ascending, expiry descending within a
/// device), or a caller-chosen field, optionally reversed.
#[derive(Debug, Clone, Copy)]
pub enum LeaseOrd {
    HwLatest,
    Field(SortField, bool),
}

/// Order on optional hostnames: absence sorts first.
pub open spec fn name_le(a: Option<Seq<char>>, b: Option<Seq<char>>) -> bool {
    match (a, b) {
        (Option::None, _) => true,
        (Option::Some(_), Option::None) => false,
        (Option::Some(x), Option::Some(y)) => lex_le(x, y),
    }
}

pub open spec fn base_le(f: SortField, x: LeaseV, y: LeaseV) -> bool {
    match f {
        SortField::Ip => x.ip_addr <= y.ip_addr,
        SortField::Mac => lex_le(x.hw_addr, y.hw_addr),
        SortField::Expiry => x.expires <= y.expires,
        SortField::Name => name_le(x.hostname, y.hostname),
    }
}

pub open spec fn hw_latest_le(x: LeaseV, y: LeaseV) -> bool {
    if x.hw_addr == y.hw_addr {
        y.expires <= x.expires
    } else {
        lex_le(x.hw_addr, y.hw_addr)
    }
}

pub open spec fn ord_le(o: LeaseOrd, x: LeaseV, y: LeaseV) -> bool {
    match o {
        LeaseOrd::HwLatest => hw_latest_le(x, y),
        LeaseOrd::Field(f, desc) => if desc {
            base_le(f, y, x)
        } else {
            base_le(f, x, y)
        },
    }
}

proof fn lemma_base_total(f: SortField, x: LeaseV, y: LeaseV)
    ensures
        base_le(f, x, y) || base_le(f, y, x),
{
    match f {
        SortField::Mac => lemma_lex_le_total(x.hw_addr, y.hw_addr),
        SortField::Name => {
            match (x.hostname, y.hostname) {
                (Option::Some(a), Option::Some(b)) => lemma_lex_le_total(a, b),
                _ => {},
            }
        },
        _ => {},
    }
}

proof fn lemma_base_trans(f: SortField, x: LeaseV, y: LeaseV, z: LeaseV)
    requires
        base_le(f, x, y),
        base_le(f, y, z),
    ensures
        base_le(f, x, z),
{
    match f {
        SortField::Mac => lemma_lex_le_trans(x.hw_addr, y.hw_addr, z.hw_addr),
        SortField::Name => {
            match (x.hostname, y.hostname, z.hostname) {
                (Option::Some(a), Option::Some(b), Option::Some(c)) => lemma_lex_le_trans(
                    a,
                    b,
                    c,
                ),
                _ => {},
            }
        },
        _ => {},
    }
}

pub proof fn lemma_ord_total(o: LeaseOrd, x: LeaseV, y: LeaseV)
    ensures
        ord_le(o, x, y) || ord_le(o, y, x),
{
    match o {
        LeaseOrd::HwLatest => {
            if x.hw_addr != y.hw_addr {
                lemma_lex_le_total(x.hw_addr, y.hw_addr);
            }
        },
        LeaseOrd::Field(f, _) => lemma_base_total(f, x, y),
    }
}

pub proof fn lemma_ord_trans(o: LeaseOrd, x: LeaseV, y: LeaseV, z: LeaseV)
    requires
        ord_le(o, x, y),
        ord_le(o, y, z),
    ensures
        ord_le(o, x, z),
{
    match o {
        LeaseOrd::HwLatest => {
            if x.hw_addr == y.hw_addr && y.hw_addr == z.hw_addr {
            } else if x.hw_addr == y.hw_addr {
                assert(x.hw_addr != z.hw_addr);
            } else if y.hw_addr == z.hw_addr {
                assert(x.hw_addr != z.hw_addr);
            } else {
                lemma_lex_le_trans(x.hw_addr, y.hw_addr, z.hw_addr);
                if x.hw_addr == z.hw_addr {
                    lemma_lex_le_antisym(x.hw_addr, y.hw_addr);
                }
            }
        },
        LeaseOrd::Field(f, desc) => {
            if desc {
                lemma_base_trans(f, z, y, x);
            } else {
                lemma_base_trans(f, x, y, z);
            }
        },
    }
}

fn opt_name_le(a: &Option<String>, b: &Option<String>) -> (r: bool)
    ensures
        r == name_le(a.deep_view(), b.deep_view()),
{
    match (a, b) {
        (Option::None, _) => true,
        (Option::Some(_), Option::None) => false,
        (Option::Some(x), Option::Some(y)) => str_le(x.as_str(), y.as_str()),
    }
}

/// Does `a` come at or before `b` under the order `o`?
pub fn lease_ord_le(o: LeaseOrd, a: &Lease, b: &Lease) -> (r: bool)
    ensures
        r == ord_le(o, a@, b@),
{
    match o {
        LeaseOrd::HwLatest => {
            if str_eq(a.hw_addr.as_str(), b.hw_addr.as_str()) {
                b.expires <= a.expires
            } else {
                str_le(a.hw_addr.as_str(), b.hw_addr.as_str())
            }
        },
        LeaseOrd::Field(f, desc) => {
            let (x, y) = if desc {
                (b, a)
            } else {
                (a, b)
            };
            match f {
                SortField::Ip => x.ip_addr <= y.ip_addr,
                SortField::Mac => str_le(x.hw_addr.as_str(), y.hw_addr.as_str()),
                SortField::Expiry => x.expires <= y.expires,
                SortField::Name => opt_name_le(&x.hostname, &y.hostname),
            }
        },
    }
}

/// Non-decreasing under `o`, pairwise.
pub open spec fn sorted_by_ord(o: LeaseOrd, s: Seq<LeaseV>) -> bool {
    forall|p: int, q: int| 0 <= p < q < s.len() ==> ord_le(o, s[p], s[q])
}

/// Stable insertion sort of the collection under the order `o`.
pub fn sort_leases(v: &mut Vec<Lease>, o: LeaseOrd)
    ensures
        sorted_by_ord(o, final(v).deep_view()),
        final(v).deep_view().to_multiset() == old(v).deep_view().to_multiset(),
        final(v)@.len() == old(v)@.len(),
{
    let mut i: usize = 1;
    while i < v.len()
        invariant
            1 <= i,
            i <= v@.len() || v@.len() <= 1,
            v@.len() == old(v)@.len(),
            v.deep_view().to_multiset() == old(v).deep_view().to_multiset(),
            i <= v@.len() ==> sorted_by_ord(o, v.deep_view().take(i as int)),
        decreases v@.len() - i,
    {
        let ghost pre = v.deep_view();
        let ghost pre_raw = v@;
        let x = v.remove(i);
        proof {
            assert forall|k: int| 0 <= k < v@.len() implies v.deep_view()[k] == pre.remove(
                i as int,
            )[k] by {
                if k < i {
                    assert(v@[k] == pre_raw[k]);
                    assert(pre.remove(i as int)[k] == pre[k]);
                } else {
                    assert(v@[k] == pre_raw[k + 1]);
                    assert(pre.remove(i as int)[k] == pre[k + 1]);
                }
            }
            assert(v.deep_view() =~= pre.remove(i as int));
            to_multiset_remove(pre, i as int);
            assert(x@ == pre[i as int]);
        }
        let mut j: usize = i;
        while j > 0 && !lease_ord_le(o, &v[j - 1], &x)
            invariant
                j <= i,
                i < pre_raw.len(),
                pre_raw.len() == old(v)@.len(),
                v@ == pre_raw.remove(i as int),
                v.deep_view() == pre.remove(i as int),
                forall|k: int| j <= k < i ==> !ord_le(o, v.deep_view()[k], x@),
            decreases j,
        {
            proof {
                assert(v@[j - 1]@ == v.deep_view()[j - 1]);
            }
            j -= 1;
        }
        let ghost mid = v.deep_view();
        let ghost mid_raw = v@;
        v.insert(j, x);
        proof {
            mid.insert_ensures(j as int, x@);
            mid_raw.insert_ensures(j as int, x);
            assert forall|k: int| 0 <= k < v@.len() implies v.deep_view()[k] == mid.insert(
                j as int,
                x@,
            )[k] by {
                if k < j {
                    assert(v@[k] == mid_raw[k]);
                } else if k == j {
                    assert(v@[k] == x);
                } else {
                    assert(v@[k] == mid_raw[k - 1]);
                }
            }
            assert(v.deep_view() =~= mid.insert(j as int, x@));
            to_multiset_insert(mid, j as int, x@);
            to_multiset_contains(pre, x@);
            assert(pre.contains(x@)) by {
                assert(pre[i as int] == x@);
            }
            assert(v.deep_view().to_multiset() =~= pre.to_multiset());
            // the prefix of length i + 1 is sorted again
            pre.remove_ensures(i as int);
            assert forall|p: int, q: int|
                0 <= p < q < i + 1 implies ord_le(o, v.deep_view()[p], v.deep_view()[q]) by {
                let dv = v.deep_view();
                let sp = pre.take(i as int);
                assert(forall|k: int| 0 <= k < i ==> mid[k] == sp[k]);
                assert(forall|k: int| 0 <= k < j ==> dv[k] == sp[k]);
                assert(dv[j as int] == x@);
                assert(forall|k: int| j < k < i + 1 ==> dv[k] == sp[k - 1]);
                if q == j {
                    // everything before position j was at most x already
                    assert(ord_le(o, sp[j - 1], x@));
                    if p < j - 1 {
                        assert(ord_le(o, sp[p], sp[j - 1]));
                        lemma_ord_trans(o, sp[p], sp[j - 1], x@);
                    }
                } else if p == j {
                    // everything displaced one slot right was not at most x
                    assert(!ord_le(o, sp[q - 1], x@));
                    lemma_ord_total(o, sp[q - 1], x@);
                } else if p < j && q > j {
                    assert(dv[p] == sp[p] && dv[q] == sp[q - 1] && p < q - 1);
                } else if q < j {
                    assert(dv[p] == sp[p] && dv[q] == sp[q]);
                } else {
                    assert(dv[p] == sp[p - 1] && dv[q] == sp[q - 1]);
                }
            }
            assert(v.deep_view().take(i + 1).len() == i + 1);
            assert(forall|k: int|
                0 <= k < i + 1 ==> v.deep_view().take(i + 1)[k] == v.deep_view()[k]);
        }
        i += 1;
    }
    proof {
        if old(v)@.len() > 1 {
            assert(v.deep_view().take(v@.len() as int) =~= v.deep_view());
        }
    }
}


/// No two records for the same device.
pub open spec fn distinct_hw(s: Seq<LeaseV>) -> bool {
    forall|i: int, j: int| 0 <= i < j < s.len() ==> s[i].hw_addr != s[j].hw_addr
}

/// What deduplication promises: one record per device, each drawn from the
/// input, carrying an expiry no earlier than any input record of its device,
/// and every input device still represented.
pub open spec fn dedup_ok(input: Seq<LeaseV>, out: Seq<LeaseV>) -> bool {
    &&& distinct_hw(out)
    &&& forall|i: int| 0 <= i < out.len() ==> input.contains(#[trigger] out[i])
    &&& forall|p: int|
        0 <= p < input.len() ==> exists|i: int|
            0 <= i < out.len() && (#[trigger] out[i]).hw_addr == (#[trigger] input[p]).hw_addr
                && input[p].expires <= out[i].expires
}

/// In a collection sorted for deduplication, the records of one device
/// stand together: anything between two records of a device belongs to it.
pub proof fn lemma_hw_run(s: Seq<LeaseV>, i: int, k: int, j: int)
    requires
        sorted_by_ord(LeaseOrd::HwLatest, s),
        0 <= i <= k <= j < s.len(),
        s[i].hw_addr == s[j].hw_addr,
    ensures
        s[k].hw_addr == s[i].hw_addr,
{
    if i < k && k < j {
        assert(ord_le(LeaseOrd::HwLatest, s[i], s[k]));
        assert(ord_le(LeaseOrd::HwLatest, s[k], s[j]));
        if s[k].hw_addr != s[i].hw_addr {
            lemma_lex_le_antisym(s[i].hw_addr, s[k].hw_addr);
        }
    }
}

/// Keeps, per device, the first record of its run: the one with the latest
/// expiry, since the collection is sorted by device and expiry descending.
#[verifier::rlimit(100)]
fn dedup_latest(v: &mut Vec<Lease>)
    requires
        sorted_by_ord(LeaseOrd::HwLatest, old(v).deep_view()),
    ensures
        dedup_ok(old(v).deep_view(), final(v).deep_view()),
        sorted_by_ord(LeaseOrd::HwLatest, final(v).deep_view()),
{
    let ghost orig = v.deep_view();
    let n0 = v.len();
    let mut out: Vec<Lease> = Vec::new();
    let ghost mut idxs: Seq<int> = Seq::empty();
    let mut k: usize = 0;
    while v.len() > 0
        invariant
            sorted_by_ord(LeaseOrd::HwLatest, orig),
            orig.len() == n0,
            k + v@.len() == orig.len(),
            v.deep_view() == orig.skip(k as int),
            idxs.len() == out@.len(),
            forall|t: int|
                0 <= t < idxs.len() ==> 0 <= #[trigger] idxs[t] < k && out.deep_view()[t]
                    == orig[idxs[t]],
            forall|t1: int, t2: int| 0 <= t1 < t2 < idxs.len() ==> idxs[t1] < idxs[t2],
            forall|t: int|
                0 <= t < idxs.len() - 1 ==> orig[#[trigger] idxs[t]].hw_addr != orig[idxs[t
                    + 1]].hw_addr,
            k > 0 ==> idxs.len() > 0 && orig[idxs[idxs.len() - 1]].hw_addr == orig[k
                - 1].hw_addr,
            forall|p: int|
                0 <= p < k ==> exists|i: int|
                    0 <= i < out.deep_view().len() && (#[trigger] out.deep_view()[i]).hw_addr
                        == (#[trigger] orig[p]).hw_addr && orig[p].expires <= out.deep_view()[i].expires,
        decreases v@.len(),
    {
        let ghost prev_dv = v.deep_view();
        let ghost prev_raw = v@;
        let x = v.remove(0);
        proof {
            assert forall|t: int| 0 <= t < v@.len() implies v.deep_view()[t] == orig.skip(
                k + 1,
            )[t] by {
                assert(v@[t] == prev_raw[t + 1]);
                assert(prev_dv[t + 1] == orig.skip(k as int)[t + 1]);
            }
            assert(v.deep_view() =~= orig.skip(k + 1));
            assert(x@ == prev_dv[0]);
            assert(x@ == orig[k as int]);
        }
        let keep: bool = if out.len() == 0 {
            true
        } else {
            !str_eq(out[out.len() - 1].hw_addr.as_str(), x.hw_addr.as_str())
        };
        proof {
            if out@.len() > 0 {
                assert(out@[out@.len() - 1]@ == out.deep_view()[idxs.len() - 1]);
            }
        }
        if keep {
            let ghost prev_out = out.deep_view();
            let ghost prev_out_raw = out@;
            out.push(x);
            proof {
                assert forall|t: int|
                    0 <= t < out@.len() implies out.deep_view()[t] == prev_out.push(x@)[t] by {
                    if t < prev_out_raw.len() {
                        assert(out@[t] == prev_out_raw[t]);
                    } else {
                        assert(out@[t] == x);
                    }
                }
                assert(out.deep_view() =~= prev_out.push(x@));
                idxs = idxs.push(k as int);
                assert(out.deep_view()[idxs.len() - 1] == orig[k as int]);
                assert forall|p: int| 0 <= p < k + 1 implies exists|i: int|
                    0 <= i < out.deep_view().len() && (#[trigger] out.deep_view()[i]).hw_addr
                        == (#[trigger] orig[p]).hw_addr && orig[p].expires <= out.deep_view()[i].expires by {
                    if p < k {
                        let i = choose|i: int|
                            0 <= i < prev_out.len() && (#[trigger] prev_out[i]).hw_addr
                                == orig[p].hw_addr && orig[p].expires <= prev_out[i].expires;
                        assert(out.deep_view()[i].hw_addr == orig[p].hw_addr && orig[p].expires
                            <= out.deep_view()[i].expires);
                    } else {
                        let i = idxs.len() - 1;
                        assert(out.deep_view()[i].hw_addr == orig[p].hw_addr && orig[p].expires
                            <= out.deep_view()[i].expires);
                    }
                }
            }
        } else {
            proof {
                let last = idxs.len() - 1;
                let m = idxs[last];
                assert(out.deep_view()[last] == orig[m]);
                assert(orig[m].hw_addr == x@.hw_addr);
                assert(ord_le(LeaseOrd::HwLatest, orig[m], orig[k as int]));
                assert(orig[k as int].expires <= orig[m].expires);
                assert forall|p: int| 0 <= p < k + 1 implies exists|i: int|
                    0 <= i < out.deep_view().len() && (#[trigger] out.deep_view()[i]).hw_addr
                        == (#[trigger] orig[p]).hw_addr && orig[p].expires <= out.deep_view()[i].expires by {
                    if p == k {
                        assert(out.deep_view()[last].hw_addr == orig[p].hw_addr && orig[
                            p
                        ].expires <= out.deep_view()[last].expires);
                    }
                }
            }
        }
        k += 1;
    }
    proof {
        assert(k == orig.len());
        let dv = out.deep_view();
        assert forall|t1: int, t2: int|
            0 <= t1 < t2 < dv.len() implies dv[t1].hw_addr != dv[t2].hw_addr by {
            if dv[t1].hw_addr == dv[t2].hw_addr {
                assert(orig[idxs[t1]].hw_addr == orig[idxs[t2]].hw_addr);
                assert(idxs[t2 - 1] >= idxs[t1]) by {
                    if t1 < t2 - 1 {
                        assert(idxs[t1] < idxs[t2 - 1]);
                    }
                }
                lemma_hw_run(orig, idxs[t1], idxs[t2 - 1], idxs[t2]);
            }
        }
        assert forall|t1: int, t2: int|
            0 <= t1 < t2 < dv.len() implies ord_le(LeaseOrd::HwLatest, dv[t1], dv[t2]) by {
            assert(dv[t1] == orig[idxs[t1]] && dv[t2] == orig[idxs[t2]]);
        }
        assert forall|i: int| 0 <= i < dv.len() implies orig.contains(#[trigger] dv[i]) by {
            assert(orig[idxs[i]] == dv[i]);
        }
    }
    *v = out;
}


proof fn lemma_dup_gives_count2(s: Seq<LeaseV>, i: int, j: int)
    requires
        0 <= i < j < s.len(),
        s[i] == s[j],
    ensures
        s.to_multiset().count(s[i]) >= 2,
{
    broadcast use vstd::multiset::group_multiset_axioms;

    to_multiset_remove(s, j);
    to_multiset_contains(s.remove(j), s[i]);
    assert(s.remove(j)[i] == s[i]);
    assert(s.remove(j).contains(s[i]));
}

proof fn lemma_count2_gives_dup(s: Seq<LeaseV>, a: LeaseV)
    requires
        s.to_multiset().count(a) >= 2,
    ensures
        exists|i: int, j: int| 0 <= i < j < s.len() && s[i] == a && s[j] == a,
{
    broadcast use vstd::multiset::group_multiset_axioms;

    to_multiset_contains(s, a);
    let i = choose|i: int| 0 <= i < s.len() && s[i] == a;
    to_multiset_remove(s, i);
    to_multiset_contains(s.remove(i), a);
    assert(s.remove(i).contains(a));
    let m = choose|m: int| 0 <= m < s.remove(i).len() && s.remove(i)[m] == a;
    s.remove_ensures(i);
    if m < i {
        assert(s[m] == a);
        assert(0 <= m < i < s.len() && s[m] == a && s[i] == a);
    } else {
        assert(s[m + 1] == a);
        assert(0 <= i < m + 1 < s.len() && s[i] == a && s[m + 1] == a);
    }
}

/// The devices of a collection do not change under reordering, nor does
/// its freedom from duplicate devices.
proof fn lemma_distinct_hw_permutation(s1: Seq<LeaseV>, s2: Seq<LeaseV>)
    requires
        s1.to_multiset() == s2.to_multiset(),
        distinct_hw(s1),
    ensures
        distinct_hw(s2),
{
    assert forall|i: int, j: int|
        0 <= i < j < s2.len() implies s2[i].hw_addr != s2[j].hw_addr by {
        if s2[i].hw_addr == s2[j].hw_addr {
            if s2[i] == s2[j] {
                lemma_dup_gives_count2(s2, i, j);
                lemma_count2_gives_dup(s1, s2[i]);
            } else {
                to_multiset_contains(s2, s2[i]);
                to_multiset_contains(s2, s2[j]);
                to_multiset_contains(s1, s2[i]);
                to_multiset_contains(s1, s2[j]);
                assert(s2.contains(s2[i]));
                assert(s2.contains(s2[j]));
                let p = choose|p: int| 0 <= p < s1.len() && s1[p] == s2[i];
                let q = choose|q: int| 0 <= q < s1.len() && s1[q] == s2[j];
                assert(p != q);
            }
        }
    }
}

/// The sort field named by a request's `sort` parameter, if recognized.
pub open spec fn spec_sort_field(s: Seq<char>) -> Option<SortField> {
    if s == "ip"@ {
        Some(SortField::Ip)
    } else if s == "mac"@ {
        Some(SortField::Mac)
    } else if s == "exp"@ {
        Some(SortField::Expiry)
    } else if s == "name"@ {
        Some(SortField::Name)
    } else {
        None
    }
}

/// Maps a request's `sort` parameter to a sort field; unknown names map
/// to `None` and leave the collection in its pre-sort order.
pub fn sort_field_from_str(s: &str) -> (r: Option<SortField>)
    ensures
        r == spec_sort_field(s@),
{
    if str_eq(s, "ip") {
        Some(SortField::Ip)
    } else if str_eq(s, "mac") {
        Some(SortField::Mac)
    } else if str_eq(s, "exp") {
        Some(SortField::Expiry)
    } else if str_eq(s, "name") {
        Some(SortField::Name)
    } else {
        None
    }
}

/// The parameters that may be added to the request for the lease listing.
pub struct RequestParams {
    pub sort_on: Option<String>,
    pub sort_desc: bool,
}

/// The order the final collection is delivered in: the caller's sort field
/// (reversed when descending is requested), ascending IP address when no
/// field is given, and the deduplication order (device ascending) when the
/// field is unrecognized.
pub open spec fn requested_ord(sort_on: Option<Seq<char>>, desc: bool) -> LeaseOrd {
    match sort_on {
        Option::None => LeaseOrd::Field(SortField::Ip, false),
        Option::Some(s) => match spec_sort_field(s) {
            Option::Some(f) => LeaseOrd::Field(f, desc),
            Option::None => LeaseOrd::HwLatest,
        },
    }
}

/// Deduplication judged against any reordering of the input.
proof fn lemma_dedup_ok_input_perm(input: Seq<LeaseV>, sorted: Seq<LeaseV>, out: Seq<LeaseV>)
    requires
        input.to_multiset() == sorted.to_multiset(),
        dedup_ok(sorted, out),
    ensures
        dedup_ok(input, out),
{
    assert forall|i: int| 0 <= i < out.len() implies input.contains(#[trigger] out[i]) by {
        assert(sorted.contains(out[i]));
        to_multiset_contains(sorted, out[i]);
        to_multiset_contains(input, out[i]);
    }
    assert forall|p: int|
        0 <= p < input.len() implies exists|i: int|
            0 <= i < out.len() && (#[trigger] out[i]).hw_addr == (#[trigger] input[p]).hw_addr
                && input[p].expires <= out[i].expires by {
        to_multiset_contains(input, input[p]);
        to_multiset_contains(sorted, input[p]);
        assert(input.contains(input[p]));
        assert(sorted.contains(input[p]));
        let q = choose|q: int| 0 <= q < sorted.len() && sorted[q] == input[p];
        let i = choose|i: int|
            0 <= i < out.len() && (#[trigger] out[i]).hw_addr == sorted[q].hw_addr && sorted[
                q
            ].expires <= out[i].expires;
        assert(out[i].hw_addr == input[p].hw_addr && input[p].expires <= out[i].expires);
    }
}

/// Deduplication survives any reordering of the output.
proof fn lemma_dedup_ok_output_perm(input: Seq<LeaseV>, out1: Seq<LeaseV>, out2: Seq<LeaseV>)
    requires
        dedup_ok(input, out1),
        out1.to_multiset() == out2.to_multiset(),
    ensures
        dedup_ok(input, out2),
{
    lemma_distinct_hw_permutation(out1, out2);
    assert forall|i: int| 0 <= i < out2.len() implies input.contains(#[trigger] out2[i]) by {
        to_multiset_contains(out2, out2[i]);
        to_multiset_contains(out1, out2[i]);
        assert(out1.contains(out2[i]));
    }
    assert forall|p: int|
        0 <= p < input.len() implies exists|i: int|
            0 <= i < out2.len() && (#[trigger] out2[i]).hw_addr == (#[trigger] input[
                p
            ]).hw_addr && input[p].expires <= out2[i].expires by {
        let w = choose|w: int|
            0 <= w < out1.len() && (#[trigger] out1[w]).hw_addr == input[p].hw_addr && input[
                p
            ].expires <= out1[w].expires;
        to_multiset_contains(out1, out1[w]);
        to_multiset_contains(out2, out1[w]);
        assert(out2.contains(out1[w]));
        let i = choose|i: int| 0 <= i < out2.len() && out2[i] == out1[w];
        assert(out2[i].hw_addr == input[p].hw_addr && input[p].expires <= out2[i].expires);
    }
}

/// Normalizes an aggregated collection: keeps, per device, only the record
/// with the latest expiry, then orders the result as requested.
pub fn preprocess_leases(leases: &mut Vec<Lease>, params: &RequestParams)
    ensures
        dedup_ok(old(leases).deep_view(), final(leases).deep_view()),
        sorted_by_ord(
            requested_ord(params.sort_on.deep_view(), params.sort_desc),
            final(leases).deep_view(),
        ),
{
    let ghost input = leases.deep_view();
    sort_leases(leases, LeaseOrd::HwLatest);
    let ghost sorted = leases.deep_view();
    dedup_latest(leases);
    let ghost deduped = leases.deep_view();
    proof {
        lemma_dedup_ok_input_perm(input, sorted, deduped);
    }
    let ord: Option<LeaseOrd> = match &params.sort_on {
        Option::None => Some(LeaseOrd::Field(SortField::Ip, false)),
        Option::Some(s) => {
            match sort_field_from_str(s.as_str()) {
                Some(f) => Some(LeaseOrd::Field(f, params.sort_desc)),
                None => None,
            }
        },
    };
    match ord {
        Some(o) => {
            sort_leases(leases, o);
            proof {
                lemma_dedup_ok_output_perm(input, deduped, leases.deep_view());
            }
        },
        None => {},
    }
}

/// All the fields that the surrounding request handler keeps during the
/// server's execution.
pub struct Context {
    pub settings: crate::config::Settings,
}

impl Context {
    pub fn new(settings: crate::config::Settings) -> (r: Self)
        ensures
            r.settings == settings,
    {
        Self { settings }
    }
}


/// Whether the configured location is a wildcard prefix pattern.
pub fn is_wildcard(location: &str) -> (r: bool)
    ensures
        r == (location@.len() > 0 && location@[location@.len() - 1] == '*'),
{
    let n = location.unicode_len();
    n > 0 && location.get_char(n - 1) == '*'
}

/// An entry kept by wildcard resolution: its path continues the pattern's
/// prefix and is no lock artifact.
pub open spec fn keeps_entry(prefix: Seq<char>, e: Seq<char>) -> bool {
    is_prefix(prefix, e) && !is_suffix(".lock"@, e)
}

/// The entries kept by wildcard resolution, in their original order.
pub open spec fn kept_entries(prefix: Seq<char>, es: Seq<Seq<char>>) -> Seq<Seq<char>>
    decreases es.len(),
{
    if es.len() == 0 {
        Seq::empty()
    } else if keeps_entry(prefix, es.last()) {
        kept_entries(prefix, es.drop_last()).push(es.last())
    } else {
        kept_entries(prefix, es.drop_last())
    }
}

/// Resolves a wildcard pattern over a directory listing: keeps, in listing
/// order, the entries whose full path starts with the pattern's prefix (the
/// text before the final `*`), excluding `.lock` files.
///
/// The caller lists the parent directory; `entries` are the listed paths.
pub fn matching_files(pattern: &str, entries: &Vec<String>) -> (r: Vec<String>)
    requires
        pattern@.len() >= 1,
        pattern@[pattern@.len() - 1] == '*',
    ensures
        r.deep_view() == kept_entries(pattern@.drop_last(), entries.deep_view()),
{
    let n = pattern.unicode_len();
    let prefix = pattern.substring_char(0, n - 1);
    proof {
        assert(prefix@ =~= pattern@.drop_last());
    }
    let mut out: Vec<String> = Vec::new();
    let mut j: usize = 0;
    proof {
        assert(entries.deep_view().take(0) =~= Seq::<Seq<char>>::empty());
    }
    while j < entries.len()
        invariant
            j <= entries@.len(),
            prefix@ == pattern@.drop_last(),
            out.deep_view() == kept_entries(prefix@, entries.deep_view().take(j as int)),
        decreases entries@.len() - j,
    {
        let e = &entries[j];
        proof {
            assert(e@ == entries.deep_view()[j as int]);
            assert(entries.deep_view().take(j + 1).drop_last() =~= entries.deep_view().take(
                j as int,
            ));
            assert(entries.deep_view().take(j + 1).last() == entries.deep_view()[j as int]);
        }
        if starts_with_str(e.as_str(), prefix) && !ends_with_str(e.as_str(), ".lock") {
            let ghost prev = out.deep_view();
            let ghost prev_raw = out@;
            out.push(e.clone());
            proof {
                assert forall|t: int|
                    0 <= t < out@.len() implies out.deep_view()[t] == prev.push(e@)[t] by {
                    if t < prev_raw.len() {
                        assert(out@[t] == prev_raw[t]);
                    } else {
                        assert(out@[t] == entries@[j as int]);
                    }
                }
                assert(out.deep_view() =~= prev.push(e@));
            }
        }
        j += 1;
    }
    proof {
        assert(entries.deep_view().take(entries@.len() as int) =~= entries.deep_view());
    }
    out
}

/// One entry of a listed directory, as the resolver needs it: its full
/// path and whether it is a plain file.
pub struct DirEntry {
    pub path: String,
    pub is_file: bool,
}

/// The mathematical shape of a directory entry.
pub struct DirEntryV {
    pub path: Seq<char>,
    pub is_file: bool,
}

impl View for DirEntry {
    type V = DirEntryV;

    open spec fn view(&self) -> DirEntryV {
        DirEntryV { path: self.path@, is_file: self.is_file }
    }
}

impl DeepView for DirEntry {
    type V = DirEntryV;

    open spec fn deep_view(&self) -> DirEntryV {
        self.view()
    }
}

/// An entry kept by directory resolution: a plain file that is no lock
/// artifact. Nested directories are ignored, not flattened.
pub open spec fn keeps_dir_entry(e: DirEntryV) -> bool {
    e.is_file && !is_suffix(".lock"@, e.path)
}

/// The paths kept by directory resolution, in listing order.
pub open spec fn kept_dir_entries(es: Seq<DirEntryV>) -> Seq<Seq<char>>
    decreases es.len(),
{
    if es.len() == 0 {
        Seq::empty()
    } else if keeps_dir_entry(es.last()) {
        kept_dir_entries(es.drop_last()).push(es.last().path)
    } else {
        kept_dir_entries(es.drop_last())
    }
}

/// Resolves a directory location over its listing: keeps every plain file
/// except `.lock` artifacts, in listing order.
pub fn directory_files(entries: &Vec<DirEntry>) -> (r: Vec<String>)
    ensures
        r.deep_view() == kept_dir_entries(entries.deep_view()),
{
    let mut out: Vec<String> = Vec::new();
    let mut j: usize = 0;
    proof {
        assert(entries.deep_view().take(0) =~= Seq::<DirEntryV>::empty());
    }
    while j < entries.len()
        invariant
            j <= entries@.len(),
            out.deep_view() == kept_dir_entries(entries.deep_view().take(j as int)),
        decreases entries@.len() - j,
    {
        let e = &entries[j];
        proof {
            assert(e@ == entries.deep_view()[j as int]);
            assert(entries.deep_view().take(j + 1).drop_last() =~= entries.deep_view().take(
                j as int,
            ));
            assert(entries.deep_view().take(j + 1).last() == entries.deep_view()[j as int]);
        }
        if e.is_file && !ends_with_str(e.path.as_str(), ".lock") {
            let ghost prev = out.deep_view();
            let ghost prev_raw = out@;
            out.push(e.path.clone());
            proof {
                assert forall|t: int|
                    0 <= t < out@.len() implies out.deep_view()[t] == prev.push(e.path@)[t] by {
                    if t < prev_raw.len() {
                        assert(out@[t] == prev_raw[t]);
                    } else {
                        assert(out@[t] == entries@[j as int].path);
                    }
                }
                assert(out.deep_view() =~= prev.push(e.path@));
            }
        }
        j += 1;
    }
    proof {
        assert(entries.deep_view().take(entries@.len() as int) =~= entries.deep_view());
    }
    out
}


/// The outcome of one attempt to read a resolved file: its whole text, or
/// the description of the I/O failure. The caller performs the read; the
/// aggregation below owns everything after it.
pub enum FileRead {
    Content(String),
    Failed(String),
}

/// The mathematical shape of a read outcome.
pub enum FileReadV {
    Content(Seq<char>),
    Failed(Seq<char>),
}

impl View for FileRead {
    type V = FileReadV;

    open spec fn view(&self) -> FileReadV {
        match self {
            FileRead::Content(s) => FileReadV::Content(s@),
            FileRead::Failed(s) => FileReadV::Failed(s@),
        }
    }
}

impl DeepView for FileRead {
    type V = FileReadV;

    open spec fn deep_view(&self) -> FileReadV {
        self.view()
    }
}

/// The aggregate of the resolved files, in resolver order: the
/// concatenation of every file's records, unless some file fails first —
/// a read failure becomes `FileOpen`, a parse failure keeps its own error —
/// in which case the first failure is the result and nothing is kept.
pub open spec fn spec_load_all(fs: Seq<FileReadV>) -> Result<Seq<LeaseV>, FileParseErrorV>
    decreases fs.len(),
{
    if fs.len() == 0 {
        Ok(Seq::empty())
    } else {
        match fs[0] {
            FileReadV::Failed(m) => Err(FileParseErrorV::FileOpen(m)),
            FileReadV::Content(text) => match crate::lease::spec_parse_file(text) {
                Err(e) => Err(e),
                Ok(ls) => match spec_load_all(fs.drop_first()) {
                    Err(e) => Err(e),
                    Ok(rest) => Ok(ls + rest),
                },
            },
        }
    }
}

/// Loads every resolved file and concatenates their records, failing fast
/// on the first file that cannot be read or parsed.
pub fn load_all(files: &Vec<FileRead>) -> (r: Result<Vec<Lease>, FileParseError>)
    ensures
        match spec_load_all(files.deep_view()) {
            Ok(v) => r matches Ok(leases) && leases.deep_view() == v,
            Err(e) => r matches Err(fe) && fe@ == e,
        },
{
    let ghost fs = files.deep_view();
    let mut leases: Vec<Lease> = Vec::new();
    let mut i: usize = 0;
    proof {
        assert(fs.skip(0) =~= fs);
        match spec_load_all(fs) {
            Ok(rest) => {
                assert(leases.deep_view() + rest =~= rest);
            },
            Err(_) => {},
        }
    }
    while i < files.len()
        invariant
            i <= files@.len(),
            fs == files.deep_view(),
            fs.len() == files@.len(),
            match spec_load_all(fs.skip(i as int)) {
                Ok(rest) => spec_load_all(fs) == Ok::<_, FileParseErrorV>(
                    leases.deep_view() + rest,
                ),
                Err(e) => spec_load_all(fs) == Err::<Seq<LeaseV>, _>(e),
            },
        decreases files@.len() - i,
    {
        proof {
            assert(fs.skip(i as int)[0] == fs[i as int]);
            assert(fs.skip(i as int).drop_first() =~= fs.skip(i + 1));
        }
        match &files[i] {
            FileRead::Failed(m) => {
                proof {
                    assert(files@[i as int]@ == fs[i as int]);
                }
                return Err(FileParseError::FileOpen(m.clone()));
            },
            FileRead::Content(text) => {
                proof {
                    assert(files@[i as int]@ == fs[i as int]);
                }
                match crate::lease::parse_file(text.as_str()) {
                    Err(e) => {
                        return Err(e);
                    },
                    Ok(mut ls) => {
                        let ghost prev = leases.deep_view();
                        let ghost prev_raw = leases@;
                        let ghost ls_dv = ls.deep_view();
                        let ghost ls_raw = ls@;
                        leases.append(&mut ls);
                        proof {
                            assert forall|t: int|
                                0 <= t < leases@.len() implies leases.deep_view()[t] == (prev
                                + ls_dv)[t] by {
                                if t < prev_raw.len() {
                                    assert(leases@[t] == prev_raw[t]);
                                } else {
                                    assert(leases@[t] == ls_raw[t - prev_raw.len()]);
                                }
                            }
                            assert(leases.deep_view() =~= prev + ls_dv);
                            match spec_load_all(fs.skip(i + 1)) {
                                Ok(rest) => {
                                    assert(prev + (ls_dv + rest) =~= (prev + ls_dv) + rest);
                                },
                                Err(_) => {},
                            }
                        }
                    },
                }
            },
        }
        i += 1;
    }
    proof {
        assert(fs.skip(fs.len() as int) =~= Seq::<FileReadV>::empty());
        assert(leases.deep_view() + Seq::<LeaseV>::empty() =~= leases.deep_view());
    }
    Ok(leases)
}

/// Where a request is routed, by its URL.
#[derive(Debug, Clone, Copy, PartialEq, Eq, Structural)]
pub enum Route {
    Leases,
    Favicon,
    NotFound,
}

pub open spec fn spec_route(url: Seq<char>) -> Route {
    if url == "/"@ {
        Route::Leases
    } else if url == "/favicon.ico"@ {
        Route::Favicon
    } else {
        Route::NotFound
    }
}

/// The dispatch decision of the request handler: the lease listing at the
/// root, the icon at its conventional path, nothing anywhere else.
pub fn route_for(url: &str) -> (r: Route)
    ensures
        r == spec_route(url@),
{
    if str_eq(url, "/") {
        Route::Leases
    } else if str_eq(url, "/favicon.ico") {
        Route::Favicon
    } else {
        Route::NotFound
    }
}

} // verus!
