//! The order in which a table's entries are listed: pinned entries first,
//! in storage order, then the rest sorted by a caller-selected key.

use vstd::prelude::*;
use vstd::string::StrSliceExecFns;
use vstd::multiset::Multiset;
use crate::primitives::{lower_of, lowercase};
use crate::store::{EntryView, VaultEntry};

verus! {

broadcast use vstd::seq_lib::group_to_multiset_ensures;

/// How the unpinned entries of a listing are ordered.
#[derive(Clone, Copy, Debug, PartialEq, Eq, Structural)]
pub enum SortMode {
    TimeAsc,
    TimeDesc,
    PlatformAsc,
    PlatformDesc,
    UserIdAsc,
    UserIdDesc,
}

impl SortMode {
    /// Every mode, in the order a user cycles through them.
    pub fn all() -> (r: Vec<SortMode>)
        ensures
            r@ == seq![SortMode::TimeDesc, SortMode::TimeAsc, SortMode::PlatformAsc,
                SortMode::PlatformDesc, SortMode::UserIdAsc, SortMode::UserIdDesc],
    {
        let r = vec![
            SortMode::TimeDesc,
            SortMode::TimeAsc,
            SortMode::PlatformAsc,
            SortMode::PlatformDesc,
            SortMode::UserIdAsc,
            SortMode::UserIdDesc,
        ];
        assert(r@ =~= seq![SortMode::TimeDesc, SortMode::TimeAsc, SortMode::PlatformAsc,
            SortMode::PlatformDesc, SortMode::UserIdAsc, SortMode::UserIdDesc]);
        r
    }

    /// A human-readable label.
    pub fn name(&self) -> (r: &'static str)
        ensures
            r@ == mode_label(*self),
    {
        match self {
            SortMode::TimeAsc => "Time (Oldest First)",
            SortMode::TimeDesc => "Time (Newest First)",
            SortMode::PlatformAsc => "Platform (A-Z)",
            SortMode::PlatformDesc => "Platform (Z-A)",
            SortMode::UserIdAsc => "User ID (A-Z)",
            SortMode::UserIdDesc => "User ID (Z-A)",
        }
    }
}

pub open spec fn mode_label(m: SortMode) -> Seq<char> {
    match m {
        SortMode::TimeAsc => "Time (Oldest First)"@,
        SortMode::TimeDesc => "Time (Newest First)"@,
        SortMode::PlatformAsc => "Platform (A-Z)"@,
        SortMode::PlatformDesc => "Platform (Z-A)"@,
        SortMode::UserIdAsc => "User ID (A-Z)"@,
        SortMode::UserIdDesc => "User ID (Z-A)"@,
    }
}

/// When an entry last changed: its update time, else its creation time,
/// else its id.
pub open spec fn recency(e: EntryView) -> u64 {
    if e.updated_at > 0 {
        e.updated_at
    } else if e.created_at > 0 {
        e.created_at
    } else {
        e.id
    }
}

/// Lexicographic order on characters by code point.
pub open spec fn lex_le(a: Seq<char>, b: Seq<char>) -> bool
    decreases a.len(),
{
    if a.len() == 0 {
        true
    } else if b.len() == 0 {
        false
    } else if a[0] as u32 != b[0] as u32 {
        (a[0] as u32) < (b[0] as u32)
    } else {
        lex_le(a.drop_first(), b.drop_first())
    }
}

pub proof fn lemma_lex_total(a: Seq<char>, b: Seq<char>)
    ensures
        lex_le(a, b) || lex_le(b, a),
    decreases a.len(),
{
    if a.len() > 0 && b.len() > 0 && a[0] as u32 == b[0] as u32 {
        lemma_lex_total(a.drop_first(), b.drop_first());
    }
}

pub proof fn lemma_lex_trans(a: Seq<char>, b: Seq<char>, c: Seq<char>)
    requires
        lex_le(a, b),
        lex_le(b, c),
    ensures
        lex_le(a, c),
    decreases a.len(),
{
    if a.len() > 0 && b.len() > 0 && c.len() > 0 && a[0] as u32 == b[0] as u32 && b[0] as u32 == c[0] as u32 {
        lemma_lex_trans(a.drop_first(), b.drop_first(), c.drop_first());
    }
}

/// `a` may be listed before `b` under `mode`.
pub open spec fn in_order(mode: SortMode, a: EntryView, b: EntryView) -> bool {
    match mode {
        SortMode::TimeAsc => recency(a) <= recency(b),
        SortMode::TimeDesc => recency(a) >= recency(b),
        SortMode::PlatformAsc => lex_le(lower_of(a.platform), lower_of(b.platform)),
        SortMode::PlatformDesc => lex_le(lower_of(b.platform), lower_of(a.platform)),
        SortMode::UserIdAsc => lex_le(lower_of(a.user_id), lower_of(b.user_id)),
        SortMode::UserIdDesc => lex_le(lower_of(b.user_id), lower_of(a.user_id)),
    }
}

pub proof fn lemma_in_order_total(mode: SortMode, a: EntryView, b: EntryView)
    ensures
        in_order(mode, a, b) || in_order(mode, b, a),
{
    lemma_lex_total(lower_of(a.platform), lower_of(b.platform));
    lemma_lex_total(lower_of(a.user_id), lower_of(b.user_id));
}

pub proof fn lemma_in_order_trans(mode: SortMode, a: EntryView, b: EntryView, c: EntryView)
    requires
        in_order(mode, a, b),
        in_order(mode, b, c),
    ensures
        in_order(mode, a, c),
{
    match mode {
        SortMode::PlatformAsc => lemma_lex_trans(lower_of(a.platform), lower_of(b.platform), lower_of(c.platform)),
        SortMode::PlatformDesc => lemma_lex_trans(lower_of(c.platform), lower_of(b.platform), lower_of(a.platform)),
        SortMode::UserIdAsc => lemma_lex_trans(lower_of(a.user_id), lower_of(b.user_id), lower_of(c.user_id)),
        SortMode::UserIdDesc => lemma_lex_trans(lower_of(c.user_id), lower_of(b.user_id), lower_of(a.user_id)),
        _ => {},
    }
}

/// Every entry of `s` may precede every later one.
pub open spec fn sorted_by(mode: SortMode, s: Seq<EntryView>) -> bool {
    forall|i: int, j: int| 0 <= i < j < s.len() ==> in_order(mode, #[trigger] s[i], #[trigger] s[j])
}

/// The entries of `s` whose pin is `pinned`, in their order in `s`.
pub open spec fn pin_part(s: Seq<EntryView>, pinned: bool) -> Seq<EntryView>
    decreases s.len(),
{
    if s.len() == 0 {
        Seq::empty()
    } else if s.last().pinned == pinned {
        pin_part(s.drop_last(), pinned).push(s.last())
    } else {
        pin_part(s.drop_last(), pinned)
    }
}

pub open spec fn views(v: Seq<VaultEntry>) -> Seq<EntryView> {
    v.map_values(|e: VaultEntry| e@)
}

/// Lexicographic comparison of two strings by code point.
pub fn lex_le_str(a: &str, b: &str) -> (r: bool)
    ensures
        r == lex_le(a@, b@),
{
    let n = a.unicode_len();
    let m = b.unicode_len();
    let mut i: usize = 0;
    assert(a@.subrange(0, n as int) =~= a@);
    assert(b@.subrange(0, m as int) =~= b@);
    while i < n && i < m
        invariant
            n == a@.len(),
            m == b@.len(),
            i <= n,
            i <= m,
            lex_le(a@, b@) == lex_le(a@.subrange(i as int, n as int), b@.subrange(i as int, m as int)),
        decreases n - i,
    {
        let x = a.get_char(i);
        let y = b.get_char(i);
        let ghost sa = a@.subrange(i as int, n as int);
        let ghost sb = b@.subrange(i as int, m as int);
        assert(sa[0] == x && sb[0] == y);
        if x as u32 != y as u32 {
            return (x as u32) < (y as u32);
        }
        assert(sa.drop_first() =~= a@.subrange(i + 1, n as int));
        assert(sb.drop_first() =~= b@.subrange(i + 1, m as int));
        i = i + 1;
    }
    if i == n {
        assert(a@.subrange(i as int, n as int).len() == 0);
        true
    } else {
        assert(b@.subrange(i as int, m as int).len() == 0);
        false
    }
}

/// Whether `a` may be listed before `b` under `mode`.
pub fn entries_in_order(mode: SortMode, a: &VaultEntry, b: &VaultEntry) -> (r: bool)
    ensures
        r == in_order(mode, a@, b@),
{
    match mode {
        SortMode::TimeAsc => recency_of(a) <= recency_of(b),
        SortMode::TimeDesc => recency_of(a) >= recency_of(b),
        SortMode::PlatformAsc => {
            let x = lowercase(a.platform.as_str());
            let y = lowercase(b.platform.as_str());
            lex_le_str(x.as_str(), y.as_str())
        },
        SortMode::PlatformDesc => {
            let x = lowercase(a.platform.as_str());
            let y = lowercase(b.platform.as_str());
            lex_le_str(y.as_str(), x.as_str())
        },
        SortMode::UserIdAsc => {
            let x = lowercase(a.user_id.as_str());
            let y = lowercase(b.user_id.as_str());
            lex_le_str(x.as_str(), y.as_str())
        },
        SortMode::UserIdDesc => {
            let x = lowercase(a.user_id.as_str());
            let y = lowercase(b.user_id.as_str());
            lex_le_str(y.as_str(), x.as_str())
        },
    }
}

pub fn recency_of(e: &VaultEntry) -> (r: u64)
    ensures
        r == recency(e@),
{
    if e.updated_at > 0 {
        e.updated_at
    } else if e.created_at > 0 {
        e.created_at
    } else {
        e.id
    }
}

/// `a` and `b` may stand in either order: their sort keys are equal.
pub open spec fn same_rank(mode: SortMode, a: EntryView, b: EntryView) -> bool {
    in_order(mode, a, b) && in_order(mode, b, a)
}

/// `output` is `input` rearranged by `idx` (output `i` is input `idx[i]`),
/// and entries of the same rank keep their input order.
pub open spec fn stable_arrangement(mode: SortMode, input: Seq<EntryView>, output: Seq<EntryView>, idx: Seq<int>) -> bool {
    &&& idx.len() == output.len()
    &&& forall|i: int| 0 <= i < output.len() ==> 0 <= #[trigger] idx[i] < input.len() && output[i] == input[idx[i]]
    &&& forall|i: int, j: int| 0 <= i < j < output.len() && same_rank(mode, output[i], output[j])
        ==> #[trigger] idx[i] < #[trigger] idx[j]
}

/// Sorts entries under `mode`, stably: a permutation in which each entry may
/// precede every later one, and entries with equal keys keep their order.
pub fn sort_entries(mode: SortMode, items: Vec<VaultEntry>) -> (r: Vec<VaultEntry>)
    ensures
        views(r@).to_multiset() == views(items@).to_multiset(),
        sorted_by(mode, views(r@)),
        exists|idx: Seq<int>| stable_arrangement(mode, views(items@), views(r@), idx),
{
    let ghost orig = views(items@);
    let ghost mut ridx: Seq<int> = Seq::new(orig.len(), |i: int| i);
    let ghost mut oidx: Seq<int> = Seq::empty();
    let mut rest = items;
    let mut out: Vec<VaultEntry> = Vec::new();
    while rest.len() > 0
        invariant
            views(out@).to_multiset().add(views(rest@).to_multiset()) == orig.to_multiset(),
            sorted_by(mode, views(out@)),
            forall|i: int, j: int| 0 <= i < out@.len() && 0 <= j < rest@.len()
                ==> in_order(mode, #[trigger] views(out@)[i], #[trigger] views(rest@)[j]),
            ridx.len() == rest@.len(),
            forall|p: int| 0 <= p < rest@.len() ==> 0 <= #[trigger] ridx[p] < orig.len() && views(rest@)[p] == orig[ridx[p]],
            forall|p: int, q: int| 0 <= p < q < rest@.len() ==> #[trigger] ridx[p] < #[trigger] ridx[q],
            oidx.len() == out@.len(),
            forall|p: int| 0 <= p < out@.len() ==> 0 <= #[trigger] oidx[p] < orig.len() && views(out@)[p] == orig[oidx[p]],
            forall|a: int, b: int| 0 <= a < out@.len() && 0 <= b < rest@.len()
                && same_rank(mode, views(out@)[a], views(rest@)[b]) ==> #[trigger] oidx[a] < #[trigger] ridx[b],
            forall|a: int, b: int| 0 <= a < b < out@.len() && same_rank(mode, views(out@)[a], views(out@)[b])
                ==> #[trigger] oidx[a] < #[trigger] oidx[b],
        decreases rest@.len(),
    {
        let mut k: usize = 0;
        let mut j: usize = 1;
        while j < rest.len()
            invariant
                0 < rest@.len(),
                k < j <= rest@.len(),
                forall|x: int| 0 <= x < j ==> in_order(mode, #[trigger] views(rest@)[k as int], views(rest@)[x]) || x == k,
                forall|x: int| 0 <= x < k ==> !in_order(mode, #[trigger] views(rest@)[x], views(rest@)[k as int]),
            decreases rest@.len() - j,
        {
            if !entries_in_order(mode, &rest[k], &rest[j]) {
                proof {
                    let vs = views(rest@);
                    lemma_in_order_total(mode, vs[k as int], vs[j as int]);
                    assert forall|x: int| 0 <= x < j + 1 implies in_order(mode, #[trigger] vs[j as int], vs[x]) || x == j by {
                        if x < j && x != k {
                            lemma_in_order_trans(mode, vs[j as int], vs[k as int], vs[x]);
                        }
                    }
                    assert forall|x: int| 0 <= x < j implies !in_order(mode, #[trigger] vs[x], vs[j as int]) by {
                        if x < k {
                            if in_order(mode, vs[x], vs[j as int]) {
                                lemma_in_order_trans(mode, vs[x], vs[j as int], vs[k as int]);
                            }
                        } else if x > k {
                            if in_order(mode, vs[x], vs[j as int]) {
                                lemma_in_order_trans(mode, vs[k as int], vs[x], vs[j as int]);
                            }
                        }
                    }
                }
                k = j;
            }
            j = j + 1;
        }
        let ghost before_rest = views(rest@);
        let ghost before_out = views(out@);
        let ghost rk = ridx[k as int];
        proof {
            assert forall|x: int| 0 <= x < before_rest.len() implies in_order(mode, before_rest[k as int], #[trigger] before_rest[x]) by {
                if x == k {
                    lemma_in_order_total(mode, before_rest[x], before_rest[x]);
                }
            }
        }
        let e = rest.remove(k);
        out.push(e);
        proof {
            let old_ridx = ridx;
            let old_oidx = oidx;
            ridx = old_ridx.remove(k as int);
            oidx = old_oidx.push(rk);
            assert(views(rest@) =~= before_rest.remove(k as int));
            assert(views(out@) =~= before_out.push(before_rest[k as int]));
            let vo = views(out@);
            let vr = views(rest@);
            assert forall|a: int, b: int| 0 <= a < b < vo.len() implies in_order(mode, #[trigger] vo[a], #[trigger] vo[b]) by {
                if b == vo.len() - 1 {
                    assert(vo[b] == before_rest[k as int]);
                }
            }
            assert forall|a: int, b: int| 0 <= a < vo.len() && 0 <= b < vr.len() implies in_order(mode, #[trigger] vo[a], #[trigger] vr[b]) by {
                let bb = if b < k { b } else { b + 1 };
                assert(vr[b] == before_rest[bb]);
            }
            assert forall|p: int| 0 <= p < vr.len() implies 0 <= #[trigger] ridx[p] < orig.len() && vr[p] == orig[ridx[p]] by {
                let pp = if p < k { p } else { p + 1 };
                assert(vr[p] == before_rest[pp]);
                assert(ridx[p] == old_ridx[pp]);
            }
            assert forall|p: int, q: int| 0 <= p < q < vr.len() implies #[trigger] ridx[p] < #[trigger] ridx[q] by {
                let pp = if p < k { p } else { p + 1 };
                let qq = if q < k { q } else { q + 1 };
                assert(ridx[p] == old_ridx[pp]);
                assert(ridx[q] == old_ridx[qq]);
            }
            assert forall|p: int| 0 <= p < vo.len() implies 0 <= #[trigger] oidx[p] < orig.len() && vo[p] == orig[oidx[p]] by {
                if p < vo.len() - 1 {
                    assert(oidx[p] == old_oidx[p]);
                    assert(vo[p] == before_out[p]);
                }
            }
            assert forall|a: int, b: int| 0 <= a < vo.len() && 0 <= b < vr.len()
                && same_rank(mode, vo[a], vr[b]) implies #[trigger] oidx[a] < #[trigger] ridx[b] by {
                let bb = if b < k { b } else { b + 1 };
                assert(vr[b] == before_rest[bb]);
                assert(ridx[b] == old_ridx[bb]);
                if a < vo.len() - 1 {
                    assert(oidx[a] == old_oidx[a]);
                    assert(vo[a] == before_out[a]);
                } else {
                    assert(vo[a] == before_rest[k as int]);
                    assert(bb > k);
                }
            }
            assert forall|a: int, b: int| 0 <= a < b < vo.len() && same_rank(mode, vo[a], vo[b])
                implies #[trigger] oidx[a] < #[trigger] oidx[b] by {
                assert(oidx[a] == old_oidx[a]);
                assert(vo[a] == before_out[a]);
                if b < vo.len() - 1 {
                    assert(oidx[b] == old_oidx[b]);
                    assert(vo[b] == before_out[b]);
                } else {
                    assert(vo[b] == before_rest[k as int]);
                    assert(oidx[b] == old_ridx[k as int]);
                }
            }
            assert(vo.to_multiset() =~= before_out.to_multiset().insert(before_rest[k as int]));
            assert(vr.to_multiset() =~= before_rest.to_multiset().remove(before_rest[k as int]));
            assert(vo.to_multiset().add(vr.to_multiset()) =~= orig.to_multiset());
        }
    }
    proof {
        assert(views(rest@).to_multiset() =~= Multiset::empty());
        assert(views(out@).to_multiset().add(Multiset::empty()) =~= views(out@).to_multiset());
        assert(stable_arrangement(mode, orig, views(out@), oidx));
    }
    out
}

/// Lists entries for display: all pinned entries first, in their storage
/// order, then the unpinned ones sorted under `mode`.
pub fn order_entries(mode: SortMode, items: &Vec<VaultEntry>) -> (r: Vec<VaultEntry>)
    ensures
        views(r@).subrange(0, pin_part(views(items@), true).len() as int) == pin_part(views(items@), true),
        views(r@).len() == pin_part(views(items@), true).len() + pin_part(views(items@), false).len(),
        views(r@).subrange(pin_part(views(items@), true).len() as int, views(r@).len() as int).to_multiset()
            == pin_part(views(items@), false).to_multiset(),
        sorted_by(mode, views(r@).subrange(pin_part(views(items@), true).len() as int, views(r@).len() as int)),
        exists|idx: Seq<int>| stable_arrangement(mode, pin_part(views(items@), false),
            views(r@).subrange(pin_part(views(items@), true).len() as int, views(r@).len() as int), idx),
{
    let ghost all = views(items@);
    let mut pinned: Vec<VaultEntry> = Vec::new();
    let mut unpinned: Vec<VaultEntry> = Vec::new();
    let mut i: usize = 0;
    while i < items.len()
        invariant
            i <= items@.len(),
            all == views(items@),
            views(pinned@) == pin_part(all.subrange(0, i as int), true),
            views(unpinned@) == pin_part(all.subrange(0, i as int), false),
        decreases items@.len() - i,
    {
        let ghost p0 = views(pinned@);
        let ghost u0 = views(unpinned@);
        proof {
            assert(all.subrange(0, i + 1).drop_last() =~= all.subrange(0, i as int));
        }
        let e = items[i].duplicate();
        if e.pinned {
            pinned.push(e);
            assert(views(pinned@) =~= p0.push(all[i as int]));
        } else {
            unpinned.push(e);
            assert(views(unpinned@) =~= u0.push(all[i as int]));
        }
        i = i + 1;
    }
    assert(all.subrange(0, i as int) =~= all);
    let ghost p = views(pinned@);
    let ghost u = views(unpinned@);
    let sorted = sort_entries(mode, unpinned);
    let ghost q = views(sorted@);
    let mut out = pinned;
    let mut rest = sorted;
    out.append(&mut rest);
    proof {
        assert(views(out@) =~= p + q);
        assert(views(out@).subrange(0, p.len() as int) =~= p);
        assert(views(out@).subrange(p.len() as int, views(out@).len() as int) =~= q);
        assert(q.len() == q.to_multiset().len());
    }
    out
}

} // verus!
