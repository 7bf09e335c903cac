//! Ranking and cross-file aggregation: words-per-record ratios compared
//! exactly as rationals, a stable descending sort, top-10 selection for tags
//! and files, and the global per-tag totals.

use vstd::prelude::*;

use crate::file_data::{FileData, FileV};
use crate::tag_counts::{
    combined, distinct_tags, lemma_lookup_index, lemma_merge_tags_distinct, lemma_merge_tags_lookup,
    lookup, merge_tags, tags_fit, TagCounts, TagEntryV,
};

verus! {

/// One candidate of a ranking: an entity's name with its record and word
/// counts.
pub struct RankItem {
    pub name: String,
    pub records: usize,
    pub words: usize,
}

/// The mathematical value of a candidate.
pub ghost struct RankV {
    pub name: Seq<char>,
    pub records: nat,
    pub words: nat,
}

impl View for RankItem {
    type V = RankV;

    open spec fn view(&self) -> RankV {
        RankV { name: self.name@, records: self.records as nat, words: self.words as nat }
    }
}

/// The views of a sequence of candidates.
pub open spec fn rank_views(s: Seq<RankItem>) -> Seq<RankV> {
    s.map_values(|x: RankItem| x@)
}

/// Whether `a`'s words-per-record ratio is at least `b`'s, the ratio of an
/// entity with no records being zero. Compared exactly, by cross
/// multiplication: no division takes place and a zero denominator is safe.
pub open spec fn ratio_ge(a: RankV, b: RankV) -> bool {
    if b.records == 0 {
        true
    } else if a.records == 0 {
        b.words == 0
    } else {
        a.words * b.records >= b.words * a.records
    }
}

/// The ratio order is total.
pub proof fn lemma_ratio_ge_total(a: RankV, b: RankV)
    ensures
        ratio_ge(a, b) || ratio_ge(b, a),
{
}

/// The ratio order is transitive.
pub proof fn lemma_ratio_ge_trans(a: RankV, b: RankV, c: RankV)
    requires
        ratio_ge(a, b),
        ratio_ge(b, c),
    ensures
        ratio_ge(a, c),
{
    if c.records == 0 {
    } else if b.records == 0 {
        assert(c.words == 0);
        assert(c.words * a.records == 0) by (nonlinear_arith)
            requires
                c.words == 0,
        ;
    } else if a.records == 0 {
        assert(b.words == 0);
        assert(b.words * c.records == 0) by (nonlinear_arith)
            requires
                b.words == 0,
        ;
        assert(c.words == 0) by (nonlinear_arith)
            requires
                b.records > 0,
                c.words * b.records <= 0,
        ;
    } else {
        assert(a.words * c.records >= c.words * a.records) by (nonlinear_arith)
            requires
                a.records > 0,
                b.records > 0,
                c.records > 0,
                a.words * b.records >= b.words * a.records,
                b.words * c.records >= c.words * b.records,
        ;
    }
}

/// Zero-denominator safety: an entity with no records has ratio zero, which
/// ranks at or below every entity; no division fault can arise since the
/// comparison divides nowhere.
pub proof fn lemma_zero_records_ratio(a: RankV, b: RankV)
    requires
        a.records == 0,
    ensures
        ratio_ge(b, a),
{
}

/// Compare two candidates' ratios exactly, by cross multiplication in `u128`.
fn ratio_ge_exec(a: &RankItem, b: &RankItem) -> (r: bool)
    ensures
        r == ratio_ge(a@, b@),
{
    if b.records == 0 {
        true
    } else if a.records == 0 {
        b.words == 0
    } else {
        proof {
            lemma_mul_fits_u128(a.words as u128, b.records as u128);
            lemma_mul_fits_u128(b.words as u128, a.records as u128);
        }
        (a.words as u128) * (b.records as u128) >= (b.words as u128) * (a.records as u128)
    }
}

/// The product of two word-sized values fits in `u128`.
proof fn lemma_mul_fits_u128(x: u128, y: u128)
    requires
        x <= u64::MAX,
        y <= u64::MAX,
    ensures
        x * y <= u128::MAX,
{
    assert(x * y <= (u64::MAX as u128) * (u64::MAX as u128)) by (nonlinear_arith)
        requires
            0 <= x <= u64::MAX as u128,
            0 <= y <= u64::MAX as u128,
    ;
    assert((u64::MAX as u128) * (u64::MAX as u128) <= u128::MAX) by (nonlinear_arith);
}

/// Insert a candidate into a descending-sorted sequence, after every
/// candidate ranking at least as high: equal ratios keep their first-come
/// order, which makes the sort stable and the ranking deterministic.
pub open spec fn insert_desc(s: Seq<RankV>, e: RankV) -> Seq<RankV>
    decreases s.len(),
{
    if s.len() == 0 {
        seq![e]
    } else if ratio_ge(s[0], e) {
        seq![s[0]] + insert_desc(s.drop_first(), e)
    } else {
        seq![e] + s
    }
}

/// Stable descending sort by ratio: candidates are inserted in order.
pub open spec fn sort_desc(s: Seq<RankV>) -> Seq<RankV>
    decreases s.len(),
{
    if s.len() == 0 {
        Seq::empty()
    } else {
        insert_desc(sort_desc(s.drop_last()), s.last())
    }
}

/// Sorted in descending ratio order.
pub open spec fn sorted_desc(s: Seq<RankV>) -> bool {
    forall|i: int, j: int| 0 <= i <= j < s.len() ==> ratio_ge(#[trigger] s[i], #[trigger] s[j])
}

/// Inserting grows the sequence by one and adds exactly the new candidate.
pub proof fn lemma_insert_desc_elems(s: Seq<RankV>, e: RankV)
    ensures
        insert_desc(s, e).len() == s.len() + 1,
        forall|x: RankV| insert_desc(s, e).contains(x) <==> (s.contains(x) || x == e),
    decreases s.len(),
{
    let r = insert_desc(s, e);
    if s.len() == 0 {
        assert(r[0] == e);
        assert(forall|x: RankV| r.contains(x) ==> x == e);
        assert(r.contains(e));
    } else if ratio_ge(s[0], e) {
        lemma_insert_desc_elems(s.drop_first(), e);
        let rr = insert_desc(s.drop_first(), e);
        assert(forall|x: RankV| #[trigger] r.contains(x) <==> (x == s[0] || rr.contains(x))) by {
            assert(forall|k: int| 1 <= k < r.len() ==> r[k] == rr[k - 1]);
            assert(forall|k: int|
                0 <= k < rr.len() ==> #[trigger] rr[k] == r[k + 1] && r.contains(r[k + 1]));
            assert(forall|x: RankV| #[trigger] r.contains(x) ==> x == s[0] || rr.contains(x)) by {
                assert(forall|k: int|
                    1 <= k < r.len() ==> #[trigger] r[k] == rr[k - 1] && rr.contains(rr[k - 1]));
            }
        }
        assert(forall|x: RankV| #[trigger] s.contains(x) <==> (x == s[0] || s.drop_first().contains(
            x,
        ))) by {
            assert(forall|k: int| 1 <= k < s.len() ==> s[k] == s.drop_first()[k - 1]);
            assert(forall|k: int|
                0 <= k < s.drop_first().len() ==> #[trigger] s.drop_first()[k] == s[k + 1]
                    && s.contains(s[k + 1]));
            assert(forall|x: RankV| #[trigger] s.contains(x) ==> x == s[0] || s.drop_first()
                .contains(x)) by {
                assert(forall|k: int|
                    1 <= k < s.len() ==> #[trigger] s[k] == s.drop_first()[k - 1]
                        && s.drop_first().contains(s.drop_first()[k - 1]));
            }
        }
    } else {
        assert(forall|k: int| 1 <= k < r.len() ==> r[k] == s[k - 1]);
        assert(r[0] == e);
        assert(forall|x: RankV| #[trigger] r.contains(x) <==> (x == e || s.contains(x))) by {
            assert(forall|k: int|
                0 <= k < s.len() ==> #[trigger] s[k] == r[k + 1] && r.contains(r[k + 1]));
            assert(forall|k: int|
                1 <= k < r.len() ==> #[trigger] r[k] == s[k - 1] && s.contains(s[k - 1]));
        }
    }
}

/// Inserting into a descending-sorted sequence keeps it sorted.
pub proof fn lemma_insert_desc_sorted(s: Seq<RankV>, e: RankV)
    requires
        sorted_desc(s),
    ensures
        sorted_desc(insert_desc(s, e)),
    decreases s.len(),
{
    let r = insert_desc(s, e);
    if s.len() == 0 {
    } else if ratio_ge(s[0], e) {
        assert(sorted_desc(s.drop_first())) by {
            assert(forall|i: int, j: int|
                0 <= i <= j < s.drop_first().len() ==> s.drop_first()[i] == s[i + 1]
                    && s.drop_first()[j] == s[j + 1]);
        }
        lemma_insert_desc_sorted(s.drop_first(), e);
        lemma_insert_desc_elems(s.drop_first(), e);
        let rr = insert_desc(s.drop_first(), e);
        assert(forall|k: int| 1 <= k < r.len() ==> r[k] == rr[k - 1]);
        // the head outranks everything inserted behind it
        assert(forall|j: int| 0 <= j < s.drop_first().len() ==> s.drop_first()[j] == s[j + 1]);
        assert(forall|k: int| 1 <= k < r.len() ==> ratio_ge(r[0], #[trigger] r[k])) by {
            assert(forall|k: int| 1 <= k < r.len() ==> rr.contains(#[trigger] rr[k - 1]));
            assert forall|k: int| 1 <= k < r.len() implies ratio_ge(r[0], #[trigger] r[k]) by {
                let x = rr[k - 1];
                if x == e {
                } else {
                    assert(s.drop_first().contains(x));
                    let m = choose|m: int|
                        0 <= m < s.drop_first().len() && s.drop_first()[m] == x;
                    assert(s[m + 1] == x);
                    assert(ratio_ge(s[0], s[m + 1]));
                }
            }
        }
        assert(forall|i: int, j: int|
            1 <= i <= j < r.len() ==> ratio_ge(#[trigger] r[i], #[trigger] r[j]));
    } else {
        lemma_ratio_ge_total(s[0], e);
        assert(forall|k: int| 1 <= k < r.len() ==> r[k] == s[k - 1]);
        assert forall|k: int| 1 <= k < r.len() implies ratio_ge(r[0], #[trigger] r[k]) by {
            lemma_ratio_ge_trans(e, s[0], s[k - 1]);
        }
    }
}

/// The sort keeps length and membership, and sorts.
pub proof fn lemma_sort_desc_props(s: Seq<RankV>)
    ensures
        sort_desc(s).len() == s.len(),
        forall|x: RankV| sort_desc(s).contains(x) <==> s.contains(x),
        sorted_desc(sort_desc(s)),
    decreases s.len(),
{
    if s.len() > 0 {
        let pre = s.drop_last();
        lemma_sort_desc_props(pre);
        lemma_insert_desc_elems(sort_desc(pre), s.last());
        lemma_insert_desc_sorted(sort_desc(pre), s.last());
        assert(forall|x: RankV| #[trigger] s.contains(x) <==> (pre.contains(x) || x == s.last()))
            by {
            assert(forall|k: int| 0 <= k < s.len() - 1 ==> s[k] == pre[k]);
            assert(forall|k: int|
                0 <= k < pre.len() ==> #[trigger] pre[k] == s[k] && s.contains(s[k]));
            assert(s.contains(s.last()));
            assert(forall|x: RankV| #[trigger] s.contains(x) ==> (pre.contains(x) || x == s.last()))
                by {
                assert(forall|k: int|
                    0 <= k < s.len() - 1 ==> #[trigger] s[k] == pre[k] && pre.contains(pre[k]));
            }
        }
    }
}

/// How many names a ranking keeps: ten, or fewer when there are fewer
/// candidates.
pub open spec fn rank_len(n: nat) -> int {
    if n < 10 {
        n as int
    } else {
        10
    }
}

/// The ranking of a candidate set: the names of its ten highest-ratio
/// candidates, in stable descending ratio order.
pub open spec fn rank_names(items: Seq<RankV>) -> Seq<Seq<char>> {
    sort_desc(items).take(rank_len(items.len())).map_values(|x: RankV| x.name)
}

/// Ranking boundedness and ordering: a ranking holds at most ten names, the
/// names of sorted candidates in non-increasing ratio order.
pub proof fn lemma_ranking_properties(items: Seq<RankV>)
    ensures
        rank_names(items).len() == rank_len(items.len()),
        rank_names(items).len() <= 10,
        forall|i: int| 0 <= i < rank_names(items).len() ==> rank_names(items)[i] == sort_desc(
            items,
        )[i].name,
        forall|i: int| 0 <= i < rank_names(items).len() ==> items.contains(sort_desc(items)[i]),
        forall|i: int, j: int|
            0 <= i <= j < items.len() ==> ratio_ge(
                #[trigger] sort_desc(items)[i],
                #[trigger] sort_desc(items)[j],
            ),
{
    lemma_sort_desc_props(items);
    assert(forall|i: int|
        0 <= i < rank_len(items.len()) ==> sort_desc(items).contains(
            #[trigger] sort_desc(items)[i],
        ));
}

/// Any candidate left out of a full ranking ranks no higher than the last
/// ranked one.
pub proof fn lemma_rank_cutoff(items: Seq<RankV>, k: int)
    requires
        0 <= k < items.len(),
        !rank_names(items).contains(items[k].name),
    ensures
        items.len() > 10,
        ratio_ge(sort_desc(items)[9], items[k]),
{
    lemma_sort_desc_props(items);
    let sorted = sort_desc(items);
    assert(items.contains(items[k]));
    assert(sorted.contains(items[k]));
    let j = choose|j: int| 0 <= j < sorted.len() && sorted[j] == items[k];
    if j < rank_len(items.len()) {
        assert(rank_names(items)[j] == items[k].name);
        assert(rank_names(items).contains(items[k].name));
    }
    assert(j >= rank_len(items.len()));
    if items.len() <= 10 {
        assert(j >= items.len());
        assert(false);
    }
    assert(ratio_ge(sorted[9], sorted[j]));
}

/// The stable insertion point: the index of the first candidate ranking
/// strictly below `e`, or the length when there is none.
fn find_insert_pos(v: &Vec<RankItem>, e: &RankItem) -> (idx: usize)
    ensures
        idx <= v@.len(),
        forall|j: int| 0 <= j < idx ==> ratio_ge(#[trigger] rank_views(v@)[j], e@),
        idx < v@.len() ==> !ratio_ge(rank_views(v@)[idx as int], e@),
{
    let mut idx: usize = 0;
    while idx < v.len()
        invariant
            idx <= v@.len(),
            forall|j: int| 0 <= j < idx ==> ratio_ge(#[trigger] rank_views(v@)[j], e@),
        decreases v@.len() - idx,
    {
        if !ratio_ge_exec(&v[idx], e) {
            return idx;
        }
        idx = idx + 1;
    }
    idx
}

/// Insert a candidate into a descending-sorted vector at its stable place.
fn insert_item(v: &mut Vec<RankItem>, e: RankItem)
    ensures
        rank_views(final(v)@) == insert_desc(rank_views(old(v)@), e@),
{
    let ghost s = rank_views(old(v)@);
    let idx = find_insert_pos(v, &e);
    proof {
        lemma_insert_desc_at(s, e@, idx as int);
    }
    v.insert(idx, e);
    proof {
        assert(rank_views(v@) =~= s.take(idx as int) + seq![e@] + s.skip(idx as int));
    }
}

/// Where the stable insertion lands: right before the first candidate that
/// ranks strictly lower.
proof fn lemma_insert_desc_at(s: Seq<RankV>, e: RankV, i: int)
    requires
        0 <= i <= s.len(),
        forall|j: int| 0 <= j < i ==> ratio_ge(#[trigger] s[j], e),
        i < s.len() ==> !ratio_ge(s[i], e),
    ensures
        insert_desc(s, e) =~= s.take(i) + seq![e] + s.skip(i),
    decreases i,
{
    if i == 0 {
        if s.len() > 0 {
            assert(!ratio_ge(s[0], e));
        }
        assert(s.take(0) =~= Seq::<RankV>::empty());
        assert(s.skip(0) =~= s);
    } else {
        assert(ratio_ge(s[0], e));
        assert(forall|j: int| 0 <= j < i - 1 ==> s.drop_first()[j] == s[j + 1]);
        if i - 1 < s.drop_first().len() {
            assert(s.drop_first()[i - 1] == s[i]);
        }
        lemma_insert_desc_at(s.drop_first(), e, i - 1);
        assert(s.drop_first().take(i - 1) =~= s.take(i).drop_first());
        assert(s.drop_first().skip(i - 1) =~= s.skip(i));
    }
}

/// Sort candidates by descending ratio, stably: equal ratios keep their
/// input order.
fn sort_items(items: Vec<RankItem>) -> (r: Vec<RankItem>)
    ensures
        rank_views(r@) == sort_desc(rank_views(items@)),
{
    let ghost orig = rank_views(items@);
    let mut rest = items;
    let mut out: Vec<RankItem> = Vec::new();
    proof {
        assert(orig.take(0) =~= Seq::<RankV>::empty());
    }
    while rest.len() > 0
        invariant
            rest@.len() <= orig.len(),
            forall|j: int|
                0 <= j < rest@.len() ==> (#[trigger] rest@[j])@ == orig[orig.len() - rest@.len()
                    + j],
            rank_views(out@) == sort_desc(orig.take(orig.len() - rest@.len())),
        decreases rest@.len(),
    {
        let ghost done = orig.len() - rest@.len();
        let ghost pre = rest@;
        let e = rest.remove(0);
        proof {
            assert(e@ == pre[0]@);
            assert(e@ == orig[done]);
            assert(forall|j: int| 0 <= j < rest@.len() ==> (#[trigger] rest@[j]) == pre[j + 1]);
            assert(orig.take(done + 1).drop_last() =~= orig.take(done));
            assert(orig.take(done + 1).last() == orig[done]);
            assert(sort_desc(orig.take(done + 1)) == insert_desc(
                sort_desc(orig.take(done)),
                orig[done],
            ));
        }
        insert_item(&mut out, e);
    }
    proof {
        assert(orig.take(orig.len() as int) =~= orig);
    }
    out
}

/// The candidates of a tag map: each tag with its counters, in map order.
pub open spec fn tag_rank_items(s: Seq<TagEntryV>) -> Seq<RankV> {
    s.map_values(|e: TagEntryV| RankV { name: e.tag, records: e.records, words: e.words })
}

/// The candidates of a file list: each file under its name, with its record
/// and word totals, in list order.
pub open spec fn file_rank_items(fs: Seq<FileV>) -> Seq<RankV> {
    fs.map_values(|f: FileV| RankV { name: f.filename, records: f.records, words: f.words })
}

/// The top 10 tags of a tag map by descending words-per-record ratio, ties
/// kept in map order.
pub fn top_10_tags_highest_ratio(aggregated_tag_counts: &TagCounts) -> (r: Vec<String>)
    ensures
        r.deep_view() == rank_names(tag_rank_items(aggregated_tag_counts@)),
{
    let tc = aggregated_tag_counts;
    let mut items: Vec<RankItem> = Vec::new();
    let mut i: usize = 0;
    while i < tc.len()
        invariant
            i <= tc@.len(),
            items@.len() == i,
            forall|j: int| 0 <= j < i ==> rank_views(items@)[j] == tag_rank_items(tc@)[j],
        decreases tc@.len() - i,
    {
        let e = tc.entry_at(i);
        items.push(RankItem { name: e.0, records: e.1, words: e.2 });
        i = i + 1;
    }
    proof {
        assert(rank_views(items@) =~= tag_rank_items(tc@));
        lemma_sort_desc_props(tag_rank_items(tc@));
    }
    let sorted = sort_items(items);
    take_names(sorted)
}

/// The top 10 files by descending words-per-record ratio, ties kept in list
/// order.
pub fn top_10_filenames_highest_ratio(files_data: &Vec<FileData>) -> (r: Vec<String>)
    ensures
        r.deep_view() == rank_names(file_rank_items(files_data.deep_view())),
{
    let mut items: Vec<RankItem> = Vec::new();
    let mut i: usize = 0;
    while i < files_data.len()
        invariant
            i <= files_data@.len(),
            items@.len() == i,
            forall|j: int|
                0 <= j < i ==> rank_views(items@)[j] == file_rank_items(files_data.deep_view())[j],
        decreases files_data@.len() - i,
    {
        let fd = &files_data[i];
        items.push(
            RankItem {
                name: fd.filename.clone(),
                records: fd.total_line_count,
                words: fd.total_word_count,
            },
        );
        i = i + 1;
    }
    proof {
        assert(rank_views(items@) =~= file_rank_items(files_data.deep_view()));
        lemma_sort_desc_props(file_rank_items(files_data.deep_view()));
    }
    let sorted = sort_items(items);
    take_names(sorted)
}

/// The first ten names of a sorted candidate list.
fn take_names(sorted: Vec<RankItem>) -> (r: Vec<String>)
    ensures
        r.deep_view() == rank_views(sorted@).take(rank_len(sorted@.len())).map_values(
            |x: RankV| x.name,
        ),
{
    let limit = if sorted.len() < 10 {
        sorted.len()
    } else {
        10
    };
    let mut out: Vec<String> = Vec::new();
    let mut k: usize = 0;
    while k < limit
        invariant
            limit == rank_len(sorted@.len()),
            k <= limit,
            out@.len() == k,
            forall|j: int| 0 <= j < k ==> out@[j]@ == rank_views(sorted@)[j].name,
        decreases limit - k,
    {
        out.push(sorted[k].name.clone());
        k = k + 1;
    }
    proof {
        assert(out.deep_view() =~= rank_views(sorted@).take(rank_len(sorted@.len())).map_values(
            |x: RankV| x.name,
        ));
    }
    out
}

/// The words-per-record ratio of a file, as the exact pair (word count,
/// record count). The pair compares by `ratio_ge`, which treats a file with
/// no records as ratio zero; no floating point and no division is involved.
pub fn words_questions_ratio(file_data: &FileData) -> (r: (usize, usize))
    ensures
        r.0 == file_data@.words,
        r.1 == file_data@.records,
{
    (file_data.total_word_count, file_data.total_line_count)
}

/// A file's view with its ranking filled in.
pub open spec fn with_top_tags(f: FileV) -> FileV {
    FileV {
        filename: f.filename,
        words: f.words,
        records: f.records,
        tags: f.tags,
        top_tags: rank_names(tag_rank_items(f.tags)),
    }
}

/// Fill every file's `top_tags` with the ranking of its own tag map; all
/// other fields are untouched.
pub fn generate_top_tags(files_data: &mut Vec<FileData>)
    ensures
        final(files_data)@.len() == old(files_data)@.len(),
        forall|i: int|
            0 <= i < old(files_data)@.len() ==> (#[trigger] final(files_data)@[i])@
                == with_top_tags(old(files_data)@[i]@),
{
    let ghost orig = old(files_data)@;
    let n = files_data.len();
    let mut rev: Vec<FileData> = Vec::new();
    while files_data.len() > 0
        invariant
            rev@.len() + files_data@.len() == n,
            n == orig.len(),
            forall|m: int| 0 <= m < files_data@.len() ==> files_data@[m] == orig[m],
            forall|k: int|
                0 <= k < rev@.len() ==> (#[trigger] rev@[k])@ == with_top_tags(
                    orig[n - 1 - k]@,
                ),
        decreases files_data@.len(),
    {
        match files_data.pop() {
            Some(mut fd) => {
                let tops = top_10_tags_highest_ratio(&fd.tag_counts);
                fd.top_tags = tops;
                rev.push(fd);
            },
            None => {
                proof {
                    assert(false);
                }
            },
        }
    }
    while rev.len() > 0
        invariant
            rev@.len() + files_data@.len() == n,
            n == orig.len(),
            forall|m: int|
                0 <= m < files_data@.len() ==> (#[trigger] files_data@[m])@ == with_top_tags(
                    orig[m]@,
                ),
            forall|k: int|
                0 <= k < rev@.len() ==> (#[trigger] rev@[k])@ == with_top_tags(orig[n - 1 - k]@),
        decreases rev@.len(),
    {
        match rev.pop() {
            Some(fd) => {
                proof {
                    assert(n - 1 - (rev@.len() - 1) == files_data@.len() + 1);
                }
                files_data.push(fd);
            },
            None => {
                proof {
                    assert(false);
                }
            },
        }
    }
}

/// Merge each file's tag map into the running global totals, in order.
pub open spec fn global_tags_from(acc: Seq<TagEntryV>, fs: Seq<FileV>) -> Seq<TagEntryV>
    decreases fs.len(),
{
    if fs.len() == 0 {
        acc
    } else {
        global_tags_from(merge_tags(acc, fs[0].tags), fs.drop_first())
    }
}

/// The global per-tag totals of a file list.
pub open spec fn global_tags(fs: Seq<FileV>) -> Seq<TagEntryV> {
    global_tags_from(Seq::empty(), fs)
}

/// Every file's tag keys are distinct.
pub open spec fn all_wf(fs: Seq<FileV>) -> bool {
    forall|i: int| 0 <= i < fs.len() ==> distinct_tags((#[trigger] fs[i]).tags)
}

/// What a file list contributes to one tag: its per-file counters, summed
/// pairwise across the files that carry the tag.
pub open spec fn tag_sum(fs: Seq<FileV>, t: Seq<char>) -> Option<(nat, nat)>
    decreases fs.len(),
{
    if fs.len() == 0 {
        None
    } else {
        combined(lookup(fs[0].tags, t), tag_sum(fs.drop_first(), t))
    }
}

/// The global fold on top of any accumulator adds exactly the files' summed
/// contribution.
pub proof fn lemma_global_from_delta(acc: Seq<TagEntryV>, fs: Seq<FileV>, t: Seq<char>)
    requires
        all_wf(fs),
    ensures
        lookup(global_tags_from(acc, fs), t) == combined(lookup(acc, t), tag_sum(fs, t)),
    decreases fs.len(),
{
    if fs.len() > 0 {
        lemma_merge_tags_lookup(acc, fs[0].tags, t);
        assert(all_wf(fs.drop_first())) by {
            assert(forall|i: int|
                0 <= i < fs.drop_first().len() ==> fs.drop_first()[i] == fs[i + 1]);
        }
        lemma_global_from_delta(merge_tags(acc, fs[0].tags), fs.drop_first(), t);
    }
}

/// Global aggregation correctness: for every tag, the global totals equal the
/// pairwise sum of that tag's counters across all files that carry it.
pub proof fn lemma_global_aggregation(fs: Seq<FileV>, t: Seq<char>)
    requires
        all_wf(fs),
    ensures
        lookup(global_tags(fs), t) == tag_sum(fs, t),
{
    lemma_global_from_delta(Seq::empty(), fs, t);
}

/// Folding a concatenation of file lists folds the parts in turn.
proof fn lemma_global_from_split(acc: Seq<TagEntryV>, f1: Seq<FileV>, f2: Seq<FileV>)
    ensures
        global_tags_from(acc, f1 + f2) == global_tags_from(global_tags_from(acc, f1), f2),
    decreases f1.len(),
{
    if f1.len() == 0 {
        assert(f1 + f2 =~= f2);
    } else {
        assert((f1 + f2)[0] == f1[0]);
        assert((f1 + f2).drop_first() =~= f1.drop_first() + f2);
        lemma_global_from_split(merge_tags(acc, f1[0].tags), f1.drop_first(), f2);
    }
}

/// One more merged file is one more merge.
proof fn lemma_global_from_snoc(acc: Seq<TagEntryV>, fs: Seq<FileV>, i: int)
    requires
        0 <= i < fs.len(),
    ensures
        global_tags_from(acc, fs.take(i + 1)) == merge_tags(
            global_tags_from(acc, fs.take(i)),
            fs[i].tags,
        ),
{
    assert(fs.take(i) + seq![fs[i]] =~= fs.take(i + 1));
    lemma_global_from_split(acc, fs.take(i), seq![fs[i]]);
    let z = global_tags_from(acc, fs.take(i));
    let one = seq![fs[i]];
    assert(one.drop_first() =~= Seq::<FileV>::empty());
    assert(global_tags_from(merge_tags(z, one[0].tags), one.drop_first()) == merge_tags(
        z,
        one[0].tags,
    ));
}

/// Aggregate every file's tag map into the global per-tag totals, by per-key
/// pairwise sum. `None` exactly when some global counter would not fit in
/// `usize`.
pub fn aggregate_tag_counts(files: &Vec<FileData>) -> (r: Option<TagCounts>)
    requires
        forall|i: int| 0 <= i < files@.len() ==> (#[trigger] files@[i]).wf(),
    ensures
        r is Some <==> tags_fit(global_tags(files.deep_view())),
        r is Some ==> (r->0)@ == global_tags(files.deep_view()),
        r is Some ==> (r->0).wf(),
{
    let ghost fv = files.deep_view();
    proof {
        assert(forall|i: int| 0 <= i < fv.len() ==> fv[i] == (#[trigger] files@[i])@);
        assert(all_wf(fv));
        assert(fv.take(0) =~= Seq::<FileV>::empty());
    }
    let mut tc = TagCounts::new();
    let mut i: usize = 0;
    while i < files.len()
        invariant
            fv == files.deep_view(),
            all_wf(fv),
            i <= files@.len(),
            fv.len() == files@.len(),
            forall|k: int| 0 <= k < fv.len() ==> fv[k] == (#[trigger] files@[k])@,
            tc@ == global_tags_from(Seq::empty(), fv.take(i as int)),
            tc.wf(),
        decreases files@.len() - i,
    {
        let ghost acc = tc@;
        proof {
            lemma_global_from_snoc(Seq::empty(), fv, i as int);
            assert(files@[i as int].tag_counts@ == fv[i as int].tags);
        }
        let ok = tc.merge_add(&files[i].tag_counts);
        if !ok {
            proof {
                lemma_aggregate_overflow(fv, i as int, acc);
            }
            return None;
        }
        i = i + 1;
    }
    proof {
        assert(fv.take(files@.len() as int) =~= fv);
        assert(tags_fit(global_tags(fv))) by {
            assert(forall|k: int|
                0 <= k < tc@.len() ==> (#[trigger] tc@[k]).records <= usize::MAX && tc@[k].words
                    <= usize::MAX);
        }
    }
    Some(tc)
}

/// When one merge of the global fold overflows, the global totals do not fit.
proof fn lemma_aggregate_overflow(fv: Seq<FileV>, i: int, acc: Seq<TagEntryV>)
    requires
        all_wf(fv),
        0 <= i < fv.len(),
        distinct_tags(acc),
        acc == global_tags_from(Seq::empty(), fv.take(i)),
        !tags_fit(merge_tags(acc, fv[i].tags)),
    ensures
        !tags_fit(global_tags(fv)),
{
    let m = merge_tags(acc, fv[i].tags);
    lemma_merge_tags_distinct(acc, fv[i].tags);
    let k = choose|k: int|
        0 <= k < m.len() && !((#[trigger] m[k]).records <= usize::MAX && m[k].words <= usize::MAX);
    let t = m[k].tag;
    lemma_global_from_snoc(Seq::empty(), fv, i);
    assert(fv.take(i + 1) + fv.skip(i + 1) =~= fv);
    lemma_global_from_split(Seq::empty(), fv.take(i + 1), fv.skip(i + 1));
    assert(all_wf(fv.skip(i + 1))) by {
        assert(forall|j: int|
            0 <= j < fv.skip(i + 1).len() ==> #[trigger] fv.skip(i + 1)[j] == fv[j + i + 1]);
    }
    lemma_global_from_delta(m, fv.skip(i + 1), t);
    crate::tag_counts::lemma_lookup_at(m, t, k);
    crate::tag_counts::lemma_combined_ge(lookup(m, t), tag_sum(fv.skip(i + 1), t));
    assert(lookup(global_tags(fv), t) is Some);
    let cf = lookup(global_tags(fv), t)->0;
    assert(cf.0 > usize::MAX || cf.1 > usize::MAX);
    lemma_lookup_index(global_tags(fv), t);
}

} // verus!
