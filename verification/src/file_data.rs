//! Per-file aggregation: records folded into a `FileData` holding the file's
//! total word count, total record count and per-tag counters, by an
//! associative and commutative reduction whose law is proved here.

use vstd::prelude::*;

use crate::tag_counts::{
    bump, combined, distinct_tags, lemma_bump_lookup, lemma_combined_ge, lemma_lookup_index,
    lookup, merge_tags, tags_fit, TagCounts, TagEntryV,
};
use crate::utils::{count_words, sum_word_counts};

verus! {

/// One decoded input line: its text strings and its tag labels.
pub struct Record {
    pub texts: Vec<String>,
    pub tags: Vec<String>,
}

/// The mathematical value of a record.
pub ghost struct RecV {
    pub texts: Seq<Seq<char>>,
    pub tags: Seq<Seq<char>>,
}

impl View for Record {
    type V = RecV;

    open spec fn view(&self) -> RecV {
        RecV { texts: self.texts.deep_view(), tags: self.tags.deep_view() }
    }
}

impl DeepView for Record {
    type V = RecV;

    open spec fn deep_view(&self) -> RecV {
        self.view()
    }
}

/// Whether the record decoder accepts the line: a function of the line alone.
pub uninterp spec fn line_decodes(line: Seq<char>) -> bool;

/// The string elements of the line's `texts` array, in order: a function of
/// the line alone.
pub uninterp spec fn decoded_texts(line: Seq<char>) -> Seq<Seq<char>>;

/// The string elements of the line's `tags` array, in order: a function of
/// the line alone.
pub uninterp spec fn decoded_tags(line: Seq<char>) -> Seq<Seq<char>>;

/// The record that a well-formed line decodes to.
pub open spec fn decoded_rec(line: Seq<char>) -> RecV {
    RecV { texts: decoded_texts(line), tags: decoded_tags(line) }
}

/// Relies on `serde_json::from_str::<Value>` and `Value::{get, as_array,
/// as_str}`: a line decodes exactly when it is valid JSON; the `texts` and
/// `tags` fields are read as arrays, their string elements kept in order and
/// elements of any other kind dropped; an absent or non-array field gives the
/// empty list. The outcome depends on the line alone.
#[verifier::external_body]
fn decode_line(line: &str) -> (r: Option<Record>)
    ensures
        r is Some <==> line_decodes(line@),
        r is Some ==> (r->0).texts.deep_view() == decoded_texts(line@),
        r is Some ==> (r->0).tags.deep_view() == decoded_tags(line@),
{
    let v: serde_json::Value = match serde_json::from_str(line) {
        Ok(v) => v,
        Err(_) => return None,
    };
    let texts = match v.get("texts").and_then(serde_json::Value::as_array) {
        Some(a) => a.iter().filter_map(|e| e.as_str().map(str::to_string)).collect(),
        None => Vec::new(),
    };
    let tags = match v.get("tags").and_then(serde_json::Value::as_array) {
        Some(a) => a.iter().filter_map(|e| e.as_str().map(str::to_string)).collect(),
        None => Vec::new(),
    };
    Some(Record { texts, tags })
}

/// Whether every line of the sequence decodes.
pub open spec fn all_decode(lines: Seq<Seq<char>>) -> bool {
    forall|i: int| 0 <= i < lines.len() ==> line_decodes(#[trigger] lines[i])
}

/// The records of a sequence of well-formed lines.
pub open spec fn decoded_recs(lines: Seq<Seq<char>>) -> Seq<RecV> {
    lines.map_values(|l: Seq<char>| decoded_rec(l))
}

/// Decode every line of a file. `None` exactly when some line is rejected by
/// the decoder: a malformed line is fatal for the whole file, there is no
/// partial success.
pub fn decode_lines(lines: &Vec<String>) -> (r: Option<Vec<Record>>)
    ensures
        r is Some <==> all_decode(lines.deep_view()),
        r is Some ==> (r->0).deep_view() == decoded_recs(lines.deep_view()),
{
    let ghost lv = lines.deep_view();
    let mut recs: Vec<Record> = Vec::new();
    let mut i: usize = 0;
    while i < lines.len()
        invariant
            lv == lines.deep_view(),
            i <= lines.len(),
            recs@.len() == i,
            forall|j: int| 0 <= j < i ==> (#[trigger] recs@[j]).deep_view() == decoded_rec(lv[j]),
            forall|j: int| 0 <= j < i ==> line_decodes(#[trigger] lv[j]),
        decreases lines.len() - i,
    {
        match decode_line(lines[i].as_str()) {
            Some(rec) => {
                proof {
                    assert(lines@[i as int]@ == lv[i as int]);
                    assert(rec.deep_view() == decoded_rec(lv[i as int]));
                }
                recs.push(rec);
            },
            None => {
                assert(!line_decodes(lv[i as int]));
                return None;
            },
        }
        i = i + 1;
    }
    proof {
        assert(recs.deep_view() =~= decoded_recs(lv));
    }
    Some(recs)
}

/// The running totals of the fold: total words, total records, per-tag
/// counters.
pub ghost struct StatsV {
    pub words: nat,
    pub records: nat,
    pub tags: Seq<TagEntryV>,
}

/// A record's own word count: the word counts of its text strings, summed.
pub open spec fn rec_words(r: RecV) -> nat {
    sum_word_counts(r.texts)
}

/// Fold the tag occurrences of one record, each adding one record and the
/// record's full word count `w` to that tag's counters.
pub open spec fn rec_tags_fold(tags: Seq<TagEntryV>, occ: Seq<Seq<char>>, w: nat) -> Seq<
    TagEntryV,
>
    decreases occ.len(),
{
    if occ.len() == 0 {
        tags
    } else {
        rec_tags_fold(bump(tags, occ[0], 1, w), occ.drop_first(), w)
    }
}

/// Fold one record into the running totals: its word count counts once
/// towards the file total, and once per tag occurrence towards that tag.
pub open spec fn fold_record(s: StatsV, r: RecV) -> StatsV {
    StatsV {
        words: (s.words + rec_words(r)) as nat,
        records: (s.records + 1) as nat,
        tags: rec_tags_fold(s.tags, r.tags, rec_words(r)),
    }
}

/// Fold a sequence of records into running totals, in order.
pub open spec fn stats_from(s: StatsV, recs: Seq<RecV>) -> StatsV
    decreases recs.len(),
{
    if recs.len() == 0 {
        s
    } else {
        stats_from(fold_record(s, recs[0]), recs.drop_first())
    }
}

/// The empty totals.
pub open spec fn empty_stats() -> StatsV {
    StatsV { words: 0, records: 0, tags: Seq::empty() }
}

/// The totals of a file given as a sequence of records.
pub open spec fn stats_of(recs: Seq<RecV>) -> StatsV {
    stats_from(empty_stats(), recs)
}

/// Every counter of the totals fits in `usize`.
pub open spec fn stats_fits(s: StatsV) -> bool {
    s.words <= usize::MAX && tags_fit(s.tags)
}

/// Folding a concatenation folds the parts in turn.
pub proof fn lemma_stats_from_split(s: StatsV, r1: Seq<RecV>, r2: Seq<RecV>)
    ensures
        stats_from(s, r1 + r2) == stats_from(stats_from(s, r1), r2),
    decreases r1.len(),
{
    if r1.len() == 0 {
        assert(r1 + r2 =~= r2);
    } else {
        assert((r1 + r2)[0] == r1[0]);
        assert((r1 + r2).drop_first() =~= r1.drop_first() + r2);
        lemma_stats_from_split(fold_record(s, r1[0]), r1.drop_first(), r2);
    }
}

/// One more folded record is one more `fold_record`.
pub proof fn lemma_stats_from_snoc(s: StatsV, recs: Seq<RecV>, i: int)
    requires
        0 <= i < recs.len(),
    ensures
        stats_from(s, recs.take(i + 1)) == fold_record(stats_from(s, recs.take(i)), recs[i]),
{
    assert(recs.take(i) + seq![recs[i]] =~= recs.take(i + 1));
    lemma_stats_from_split(s, recs.take(i), seq![recs[i]]);
    let z = stats_from(s, recs.take(i));
    let one = seq![recs[i]];
    assert(one.drop_first() =~= Seq::<RecV>::empty());
    assert(stats_from(fold_record(z, one[0]), one.drop_first()) == fold_record(z, one[0]));
    assert(stats_from(z, one) == fold_record(z, recs[i]));
}

/// Folding tag occurrences of a concatenation folds the parts in turn.
pub proof fn lemma_rec_fold_split(
    base: Seq<TagEntryV>,
    o1: Seq<Seq<char>>,
    o2: Seq<Seq<char>>,
    w: nat,
)
    ensures
        rec_tags_fold(base, o1 + o2, w) == rec_tags_fold(rec_tags_fold(base, o1, w), o2, w),
    decreases o1.len(),
{
    if o1.len() == 0 {
        assert(o1 + o2 =~= o2);
    } else {
        assert((o1 + o2)[0] == o1[0]);
        assert((o1 + o2).drop_first() =~= o1.drop_first() + o2);
        lemma_rec_fold_split(bump(base, o1[0], 1, w), o1.drop_first(), o2, w);
    }
}

/// One more folded occurrence is one more `bump`.
pub proof fn lemma_rec_fold_snoc(base: Seq<TagEntryV>, occ: Seq<Seq<char>>, i: int, w: nat)
    requires
        0 <= i < occ.len(),
    ensures
        rec_tags_fold(base, occ.take(i + 1), w) == bump(
            rec_tags_fold(base, occ.take(i), w),
            occ[i],
            1,
            w,
        ),
{
    assert(occ.take(i) + seq![occ[i]] =~= occ.take(i + 1));
    lemma_rec_fold_split(base, occ.take(i), seq![occ[i]], w);
    let z = rec_tags_fold(base, occ.take(i), w);
    let one = seq![occ[i]];
    assert(one.drop_first() =~= Seq::<Seq<char>>::empty());
    assert(rec_tags_fold(bump(z, one[0], 1, w), one.drop_first(), w) == bump(z, one[0], 1, w));
    assert(rec_tags_fold(z, one, w) == bump(z, occ[i], 1, w));
}

/// What one record's occurrences contribute to a tag, on top of any base: a
/// delta that does not depend on the base.
pub proof fn lemma_rec_fold_delta(base: Seq<TagEntryV>, occ: Seq<Seq<char>>, w: nat, t: Seq<char>)
    ensures
        lookup(rec_tags_fold(base, occ, w), t) == combined(
            lookup(base, t),
            lookup(rec_tags_fold(Seq::empty(), occ, w), t),
        ),
    decreases occ.len(),
{
    if occ.len() > 0 {
        let rest = occ.drop_first();
        lemma_bump_lookup(base, occ[0], 1, w, t);
        lemma_bump_lookup(Seq::empty(), occ[0], 1, w, t);
        lemma_rec_fold_delta(bump(base, occ[0], 1, w), rest, w, t);
        lemma_rec_fold_delta(bump(Seq::empty(), occ[0], 1, w), rest, w, t);
        lemma_rec_fold_delta(Seq::empty(), rest, w, t);
    }
}

/// What a sequence of records contributes to the totals, on top of any
/// starting totals: the whole fold is one merge. This is the reduction law
/// behind the partitioned fold.
pub proof fn lemma_stats_from_delta(s: StatsV, recs: Seq<RecV>, t: Seq<char>)
    ensures
        stats_from(s, recs).words == s.words + stats_of(recs).words,
        stats_from(s, recs).records == s.records + stats_of(recs).records,
        lookup(stats_from(s, recs).tags, t) == combined(
            lookup(s.tags, t),
            lookup(stats_of(recs).tags, t),
        ),
    decreases recs.len(),
{
    if recs.len() == 0 {
    } else {
        let r0 = recs[0];
        let rest = recs.drop_first();
        lemma_stats_from_delta(fold_record(s, r0), rest, t);
        lemma_stats_from_delta(fold_record(empty_stats(), r0), rest, t);
        lemma_stats_from_delta(empty_stats(), rest, t);
        lemma_rec_fold_delta(s.tags, r0.tags, rec_words(r0), t);
        lemma_rec_fold_delta(Seq::empty(), r0.tags, rec_words(r0), t);
    }
}

/// Pairwise merge of two partitions' totals.
pub open spec fn merge_stats(a: StatsV, b: StatsV) -> StatsV {
    StatsV {
        words: (a.words + b.words) as nat,
        records: (a.records + b.records) as nat,
        tags: merge_tags(a.tags, b.tags),
    }
}

/// Totals agree: same word and record counts, and the same counters for
/// every tag.
pub open spec fn stats_equiv(a: StatsV, b: StatsV) -> bool {
    &&& a.words == b.words
    &&& a.records == b.records
    &&& forall|t: Seq<char>| #[trigger] lookup(a.tags, t) == lookup(b.tags, t)
}

/// Reduction correctness: splitting the records of a file at any point and
/// merging the two partitions' totals gives the totals of the whole file.
/// With `lemma_merge_tags_assoc` and `lemma_merge_tags_comm` this extends to
/// arbitrary partitions merged in any grouping and order.
pub proof fn lemma_reduction_partition(r1: Seq<RecV>, r2: Seq<RecV>)
    ensures
        stats_equiv(stats_of(r1 + r2), merge_stats(stats_of(r1), stats_of(r2))),
{
    lemma_stats_from_split(empty_stats(), r1, r2);
    assert forall|t: Seq<char>| #[trigger] lookup(stats_of(r1 + r2).tags, t) == lookup(
        merge_stats(stats_of(r1), stats_of(r2)).tags,
        t,
    ) by {
        lemma_stats_from_delta(stats_of(r1), r2, t);
        lemma_stats_distinct(r1);
        lemma_stats_distinct(r2);
        crate::tag_counts::lemma_merge_tags_lookup(stats_of(r1).tags, stats_of(r2).tags, t);
    }
    lemma_stats_from_delta(stats_of(r1), r2, Seq::empty());
}

/// The number of words of one record, summed over the records in order.
pub open spec fn total_rec_words(recs: Seq<RecV>) -> nat
    decreases recs.len(),
{
    if recs.len() == 0 {
        0
    } else {
        (rec_words(recs[0]) + total_rec_words(recs.drop_first())) as nat
    }
}

/// Word-count additivity: a file's total word count is the sum of its
/// records' own word counts, however the tags are distributed.
pub proof fn lemma_word_count_additivity(recs: Seq<RecV>)
    ensures
        stats_of(recs).words == total_rec_words(recs),
        stats_of(recs).records == recs.len(),
    decreases recs.len(),
{
    if recs.len() > 0 {
        lemma_word_count_additivity(recs.drop_first());
        lemma_stats_from_delta(fold_record(empty_stats(), recs[0]), recs.drop_first(), Seq::empty());
    }
}

/// How many of the occurrences equal `t`.
pub open spec fn occ_count(occ: Seq<Seq<char>>, t: Seq<char>) -> nat
    decreases occ.len(),
{
    if occ.len() == 0 {
        0
    } else {
        ((if occ[0] == t {
            1nat
        } else {
            0nat
        }) + occ_count(occ.drop_first(), t)) as nat
    }
}

/// What one record's occurrences alone give a tag: carried `k` times with
/// word count `w`, the tag gains `k` records and `k * w` words.
pub proof fn lemma_rec_fold_occ(occ: Seq<Seq<char>>, w: nat, t: Seq<char>)
    ensures
        lookup(rec_tags_fold(Seq::empty(), occ, w), t) == if occ_count(occ, t) == 0 {
            None::<(nat, nat)>
        } else {
            Some((occ_count(occ, t), (occ_count(occ, t) * w) as nat))
        },
    decreases occ.len(),
{
    if occ.len() > 0 {
        let rest = occ.drop_first();
        let k = occ_count(rest, t);
        lemma_rec_fold_occ(rest, w, t);
        lemma_rec_fold_delta(bump(Seq::empty(), occ[0], 1, w), rest, w, t);
        lemma_bump_lookup(Seq::empty(), occ[0], 1, w, t);
        if occ[0] == t {
            assert((k + 1) * w == k * w + w) by (nonlinear_arith);
        }
    }
}

/// Tag double count: folding one record with word count `W` adds `W` once to
/// the file total, one to the record count, and, to every tag it carries `k`
/// times, `k` records and `k * W` words — `W` counts once per tag carried,
/// while the file total gains it only once.
pub proof fn lemma_tag_double_count(s: StatsV, r: RecV, t: Seq<char>)
    ensures
        fold_record(s, r).words == s.words + rec_words(r),
        fold_record(s, r).records == s.records + 1,
        lookup(fold_record(s, r).tags, t) == combined(
            lookup(s.tags, t),
            if occ_count(r.tags, t) == 0 {
                None::<(nat, nat)>
            } else {
                Some((occ_count(r.tags, t), (occ_count(r.tags, t) * rec_words(r)) as nat))
            },
        ),
{
    lemma_rec_fold_delta(s.tags, r.tags, rec_words(r), t);
    lemma_rec_fold_occ(r.tags, rec_words(r), t);
}

/// The folded tag lists keep their keys distinct.
pub proof fn lemma_rec_fold_distinct(base: Seq<TagEntryV>, occ: Seq<Seq<char>>, w: nat)
    requires
        distinct_tags(base),
    ensures
        distinct_tags(rec_tags_fold(base, occ, w)),
    decreases occ.len(),
{
    if occ.len() > 0 {
        crate::tag_counts::lemma_bump_distinct(base, occ[0], 1, w);
        lemma_rec_fold_distinct(bump(base, occ[0], 1, w), occ.drop_first(), w);
    }
}

/// The totals of any record sequence have distinct tag keys.
pub proof fn lemma_stats_distinct(recs: Seq<RecV>)
    ensures
        distinct_tags(stats_of(recs).tags),
{
    lemma_stats_from_distinct(empty_stats(), recs);
}

proof fn lemma_stats_from_distinct(s: StatsV, recs: Seq<RecV>)
    requires
        distinct_tags(s.tags),
    ensures
        distinct_tags(stats_from(s, recs).tags),
    decreases recs.len(),
{
    if recs.len() > 0 {
        lemma_rec_fold_distinct(s.tags, recs[0].tags, rec_words(recs[0]));
        lemma_stats_from_distinct(fold_record(s, recs[0]), recs.drop_first());
    }
}

/// The statistics of one input file.
pub struct FileData {
    pub filename: String,
    pub total_word_count: usize,
    pub total_line_count: usize,
    pub tag_counts: TagCounts,
    pub top_tags: Vec<String>,
}

/// The mathematical value of a `FileData`.
pub ghost struct FileV {
    pub filename: Seq<char>,
    pub words: nat,
    pub records: nat,
    pub tags: Seq<TagEntryV>,
    pub top_tags: Seq<Seq<char>>,
}

impl View for FileData {
    type V = FileV;

    open spec fn view(&self) -> FileV {
        FileV {
            filename: self.filename@,
            words: self.total_word_count as nat,
            records: self.total_line_count as nat,
            tags: self.tag_counts@,
            top_tags: self.top_tags.deep_view(),
        }
    }
}

impl DeepView for FileData {
    type V = FileV;

    open spec fn deep_view(&self) -> FileV {
        self.view()
    }
}

impl FileData {
    /// The tag keys are pairwise distinct.
    pub open spec fn wf(&self) -> bool {
        distinct_tags(self@.tags)
    }
}

/// Fold a file's records into its `FileData`, `top_tags` left empty. `None`
/// exactly when some total would not fit in `usize`.
pub fn file_stats_from_records(filename: String, recs: &Vec<Record>) -> (r: Option<FileData>)
    ensures
        r is Some <==> stats_fits(stats_of(recs.deep_view())),
        r is Some ==> (r->0)@ == (FileV {
            filename: filename@,
            words: stats_of(recs.deep_view()).words,
            records: stats_of(recs.deep_view()).records,
            tags: stats_of(recs.deep_view()).tags,
            top_tags: Seq::empty(),
        }),
        r is Some ==> (r->0).wf(),
{
    let ghost rv = recs.deep_view();
    let mut words: usize = 0;
    let mut tc = TagCounts::new();
    let mut i: usize = 0;
    while i < recs.len()
        invariant
            rv == recs.deep_view(),
            i <= recs.len(),
            words == stats_from(empty_stats(), rv.take(i as int)).words,
            tc@ == stats_from(empty_stats(), rv.take(i as int)).tags,
            tc.wf(),
        decreases recs.len() - i,
    {
        let ghost st = stats_from(empty_stats(), rv.take(i as int));
        proof {
            lemma_stats_from_snoc(empty_stats(), rv, i as int);
            assert(rv[i as int] == recs[i as int]@);
        }
        let w = match count_words(&recs[i].texts) {
            Some(w) => w,
            None => {
                proof {
                    lemma_overflow_words(rv, i as int, st.words + rec_words(rv[i as int]));
                }
                return None;
            },
        };
        assert(w == rec_words(rv[i as int]));
        let new_words = match words.checked_add(w) {
            Some(n) => n,
            None => {
                proof {
                    lemma_overflow_words(rv, i as int, st.words + rec_words(rv[i as int]));
                }
                return None;
            },
        };
        let ghost occ = rv[i as int].tags;
        proof {
            assert(occ.take(0) =~= Seq::<Seq<char>>::empty());
        }
        let mut j: usize = 0;
        while j < recs[i].tags.len()
            invariant
                rv == recs.deep_view(),
                i < recs.len(),
                occ == rv[i as int].tags,
                j <= occ.len(),
                occ.len() == recs[i as int].tags@.len(),
                w == rec_words(rv[i as int]),
                st == stats_from(empty_stats(), rv.take(i as int)),
                tc@ == rec_tags_fold(st.tags, occ.take(j as int), w as nat),
                tc.wf(),
            decreases occ.len() - j,
        {
            let ghost pre = tc@;
            proof {
                assert(occ[j as int] == recs[i as int].tags@[j as int]@);
            }
            let ok = tc.add_counts(&recs[i].tags[j], 1, w);
            if !ok {
                proof {
                    lemma_rec_fold_snoc(st.tags, occ, j as int, w as nat);
                    lemma_overflow_tags(rv, i as int, j as int, w as nat, pre);
                }
                return None;
            }
            proof {
                lemma_rec_fold_snoc(st.tags, occ, j as int, w as nat);
            }
            j = j + 1;
        }
        proof {
            assert(occ.take(occ.len() as int) =~= occ);
        }
        words = new_words;
        i = i + 1;
    }
    proof {
        assert(rv.take(recs.len() as int) =~= rv);
        assert(tags_fit(stats_of(rv).tags)) by {
            assert(forall|k: int|
                0 <= k < tc@.len() ==> (#[trigger] tc@[k]).records <= usize::MAX
                    && tc@[k].words <= usize::MAX);
        }
    }
    let fd = FileData {
        filename,
        total_word_count: words,
        total_line_count: recs.len(),
        tag_counts: tc,
        top_tags: Vec::new(),
    };
    proof {
        lemma_word_count_additivity(rv);
        assert(fd.top_tags.deep_view() =~= Seq::<Seq<char>>::empty());
    }
    Some(fd)
}

/// Merge the totals of two partitions of one file's records: the explicit
/// associative-commutative reduction step of the fork-join fold. The first
/// partition's identity fields are kept. `None` exactly when a merged total
/// would not fit in `usize`; the reduction law (`lemma_reduction_partition`)
/// says the merge of the partitions' totals equals the whole file's totals.
pub fn merge_file_parts(a: FileData, b: &FileData) -> (r: Option<FileData>)
    requires
        b.wf(),
    ensures
        r is Some <==> (a@.words + b@.words <= usize::MAX && a@.records + b@.records <= usize::MAX
            && tags_fit(merge_tags(a@.tags, b@.tags))),
        r is Some ==> (r->0)@ == (FileV {
            filename: a@.filename,
            words: (a@.words + b@.words) as nat,
            records: (a@.records + b@.records) as nat,
            tags: merge_tags(a@.tags, b@.tags),
            top_tags: a@.top_tags,
        }),
        r is Some && a.wf() ==> (r->0).wf(),
{
    let words = match a.total_word_count.checked_add(b.total_word_count) {
        Some(w) => w,
        None => {
            return None;
        },
    };
    let records = match a.total_line_count.checked_add(b.total_line_count) {
        Some(n) => n,
        None => {
            return None;
        },
    };
    let mut merged = a;
    let ok = merged.tag_counts.merge_add(&b.tag_counts);
    if !ok {
        return None;
    }
    merged.total_word_count = words;
    merged.total_line_count = records;
    Some(merged)
}

/// When a word total exceeds `usize` part-way, the file's totals do not fit.
proof fn lemma_overflow_words(rv: Seq<RecV>, i: int, exceeded: nat)
    requires
        0 <= i < rv.len(),
        exceeded > usize::MAX,
        exceeded == stats_from(empty_stats(), rv.take(i)).words + rec_words(rv[i]),
    ensures
        !stats_fits(stats_of(rv)),
{
    lemma_stats_from_snoc(empty_stats(), rv, i);
    assert(rv.take(i + 1) + rv.skip(i + 1) =~= rv);
    lemma_stats_from_split(empty_stats(), rv.take(i + 1), rv.skip(i + 1));
    lemma_stats_from_delta(stats_from(empty_stats(), rv.take(i + 1)), rv.skip(i + 1), Seq::empty());
}

/// When a tag counter exceeds `usize` part-way, the file's totals do not fit.
proof fn lemma_overflow_tags(rv: Seq<RecV>, i: int, j: int, w: nat, pre: Seq<TagEntryV>)
    requires
        0 <= i < rv.len(),
        0 <= j < rv[i].tags.len(),
        w == rec_words(rv[i]),
        pre == rec_tags_fold(stats_from(empty_stats(), rv.take(i)).tags, rv[i].tags.take(j), w),
        !(match lookup(pre, rv[i].tags[j]) {
            Some(c) => c.0 + 1 <= usize::MAX && c.1 + w <= usize::MAX,
            None => true,
        }),
    ensures
        !stats_fits(stats_of(rv)),
{
    let t = rv[i].tags[j];
    let st = stats_from(empty_stats(), rv.take(i));
    let occ = rv[i].tags;
    lemma_rec_fold_snoc(st.tags, occ, j, w);
    let after = bump(pre, t, 1, w);
    lemma_bump_lookup(pre, t, 1, w, t);
    assert(lookup(after, t) is Some);
    let c1 = lookup(after, t)->0;
    assert(c1.0 > usize::MAX || c1.1 > usize::MAX);
    // the rest of this record's occurrences only grow the counters
    assert(occ.take(j + 1) + occ.skip(j + 1) =~= occ);
    lemma_rec_fold_split(st.tags, occ.take(j + 1), occ.skip(j + 1), w);
    lemma_rec_fold_delta(after, occ.skip(j + 1), w, t);
    lemma_combined_ge(lookup(after, t), lookup(rec_tags_fold(Seq::empty(), occ.skip(j + 1), w), t));
    let full = rec_tags_fold(st.tags, occ, w);
    assert(lookup(full, t) is Some);
    // and so do the records after this one
    lemma_stats_from_snoc(empty_stats(), rv, i);
    assert(fold_record(st, rv[i]).tags == full);
    assert(rv.take(i + 1) + rv.skip(i + 1) =~= rv);
    lemma_stats_from_split(empty_stats(), rv.take(i + 1), rv.skip(i + 1));
    lemma_stats_from_delta(stats_from(empty_stats(), rv.take(i + 1)), rv.skip(i + 1), t);
    lemma_combined_ge(lookup(full, t), lookup(stats_of(rv.skip(i + 1)).tags, t));
    assert(lookup(stats_of(rv).tags, t) is Some);
    let cf = lookup(stats_of(rv).tags, t)->0;
    assert(cf.0 > usize::MAX || cf.1 > usize::MAX);
    lemma_lookup_index(stats_of(rv).tags, t);
}

} // verus!
