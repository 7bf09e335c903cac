//! Per-tag counters: a mapping from tag to a pair (record count, word count),
//! kept as an association list in first-insertion order with distinct keys.
//! Keeping the order fixed makes every pass over the map, and so the whole
//! report, deterministic for a given input.

use vstd::prelude::*;

verus! {

/// One tag's counters: how many records carried the tag, and the cumulative
/// word count of the text fields of those records.
pub struct TagEntry {
    pub tag: String,
    pub records: usize,
    pub words: usize,
}

/// The mathematical value of one entry.
pub ghost struct TagEntryV {
    pub tag: Seq<char>,
    pub records: nat,
    pub words: nat,
}

impl View for TagEntry {
    type V = TagEntryV;

    open spec fn view(&self) -> TagEntryV {
        TagEntryV { tag: self.tag@, records: self.records as nat, words: self.words as nat }
    }
}

/// The first entry of `s` carrying `tag`, if any.
pub open spec fn lookup(s: Seq<TagEntryV>, tag: Seq<char>) -> Option<(nat, nat)>
    decreases s.len(),
{
    if s.len() == 0 {
        None
    } else if s[0].tag == tag {
        Some((s[0].records, s[0].words))
    } else {
        lookup(s.drop_first(), tag)
    }
}

/// No two entries carry the same tag.
pub open spec fn distinct_tags(s: Seq<TagEntryV>) -> bool {
    forall|i: int, j: int| 0 <= i < j < s.len() ==> s[i].tag != s[j].tag
}

/// Every counter of `s` fits in `usize`.
pub open spec fn tags_fit(s: Seq<TagEntryV>) -> bool {
    forall|i: int|
        0 <= i < s.len() ==> (#[trigger] s[i]).records <= usize::MAX && s[i].words <= usize::MAX
}

/// Add `dr` to the record count and `dw` to the word count of `tag`,
/// appending a fresh entry when the tag is new.
pub open spec fn bump(s: Seq<TagEntryV>, tag: Seq<char>, dr: nat, dw: nat) -> Seq<TagEntryV>
    decreases s.len(),
{
    if s.len() == 0 {
        seq![TagEntryV { tag, records: dr, words: dw }]
    } else if s[0].tag == tag {
        seq![
            TagEntryV { tag, records: (s[0].records + dr) as nat, words: (s[0].words + dw) as nat },
        ] + s.drop_first()
    } else {
        seq![s[0]] + bump(s.drop_first(), tag, dr, dw)
    }
}

/// Merge `b` into `a` by per-key pairwise sum, keys of `a` first, new keys of
/// `b` appended in their order.
pub open spec fn merge_tags(a: Seq<TagEntryV>, b: Seq<TagEntryV>) -> Seq<TagEntryV>
    decreases b.len(),
{
    if b.len() == 0 {
        a
    } else {
        merge_tags(bump(a, b[0].tag, b[0].records, b[0].words), b.drop_first())
    }
}

/// The pairwise sum of two optional counter pairs; absent means no
/// contribution.
pub open spec fn combined(x: Option<(nat, nat)>, y: Option<(nat, nat)>) -> Option<(nat, nat)> {
    match (x, y) {
        (Some(a), Some(b)) => Some(((a.0 + b.0) as nat, (a.1 + b.1) as nat)),
        (Some(a), None) => Some(a),
        (None, Some(b)) => Some(b),
        (None, None) => None,
    }
}

/// How `bump` changes each lookup: the bumped tag gains `(dr, dw)`, every
/// other tag is untouched.
pub proof fn lemma_bump_lookup(s: Seq<TagEntryV>, tag: Seq<char>, dr: nat, dw: nat, t: Seq<char>)
    ensures
        lookup(bump(s, tag, dr, dw), t) == if t == tag {
            combined(lookup(s, t), Some((dr, dw)))
        } else {
            lookup(s, t)
        },
    decreases s.len(),
{
    let b = bump(s, tag, dr, dw);
    if s.len() == 0 {
        assert(b == seq![TagEntryV { tag, records: dr, words: dw }]);
        assert(b.drop_first() =~= Seq::<TagEntryV>::empty());
    } else if s[0].tag == tag {
        assert(b.drop_first() =~= s.drop_first());
    } else {
        assert(b[0] == s[0]);
        assert(b.drop_first() =~= bump(s.drop_first(), tag, dr, dw));
        lemma_bump_lookup(s.drop_first(), tag, dr, dw, t);
    }
}

/// `bump` keeps the keys distinct and adds at most one entry.
pub proof fn lemma_bump_distinct(s: Seq<TagEntryV>, tag: Seq<char>, dr: nat, dw: nat)
    requires
        distinct_tags(s),
    ensures
        distinct_tags(bump(s, tag, dr, dw)),
        lookup(s, tag) is Some ==> bump(s, tag, dr, dw).len() == s.len(),
        lookup(s, tag) is None ==> bump(s, tag, dr, dw).len() == s.len() + 1,
        forall|i: int|
            0 <= i < bump(s, tag, dr, dw).len() ==> (#[trigger] bump(s, tag, dr, dw)[i]).tag
                == if i < s.len() {
                s[i].tag
            } else {
                tag
            },
    decreases s.len(),
{
    let b = bump(s, tag, dr, dw);
    if s.len() == 0 {
    } else if s[0].tag == tag {
        assert(b.drop_first() =~= s.drop_first());
        assert(forall|i: int| 0 <= i < b.len() ==> (#[trigger] b[i]).tag == s[i].tag);
        assert(distinct_tags(b)) by {
            assert(forall|p: int, q: int|
                0 <= p < q < b.len() ==> (#[trigger] b[p]).tag == s[p].tag && (#[trigger] b[q]).tag
                    == s[q].tag);
        }
    } else {
        assert(distinct_tags(s.drop_first())) by {
            assert(forall|i: int, j: int|
                0 <= i < j < s.drop_first().len() ==> s.drop_first()[i] == s[i + 1]
                    && s.drop_first()[j] == s[j + 1]);
        }
        lemma_bump_distinct(s.drop_first(), tag, dr, dw);
        let br = bump(s.drop_first(), tag, dr, dw);
        assert(b.drop_first() =~= br);
        assert(forall|i: int| 1 <= i < b.len() ==> b[i] == br[i - 1]);
        assert(forall|j: int| 0 <= j < s.drop_first().len() ==> s.drop_first()[j] == s[j + 1]);
        lemma_bump_lookup(s.drop_first(), tag, dr, dw, tag);
        assert(lookup(s, tag) == lookup(s.drop_first(), tag));
        assert(forall|i: int|
            0 <= i < b.len() ==> (#[trigger] b[i]).tag == if i < s.len() {
                s[i].tag
            } else {
                tag
            });
        assert(distinct_tags(b)) by {
            assert(forall|p: int, q: int|
                1 <= p < q < b.len() ==> (#[trigger] b[p]).tag != (#[trigger] b[q]).tag);
            assert(forall|q: int| 1 <= q < b.len() ==> b[0].tag != (#[trigger] b[q]).tag);
        }
    }
}

/// A tag carried by no entry of `s` has no lookup.
pub proof fn lemma_lookup_absent(s: Seq<TagEntryV>, t: Seq<char>)
    requires
        forall|j: int| 0 <= j < s.len() ==> (#[trigger] s[j]).tag != t,
    ensures
        lookup(s, t) is None,
    decreases s.len(),
{
    if s.len() > 0 {
        assert(forall|j: int| 0 <= j < s.drop_first().len() ==> s.drop_first()[j] == s[j + 1]);
        lemma_lookup_absent(s.drop_first(), t);
    }
}

/// Dropping the first entry keeps the keys distinct.
proof fn lemma_distinct_drop_first(s: Seq<TagEntryV>)
    requires
        s.len() > 0,
        distinct_tags(s),
    ensures
        distinct_tags(s.drop_first()),
{
    assert(forall|p: int, q: int|
        0 <= p < q < s.drop_first().len() ==> s.drop_first()[p] == s[p + 1] && s.drop_first()[q]
            == s[q + 1]);
}

/// How `merge_tags` changes each lookup: every tag ends with the pairwise sum
/// of what the two sides gave it.
pub proof fn lemma_merge_tags_lookup(a: Seq<TagEntryV>, b: Seq<TagEntryV>, t: Seq<char>)
    requires
        distinct_tags(b),
    ensures
        lookup(merge_tags(a, b), t) == combined(lookup(a, t), lookup(b, t)),
    decreases b.len(),
{
    if b.len() > 0 {
        let a2 = bump(a, b[0].tag, b[0].records, b[0].words);
        lemma_bump_lookup(a, b[0].tag, b[0].records, b[0].words, t);
        lemma_distinct_drop_first(b);
        lemma_merge_tags_lookup(a2, b.drop_first(), t);
        if t == b[0].tag {
            assert(forall|j: int|
                0 <= j < b.drop_first().len() ==> (#[trigger] b.drop_first()[j]).tag != t) by {
                assert(forall|j: int|
                    0 <= j < b.drop_first().len() ==> b.drop_first()[j] == b[j + 1]);
            }
            lemma_lookup_absent(b.drop_first(), t);
        }
    }
}

/// Merging keeps the left side's keys distinct.
pub proof fn lemma_merge_tags_distinct(a: Seq<TagEntryV>, b: Seq<TagEntryV>)
    requires
        distinct_tags(a),
    ensures
        distinct_tags(merge_tags(a, b)),
    decreases b.len(),
{
    if b.len() > 0 {
        lemma_bump_distinct(a, b[0].tag, b[0].records, b[0].words);
        lemma_merge_tags_distinct(bump(a, b[0].tag, b[0].records, b[0].words), b.drop_first());
    }
}

/// Merging never shrinks a counter: monotonicity of the pairwise sum.
pub proof fn lemma_combined_ge(x: Option<(nat, nat)>, y: Option<(nat, nat)>)
    ensures
        x is Some ==> combined(x, y) is Some && (combined(x, y)->0).0 >= (x->0).0 && (combined(
            x,
            y,
        )->0).1 >= (x->0).1,
{
}

/// A tag that `lookup` finds names an actual entry of the list.
pub proof fn lemma_lookup_index(s: Seq<TagEntryV>, t: Seq<char>)
    requires
        lookup(s, t) is Some,
    ensures
        exists|i: int|
            0 <= i < s.len() && (#[trigger] s[i]).tag == t && s[i].records == (lookup(s, t)->0).0
                && s[i].words == (lookup(s, t)->0).1,
    decreases s.len(),
{
    if s.len() > 0 {
        if s[0].tag == t {
            assert(s[0].tag == t && s[0].records == (lookup(s, t)->0).0 && s[0].words == (lookup(
                s,
                t,
            )->0).1);
        } else {
            lemma_lookup_index(s.drop_first(), t);
            let i = choose|i: int|
                0 <= i < s.drop_first().len() && (#[trigger] s.drop_first()[i]).tag == t
                    && s.drop_first()[i].records == (lookup(s.drop_first(), t)->0).0
                    && s.drop_first()[i].words == (lookup(s.drop_first(), t)->0).1;
            assert(s[i + 1] == s.drop_first()[i]);
        }
    }
}

/// Merging is associative under `lookup`: the reduction may be grouped
/// freely.
pub proof fn lemma_merge_tags_assoc(
    a: Seq<TagEntryV>,
    b: Seq<TagEntryV>,
    c: Seq<TagEntryV>,
    t: Seq<char>,
)
    requires
        distinct_tags(b),
        distinct_tags(c),
    ensures
        lookup(merge_tags(merge_tags(a, b), c), t) == lookup(merge_tags(a, merge_tags(b, c)), t),
{
    lemma_merge_tags_lookup(merge_tags(a, b), c, t);
    lemma_merge_tags_lookup(a, b, t);
    lemma_merge_tags_distinct(b, c);
    lemma_merge_tags_lookup(a, merge_tags(b, c), t);
    lemma_merge_tags_lookup(b, c, t);
}

/// Merging is commutative under `lookup`: the reduction may be reordered
/// freely.
pub proof fn lemma_merge_tags_comm(a: Seq<TagEntryV>, b: Seq<TagEntryV>, t: Seq<char>)
    requires
        distinct_tags(a),
        distinct_tags(b),
    ensures
        lookup(merge_tags(a, b), t) == lookup(merge_tags(b, a), t),
{
    lemma_merge_tags_lookup(a, b, t);
    lemma_merge_tags_lookup(b, a, t);
}

/// A tag-to-counters mapping with distinct keys, in first-insertion order.
pub struct TagCounts {
    pub entries: Vec<TagEntry>,
}

/// The views of a sequence of entries.
pub open spec fn entry_views(s: Seq<TagEntry>) -> Seq<TagEntryV> {
    s.map_values(|e: TagEntry| e@)
}

impl View for TagCounts {
    type V = Seq<TagEntryV>;

    open spec fn view(&self) -> Seq<TagEntryV> {
        entry_views(self.entries@)
    }
}

impl TagCounts {
    /// The keys are pairwise distinct.
    pub open spec fn wf(&self) -> bool {
        distinct_tags(self@)
    }

    /// An empty mapping.
    pub fn new() -> (r: TagCounts)
        ensures
            r@ =~= Seq::<TagEntryV>::empty(),
            r.wf(),
    {
        TagCounts { entries: Vec::new() }
    }

    /// The number of distinct tags held.
    pub fn len(&self) -> (r: usize)
        ensures
            r == self@.len(),
    {
        self.entries.len()
    }

    /// The entry at position `i`, as (tag, record count, word count).
    pub fn entry_at(&self, i: usize) -> (r: (String, usize, usize))
        requires
            i < self@.len(),
        ensures
            r.0@ == self@[i as int].tag,
            r.1 == self@[i as int].records,
            r.2 == self@[i as int].words,
    {
        let e = &self.entries[i];
        (e.tag.clone(), e.records, e.words)
    }

    /// The counters of `tag`: the first entry carrying it, if any.
    pub fn get(&self, tag: &String) -> (r: Option<(usize, usize)>)
        ensures
            match r {
                Some(c) => lookup(self@, tag@) == Some((c.0 as nat, c.1 as nat)),
                None => lookup(self@, tag@) is None,
            },
    {
        proof {
            assert(self@.skip(0) =~= self@);
        }
        let mut i: usize = 0;
        while i < self.entries.len()
            invariant
                i <= self@.len(),
                lookup(self@, tag@) == lookup(self@.skip(i as int), tag@),
            decreases self@.len() - i,
        {
            proof {
                assert(self@.skip(i as int)[0] == self@[i as int]);
                assert(self@.skip(i as int).drop_first() =~= self@.skip(i + 1));
            }
            if self.entries[i].tag == *tag {
                return Some((self.entries[i].records, self.entries[i].words));
            }
            i = i + 1;
        }
        proof {
            assert(self@.skip(i as int) =~= Seq::<TagEntryV>::empty());
        }
        None
    }

    /// Add `dr` records and `dw` words to `tag`'s counters, appending the tag
    /// if new. Fails, leaving the mapping unchanged, exactly when a counter
    /// would no longer fit in `usize`.
    pub fn add_counts(&mut self, tag: &String, dr: usize, dw: usize) -> (ok: bool)
        ensures
            ok <==> match lookup(old(self)@, tag@) {
                Some(c) => c.0 + dr <= usize::MAX && c.1 + dw <= usize::MAX,
                None => true,
            },
            ok ==> final(self)@ =~= bump(old(self)@, tag@, dr as nat, dw as nat),
            !ok ==> final(self)@ == old(self)@,
            old(self).wf() ==> final(self).wf(),
    {
        let ghost orig = self@;
        proof {
            assert(orig.skip(0) =~= orig);
        }
        let mut i: usize = 0;
        while i < self.entries.len()
            invariant
                i <= self@.len(),
                self@ == orig,
                orig == old(self)@,
                lookup(orig, tag@) == lookup(orig.skip(i as int), tag@),
                forall|j: int| 0 <= j < i ==> (#[trigger] orig[j]).tag != tag@,
            decreases self@.len() - i,
        {
            proof {
                assert(orig.skip(i as int)[0] == orig[i as int]);
                assert(orig.skip(i as int).drop_first() =~= orig.skip(i + 1));
            }
            if self.entries[i].tag == *tag {
                let r0 = self.entries[i].records;
                let w0 = self.entries[i].words;
                assert(lookup(orig, tag@) == Some((r0 as nat, w0 as nat)));
                match (r0.checked_add(dr), w0.checked_add(dw)) {
                    (Some(r1), Some(w1)) => {
                        self.entries[i] = TagEntry { tag: tag.clone(), records: r1, words: w1 };
                        proof {
                            lemma_bump_update(orig, tag@, dr as nat, dw as nat, i as int);
                            assert(entry_views(self.entries@) =~= orig.update(
                                i as int,
                                TagEntryV {
                                    tag: tag@,
                                    records: (r0 + dr) as nat,
                                    words: (w0 + dw) as nat,
                                },
                            ));
                            if old(self).wf() {
                                lemma_bump_distinct(orig, tag@, dr as nat, dw as nat);
                            }
                        }
                        return true;
                    },
                    _ => {
                        return false;
                    },
                }
            }
            i = i + 1;
        }
        proof {
            assert(orig.skip(i as int) =~= Seq::<TagEntryV>::empty());
        }
        self.entries.push(TagEntry { tag: tag.clone(), records: dr, words: dw });
        proof {
            lemma_bump_append(orig, tag@, dr as nat, dw as nat);
            assert(entry_views(self.entries@) =~= orig.push(
                TagEntryV { tag: tag@, records: dr as nat, words: dw as nat },
            ));
            if old(self).wf() {
                lemma_bump_distinct(orig, tag@, dr as nat, dw as nat);
            }
        }
        true
    }

    /// Merge another mapping into this one by per-key pairwise sum. Fails
    /// exactly when some merged counter would not fit in `usize`; the mapping
    /// is then left in a partially merged state whose counters never exceed
    /// the full merge's.
    pub fn merge_add(&mut self, other: &TagCounts) -> (ok: bool)
        requires
            other.wf(),
        ensures
            ok <==> tags_fit(merge_tags(old(self)@, other@)),
            ok ==> final(self)@ =~= merge_tags(old(self)@, other@),
            old(self).wf() ==> final(self).wf(),
    {
        let ghost a = old(self)@;
        let ghost b = other@;
        proof {
            assert(b.take(0) =~= Seq::<TagEntryV>::empty());
        }
        let mut i: usize = 0;
        while i < other.entries.len()
            invariant
                i <= b.len(),
                b == other@,
                other.wf(),
                a == old(self)@,
                self@ == merge_tags(a, b.take(i as int)),
                old(self).wf() ==> self.wf(),
            decreases b.len() - i,
        {
            let e = &other.entries[i];
            let ghost pre = self@;
            proof {
                assert(b[i as int] == e@);
                lemma_merge_tags_snoc(a, b, i as int);
            }
            let ok = self.add_counts(&e.tag, e.records, e.words);
            if !ok {
                proof {
                    lemma_merge_overflow(a, b, i as int);
                }
                return false;
            }
            i = i + 1;
        }
        proof {
            assert(b.take(b.len() as int) =~= b);
            assert(tags_fit(merge_tags(a, b))) by {
                assert(forall|k: int|
                    0 <= k < self@.len() ==> (#[trigger] self@[k]).records <= usize::MAX
                        && self@[k].words <= usize::MAX);
            }
        }
        true
    }
}

/// Bumping a present tag updates its first entry in place.
proof fn lemma_bump_update(s: Seq<TagEntryV>, tag: Seq<char>, dr: nat, dw: nat, i: int)
    requires
        0 <= i < s.len(),
        s[i].tag == tag,
        forall|j: int| 0 <= j < i ==> (#[trigger] s[j]).tag != tag,
    ensures
        bump(s, tag, dr, dw) =~= s.update(
            i,
            TagEntryV { tag, records: (s[i].records + dr) as nat, words: (s[i].words + dw) as nat },
        ),
    decreases s.len(),
{
    if i == 0 {
        assert(bump(s, tag, dr, dw) =~= seq![
            TagEntryV { tag, records: (s[0].records + dr) as nat, words: (s[0].words + dw) as nat },
        ] + s.drop_first());
    } else {
        assert(forall|j: int|
            0 <= j < i - 1 ==> (#[trigger] s.drop_first()[j]).tag == s[j + 1].tag);
        lemma_bump_update(s.drop_first(), tag, dr, dw, i - 1);
    }
}

/// Bumping an absent tag appends a fresh entry.
proof fn lemma_bump_append(s: Seq<TagEntryV>, tag: Seq<char>, dr: nat, dw: nat)
    requires
        forall|j: int| 0 <= j < s.len() ==> (#[trigger] s[j]).tag != tag,
    ensures
        bump(s, tag, dr, dw) =~= s.push(TagEntryV { tag, records: dr, words: dw }),
    decreases s.len(),
{
    if s.len() > 0 {
        assert(forall|j: int| 0 <= j < s.len() - 1 ==> (#[trigger] s.drop_first()[j]) == s[j + 1]);
        lemma_bump_append(s.drop_first(), tag, dr, dw);
    }
}

/// One more merged entry is one more bump.
proof fn lemma_merge_tags_snoc(a: Seq<TagEntryV>, b: Seq<TagEntryV>, i: int)
    requires
        0 <= i < b.len(),
    ensures
        merge_tags(a, b.take(i + 1)) == bump(
            merge_tags(a, b.take(i)),
            b[i].tag,
            b[i].records,
            b[i].words,
        ),
{
    lemma_merge_tags_split(a, b.take(i), seq![b[i]]);
    assert(b.take(i).push(b[i]) =~= b.take(i + 1));
    assert(b.take(i) + seq![b[i]] =~= b.take(i + 1));
    let one = seq![b[i]];
    assert(one.drop_first() =~= Seq::<TagEntryV>::empty());
    assert(merge_tags(bump(merge_tags(a, b.take(i)), one[0].tag, one[0].records, one[0].words),
        one.drop_first()) == bump(merge_tags(a, b.take(i)), b[i].tag, b[i].records, b[i].words));
}

/// Merging a concatenation merges the parts in turn.
proof fn lemma_merge_tags_split(a: Seq<TagEntryV>, b1: Seq<TagEntryV>, b2: Seq<TagEntryV>)
    ensures
        merge_tags(a, b1 + b2) == merge_tags(merge_tags(a, b1), b2),
    decreases b1.len(),
{
    if b1.len() == 0 {
        assert(b1 + b2 =~= b2);
    } else {
        let a2 = bump(a, b1[0].tag, b1[0].records, b1[0].words);
        assert((b1 + b2).drop_first() =~= b1.drop_first() + b2);
        assert((b1 + b2)[0] == b1[0]);
        lemma_merge_tags_split(a2, b1.drop_first(), b2);
    }
}

/// When one step of the merge overflows, the full merge does not fit.
proof fn lemma_merge_overflow(a: Seq<TagEntryV>, b: Seq<TagEntryV>, i: int)
    requires
        0 <= i < b.len(),
        distinct_tags(b),
        !(match lookup(merge_tags(a, b.take(i)), b[i].tag) {
            Some(c) => c.0 + b[i].records <= usize::MAX && c.1 + b[i].words <= usize::MAX,
            None => true,
        }),
    ensures
        !tags_fit(merge_tags(a, b)),
{
    let t = b[i].tag;
    assert(distinct_tags(b.take(i))) by {
        assert(forall|p: int, q: int|
            0 <= p < q < i ==> b.take(i)[p] == b[p] && b.take(i)[q] == b[q]);
    }
    lemma_merge_tags_lookup(a, b.take(i), t);
    lemma_merge_tags_lookup(a, b, t);
    assert(forall|j: int| 0 <= j < i ==> (#[trigger] b.take(i)[j]).tag == b[j].tag);
    lemma_lookup_absent_prefix(b, t, i);
    lemma_lookup_at(b, t, i);
    lemma_combined_ge(lookup(a, t), lookup(b, t));
    let m = merge_tags(a, b);
    assert(lookup(m, t) is Some);
    let c = lookup(m, t)->0;
    assert(c.0 > usize::MAX || c.1 > usize::MAX);
    lemma_lookup_index(m, t);
}

/// A tag first reached at position `i` is absent from the prefix before `i`.
proof fn lemma_lookup_absent_prefix(b: Seq<TagEntryV>, t: Seq<char>, i: int)
    requires
        0 <= i <= b.len(),
        forall|j: int| 0 <= j < i ==> (#[trigger] b[j]).tag != t,
    ensures
        lookup(b.take(i), t) is None,
    decreases i,
{
    if i > 0 {
        assert(b.take(i)[0] == b[0]);
        assert(b.take(i).drop_first() =~= b.drop_first().take(i - 1));
        assert(forall|j: int| 0 <= j < i - 1 ==> (#[trigger] b.drop_first()[j]) == b[j + 1]);
        lemma_lookup_absent_prefix(b.drop_first(), t, i - 1);
    }
}

/// With distinct keys, the lookup of the tag at position `i` is entry `i`.
pub proof fn lemma_lookup_at(b: Seq<TagEntryV>, t: Seq<char>, i: int)
    requires
        0 <= i < b.len(),
        distinct_tags(b),
        b[i].tag == t,
    ensures
        lookup(b, t) == Some((b[i].records, b[i].words)),
    decreases i,
{
    if i == 0 {
    } else {
        assert(b[0].tag != t);
        assert(distinct_tags(b.drop_first())) by {
            assert(forall|p: int, q: int|
                0 <= p < q < b.drop_first().len() ==> b.drop_first()[p] == b[p + 1]
                    && b.drop_first()[q] == b[q + 1]);
        }
        assert(b.drop_first()[i - 1] == b[i]);
        lemma_lookup_at(b.drop_first(), t, i - 1);
    }
}

} // verus!
