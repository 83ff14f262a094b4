use vstd::prelude::*;

verus! {

/// The pieces of `s` between `'/'` separators, read from the left: the
/// non-empty pieces already closed by a `'/'`, and the piece still open.
pub open spec fn split_state(s: Seq<char>) -> (Seq<Seq<char>>, Seq<char>)
    decreases s.len(),
{
    if s.len() == 0 {
        (Seq::empty(), Seq::empty())
    } else {
        let prev = split_state(s.drop_last());
        if s.last() == '/' {
            (if prev.1.len() > 0 { prev.0.push(prev.1) } else { prev.0 }, Seq::empty())
        } else {
            (prev.0, prev.1.push(s.last()))
        }
    }
}

/// The non-empty `'/'`-separated levels of a topic or pattern.
pub open spec fn levels(s: Seq<char>) -> Seq<Seq<char>> {
    let st = split_state(s);
    if st.1.len() > 0 { st.0.push(st.1) } else { st.0 }
}

/// One step of reading a topic from the left (see `split_state`).
spec fn split_step(st: (Seq<Seq<char>>, Seq<char>), c: char) -> (Seq<Seq<char>>, Seq<char>) {
    if c == '/' {
        (if st.1.len() > 0 { st.0.push(st.1) } else { st.0 }, Seq::empty())
    } else {
        (st.0, st.1.push(c))
    }
}

/// Reading `s` from the state `st`.
spec fn split_from(st: (Seq<Seq<char>>, Seq<char>), s: Seq<char>) -> (Seq<Seq<char>>, Seq<char>)
    decreases s.len(),
{
    if s.len() == 0 {
        st
    } else {
        split_step(split_from(st, s.drop_last()), s.last())
    }
}

proof fn lemma_split_from_start(s: Seq<char>)
    ensures
        split_state(s) == split_from((Seq::empty(), Seq::empty()), s),
    decreases s.len(),
{
    if s.len() > 0 {
        lemma_split_from_start(s.drop_last());
    }
}

proof fn lemma_split_from_concat(st: (Seq<Seq<char>>, Seq<char>), x: Seq<char>, y: Seq<char>)
    ensures
        split_from(st, x + y) == split_from(split_from(st, x), y),
    decreases y.len(),
{
    if y.len() == 0 {
        assert(x + y =~= x);
    } else {
        assert((x + y).drop_last() =~= x + y.drop_last());
        assert((x + y).last() == y.last());
        lemma_split_from_concat(st, x, y.drop_last());
    }
}

/// Levels already closed are carried along unchanged.
proof fn lemma_split_from_done(d: Seq<Seq<char>>, s: Seq<char>)
    ensures
        split_from((d, Seq::empty()), s) == (
            d + split_from((Seq::empty(), Seq::empty()), s).0,
            split_from((Seq::empty(), Seq::empty()), s).1,
        ),
    decreases s.len(),
{
    if s.len() == 0 {
        assert(d + Seq::<Seq<char>>::empty() =~= d);
    } else {
        lemma_split_from_done(d, s.drop_last());
        let inner = split_from((Seq::empty(), Seq::empty()), s.drop_last());
        if s.last() == '/' && inner.1.len() > 0 {
            assert((d + inner.0).push(inner.1) =~= d + inner.0.push(inner.1));
        }
    }
}

proof fn lemma_split_plain(s: Seq<char>)
    requires
        !s.contains('/'),
    ensures
        split_state(s) == (Seq::<Seq<char>>::empty(), s),
    decreases s.len(),
{
    if s.len() > 0 {
        assert(!s.drop_last().contains('/')) by {
            if s.drop_last().contains('/') {
                let k = choose|k: int| 0 <= k < s.drop_last().len() && s.drop_last()[k] == '/';
                assert(s[k] == '/');
            }
        }
        lemma_split_plain(s.drop_last());
        assert(s.last() != '/') by {
            assert(s[s.len() - 1] == s.last());
        }
        assert(s.drop_last().push(s.last()) =~= s);
    }
}

/// A text without `'/'` is one level, unless it is empty: every character
/// other than `'/'` (a `'.'` too) stays inside its level.
pub proof fn lemma_levels_of_plain_text(s: Seq<char>)
    requires
        !s.contains('/'),
    ensures
        s.len() > 0 ==> levels(s) == seq![s],
        s.len() == 0 ==> levels(s) == Seq::<Seq<char>>::empty(),
{
    lemma_split_plain(s);
    if s.len() > 0 {
        assert(Seq::<Seq<char>>::empty().push(s) =~= seq![s]);
    }
}

/// Levels are split at `'/'` and nowhere else: the levels of two texts
/// joined by a `'/'` are the levels of the first, then those of the second.
pub proof fn lemma_levels_split_at_slash(a: Seq<char>, b: Seq<char>)
    ensures
        levels(a + seq!['/'] + b) == levels(a) + levels(b),
{
    let e = (Seq::<Seq<char>>::empty(), Seq::<char>::empty());
    lemma_split_from_start(a);
    lemma_split_from_start(b);
    lemma_split_from_start(a + seq!['/'] + b);
    lemma_split_from_concat(e, a + seq!['/'], b);
    lemma_split_from_concat(e, a, seq!['/']);
    let sa = split_from(e, a);
    let slash = seq!['/'];
    assert(slash.drop_last() =~= Seq::<char>::empty());
    assert(slash.len() == 1 && slash.last() == '/');
    assert(split_from(sa, slash.drop_last()) == sa);
    assert(split_from(sa, slash) == split_step(sa, '/'));
    let after = split_step(sa, '/');
    assert(after.0 == levels(a));
    assert(after.1 == Seq::<char>::empty());
    lemma_split_from_done(levels(a), b);
    let sb = split_from(e, b);
    if sb.1.len() > 0 {
        assert((levels(a) + sb.0).push(sb.1) =~= levels(a) + sb.0.push(sb.1));
    }
}

/// Splits `s` into its non-empty levels.
fn split_levels(s: &str) -> (res: Vec<Vec<char>>)
    ensures
        res@.len() == levels(s@).len(),
        forall|i: int| 0 <= i < res@.len() ==> #[trigger] res@[i]@ == levels(s@)[i],
{
    let mut done: Vec<Vec<char>> = Vec::new();
    let mut cur: Vec<char> = Vec::new();
    for c in it: s.chars()
        invariant
            it.seq() == s@,
            done@.len() == split_state(s@.take(it.index() as int)).0.len(),
            forall|i: int| 0 <= i < done@.len() ==> #[trigger] done@[i]@ == split_state(s@.take(it.index() as int)).0[i],
            cur@ == split_state(s@.take(it.index() as int)).1,
    {
        assert(s@.take(it.index() + 1).drop_last() == s@.take(it.index() as int));
        if c == '/' {
            if cur.len() > 0 {
                done.push(cur);
            }
            cur = Vec::new();
        } else {
            cur.push(c);
        }
    }
    assert(s@.take(s@.len() as int) == s@);
    if cur.len() > 0 {
        done.push(cur);
    }
    done
}


/// Whether a pattern's level list matches a topic's level list, level by
/// level: `"#"` matches whatever is left (also nothing), `"*"` matches
/// exactly one level, any other level matches itself.
pub open spec fn levels_match(p: Seq<Seq<char>>, t: Seq<Seq<char>>) -> bool
    decreases p.len(),
{
    if p.len() == 0 {
        t.len() == 0
    } else if p[0] == seq!['#'] {
        true
    } else if t.len() == 0 {
        false
    } else if p[0] == seq!['*'] || p[0] == t[0] {
        levels_match(p.drop_first(), t.drop_first())
    } else {
        false
    }
}

/// Whether `pattern` matches `topic`. The level counts must agree unless the
/// pattern holds a `"#"` level; then the levels are matched from the left.
pub open spec fn pattern_matches(pattern: Seq<char>, topic: Seq<char>) -> bool {
    let p = levels(pattern);
    let t = levels(topic);
    &&& (p.len() == t.len() || p.contains(seq!['#']))
    &&& levels_match(p, t)
}

/// A pattern level admits a topic level where it is `"*"` or the same
/// level.
pub open spec fn level_admits(p: Seq<char>, t: Seq<char>) -> bool {
    p == seq!['*'] || p == t
}

/// The index of the first `"#"` level, or the number of levels where there
/// is none.
pub open spec fn first_hash(p: Seq<Seq<char>>) -> int
    decreases p.len(),
{
    if p.len() == 0 {
        0
    } else if p[0] == seq!['#'] {
        0
    } else {
        1 + first_hash(p.drop_first())
    }
}

proof fn lemma_first_hash(p: Seq<Seq<char>>)
    ensures
        0 <= first_hash(p) <= p.len(),
        forall|i: int| 0 <= i < first_hash(p) ==> p[i] != seq!['#'],
        first_hash(p) < p.len() ==> p[first_hash(p)] == seq!['#'],
    decreases p.len(),
{
    if p.len() > 0 && p[0] != seq!['#'] {
        lemma_first_hash(p.drop_first());
        assert forall|i: int| 0 <= i < first_hash(p) implies p[i] != seq!['#'] by {
            if i > 0 {
                assert(p[i] == p.drop_first()[i - 1]);
            }
        }
    }
}

proof fn lemma_levels_match_rule(p: Seq<Seq<char>>, t: Seq<Seq<char>>)
    ensures
        levels_match(p, t) <==> (if first_hash(p) < p.len() {
            &&& t.len() >= first_hash(p)
            &&& forall|i: int| 0 <= i < first_hash(p) ==> level_admits(p[i], t[i])
        } else {
            &&& t.len() == p.len()
            &&& forall|i: int| 0 <= i < p.len() ==> level_admits(p[i], t[i])
        }),
    decreases p.len(),
{
    if p.len() == 0 || p[0] == seq!['#'] || t.len() == 0 {
        lemma_first_hash(p);
    } else {
        lemma_levels_match_rule(p.drop_first(), t.drop_first());
        lemma_first_hash(p);
        lemma_first_hash(p.drop_first());
        let h = first_hash(p);
        assert(h == 1 + first_hash(p.drop_first()));
        if levels_match(p, t) {
            assert forall|i: int| 0 <= i < (if h < p.len() { h } else { p.len() as int }) implies level_admits(p[i], t[i]) by {
                if i > 0 {
                    assert(p[i] == p.drop_first()[i - 1]);
                    assert(t[i] == t.drop_first()[i - 1]);
                }
            }
        } else {
            if h < p.len() {
                if t.len() >= h && forall|i: int| 0 <= i < h ==> level_admits(p[i], t[i]) {
                    assert(level_admits(p[0], t[0]));
                    assert forall|i: int| 0 <= i < h - 1 implies level_admits(p.drop_first()[i], t.drop_first()[i]) by {
                        assert(level_admits(p[i + 1], t[i + 1]));
                    }
                }
            } else {
                if t.len() == p.len() && forall|i: int| 0 <= i < p.len() ==> level_admits(p[i], t[i]) {
                    assert(level_admits(p[0], t[0]));
                    assert forall|i: int| 0 <= i < p.len() - 1 implies level_admits(p.drop_first()[i], t.drop_first()[i]) by {
                        assert(level_admits(p[i + 1], t[i + 1]));
                    }
                }
            }
        }
    }
}

/// The matching rule: levels before the first `"#"` are matched one to
/// one, each pattern level being `"*"` (any level) or the topic's level
/// itself; from the first `"#"` on, anything matches (also nothing). A
/// pattern without `"#"` needs exactly as many levels as the topic. Empty
/// levels (repeated, leading or trailing `'/'`) do not count.
pub proof fn lemma_matching_rule(pattern: Seq<char>, topic: Seq<char>)
    ensures
        pattern_matches(pattern, topic) <==> ({
            let p = levels(pattern);
            let t = levels(topic);
            let h = first_hash(p);
            if h < p.len() {
                &&& t.len() >= h
                &&& forall|i: int| 0 <= i < h ==> level_admits(p[i], t[i])
            } else {
                &&& t.len() == p.len()
                &&& forall|i: int| 0 <= i < p.len() ==> level_admits(p[i], t[i])
            }
        }),
{
    let p = levels(pattern);
    let t = levels(topic);
    lemma_levels_match_rule(p, t);
    lemma_first_hash(p);
    if first_hash(p) < p.len() {
        assert(p.contains(seq!['#']));
    }
}

/// Every topic matches itself as a pattern.
pub proof fn lemma_topic_matches_itself(topic: Seq<char>)
    ensures
        pattern_matches(topic, topic),
{
    let p = levels(topic);
    lemma_matching_rule(topic, topic);
    lemma_first_hash(p);
}

fn chars_eq(a: &Vec<char>, b: &Vec<char>) -> (res: bool)
    ensures
        res == (a@ == b@),
{
    if a.len() != b.len() {
        return false;
    }
    let mut i: usize = 0;
    while i < a.len()
        invariant
            a@.len() == b@.len(),
            i <= a@.len(),
            forall|k: int| 0 <= k < i ==> a@[k] == b@[k],
        decreases a@.len() - i,
    {
        if a[i] != b[i] {
            return false;
        }
        i = i + 1;
    }
    assert(a@ == b@);
    true
}

fn is_single(a: &Vec<char>, c: char) -> (res: bool)
    ensures
        res == (a@ == seq![c]),
{
    if a.len() == 1 && a[0] == c {
        assert(a@ == seq![c]);
        true
    } else {
        false
    }
}

/// A subscription pattern: a topic name whose levels may be the wildcards
/// `"*"` (any one level) and `"#"` (all remaining levels).
#[derive(Debug)]
pub struct TopicMatcher {
    pattern: String,
    segments: Vec<Vec<char>>,
}

impl View for TopicMatcher {
    type V = Seq<char>;

    /// The pattern text.
    closed spec fn view(&self) -> Seq<char> {
        self.pattern@
    }
}

impl PartialEq for TopicMatcher {
    /// Matchers are equal where their patterns are; their levels follow
    /// from the pattern.
    fn eq(&self, other: &Self) -> (res: bool) {
        self.pattern == other.pattern
    }
}

impl Eq for TopicMatcher {}

impl vstd::std_specs::cmp::PartialEqSpecImpl for TopicMatcher {
    open spec fn obeys_eq_spec() -> bool {
        true
    }

    open spec fn eq_spec(&self, other: &Self) -> bool {
        self@ == other@
    }
}

impl Clone for TopicMatcher {
    fn clone(&self) -> (res: Self)
        ensures
            res@ == self@,
    {
        TopicMatcher::new(self.pattern.as_str())
    }
}

impl TopicMatcher {
    /// The stored levels are those of the pattern text.
    #[verifier::type_invariant]
    closed spec fn wf(&self) -> bool {
        &&& self.segments@.len() == levels(self.pattern@).len()
        &&& forall|i: int|
            0 <= i < self.segments@.len() ==> #[trigger] self.segments@[i]@ == levels(
                self.pattern@,
            )[i]
    }

    /// Compiles `pattern` into a matcher.
    pub fn new(pattern: &str) -> (res: Self)
        ensures
            res@ == pattern@,
    {
        let segments = split_levels(pattern);
        TopicMatcher { pattern: pattern.to_string(), segments }
    }

    /// The pattern text.
    pub fn pattern(&self) -> (res: &str)
        ensures
            res@ == self@,
    {
        self.pattern.as_str()
    }

    /// Whether this matcher was compiled from the pattern `other`.
    pub fn has_pattern(&self, other: &String) -> (res: bool)
        ensures
            res == (self@ == other@),
    {
        self.pattern == *other
    }

    /// Whether `topic` matches this pattern.
    pub fn matches(&self, topic: &str) -> (res: bool)
        ensures
            res == pattern_matches(self@, topic@),
    {
        proof {
            use_type_invariant(self);
        }
        let ghost p = levels(self@);
        let ghost t = levels(topic@);
        let topic_segments = split_levels(topic);
        assert(self.segments@.map_values(|v: Vec<char>| v@) == p);
        assert(topic_segments@.map_values(|v: Vec<char>| v@) == t);
        let mut has_hash = false;
        let mut k: usize = 0;
        while k < self.segments.len()
            invariant
                self.wf(),
                p == levels(self@),
                k <= self.segments@.len(),
                has_hash == p.take(k as int).contains(seq!['#']),
            decreases self.segments@.len() - k,
        {
            assert(self.segments@[k as int]@ == p[k as int]);
            assert(p.take(k + 1) == p.take(k as int).push(p[k as int]));
            if is_single(&self.segments[k], '#') {
                has_hash = true;
                assert(p.take(k + 1)[k as int] == seq!['#']);
            } else {
                assert(p.take(k as int).contains(seq!['#']) ==> p.take(k + 1).contains(seq!['#'])) by {
                    if p.take(k as int).contains(seq!['#']) {
                        let w = choose|w: int| 0 <= w < k && p.take(k as int)[w] == seq!['#'];
                        assert(p.take(k + 1)[w] == seq!['#']);
                    }
                }
            }
            k = k + 1;
        }
        assert(p.take(p.len() as int) == p);
        if self.segments.len() != topic_segments.len() && !has_hash {
            return false;
        }
        let mut i: usize = 0;
        assert(p.skip(0) == p);
        assert(t.skip(0) == t);
        while i < self.segments.len()
            invariant
                self.wf(),
                p == levels(self@),
                t == levels(topic@),
                t.len() == topic_segments@.len(),
                forall|j: int| 0 <= j < t.len() ==> #[trigger] topic_segments@[j]@ == t[j],
                i <= self.segments@.len(),
                i <= t.len(),
                levels_match(p, t) == levels_match(p.skip(i as int), t.skip(i as int)),
            decreases self.segments@.len() - i,
        {
            let ghost ps = p.skip(i as int);
            let ghost ts = t.skip(i as int);
            assert(ps[0] == p[i as int]);
            assert(ps.drop_first() == p.skip(i + 1));
            assert(self.segments@[i as int]@ == p[i as int]);
            if is_single(&self.segments[i], '#') {
                assert(p.contains(seq!['#']));
                assert(ps.len() > 0);
                assert(levels_match(ps, ts));
                return true;
            }
            if i >= topic_segments.len() {
                assert(ts.len() == 0);
                assert(!levels_match(ps, ts));
                return false;
            }
            assert(ts[0] == t[i as int]);
            assert(topic_segments@[i as int]@ == t[i as int]);
            assert(ts.drop_first() == t.skip(i + 1));
            if is_single(&self.segments[i], '*') {
            } else if !chars_eq(&self.segments[i], &topic_segments[i]) {
                assert(!levels_match(ps, ts));
                return false;
            }
            i = i + 1;
        }
        assert(p.skip(i as int).len() == 0);
        i == topic_segments.len()
    }
}

} // verus!
