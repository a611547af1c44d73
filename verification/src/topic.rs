//! MQTT topic filters: `+` stands for one segment, `#` for any number of
//! segments from there on.
use crate::text;
use vstd::prelude::*;

verus! {

/// The segments of a topic or a filter.
pub open spec fn segments(s: Seq<char>) -> Seq<Seq<char>> {
    text::split(s, '/')
}

/// Whether a filter segment is the wildcard for the rest of the topic.
pub open spec fn is_multi(seg: Seq<char>) -> bool {
    seg == seq!['#']
}

/// Whether a filter segment other than `#` accepts a topic segment.
pub open spec fn segment_fits(f: Seq<char>, t: Seq<char>) -> bool {
    f == seq!['+'] || f == t
}

/// The index of the first `#` segment, or the number of segments.
pub open spec fn first_multi(f: Seq<Seq<char>>) -> nat
    decreases f.len(),
{
    if f.len() == 0 || is_multi(f[0]) {
        0
    } else {
        1 + first_multi(f.drop_first())
    }
}

/// Whether the segments of a filter accept the segments of a topic: those
/// before the first `#` fit one by one, and without a `#` nothing is left over.
pub open spec fn segments_match(t: Seq<Seq<char>>, f: Seq<Seq<char>>) -> bool {
    let k = first_multi(f);
    &&& if k < f.len() {
        k <= t.len()
    } else {
        t.len() == f.len()
    }
    &&& forall|i: int| 0 <= i < k ==> segment_fits(#[trigger] f[i], t[i])
}

/// Whether `filter` accepts `topic`.
pub open spec fn matches_topic(topic: Seq<char>, filter: Seq<char>) -> bool {
    segments_match(segments(topic), segments(filter))
}

/// Whether a filter holds a wildcard character.
pub open spec fn wild(filter: Seq<char>) -> bool {
    filter.contains('+') || filter.contains('#')
}

/// `first_multi` is the first `#`, or the number of segments.
pub proof fn lemma_first_multi(f: Seq<Seq<char>>)
    ensures
        first_multi(f) <= f.len(),
        first_multi(f) < f.len() ==> is_multi(f[first_multi(f) as int]),
        forall|j: int| 0 <= j < first_multi(f) ==> !is_multi(#[trigger] f[j]),
    decreases f.len(),
{
    if f.len() != 0 && !is_multi(f[0]) {
        let g = f.drop_first();
        lemma_first_multi(g);
        assert forall|j: int| 0 <= j < first_multi(f) implies !is_multi(#[trigger] f[j]) by {
            if j > 0 {
                assert(f[j] == g[j - 1]);
            }
        }
    }
}

pub proof fn lemma_first_multi_is(f: Seq<Seq<char>>, k: int)
    requires
        0 <= k <= f.len(),
        k < f.len() ==> is_multi(f[k]),
        forall|j: int| 0 <= j < k ==> !is_multi(#[trigger] f[j]),
    ensures
        first_multi(f) == k,
{
    lemma_first_multi(f);
    if first_multi(f) < k {
        assert(is_multi(f[first_multi(f) as int]));
    }
}

fn is_one_char(seg: &Vec<char>, c: char) -> (r: bool)
    ensures
        r == (seg@ == seq![c]),
{
    let r = seg.len() == 1 && seg[0] == c;
    proof {
        if r {
            assert(seg@ =~= seq![c]);
        }
    }
    r
}

/// Whether `filter` accepts `topic`.
pub fn topic_matches(topic: &str, filter: &str) -> (r: bool)
    ensures
        r == matches_topic(topic@, filter@),
{
    let t = text::split_chars(text::chars_of(topic).as_slice(), '/');
    let f = text::split_chars(text::chars_of(filter).as_slice(), '/');
    let ghost ts = segments(topic@);
    let ghost fs = segments(filter@);
    assert(text::contents(t@) == ts && text::contents(f@) == fs);
    let mut i: usize = 0;
    while i < f.len() && i < t.len()
        invariant
            i <= f.len(),
            i <= t.len(),
            text::contents(t@) == ts,
            text::contents(f@) == fs,
            ts == segments(topic@),
            fs == segments(filter@),
            forall|j: int| 0 <= j < i ==> !is_multi(#[trigger] fs[j]),
            forall|j: int| 0 <= j < i ==> segment_fits(#[trigger] fs[j], ts[j]),
        decreases f.len() - i,
    {
        assert(f@[i as int]@ == fs[i as int]);
        assert(t@[i as int]@ == ts[i as int]);
        if is_one_char(&f[i], '#') {
            proof {
                lemma_first_multi_is(fs, i as int);
            }
            return true;
        }
        if !is_one_char(&f[i], '+') && !text::chars_eq(f[i].as_slice(), t[i].as_slice()) {
            proof {
                lemma_first_multi(fs);
                assert(!segment_fits(fs[i as int], ts[i as int]));
                if first_multi(fs) <= i {
                    assert(first_multi(fs) == i);
                }
            }
            return false;
        }
        i += 1;
    }
    proof {
        lemma_first_multi(fs);
    }
    if i < f.len() {
        assert(f@[i as int]@ == fs[i as int]);
        let r = is_one_char(&f[i], '#');
        proof {
            if r {
                lemma_first_multi_is(fs, i as int);
            }
        }
        r
    } else {
        proof {
            lemma_first_multi_is(fs, i as int);
        }
        i == t.len()
    }
}

/// Whether `filter` holds a wildcard character.
pub fn has_wildcard(filter: &str) -> (r: bool)
    ensures
        r == wild(filter@),
{
    let f = text::chars_of(filter);
    let mut i: usize = 0;
    while i < f.len()
        invariant
            i <= f.len(),
            f@ == filter@,
            forall|j: int| 0 <= j < i ==> f@[j] != '+' && f@[j] != '#',
        decreases f.len() - i,
    {
        if f[i] == '+' || f[i] == '#' {
            assert(filter@.contains(f@[i as int]));
            return true;
        }
        i += 1;
    }
    false
}

/// The segments of two texts with a slash between them are the segments of the
/// one followed by the segments of the other.
pub proof fn lemma_segments_concat(a: Seq<char>, b: Seq<char>)
    ensures
        segments(a + seq!['/'] + b) == segments(a) + segments(b),
{
    text::law_split(a, b, '/');
}

/// No segment of a text without wildcard characters is a wildcard.
pub proof fn lemma_plain_segments(s: Seq<char>)
    requires
        !wild(s),
    ensures
        forall|i: int|
            0 <= i < segments(s).len() ==> (#[trigger] segments(s)[i]) != seq!['+']
                && !is_multi(segments(s)[i]),
    decreases s.len(),
{
    text::lemma_find(s, '/');
    let i = text::find(s, '/') as int;
    let head = if i < s.len() {
        s.take(i)
    } else {
        s
    };
    assert forall|c: char| c == '+' || c == '#' implies head != seq![c] by {
        if head == seq![c] {
            assert(head.len() == 1 && head[0] == c);
            assert(s[0] == c);
            assert(s.contains(c));
        }
    }
    assert(head != seq!['+'] && head != seq!['#']);
    if i < s.len() {
        let tail = s.skip(i + 1);
        assert forall|c: char| !s.contains(c) implies !tail.contains(c) by {
            if tail.contains(c) {
                let k = choose|k: int| 0 <= k < tail.len() && tail[k] == c;
                assert(s[k + i + 1] == c);
            }
        }
        lemma_plain_segments(tail);
        assert forall|k: int| 0 <= k < segments(s).len() implies (#[trigger] segments(s)[k])
            != seq!['+'] && !is_multi(segments(s)[k]) by {
            if k > 0 {
                assert(segments(s)[k] == segments(tail)[k - 1]);
            }
        }
    }
}

/// A filter without wildcard characters accepts exactly the topic that is the
/// same text.
pub proof fn law_plain_filter_is_equality(topic: Seq<char>, filter: Seq<char>)
    requires
        !wild(filter),
    ensures
        matches_topic(topic, filter) <==> topic == filter,
{
    let f = segments(filter);
    let t = segments(topic);
    lemma_plain_segments(filter);
    lemma_first_multi_is(f, f.len() as int);
    if matches_topic(topic, filter) {
        assert forall|i: int| 0 <= i < f.len() implies f[i] == t[i] by {
            assert(segment_fits(f[i], t[i]));
        }
        assert(f =~= t);
        text::lemma_join_split(topic, '/');
        text::lemma_join_split(filter, '/');
    }
}

/// The filter `#` accepts every topic.
pub proof fn law_multi_accepts_all(topic: Seq<char>)
    ensures
        matches_topic(topic, seq!['#']),
{
    text::lemma_split_single(seq!['#'], '/');
    lemma_first_multi_is(segments(seq!['#']), 0);
}

/// The filter `+` accepts exactly the topics of one segment.
pub proof fn law_single_accepts_one_segment(topic: Seq<char>)
    ensures
        matches_topic(topic, seq!['+']) <==> !topic.contains('/'),
{
    let f = segments(seq!['+']);
    text::lemma_split_single(seq!['+'], '/');
    assert(f[0] == seq!['+']);
    assert(f[0][0] == '+');
    assert(seq!['#'][0] == '#');
    lemma_first_multi_is(f, 1);
    text::lemma_find(topic, '/');
    text::lemma_split_nonempty(topic.skip(text::find(topic, '/') as int + 1), '/');
}

/// The text of a filter that accepts a prefix and everything below it.
pub open spec fn below(prefix: Seq<char>) -> Seq<char> {
    prefix + seq!['/', '#']
}

/// The text of the filter for the topics whose second segment is `userid`.
pub open spec fn own_topics(userid: Seq<char>) -> Seq<char> {
    seq!['+', '/'] + userid + seq!['/', '#']
}

/// A filter made of a prefix and `/#` accepts exactly the prefix itself and the
/// topics that continue it with a slash.
pub proof fn law_below_accepts_prefix_and_rest(topic: Seq<char>, prefix: Seq<char>)
    requires
        !wild(prefix),
    ensures
        matches_topic(topic, below(prefix)) <==> topic == prefix || text::begins_with(
            topic,
            prefix.push('/'),
        ),
{
    let p = segments(prefix);
    let t = segments(topic);
    let f = segments(below(prefix));
    assert(below(prefix) =~= prefix + seq!['/'] + seq!['#']);
    lemma_segments_concat(prefix, seq!['#']);
    text::lemma_split_single(seq!['#'], '/');
    assert(f =~= p.push(seq!['#']));
    lemma_plain_segments(prefix);
    assert forall|j: int| 0 <= j < p.len() implies !is_multi(#[trigger] f[j]) by {
        assert(f[j] == p[j]);
    }
    lemma_first_multi_is(f, p.len() as int);
    if matches_topic(topic, below(prefix)) {
        assert forall|i: int| 0 <= i < p.len() implies p[i] == t[i] by {
            assert(segment_fits(f[i], t[i]));
            assert(f[i] == p[i]);
        }
        assert(t.take(p.len() as int) =~= p);
        text::lemma_split_nonempty(prefix, '/');
        lemma_join_prefix(t, p.len() as int, '/');
        text::lemma_join_split(topic, '/');
        text::lemma_join_split(prefix, '/');
        if t.len() == p.len() {
            assert(t =~= p);
        } else {
            let rest = text::join(t.skip(p.len() as int), '/');
            assert(topic == prefix + seq!['/'] + rest);
            assert(topic.take(prefix.len() as int + 1) =~= prefix.push('/'));
        }
    }
    if topic == prefix {
        assert forall|i: int| 0 <= i < p.len() implies segment_fits(#[trigger] f[i], t[i]) by {
            assert(f[i] == p[i]);
        }
    }
    if text::begins_with(topic, prefix.push('/')) {
        let rest = topic.skip(prefix.len() as int + 1);
        assert(topic =~= topic.take(prefix.len() as int + 1) + rest);
        assert(topic =~= prefix + seq!['/'] + rest);
        lemma_segments_concat(prefix, rest);
        assert forall|i: int| 0 <= i < p.len() implies segment_fits(#[trigger] f[i], t[i]) by {
            assert(f[i] == p[i]);
            assert(t[i] == p[i]);
        }
    }
}

/// Joining pieces is joining the first `k`, a separator and joining the others.
pub proof fn lemma_join_prefix(t: Seq<Seq<char>>, k: int, sep: char)
    requires
        0 < k <= t.len(),
    ensures
        k < t.len() ==> text::join(t, sep) == text::join(t.take(k), sep) + seq![sep] + text::join(
            t.skip(k),
            sep,
        ),
    decreases k,
{
    if k < t.len() {
        if k == 1 {
            assert(t.take(1) =~= seq![t[0]]);
            assert(t.skip(1) =~= t.drop_first());
        } else {
            let u = t.drop_first();
            lemma_join_prefix(u, k - 1, sep);
            assert(u.take(k - 1) =~= t.take(k).drop_first());
            assert(u.skip(k - 1) =~= t.skip(k));
            assert(text::join(t, sep) =~= text::join(t.take(k), sep) + seq![sep] + text::join(
                t.skip(k),
                sep,
            ));
        }
    }
}

/// The filter for a user's own topics accepts exactly the topics whose second
/// segment is the user id.
pub proof fn law_own_topics_accept_second_segment(topic: Seq<char>, userid: Seq<char>)
    requires
        !wild(userid),
        !userid.contains('/'),
    ensures
        matches_topic(topic, own_topics(userid)) <==> segments(topic).len() >= 2 && segments(
            topic,
        )[1] == userid,
{
    let f = segments(own_topics(userid));
    let t = segments(topic);
    assert(own_topics(userid) =~= seq!['+'] + seq!['/'] + (userid + seq!['/'] + seq!['#']));
    lemma_segments_concat(seq!['+'], userid + seq!['/'] + seq!['#']);
    lemma_segments_concat(userid, seq!['#']);
    text::lemma_split_single(seq!['+'], '/');
    text::lemma_split_single(userid, '/');
    text::lemma_split_single(seq!['#'], '/');
    assert(f =~= seq![seq!['+'], userid, seq!['#']]);
    assert(f[0][0] == '+');
    assert(seq!['#'][0] == '#');
    assert(seq!['+'][0] == '+');
    lemma_plain_segments(userid);
    assert(segments(userid)[0] == userid);
    lemma_first_multi_is(f, 2);
    assert(segment_fits(f[0], t[0]));
    if matches_topic(topic, own_topics(userid)) {
        assert(segment_fits(f[1], t[1]));
    }
}

/// The segments of a text without slashes are the text, and those of two texts
/// with a slash between them are those of the one and then those of the other.
pub proof fn law_segments(a: Seq<char>, b: Seq<char>)
    ensures
        !a.contains('/') ==> segments(a) == seq![a],
        segments(a + seq!['/'] + b) == segments(a) + segments(b),
{
    text::law_split(a, b, '/');
}

/// A filter accepts a topic if up to the first `#` segment, or to the end where
/// there is none, each segment of the filter is `+` or the topic's own; without a
/// `#` segment the topic has as many segments, with one at least those before it.
pub proof fn law_what_a_filter_accepts(topic: Seq<char>, filter: Seq<char>, k: int)
    requires
        0 <= k <= segments(filter).len(),
        k < segments(filter).len() ==> segments(filter)[k] == seq!['#'],
        forall|j: int| 0 <= j < k ==> #[trigger] segments(filter)[j] != seq!['#'],
    ensures
        matches_topic(topic, filter) <==> {
            &&& if k < segments(filter).len() {
                k <= segments(topic).len()
            } else {
                segments(topic).len() == segments(filter).len()
            }
            &&& forall|i: int|
                0 <= i < k ==> #[trigger] segments(filter)[i] == seq!['+'] || segments(filter)[i]
                    == segments(topic)[i]
        },
{
    lemma_first_multi_is(segments(filter), k);
}

/// A `+` stands for any one segment, wherever it is in a filter.
pub proof fn law_single_stands_for_any_segment(
    front: Seq<char>,
    x: Seq<char>,
    back: Seq<char>,
)
    requires
        !front.contains('#'),
        !x.contains('/'),
        !back.contains('#'),
    ensures
        matches_topic(
            front + seq!['/'] + (x + seq!['/'] + back),
            front + seq!['/'] + (seq!['+'] + seq!['/'] + back),
        ),
        matches_topic(front + seq!['/'] + x, front + seq!['/'] + seq!['+']),
        matches_topic(x + seq!['/'] + back, seq!['+'] + seq!['/'] + back),
{
    let plus = seq!['+'];
    assert(plus[0] == '+' && seq!['#'][0] == '#');
    law_segments(plus, back);
    law_segments(x, back);
    law_segments(front, plus + seq!['/'] + back);
    law_segments(front, x + seq!['/'] + back);
    law_segments(front, plus);
    law_segments(front, x);
    lemma_no_multi(front);
    lemma_no_multi(back);
    let n = segments(front).len() as int;
    let g = segments(front + seq!['/'] + (plus + seq!['/'] + back));
    let h = segments(front + seq!['/'] + plus);
    let e = segments(plus + seq!['/'] + back);
    assert forall|j: int| 0 <= j < g.len() implies #[trigger] g[j] != seq!['#'] by {
        if j < n {
            assert(g[j] == segments(front)[j]);
        } else if j > n {
            assert(g[j] == segments(back)[j - n - 1]);
        }
    }
    assert forall|j: int| 0 <= j < h.len() implies #[trigger] h[j] != seq!['#'] by {
        if j < n {
            assert(h[j] == segments(front)[j]);
        }
    }
    assert forall|j: int| 0 <= j < e.len() implies #[trigger] e[j] != seq!['#'] by {
        if j > 0 {
            assert(e[j] == segments(back)[j - 1]);
        }
    }
    lemma_first_multi_is(g, g.len() as int);
    lemma_first_multi_is(h, h.len() as int);
    lemma_first_multi_is(e, e.len() as int);
}

proof fn lemma_no_multi(s: Seq<char>)
    requires
        !s.contains('#'),
    ensures
        forall|i: int| 0 <= i < segments(s).len() ==> #[trigger] segments(s)[i] != seq!['#'],
    decreases s.len(),
{
    text::lemma_find(s, '/');
    let i = text::find(s, '/') as int;
    let head = if i < s.len() {
        s.take(i)
    } else {
        s
    };
    if head == seq!['#'] {
        assert(head.len() == 1 && head[0] == '#');
        assert(s[0] == head[0]);
        assert(s.contains(s[0]));
    }
    if i < s.len() {
        let tail = s.skip(i + 1);
        if tail.contains('#') {
            let k = choose|k: int| 0 <= k < tail.len() && tail[k] == '#';
            assert(s[k + i + 1] == '#');
        }
        lemma_no_multi(tail);
        assert forall|k: int| 0 <= k < segments(s).len() implies #[trigger] segments(s)[k]
            != seq!['#'] by {
            if k > 0 {
                assert(segments(s)[k] == segments(tail)[k - 1]);
            }
        }
    }
}

/// A wildcard is a `+` or a `#`, and a text has one if one of its parts has.
pub proof fn law_wild(c: char, a: Seq<char>, b: Seq<char>)
    ensures
        !wild(Seq::empty()),
        wild(seq![c]) <==> c == '+' || c == '#',
        wild(a + b) <==> wild(a) || wild(b),
{
    let one = seq![c];
    assert(one[0] == c);
    assert forall|d: char| (a + b).contains(d) <==> a.contains(d) || b.contains(d) by {
        if a.contains(d) {
            let k = choose|k: int| 0 <= k < a.len() && a[k] == d;
            assert((a + b)[k] == d);
        }
        if b.contains(d) {
            let k = choose|k: int| 0 <= k < b.len() && b[k] == d;
            assert((a + b)[k + a.len()] == d);
        }
        if (a + b).contains(d) {
            let k = choose|k: int| 0 <= k < (a + b).len() && (a + b)[k] == d;
            if k < a.len() {
                assert(a[k] == d);
            } else {
                assert(b[k - a.len()] == d);
            }
        }
    }
}

/// The filters for a prefix and for a user's own topics, as they are written.
pub proof fn law_filters_as_written(prefix: Seq<char>, userid: Seq<char>)
    ensures
        below(prefix) == prefix + "/#"@,
        own_topics(userid) == "+/"@ + userid + "/#"@,
{
    reveal_strlit("/#");
    reveal_strlit("+/");
    assert(below(prefix) =~= prefix + "/#"@);
    assert(own_topics(userid) =~= "+/"@ + userid + "/#"@);
}

} // verus!
