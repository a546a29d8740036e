//! The grammar catalogue: parsing the two-level markdown file of grammar
//! topics, and grouping topic titles by skill level.

use vstd::prelude::*;
use crate::text::{
    chars_of, extend_chars, has_prefix, is_ws, string_of, strip_start, strip_start_chars, sub_chars, trim,
    trim_chars, trim_end, trim_start,
};

verus! {

/// One grammar topic of the catalogue.
pub struct GrammarTopic {
    pub title: String,
    pub description: String,
    /// CEFR skill level this topic belongs to (e.g. "A1", "C1"); empty when
    /// the topic came before any level heading.
    pub skill_level: String,
}

/// The mathematical value of a [`GrammarTopic`].
pub struct TopicSpec {
    pub title: Seq<char>,
    pub description: Seq<char>,
    pub skill_level: Seq<char>,
}

impl View for GrammarTopic {
    type V = TopicSpec;

    open spec fn view(&self) -> TopicSpec {
        TopicSpec { title: self.title@, description: self.description@, skill_level: self.skill_level@ }
    }
}

/// The values of a list of topics.
pub open spec fn topics_view(v: Seq<GrammarTopic>) -> Seq<TopicSpec> {
    v.map_values(|t: GrammarTopic| t@)
}

/// The pieces of `s` between its `'\n'` characters (always at least one).
pub open spec fn lines_of(s: Seq<char>) -> Seq<Seq<char>>
    decreases s.len(),
{
    if s.len() == 0 {
        seq![Seq::<char>::empty()]
    } else {
        let ls = lines_of(s.drop_last());
        if s.last() == '\n' {
            ls.push(Seq::<char>::empty())
        } else {
            ls.update(ls.len() - 1, ls.last().push(s.last()))
        }
    }
}

/// The state while reading the catalogue: the topics so far, and the
/// current skill level.
pub type ParseState = (Seq<TopicSpec>, Seq<char>);

/// How one line of the catalogue changes the state:
/// a `##` heading adds a topic under the current level, a `#` heading sets
/// the current level, and any other non-blank line extends the description of
/// the last topic (joined by one space). Headings with nothing after the
/// marks, and text before the first topic, are ignored.
pub open spec fn grammar_step(st: ParseState, line: Seq<char>) -> ParseState {
    let topics = st.0;
    let level = st.1;
    let t = trim(line);
    if has_prefix(t, seq!['#', '#']) {
        let title = trim(strip_start(t.skip(2), '#'));
        if title.len() > 0 {
            (topics.push(TopicSpec { title: title, description: Seq::empty(), skill_level: level }), level)
        } else {
            st
        }
    } else if has_prefix(t, seq!['#']) {
        let lvl = trim(t.skip(1));
        if lvl.len() > 0 {
            (topics, lvl)
        } else {
            st
        }
    } else if t.len() > 0 && topics.len() > 0 {
        let last = topics.last();
        let d = if last.description.len() == 0 {
            t
        } else {
            last.description + seq![' '] + t
        };
        (
            topics.update(
                topics.len() - 1,
                TopicSpec { title: last.title, description: d, skill_level: last.skill_level },
            ),
            level,
        )
    } else {
        st
    }
}

/// The state after reading `lines` in order, from no topics and an empty level.
pub open spec fn grammar_fold(lines: Seq<Seq<char>>) -> ParseState
    decreases lines.len(),
{
    if lines.len() == 0 {
        (Seq::empty(), Seq::empty())
    } else {
        grammar_step(grammar_fold(lines.drop_last()), lines.last())
    }
}

/// The topics that a catalogue text describes.
pub open spec fn catalogue_topics(content: Seq<char>) -> Seq<TopicSpec> {
    grammar_fold(lines_of(content)).0
}

/// Every title is non-empty and neither starts nor ends with white space.
pub open spec fn titles_well_formed(topics: Seq<TopicSpec>) -> bool {
    forall|i: int|
        0 <= i < topics.len() ==> {
            let t = #[trigger] topics[i].title;
            t.len() > 0 && !is_ws(t[0]) && !is_ws(t.last())
        }
}

/// A topic under construction.
struct TopicBuf {
    title: Vec<char>,
    description: Vec<char>,
    skill_level: Vec<char>,
}

impl View for TopicBuf {
    type V = TopicSpec;

    closed spec fn view(&self) -> TopicSpec {
        TopicSpec { title: self.title@, description: self.description@, skill_level: self.skill_level@ }
    }
}

spec fn bufs_view(v: Seq<TopicBuf>) -> Seq<TopicSpec> {
    v.map_values(|t: TopicBuf| t@)
}

proof fn lemma_trim_start_first(s: Seq<char>)
    ensures
        trim_start(s).len() > 0 ==> !is_ws(trim_start(s)[0]),
        trim_start(s).len() <= s.len(),
    decreases s.len(),
{
    if s.len() > 0 && is_ws(s[0]) {
        lemma_trim_start_first(s.drop_first());
    }
}

proof fn lemma_trim_end_prefix(s: Seq<char>)
    ensures
        trim_end(s) == s.take(trim_end(s).len() as int),
        trim_end(s).len() <= s.len(),
        trim_end(s).len() > 0 ==> !is_ws(trim_end(s).last()),
    decreases s.len(),
{
    if s.len() > 0 && is_ws(s.last()) {
        lemma_trim_end_prefix(s.drop_last());
        assert(s.drop_last().take(trim_end(s).len() as int) == s.take(trim_end(s).len() as int));
    } else {
        assert(s.take(s.len() as int) == s);
    }
}

/// A non-empty trimmed text starts and ends with a non-white-space character.
pub proof fn lemma_trim_bounds(s: Seq<char>)
    ensures
        trim(s).len() > 0 ==> !is_ws(trim(s)[0]) && !is_ws(trim(s).last()),
{
    lemma_trim_start_first(s);
    lemma_trim_end_prefix(trim_start(s));
    if trim(s).len() > 0 {
        assert(trim(s)[0] == trim_start(s)[0]);
    }
}

/// Applies one line to the topics and the current level.
fn apply_line(topics: &mut Vec<TopicBuf>, level: &mut Vec<char>, line: &Vec<char>)
    ensures
        (bufs_view(final(topics)@), final(level)@) == grammar_step(
            (bufs_view(old(topics)@), old(level)@),
            line@,
        ),
{
    let ghost st = (bufs_view(topics@), level@);
    let t = trim_chars(line);
    proof {
        if t@.len() >= 2 {
            assert(has_prefix(t@, seq!['#', '#']) == (t@[0] == '#' && t@[1] == '#')) by {
                if t@[0] == '#' && t@[1] == '#' {
                    assert(t@.take(2) == seq!['#', '#']);
                } else {
                    assert(t@.take(2)[0] != '#' || t@.take(2)[1] != '#');
                }
            }
        }
        if t@.len() >= 1 {
            assert(has_prefix(t@, seq!['#']) == (t@[0] == '#')) by {
                if t@[0] == '#' {
                    assert(t@.take(1) == seq!['#']);
                } else {
                    assert(t@.take(1)[0] != '#');
                }
            }
        }
    }
    if t.len() >= 2 && t[0] == '#' && t[1] == '#' {
        let rest = sub_chars(&t, 2, t.len());
        assert(rest@ == t@.skip(2));
        let stripped = strip_start_chars(&rest, '#');
        let title = trim_chars(&stripped);
        if title.len() > 0 {
            let lv = sub_chars(level, 0, level.len());
            assert(lv@ == level@);
            let ghost before = topics@;
            let b = TopicBuf { title, description: Vec::new(), skill_level: lv };
            assert(b@ == TopicSpec { title: title@, description: Seq::empty(), skill_level: level@ });
            topics.push(b);
            assert(topics@ == before.push(b));
            assert(bufs_view(topics@) =~= bufs_view(before).push(b@));
        }
        assert((bufs_view(topics@), level@) == grammar_step(st, line@));
    } else if t.len() >= 1 && t[0] == '#' {
        let rest = sub_chars(&t, 1, t.len());
        assert(rest@ == t@.skip(1));
        let lvl = trim_chars(&rest);
        if lvl.len() > 0 {
            *level = lvl;
        }
        assert((bufs_view(topics@), level@) == grammar_step(st, line@));
    } else if t.len() > 0 && topics.len() > 0 {
        let mut last = topics.pop().unwrap();
        assert(old(topics)@ == topics@.push(last));
        let ghost d0 = last.description@;
        if last.description.len() > 0 {
            last.description.push(' ');
        }
        extend_chars(&mut last.description, &t);
        assert(last.description@ =~= if d0.len() == 0 {
            t@
        } else {
            d0 + seq![' '] + t@
        });
        assert(bufs_view(old(topics)@).last() == old(topics)@.last()@);
        let ghost mid = topics@;
        topics.push(last);
        assert(topics@ == mid.push(last));
        assert(bufs_view(topics@) =~= bufs_view(old(topics)@).update(
            old(topics)@.len() - 1,
            last@,
        ));
        assert((bufs_view(topics@), level@) == grammar_step(st, line@));
    } else {
        assert((bufs_view(topics@), level@) == grammar_step(st, line@));
    }
}

/// The grammar topics described by the catalogue text `content`.
///
/// The catalogue has two levels: `#` headings set the current CEFR skill level
/// (e.g. `# A1`), `##` headings define a grammar topic under that level, and
/// the following non-heading lines form the topic's description. A `##` topic
/// seen before any `#` level is filed under an empty level.
pub fn parse_grammar_topics(content: &str) -> (res: Vec<GrammarTopic>)
    ensures
        topics_view(res@) == catalogue_topics(content@),
        titles_well_formed(topics_view(res@)),
{
    let cs = chars_of(content);
    let n = cs.len();
    let mut topics: Vec<TopicBuf> = Vec::new();
    let mut level: Vec<char> = Vec::new();
    let mut cur: Vec<char> = Vec::new();
    let ghost mut done: Seq<Seq<char>> = Seq::empty();
    assert(cs@.take(0) == Seq::<char>::empty());
    for i in 0..n
        invariant
            n == cs@.len(),
            cs@ == content@,
            lines_of(cs@.take(i as int)) == done.push(cur@),
            (bufs_view(topics@), level@) == grammar_fold(done),
    {
        let c = cs[i];
        assert(cs@.take(i + 1).drop_last() == cs@.take(i as int));
        if c == '\n' {
            apply_line(&mut topics, &mut level, &cur);
            proof {
                assert(done.push(cur@).drop_last() == done);
                done = done.push(cur@);
            }
            cur = Vec::new();
        } else {
            let ghost old_cur = cur@;
            cur.push(c);
            assert(done.push(old_cur).update(done.len() as int, old_cur.push(c)) =~= done.push(cur@));
        }
    }
    assert(cs@.take(n as int) == cs@);
    apply_line(&mut topics, &mut level, &cur);
    proof {
        assert(done.push(cur@).drop_last() == done);
    }
    let mut res: Vec<GrammarTopic> = Vec::new();
    let m = topics.len();
    for k in 0..m
        invariant
            m == topics@.len(),
            topics_view(res@) == bufs_view(topics@).take(k as int),
    {
        let t = &topics[k];
        let g = GrammarTopic {
            title: string_of(&t.title),
            description: string_of(&t.description),
            skill_level: string_of(&t.skill_level),
        };
        assert(g@ == t@);
        let ghost before = res@;
        res.push(g);
        assert(res@ == before.push(g));
        assert(topics_view(res@) =~= topics_view(before).push(g@));
        assert(bufs_view(topics@).take(k + 1) =~= bufs_view(topics@).take(k as int).push(t@));
    }
    assert(bufs_view(topics@).take(m as int) == bufs_view(topics@));
    proof {
        lemma_fold_titles(lines_of(content@));
    }
    res
}

/// Reading any lines keeps every title non-empty and trimmed.
pub proof fn lemma_fold_titles(lines: Seq<Seq<char>>)
    ensures
        titles_well_formed(grammar_fold(lines).0),
    decreases lines.len(),
{
    if lines.len() > 0 {
        lemma_fold_titles(lines.drop_last());
        let st = grammar_fold(lines.drop_last());
        let t = trim(lines.last());
        if has_prefix(t, seq!['#', '#']) {
            lemma_trim_bounds(strip_start(t.skip(2), '#'));
        }
        let r = grammar_fold(lines).0;
        assert forall|i: int| 0 <= i < r.len() implies {
            let x = #[trigger] r[i].title;
            x.len() > 0 && !is_ws(x[0]) && !is_ws(x.last())
        } by {
            if i < st.0.len() {
                assert(r[i].title == st.0[i].title);
            }
        }
    }
}

/// Text without a line break added after `s` extends the last line of `s`.
proof fn lemma_lines_append(s: Seq<char>, p: Seq<char>)
    requires
        !p.contains('\n'),
    ensures
        lines_of(s + p) == lines_of(s).update(lines_of(s).len() - 1, lines_of(s).last() + p),
        lines_of(s).len() > 0,
    decreases p.len(),
{
    lemma_lines_nonempty(s);
    if p.len() == 0 {
        assert(s + p =~= s);
        assert(lines_of(s).last() + p =~= lines_of(s).last());
        assert(lines_of(s).update(lines_of(s).len() - 1, lines_of(s).last()) =~= lines_of(s));
    } else {
        let q = p.drop_last();
        assert(!q.contains('\n')) by {
            if q.contains('\n') {
                let i = choose|i: int| 0 <= i < q.len() && q[i] == '\n';
                assert(p[i] == '\n');
            }
        }
        lemma_lines_append(s, q);
        assert((s + p).drop_last() =~= s + q);
        assert((s + p).last() == p.last());
        assert(p.last() != '\n') by {
            assert(p[p.len() - 1] == p.last());
        }
        lemma_lines_nonempty(s + q);
        assert((lines_of(s).last() + q).push(p.last()) =~= lines_of(s).last() + p);
    }
}

proof fn lemma_lines_nonempty(s: Seq<char>)
    ensures
        lines_of(s).len() > 0,
    decreases s.len(),
{
    if s.len() > 0 {
        lemma_lines_nonempty(s.drop_last());
    }
}

/// A line break at the end of a catalogue changes nothing: the last line is
/// read whether or not a line break follows it.
pub proof fn lemma_catalogue_final_newline(s: Seq<char>)
    ensures
        catalogue_topics(s + seq!['\n']) == catalogue_topics(s),
{
    let x = s + seq!['\n'];
    assert(x.drop_last() =~= s);
    assert(x.last() == '\n');
    assert(lines_of(x) == lines_of(s).push(Seq::<char>::empty()));
    assert(lines_of(x).drop_last() =~= lines_of(s));
    assert(trim(Seq::<char>::empty()) =~= Seq::<char>::empty());
}

/// A topic heading `## <title>` as the last line of a catalogue, with or
/// without a line break after it, adds one topic with that title (and no
/// description yet) after the topics of the text before it.
pub proof fn lemma_catalogue_last_heading(s: Seq<char>, title: Seq<char>)
    requires
        s.len() == 0 || s.last() == '\n',
        title.len() > 0,
        !title.contains('\n'),
        !is_ws(title[0]),
        !is_ws(title.last()),
    ensures
        catalogue_topics(s + "## "@ + title).len() == catalogue_topics(s).len() + 1,
        catalogue_topics(s + "## "@ + title).take(catalogue_topics(s).len() as int) == catalogue_topics(s),
        catalogue_topics(s + "## "@ + title).last().title == title,
        catalogue_topics(s + "## "@ + title).last().description.len() == 0,
{
    reveal_strlit("## ");
    let h = "## "@ + title;
    assert(h =~= seq!['#', '#', ' '] + title);
    assert(!h.contains('\n')) by {
        if h.contains('\n') {
            let i = choose|i: int| 0 <= i < h.len() && h[i] == '\n';
            if i >= 3 {
                assert(title[i - 3] == '\n');
            }
        }
    }
    lemma_catalogue_last_line(s, h);
    let st = grammar_fold(lines_of(s));
    // The heading line is already trimmed.
    assert(trim_start(h) == h);
    assert(trim_end(h) == h) by {
        assert(h.last() == title.last());
    }
    assert(has_prefix(h, seq!['#', '#'])) by {
        assert(h.take(2) =~= seq!['#', '#']);
    }
    assert(h.skip(2) =~= seq![' '] + title);
    assert(strip_start(h.skip(2), '#') == h.skip(2));
    assert((seq![' '] + title).drop_first() =~= title);
    assert(trim_start(seq![' '] + title) == trim_start(title));
    assert(trim_start(title) == title);
    assert(trim_end(title) == title);
    assert(trim(h.skip(2)) == title);
    assert(trim(h) == h);
    assert(s + "## "@ + title =~= s + h);
    assert(grammar_fold(lines_of(s + h)) == grammar_step(st, h));
    assert(grammar_step(st, h).0 == st.0.push(TopicSpec { title: title, description: Seq::empty(), skill_level: st.1 }));
    assert(catalogue_topics(s) == st.0);
}

/// The last line of a catalogue is read like any other.
proof fn lemma_catalogue_last_line(s: Seq<char>, line: Seq<char>)
    requires
        s.len() == 0 || s.last() == '\n',
        !line.contains('\n'),
    ensures
        grammar_fold(lines_of(s + line)) == grammar_step(grammar_fold(lines_of(s)), line),
{
    lemma_lines_append(s, line);
    let ls = lines_of(s);
    let d = ls.drop_last();
    assert(ls.last() =~= Seq::<char>::empty()) by {
        if s.len() > 0 {
            lemma_lines_nonempty(s.drop_last());
        }
    }
    assert(ls =~= d.push(Seq::<char>::empty()));
    assert(lines_of(s + line) =~= d.push(line));
    assert(lines_of(s + line).drop_last() =~= d);
    assert(ls.drop_last() =~= d);
    assert(trim(Seq::<char>::empty()) =~= Seq::<char>::empty());
}

/// A description line as the last line of a catalogue, with or without a
/// line break after it, is added to the description of the last topic
/// (after one space when the description was not empty).
pub proof fn lemma_catalogue_last_description(s: Seq<char>, line: Seq<char>)
    requires
        s.len() == 0 || s.last() == '\n',
        catalogue_topics(s).len() > 0,
        line.len() > 0,
        !line.contains('\n'),
        line[0] != '#',
        !is_ws(line[0]),
        !is_ws(line.last()),
    ensures
        catalogue_topics(s + line).len() == catalogue_topics(s).len(),
        catalogue_topics(s + line).drop_last() == catalogue_topics(s).drop_last(),
        catalogue_topics(s + line).last().title == catalogue_topics(s).last().title,
        catalogue_topics(s + line).last().description == if catalogue_topics(s).last().description.len() == 0 {
            line
        } else {
            catalogue_topics(s).last().description + seq![' '] + line
        },
{
    lemma_catalogue_last_line(s, line);
    assert(trim_start(line) == line);
    assert(trim_end(line) == line);
    assert(!has_prefix(line, seq!['#', '#'])) by {
        if line.len() >= 2 {
            assert(line.take(2)[0] == line[0]);
        }
    }
    assert(!has_prefix(line, seq!['#'])) by {
        assert(line.take(1)[0] == line[0]);
    }
    let st = grammar_fold(lines_of(s));
    assert(catalogue_topics(s + line).drop_last() =~= st.0.drop_last());
}

/// Topic titles of one skill level, in catalogue order.
pub struct LevelGroup {
    pub level: String,
    pub topics: Vec<String>,
}

/// The mathematical value of a [`LevelGroup`].
pub struct GroupSpec {
    pub level: Seq<char>,
    pub topics: Seq<Seq<char>>,
}

impl View for LevelGroup {
    type V = GroupSpec;

    open spec fn view(&self) -> GroupSpec {
        GroupSpec { level: self.level@, topics: strings_view(self.topics@) }
    }
}

/// The values of a list of strings.
pub open spec fn strings_view(v: Seq<String>) -> Seq<Seq<char>> {
    v.map_values(|s: String| s@)
}

/// The values of a list of groups.
pub open spec fn groups_view(v: Seq<LevelGroup>) -> Seq<GroupSpec> {
    v.map_values(|g: LevelGroup| g@)
}

/// The CEFR skill levels, in order.
pub open spec fn cefr_levels() -> Seq<Seq<char>> {
    seq![
        seq!['A', '1'],
        seq!['A', '2'],
        seq!['B', '1'],
        seq!['B', '2'],
        seq!['C', '1'],
        seq!['C', '2'],
    ]
}

/// Some topic has skill level `l`.
pub open spec fn has_level(topics: Seq<TopicSpec>, l: Seq<char>) -> bool {
    exists|i: int| 0 <= i < topics.len() && #[trigger] topics[i].skill_level == l
}

/// The titles of the topics of level `l`, in order.
pub open spec fn titles_at_level(topics: Seq<TopicSpec>, l: Seq<char>) -> Seq<Seq<char>>
    decreases topics.len(),
{
    if topics.len() == 0 {
        Seq::empty()
    } else {
        let r = titles_at_level(topics.drop_last(), l);
        if topics.last().skill_level == l {
            r.push(topics.last().title)
        } else {
            r
        }
    }
}

/// The levels of `levels` that some topic has, in the order of `levels`.
pub open spec fn present_levels(levels: Seq<Seq<char>>, topics: Seq<TopicSpec>) -> Seq<Seq<char>>
    decreases levels.len(),
{
    if levels.len() == 0 {
        Seq::empty()
    } else {
        let r = present_levels(levels.drop_last(), topics);
        if has_level(topics, levels.last()) {
            r.push(levels.last())
        } else {
            r
        }
    }
}

/// The non-empty levels outside the CEFR scale, each once, in the order in
/// which they first occur.
pub open spec fn other_levels(topics: Seq<TopicSpec>) -> Seq<Seq<char>>
    decreases topics.len(),
{
    if topics.len() == 0 {
        Seq::empty()
    } else {
        let r = other_levels(topics.drop_last());
        let l = topics.last().skill_level;
        if l.len() > 0 && !cefr_levels().contains(l) && !r.contains(l) {
            r.push(l)
        } else {
            r
        }
    }
}

/// The levels of the grouped view: CEFR levels in CEFR order first, then any
/// other non-empty level in the order in which it first occurs.
pub open spec fn ordered_levels(topics: Seq<TopicSpec>) -> Seq<Seq<char>> {
    present_levels(cefr_levels(), topics) + other_levels(topics)
}

/// The grouped view of the topics: one group per level of `ordered_levels`,
/// holding the titles of that level in catalogue order.
pub open spec fn grouped(topics: Seq<TopicSpec>) -> Seq<GroupSpec> {
    ordered_levels(topics).map_values(
        |l: Seq<char>| GroupSpec { level: l, topics: titles_at_level(topics, l) },
    )
}

/// The `k`-th CEFR level.
fn cefr_level(k: usize) -> (res: String)
    requires
        k < 6,
    ensures
        res@ == cefr_levels()[k as int],
{
    let cs: Vec<char> = if k == 0 {
        vec!['A', '1']
    } else if k == 1 {
        vec!['A', '2']
    } else if k == 2 {
        vec!['B', '1']
    } else if k == 3 {
        vec!['B', '2']
    } else if k == 4 {
        vec!['C', '1']
    } else {
        vec!['C', '2']
    };
    let s = string_of(&cs);
    assert(s@ =~= cefr_levels()[k as int]);
    s
}

/// Whether `l` is a CEFR level.
fn is_cefr(l: &String) -> (res: bool)
    ensures
        res == cefr_levels().contains(l@),
{
    for k in 0..6
        invariant
            forall|j: int| 0 <= j < k ==> cefr_levels()[j] != l@,
    {
        let c = cefr_level(k);
        if c == *l {
            assert(cefr_levels()[k as int] == l@);
            return true;
        }
    }
    assert forall|j: int| 0 <= j < cefr_levels().len() implies cefr_levels()[j] != l@ by {}
    false
}

/// Copies a string.
fn copy_string(s: &String) -> (res: String)
    ensures
        res@ == s@,
{
    s.clone()
}

/// The titles of the topics of level `l`, in order.
fn titles_of_level(topics: &Vec<GrammarTopic>, l: &String) -> (res: Vec<String>)
    ensures
        strings_view(res@) == titles_at_level(topics_view(topics@), l@),
{
    let mut res: Vec<String> = Vec::new();
    let n = topics.len();
    for i in 0..n
        invariant
            n == topics@.len(),
            strings_view(res@) == titles_at_level(topics_view(topics@).take(i as int), l@),
    {
        let ghost before = res@;
        assert(topics_view(topics@).take(i + 1).drop_last() =~= topics_view(topics@).take(i as int));
        if topics[i].skill_level == *l {
            let t = copy_string(&topics[i].title);
            res.push(t);
            assert(strings_view(res@) =~= strings_view(before).push(t@));
        }
    }
    assert(topics_view(topics@).take(n as int) =~= topics_view(topics@));
    res
}

/// A level has titles exactly when some topic has it.
pub proof fn lemma_titles_nonempty(topics: Seq<TopicSpec>, l: Seq<char>)
    ensures
        titles_at_level(topics, l).len() > 0 <==> has_level(topics, l),
    decreases topics.len(),
{
    if topics.len() > 0 {
        let p = topics.drop_last();
        lemma_titles_nonempty(p, l);
        if has_level(p, l) {
            let i = choose|i: int| 0 <= i < p.len() && #[trigger] p[i].skill_level == l;
            assert(topics[i].skill_level == l);
        }
        if has_level(topics, l) && topics.last().skill_level != l {
            let i = choose|i: int| 0 <= i < topics.len() && #[trigger] topics[i].skill_level == l;
            assert(p[i].skill_level == l);
        }
        if topics.last().skill_level == l {
            assert(topics[topics.len() - 1].skill_level == l);
        }
    }
}

/// Groups the titles of `topics` by skill level: the CEFR levels that occur,
/// in CEFR order, then any other non-empty level in the order in which it
/// first occurs. Topics with an empty level belong to no group.
pub fn group_by_level(topics: &Vec<GrammarTopic>) -> (res: Vec<LevelGroup>)
    ensures
        groups_view(res@) == grouped(topics_view(topics@)),
{
    let ghost tv = topics_view(topics@);
    let mut res: Vec<LevelGroup> = Vec::new();
    for k in 0..6
        invariant
            tv == topics_view(topics@),
            groups_view(res@) == grouped_levels(present_levels(cefr_levels().take(k as int), tv), tv),
    {
        let l = cefr_level(k);
        let titles = titles_of_level(topics, &l);
        let ghost before = res@;
        proof {
            lemma_titles_nonempty(tv, l@);
            assert(cefr_levels().take(k + 1).drop_last() =~= cefr_levels().take(k as int));
        }
        if titles.len() > 0 {
            let g = LevelGroup { level: l, topics: titles };
            res.push(g);
            assert(groups_view(res@) =~= groups_view(before).push(g@));
        }
    }
    assert(cefr_levels().take(6) =~= cefr_levels());
    let ghost first = present_levels(cefr_levels(), tv);
    let n = topics.len();
    for i in 0..n
        invariant
            n == topics@.len(),
            tv == topics_view(topics@),
            first == present_levels(cefr_levels(), tv),
            groups_view(res@) == grouped_levels(first + other_levels(tv.take(i as int)), tv),
            res@.len() == first.len() + other_levels(tv.take(i as int)).len(),
    {
        let ghost before = res@;
        let ghost others = other_levels(tv.take(i as int));
        assert(tv.take(i + 1).drop_last() =~= tv.take(i as int));
        assert(tv.take(i + 1).last() == tv[i as int]);
        let l = &topics[i].skill_level;
        if !l.as_str().is_empty() && !is_cefr(l) {
            // Whether `l` has a group already.
            let mut seen = false;
            let m = res.len();
            let mut q: usize = 0;
            while q < m
                invariant
                    m == res@.len(),
                    groups_view(res@) == grouped_levels(first + others, tv),
                    res@.len() == first.len() + others.len(),
                    q <= m,
                    seen == exists|p: int| 0 <= p < q && #[trigger] res@[p].level@ == l@,
                decreases m - q,
            {
                assert(groups_view(res@)[q as int].level == res@[q as int].level@);
                if res[q].level == *l {
                    seen = true;
                }
                q = q + 1;
            }
            proof {
                assert(seen <==> (first + others).contains(l@)) by {
                    if seen {
                        let p = choose|p: int| 0 <= p < m && #[trigger] res@[p].level@ == l@;
                        assert(groups_view(res@)[p].level == (first + others)[p]);
                    }
                    if (first + others).contains(l@) {
                        let p = choose|p: int| 0 <= p < (first + others).len() && (first + others)[p] == l@;
                        assert(groups_view(res@)[p].level == res@[p].level@);
                    }
                }
                lemma_present_in_cefr(cefr_levels(), tv, l@);
                if others.contains(l@) {
                    assert((first + others).contains(l@)) by {
                        let p = choose|p: int| 0 <= p < others.len() && others[p] == l@;
                        assert((first + others)[first.len() + p] == l@);
                    }
                }
            }
            if !seen {
                let titles = titles_of_level(topics, l);
                let g = LevelGroup { level: copy_string(l), topics: titles };
                res.push(g);
                assert(groups_view(res@) =~= groups_view(before).push(g@));
                assert(first + others.push(l@) =~= (first + others).push(l@));
            }
        }
        assert(other_levels(tv.take(i + 1)) == if l@.len() > 0 && !cefr_levels().contains(l@)
            && !others.contains(l@) {
            others.push(l@)
        } else {
            others
        });
    }
    assert(tv.take(n as int) =~= tv);
    res
}

/// The groups of the given levels.
pub open spec fn grouped_levels(levels: Seq<Seq<char>>, topics: Seq<TopicSpec>) -> Seq<GroupSpec> {
    levels.map_values(|l: Seq<char>| GroupSpec { level: l, topics: titles_at_level(topics, l) })
}

proof fn lemma_present_in_cefr(levels: Seq<Seq<char>>, topics: Seq<TopicSpec>, l: Seq<char>)
    ensures
        present_levels(levels, topics).contains(l) ==> levels.contains(l),
    decreases levels.len(),
{
    if levels.len() > 0 {
        lemma_present_in_cefr(levels.drop_last(), topics, l);
        let r = present_levels(levels.drop_last(), topics);
        if present_levels(levels, topics).contains(l) {
            let p = choose|p: int| 0 <= p < present_levels(levels, topics).len() && present_levels(levels, topics)[p] == l;
            if p < r.len() {
                assert(r[p] == l);
                let q = choose|q: int| 0 <= q < levels.drop_last().len() && levels.drop_last()[q] == l;
                assert(levels[q] == l);
            } else {
                assert(levels[levels.len() - 1] == l);
            }
        }
    }
}

proof fn lemma_present_has_level(levels: Seq<Seq<char>>, topics: Seq<TopicSpec>)
    ensures
        forall|i: int| 0 <= i < present_levels(levels, topics).len() ==> has_level(topics, #[trigger] present_levels(levels, topics)[i]),
        levels.no_duplicates() ==> present_levels(levels, topics).no_duplicates(),
    decreases levels.len(),
{
    if levels.len() > 0 {
        let d = levels.drop_last();
        lemma_present_has_level(d, topics);
        lemma_present_in_cefr(d, topics, levels.last());
        let r = present_levels(d, topics);
        if levels.no_duplicates() {
            assert(d.no_duplicates());
            if d.contains(levels.last()) {
                let q = choose|q: int| 0 <= q < d.len() && d[q] == levels.last();
                assert(levels[q] == levels[levels.len() - 1]);
            }
        }
    }
}

proof fn lemma_present_complete(levels: Seq<Seq<char>>, topics: Seq<TopicSpec>, l: Seq<char>)
    requires
        levels.contains(l),
        has_level(topics, l),
    ensures
        present_levels(levels, topics).contains(l),
    decreases levels.len(),
{
    let d = levels.drop_last();
    if levels.last() == l {
        let r = present_levels(d, topics);
        assert(r.push(l)[r.len() as int] == l);
    } else {
        let q = choose|q: int| 0 <= q < levels.len() && levels[q] == l;
        assert(d[q] == l);
        lemma_present_complete(d, topics, l);
        let r = present_levels(d, topics);
        let p = choose|p: int| 0 <= p < r.len() && r[p] == l;
        if has_level(topics, levels.last()) {
            assert(r.push(levels.last())[p] == l);
        }
    }
}

proof fn lemma_other_levels(topics: Seq<TopicSpec>)
    ensures
        other_levels(topics).no_duplicates(),
        forall|i: int| 0 <= i < other_levels(topics).len() ==> {
            let l = #[trigger] other_levels(topics)[i];
            &&& l.len() > 0
            &&& !cefr_levels().contains(l)
            &&& has_level(topics, l)
        },
        forall|k: int| 0 <= k < topics.len() && topics[k].skill_level.len() > 0 && !cefr_levels().contains(topics[k].skill_level)
            ==> other_levels(topics).contains(#[trigger] topics[k].skill_level),
    decreases topics.len(),
{
    if topics.len() > 0 {
        let d = topics.drop_last();
        lemma_other_levels(d);
        let r = other_levels(d);
        let o = other_levels(topics);
        let l = topics.last().skill_level;
        assert forall|i: int| 0 <= i < o.len() implies {
            let x = #[trigger] o[i];
            &&& x.len() > 0
            &&& !cefr_levels().contains(x)
            &&& has_level(topics, x)
        } by {
            if i < r.len() {
                assert(o[i] == r[i]);
                assert(has_level(d, r[i]));
                let j = choose|j: int| 0 <= j < d.len() && #[trigger] d[j].skill_level == r[i];
                assert(topics[j].skill_level == r[i]);
            } else {
                assert(topics[topics.len() - 1].skill_level == l);
            }
        }
        assert forall|k: int| 0 <= k < topics.len() && topics[k].skill_level.len() > 0 && !cefr_levels().contains(topics[k].skill_level)
            implies o.contains(#[trigger] topics[k].skill_level) by {
            if k < d.len() {
                assert(d[k] == topics[k]);
                assert(r.contains(d[k].skill_level));
                let p = choose|p: int| 0 <= p < r.len() && r[p] == d[k].skill_level;
                if o != r {
                    assert(o[p] == r[p]);
                }
            } else {
                if !r.contains(l) {
                    assert(o[r.len() as int] == l);
                }
            }
        }
    }
}

/// The grouped view is a grouping: no level has two groups, every non-empty
/// level of a topic has its group, and every group holds at least one title.
pub proof fn lemma_grouping(topics: Seq<TopicSpec>)
    ensures
        ordered_levels(topics).no_duplicates(),
        forall|k: int| 0 <= k < topics.len() && topics[k].skill_level.len() > 0 ==> ordered_levels(
            topics,
        ).contains(#[trigger] topics[k].skill_level),
        forall|i: int| 0 <= i < grouped(topics).len() ==> (#[trigger] grouped(topics)[i]).topics.len() > 0,
{
    let c = cefr_levels();
    assert(c.no_duplicates()) by {
        assert forall|i: int, j: int| 0 <= i < c.len() && 0 <= j < c.len() && i != j implies c[i] != c[j] by {
            assert(c[i][0] != c[j][0] || c[i][1] != c[j][1]);
        }
    }
    lemma_present_has_level(c, topics);
    lemma_other_levels(topics);
    let a = present_levels(c, topics);
    let b = other_levels(topics);
    let all = a + b;
    assert forall|i: int, j: int| 0 <= i < all.len() && 0 <= j < all.len() && i != j implies all[i] != all[j] by {
        if i < a.len() && j >= a.len() {
            lemma_present_in_cefr(c, topics, a[i]);
            assert(all[j] == b[j - a.len()]);
        } else if j < a.len() && i >= a.len() {
            lemma_present_in_cefr(c, topics, a[j]);
            assert(all[i] == b[i - a.len()]);
        } else if i >= a.len() {
            assert(all[i] == b[i - a.len()]);
            assert(all[j] == b[j - a.len()]);
        }
    }
    assert forall|k: int| 0 <= k < topics.len() && topics[k].skill_level.len() > 0 implies all.contains(
        #[trigger] topics[k].skill_level,
    ) by {
        let l = topics[k].skill_level;
        if c.contains(l) {
            lemma_present_complete(c, topics, l);
            let p = choose|p: int| 0 <= p < a.len() && a[p] == l;
            assert(all[p] == l);
        } else {
            let p = choose|p: int| 0 <= p < b.len() && b[p] == l;
            assert(all[a.len() + p] == l);
        }
    }
    assert forall|i: int| 0 <= i < grouped(topics).len() implies (#[trigger] grouped(topics)[i]).topics.len() > 0 by {
        let l = all[i];
        if i < a.len() {
            assert(has_level(topics, a[i]));
        } else {
            assert(b[i - a.len()] == l);
        }
        lemma_titles_nonempty(topics, l);
    }
}

/// Two levels of `levels` that occur keep their order among the levels that
/// occur.
proof fn lemma_present_order(levels: Seq<Seq<char>>, topics: Seq<TopicSpec>, i: int, j: int) -> (pq: (int, int))
    requires
        0 <= i < j < levels.len(),
        has_level(topics, levels[i]),
        has_level(topics, levels[j]),
    ensures
        0 <= pq.0 < pq.1 < present_levels(levels, topics).len(),
        present_levels(levels, topics)[pq.0] == levels[i],
        present_levels(levels, topics)[pq.1] == levels[j],
    decreases levels.len(),
{
    let d = levels.drop_last();
    let r = present_levels(d, topics);
    if j == levels.len() - 1 {
        assert(d[i] == levels[i]);
        lemma_present_complete(d, topics, levels[i]);
        let p = choose|p: int| 0 <= p < r.len() && r[p] == levels[i];
        assert(present_levels(levels, topics) == r.push(levels.last()));
        (p, r.len() as int)
    } else {
        assert(d[i] == levels[i] && d[j] == levels[j]);
        let pq = lemma_present_order(d, topics, i, j);
        if has_level(topics, levels.last()) {
            assert(r.push(levels.last())[pq.0] == r[pq.0]);
            assert(r.push(levels.last())[pq.1] == r[pq.1]);
        }
        pq
    }
}

/// The grouped view orders its CEFR groups by the scale A1, A2, B1, B2, C1,
/// C2 (so when both C1 and C2 occur, the C1 group comes first), and puts
/// every CEFR group before every group of another level.
pub proof fn lemma_grouped_cefr_order(topics: Seq<TopicSpec>, i: int, j: int)
    requires
        0 <= i < j < 6,
    ensures
        ({
            let scale = seq![
                seq!['A', '1'],
                seq!['A', '2'],
                seq!['B', '1'],
                seq!['B', '2'],
                seq!['C', '1'],
                seq!['C', '2'],
            ];
            let g = grouped(topics);
            &&& has_level(topics, scale[i]) && has_level(topics, scale[j]) ==> exists|p: int, q: int|
                0 <= p < q < g.len() && #[trigger] g[p].level == scale[i] && #[trigger] g[q].level == scale[j]
            &&& forall|p: int, q: int|
                0 <= p < g.len() && 0 <= q < g.len() && scale.contains(#[trigger] g[p].level) && !scale.contains(
                    #[trigger] g[q].level,
                ) ==> p < q
        }),
{
    let scale = seq![
        seq!['A', '1'],
        seq!['A', '2'],
        seq!['B', '1'],
        seq!['B', '2'],
        seq!['C', '1'],
        seq!['C', '2'],
    ];
    assert(cefr_levels() =~= scale);
    let g = grouped(topics);
    let a = present_levels(cefr_levels(), topics);
    let b = other_levels(topics);
    let all = a + b;
    assert(forall|p: int| 0 <= p < g.len() ==> #[trigger] g[p].level == all[p]);
    if has_level(topics, scale[i]) && has_level(topics, scale[j]) {
        let pq = lemma_present_order(cefr_levels(), topics, i, j);
        assert(g[pq.0].level == scale[i]);
        assert(g[pq.1].level == scale[j]);
    }
    lemma_other_levels(topics);
    assert forall|p: int, q: int|
        0 <= p < g.len() && 0 <= q < g.len() && scale.contains(#[trigger] g[p].level) && !scale.contains(
            #[trigger] g[q].level,
        ) implies p < q by {
        if p >= a.len() {
            assert(all[p] == b[p - a.len()]);
        }
        if q < a.len() {
            assert(all[q] == a[q]);
            assert(a.contains(a[q]));
            lemma_present_in_cefr(cefr_levels(), topics, a[q]);
        }
    }
}

/// The titles of all topics, in catalogue order.
pub fn all_titles(topics: &Vec<GrammarTopic>) -> (res: Vec<String>)
    ensures
        strings_view(res@) == topics_view(topics@).map_values(|t: TopicSpec| t.title),
{
    let mut res: Vec<String> = Vec::new();
    let n = topics.len();
    for i in 0..n
        invariant
            n == topics@.len(),
            strings_view(res@) == topics_view(topics@).take(i as int).map_values(|t: TopicSpec| t.title),
    {
        let t = copy_string(&topics[i].title);
        let ghost before = res@;
        res.push(t);
        assert(strings_view(res@) =~= strings_view(before).push(t@));
        assert(topics_view(topics@).take(i + 1).map_values(|t: TopicSpec| t.title) =~= topics_view(
            topics@,
        ).take(i as int).map_values(|t: TopicSpec| t.title).push(topics@[i as int].title@));
    }
    assert(topics_view(topics@).take(n as int) =~= topics_view(topics@));
    res
}

} // verus!
