//! Building what is sent to the language model: the tutor's system primer
//! (the template with its `{{KEY}}` placeholders filled in), the chat request,
//! and the translation request.

use vstd::prelude::*;
use crate::config::{
    entries_view, explanation_language, keys_distinct, learning_language, lemma_lookup_entries,
    lemma_lookup_push, lemma_lookup_upsert, lookup, model_name, server_url, upsert, Config, EntrySpec,
};
use crate::grammar::{topics_view, GrammarTopic, TopicSpec};
use crate::text::{chars_of, extend_chars, extend_str, has_prefix, matches_at, string_of, trim, trim_chars};

verus! {

/// `s` with every occurrence of `p` replaced by `r`, scanning from the left
/// and never overlapping (what `str::replace` does for a non-empty pattern).
pub open spec fn replace_all(s: Seq<char>, p: Seq<char>, r: Seq<char>) -> Seq<char>
    decreases s.len(),
{
    if s.len() == 0 || p.len() == 0 {
        s
    } else if has_prefix(s, p) {
        r + replace_all(s.skip(p.len() as int), p, r)
    } else {
        seq![s[0]] + replace_all(s.drop_first(), p, r)
    }
}

/// The placeholder of key `k`: `{{k}}`.
pub open spec fn placeholder(k: Seq<char>) -> Seq<char> {
    seq!['{', '{'] + k + seq!['}', '}']
}

/// The template `t` with the placeholder of each variable replaced by its
/// value, one variable after the other in the order of `vars`.
pub open spec fn render(t: Seq<char>, vars: Seq<EntrySpec>) -> Seq<char>
    decreases vars.len(),
{
    if vars.len() == 0 {
        t
    } else {
        replace_all(render(t, vars.drop_last()), placeholder(vars.last().0), vars.last().1)
    }
}

/// `s` with every occurrence of `p` replaced by `r`.
fn replace_chars(s: &Vec<char>, p: &Vec<char>, r: &Vec<char>) -> (res: Vec<char>)
    requires
        p@.len() > 0,
    ensures
        res@ == replace_all(s@, p@, r@),
{
    let mut out: Vec<char> = Vec::new();
    let n = s.len();
    let mut i: usize = 0;
    assert(s@.skip(0) == s@);
    while i < n
        invariant
            n == s@.len(),
            p@.len() > 0,
            i <= n,
            replace_all(s@, p@, r@) == out@ + replace_all(s@.skip(i as int), p@, r@),
        decreases n - i,
    {
        let ghost o = out@;
        let ghost rest = s@.skip(i as int);
        if matches_at(s, i, p) {
            extend_chars(&mut out, r);
            assert(rest.skip(p@.len() as int) == s@.skip(i + p@.len()));
            assert(o + (r@ + replace_all(rest.skip(p@.len() as int), p@, r@)) =~= out@
                + replace_all(s@.skip(i + p@.len()), p@, r@));
            i = i + p.len();
        } else {
            out.push(s[i]);
            assert(rest.drop_first() == s@.skip(i + 1));
            assert(rest[0] == s@[i as int]);
            assert(o + (seq![s@[i as int]] + replace_all(rest.drop_first(), p@, r@)) =~= out@
                + replace_all(s@.skip(i + 1), p@, r@));
            i = i + 1;
        }
    }
    assert(s@.skip(n as int).len() == 0);
    assert(out@ + s@.skip(n as int) =~= out@);
    out
}

/// Replaces the `{{KEY}}` placeholders of `template` with the values of
/// `vars`, one variable after the other in the table's order.
pub fn render_template(template: &str, vars: &Config) -> (res: String)
    ensures
        res@ == render(template@, vars@),
{
    let mut out = chars_of(template);
    let es = vars.entries();
    let n = es.len();
    for i in 0..n
        invariant
            n == es@.len(),
            entries_view(es@) == vars@,
            out@ == render(template@, vars@.take(i as int)),
    {
        let mut p: Vec<char> = vec!['{', '{'];
        extend_str(&mut p, es[i].0.as_str());
        p.push('}');
        p.push('}');
        assert(vars@[i as int] == (es@[i as int].0@, es@[i as int].1@));
        assert(p@ =~= placeholder(vars@[i as int].0));
        let r = chars_of(es[i].1.as_str());
        out = replace_chars(&out, &p, &r);
        assert(vars@.take(i + 1).drop_last() =~= vars@.take(i as int));
    }
    assert(vars@.take(n as int) =~= vars@);
    string_of(&out)
}

/// `s` has `{{` at index `i`.
pub open spec fn open_mark_at(s: Seq<char>, i: int) -> bool {
    s[i] == '{' && s[i + 1] == '{'
}

/// `s` holds no `{{`.
pub open spec fn no_open_marks(s: Seq<char>) -> bool {
    forall|i: int| 0 <= i < s.len() - 1 ==> !#[trigger] open_mark_at(s, i)
}

proof fn lemma_replace_unmarked(s: Seq<char>, k: Seq<char>, r: Seq<char>)
    requires
        no_open_marks(s),
    ensures
        replace_all(s, placeholder(k), r) == s,
    decreases s.len(),
{
    let p = placeholder(k);
    if s.len() > 0 {
        if has_prefix(s, p) {
            assert(s.take(p.len() as int)[0] == p[0]);
            assert(s.take(p.len() as int)[1] == p[1]);
            assert(open_mark_at(s, 0));
            assert(false);
        }
        assert forall|i: int| 0 <= i < s.drop_first().len() - 1 implies !#[trigger] open_mark_at(
            s.drop_first(),
            i,
        ) by {
            assert(s.drop_first()[i] == s[i + 1]);
            assert(s.drop_first()[i + 1] == s[i + 2]);
            assert(!open_mark_at(s, i + 1));
        }
        lemma_replace_unmarked(s.drop_first(), k, r);
        assert(seq![s[0]] + s.drop_first() =~= s);
    }
}

/// A template without any `{{` comes out of rendering unchanged, whatever
/// the variables.
pub proof fn lemma_render_unmarked(t: Seq<char>, vars: Seq<EntrySpec>)
    requires
        no_open_marks(t),
    ensures
        render(t, vars) == t,
    decreases vars.len(),
{
    if vars.len() > 0 {
        lemma_render_unmarked(t, vars.drop_last());
        lemma_replace_unmarked(t, vars.last().0, vars.last().1);
    }
}

/// A piece of a template: plain text, or the placeholder of a key.
pub enum TemplatePart {
    Text(Seq<char>),
    Hole(Seq<char>),
}

/// The characters of one template piece.
pub open spec fn part_text(p: TemplatePart) -> Seq<char> {
    match p {
        TemplatePart::Text(s) => s,
        TemplatePart::Hole(k) => placeholder(k),
    }
}

/// The template made of the pieces `ps`, in order.
pub open spec fn join_parts(ps: Seq<TemplatePart>) -> Seq<char>
    decreases ps.len(),
{
    if ps.len() == 0 {
        Seq::empty()
    } else {
        part_text(ps[0]) + join_parts(ps.drop_first())
    }
}

/// `s` holds no brace.
pub open spec fn brace_free(s: Seq<char>) -> bool {
    !s.contains('{') && !s.contains('}')
}

/// The pieces form a well-formed template: no text holds `{`, and no key
/// holds a brace.
pub open spec fn parts_wf(ps: Seq<TemplatePart>) -> bool {
    forall|i: int|
        0 <= i < ps.len() ==> match #[trigger] ps[i] {
            TemplatePart::Text(s) => !s.contains('{'),
            TemplatePart::Hole(k) => brace_free(k),
        }
}

/// The variables are well formed: no key holds a brace, and no value holds
/// `{`.
pub open spec fn vars_wf(vars: Seq<EntrySpec>) -> bool {
    forall|i: int| 0 <= i < vars.len() ==> brace_free(#[trigger] vars[i].0) && !vars[i].1.contains('{')
}

/// A template piece with its placeholder filled in from `vars`, when `vars`
/// has its key.
pub open spec fn fill_part(p: TemplatePart, vars: Seq<EntrySpec>) -> TemplatePart {
    match p {
        TemplatePart::Hole(k) => match lookup(vars, k) {
            Some(v) => TemplatePart::Text(v),
            None => p,
        },
        TemplatePart::Text(_) => p,
    }
}

/// The template pieces with every placeholder filled in from `vars`.
pub open spec fn fill_parts(ps: Seq<TemplatePart>, vars: Seq<EntrySpec>) -> Seq<TemplatePart> {
    ps.map_values(|p: TemplatePart| fill_part(p, vars))
}

/// A template piece with the placeholder of `k` replaced by the text `v`.
spec fn subst_part(p: TemplatePart, k: Seq<char>, v: Seq<char>) -> TemplatePart {
    match p {
        TemplatePart::Hole(k2) => if k2 == k {
            TemplatePart::Text(v)
        } else {
            p
        },
        TemplatePart::Text(_) => p,
    }
}

/// Replacing a placeholder in text without `{` leaves that text as it is.
proof fn lemma_replace_skip_text(x: Seq<char>, y: Seq<char>, k: Seq<char>, r: Seq<char>)
    requires
        !x.contains('{'),
    ensures
        replace_all(x + y, placeholder(k), r) == x + replace_all(y, placeholder(k), r),
    decreases x.len(),
{
    let p = placeholder(k);
    if x.len() == 0 {
        assert(x + y =~= y);
        assert(x + replace_all(y, p, r) =~= replace_all(y, p, r));
    } else {
        let s = x + y;
        assert(s[0] == x[0]);
        assert(x[0] != '{');
        if has_prefix(s, p) {
            assert(s.take(p.len() as int)[0] == p[0]);
            assert(false);
        }
        assert(s.drop_first() =~= x.drop_first() + y);
        assert(!x.drop_first().contains('{')) by {
            if x.drop_first().contains('{') {
                let i = choose|i: int| 0 <= i < x.drop_first().len() && x.drop_first()[i] == '{';
                assert(x[i + 1] == '{');
            }
        }
        lemma_replace_skip_text(x.drop_first(), y, k, r);
        assert(seq![x[0]] + (x.drop_first() + replace_all(y, p, r)) =~= x + replace_all(y, p, r));
    }
}

/// Replacing the placeholder of `k` where the placeholder of `k2` stands:
/// it is replaced when the keys are the same, and left as it is otherwise.
proof fn lemma_replace_hole(k2: Seq<char>, y: Seq<char>, k: Seq<char>, r: Seq<char>)
    requires
        brace_free(k),
        brace_free(k2),
    ensures
        replace_all(placeholder(k2) + y, placeholder(k), r) == (if k2 == k {
            r
        } else {
            placeholder(k2)
        }) + replace_all(y, placeholder(k), r),
{
    let p = placeholder(k);
    let s = placeholder(k2) + y;
    let a = k.len() as int;
    let b = k2.len() as int;
    if k2 == k {
        assert(s.take(p.len() as int) =~= p);
        assert(s.skip(p.len() as int) =~= y);
        assert(replace_all(s, p, r) == r + replace_all(y, p, r));
    } else {
        if has_prefix(s, p) {
            let q = s.take(p.len() as int);
            if a < b {
                assert(q[2 + a] == p[2 + a]);
                assert(s[2 + a] == k2[a]);
                assert(k2[a] == '}');
                assert(k2.contains('}'));
            } else if a > b {
                assert(q[2 + b] == p[2 + b]);
                assert(s[2 + b] == '}');
                assert(k[b] == '}');
                assert(k.contains('}'));
            } else {
                assert forall|j: int| 0 <= j < a implies k[j] == k2[j] by {
                    assert(q[2 + j] == p[2 + j]);
                    assert(s[2 + j] == k2[j]);
                    assert(p[2 + j] == k[j]);
                }
                assert(k =~= k2);
            }
            assert(false);
        }
        let s1 = s.drop_first();
        assert(s1 =~= seq!['{'] + ((k2 + seq!['}', '}']) + y));
        if has_prefix(s1, p) {
            assert(s1.take(p.len() as int)[1] == p[1]);
            if b > 0 {
                assert(s1[1] == k2[0]);
                assert(k2.contains('{'));
            }
            assert(false);
        }
        let x = k2 + seq!['}', '}'];
        assert(s1.drop_first() =~= x + y);
        assert(!x.contains('{')) by {
            if x.contains('{') {
                let i = choose|i: int| 0 <= i < x.len() && x[i] == '{';
                if i < b {
                    assert(k2[i] == '{');
                }
            }
        }
        lemma_replace_skip_text(x, y, k, r);
        assert(s[0] == '{');
        assert(s1[0] == '{');
        assert(replace_all(s, p, r) == seq![s[0]] + replace_all(s1, p, r));
        assert(replace_all(s1, p, r) == seq![s1[0]] + replace_all(x + y, p, r));
        assert(seq![s[0]] + (seq![s1[0]] + (x + replace_all(y, p, r))) =~= placeholder(k2) + replace_all(
            y,
            p,
            r,
        ));
    }
}

/// Replacing the placeholder of `k` in a well-formed template replaces
/// exactly its placeholder pieces.
proof fn lemma_replace_parts(ps: Seq<TemplatePart>, k: Seq<char>, v: Seq<char>)
    requires
        parts_wf(ps),
        brace_free(k),
        !v.contains('{'),
    ensures
        replace_all(join_parts(ps), placeholder(k), v) == join_parts(
            ps.map_values(|p: TemplatePart| subst_part(p, k, v)),
        ),
    decreases ps.len(),
{
    let f = |p: TemplatePart| subst_part(p, k, v);
    let m = ps.map_values(f);
    if ps.len() == 0 {
        assert(join_parts(ps) =~= Seq::<char>::empty());
        assert(m.len() == 0);
    } else {
        let tail = ps.drop_first();
        assert(parts_wf(tail)) by {
            assert forall|i: int| 0 <= i < tail.len() implies match #[trigger] tail[i] {
                TemplatePart::Text(s) => !s.contains('{'),
                TemplatePart::Hole(k) => brace_free(k),
            } by {
                assert(tail[i] == ps[i + 1]);
            }
        }
        lemma_replace_parts(tail, k, v);
        assert(m.drop_first() =~= tail.map_values(f));
        assert(m[0] == subst_part(ps[0], k, v));
        let rest = join_parts(tail);
        match ps[0] {
            TemplatePart::Text(x) => {
                assert(!x.contains('{'));
                lemma_replace_skip_text(x, rest, k, v);
            },
            TemplatePart::Hole(k2) => {
                assert(brace_free(k2));
                lemma_replace_hole(k2, rest, k, v);
            },
        }
    }
}

/// A value that `lookup` finds in well-formed variables holds no `{`.
proof fn lemma_lookup_wf(vars: Seq<EntrySpec>, k: Seq<char>)
    requires
        vars_wf(vars),
    ensures
        lookup(vars, k) matches Some(v) ==> !v.contains('{'),
{
    lemma_lookup_entries(vars, k);
    if let Some(v) = lookup(vars, k) {
        let i = choose|i: int| 0 <= i < vars.len() && vars[i] == (k, v);
        assert(brace_free(vars[i].0) && !vars[i].1.contains('{'));
    }
}

/// Rendering a well-formed template with well-formed variables fills in
/// each placeholder with the value of its key, as `lookup` finds it, and
/// leaves the placeholders of other keys as they are: the result depends on
/// the variables only through what `lookup` finds in them.
pub proof fn lemma_render_parts(ps: Seq<TemplatePart>, vars: Seq<EntrySpec>)
    requires
        parts_wf(ps),
        vars_wf(vars),
    ensures
        render(join_parts(ps), vars) == join_parts(fill_parts(ps, vars)),
    decreases vars.len(),
{
    if vars.len() == 0 {
        assert(fill_parts(ps, vars) =~= ps);
    } else {
        let w = vars.drop_last();
        let e = vars.last();
        assert(vars_wf(w)) by {
            assert forall|i: int| 0 <= i < w.len() implies brace_free(#[trigger] w[i].0) && !w[i].1.contains('{') by {
                assert(w[i] == vars[i]);
            }
        }
        assert(brace_free(vars[vars.len() - 1].0) && !vars[vars.len() - 1].1.contains('{'));
        lemma_render_parts(ps, w);
        let fw = fill_parts(ps, w);
        assert(parts_wf(fw)) by {
            assert forall|i: int| 0 <= i < fw.len() implies match #[trigger] fw[i] {
                TemplatePart::Text(s) => !s.contains('{'),
                TemplatePart::Hole(k) => brace_free(k),
            } by {
                assert(fw[i] == fill_part(ps[i], w));
                if let TemplatePart::Hole(k2) = ps[i] {
                    lemma_lookup_wf(w, k2);
                }
            }
        }
        lemma_replace_parts(fw, e.0, e.1);
        assert(vars =~= w.push(e));
        assert(fw.map_values(|p: TemplatePart| subst_part(p, e.0, e.1)) =~= fill_parts(ps, vars)) by {
            assert forall|i: int| 0 <= i < ps.len() implies subst_part(fw[i], e.0, e.1) == fill_part(ps[i], vars) by {
                if let TemplatePart::Hole(k2) = ps[i] {
                    lemma_lookup_push(w, e, k2);
                }
            }
        }
    }
}

/// With a well-formed template and well-formed variables in which no key
/// occurs twice, the order of the variables does not matter: two tables
/// holding the same (key, value) pairs render the same text.
pub proof fn lemma_render_order(ps: Seq<TemplatePart>, vars1: Seq<EntrySpec>, vars2: Seq<EntrySpec>)
    requires
        parts_wf(ps),
        vars_wf(vars1),
        keys_distinct(vars1),
        keys_distinct(vars2),
        forall|e: EntrySpec| vars1.contains(e) <==> vars2.contains(e),
    ensures
        render(join_parts(ps), vars1) == render(join_parts(ps), vars2),
{
    assert(vars_wf(vars2)) by {
        assert forall|i: int| 0 <= i < vars2.len() implies brace_free(#[trigger] vars2[i].0)
            && !vars2[i].1.contains('{') by {
            assert(vars2.contains(vars2[i]));
            assert(vars1.contains(vars2[i]));
            let j = choose|j: int| 0 <= j < vars1.len() && vars1[j] == vars2[i];
            assert(brace_free(vars1[j].0) && !vars1[j].1.contains('{'));
        }
    }
    lemma_render_parts(ps, vars1);
    lemma_render_parts(ps, vars2);
    assert forall|k: Seq<char>| lookup(vars1, k) == lookup(vars2, k) by {
        lemma_lookup_entries(vars1, k);
        lemma_lookup_entries(vars2, k);
        if let Some(v) = lookup(vars1, k) {
            assert(vars2.contains((k, v)));
        } else if let Some(v) = lookup(vars2, k) {
            assert(vars1.contains((k, v)));
        }
    }
    assert(fill_parts(ps, vars1) =~= fill_parts(ps, vars2));
}

/// One message of a conversation.
pub struct ChatMessage {
    /// `"system"`, `"user"` or `"assistant"`.
    pub role: String,
    pub content: String,
}

/// A message as mathematical text: (role, content).
pub type MessageSpec = (Seq<char>, Seq<char>);

impl View for ChatMessage {
    type V = MessageSpec;

    open spec fn view(&self) -> MessageSpec {
        (self.role@, self.content@)
    }
}

/// The values of a list of messages.
pub open spec fn messages_view(v: Seq<ChatMessage>) -> Seq<MessageSpec> {
    v.map_values(|m: ChatMessage| m@)
}

/// A chat turn requested by the browser: the session's topic, grammar focus
/// and skill level, and the conversation so far.
pub struct ChatRequest {
    pub topic: String,
    pub grammar: String,
    pub skill_level: String,
    pub messages: Vec<ChatMessage>,
}

/// What the tutor knows after start-up.
pub struct TutorState {
    pub config: Config,
    pub grammar_topics: Vec<GrammarTopic>,
    /// The primer template with `{{KEY}}` placeholders.
    pub tutor_template: String,
    pub ollama_url: String,
    pub model: String,
}

impl TutorState {
    /// The state for a configuration, a grammar catalogue and a template:
    /// the model is the configured `model` (default `gemma-4:31`) and the
    /// server the configured `OLLAMA_URL` (default `http://localhost:11434`).
    pub fn new(config: Config, grammar_topics: Vec<GrammarTopic>, tutor_template: String) -> (res: TutorState)
        ensures
            res.config@ == config@,
            res.grammar_topics@ == grammar_topics@,
            res.tutor_template@ == tutor_template@,
            res.model@ == match lookup(config@, "model"@) {
                Some(v) => v,
                None => "gemma-4:31"@,
            },
            res.ollama_url@ == match lookup(config@, "OLLAMA_URL"@) {
                Some(v) => v,
                None => "http://localhost:11434"@,
            },
    {
        let model = model_name(&config);
        let ollama_url = server_url(&config);
        TutorState { config, grammar_topics, tutor_template, ollama_url, model }
    }
}

/// A request to the model server: where to send it, which model, and the
/// messages; it is always sent for a streamed reply.
pub struct ModelRequest {
    pub url: String,
    pub model: String,
    pub messages: Vec<ChatMessage>,
}

/// What the primer says of the topic when the user gave none.
pub open spec fn free_topic_text() -> Seq<char> {
    "choisis toi-même un sujet adapté au niveau et au point de grammaire, puis annonce-le au début de la conversation"@
}

/// The topic given to the tutor: the user's, or, when that is blank, the
/// instruction to choose one.
pub open spec fn topic_text(topic: Seq<char>) -> Seq<char> {
    if trim(topic).len() == 0 {
        free_topic_text()
    } else {
        topic
    }
}

/// The first topic of the catalogue whose title is `title`.
pub open spec fn find_topic(topics: Seq<TopicSpec>, title: Seq<char>) -> Option<TopicSpec>
    decreases topics.len(),
{
    if topics.len() == 0 {
        None
    } else if topics[0].title == title {
        Some(topics[0])
    } else {
        find_topic(topics.drop_first(), title)
    }
}

/// The grammar focus given to the tutor: the catalogue title with its
/// description (`title — description`) when the catalogue has the topic, or
/// the requested text as it is.
pub open spec fn grammar_focus(topics: Seq<TopicSpec>, grammar: Seq<char>) -> Seq<char> {
    match find_topic(topics, grammar) {
        Some(t) => if t.description.len() == 0 {
            t.title
        } else {
            t.title + " — "@ + t.description
        },
        None => grammar,
    }
}

/// The placeholder values of the primer: the configuration, with `TOPIC`,
/// `SKILL_LEVEL` and `GRAMMAR_FOCUS` set from the request.
pub open spec fn prompt_vars(
    config: Seq<EntrySpec>,
    topics: Seq<TopicSpec>,
    topic: Seq<char>,
    grammar: Seq<char>,
    skill_level: Seq<char>,
) -> Seq<EntrySpec> {
    upsert(
        upsert(upsert(config, "TOPIC"@, topic_text(topic)), "SKILL_LEVEL"@, skill_level),
        "GRAMMAR_FOCUS"@,
        grammar_focus(topics, grammar),
    )
}

/// The system primer of a chat request.
pub open spec fn system_prompt(
    template: Seq<char>,
    config: Seq<EntrySpec>,
    topics: Seq<TopicSpec>,
    topic: Seq<char>,
    grammar: Seq<char>,
    skill_level: Seq<char>,
) -> Seq<char> {
    render(template, prompt_vars(config, topics, topic, grammar, skill_level))
}

/// The primer's variables: `SKILL_LEVEL` is the requested level, whatever
/// the catalogue says of the grammar topic; `TOPIC` is the requested topic
/// (when it is not blank) and `GRAMMAR_FOCUS` the grammar focus; every other
/// key keeps its configured value.
pub proof fn lemma_prompt_vars(
    config: Seq<EntrySpec>,
    topics: Seq<TopicSpec>,
    topic: Seq<char>,
    grammar: Seq<char>,
    skill_level: Seq<char>,
    k: Seq<char>,
)
    ensures
        lookup(prompt_vars(config, topics, topic, grammar, skill_level), "SKILL_LEVEL"@) == Some(skill_level),
        trim(topic).len() > 0 ==> lookup(prompt_vars(config, topics, topic, grammar, skill_level), "TOPIC"@)
            == Some(topic),
        lookup(prompt_vars(config, topics, topic, grammar, skill_level), "GRAMMAR_FOCUS"@) == Some(
            grammar_focus(topics, grammar),
        ),
        k != "SKILL_LEVEL"@ && k != "TOPIC"@ && k != "GRAMMAR_FOCUS"@ ==> lookup(
            prompt_vars(config, topics, topic, grammar, skill_level),
            k,
        ) == lookup(config, k),
{
    reveal_strlit("SKILL_LEVEL");
    reveal_strlit("TOPIC");
    reveal_strlit("GRAMMAR_FOCUS");
    let v1 = upsert(config, "TOPIC"@, topic_text(topic));
    let v2 = upsert(v1, "SKILL_LEVEL"@, skill_level);
    assert("SKILL_LEVEL"@ != "GRAMMAR_FOCUS"@) by {
        assert("SKILL_LEVEL"@.len() != "GRAMMAR_FOCUS"@.len());
    }
    assert("TOPIC"@ != "GRAMMAR_FOCUS"@) by {
        assert("TOPIC"@.len() != "GRAMMAR_FOCUS"@.len());
    }
    assert("TOPIC"@ != "SKILL_LEVEL"@) by {
        assert("TOPIC"@.len() != "SKILL_LEVEL"@.len());
    }
    lemma_lookup_upsert(config, "TOPIC"@, topic_text(topic), k);
    lemma_lookup_upsert(v1, "SKILL_LEVEL"@, skill_level, k);
    lemma_lookup_upsert(v2, "GRAMMAR_FOCUS"@, grammar_focus(topics, grammar), k);
    lemma_lookup_upsert(v1, "SKILL_LEVEL"@, skill_level, "TOPIC"@);
    lemma_lookup_upsert(v2, "GRAMMAR_FOCUS"@, grammar_focus(topics, grammar), "SKILL_LEVEL"@);
    lemma_lookup_upsert(v2, "GRAMMAR_FOCUS"@, grammar_focus(topics, grammar), "TOPIC"@);
}

/// With a well-formed template and well-formed variables, the system primer
/// is the template with each placeholder filled from the primer's
/// variables; in particular `{{SKILL_LEVEL}}` becomes the requested level.
pub proof fn lemma_system_prompt_parts(
    ps: Seq<TemplatePart>,
    config: Seq<EntrySpec>,
    topics: Seq<TopicSpec>,
    topic: Seq<char>,
    grammar: Seq<char>,
    skill_level: Seq<char>,
)
    requires
        parts_wf(ps),
        vars_wf(prompt_vars(config, topics, topic, grammar, skill_level)),
    ensures
        system_prompt(join_parts(ps), config, topics, topic, grammar, skill_level) == join_parts(
            fill_parts(ps, prompt_vars(config, topics, topic, grammar, skill_level)),
        ),
        fill_part(TemplatePart::Hole("SKILL_LEVEL"@), prompt_vars(config, topics, topic, grammar, skill_level))
            == TemplatePart::Text(skill_level),
{
    lemma_render_parts(ps, prompt_vars(config, topics, topic, grammar, skill_level));
    lemma_prompt_vars(config, topics, topic, grammar, skill_level, "SKILL_LEVEL"@);
}

/// The grammar focus for `grammar`, from the catalogue.
fn focus_text(topics: &Vec<GrammarTopic>, grammar: &String) -> (res: Vec<char>)
    ensures
        res@ == grammar_focus(topics_view(topics@), grammar@),
{
    let ghost tv = topics_view(topics@);
    let n = topics.len();
    assert(tv.skip(0) == tv);
    for i in 0..n
        invariant
            n == topics@.len(),
            tv == topics_view(topics@),
            find_topic(tv, grammar@) == find_topic(tv.skip(i as int), grammar@),
    {
        assert(tv.skip(i as int)[0] == topics@[i as int]@);
        assert(tv.skip(i as int).drop_first() == tv.skip(i + 1));
        if topics[i].title == *grammar {
            let t = &topics[i];
            let mut out = chars_of(t.title.as_str());
            if !t.description.as_str().is_empty() {
                extend_str(&mut out, " — ");
                extend_str(&mut out, t.description.as_str());
            }
            return out;
        }
    }
    chars_of(grammar.as_str())
}

/// Builds the system primer from the template, the configuration and the
/// request: `TOPIC` is the requested topic (or, when blank, an instruction to
/// choose one), `SKILL_LEVEL` the requested level, and `GRAMMAR_FOCUS` the
/// requested grammar topic with its catalogue description.
pub fn build_system_prompt(state: &TutorState, req: &ChatRequest) -> (res: String)
    ensures
        res@ == system_prompt(
            state.tutor_template@,
            state.config@,
            topics_view(state.grammar_topics@),
            req.topic@,
            req.grammar@,
            req.skill_level@,
        ),
{
    let mut vars = state.config.copy();
    let tc = chars_of(req.topic.as_str());
    let trimmed = trim_chars(&tc);
    let topic = if trimmed.len() == 0 {
        "choisis toi-même un sujet adapté au niveau et au point de grammaire, puis annonce-le au début de la conversation".to_string()
    } else {
        req.topic.clone()
    };
    vars.set("TOPIC", topic.as_str());
    vars.set("SKILL_LEVEL", req.skill_level.as_str());
    let focus = string_of(&focus_text(&state.grammar_topics, &req.grammar));
    vars.set("GRAMMAR_FOCUS", focus.as_str());
    render_template(state.tutor_template.as_str(), &vars)
}

/// A copy of a message.
fn copy_message(m: &ChatMessage) -> (res: ChatMessage)
    ensures
        res@ == m@,
{
    ChatMessage { role: m.role.clone(), content: m.content.clone() }
}

/// The address of the chat endpoint of the model server.
pub open spec fn chat_endpoint(server: Seq<char>) -> Seq<char> {
    server + "/api/chat"@
}

fn chat_url(server: &String) -> (res: String)
    ensures
        res@ == chat_endpoint(server@),
{
    let mut u = chars_of(server.as_str());
    extend_str(&mut u, "/api/chat");
    string_of(&u)
}

/// The request for the tutor's next turn: the system primer first, then the
/// conversation so far, for the configured model.
pub fn chat_request(state: &TutorState, req: &ChatRequest) -> (res: ModelRequest)
    ensures
        res.url@ == chat_endpoint(state.ollama_url@),
        res.model@ == state.model@,
        messages_view(res.messages@) == seq![
            (
                "system"@,
                system_prompt(
                    state.tutor_template@,
                    state.config@,
                    topics_view(state.grammar_topics@),
                    req.topic@,
                    req.grammar@,
                    req.skill_level@,
                ),
            ),
        ] + messages_view(req.messages@),
{
    let system = build_system_prompt(state, req);
    let mut messages: Vec<ChatMessage> = Vec::new();
    let first = ChatMessage { role: "system".to_string(), content: system };
    messages.push(first);
    let n = req.messages.len();
    let ghost head = seq![first@];
    assert(messages_view(messages@) =~= head);
    for i in 0..n
        invariant
            n == req.messages@.len(),
            messages_view(messages@) == head + messages_view(req.messages@).take(i as int),
    {
        let m = copy_message(&req.messages[i]);
        let ghost before = messages@;
        messages.push(m);
        assert(messages_view(messages@) =~= messages_view(before).push(m@));
        assert(messages_view(req.messages@).take(i + 1) =~= messages_view(req.messages@).take(
            i as int,
        ).push(m@));
    }
    assert(messages_view(req.messages@).take(n as int) =~= messages_view(req.messages@));
    ModelRequest { url: chat_url(&state.ollama_url), model: state.model.clone(), messages }
}

/// The system instruction for rendering text from language `from` into `to`.
pub open spec fn translation_instruction(from: Seq<char>, to: Seq<char>) -> Seq<char> {
    "You are a translation engine. Translate the user's text from "@ + from + " to "@ + to
        + ". Output only the translation in "@ + to
        + ", with no explanations, notes, or quotation marks."@
}

/// The configured explanation language, German by default.
pub open spec fn explanation_language_of(config: Seq<EntrySpec>) -> Seq<char> {
    match lookup(config, "EXPLANATION_LANGUAGE"@) {
        Some(v) => v,
        None => "German"@,
    }
}

/// The configured learning language, French by default.
pub open spec fn learning_language_of(config: Seq<EntrySpec>) -> Seq<char> {
    match lookup(config, "LEARNING_LANGUAGE"@) {
        Some(v) => v,
        None => "French"@,
    }
}

/// The request that translates `text`: from the explanation language into
/// the learning language, or the other way round when `reverse` is set.
pub fn translation_request(state: &TutorState, text: &str, reverse: bool) -> (res: ModelRequest)
    ensures
        res.url@ == chat_endpoint(state.ollama_url@),
        res.model@ == state.model@,
        messages_view(res.messages@) == seq![
            (
                "system"@,
                if reverse {
                    translation_instruction(
                        learning_language_of(state.config@),
                        explanation_language_of(state.config@),
                    )
                } else {
                    translation_instruction(
                        explanation_language_of(state.config@),
                        learning_language_of(state.config@),
                    )
                },
            ),
            ("user"@, text@),
        ],
{
    let explanation = explanation_language(&state.config);
    let learning = learning_language(&state.config);
    let (from, to) = if reverse {
        (learning, explanation)
    } else {
        (explanation, learning)
    };
    let mut sys = chars_of("You are a translation engine. Translate the user's text from ");
    extend_str(&mut sys, from.as_str());
    extend_str(&mut sys, " to ");
    extend_str(&mut sys, to.as_str());
    extend_str(&mut sys, ". Output only the translation in ");
    extend_str(&mut sys, to.as_str());
    extend_str(&mut sys, ", with no explanations, notes, or quotation marks.");
    let m1 = ChatMessage { role: "system".to_string(), content: string_of(&sys) };
    let m2 = ChatMessage { role: "user".to_string(), content: text.to_string() };
    let mut messages: Vec<ChatMessage> = Vec::new();
    messages.push(m1);
    messages.push(m2);
    assert(messages_view(messages@) =~= seq![m1@, m2@]);
    ModelRequest { url: chat_url(&state.ollama_url), model: state.model.clone(), messages }
}

} // verus!
