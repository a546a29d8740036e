//! What the tutor writes to disk: the file name and text of a saved
//! dialogue, and the file, header and row of a vocabulary entry. The caller
//! does the writing.

use vstd::prelude::*;
use crate::config::{explanation_language, learning_language, Config};
use crate::prompt::{explanation_language_of, learning_language_of, messages_view, ChatMessage, MessageSpec};
use crate::text::{
    chars_of, contains_char, extend_chars, extend_str, is_ws, string_of, strip_end, strip_end_chars, strip_start,
    strip_start_chars, trim, trim_chars, trim_end, trim_start,
};

verus! {

/// `c` is an ASCII letter or digit.
pub open spec fn is_ascii_alnum(c: char) -> bool {
    ('a' <= c && c <= 'z') || ('A' <= c && c <= 'Z') || ('0' <= c && c <= '9')
}

/// `c` in ASCII lower case.
pub open spec fn ascii_lower(c: char) -> char {
    if 'A' <= c && c <= 'Z' {
        ((c as u32) + 32) as char
    } else {
        c
    }
}

/// A slug keeps ASCII letters (in lower case) and digits; every other
/// character becomes `-`.
pub open spec fn slug_char(c: char) -> char {
    if is_ascii_alnum(c) {
        ascii_lower(c)
    } else {
        '-'
    }
}

/// `s` with each run of `-` shortened to a single `-`.
pub open spec fn collapse_dashes(s: Seq<char>) -> Seq<char>
    decreases s.len(),
{
    if s.len() < 2 {
        s
    } else if s[0] == '-' && s[1] == '-' {
        collapse_dashes(s.drop_first())
    } else {
        seq![s[0]] + collapse_dashes(s.drop_first())
    }
}

/// The slug of `s`: trimmed, mapped by `slug_char`, runs of `-` collapsed,
/// `-` removed from both ends; `untitled` when nothing is left.
pub open spec fn slug(s: Seq<char>) -> Seq<char> {
    let x = strip_end(strip_start(collapse_dashes(trim(s).map_values(|c: char| slug_char(c))), '-'), '-');
    if x.len() == 0 {
        "untitled"@
    } else {
        x
    }
}

fn slug_char_of(c: char) -> (res: char)
    ensures
        res == slug_char(c),
{
    if 'A' <= c && c <= 'Z' {
        let b = c as u8;
        assert(b as u32 == c as u32);
        ((b + 32) as char)
    } else if ('a' <= c && c <= 'z') || ('0' <= c && c <= '9') {
        c
    } else {
        '-'
    }
}

fn collapse_chars(s: &Vec<char>) -> (res: Vec<char>)
    ensures
        res@ == collapse_dashes(s@),
{
    let mut out: Vec<char> = Vec::new();
    let n = s.len();
    assert(s@.skip(0) == s@);
    for i in 0..n
        invariant
            n == s@.len(),
            collapse_dashes(s@) == out@ + collapse_dashes(s@.skip(i as int)),
    {
        let ghost o = out@;
        let ghost rest = s@.skip(i as int);
        assert(rest.drop_first() == s@.skip(i + 1));
        assert(rest[0] == s@[i as int]);
        if i + 1 < n && s[i] == '-' && s[i + 1] == '-' {
            assert(rest[1] == s@[i + 1]);
        } else {
            out.push(s[i]);
            if i + 1 < n {
                assert(rest[1] == s@[i + 1]);
            } else {
                assert(rest =~= seq![s@[i as int]]);
                assert(s@.skip(i + 1).len() == 0);
            }
            assert(o + (seq![s@[i as int]] + collapse_dashes(s@.skip(i + 1))) =~= out@ + collapse_dashes(
                s@.skip(i + 1),
            ));
        }
    }
    assert(s@.skip(n as int).len() == 0);
    assert(out@ + s@.skip(n as int) =~= out@);
    out
}

/// Turns `input` into a file-name-safe slug: ASCII letters and digits (in
/// lower case) stay, every other character becomes `-`, runs of `-` become
/// one, and `-` at either end is dropped; `untitled` when nothing is left.
pub fn slugify(input: &str) -> (res: String)
    ensures
        res@ == slug(input@),
        is_slug(res@),
{
    let cs = chars_of(input);
    let t = trim_chars(&cs);
    let mut mapped: Vec<char> = Vec::new();
    let n = t.len();
    for i in 0..n
        invariant
            n == t@.len(),
            mapped@ == t@.take(i as int).map_values(|c: char| slug_char(c)),
    {
        mapped.push(slug_char_of(t[i]));
        assert(t@.take(i + 1).map_values(|c: char| slug_char(c)) =~= t@.take(i as int).map_values(
            |c: char| slug_char(c),
        ).push(slug_char(t@[i as int])));
    }
    assert(t@.take(n as int) =~= t@);
    let collapsed = collapse_chars(&mapped);
    let a = strip_start_chars(&collapsed, '-');
    let b = strip_end_chars(&a, '-');
    proof {
        lemma_slug_shape(input@);
    }
    if b.len() == 0 {
        "untitled".to_string()
    } else {
        string_of(&b)
    }
}

/// `s` is a slug: non-empty, made of ASCII lower-case letters, digits and
/// `-`, with no `--` and no `-` at either end.
pub open spec fn is_slug(s: Seq<char>) -> bool {
    &&& s.len() > 0
    &&& forall|i: int| 0 <= i < s.len() ==> #[trigger] slug_alphabet(s[i])
    &&& forall|i: int| 0 <= i < s.len() - 1 ==> !(#[trigger] s[i] == '-' && s[i + 1] == '-')
    &&& s[0] != '-'
    &&& s.last() != '-'
}

/// `c` may stand in a slug.
pub open spec fn slug_alphabet(c: char) -> bool {
    ('a' <= c && c <= 'z') || ('0' <= c && c <= '9') || c == '-'
}

proof fn lemma_collapse_shape(s: Seq<char>)
    requires
        forall|i: int| 0 <= i < s.len() ==> #[trigger] slug_alphabet(s[i]),
    ensures
        forall|i: int| 0 <= i < collapse_dashes(s).len() ==> #[trigger] slug_alphabet(collapse_dashes(s)[i]),
        forall|i: int|
            0 <= i < collapse_dashes(s).len() - 1 ==> !(#[trigger] collapse_dashes(s)[i] == '-'
                && collapse_dashes(s)[i + 1] == '-'),
        collapse_dashes(s).len() > 0 ==> collapse_dashes(s)[0] == s[0] || (s[0] == '-' && collapse_dashes(s)[0] == '-'),
        collapse_dashes(s).len() <= s.len(),
        s.len() > 0 ==> collapse_dashes(s).len() > 0,
    decreases s.len(),
{
    if s.len() >= 2 {
        let d = s.drop_first();
        assert forall|i: int| 0 <= i < d.len() implies #[trigger] slug_alphabet(d[i]) by {
            assert(d[i] == s[i + 1]);
        }
        lemma_collapse_shape(d);
        let cd = collapse_dashes(d);
        if !(s[0] == '-' && s[1] == '-') {
            let r = seq![s[0]] + cd;
            assert forall|i: int| 0 <= i < r.len() implies #[trigger] slug_alphabet(r[i]) by {
                if i > 0 {
                    assert(r[i] == cd[i - 1]);
                }
            }
            assert(cd[0] == d[0] || (d[0] == '-' && cd[0] == '-'));
            assert forall|i: int| 0 <= i < r.len() - 1 implies !(#[trigger] r[i] == '-' && r[i + 1] == '-') by {
                if i > 0 {
                    assert(r[i] == cd[i - 1]);
                    assert(r[i + 1] == cd[i]);
                } else {
                    assert(r[1] == cd[0]);
                }
            }
        }
    }
}

proof fn lemma_strip_start_shape(s: Seq<char>)
    ensures
        strip_start(s, '-').len() > 0 ==> strip_start(s, '-')[0] != '-',
        s.len() >= strip_start(s, '-').len(),
        s.skip(s.len() - strip_start(s, '-').len()) == strip_start(s, '-'),
    decreases s.len(),
{
    if s.len() > 0 && s[0] == '-' {
        lemma_strip_start_shape(s.drop_first());
        let r = strip_start(s, '-');
        assert(s.drop_first().skip(s.drop_first().len() - r.len()) == s.skip(s.len() - r.len()));
    } else {
        assert(s.skip(0) == s);
    }
}

proof fn lemma_strip_end_shape(s: Seq<char>)
    ensures
        strip_end(s, '-').len() > 0 ==> strip_end(s, '-').last() != '-',
        s.len() >= strip_end(s, '-').len(),
        s.take(strip_end(s, '-').len() as int) == strip_end(s, '-'),
    decreases s.len(),
{
    if s.len() > 0 && s.last() == '-' {
        lemma_strip_end_shape(s.drop_last());
        let r = strip_end(s, '-');
        assert(s.drop_last().take(r.len() as int) == s.take(r.len() as int));
    } else {
        assert(s.take(s.len() as int) == s);
    }
}

/// Every slug has the shape of a slug: non-empty, made of ASCII lower-case
/// letters, digits and `-`, with no `--` and no `-` at either end.
pub proof fn lemma_slug_shape(s: Seq<char>)
    ensures
        is_slug(slug(s)),
{
    let m = trim(s).map_values(|c: char| slug_char(c));
    assert forall|i: int| 0 <= i < m.len() implies #[trigger] slug_alphabet(m[i]) by {
        let c = trim(s)[i];
        if 'A' <= c && c <= 'Z' {
            assert(((c as u32) + 32) as char >= 'a');
        }
    }
    lemma_collapse_shape(m);
    let c = collapse_dashes(m);
    let a = strip_start(c, '-');
    lemma_strip_start_shape(c);
    let b = strip_end(a, '-');
    lemma_strip_end_shape(a);
    if b.len() > 0 {
        let off = c.len() - a.len();
        assert forall|i: int| 0 <= i < b.len() implies #[trigger] slug_alphabet(b[i]) by {
            assert(b[i] == a[i]);
            assert(a[i] == c[off + i]);
        }
        assert forall|i: int| 0 <= i < b.len() - 1 implies !(#[trigger] b[i] == '-' && b[i + 1] == '-') by {
            assert(b[i] == a[i]);
            assert(b[i + 1] == a[i + 1]);
            assert(a[i] == c[off + i]);
            assert(a[i + 1] == c[off + i + 1]);
        }
        assert(b[0] == a[0]);
    } else {
        reveal_strlit("untitled");
        let u = "untitled"@;
        assert forall|i: int| 0 <= i < u.len() implies #[trigger] slug_alphabet(u[i]) by {}
        assert forall|i: int| 0 <= i < u.len() - 1 implies !(#[trigger] u[i] == '-' && u[i + 1] == '-') by {}
    }
}

/// A slug is its own slug.
proof fn lemma_slug_fixed(x: Seq<char>)
    requires
        is_slug(x),
    ensures
        slug(x) == x,
{
    assert(!is_ws(x[0]) && !is_ws(x.last())) by {
        assert(slug_alphabet(x[0]));
        assert(slug_alphabet(x[x.len() - 1]));
    }
    assert(trim_start(x) == x);
    assert(trim_end(x) == x);
    let m = x.map_values(|c: char| slug_char(c));
    assert(m =~= x) by {
        assert forall|i: int| 0 <= i < x.len() implies m[i] == x[i] by {
            assert(slug_alphabet(x[i]));
        }
    }
    lemma_collapse_no_pairs(x);
    assert(strip_start(x, '-') == x);
    assert(strip_end(x, '-') == x);
}

proof fn lemma_collapse_no_pairs(s: Seq<char>)
    requires
        forall|i: int| 0 <= i < s.len() - 1 ==> !(#[trigger] s[i] == '-' && s[i + 1] == '-'),
    ensures
        collapse_dashes(s) == s,
    decreases s.len(),
{
    if s.len() >= 2 {
        let d = s.drop_first();
        assert forall|i: int| 0 <= i < d.len() - 1 implies !(#[trigger] d[i] == '-' && d[i + 1] == '-') by {
            assert(d[i] == s[i + 1]);
            assert(d[i + 1] == s[i + 2]);
        }
        lemma_collapse_no_pairs(d);
        assert(!(s[0] == '-' && s[1] == '-'));
        assert(seq![s[0]] + d =~= s);
    }
}

/// Slugifying twice gives the same as slugifying once.
pub proof fn lemma_slug_idempotent(s: Seq<char>)
    ensures
        slug(slug(s)) == slug(s),
{
    lemma_slug_shape(s);
    lemma_slug_fixed(slug(s));
}

/// `c` in ASCII upper case.
pub open spec fn ascii_upper(c: char) -> char {
    if 'a' <= c && c <= 'z' {
        ((c as u32) - 32) as char
    } else {
        c
    }
}

/// Dropping leading white space commutes with a map that keeps white space
/// and only white space white.
proof fn lemma_trim_start_map(s: Seq<char>, f: spec_fn(char) -> char)
    requires
        forall|c: char| #[trigger] is_ws(f(c)) == is_ws(c),
    ensures
        trim_start(s.map_values(f)) == trim_start(s).map_values(f),
    decreases s.len(),
{
    let m = s.map_values(f);
    if s.len() > 0 {
        assert(m[0] == f(s[0]));
        assert(is_ws(f(s[0])) == is_ws(s[0]));
        if is_ws(s[0]) {
            assert(m.drop_first() =~= s.drop_first().map_values(f));
            lemma_trim_start_map(s.drop_first(), f);
        }
    }
}

/// Dropping trailing white space commutes with such a map.
proof fn lemma_trim_end_map(s: Seq<char>, f: spec_fn(char) -> char)
    requires
        forall|c: char| #[trigger] is_ws(f(c)) == is_ws(c),
    ensures
        trim_end(s.map_values(f)) == trim_end(s).map_values(f),
    decreases s.len(),
{
    let m = s.map_values(f);
    if s.len() > 0 {
        assert(m.last() == f(s.last()));
        assert(is_ws(f(s.last())) == is_ws(s.last()));
        if is_ws(s.last()) {
            assert(m.drop_last() =~= s.drop_last().map_values(f));
            lemma_trim_end_map(s.drop_last(), f);
        }
    }
}

/// The slug of `s` is the slug of any text that differs from `s` only in
/// characters that a map `f` changes without changing white space or the
/// slug character.
proof fn lemma_slug_map(s: Seq<char>, f: spec_fn(char) -> char)
    requires
        forall|c: char| #[trigger] is_ws(f(c)) == is_ws(c),
        forall|c: char| #[trigger] slug_char(f(c)) == slug_char(c),
    ensures
        slug(s.map_values(f)) == slug(s),
{
    lemma_trim_start_map(s, f);
    lemma_trim_end_map(trim_start(s), f);
    let t = trim(s);
    assert(trim(s.map_values(f)) == t.map_values(f));
    assert(t.map_values(f).map_values(|c: char| slug_char(c)) =~= t.map_values(|c: char| slug_char(c)));
}

/// Upper- or lower-casing ASCII letters does not change the slug.
pub proof fn lemma_slug_ascii_case(s: Seq<char>)
    ensures
        slug(s.map_values(|c: char| ascii_upper(c))) == slug(s),
        slug(s.map_values(|c: char| ascii_lower(c))) == slug(s),
{
    let up = |c: char| ascii_upper(c);
    let low = |c: char| ascii_lower(c);
    assert forall|c: char| #[trigger] is_ws(up(c)) == is_ws(c) by {}
    assert forall|c: char| #[trigger] slug_char(up(c)) == slug_char(c) by {}
    assert forall|c: char| #[trigger] is_ws(low(c)) == is_ws(c) by {}
    assert forall|c: char| #[trigger] slug_char(low(c)) == slug_char(c) by {}
    lemma_slug_map(s, up);
    lemma_slug_map(s, low);
}

/// The character of the decimal digit `d` (`d < 10`).
pub open spec fn digit_char(d: nat) -> char {
    (('0' as u32) + (d as u32)) as char
}

/// `n` written in decimal, without leading zeros.
pub open spec fn decimal(n: nat) -> Seq<char>
    decreases n,
{
    if n < 10 {
        seq![digit_char(n)]
    } else {
        decimal(n / 10).push(digit_char(n % 10))
    }
}

fn decimal_chars(n: u64) -> (res: Vec<char>)
    ensures
        res@ == decimal(n as nat),
    decreases n,
{
    let d = (n % 10) as u8;
    let c = ((48u8 + d) as char);
    assert(c == digit_char((n % 10) as nat));
    if n < 10 {
        let mut v: Vec<char> = Vec::new();
        v.push(c);
        assert(v@ =~= seq![c]);
        v
    } else {
        let mut v = decimal_chars(n / 10);
        v.push(c);
        v
    }
}

/// A request to save the dialogue of a session.
pub struct DialogueRequest {
    pub topic: String,
    pub grammar: String,
    pub skill_level: String,
    pub messages: Vec<ChatMessage>,
}

/// The file, relative to the base directory, that a dialogue is saved to:
/// `dialogues/<topic>-<grammar>-<level>-<timestamp>.md`, each part slugified.
pub open spec fn dialogue_path(topic: Seq<char>, grammar: Seq<char>, skill_level: Seq<char>, ts: nat) -> Seq<char> {
    "dialogues/"@ + slug(topic) + "-"@ + slug(grammar) + "-"@ + slug(skill_level) + "-"@ + decimal(ts)
        + ".md"@
}

/// The file a dialogue is saved to, for the time `timestamp` (seconds since
/// the Unix epoch).
pub fn dialogue_file_name(req: &DialogueRequest, timestamp: u64) -> (res: String)
    ensures
        res@ == dialogue_path(req.topic@, req.grammar@, req.skill_level@, timestamp as nat),
{
    let mut out = chars_of("dialogues/");
    extend_str(&mut out, slugify(req.topic.as_str()).as_str());
    extend_str(&mut out, "-");
    extend_str(&mut out, slugify(req.grammar.as_str()).as_str());
    extend_str(&mut out, "-");
    extend_str(&mut out, slugify(req.skill_level.as_str()).as_str());
    extend_str(&mut out, "-");
    let digits = decimal_chars(timestamp);
    extend_chars(&mut out, &digits);
    extend_str(&mut out, ".md");
    string_of(&out)
}

/// Who spoke a message, as the transcript writes it.
pub open spec fn speaker(role: Seq<char>) -> Seq<char> {
    if role == "user"@ {
        "**Thorsten**"@
    } else {
        "**Amelie**"@
    }
}

/// The transcript of the messages: one paragraph `<speaker>: <content>` each.
pub open spec fn transcript(ms: Seq<MessageSpec>) -> Seq<char>
    decreases ms.len(),
{
    if ms.len() == 0 {
        Seq::empty()
    } else {
        transcript(ms.drop_last()) + speaker(ms.last().0) + ": "@ + ms.last().1 + "\n\n"@
    }
}

/// The markdown of a saved dialogue: a heading with the topic (`Sujet libre`
/// when it is blank), the grammar focus and level, a rule, then the
/// transcript.
pub open spec fn dialogue_text(topic: Seq<char>, grammar: Seq<char>, skill_level: Seq<char>, ms: Seq<MessageSpec>) -> Seq<char> {
    "# "@ + (if trim(topic).len() == 0 {
        "Sujet libre"@
    } else {
        topic
    }) + "\n\n"@ + "- Grammaire: "@ + grammar + "\n- Niveau: "@ + skill_level + "\n\n---\n\n"@ + transcript(ms)
}

/// Adding a message to a saved dialogue adds one paragraph at the end:
/// `**Thorsten**` when the message's role is `user`, `**Amelie**` for any
/// other role, then `: `, the content and a blank line. The speaker depends
/// on the role alone, not on where the message stands.
pub proof fn lemma_dialogue_push(
    topic: Seq<char>,
    grammar: Seq<char>,
    skill_level: Seq<char>,
    ms: Seq<MessageSpec>,
    m: MessageSpec,
)
    ensures
        dialogue_text(topic, grammar, skill_level, ms.push(m)) == dialogue_text(topic, grammar, skill_level, ms)
            + (if m.0 == "user"@ {
            "**Thorsten**"@
        } else {
            "**Amelie**"@
        }) + ": "@ + m.1 + "\n\n"@,
{
    assert(ms.push(m).drop_last() =~= ms);
    assert(ms.push(m).last() == m);
    let head = "# "@ + (if trim(topic).len() == 0 {
        "Sujet libre"@
    } else {
        topic
    }) + "\n\n"@ + "- Grammaire: "@ + grammar + "\n- Niveau: "@ + skill_level + "\n\n---\n\n"@;
    let para = speaker(m.0) + ": "@ + m.1 + "\n\n"@;
    assert(head + (transcript(ms) + para) =~= (head + transcript(ms)) + speaker(m.0) + ": "@ + m.1 + "\n\n"@);
}

/// The transcript of a conversation is the transcript of its first part
/// followed by that of the rest: each message's paragraph depends on that
/// message alone.
pub proof fn lemma_transcript_concat(a: Seq<MessageSpec>, b: Seq<MessageSpec>)
    ensures
        transcript(a + b) == transcript(a) + transcript(b),
    decreases b.len(),
{
    if b.len() == 0 {
        assert(a + b =~= a);
        assert(transcript(a) + Seq::<char>::empty() =~= transcript(a));
    } else {
        lemma_transcript_concat(a, b.drop_last());
        assert((a + b).drop_last() =~= a + b.drop_last());
        assert((a + b).last() == b.last());
        let m = b.last();
        let para = speaker(m.0) + ": "@ + m.1 + "\n\n"@;
        assert(transcript(a + b) == transcript(a + b.drop_last()) + speaker(m.0) + ": "@ + m.1 + "\n\n"@);
        assert(transcript(b) == transcript(b.drop_last()) + speaker(m.0) + ": "@ + m.1 + "\n\n"@);
        assert((transcript(a) + transcript(b.drop_last())) + speaker(m.0) + ": "@ + m.1 + "\n\n"@ =~= transcript(a)
            + (transcript(b.drop_last()) + speaker(m.0) + ": "@ + m.1 + "\n\n"@));
    }
}

/// The markdown text of a saved dialogue.
pub fn dialogue_markdown(req: &DialogueRequest) -> (res: String)
    ensures
        res@ == dialogue_text(req.topic@, req.grammar@, req.skill_level@, messages_view(req.messages@)),
{
    let mut out = chars_of("# ");
    let tc = chars_of(req.topic.as_str());
    let t = trim_chars(&tc);
    if t.len() == 0 {
        extend_str(&mut out, "Sujet libre");
    } else {
        extend_str(&mut out, req.topic.as_str());
    }
    extend_str(&mut out, "\n\n");
    extend_str(&mut out, "- Grammaire: ");
    extend_str(&mut out, req.grammar.as_str());
    extend_str(&mut out, "\n- Niveau: ");
    extend_str(&mut out, req.skill_level.as_str());
    extend_str(&mut out, "\n\n---\n\n");
    let ghost head = out@;
    let user = "user".to_string();
    let n = req.messages.len();
    assert(messages_view(req.messages@).take(0) =~= Seq::<MessageSpec>::empty());
    assert(head + transcript(Seq::<MessageSpec>::empty()) =~= head);
    for i in 0..n
        invariant
            n == req.messages@.len(),
            user@ == "user"@,
            out@ == head + transcript(messages_view(req.messages@).take(i as int)),
    {
        let m = &req.messages[i];
        if m.role == user {
            extend_str(&mut out, "**Thorsten**");
        } else {
            extend_str(&mut out, "**Amelie**");
        }
        extend_str(&mut out, ": ");
        extend_str(&mut out, m.content.as_str());
        extend_str(&mut out, "\n\n");
        let ghost ms = messages_view(req.messages@);
        assert(ms.take(i + 1).drop_last() =~= ms.take(i as int));
        assert(ms.take(i + 1).last() == m@);
    }
    assert(messages_view(req.messages@).take(n as int) =~= messages_view(req.messages@));
    string_of(&out)
}

/// Why a vocabulary pair was refused.
pub enum VocabError {
    /// One of the two words is blank.
    MissingWord,
    /// A word holds `:`, the field separator of the vocabulary file.
    ColonInWord,
}

impl VocabError {
    /// The message shown to the user.
    pub fn message(&self) -> (res: String)
        ensures
            res@ == match self {
                VocabError::MissingWord => "both words are required"@,
                VocabError::ColonInWord => "words must not contain ':'"@,
            },
    {
        match self {
            VocabError::MissingWord => "both words are required".to_string(),
            VocabError::ColonInWord => "words must not contain ':'".to_string(),
        }
    }
}

/// What saving a vocabulary pair writes: the file (relative to the base
/// directory), the header line written when the file is new, and the row.
pub struct VocabEntry {
    pub file_name: String,
    pub header: String,
    pub row: String,
}

/// The vocabulary file for a pair of languages:
/// `vocab/<explanation>_<learning>.csv`.
pub open spec fn vocab_path(explanation: Seq<char>, learning: Seq<char>) -> Seq<char> {
    "vocab/"@ + explanation + "_"@ + learning + ".csv"@
}

/// Prepares saving the pair (`explanation`, `learning`), both trimmed, to
/// the vocabulary file of the configured languages, which separates fields
/// by `:`. A blank word is refused first, then a word holding `:`.
pub fn vocab_entry(config: &Config, explanation: &str, learning: &str) -> (res: Result<VocabEntry, VocabError>)
    ensures
        ({
            let e = trim(explanation@);
            let l = trim(learning@);
            let el = explanation_language_of(config@);
            let ll = learning_language_of(config@);
            if e.len() == 0 || l.len() == 0 {
                res matches Err(VocabError::MissingWord)
            } else if e.contains(':') || l.contains(':') {
                res matches Err(VocabError::ColonInWord)
            } else {
                res matches Ok(v) && v.file_name@ == vocab_path(el, ll) && v.header@ == el + ":"@ + ll
                    + "\n"@ && v.row@ == e + ":"@ + l + "\n"@
            }
        }),
{
    let el = explanation_language(config);
    let ll = learning_language(config);
    let ec = chars_of(explanation);
    let lc = chars_of(learning);
    let e = trim_chars(&ec);
    let l = trim_chars(&lc);
    if e.len() == 0 || l.len() == 0 {
        return Err(VocabError::MissingWord);
    }
    if contains_char(&e, ':') || contains_char(&l, ':') {
        return Err(VocabError::ColonInWord);
    }
    let mut file = chars_of("vocab/");
    extend_str(&mut file, el.as_str());
    extend_str(&mut file, "_");
    extend_str(&mut file, ll.as_str());
    extend_str(&mut file, ".csv");
    let mut header = chars_of(el.as_str());
    extend_str(&mut header, ":");
    extend_str(&mut header, ll.as_str());
    extend_str(&mut header, "\n");
    let mut row = e;
    extend_str(&mut row, ":");
    extend_chars(&mut row, &l);
    extend_str(&mut row, "\n");
    Ok(VocabEntry { file_name: string_of(&file), header: string_of(&header), row: string_of(&row) })
}

} // verus!
