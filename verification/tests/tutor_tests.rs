use tutor::args::{parse_base_dir, ArgError};
use tutor::config::{explanation_language, learning_language, model_name, server_url, Config};
use tutor::grammar::{all_titles, group_by_level, parse_grammar_topics, GrammarTopic};
use tutor::persist::{dialogue_file_name, dialogue_markdown, slugify, vocab_entry, DialogueRequest, VocabError};
use tutor::prompt::{
    build_system_prompt, chat_request, render_template, translation_request, ChatMessage, ChatRequest,
    TutorState,
};
use tutor::stream::{connection_error, reply_events, ReplyFields, ReplyStream, StreamEvent};

fn strings(v: &[&str]) -> Vec<String> {
    v.iter().map(|s| s.to_string()).collect()
}

fn config_of(pairs: &[(&str, &str)]) -> Config {
    let mut c = Config::new();
    for (k, v) in pairs {
        c.set(k, v);
    }
    c
}

fn topic(title: &str, description: &str, level: &str) -> GrammarTopic {
    GrammarTopic {
        title: title.to_string(),
        description: description.to_string(),
        skill_level: level.to_string(),
    }
}

fn msg(role: &str, content: &str) -> ChatMessage {
    ChatMessage { role: role.to_string(), content: content.to_string() }
}

fn describe(events: &[StreamEvent]) -> Vec<String> {
    events
        .iter()
        .map(|e| match e {
            StreamEvent::Token(p) => format!("data:{}", p),
            StreamEvent::Done => "done".to_string(),
            StreamEvent::Error(m) => format!("error:{}", m),
        })
        .collect()
}

// ---------------------------------------------------------------- arguments

#[test]
fn base_dir_defaults_to_current_directory() {
    assert_eq!(parse_base_dir(&strings(&[])).ok().unwrap(), ".");
}

#[test]
fn base_dir_positional_and_flags() {
    assert_eq!(parse_base_dir(&strings(&["data"])).ok().unwrap(), "data");
    assert_eq!(parse_base_dir(&strings(&["--dir", "a/b"])).ok().unwrap(), "a/b");
    assert_eq!(parse_base_dir(&strings(&["-d", "x"])).ok().unwrap(), "x");
    assert_eq!(parse_base_dir(&strings(&["--dir=/srv/tutor"])).ok().unwrap(), "/srv/tutor");
    assert_eq!(parse_base_dir(&strings(&["--dir="])).ok().unwrap(), "");
}

#[test]
fn base_dir_last_choice_wins() {
    assert_eq!(parse_base_dir(&strings(&["one", "--dir", "two", "three"])).ok().unwrap(), "three");
    assert_eq!(parse_base_dir(&strings(&["-d", "-x"])).ok().unwrap(), "-x");
}

#[test]
fn base_dir_missing_value() {
    let e = parse_base_dir(&strings(&["data", "--dir"])).err().unwrap();
    assert!(matches!(e, ArgError::MissingDirValue));
    assert_eq!(e.message(), "--dir requires a path argument");
    assert!(matches!(parse_base_dir(&strings(&["-d"])), Err(ArgError::MissingDirValue)));
}

#[test]
fn base_dir_unknown_argument() {
    let e = parse_base_dir(&strings(&["--verbose", "data"])).err().unwrap();
    match &e {
        ArgError::UnknownArgument(a) => assert_eq!(a, "--verbose"),
        _ => panic!("expected an unknown argument"),
    }
    assert_eq!(e.message(), "unknown argument: --verbose");
    assert!(matches!(parse_base_dir(&strings(&["-"])), Err(ArgError::UnknownArgument(_))));
}

// ------------------------------------------------------------ configuration

const README_CONFIG: &str = "model: gemma-4:31\nTUTOR: Amelie\nTUTOR_GENDER: female\nUSER: Thorsten\nEXPLANATION_LANGUAGE: German\nLEARNING_LANGUAGE: French\n";

#[test]
fn config_reads_yaml_mapping() {
    let c = Config::from_yaml(README_CONFIG).ok().unwrap();
    assert_eq!(c.get("model").unwrap(), "gemma-4:31");
    assert_eq!(c.get("USER").unwrap(), "Thorsten");
    assert_eq!(c.get("LEARNING_LANGUAGE").unwrap(), "French");
    assert!(c.get("OLLAMA_URL").is_none());
    assert_eq!(c.entries().len(), 6);
}

#[test]
fn config_refuses_non_mapping() {
    assert!(Config::from_yaml("- a\n- b\n").is_err());
    assert!(Config::from_yaml("key: [1, 2]\n").is_err());
}

#[test]
fn config_defaults() {
    let empty = Config::new();
    assert_eq!(model_name(&empty), "gemma-4:31");
    assert_eq!(server_url(&empty), "http://localhost:11434");
    assert_eq!(explanation_language(&empty), "German");
    assert_eq!(learning_language(&empty), "French");
    let c = config_of(&[("model", "llama3"), ("OLLAMA_URL", "http://gpu:11434"), ("EXPLANATION_LANGUAGE", "English"), ("LEARNING_LANGUAGE", "Spanish")]);
    assert_eq!(model_name(&c), "llama3");
    assert_eq!(server_url(&c), "http://gpu:11434");
    assert_eq!(explanation_language(&c), "English");
    assert_eq!(learning_language(&c), "Spanish");
}

#[test]
fn config_set_then_get() {
    let mut c = config_of(&[("A", "1"), ("B", "2")]);
    c.set("A", "3");
    assert_eq!(c.get("A").unwrap(), "3");
    assert_eq!(c.get("B").unwrap(), "2");
    assert_eq!(c.entries().len(), 2);
    c.set("C", "4");
    assert_eq!(c.entries()[2].0, "C");
    assert_eq!(c.get("C").unwrap(), "4");
}

// ------------------------------------------------------------------ grammar

const CATALOGUE: &str = "## Orphan topic\nno level yet\n# A1\n## Le présent\nVerbs in the present.\nSecond line.\n\n##   Les articles  \r\n# \n## \n### Passé composé #\n# B2\n## Subjonctif\n#Z9\n##Extra\ntext\n";

#[test]
fn grammar_catalogue_is_parsed() {
    let t = parse_grammar_topics(CATALOGUE);
    assert_eq!(t.len(), 6);
    assert_eq!(t[0].title, "Orphan topic");
    assert_eq!(t[0].skill_level, "");
    assert_eq!(t[0].description, "no level yet");
    assert_eq!(t[1].title, "Le présent");
    assert_eq!(t[1].skill_level, "A1");
    assert_eq!(t[1].description, "Verbs in the present. Second line.");
    assert_eq!(t[2].title, "Les articles");
    assert_eq!(t[2].description, "");
    assert_eq!(t[3].title, "Passé composé #");
    assert_eq!(t[3].skill_level, "A1");
    assert_eq!(t[4].title, "Subjonctif");
    assert_eq!(t[4].skill_level, "B2");
    assert_eq!(t[5].title, "Extra");
    assert_eq!(t[5].skill_level, "Z9");
    assert_eq!(t[5].description, "text");
}

#[test]
fn grammar_text_before_any_topic_is_ignored() {
    let t = parse_grammar_topics("intro text\n# A2\nmore\n");
    assert_eq!(t.len(), 0);
    assert_eq!(parse_grammar_topics("").len(), 0);
}

#[test]
fn grammar_groups_follow_cefr_order() {
    let topics = vec![
        topic("t1", "", "B1"),
        topic("t2", "", "X"),
        topic("t3", "", "A1"),
        topic("t4", "", ""),
        topic("t5", "", "B1"),
        topic("t6", "", "W"),
        topic("t7", "", "X"),
    ];
    let g = group_by_level(&topics);
    let levels: Vec<&str> = g.iter().map(|x| x.level.as_str()).collect();
    assert_eq!(levels, vec!["A1", "B1", "X", "W"]);
    assert_eq!(g[1].topics, vec!["t1".to_string(), "t5".to_string()]);
    assert_eq!(g[2].topics, vec!["t2".to_string(), "t7".to_string()]);
    assert_eq!(all_titles(&topics).len(), 7);
    assert_eq!(all_titles(&topics)[3], "t4");
}

#[test]
fn grammar_groups_cover_every_level_once() {
    let t = parse_grammar_topics(CATALOGUE);
    let g = group_by_level(&t);
    let levels: Vec<&str> = g.iter().map(|x| x.level.as_str()).collect();
    assert_eq!(levels, vec!["A1", "B2", "Z9"]);
    let grouped: usize = g.iter().map(|x| x.topics.len()).sum();
    assert_eq!(grouped, 5);
    assert!(g.iter().all(|x| !x.topics.is_empty()));
}

// ----------------------------------------------------------------- template

#[test]
fn template_placeholders_are_replaced() {
    let vars = config_of(&[("USER", "Thorsten"), ("TUTOR", "Amelie")]);
    assert_eq!(
        render_template("Hi {{USER}}, I am {{TUTOR}}. {{USER}}! {{OTHER}}", &vars),
        "Hi Thorsten, I am Amelie. Thorsten! {{OTHER}}"
    );
}

#[test]
fn template_without_marks_is_unchanged() {
    let vars = config_of(&[("USER", "Thorsten")]);
    assert_eq!(render_template("plain {text} }} here", &vars), "plain {text} }} here");
    assert_eq!(render_template("{{USER}}", &Config::new()), "{{USER}}");
}

#[test]
fn template_variables_apply_in_order() {
    let vars = config_of(&[("A", "{{B}}"), ("B", "x")]);
    assert_eq!(render_template("{{A}}", &vars), "x");
    let vars = config_of(&[("B", "x"), ("A", "{{B}}")]);
    assert_eq!(render_template("{{A}}", &vars), "{{B}}");
}

#[test]
fn template_order_does_not_matter_without_braces() {
    let t = "Bonjour {{USER}}, je suis {{TUTOR}} } {{MISSING}} {{USER}}";
    let a = config_of(&[("USER", "Thorsten"), ("TUTOR", "Amelie}"), ("X", "y")]);
    let b = config_of(&[("X", "y"), ("TUTOR", "Amelie}"), ("USER", "Thorsten")]);
    assert_eq!(render_template(t, &a), render_template(t, &b));
    assert_eq!(render_template(t, &a), "Bonjour Thorsten, je suis Amelie} } {{MISSING}} Thorsten");
}

fn state() -> TutorState {
    let config = Config::from_yaml(README_CONFIG).ok().unwrap();
    let topics = vec![topic("Le subjonctif", "Emploi après que.", "B1"), topic("Les articles", "", "A1")];
    TutorState::new(
        config,
        topics,
        "{{TUTOR}} teaches {{USER}} ({{SKILL_LEVEL}}) about {{TOPIC}}; focus: {{GRAMMAR_FOCUS}}; in {{LEARNING_LANGUAGE}}".to_string(),
    )
}

fn chat(topic: &str, grammar: &str, level: &str) -> ChatRequest {
    ChatRequest {
        topic: topic.to_string(),
        grammar: grammar.to_string(),
        skill_level: level.to_string(),
        messages: vec![msg("user", "Bonjour"), msg("assistant", "Salut !")],
    }
}

#[test]
fn system_prompt_fills_request_fields() {
    let s = state();
    assert_eq!(
        build_system_prompt(&s, &chat("Le café", "Le subjonctif", "B1")),
        "Amelie teaches Thorsten (B1) about Le café; focus: Le subjonctif — Emploi après que.; in French"
    );
    assert_eq!(
        build_system_prompt(&s, &chat("Paris", "Les articles", "A1")),
        "Amelie teaches Thorsten (A1) about Paris; focus: Les articles; in French"
    );
    assert_eq!(
        build_system_prompt(&s, &chat("Paris", "Inconnu", "")),
        "Amelie teaches Thorsten () about Paris; focus: Inconnu; in French"
    );
}

#[test]
fn system_prompt_blank_topic_lets_tutor_choose() {
    let s = state();
    assert_eq!(
        build_system_prompt(&s, &chat("   ", "x", "C1")),
        "Amelie teaches Thorsten (C1) about choisis toi-même un sujet adapté au niveau et au point de grammaire, puis annonce-le au début de la conversation; focus: x; in French"
    );
}

#[test]
fn chat_request_puts_primer_first() {
    let s = state();
    assert_eq!(s.model, "gemma-4:31");
    assert_eq!(s.ollama_url, "http://localhost:11434");
    let r = chat_request(&s, &chat("Le café", "Les articles", "A1"));
    assert_eq!(r.url, "http://localhost:11434/api/chat");
    assert_eq!(r.model, "gemma-4:31");
    assert_eq!(r.messages.len(), 3);
    assert_eq!(r.messages[0].role, "system");
    assert!(r.messages[0].content.starts_with("Amelie teaches Thorsten (A1) about Le café"));
    assert_eq!(r.messages[1].role, "user");
    assert_eq!(r.messages[1].content, "Bonjour");
    assert_eq!(r.messages[2].content, "Salut !");
}

#[test]
fn translation_request_directions() {
    let s = state();
    let r = translation_request(&s, "Guten Tag", false);
    assert_eq!(r.url, "http://localhost:11434/api/chat");
    assert_eq!(r.messages[0].role, "system");
    assert_eq!(
        r.messages[0].content,
        "You are a translation engine. Translate the user's text from German to French. Output only the translation in French, with no explanations, notes, or quotation marks."
    );
    assert_eq!(r.messages[1].role, "user");
    assert_eq!(r.messages[1].content, "Guten Tag");
    let r = translation_request(&s, "Bonjour", true);
    assert_eq!(
        r.messages[0].content,
        "You are a translation engine. Translate the user's text from French to German. Output only the translation in German, with no explanations, notes, or quotation marks."
    );
    let bare = TutorState::new(Config::new(), Vec::new(), String::new());
    let r = translation_request(&bare, "x", false);
    assert!(r.messages[0].content.contains("from German to French"));
}

// ------------------------------------------------------------------- stream

#[test]
fn stream_relays_tokens_and_done() {
    let mut s = ReplyStream::new();
    let e = s.feed(b"{\"message\":{\"content\":\"Bon\"},\"done\":false}\n{\"message\":{\"content\":\"jour \"}}\n");
    assert_eq!(describe(&e), vec!["data:{\"t\":\"Bon\"}", "data:{\"t\":\"jour \"}"]);
    assert!(!s.is_finished());
    let e = s.feed(b"{\"message\":{\"content\":\"!\"},\"done\":true}\n{\"message\":{\"content\":\"late\"}}\n");
    assert_eq!(describe(&e), vec!["data:{\"t\":\"!\"}", "done"]);
    assert!(s.is_finished());
    assert!(s.feed(b"{\"message\":{\"content\":\"more\"}}\n").is_empty());
    assert!(s.finish().is_empty());
}

#[test]
fn stream_chunk_boundaries_do_not_matter() {
    let body = "{\"message\":{\"content\":\"a\"}}\n\n{\"message\":{\"content\":\"b\"},\"done\":true}\n";
    let mut whole = ReplyStream::new();
    let all = describe(&whole.feed(body.as_bytes()));
    for cut in 0..body.len() {
        let mut s = ReplyStream::new();
        let mut got = describe(&s.feed(body[..cut].as_bytes()));
        got.extend(describe(&s.feed(body[cut..].as_bytes())));
        assert_eq!(got, all);
    }
    assert_eq!(all, vec!["data:{\"t\":\"a\"}", "data:{\"t\":\"b\"}", "done"]);
}

#[test]
fn stream_skips_blank_invalid_and_empty_lines() {
    let mut s = ReplyStream::new();
    let e = s.feed(b"   \nnot json\n{\"message\":{\"content\":\"\"}}\n{\"message\":{\"content\":7}}\n[1,2]\n{\"done\":\"yes\"}\n");
    assert!(e.is_empty());
    assert!(!s.is_finished());
    let e = s.feed(b"{\"message\":{\"content\":\"x\"}}");
    assert!(e.is_empty());
    let e = s.finish();
    assert_eq!(describe(&e), vec!["done"]);
}

#[test]
fn stream_escapes_payload_as_json() {
    let mut s = ReplyStream::new();
    let e = s.feed(b"{\"message\":{\"content\":\"say \\\"hi\\\"\\n\\\\ \\u0001\\t\xc3\xa9\"}}\r\n");
    assert_eq!(describe(&e), vec!["data:{\"t\":\"say \\\"hi\\\"\\n\\\\ \\u0001\\t\u{e9}\"}"]);
}

#[test]
fn stream_replaces_invalid_utf8() {
    let mut s = ReplyStream::new();
    let e = s.feed(b"{\"message\":{\"content\":\"a\xffb\"}}\n");
    assert_eq!(describe(&e), vec!["data:{\"t\":\"a\u{fffd}b\"}"]);
}

#[test]
fn stream_failure_and_connection_error() {
    let mut s = ReplyStream::new();
    let e = s.fail("connection reset");
    assert_eq!(describe(&e), vec!["error:Stream-Fehler: connection reset", "done"]);
    assert!(s.is_finished());
    assert!(s.fail("again").is_empty());
    let c = connection_error("refused");
    assert_eq!(describe(&[c]), vec!["error:Ollama nicht erreichbar: refused"]);
}

#[test]
fn reply_events_from_fields() {
    let f = ReplyFields { content: Some("Bon".to_string()), done: Some(true) };
    let (e, stop) = reply_events(&f);
    assert_eq!(describe(&e), vec!["data:{\"t\":\"Bon\"}", "done"]);
    assert!(stop);
    let f = ReplyFields { content: Some(String::new()), done: None };
    let (e, stop) = reply_events(&f);
    assert!(e.is_empty());
    assert!(!stop);
    let f = ReplyFields { content: None, done: Some(false) };
    let (e, stop) = reply_events(&f);
    assert!(e.is_empty());
    assert!(!stop);
    let f = ReplyFields { content: Some("a\"b".to_string()), done: Some(false) };
    let (e, stop) = reply_events(&f);
    assert_eq!(describe(&e), vec!["data:{\"t\":\"a\\\"b\"}"]);
    assert!(!stop);
}

#[test]
fn stream_feed_text_reads_complete_lines() {
    let mut s = ReplyStream::new();
    let e = s.feed_text("{\"message\":{\"content\":\"é\"}}\n{\"message\":{\"con");
    assert_eq!(describe(&e), vec!["data:{\"t\":\"\u{e9}\"}"]);
    let e = s.feed_text("tent\":\"t\"},\"done\":true}\n{\"message\":{\"content\":\"late\"}}\n");
    assert_eq!(describe(&e), vec!["data:{\"t\":\"t\"}", "done"]);
    assert!(s.is_finished());
    assert!(s.feed_text("{\"done\":true}\n").is_empty());
}

#[test]
fn stream_whole_reply_has_one_done_last() {
    let bodies: [&[&[u8]]; 3] = [
        &[b"{\"message\":{\"content\":\"a\"}}\n{\"do", b"ne\":true}\n{\"done\":true}\n"],
        &[b"{\"message\":{\"content\":\"a\"}}\n", b"{\"message\":{\"content\":\"b\"}}"],
        &[],
    ];
    for chunks in bodies {
        for failure in [None, Some("reset")] {
            let mut s = ReplyStream::new();
            let mut all: Vec<StreamEvent> = Vec::new();
            for c in chunks {
                all.extend(s.feed(c));
            }
            match failure {
                Some(d) => all.extend(s.fail(d)),
                None => all.extend(s.finish()),
            }
            let d = describe(&all);
            assert_eq!(d.last().map(|x| x.as_str()), Some("done"));
            assert_eq!(d.iter().filter(|x| x.as_str() == "done").count(), 1);
        }
    }
}

#[test]
fn stream_utf8_chunking_at_char_boundaries() {
    let body = "{\"message\":{\"content\":\"çé\"}}\n{\"done\":true}\n";
    let bytes = body.as_bytes();
    let mut whole = ReplyStream::new();
    let all = describe(&whole.feed(bytes));
    assert_eq!(all, vec!["data:{\"t\":\"\u{e7}\u{e9}\"}", "done"]);
    for cut in 0..bytes.len() {
        if !body.is_char_boundary(cut) {
            continue;
        }
        let mut s = ReplyStream::new();
        let mut got = describe(&s.feed(&bytes[..cut]));
        got.extend(describe(&s.feed(&bytes[cut..])));
        assert_eq!(got, all);
    }
}

// ------------------------------------------------------------------ persist

#[test]
fn slugify_examples() {
    assert_eq!(slugify("Hello World!"), "hello-world");
    assert_eq!(slugify("  --Ça va?--  "), "a-va");
    assert_eq!(slugify(""), "untitled");
    assert_eq!(slugify("!!!"), "untitled");
    assert_eq!(slugify("A--B___C"), "a-b-c");
    assert_eq!(slugify("Le subjonctif (B1)"), "le-subjonctif-b1");
}

#[test]
fn slugify_is_idempotent() {
    for s in ["Hello World!", "  --Ça va?--  ", "", "A--B___C", "x", "untitled", "-a-"] {
        let once = slugify(s);
        assert_eq!(slugify(&once), once);
        assert!(!once.is_empty());
        assert!(!once.starts_with('-') && !once.ends_with('-') && !once.contains("--"));
    }
}

#[test]
fn slugify_ignores_ascii_case() {
    for s in ["Hello World!", "  --Ça va?--  ", "", "A--B___C", "Le Subjonctif (B1)", "ÉTÉ été"] {
        assert_eq!(slugify(&s.to_ascii_uppercase()), slugify(s));
        assert_eq!(slugify(&s.to_ascii_lowercase()), slugify(s));
    }
    assert_eq!(slugify("HELLO world"), "hello-world");
}

fn dialogue(topic: &str) -> DialogueRequest {
    DialogueRequest {
        topic: topic.to_string(),
        grammar: "Le subjonctif".to_string(),
        skill_level: "B1".to_string(),
        messages: vec![msg("user", "Je veux que tu viennes."), msg("assistant", "Très bien !")],
    }
}

#[test]
fn dialogue_file_name_format() {
    assert_eq!(dialogue_file_name(&dialogue("Au café"), 1700000000), "dialogues/au-caf-le-subjonctif-b1-1700000000.md");
    assert_eq!(dialogue_file_name(&dialogue(""), 0), "dialogues/untitled-le-subjonctif-b1-0.md");
    assert_eq!(dialogue_file_name(&dialogue("x"), u64::MAX), "dialogues/x-le-subjonctif-b1-18446744073709551615.md");
}

#[test]
fn dialogue_markdown_format() {
    assert_eq!(
        dialogue_markdown(&dialogue("Au café")),
        "# Au café\n\n- Grammaire: Le subjonctif\n- Niveau: B1\n\n---\n\n**Thorsten**: Je veux que tu viennes.\n\n**Amelie**: Très bien !\n\n"
    );
    let mut d = dialogue("  ");
    d.messages.clear();
    assert_eq!(dialogue_markdown(&d), "# Sujet libre\n\n- Grammaire: Le subjonctif\n- Niveau: B1\n\n---\n\n");
}

#[test]
fn vocab_entry_ok() {
    let c = Config::from_yaml(README_CONFIG).ok().unwrap();
    let v = vocab_entry(&c, "  der Hund ", "le chien").ok().unwrap();
    assert_eq!(v.file_name, "vocab/German_French.csv");
    assert_eq!(v.header, "German:French\n");
    assert_eq!(v.row, "der Hund:le chien\n");
    let v = vocab_entry(&config_of(&[("EXPLANATION_LANGUAGE", "English")]), "dog", "chien").ok().unwrap();
    assert_eq!(v.file_name, "vocab/English_French.csv");
}

#[test]
fn vocab_entry_errors() {
    let c = Config::new();
    let e = vocab_entry(&c, "  ", "chien").err().unwrap();
    assert!(matches!(e, VocabError::MissingWord));
    assert_eq!(e.message(), "both words are required");
    let e = vocab_entry(&c, "a:b", "chien").err().unwrap();
    assert!(matches!(e, VocabError::ColonInWord));
    assert_eq!(e.message(), "words must not contain ':'");
    assert!(matches!(vocab_entry(&c, "a:b", ""), Err(VocabError::MissingWord)));
    assert!(matches!(vocab_entry(&c, "a", "b:"), Err(VocabError::ColonInWord)));
}
