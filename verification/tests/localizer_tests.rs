use crowbook_localize::error::{ParseError, ValidationError};
use crowbook_localize::lang::Lang;
use crowbook_localize::localizer::Localizer;
use crowbook_localize::macrogen::Tables;
use crowbook_localize::template::count_placeholders;

fn chars(s: &str) -> Vec<char> {
    s.chars().collect()
}

fn parsed(code: &str, text: &str) -> Lang {
    Lang::new_from_str(code, text).expect("catalog should parse")
}

#[test]
fn parse_simple_entry() {
    let lang = parsed("fr", "msgid \"Hello, {}\"\nmsgstr \"Bonjour, {}\"\n");
    assert_eq!(lang.code, chars("fr"));
    assert_eq!(lang.entries.len(), 1);
    assert_eq!(lang.entries[0].msgid, chars("Hello, {}"));
    assert_eq!(lang.entries[0].msgstr, Some(chars("Bonjour, {}")));
}

#[test]
fn parse_skips_comments_and_blanks() {
    let text = "# a comment\n\n   \t\nmsgid \"a\"\n# between\nmsgstr \"b\"\n\n";
    let lang = parsed("fr", text);
    assert_eq!(lang.entries.len(), 1);
    assert_eq!(lang.entries[0].msgid, chars("a"));
    assert_eq!(lang.entries[0].msgstr, Some(chars("b")));
}

#[test]
fn parse_multiline_continuation() {
    let text = "msgid \"Hello, \"\n\"world\"\nmsgstr \"Bonjour, \"\n\"monde\"\n";
    let lang = parsed("fr", text);
    assert_eq!(lang.entries.len(), 1);
    assert_eq!(lang.entries[0].msgid, chars("Hello, world"));
    assert_eq!(lang.entries[0].msgstr, Some(chars("Bonjour, monde")));
}

#[test]
fn parse_escapes() {
    let text = "msgid \"a\\\"b\\\\c\\nd\"\nmsgstr \"x\\ty\"\n";
    let lang = parsed("fr", text);
    assert_eq!(lang.entries[0].msgid, chars("a\"b\\c\nd"));
    // an unknown escape is passed through unchanged, backslash included
    assert_eq!(lang.entries[0].msgstr, Some(chars("x\\ty")));
}

#[test]
fn parse_empty_msgstr_is_untranslated() {
    let lang = parsed("fr", "msgid \"key\"\nmsgstr \"\"\n");
    assert_eq!(lang.entries.len(), 1);
    assert_eq!(lang.entries[0].msgstr, None);
}

#[test]
fn parse_empty_catalog() {
    let lang = parsed("fr", "");
    assert_eq!(lang.entries.len(), 0);
}

#[test]
fn parse_crlf_line_endings() {
    let lang = parsed("fr", "msgid \"a\"\r\nmsgstr \"b\"\r\n");
    assert_eq!(lang.entries.len(), 1);
    assert_eq!(lang.entries[0].msgstr, Some(chars("b")));
}

#[test]
fn duplicate_msgid_keeps_last_msgstr() {
    let text = "msgid \"k\"\nmsgstr \"first\"\nmsgid \"other\"\nmsgstr \"x\"\nmsgid \"k\"\nmsgstr \"second\"\n";
    let lang = parsed("fr", text);
    assert_eq!(lang.entries.len(), 2);
    // first-seen order is kept, the value is the last one
    assert_eq!(lang.entries[0].msgid, chars("k"));
    assert_eq!(lang.entries[0].msgstr, Some(chars("second")));
    assert_eq!(lang.entries[1].msgid, chars("other"));
}

#[test]
fn orphan_msgstr_is_rejected() {
    let r = Lang::new_from_str("fr", "msgstr \"x\"\n");
    assert_eq!(r.unwrap_err(), ParseError::OrphanMsgstr { line: 1 });
}

#[test]
fn two_msgids_in_a_row_are_rejected() {
    let r = Lang::new_from_str("fr", "msgid \"a\"\nmsgid \"b\"\n");
    assert_eq!(r.unwrap_err(), ParseError::UnexpectedToken { line: 2 });
}

#[test]
fn unterminated_string_reports_its_line() {
    let r = Lang::new_from_str("fr", "msgid \"a\"\nmsgstr \"unterminated");
    assert_eq!(r.unwrap_err(), ParseError::UnterminatedString { line: 2 });
    let r1 = Lang::new_from_str("fr", "msgstr \"unterminated");
    assert_eq!(r1.unwrap_err(), ParseError::UnterminatedString { line: 1 });
}

#[test]
fn msgid_without_msgstr_is_rejected_at_end() {
    let r = Lang::new_from_str("fr", "msgid \"a\"");
    assert_eq!(r.unwrap_err(), ParseError::UnterminatedEntry { line: 1 });
}

#[test]
fn stray_token_is_rejected() {
    let r = Lang::new_from_str("fr", "garbage line\n");
    assert_eq!(r.unwrap_err(), ParseError::UnexpectedToken { line: 1 });
}

#[test]
fn serialize_then_parse_round_trips() {
    let text = "msgid \"plain\"\nmsgstr \"simple\"\nmsgid \"quo\\\"te\\\\and\\nnewline\"\nmsgstr \"\"\nmsgid \"args {} and {{literal}}\"\nmsgstr \"{} et {{x}}\"\n";
    let lang = parsed("fr", text);
    let printed = lang.to_catalog();
    let again = parsed("fr", &printed);
    assert_eq!(again, lang);
    // and printing once more gives the same text
    assert_eq!(again.to_catalog(), printed);
}

#[test]
fn count_placeholders_exact_values() {
    assert_eq!(count_placeholders(&chars("")), 0);
    assert_eq!(count_placeholders(&chars("no placeholders")), 0);
    assert_eq!(count_placeholders(&chars("a {} b {}")), 2);
    assert_eq!(count_placeholders(&chars("{{}} {}")), 1);
    assert_eq!(count_placeholders(&chars("{{{}}}")), 1);
    assert_eq!(count_placeholders(&chars("{ }")), 0);
}

#[test]
fn failed_add_lang_leaves_aggregator_unchanged() {
    let mut localizer = Localizer::new();
    localizer
        .add_lang("fr", "msgid \"Hello, {}\"\nmsgstr \"Bonjour, {}\"\n")
        .unwrap();
    let before = localizer.langs.clone();
    let r = localizer.add_lang("es", "msgstr \"orphan\"\n");
    assert_eq!(r.unwrap_err(), ParseError::OrphanMsgstr { line: 1 });
    assert_eq!(localizer.langs, before);
}

#[test]
fn dispatch_selects_language_and_falls_back() {
    let mut localizer = Localizer::new();
    localizer
        .add_lang("fr", "msgid \"Hello, {}\"\nmsgstr \"Bonjour, {}\"\n")
        .unwrap();
    localizer
        .add_lang("es", "msgid \"Hello, {}\"\nmsgstr \"Hola, {}\"\n")
        .unwrap();
    let tables = localizer.build_tables().expect("catalogs are consistent");
    let args = vec!["Marie".to_string()];
    assert_eq!(
        tables.render("Hello, {}", "es", &args).unwrap(),
        "Hola, Marie"
    );
    assert_eq!(
        tables.render("Hello, {}", "fr", &args).unwrap(),
        "Bonjour, Marie"
    );
    // an unregistered language falls back to the source template
    assert_eq!(
        tables.render("Hello, {}", "de", &args).unwrap(),
        "Hello, Marie"
    );
}

#[test]
fn dispatch_rejects_unknown_template_and_bad_arity() {
    let mut localizer = Localizer::new();
    localizer
        .add_lang("fr", "msgid \"Hello, {}\"\nmsgstr \"Bonjour, {}\"\n")
        .unwrap();
    let tables = localizer.build_tables().unwrap();
    let args = vec!["Marie".to_string()];
    assert!(tables.render("Missing", "fr", &args).is_none());
    assert!(tables.render("Hello, {}", "fr", &Vec::new()).is_none());
    assert!(tables
        .render(
            "Hello, {}",
            "fr",
            &vec!["a".to_string(), "b".to_string()]
        )
        .is_none());
}

#[test]
fn untranslated_entry_falls_back_to_source() {
    let mut localizer = Localizer::new();
    localizer
        .add_lang("fr", "msgid \"Hello, {}\"\nmsgstr \"\"\n")
        .unwrap();
    let tables = localizer.build_tables().unwrap();
    let args = vec!["Marie".to_string()];
    assert_eq!(
        tables.render("Hello, {}", "fr", &args).unwrap(),
        "Hello, Marie"
    );
}

#[test]
fn literal_braces_are_unescaped_in_output() {
    let mut localizer = Localizer::new();
    localizer
        .add_lang("fr", "msgid \"{{}} {}\"\nmsgstr \"\"\n")
        .unwrap();
    let tables = localizer.build_tables().unwrap();
    let args = vec!["X".to_string()];
    assert_eq!(tables.render("{{}} {}", "de", &args).unwrap(), "{} X");
}

#[test]
fn placeholder_mismatch_is_a_generation_error() {
    let mut localizer = Localizer::new();
    localizer
        .add_lang("fr", "msgid \"Hello, {}\"\nmsgstr \"Bonjour\"\n")
        .unwrap();
    let err = localizer.build_tables().unwrap_err();
    match err {
        ValidationError::PlaceholderMismatch {
            template,
            lang_code,
            expected,
            found,
        } => {
            assert_eq!(template, "Hello, {}");
            assert_eq!(lang_code, "fr");
            assert_eq!(expected, 1);
            assert_eq!(found, 0);
        }
    }
    let err2 = localizer.generate_macro_file().unwrap_err();
    assert!(matches!(
        err2,
        ValidationError::PlaceholderMismatch { .. }
    ));
}

#[test]
fn consistent_translations_count_as_matching() {
    let mut localizer = Localizer::new();
    localizer
        .add_lang("fr", "msgid \"{} and {}\"\nmsgstr \"{} et {}\"\n")
        .unwrap();
    assert!(localizer.build_tables().is_ok());
}

#[test]
fn artifact_holds_one_dispatch_function_per_template() {
    let mut localizer = Localizer::new();
    localizer
        .add_lang("fr", "msgid \"Hello, {}\"\nmsgstr \"Bonjour, {}\"\nmsgid \"Bye\"\nmsgstr \"Au revoir\"\n")
        .unwrap();
    localizer
        .add_lang("es", "msgid \"Hello, {}\"\nmsgstr \"Hola, {}\"\n")
        .unwrap();
    let artifact = localizer.generate_macro_file().unwrap();
    assert!(artifact.contains("pub fn subst(template: &str, args: &[&str]) -> String"));
    assert!(artifact.contains("pub fn localize_0(lang: &str, args: &[&str]) -> String"));
    assert!(artifact.contains("pub fn localize_1(lang: &str, args: &[&str]) -> String"));
    assert!(!artifact.contains("localize_2"));
    assert!(artifact.contains("        \"fr\" => \"Bonjour, {}\",\n"));
    assert!(artifact.contains("        \"es\" => \"Hola, {}\",\n"));
    assert!(artifact.contains("        _ => \"Hello, {}\",\n"));
    assert!(artifact.contains("        _ => \"Bye\",\n"));
}

#[test]
fn artifact_escapes_catalog_content() {
    let mut localizer = Localizer::new();
    localizer
        .add_lang(
            "fr",
            "msgid \"say \\\"hi\\\"\"\nmsgstr \"dire \\\"salut\\\"\"\n",
        )
        .unwrap();
    let artifact = localizer.generate_macro_file().unwrap();
    assert!(artifact.contains("        \"fr\" => \"dire \\\"salut\\\"\",\n"));
    assert!(artifact.contains("        _ => \"say \\\"hi\\\"\",\n"));
}

#[test]
fn parse_error_messages_name_the_line() {
    let err = Lang::new_from_str("fr", "msgid \"a\"\nmsgstr \"unterminated")
        .unwrap_err();
    assert_eq!(err.message(), "unterminated string at line 2");
    let err2 = Lang::new_from_str("fr", "msgstr \"x\"\n").unwrap_err();
    assert_eq!(err2.message(), "msgstr with no preceding msgid at line 1");
    let err3 = Lang::new_from_str("fr", "bad\n").unwrap_err();
    assert_eq!(err3.message(), "unexpected token at line 1");
    let err4 = Lang::new_from_str("fr", "msgid \"a\"").unwrap_err();
    assert_eq!(err4.message(), "msgid with no msgstr at line 1");
}

#[test]
fn validation_error_message_names_the_counts() {
    let mut localizer = Localizer::new();
    localizer
        .add_lang("fr", "msgid \"Hello, {}\"\nmsgstr \"Bonjour\"\n")
        .unwrap();
    let err = localizer.build_tables().unwrap_err();
    assert_eq!(
        err.message(),
        "placeholder count mismatch in language fr for template \"Hello, {}\": expected 1, found 0"
    );
}

#[test]
fn built_tables_are_placeholder_consistent() {
    let mut localizer = Localizer::new();
    localizer
        .add_lang("fr", "msgid \"{} of {}\"\nmsgstr \"{} sur {}\"\nmsgid \"plain\"\nmsgstr \"plat\"\n")
        .unwrap();
    localizer
        .add_lang("es", "msgid \"{} of {}\"\nmsgstr \"{} de {}\"\n")
        .unwrap();
    let tables = localizer.build_tables().unwrap();
    for t in &tables.templates {
        assert_eq!(t.count, count_placeholders(&t.src));
        for (_, tr) in &t.pairs {
            assert_eq!(count_placeholders(tr), t.count);
        }
    }
}

#[test]
fn templates_are_collected_across_languages_in_first_seen_order() {
    let mut localizer = Localizer::new();
    localizer
        .add_lang("fr", "msgid \"One\"\nmsgstr \"Un\"\n")
        .unwrap();
    localizer
        .add_lang("es", "msgid \"Two\"\nmsgstr \"Dos\"\nmsgid \"One\"\nmsgstr \"Uno\"\n")
        .unwrap();
    let tables = localizer.build_tables().unwrap();
    assert_eq!(tables.templates.len(), 2);
    assert_eq!(tables.templates[0].src, chars("One"));
    assert_eq!(tables.templates[1].src, chars("Two"));
    let none: Vec<String> = Vec::new();
    assert_eq!(tables.render("One", "es", &none).unwrap(), "Uno");
    assert_eq!(tables.render("Two", "fr", &none).unwrap(), "Two");
}

#[test]
fn mismatch_is_caught_even_when_the_template_came_from_another_language() {
    let mut localizer = Localizer::new();
    localizer
        .add_lang("fr", "msgid \"Hello, {}\"\nmsgstr \"Bonjour, {}\"\n")
        .unwrap();
    localizer
        .add_lang("es", "msgid \"Hello, {}\"\nmsgstr \"Hola\"\n")
        .unwrap();
    let err = localizer.build_tables().unwrap_err();
    match err {
        ValidationError::PlaceholderMismatch { lang_code, expected, found, .. } => {
            assert_eq!(lang_code, "es");
            assert_eq!(expected, 1);
            assert_eq!(found, 0);
        }
    }
}

#[test]
fn tables_build_directly_from_langs() {
    let fr = parsed("fr", "msgid \"Hi\"\nmsgstr \"Salut\"\n");
    let es = parsed("es", "msgid \"Hi\"\nmsgstr \"Hola\"\n");
    let tables = Tables::build(&vec![fr, es]).unwrap();
    assert_eq!(tables.templates.len(), 1);
    assert_eq!(tables.templates[0].pairs.len(), 2);
    assert_eq!(
        tables.render("Hi", "es", &Vec::new()).unwrap(),
        "Hola"
    );
}
