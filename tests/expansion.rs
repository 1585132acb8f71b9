use macro_expand::{collect_definitions, get_definitions, insert_definitions, process_documents, Definition, ExpandError};

fn defs_of(text: &str) -> Vec<Definition> {
    let mut defs = Vec::new();
    get_definitions(&String::from(text), &mut defs);
    defs
}

fn expand_with(text: &str, decls: &str) -> Result<String, ExpandError> {
    insert_definitions(&String::from(text), &defs_of(decls))
}

#[test]
fn empty_remains_empty() {
    let definitions: Vec<Definition> = vec![];
    let inp = String::from("");
    let out: String = insert_definitions(&inp, &definitions).unwrap();
    assert!(out == inp);
}

#[test]
fn content_remains_content() {
    let definitions: Vec<Definition> = vec![Definition {
        name: String::from(""),
        contents: String::from(""),
        parameters: vec![String::new(); 0],
    }];
    let inp = String::from(":3 W-Wowwem (*≧▽≦) ipsum dowow owo s-sit >~< amwet, *blushes* >~< conswectwetuw adipiscing :3 w-wewit, swed do (*≧▽≦) weiusmod owo twempow incididunt *giggles* u-ut UwU wabowwe uwu wet dowowwe UwU magnya awiqua. :3 Vwenyiam uwwamco (*≧▽≦) nyostwud (・`ω´・) wea conswequat m-minyim :3 wexwewcitation. Ewit dweswewunt awiquip iwuwwe UwU v-vwewit :3 w-wenyim commodo w-wwepwwehwendwewit *giggles* (・`ω´・) ad. Est uwu ad wewit (*≧▽≦) do weiusmod (・`ω´・) dowowwe quis (*≧▽≦) iwuwwe. Nostwud q-quis (*≧▽≦) weu UwU minyim conswectwetuw. owo Esswe i-in >~< vwewit :3 sit :3 cupidatat uwu nyisi amwet *nuzzles* west. In :3 dowowwe wabowum ut owo adipiscing *nuzzles* i-in magnya uwu wabowum sit.");
    let out = insert_definitions(&inp, &definitions).unwrap();
    assert!(inp == out);
}

#[test]
fn empty_document_with_registry_stays_empty() {
    let out = expand_with("", "$GREET name { Hello, $name$! } $X {y}").unwrap();
    assert_eq!(out, "");
}

#[test]
fn document_without_invocations_loses_only_its_declarations() {
    let out = expand_with("before $GREET name { Hello } after $ GREET", "$GREET name { x }").unwrap();
    assert_eq!(out, "before  after $ GREET");
}

#[test]
fn greet_with_one_argument() {
    let out = expand_with("$GREET \"World\" $", "$GREET name { Hello, $name$! }").unwrap();
    assert_eq!(out, "Hello, World!");
}

#[test]
fn greet_without_arguments_keeps_placeholder() {
    let out = expand_with("$GREET$", "$GREET name { Hello, $name$! }").unwrap();
    assert_eq!(out, "Hello, $name$!");
}

#[test]
fn greet_with_too_many_arguments_fails() {
    let r = expand_with("$GREET \"World\" \"Extra\" $", "$GREET name { Hello, $name$! }");
    match r {
        Err(ExpandError::ArgumentOverflow { name, index, total, value }) => {
            assert_eq!(name, "GREET");
            assert_eq!(index, 2);
            assert_eq!(total, 1);
            assert_eq!(value, "Extra");
        }
        _ => panic!("expected an argument overflow"),
    }
}

#[test]
fn fewer_arguments_than_parameters() {
    let out = expand_with("$P \"1\" $", "$P a b { <$a$|$b$> }").unwrap();
    assert_eq!(out, "<1|$b$>");
}

#[test]
fn arguments_bind_in_order_and_literally() {
    let out = expand_with("[$P \"x$1\"   \"\" $]", "$P a b { $a$-$b$-$a$ }").unwrap();
    assert_eq!(out, "[x$1--x$1]");
}

#[test]
fn name_is_matched_literally() {
    let out = expand_with("$GREETTT$ $GREET$ $GREETING$", "$GREET { hi }").unwrap();
    assert_eq!(out, "$GREETTT$ hi $GREETING$");
}

#[test]
fn definition_from_another_document() {
    let docs = vec![
        String::from("A says: $GREET \"World\" $"),
        String::from("$GREET name { Hello, $name$! }B"),
    ];
    let outs = process_documents(&docs).unwrap();
    assert_eq!(outs, vec![String::from("A says: Hello, World!"), String::from("B")]);
}

#[test]
fn no_declaration_survives() {
    let docs = vec![
        String::from("x $UNUSED a b {\n  body\n} y $USED {z} $USED$"),
        String::from("$OTHER { w }"),
    ];
    let outs = process_documents(&docs).unwrap();
    assert_eq!(outs, vec![String::from("x  y  z"), String::from("")]);
}

#[test]
fn earlier_definition_of_a_name_wins() {
    let docs = vec![String::from("$D { first } $D { second } $D$")];
    let defs = collect_definitions(&docs);
    assert_eq!(defs.len(), 2);
    let outs = process_documents(&docs).unwrap();
    assert_eq!(outs, vec![String::from("  first")]);
}

#[test]
fn no_documents_is_an_error() {
    let docs: Vec<String> = vec![];
    assert!(matches!(process_documents(&docs), Err(ExpandError::NoInputProvided)));
}

#[test]
fn overflow_in_a_later_document_fails_the_run() {
    let docs = vec![String::from("$ONE a { $a$ } fine"), String::from("$ONE \"1\" \"2\" $")];
    match process_documents(&docs) {
        Err(ExpandError::ArgumentOverflow { name, index, total, value }) => {
            assert_eq!((name.as_str(), index, total, value.as_str()), ("ONE", 2, 1, "2"));
        }
        _ => panic!("expected an argument overflow"),
    }
}

#[test]
fn extraction_reads_name_parameters_and_body() {
    let defs = defs_of("text $NAME one\ttwo\n three {\n   line one\n\n     line two  \n} more $E{}");
    assert_eq!(defs.len(), 2);
    assert_eq!(defs[0].name, "NAME");
    assert_eq!(defs[0].parameters, vec!["one", "two", "three"]);
    assert_eq!(defs[0].contents, "line one\nline two");
    assert_eq!(defs[1].name, "E");
    assert!(defs[1].parameters.is_empty());
    assert_eq!(defs[1].contents, "");
}

#[test]
fn extraction_body_stops_at_nearest_brace() {
    let defs = defs_of("$A { x { y } z }");
    assert_eq!(defs.len(), 1);
    assert_eq!(defs[0].contents, "x { y");
}

#[test]
fn malformed_blocks_are_left_alone() {
    let text = "$ {x} $A b c $A {unclosed";
    assert!(defs_of(text).is_empty());
    let out = expand_with(text, "$Z{}").unwrap();
    assert_eq!(out, text);
}

#[test]
fn unicode_word_characters_form_names() {
    let defs = defs_of("$größe wert { $wert$ m }");
    assert_eq!(defs.len(), 1);
    assert_eq!(defs[0].name, "größe");
    assert_eq!(defs[0].parameters, vec!["wert"]);
    let out = expand_with("$größe \"3\" $", "$größe wert { $wert$ m }").unwrap();
    assert_eq!(out, "3 m");
}

#[test]
fn empty_body_deletes_the_site() {
    let out = expand_with("a$E$b$E \"q\" $c", "$E p {}").unwrap();
    assert_eq!(out, "abc");
}

#[test]
fn empty_registry_changes_nothing() {
    let out = insert_definitions(&String::from("$A {x} $A$"), &vec![]).unwrap();
    assert_eq!(out, "$A {x} $A$");
}

#[test]
fn quoted_argument_cannot_span_lines() {
    let out = expand_with("$Q \"a\nb\" $", "$Q v { <$v$> }").unwrap();
    assert_eq!(out, "$Q \"a\nb\" $");
}

#[test]
fn declaration_spans_agree_with_the_pattern() {
    let re = regex::Regex::new(r"\$(\w+)((\s+\w+)*\s*)\{([\s\S]*?)\}").unwrap();
    let samples = [
        "$A b c { d } $E{f}",
        "x$A$B {c}",
        "$α β { γ\n  δ }\n$ω {",
        "$A {b} $C\t{d}e}",
    ];
    for s in samples {
        let names: Vec<String> = re.captures_iter(s).map(|c| c[1].to_string()).collect();
        let found: Vec<String> = defs_of(s).into_iter().map(|d| d.name).collect();
        assert_eq!(found, names);
    }
}

#[test]
fn removing_a_block_can_join_text_into_an_invocation() {
    let out = expand_with("$$X{}G$", "$X{} $G{hi}").unwrap();
    assert_eq!(out, "hi");
}

#[test]
fn long_runs_of_words_and_arguments() {
    let header = format!("$A{}", " w".repeat(200_000));
    assert!(defs_of(&header).is_empty());
    let invocation = format!("$A{} $", " \"x\"".repeat(100_000));
    match expand_with(&invocation, "$A a b { $a$$b$ }") {
        Err(ExpandError::ArgumentOverflow { index, total, .. }) => assert_eq!((index, total), (3, 2)),
        _ => panic!("expected an argument overflow"),
    }
}
