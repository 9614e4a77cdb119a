use ryuji_rust::ErrorKind;
use ryuji_rust::FileExtension;
use ryuji_rust::Renderer;
use ryuji_rust::SyntaxMatch;
use ryuji_rust::VarValue;
use ryuji_rust::Vars;

fn renderer() -> Renderer {
    Renderer::new(
        "templates".to_string(),
        "components".to_string(),
        FileExtension::new(".html".to_string()).unwrap(),
    )
}

#[test]
fn file_extension_coerce() {
    assert!(FileExtension::new("adsf".to_string()).is_err());
    assert!(FileExtension::new("ad.sf".to_string()).is_err());
    assert!(FileExtension::new(".png".to_string()).is_ok());
    assert_eq!(
        FileExtension::try_from(".py".to_string()).unwrap(),
        FileExtension::new(".py".to_string()).unwrap()
    );
    assert_eq!(
        ".py".to_string(),
        String::from(FileExtension::new(".py".to_string()).unwrap())
    );
}

#[test]
fn concat_path_test() {
    assert_eq!(
        Renderer::concat_path(&"abc/".to_string(), &"/tree.html".to_string()),
        "abc/tree.html".to_string()
    );
    assert_eq!(
        Renderer::concat_path(&"/abc/".to_string(), &"/tree.html".to_string()),
        "/abc/tree.html".to_string()
    );
    assert_eq!(
        Renderer::concat_path(&"abc/".to_string(), &"tree.html".to_string()),
        "abc/tree.html".to_string()
    );
    assert_eq!(
        Renderer::concat_path(&"abc".to_string(), &"/tree.html".to_string()),
        "abc/tree.html".to_string()
    );
    assert_eq!(
        Renderer::concat_path(&"abc/def".to_string(), &"tree.html".to_string()),
        "abc/def/tree.html".to_string()
    );
}

#[test]
fn sanitize_test() {
    assert_eq!(Renderer::sanitize(&"asdf".to_string()), "asdf".to_string());
    assert_eq!(
        Renderer::sanitize(&"<script>a</script>".to_string()),
        "&lt;script&gt;a&lt;/script&gt;".to_string()
    );
}

#[test]
fn var_name_legality_test() {
    assert!(Renderer::check_var_name_legality(&"asdf".to_string(), true).is_ok());
    assert!(Renderer::check_var_name_legality(&"random/abc".to_string(), true).is_ok());
    assert!(Renderer::check_var_name_legality(&"cheese.burger.property40".to_string(), true).is_ok());
    assert!(
        Renderer::check_var_name_legality(&"Dave_Davidson.drunkness.intensity".to_string(), true)
            .is_ok()
    );
    assert!(
        Renderer::check_var_name_legality(&"Dave_Davidson.drunkness.intensity".to_string(), false)
            .is_err()
    );
    assert!(Renderer::check_var_name_legality(&"+23;.'wow'".to_string(), true).is_err());
    assert!(Renderer::check_var_name_legality(&"test ".to_string(), true).is_err());
}

#[test]
fn find_syntax_matches_test() {
    assert_eq!(
        Renderer::find_syntax_matches(&"[[ test.e ]]\n[[]]\nyay [[ if:yay ]]".to_string()),
        vec![
            SyntaxMatch {
                index: 0,
                content: "[[ test.e ]]".to_string(),
            },
            SyntaxMatch {
                index: 22,
                content: "[[ if:yay ]]".to_string(),
            },
        ]
    );
    assert_eq!(
        Renderer::find_syntax_matches(&"lorem\n[[ \na ]]\nhello [[ na=me ]]".to_string()),
        vec![]
    );
}

#[test]
fn variable_test() {
    let r = renderer();
    let mut vars = Vars::new();
    vars.insert("a".to_string(), VarValue::U32(15));
    let mut b = Vars::new();
    b.insert("c".to_string(), VarValue::Text("abc".to_string()));
    vars.insert("b".to_string(), VarValue::Dict(b));
    vars.insert("d".to_string(), VarValue::Bool(false));
    vars.insert("testing_123".to_string(), VarValue::Text("a\nb\nc".to_string()));
    vars.insert("img".to_string(), VarValue::Text("<img/>".to_string()));
    let rendered = r
        .render(
            "[[ a ]]\n<h1>title: [[ b.c ]]</h1>\n<div>\n  <p>[[ d ]]</p>\n  [[ testing_123 ]]\n</div>\n[[ html:img ]][[ img ]]"
                .to_string(),
            &mut vars,
            None,
        )
        .unwrap();
    assert_eq!(
        rendered,
        "15\n<h1>title: abc</h1>\n<div>\n  <p>false</p>\n  a\n  b\n  c\n</div>\n<img/>&lt;img/&gt;"
    );
}

#[test]
fn if_test() {
    let r = renderer();
    let mut vars = Vars::new();
    vars.insert("koalas_list".to_string(), VarValue::List(Vec::new()));
    let mut oak = Vars::new();
    oak.insert("is_tree".to_string(), VarValue::Bool(true));
    oak.insert("is_not_tree".to_string(), VarValue::Bool(false));
    vars.insert("oak".to_string(), VarValue::Dict(oak));
    let mut pine = Vars::new();
    pine.insert("is_tree".to_string(), VarValue::Bool(true));
    pine.insert("is_not_tree".to_string(), VarValue::Bool(false));
    vars.insert("pine".to_string(), VarValue::Dict(pine));
    let mut dave = Vars::new();
    dave.insert("is_tree".to_string(), VarValue::Bool(false));
    dave.insert("is_not_tree".to_string(), VarValue::Bool(true));
    vars.insert("dave".to_string(), VarValue::Dict(dave));
    let rendered = r
        .render(
            "[[ if:koalas_list ]]<p>We have a list of koalas</p>\n[[ endif ]]<p>Dave is [[ if:dave.is_not_tree ]]not a tree[[ endif ]][[ if:dave.is_tree ]]a tree[[ endif ]]</p>\n[[ if:pine.is_tree:oak.is_tree ]]<b>Oak and pine are both trees.</b>[[ endif ]]\n[[ if:dave.is_tree:!oak.is_tree ]]<i>But Dave and Oak are different. One of them is a tree, and one of them is not a tree.</i>[[ endif ]]"
                .to_string(),
            &mut vars,
            None,
        )
        .unwrap();
    assert_eq!(
        rendered,
        "<p>Dave is not a tree</p>\n<b>Oak and pine are both trees.</b>\n<i>But Dave and Oak are different. One of them is a tree, and one of them is not a tree.</i>"
    );
}

#[test]
fn for_loop_test() {
    let r = renderer();

    // looping over an empty list leaves the surrounding text untouched
    let mut vars_empty = Vars::new();
    vars_empty.insert("loop_over".to_string(), VarValue::List(Vec::new()));
    let rendered_empty = r
        .render(
            "<ul>\n  [[ for:loop_over ]]a[[ endfor ]]\n</ul>\n<p>[[ for:loop_over:item ]][[ endfor ]]</p>"
                .to_string(),
            &mut vars_empty,
            None,
        )
        .unwrap();
    assert_eq!(rendered_empty, "<ul>\n  \n</ul>\n<p></p>");

    // item, index and maximum bindings, with an `if` comparing them
    let mut vars_max = Vars::new();
    vars_max.insert(
        "trees".to_string(),
        VarValue::List(vec![
            VarValue::Text("mango".to_string()),
            VarValue::Text("oak".to_string()),
            VarValue::Text("redwood".to_string()),
            VarValue::Text("palm".to_string()),
        ]),
    );
    let rendered_if = r
        .render(
            "[[ for:trees:tree:index_var:max_var ]][[ index_var ]]/[[ max_var ]] [[ tree ]][[ if:index_var:!max_var ]] [[ endif ]][[ endfor ]]"
                .to_string(),
            &mut vars_max,
            None,
        )
        .unwrap();
    assert_eq!(rendered_if, "0/3 mango 1/3 oak 2/3 redwood 3/3 palm");

    // a condition read from each item
    let mut vars_if2 = Vars::new();
    let mut la = Vars::new();
    la.insert("letter".to_string(), VarValue::Text("a".to_string()));
    la.insert("show".to_string(), VarValue::Bool(true));
    let mut lb = Vars::new();
    lb.insert("letter".to_string(), VarValue::Text("b".to_string()));
    lb.insert("show".to_string(), VarValue::Bool(false));
    let mut lc = Vars::new();
    lc.insert("letter".to_string(), VarValue::Text("c".to_string()));
    lc.insert("show".to_string(), VarValue::Bool(true));
    let mut ld = Vars::new();
    ld.insert("letter".to_string(), VarValue::Text("d".to_string()));
    ld.insert("show".to_string(), VarValue::Bool(false));
    vars_if2.insert(
        "letters".to_string(),
        VarValue::List(vec![
            VarValue::Dict(la),
            VarValue::Dict(lb),
            VarValue::Dict(lc),
            VarValue::Dict(ld),
        ]),
    );
    let rendered_if2 = r
        .render(
            "[[ for:letters:letter ]][[ if:letter.show ]]<p>[[ letter.letter ]]</p>[[ endif ]][[ endfor ]]"
                .to_string(),
            &mut vars_if2,
            None,
        )
        .unwrap();
    assert_eq!(rendered_if2, "<p>a</p><p>c</p>");

    // the inner loop re-executes fully per outer iteration, bindings shared
    let mut vars_nested = Vars::new();
    vars_nested.insert(
        "numbers".to_string(),
        VarValue::List(vec![VarValue::U32(1), VarValue::U32(2), VarValue::U32(3)]),
    );
    let rendered_nested = r
        .render(
            "[[ for:numbers:i ]].[[ i ]].[[ for:numbers:j ]][[ j ]][[ endfor ]][[ endfor ]]"
                .to_string(),
            &mut vars_nested,
            None,
        )
        .unwrap();
    assert_eq!(rendered_nested, ".1.123.2.123.3.123");
}

#[test]
fn no_directives_identity_test() {
    let r = renderer();
    let mut vars = Vars::new();
    let input = "plain text, nothing to do\nwith [brackets] but [[no directive".to_string();
    assert_eq!(r.render(input.clone(), &mut vars, None).unwrap(), input);
}

#[test]
fn text_truthiness_test() {
    // text is truthy exactly when non-empty
    assert!(!VarValue::Text(String::new()).is_truthy());
    assert!(VarValue::Text("x".to_string()).is_truthy());
    assert!(VarValue::Bool(true).is_truthy());
    assert!(!VarValue::Bool(false).is_truthy());
    assert!(!VarValue::U32(0).is_truthy());
    assert!(VarValue::U32(7).is_truthy());
    assert!(!VarValue::List(Vec::new()).is_truthy());
    assert!(!VarValue::Dict(Vars::new()).is_truthy());
    let r = renderer();
    let mut vars = Vars::new();
    vars.insert("empty".to_string(), VarValue::Text(String::new()));
    vars.insert("full".to_string(), VarValue::Text("x".to_string()));
    let rendered = r
        .render(
            "[[ if:empty ]]E[[ endif ]][[ if:full ]]F[[ endif ]]".to_string(),
            &mut vars,
            None,
        )
        .unwrap();
    assert_eq!(rendered, "F");
}

#[test]
fn html_never_escaped_bare_always_escaped_test() {
    let r = renderer();
    let mut vars = Vars::new();
    vars.insert("v".to_string(), VarValue::Text("<b>&</b>".to_string()));
    let rendered = r
        .render("[[ html:v ]]|[[ v ]]".to_string(), &mut vars, None)
        .unwrap();
    assert_eq!(rendered, "<b>&</b>|&lt;b&gt;&&lt;/b&gt;");
}

#[test]
fn component_depth_test() {
    let mut r = renderer();
    r.add_component("c1.html".to_string(), "1[[ component:c2 ]]".to_string());
    r.add_component("c2.html".to_string(), "2[[ component:c3 ]]".to_string());
    r.add_component("c3.html".to_string(), "3[[ component:c4 ]]".to_string());
    r.add_component("c4.html".to_string(), "4[[ component:c5 ]]".to_string());
    r.add_component("c5.html".to_string(), "5[[ component:c6 ]]".to_string());
    r.add_component("c6.html".to_string(), "leaf".to_string());
    let mut vars = Vars::new();
    // five levels of expansion below the top template succeed
    let ok = r
        .render("[[ component:c1 ]]".to_string(), &mut vars, None)
        .unwrap();
    assert_eq!(ok, "12345leaf");
    // one more level fails with the recursion guard
    let mut deep = renderer();
    deep.add_component("c1.html".to_string(), "1[[ component:c2 ]]".to_string());
    deep.add_component("c2.html".to_string(), "2[[ component:c3 ]]".to_string());
    deep.add_component("c3.html".to_string(), "3[[ component:c4 ]]".to_string());
    deep.add_component("c4.html".to_string(), "4[[ component:c5 ]]".to_string());
    deep.add_component("c5.html".to_string(), "5[[ component:c6 ]]".to_string());
    deep.add_component("c6.html".to_string(), "6[[ component:c7 ]]".to_string());
    deep.add_component("c7.html".to_string(), "x".to_string());
    let mut vars2 = Vars::new();
    let err = deep
        .render("[[ component:c1 ]]".to_string(), &mut vars2, None)
        .unwrap_err();
    assert!(matches!(err, ErrorKind::RecursionTooDeep));
}

#[test]
fn component_inlines_and_shares_vars_test() {
    let mut r = renderer();
    r.add_component("greet.html".to_string(), "hello [[ who ]]".to_string());
    let mut vars = Vars::new();
    vars.insert("who".to_string(), VarValue::Text("tree".to_string()));
    let rendered = r
        .render("<p>[[ component:greet ]]</p>".to_string(), &mut vars, None)
        .unwrap();
    assert_eq!(rendered, "<p>hello tree</p>");
}

#[test]
fn missing_endif_fails_test() {
    // the missing closer is only looked for when the condition fails and
    // the block must be skipped; a passing condition just runs on
    let r = renderer();
    let mut vars = Vars::new();
    vars.insert("x".to_string(), VarValue::Bool(false));
    let err = r
        .render("before [[ if:x ]] inside".to_string(), &mut vars, None)
        .unwrap_err();
    assert!(matches!(err, ErrorKind::MissingEndIf));
    let mut vars_true = Vars::new();
    vars_true.insert("x".to_string(), VarValue::Bool(true));
    let ok = r
        .render("before [[ if:x ]] inside".to_string(), &mut vars_true, None)
        .unwrap();
    assert_eq!(ok, "before  inside");
}

#[test]
fn missing_endfor_fails_test() {
    let r = renderer();
    let mut vars = Vars::new();
    vars.insert("xs".to_string(), VarValue::List(Vec::new()));
    let err = r
        .render("[[ for:xs ]]body".to_string(), &mut vars, None)
        .unwrap_err();
    assert!(matches!(err, ErrorKind::MissingEndFor));
}

#[test]
fn error_variants_test() {
    let r = renderer();
    // variable not found
    let mut vars = Vars::new();
    let err = r
        .render("[[ missing ]]".to_string(), &mut vars, None)
        .unwrap_err();
    assert!(matches!(err, ErrorKind::VarNotFound(_)));
    // illegal loop-variable name (a dot is not allowed there)
    let mut vars2 = Vars::new();
    vars2.insert(
        "xs".to_string(),
        VarValue::List(vec![VarValue::U32(1)]),
    );
    let err2 = r
        .render(
            "[[ for:xs:a.b ]][[ endfor ]]".to_string(),
            &mut vars2,
            None,
        )
        .unwrap_err();
    assert!(matches!(err2, ErrorKind::IllegalVarName(_)));
    // bad arity
    let mut vars3 = Vars::new();
    vars3.insert("a".to_string(), VarValue::Bool(true));
    let err3 = r
        .render("[[ if:a:a:a ]][[ endif ]]".to_string(), &mut vars3, None)
        .unwrap_err();
    assert!(matches!(err3, ErrorKind::BadArgument(_)));
    // looping over something that is not a list
    let mut vars4 = Vars::new();
    vars4.insert("a".to_string(), VarValue::Bool(true));
    let err4 = r
        .render("[[ for:a ]][[ endfor ]]".to_string(), &mut vars4, None)
        .unwrap_err();
    assert!(matches!(err4, ErrorKind::BadArgument(_)));
    // a component that was never stored
    let mut vars5 = Vars::new();
    let err5 = r
        .render("[[ component:nope ]]".to_string(), &mut vars5, None)
        .unwrap_err();
    assert!(matches!(err5, ErrorKind::ComponentNotFound(_)));
    // a stray endfor
    let mut vars6 = Vars::new();
    let err6 = r
        .render("[[ endfor ]]".to_string(), &mut vars6, None)
        .unwrap_err();
    assert!(matches!(err6, ErrorKind::BadArgument(_)));
    // html without its variable
    let mut vars7 = Vars::new();
    let err7 = r
        .render("[[ html ]]".to_string(), &mut vars7, None)
        .unwrap_err();
    assert!(matches!(err7, ErrorKind::BadArgument(_)));
}

#[test]
fn iteration_limit_test() {
    let r = renderer();
    let mut template = String::new();
    for _ in 0..75002 {
        template.push_str("[[ a ]]");
    }
    let mut vars = Vars::new();
    vars.insert("a".to_string(), VarValue::U32(1));
    let err = r.render(template, &mut vars, None).unwrap_err();
    assert!(matches!(err, ErrorKind::IterationLimit));
}

#[test]
fn list_rendering_test() {
    let r = renderer();
    let mut vars = Vars::new();
    vars.insert(
        "xs".to_string(),
        VarValue::List(vec![
            VarValue::Text("a".to_string()),
            VarValue::U32(21),
        ]),
    );
    vars.insert("empty".to_string(), VarValue::List(Vec::new()));
    let rendered = r
        .render("[[ html:xs ]] [[ html:empty ]]".to_string(), &mut vars, None)
        .unwrap();
    assert_eq!(rendered, "[\"a\", \"21\"] []");
}

#[test]
fn error_message_test() {
    assert_eq!(
        ErrorKind::VarNotFound("x".to_string()).message(),
        "Variable 'x' not found"
    );
    assert_eq!(
        ErrorKind::MissingEndFor.message(),
        "`for:` statement missing `[[ endfor ]]`"
    );
}

#[test]
fn loop_variables_share_one_namespace_test() {
    // loop bindings live in the one shared mapping: an inner loop with the
    // same name overwrites the outer binding, and bindings persist after
    // their loop ends
    let r = renderer();
    let mut vars = Vars::new();
    vars.insert(
        "xs".to_string(),
        VarValue::List(vec![
            VarValue::Text("a".to_string()),
            VarValue::Text("b".to_string()),
        ]),
    );
    vars.insert(
        "ys".to_string(),
        VarValue::List(vec![
            VarValue::Text("1".to_string()),
            VarValue::Text("2".to_string()),
        ]),
    );
    let rendered = r
        .render(
            "[[ for:xs:x ]]([[ x ]][[ for:ys:x ]][[ x ]][[ endfor ]][[ x ]])[[ endfor ]]-[[ x ]]"
                .to_string(),
            &mut vars,
            None,
        )
        .unwrap();
    assert_eq!(rendered, "(a122)(b122)-2");
}

#[test]
fn empty_inner_loop_keeps_outer_loop_test() {
    // an empty inner list skips only its own block; the outer loop still
    // runs every iteration
    let r = renderer();
    let mut vars = Vars::new();
    vars.insert(
        "outer".to_string(),
        VarValue::List(vec![VarValue::U32(1), VarValue::U32(2)]),
    );
    vars.insert("empty".to_string(), VarValue::List(Vec::new()));
    let rendered = r
        .render(
            "[[ for:outer:o ]][[ o ]][[ for:empty ]]x[[ endfor ]]![[ endfor ]]".to_string(),
            &mut vars,
            None,
        )
        .unwrap();
    assert_eq!(rendered, "1!2!");
}
