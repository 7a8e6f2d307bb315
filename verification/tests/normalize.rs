use sqlmerge::sql::{normalize_sql, quote_string_literal};

#[test]
fn collapses_whitespace_outside_quotes() {
    assert_eq!(
        normalize_sql("CREATE TABLE t (\n  id  INTEGER  PRIMARY KEY ,\n  v TEXT\n)"),
        normalize_sql("CREATE TABLE t(id INTEGER PRIMARY KEY, v TEXT)"),
    );
}

#[test]
fn preserves_whitespace_inside_string_literals() {
    let spaced = normalize_sql("CREATE TABLE t (v TEXT DEFAULT 'a, b')");
    let tight = normalize_sql("CREATE TABLE t (v TEXT DEFAULT 'a,b')");
    assert_ne!(spaced, tight);
    assert!(spaced.contains("'a, b'"));
}

#[test]
fn doubled_quote_escape_stays_inside_literal() {
    // 'it''s  x' contains an escaped quote; the run of spaces after it is
    // still inside the literal and must survive.
    let sql = "CREATE TABLE t (v TEXT DEFAULT 'it''s  x')";
    assert!(normalize_sql(sql).contains("'it''s  x'"));
}

#[test]
fn preserves_quoted_identifiers() {
    let quoted = normalize_sql("CREATE TABLE \"my  table\" (id INTEGER PRIMARY KEY)");
    assert!(quoted.contains("\"my  table\""));
    let bracket = normalize_sql("CREATE TABLE [my  table] (id INTEGER PRIMARY KEY)");
    assert!(bracket.contains("[my  table]"));
}

#[test]
fn line_comment_does_not_diverge() {
    let none = normalize_sql("CREATE TABLE t (id INTEGER PRIMARY KEY)");
    let v1 = normalize_sql("CREATE TABLE t (id INTEGER PRIMARY KEY) -- v1");
    let v2 = normalize_sql("CREATE TABLE t (id INTEGER PRIMARY KEY) -- v2");
    assert_eq!(v1, v2);
    assert_eq!(v1, none);
}

#[test]
fn block_comment_does_not_diverge() {
    let none = normalize_sql("CREATE TABLE t (id INTEGER PRIMARY KEY)");
    // Mid-statement block comment must vanish without changing the schema.
    let embedded = normalize_sql("CREATE TABLE t (id INTEGER /* pk */ PRIMARY KEY)");
    assert_eq!(embedded, none);
}

#[test]
fn comment_does_not_glue_adjacent_tokens() {
    let out = normalize_sql("CREATE TABLE t (a/* x */b TEXT)");
    assert!(out.contains("a b"), "tokens glued: {out}");
    assert!(!out.contains("ab"), "tokens glued: {out}");
}

#[test]
fn double_dash_inside_string_literal_is_not_a_comment() {
    let out = normalize_sql("CREATE TABLE t (v TEXT DEFAULT '-- not a comment')");
    assert!(out.contains("'-- not a comment'"), "literal mangled: {out}");
}

#[test]
fn punctuation_inside_comment_does_not_affect_real_punctuation() {
    // A `,` inside a comment must be dropped with the comment and must not
    // interfere with structural-punctuation handling of the real commas.
    let with_comment = normalize_sql("CREATE TABLE t (a TEXT, /* one, two, three */ b TEXT)");
    let without = normalize_sql("CREATE TABLE t (a TEXT, b TEXT)");
    assert_eq!(with_comment, without);
}

#[test]
fn normal_form_is_exact() {
    assert_eq!(
        normalize_sql("CREATE TABLE t (\n  id  INTEGER\tPRIMARY KEY ,\n  v TEXT\n) -- end"),
        "CREATE TABLE t(id INTEGER PRIMARY KEY,v TEXT)",
    );
    assert_eq!(normalize_sql(""), "");
    assert_eq!(normalize_sql("  \n "), "");
    assert_eq!(normalize_sql("/* only */ -- a comment"), "");
    assert_eq!(normalize_sql(" a "), "a");
}

#[test]
fn spaces_are_dropped_on_both_sides_of_punctuation() {
    assert_eq!(normalize_sql("t ( a , b ) c"), "t(a,b)c");
    assert_eq!(
        normalize_sql("CREATE TABLE t(id INTEGER PRIMARY KEY) WITHOUT ROWID"),
        normalize_sql("CREATE TABLE t(id INTEGER PRIMARY KEY)WITHOUT ROWID"),
    );
}

#[test]
fn comments_end_where_they_should() {
    assert_eq!(normalize_sql("a--b\nc"), "a c");
    assert_eq!(normalize_sql("a--b"), "a");
    assert_eq!(normalize_sql("a/*b*/c"), "a c");
    assert_eq!(normalize_sql("a/**/c"), "a c");
    assert_eq!(normalize_sql("a/*/c*/d"), "a d");
    assert_eq!(normalize_sql("a/*b"), "a");
    // Block comments do not nest.
    assert_eq!(normalize_sql("a/* /* */b*/"), "a b*/");
    assert_eq!(normalize_sql("a - - b / * c"), "a - - b / * c");
    assert_eq!(normalize_sql("a/* -- */b"), "a b");
    assert_eq!(normalize_sql("a-- /*\nb"), "a b");
}

#[test]
fn quoted_regions_hold_anything() {
    assert_eq!(normalize_sql("'a  --b' 'c /* d'"), "'a  --b' 'c /* d'");
    assert_eq!(normalize_sql("[a ( , ) b]  c"), "[a ( , ) b] c");
    assert_eq!(normalize_sql("`a``  b`  c"), "`a``  b` c");
    assert_eq!(normalize_sql("[a]]  b]  c"), "[a]]  b] c");
    assert_eq!(normalize_sql("'a''  b'  c"), "'a''  b' c");
    assert_eq!(normalize_sql("\"'  '\" x"), "\"'  '\" x");
}

#[test]
fn region_that_nothing_closes_runs_to_the_end() {
    assert_eq!(normalize_sql("a  'b  c"), "a 'b  c");
    assert_eq!(normalize_sql("'a  "), "'a ");
    assert_eq!(normalize_sql("'a''"), "'a''");
}

#[test]
fn normalizing_twice_changes_nothing() {
    for sql in [
        "CREATE TABLE t (a/* x */b TEXT) -- c",
        "CREATE TABLE [my  table] ( id INTEGER , v TEXT DEFAULT 'it''s  x' )",
        "a - -b / *c",
        "x 'y' 'z' [w]",
    ] {
        let once = normalize_sql(sql);
        assert_eq!(normalize_sql(&once), once);
    }
}

#[test]
fn different_tokens_have_different_normal_forms() {
    let base = normalize_sql("CREATE TABLE t (id INTEGER)");
    assert_ne!(base, normalize_sql("CREATE TABLE t (id TEXT)"));
    assert_ne!(base, normalize_sql("CREATE TABLE t (id INTEGER, v TEXT)"));
    assert_ne!(base, normalize_sql("CREATE TABLE t (idINTEGER)"));
}

#[test]
fn whitespace_is_what_unicode_says() {
    for c in '\u{0}'..=char::MAX {
        if "'\"`[-/(),".contains(c) {
            continue;
        }
        let spaced = normalize_sql(&format!("a{c}b")) == "a b";
        assert_eq!(spaced, c.is_whitespace(), "{c:?}");
    }
}

#[test]
fn gaps_may_be_spelled_in_any_way() {
    for gap in [" ", "\n\t ", "/* x */", " -- y\n", "\u{a0}"] {
        assert_eq!(normalize_sql(&format!("a{gap}b")), "a b");
        assert_eq!(normalize_sql(&format!("a{gap}(b")), "a(b");
        assert_eq!(normalize_sql(&format!("a){gap}b")), "a)b");
        assert_eq!(normalize_sql(&format!("{gap}a,{gap}b{gap}")), "a,b");
    }
}

#[test]
fn string_literals_double_their_quotes() {
    assert_eq!(quote_string_literal(""), "''");
    assert_eq!(quote_string_literal("/tmp/base.db"), "'/tmp/base.db'");
    assert_eq!(quote_string_literal("it's"), "'it''s'");
    assert_eq!(quote_string_literal("'"), "''''");
    // Such a literal is one quoted region.
    assert_eq!(normalize_sql(&quote_string_literal("a'  --b")), "'a''  --b'");
    assert_ne!(quote_string_literal("'"), quote_string_literal("''"));
}
